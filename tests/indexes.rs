use std::rc::Rc;

use course_index::chaininghash::ChainingHash;
use course_index::config::{parse_size, Config};
use course_index::course::{
    compare_text, hash_course_num, parse_course_line, parse_courses, split_fields, Course, TextOrder,
};
use course_index::error::TableError;
use course_index::openhash::OpenHash;
use course_index::populate_hashes;
use course_index::professors::Professors;

fn course(year: &str, num: u32, prof_id: &str, fname: &str, lname: &str) -> Rc<Course> {
    Rc::new(Course::new(
        year.to_string(),
        "CSCI".to_string(),
        num,
        format!("Course {}", num),
        prof_id.to_string(),
        fname.to_string(),
        lname.to_string(),
    ))
}

fn sample() -> Vec<Rc<Course>> {
    vec![
        course("2021", 2270, "llytellf", "Lin", "Lytell"),
        course("2020", 1300, "nscollan0", "Nia", "Scollan"),
        course("2021", 3104, "llytellf", "Lin", "Lytell"),
        course("2019", 2270, "bmarr1", "Bo", "Marr"),
        course("2021", 4229, "nscollan0", "Nia", "Scollan"),
        course("2022", 2400, "amoss2", "Ada", "Moss"),
    ]
}

fn same(a: &Option<Rc<Course>>, b: &Rc<Course>) -> bool {
    match a {
        Some(x) => Rc::ptr_eq(x, b),
        None => false,
    }
}

#[test]
fn chaining_scenario_single_record() {
    let records = vec![course("2021", 2270, "llytellf", "Lin", "Lytell")];
    assert_eq!(hash_course_num(2270, 10), 0);
    let table = ChainingHash::build(&records, 10).unwrap();
    assert!(same(&table.search("2021", 2270, "llytellf"), &records[0]));
    assert!(table.search("2021", 2270, "someoneelse").is_none());
    assert_eq!(table.collisions(), 0);
    assert_eq!(table.search_ops(), 0);
}

#[test]
fn open_addressing_scenario_collision() {
    let records = vec![
        course("2021", 2, "ida", "A", "B"),
        course("2021", 7, "idb", "C", "D"),
        course("2021", 12, "idc", "E", "F"),
    ];
    let table = OpenHash::build(&records, 5).unwrap();
    // slots: 1 <- third record (attempt 2), 2 <- first, 3 <- second (attempt 1)
    let all = table.list_all();
    assert_eq!(all.len(), 3);
    assert!(Rc::ptr_eq(&all[0], &records[2]));
    assert!(Rc::ptr_eq(&all[1], &records[0]));
    assert!(Rc::ptr_eq(&all[2], &records[1]));
    assert_eq!(table.collisions(), 2);
    assert_eq!(table.search_ops(), 3);
    for r in records.iter() {
        assert!(same(&table.search(&r.year, r.course_num, &r.prof_id), r));
    }
}

#[test]
fn tree_scenario_three_professors() {
    let records = vec![
        course("2021", 1, "b", "Bea", "Bee"),
        course("2021", 2, "a", "Al", "Ay"),
        course("2021", 3, "c", "Cy", "Sea"),
    ];
    let profs = Professors::build(&records);
    let a = profs.search_professor("a").unwrap();
    assert_eq!(a.name, "Al Ay");
    assert_eq!(a.courses.len(), 1);
    assert!(Rc::ptr_eq(&a.courses[0], &records[1]));
    assert_eq!(profs.search_professor("b").unwrap().name, "Bea Bee");
    assert_eq!(profs.search_professor("c").unwrap().name, "Cy Sea");
    assert!(profs.search_professor("z").is_none());
}

#[test]
fn zero_size_is_config_error() {
    let records = sample();
    assert!(matches!(ChainingHash::build(&records, 0), Err(TableError::ConfigError)));
    assert!(matches!(OpenHash::build(&records, 0), Err(TableError::ConfigError)));
    assert!(matches!(populate_hashes(&records, 0), Err(TableError::ConfigError)));
    let empty: Vec<Rc<Course>> = Vec::new();
    assert!(matches!(ChainingHash::build(&empty, 0), Err(TableError::ConfigError)));
}

#[test]
fn more_records_than_slots_is_table_full() {
    let records = sample();
    assert!(matches!(OpenHash::build(&records, 5), Err(TableError::TableFull)));
    assert!(matches!(populate_hashes(&records, 5), Err(TableError::TableFull)));
}

#[test]
fn unreachable_free_slot_is_table_full() {
    // with four slots, attempts from slot 0 only reach slots 0 and 1
    let records = vec![
        course("2021", 0, "ida", "A", "B"),
        course("2021", 4, "idb", "C", "D"),
        course("2021", 8, "idc", "E", "F"),
    ];
    assert!(matches!(OpenHash::build(&records, 4), Err(TableError::TableFull)));
    assert!(ChainingHash::build(&records, 4).is_ok());
}

#[test]
fn round_trip_both_tables() {
    let records = sample();
    for size in [1usize, 2, 3, 7, 10, 64] {
        let chain = ChainingHash::build(&records, size).unwrap();
        for r in records.iter() {
            assert!(same(&chain.search(&r.year, r.course_num, &r.prof_id), r));
        }
    }
    for size in [7usize, 11, 64] {
        let open = OpenHash::build(&records, size).unwrap();
        for r in records.iter() {
            assert!(same(&open.search(&r.year, r.course_num, &r.prof_id), r));
        }
    }
}

#[test]
fn building_twice_gives_same_layout() {
    let records = sample();
    let a = ChainingHash::build(&records, 3).unwrap();
    let b = ChainingHash::build(&records, 3).unwrap();
    let la = a.list_all();
    let lb = b.list_all();
    assert_eq!(la.len(), lb.len());
    for i in 0..la.len() {
        assert!(Rc::ptr_eq(&la[i], &lb[i]));
    }
    assert_eq!(a.collisions(), b.collisions());
    assert_eq!(a.search_ops(), b.search_ops());
    let c = OpenHash::build(&records, 7).unwrap();
    let d = OpenHash::build(&records, 7).unwrap();
    let lc = c.list_all();
    let ld = d.list_all();
    assert_eq!(lc.len(), ld.len());
    for i in 0..lc.len() {
        assert!(Rc::ptr_eq(&lc[i], &ld[i]));
    }
    assert_eq!(c.collisions(), d.collisions());
    assert_eq!(c.search_ops(), d.search_ops());
}

#[test]
fn list_all_visits_each_record_once() {
    let records = sample();
    let chain = ChainingHash::build(&records, 3).unwrap();
    let open = OpenHash::build(&records, 11).unwrap();
    for listed in [chain.list_all(), open.list_all()] {
        assert_eq!(listed.len(), records.len());
        for r in records.iter() {
            assert_eq!(listed.iter().filter(|x| Rc::ptr_eq(x, r)).count(), 1);
        }
    }
}

#[test]
fn chaining_list_all_order() {
    let records = sample();
    // size 3: 2270%3=2, 1300%3=1, 3104%3=2, 2270%3=2, 4229%3=2, 2400%3=0
    let chain = ChainingHash::build(&records, 3).unwrap();
    let listed = chain.list_all();
    let order = [5usize, 1, 0, 2, 3, 4];
    for (i, k) in order.iter().enumerate() {
        assert!(Rc::ptr_eq(&listed[i], &records[*k]));
    }
    assert_eq!(chain.collisions(), 3);
    assert_eq!(chain.search_ops(), 1 + 2 + 3);
    assert_eq!(chain.hash_size(), 3);
}

#[test]
fn absent_key_is_not_found() {
    let records = sample();
    let chain = ChainingHash::build(&records, 3).unwrap();
    let open = OpenHash::build(&records, 11).unwrap();
    let profs = Professors::build(&records);
    assert!(chain.search("2021", 2270, "bmarr1").is_none());
    assert!(open.search("2021", 2270, "bmarr1").is_none());
    assert!(chain.search("2021", 9999, "llytellf").is_none());
    assert!(open.search("2018", 1300, "nscollan0").is_none());
    assert!(profs.search_professor("nobody").is_none());
    assert!(profs.search_professor("").is_none());
}

#[test]
fn duplicate_key_earliest_wins_in_chaining() {
    let records = vec![
        course("2021", 2270, "llytellf", "Lin", "Lytell"),
        course("2021", 2270, "llytellf", "Lin", "Lytell"),
    ];
    let chain = ChainingHash::build(&records, 10).unwrap();
    assert!(same(&chain.search("2021", 2270, "llytellf"), &records[0]));
    assert_eq!(chain.list_all().len(), 2);
}

#[test]
fn professor_aggregation_keeps_order() {
    let records = sample();
    let profs = Professors::build(&records);
    let l = profs.search_professor("llytellf").unwrap();
    assert_eq!(l.name, "Lin Lytell");
    assert_eq!(l.courses.len(), 2);
    assert!(Rc::ptr_eq(&l.courses[0], &records[0]));
    assert!(Rc::ptr_eq(&l.courses[1], &records[2]));
    let n = profs.search_professor("nscollan0").unwrap();
    assert_eq!(n.courses.len(), 2);
    assert!(Rc::ptr_eq(&n.courses[0], &records[1]));
    assert!(Rc::ptr_eq(&n.courses[1], &records[4]));
    let b = profs.search_professor("bmarr1").unwrap();
    assert_eq!(b.name, "Bo Marr");
    assert_eq!(b.courses.len(), 1);
}

#[test]
fn professor_name_comes_from_first_record() {
    let records = vec![
        course("2021", 1, "x1", "First", "Name"),
        course("2022", 2, "x1", "Other", "Name"),
    ];
    let mut profs = Professors::build(&records);
    assert_eq!(profs.search_professor("x1").unwrap().name, "First Name");
    let extra = course("2023", 3, "x0", "New", "Prof");
    profs.add_course(&extra);
    assert_eq!(profs.search_professor("x0").unwrap().courses.len(), 1);
    assert_eq!(profs.search_professor("x1").unwrap().courses.len(), 2);
}

#[test]
fn empty_records() {
    let empty: Vec<Rc<Course>> = Vec::new();
    let chain = ChainingHash::build(&empty, 4).unwrap();
    let open = OpenHash::build(&empty, 4).unwrap();
    assert!(chain.list_all().is_empty());
    assert!(open.list_all().is_empty());
    assert!(chain.search("2021", 1, "a").is_none());
    assert!(open.search("2021", 1, "a").is_none());
    assert!(Professors::build(&empty).search_professor("a").is_none());
}

#[test]
fn populate_builds_all_three() {
    let records = sample();
    let (open, chain, profs) = populate_hashes(&records, 13).unwrap();
    assert_eq!(open.hash_size(), 13);
    assert_eq!(chain.hash_size(), 13);
    assert!(same(&open.search("2022", 2400, "amoss2"), &records[5]));
    assert!(same(&chain.search("2022", 2400, "amoss2"), &records[5]));
    assert_eq!(profs.search_professor("amoss2").unwrap().name, "Ada Moss");
}

#[test]
fn course_accessors() {
    let c = course("2021", 2270, "llytellf", "Lin", "Lytell");
    assert_eq!(c.get_prof_id(), "llytellf");
    assert_eq!(c.get_prof_name(), "Lin Lytell");
    assert_eq!(c.hash(10), 0);
    assert_eq!(c.hash(7), 2270 % 7);
    assert!(c.match_course("2021", 2270, "llytellf"));
    assert!(!c.match_course("2020", 2270, "llytellf"));
    assert!(!c.match_course("2021", 2271, "llytellf"));
    assert!(!c.match_course("2021", 2270, "llytell"));
    assert_eq!(hash_course_num(u32::MAX, 1), 0);
}

#[test]
fn text_comparison_order() {
    assert!(matches!(compare_text("a", "b"), TextOrder::Less));
    assert!(matches!(compare_text("b", "a"), TextOrder::Greater));
    assert!(matches!(compare_text("ab", "ab"), TextOrder::Equal));
    assert!(matches!(compare_text("ab", "abc"), TextOrder::Less));
    assert!(matches!(compare_text("abc", "ab"), TextOrder::Greater));
    assert!(matches!(compare_text("", ""), TextOrder::Equal));
    assert!(matches!(compare_text("Z", "a"), TextOrder::Less));
}

#[test]
fn config_reads_arguments() {
    let args = vec!["prog".to_string(), "courses.csv".to_string(), "17".to_string()];
    let c = Config::build(&args).unwrap();
    assert_eq!(c.file_path, "courses.csv");
    assert_eq!(c.hash_size, 17);
    assert_eq!(Config::build(&vec!["prog".to_string()]).err(), Some("Did not get file path"));
    assert_eq!(
        Config::build(&vec!["prog".to_string(), "f".to_string()]).err(),
        Some("Did not get hash size")
    );
    assert_eq!(
        Config::build(&vec!["prog".to_string(), "f".to_string(), "x1".to_string()]).err(),
        Some("Hash size is not a number")
    );
}

#[test]
fn size_parsing() {
    assert_eq!(parse_size("0"), Some(0));
    assert_eq!(parse_size("2270"), Some(2270));
    assert_eq!(parse_size(""), None);
    assert_eq!(parse_size("-3"), None);
    assert_eq!(parse_size("12a"), None);
    assert_eq!(parse_size("99999999999999999999999"), None);
    assert_eq!(parse_size(&usize::MAX.to_string()), Some(usize::MAX));
}

#[test]
fn course_lines_are_parsed() {
    let c = parse_course_line("2021,CSCI,2270,Data Structures,llytellf,Lin,Lytell").unwrap();
    assert_eq!(c.year, "2021");
    assert_eq!(c.department, "CSCI");
    assert_eq!(c.course_num, 2270);
    assert_eq!(c.course_name, "Data Structures");
    assert_eq!(c.prof_id, "llytellf");
    assert_eq!(c.prof_fname, "Lin");
    assert_eq!(c.prof_lname, "Lytell");
    assert!(parse_course_line("2021,CSCI,2270,Data Structures,llytellf,Lin").is_none());
    assert!(parse_course_line("2021,CSCI,22x0,Data Structures,llytellf,Lin,Lytell").is_none());
    assert!(parse_course_line("2021,CSCI,4294967296,DS,llytellf,Lin,Lytell").is_none());
    assert_eq!(split_fields("a,,b"), vec!["a".to_string(), "".to_string(), "b".to_string()]);
    assert_eq!(split_fields(""), vec!["".to_string()]);
    let lines = vec![
        "year,dept,num,name,id,first,last".to_string(),
        "2021,CSCI,2270,DS,llytellf,Lin,Lytell".to_string(),
        "2020,CSCI,1300,CS1,nscollan0,Nia,Scollan".to_string(),
    ];
    let courses = parse_courses(&lines).unwrap();
    assert_eq!(courses.len(), 2);
    assert_eq!(courses[1].course_num, 1300);
    assert!(parse_courses(&Vec::new()).unwrap().is_empty());
    let bad = vec!["header".to_string(), "too,few".to_string()];
    assert!(parse_courses(&bad).is_none());
}
