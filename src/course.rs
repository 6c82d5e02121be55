use std::rc::Rc;
use vstd::prelude::*;
use vstd::string::{StrSliceExecFns, StringExecFns};

use crate::config::{decimal_value, is_decimal, parse_size};

verus! {

/// Order of professor ids: character-wise lexicographic comparison, where a
/// proper prefix comes first. Stated from position `i` on.
pub open spec fn text_less_from(a: Seq<char>, b: Seq<char>, i: int) -> bool
    decreases a.len() - i,
{
    if i < 0 || i >= a.len() {
        i >= 0 && i < b.len()
    } else if i >= b.len() {
        false
    } else if a[i] != b[i] {
        (a[i] as u32) < (b[i] as u32)
    } else {
        text_less_from(a, b, i + 1)
    }
}

/// `a` sorts strictly before `b`.
pub open spec fn text_less(a: Seq<char>, b: Seq<char>) -> bool {
    text_less_from(a, b, 0)
}

/// Where `a` and `b` agree before `i`, the order from `i` on is the whole order.
proof fn lemma_text_less_prefix(a: Seq<char>, b: Seq<char>, i: int)
    requires
        0 <= i <= a.len(),
        i <= b.len(),
        forall|j: int| 0 <= j < i ==> a[j] == b[j],
    ensures
        text_less(a, b) == text_less_from(a, b, i),
        text_less(b, a) == text_less_from(b, a, i),
    decreases i,
{
    if i > 0 {
        lemma_text_less_prefix(a, b, i - 1);
    }
}

/// No text sorts before itself, and two texts never sort before each other.
pub proof fn lemma_text_less_asymmetric(a: Seq<char>, b: Seq<char>)
    ensures
        !(text_less(a, b) && text_less(b, a)),
        !text_less(a, a),
{
    lemma_text_less_from_asymmetric(a, b, 0);
    lemma_text_less_from_asymmetric(a, a, 0);
}

proof fn lemma_text_less_from_asymmetric(a: Seq<char>, b: Seq<char>, i: int)
    requires
        i >= 0,
    ensures
        !(text_less_from(a, b, i) && text_less_from(b, a, i)),
    decreases a.len() - i,
{
    if i < a.len() && i < b.len() && a[i] == b[i] {
        lemma_text_less_from_asymmetric(a, b, i + 1);
    }
}

/// The result of comparing two texts.
pub enum TextOrder {
    Less,
    Equal,
    Greater,
}

/// Compares two texts character by character.
pub fn compare_text(a: &str, b: &str) -> (r: TextOrder)
    ensures
        r is Less <==> text_less(a@, b@),
        r is Equal <==> a@ == b@,
        r is Greater <==> text_less(b@, a@),
{
    let a_len = a.unicode_len();
    let b_len = b.unicode_len();
    let mut i: usize = 0;
    while i < a_len && i < b_len
        invariant
            a_len == a@.len(),
            b_len == b@.len(),
            i <= a_len,
            i <= b_len,
            forall|j: int| 0 <= j < i ==> a@[j] == b@[j],
        decreases a_len - i,
    {
        let ca = a.get_char(i);
        let cb = b.get_char(i);
        if ca != cb {
            proof {
                lemma_text_less_prefix(a@, b@, i as int);
            }
            if (ca as u32) < (cb as u32) {
                return TextOrder::Less;
            } else {
                return TextOrder::Greater;
            }
        }
        i = i + 1;
    }
    proof {
        lemma_text_less_prefix(a@, b@, i as int);
    }
    if i < b_len {
        TextOrder::Less
    } else if i < a_len {
        TextOrder::Greater
    } else {
        assert(a@ =~= b@);
        TextOrder::Equal
    }
}


/// One academic course offering. Records are immutable once built and are
/// shared between the indexes through `Rc`.
pub struct Course {
    pub year: String,
    pub department: String,
    pub course_num: u32,
    pub course_name: String,
    pub prof_id: String,
    pub prof_fname: String,
    pub prof_lname: String,
}

/// The slot of a course number in a table of `size` slots.
pub open spec fn slot_of(course_num: u32, size: nat) -> int
    recommends
        size > 0,
{
    (course_num as int) % (size as int)
}

impl Course {
    /// The record has the composite key (year, course number, professor id).
    pub open spec fn has_key(&self, year: Seq<char>, course_num: u32, prof_id: Seq<char>) -> bool {
        self.year@ == year && self.course_num == course_num && self.prof_id@ == prof_id
    }

    /// The professor's display name: first name, a space, last name.
    pub open spec fn prof_name_view(&self) -> Seq<char> {
        self.prof_fname@ + seq![' '] + self.prof_lname@
    }

    pub fn new(
        year: String,
        department: String,
        course_num: u32,
        course_name: String,
        prof_id: String,
        prof_fname: String,
        prof_lname: String,
    ) -> (r: Course)
        ensures
            r.year == year,
            r.department == department,
            r.course_num == course_num,
            r.course_name == course_name,
            r.prof_id == prof_id,
            r.prof_fname == prof_fname,
            r.prof_lname == prof_lname,
    {
        Course { year, department, course_num, course_name, prof_id, prof_fname, prof_lname }
    }

    pub fn hash(&self, size: usize) -> (r: usize)
        requires
            size > 0,
        ensures
            r == slot_of(self.course_num, size as nat),
            r < size,
    {
        hash_course_num(self.course_num, size)
    }

    pub fn match_course(&self, course_year: &str, course_num: u32, prof_id: &str) -> (r: bool)
        ensures
            r == self.has_key(course_year@, course_num, prof_id@),
    {
        let same_year = match compare_text(self.year.as_str(), course_year) {
            TextOrder::Equal => true,
            _ => false,
        };
        let same_prof = match compare_text(self.prof_id.as_str(), prof_id) {
            TextOrder::Equal => true,
            _ => false,
        };
        same_year && self.course_num == course_num && same_prof
    }

    pub fn get_prof_id(&self) -> (r: String)
        ensures
            r@ == self.prof_id@,
    {
        self.prof_id.clone()
    }

    pub fn get_prof_name(&self) -> (r: String)
        ensures
            r@ == self.prof_name_view(),
    {
        let mut name = self.prof_fname.clone();
        name.append(" ");
        name.append(self.prof_lname.as_str());
        proof {
            reveal_strlit(" ");
        }
        name
    }
}

/// No two records share a composite key.
pub open spec fn distinct_keys(records: Seq<Rc<Course>>) -> bool {
    forall|i: int, j: int|
        0 <= i < records.len() && 0 <= j < records.len() && #[trigger] records[i].has_key(
            records[j].year@,
            records[j].course_num,
            records[j].prof_id@,
        ) ==> i == j
}

/// No record has the given composite key.
pub open spec fn key_absent(
    records: Seq<Rc<Course>>,
    year: Seq<char>,
    course_num: u32,
    prof_id: Seq<char>,
) -> bool {
    forall|i: int| 0 <= i < records.len() ==> !#[trigger] records[i].has_key(year, course_num, prof_id)
}

/// The slot of `course_num` in a table of `size` slots.
pub fn hash_course_num(course_num: u32, size: usize) -> (r: usize)
    requires
        size > 0,
    ensures
        r == slot_of(course_num, size as nat),
        r < size,
{
    (course_num as usize) % size
}

/// The fields of a line separated by commas; a line without commas is one field.
pub open spec fn split_commas(line: Seq<char>) -> Seq<Seq<char>>
    decreases line.len(),
{
    if line.len() == 0 {
        seq![Seq::empty()]
    } else {
        let front = split_commas(line.drop_last());
        if line.last() == ',' {
            front.push(Seq::empty())
        } else {
            front.update(front.len() - 1, front.last().push(line.last()))
        }
    }
}

proof fn lemma_split_commas_nonempty(line: Seq<char>)
    ensures
        split_commas(line).len() > 0,
    decreases line.len(),
{
    if line.len() > 0 {
        lemma_split_commas_nonempty(line.drop_last());
    }
}

/// Splits `line` at each comma.
pub fn split_fields(line: &str) -> (r: Vec<String>)
    ensures
        r@.len() == split_commas(line@).len(),
        forall|i: int| 0 <= i < r@.len() ==> (#[trigger] r@[i])@ == split_commas(line@)[i],
{
    let len = line.unicode_len();
    let mut fields: Vec<String> = Vec::new();
    let mut start: usize = 0;
    let mut i: usize = 0;
    assert(line@.take(0).len() == 0);
    assert(line@.subrange(0, 0) =~= Seq::<char>::empty());
    assert(fields@.map_values(|f: String| f@).push(line@.subrange(0, 0)) =~= seq![Seq::<char>::empty()]);
    while i < len
        invariant
            len == line@.len(),
            start <= i <= len,
            split_commas(line@.take(i as int)) =~= fields@.map_values(|f: String| f@).push(
                line@.subrange(start as int, i as int),
            ),
        decreases len - i,
    {
        let ghost before = line@.take(i as int);
        assert(line@.take(i + 1).drop_last() =~= before);
        let c = line.get_char(i);
        if c == ',' {
            let field = line.substring_char(start, i).to_owned();
            fields.push(field);
            start = i + 1;
            assert(line@.subrange(start as int, i + 1) =~= Seq::<char>::empty());
        } else {
            assert(line@.subrange(start as int, i + 1) =~= line@.subrange(start as int, i as int).push(c));
        }
        i = i + 1;
    }
    let last = line.substring_char(start, len).to_owned();
    fields.push(last);
    assert(line@.take(len as int) =~= line@);
    assert(split_commas(line@) =~= fields@.map_values(|f: String| f@));
    fields
}

/// The seven comma-separated fields of `line` make a record: year, department,
/// course number, course name, professor id, first name, last name.
pub open spec fn line_is_record(line: Seq<char>) -> bool {
    let f = split_commas(line);
    &&& f.len() == 7
    &&& is_decimal(f[2])
    &&& decimal_value(f[2]) <= u32::MAX
}

impl Course {
    /// The record holds the fields of `line` in their order.
    pub open spec fn parsed_from(&self, line: Seq<char>) -> bool {
        let f = split_commas(line);
        &&& self.year@ == f[0]
        &&& self.department@ == f[1]
        &&& self.course_num == decimal_value(f[2])
        &&& self.course_name@ == f[3]
        &&& self.prof_id@ == f[4]
        &&& self.prof_fname@ == f[5]
        &&& self.prof_lname@ == f[6]
    }
}

/// Reads one record from a line of seven comma-separated fields; `None` when
/// the line has another number of fields or the course number is no `u32`.
pub fn parse_course_line(line: &str) -> (r: Option<Course>)
    ensures
        r is Some <==> line_is_record(line@),
        r matches Some(c) ==> c.parsed_from(line@),
{
    let mut fields = split_fields(line);
    if fields.len() != 7 {
        return None;
    }
    let ghost f = split_commas(line@);
    assert(fields@[2]@ == f[2]);
    let num = match parse_size(fields[2].as_str()) {
        Some(n) => n,
        None => {
            return None;
        },
    };
    if num > 0xffff_ffff {
        return None;
    }
    let prof_lname = fields.pop().unwrap();
    let prof_fname = fields.pop().unwrap();
    let prof_id = fields.pop().unwrap();
    let course_name = fields.pop().unwrap();
    let _course_num = fields.pop().unwrap();
    let department = fields.pop().unwrap();
    let year = fields.pop().unwrap();
    Some(
        Course::new(
            year,
            department,
            num as u32,
            course_name,
            prof_id,
            prof_fname,
            prof_lname,
        ),
    )
}

/// Reads the records of a course file given as its lines; the first line is a
/// header and is skipped. `None` when some other line is not a record.
pub fn parse_courses(lines: &Vec<String>) -> (r: Option<Vec<Rc<Course>>>)
    ensures
        r is Some <==> forall|i: int| 1 <= i < lines@.len() ==> line_is_record(#[trigger] lines@[i]@),
        r matches Some(v) ==> {
            &&& v@.len() == if lines@.len() == 0 {
                0
            } else {
                lines@.len() - 1
            }
            &&& forall|i: int| 0 <= i < v@.len() ==> (#[trigger] v@[i]).parsed_from(lines@[i + 1]@)
        },
{
    let mut courses: Vec<Rc<Course>> = Vec::new();
    let mut i: usize = 1;
    while i < lines.len()
        invariant
            1 <= i,
            lines@.len() > 0 ==> i <= lines@.len(),
            lines@.len() == 0 ==> i == 1,
            courses@.len() == i - 1,
            forall|j: int| 1 <= j < i ==> line_is_record(#[trigger] lines@[j]@),
            forall|j: int| 0 <= j < courses@.len() ==> (#[trigger] courses@[j]).parsed_from(lines@[j + 1]@),
        decreases lines.len() - i,
    {
        match parse_course_line(lines[i].as_str()) {
            Some(c) => {
                courses.push(Rc::new(c));
            },
            None => {
                return None;
            },
        }
        i = i + 1;
    }
    Some(courses)
}

} // verus!
