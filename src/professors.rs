use std::rc::Rc;
use vstd::prelude::*;

use crate::course::{compare_text, lemma_text_less_asymmetric, text_less, Course, TextOrder};

verus! {

/// What the index keeps for one professor: display name and courses in order.
pub type ProfessorEntry = (Seq<char>, Seq<Rc<Course>>);

/// The index after one more record: the record joins its professor's list,
/// and a professor seen for the first time is named after that record.
pub open spec fn index_step(
    m: Map<Seq<char>, ProfessorEntry>,
    c: Rc<Course>,
) -> Map<Seq<char>, ProfessorEntry> {
    let id = c.prof_id@;
    if m.contains_key(id) {
        m.insert(id, (m[id].0, m[id].1.push(c)))
    } else {
        m.insert(id, (c.prof_name_view(), seq![c]))
    }
}

/// The index built from `records`, taken in order.
pub open spec fn professor_index(records: Seq<Rc<Course>>) -> Map<Seq<char>, ProfessorEntry>
    decreases records.len(),
{
    if records.len() == 0 {
        Map::empty()
    } else {
        index_step(professor_index(records.drop_last()), records.last())
    }
}

/// The record is taught by the professor `id`.
pub open spec fn taught_by(id: Seq<char>) -> spec_fn(Rc<Course>) -> bool {
    |c: Rc<Course>| c.prof_id@ == id
}

/// The courses of `records` taught by the professor `id`, in order.
pub open spec fn courses_of(records: Seq<Rc<Course>>, id: Seq<char>) -> Seq<Rc<Course>> {
    records.filter(taught_by(id))
}

/// The shape of the professor tree: each node shows its professor id.
pub enum Tree {
    Leaf,
    Node(Seq<char>, Box<Tree>, Box<Tree>),
}

impl Tree {
    /// The professor ids in the tree.
    pub open spec fn keys(self) -> Set<Seq<char>>
        decreases self,
    {
        match self {
            Tree::Leaf => Set::empty(),
            Tree::Node(k, l, r) => l.keys().union(r.keys()).insert(k),
        }
    }

    /// Every id in a left subtree sorts before its node's id, and every id
    /// in a right subtree after it.
    pub open spec fn ordered(self) -> bool
        decreases self,
    {
        match self {
            Tree::Leaf => true,
            Tree::Node(k, l, r) => {
                &&& forall|x: Seq<char>| #[trigger] l.keys().contains(x) ==> text_less(x, k)
                &&& forall|x: Seq<char>| #[trigger] r.keys().contains(x) ==> text_less(k, x)
                &&& l.ordered()
                &&& r.ordered()
            },
        }
    }
}

/// The tree after `id` is hung as a new leaf at the empty child that the
/// comparison walk from the root reaches; an id met on the way leaves it as is.
pub open spec fn insert_leaf(t: Tree, id: Seq<char>) -> Tree
    decreases t,
{
    match t {
        Tree::Leaf => Tree::Node(id, Box::new(Tree::Leaf), Box::new(Tree::Leaf)),
        Tree::Node(k, l, r) => if text_less(id, k) {
            Tree::Node(k, Box::new(insert_leaf(*l, id)), r)
        } else if text_less(k, id) {
            Tree::Node(k, l, Box::new(insert_leaf(*r, id)))
        } else {
            t
        },
    }
}

/// The shape built from `records`: the professor ids inserted as leaves in
/// the order in which they are first seen.
pub open spec fn index_shape(records: Seq<Rc<Course>>) -> Tree
    decreases records.len(),
{
    if records.len() == 0 {
        Tree::Leaf
    } else {
        let prev = records.drop_last();
        let id = records.last().prof_id@;
        if professor_index(prev).contains_key(id) {
            index_shape(prev)
        } else {
            insert_leaf(index_shape(prev), id)
        }
    }
}

/// What a search for a professor hands back.
pub struct ProfessorProfile {
    pub name: String,
    pub courses: Vec<Rc<Course>>,
}

struct Professor {
    prof_id: String,
    prof_name: String,
    courses: Vec<Rc<Course>>,
    left: Option<Box<Professor>>,
    right: Option<Box<Professor>>,
}

/// Binary search tree of professors keyed by professor id.
pub struct Professors {
    root: Option<Box<Professor>>,
}

impl Professor {
    spec fn optional_as_map(node: Option<Box<Professor>>) -> Map<Seq<char>, ProfessorEntry>
        decreases node,
    {
        match node {
            None => Map::empty(),
            Some(n) => n.as_map(),
        }
    }

    spec fn as_map(self) -> Map<Seq<char>, ProfessorEntry>
        decreases self,
    {
        Professor::optional_as_map(self.left).union_prefer_right(
            Professor::optional_as_map(self.right),
        ).insert(self.prof_id@, (self.prof_name@, self.courses@))
    }

    spec fn optional_shape(node: Option<Box<Professor>>) -> Tree
        decreases node,
    {
        match node {
            None => Tree::Leaf,
            Some(n) => n.shape(),
        }
    }

    spec fn shape(self) -> Tree
        decreases self,
    {
        Tree::Node(
            self.prof_id@,
            Box::new(Professor::optional_shape(self.left)),
            Box::new(Professor::optional_shape(self.right)),
        )
    }

    /// A well-formed subtree has an ordered shape whose ids are its keys.
    proof fn lemma_shape_facts(node: Option<Box<Professor>>)
        requires
            Professor::optional_well_formed(node),
        ensures
            Professor::optional_shape(node).ordered(),
            Professor::optional_shape(node).keys() == Professor::optional_as_map(node).dom(),
        decreases node,
    {
        if let Some(n) = node {
            Professor::lemma_shape_facts(n.left);
            Professor::lemma_shape_facts(n.right);
            assert(n.shape().keys() =~= n.as_map().dom());
        }
    }

    spec fn optional_well_formed(node: Option<Box<Professor>>) -> bool
        decreases node,
    {
        match node {
            None => true,
            Some(n) => n.well_formed(),
        }
    }

    spec fn well_formed(self) -> bool
        decreases self,
    {
        &&& self.courses@.len() > 0
        &&& forall|k: Seq<char>|
            #[trigger] Professor::optional_as_map(self.left).contains_key(k) ==> text_less(
                k,
                self.prof_id@,
            )
        &&& forall|k: Seq<char>|
            #[trigger] Professor::optional_as_map(self.right).contains_key(k) ==> text_less(
                self.prof_id@,
                k,
            )
        &&& Professor::optional_well_formed(self.left)
        &&& Professor::optional_well_formed(self.right)
    }

    fn find_professor_recursive<'a>(item: &'a Option<Box<Professor>>, prof_id: &str) -> (r: Option<
        &'a Professor,
    >)
        requires
            Professor::optional_well_formed(*item),
        ensures
            match r {
                None => !Professor::optional_as_map(*item).contains_key(prof_id@),
                Some(p) => {
                    &&& p.prof_id@ == prof_id@
                    &&& Professor::optional_as_map(*item).contains_key(prof_id@)
                    &&& Professor::optional_as_map(*item)[prof_id@] == (
                        p.prof_name@,
                        p.courses@,
                    )
                }
            },
        decreases *item,
    {
        match item {
            None => None,
            Some(node) => {
                proof {
                    lemma_text_less_asymmetric(prof_id@, node.prof_id@);
                }
                match compare_text(prof_id, node.prof_id.as_str()) {
                    TextOrder::Less => {
                        assert(!Professor::optional_as_map(node.right).contains_key(prof_id@));
                        Self::find_professor_recursive(&node.left, prof_id)
                    },
                    TextOrder::Equal => Some(&**node),
                    TextOrder::Greater => {
                        assert(!Professor::optional_as_map(node.left).contains_key(prof_id@));
                        Self::find_professor_recursive(&node.right, prof_id)
                    },
                }
            },
        }
    }
}


impl Professor {
    /// Hangs `new_prof` at the empty child reached by the search for its id.
    fn add_professor_recursive(item: &mut Box<Professor>, new_prof: Box<Professor>)
        requires
            old(item).well_formed(),
            new_prof.well_formed(),
            new_prof.left is None,
            new_prof.right is None,
            !old(item).as_map().contains_key(new_prof.prof_id@),
        ensures
            final(item).well_formed(),
            final(item).as_map() == old(item).as_map().insert(
                new_prof.prof_id@,
                (new_prof.prof_name@, new_prof.courses@),
            ),
            final(item).shape() == insert_leaf(old(item).shape(), new_prof.prof_id@),
        decreases *old(item),
    {
        let ghost key = new_prof.prof_id@;
        let ghost entry = (new_prof.prof_name@, new_prof.courses@);
        proof {
            lemma_text_less_asymmetric(key, item.prof_id@);
        }
        assert(new_prof.as_map() =~= Map::empty().insert(key, entry));
        assert(new_prof.shape() == insert_leaf(Tree::Leaf, key));
        match compare_text(new_prof.prof_id.as_str(), item.prof_id.as_str()) {
            TextOrder::Less => {
                match item.left.take() {
                    None => {
                        item.left = Some(new_prof);
                    },
                    Some(mut child) => {
                        Self::add_professor_recursive(&mut child, new_prof);
                        item.left = Some(child);
                    },
                }
                assert(Professor::optional_as_map(item.left) =~= Professor::optional_as_map(
                    old(item).left,
                ).insert(key, entry));
                assert(Professor::optional_shape(item.left) == insert_leaf(
                    Professor::optional_shape(old(item).left),
                    key,
                ));
                assert(forall|k: Seq<char>| #[trigger] Professor::optional_as_map(item.left).contains_key(k) ==> text_less(k, item.prof_id@));
                assert(!Professor::optional_as_map(item.right).contains_key(key));
            },
            TextOrder::Equal => {
                assert(false);
            },
            TextOrder::Greater => {
                match item.right.take() {
                    None => {
                        item.right = Some(new_prof);
                    },
                    Some(mut child) => {
                        Self::add_professor_recursive(&mut child, new_prof);
                        item.right = Some(child);
                    },
                }
                assert(Professor::optional_as_map(item.right) =~= Professor::optional_as_map(
                    old(item).right,
                ).insert(key, entry));
                assert(Professor::optional_shape(item.right) == insert_leaf(
                    Professor::optional_shape(old(item).right),
                    key,
                ));
                assert(forall|k: Seq<char>| #[trigger] Professor::optional_as_map(item.right).contains_key(k) ==> text_less(item.prof_id@, k));
                assert(!Professor::optional_as_map(item.left).contains_key(key));
            },
        }
        assert(item.as_map() =~= old(item).as_map().insert(key, entry));
    }

    /// Appends `course` to the list of the professor `prof_id`, who is present.
    fn add_course_recursive(item: &mut Box<Professor>, prof_id: &str, course: &Rc<Course>)
        requires
            old(item).well_formed(),
            old(item).as_map().contains_key(prof_id@),
        ensures
            final(item).well_formed(),
            final(item).as_map() == old(item).as_map().insert(
                prof_id@,
                (old(item).as_map()[prof_id@].0, old(item).as_map()[prof_id@].1.push(*course)),
            ),
            final(item).shape() == old(item).shape(),
        decreases *old(item),
    {
        let ghost key = prof_id@;
        proof {
            lemma_text_less_asymmetric(key, item.prof_id@);
        }
        match compare_text(prof_id, item.prof_id.as_str()) {
            TextOrder::Less => {
                assert(!Professor::optional_as_map(item.right).contains_key(key));
                let mut child = item.left.take().unwrap();
                Self::add_course_recursive(&mut child, prof_id, course);
                item.left = Some(child);
                assert(Professor::optional_as_map(item.left).dom() =~= Professor::optional_as_map(
                    old(item).left,
                ).dom());
                assert(forall|k: Seq<char>| #[trigger] Professor::optional_as_map(item.left).contains_key(k) ==> text_less(k, item.prof_id@));
            },
            TextOrder::Equal => {
                assert(!Professor::optional_as_map(item.right).contains_key(key));
                assert(!Professor::optional_as_map(item.left).contains_key(key));
                item.courses.push(Rc::clone(course));
            },
            TextOrder::Greater => {
                assert(!Professor::optional_as_map(item.left).contains_key(key));
                let mut child = item.right.take().unwrap();
                Self::add_course_recursive(&mut child, prof_id, course);
                item.right = Some(child);
                assert(Professor::optional_as_map(item.right).dom() =~= Professor::optional_as_map(
                    old(item).right,
                ).dom());
                assert(forall|k: Seq<char>| #[trigger] Professor::optional_as_map(item.right).contains_key(k) ==> text_less(item.prof_id@, k));
            },
        }
        assert(item.as_map() =~= old(item).as_map().insert(
            key,
            (old(item).as_map()[key].0, old(item).as_map()[key].1.push(*course)),
        ));
    }
}

impl View for Professors {
    type V = Map<Seq<char>, ProfessorEntry>;

    closed spec fn view(&self) -> Map<Seq<char>, ProfessorEntry> {
        Professor::optional_as_map(self.root)
    }
}

impl Professors {
    /// Ordering of the tree by professor id holds, and every professor has a course.
    pub closed spec fn well_formed(&self) -> bool {
        Professor::optional_well_formed(self.root)
    }

    /// The shape of the tree.
    pub closed spec fn shape(&self) -> Tree {
        Professor::optional_shape(self.root)
    }

    /// A well-formed index has an ordered shape whose ids are the professors it knows.
    pub proof fn lemma_shape_ordered(&self)
        requires
            self.well_formed(),
        ensures
            self.shape().ordered(),
            self.shape().keys() == self@.dom(),
    {
        Professor::lemma_shape_facts(self.root);
    }

    /// Builds the index from `courses`, taken in order.
    pub fn build(courses: &Vec<Rc<Course>>) -> (r: Professors)
        ensures
            r.well_formed(),
            r@ == professor_index(courses@),
            r.shape() == index_shape(courses@),
            r.shape().ordered(),
    {
        let mut professors = Professors { root: None };
        let mut i: usize = 0;
        while i < courses.len()
            invariant
                i <= courses.len(),
                professors.well_formed(),
                professors@ == professor_index(courses@.take(i as int)),
                professors.shape() == index_shape(courses@.take(i as int)),
            decreases courses.len() - i,
        {
            professors.add_course(&courses[i]);
            assert(courses@.take(i + 1).drop_last() =~= courses@.take(i as int));
            i = i + 1;
        }
        assert(courses@.take(i as int) =~= courses@);
        proof {
            professors.lemma_shape_ordered();
        }
        professors
    }

    /// Files `course` under its professor, adding the professor first if new.
    pub fn add_course(&mut self, course: &Rc<Course>)
        requires
            old(self).well_formed(),
        ensures
            final(self).well_formed(),
            final(self)@ == index_step(old(self)@, *course),
            old(self)@.contains_key(course.prof_id@) ==> final(self).shape() == old(self).shape(),
            !old(self)@.contains_key(course.prof_id@) ==> final(self).shape() == insert_leaf(
                old(self).shape(),
                course.prof_id@,
            ),
    {
        let prof_id = course.get_prof_id();
        let found = self.find_professor(prof_id.as_str()).is_some();
        if !found {
            self.add_professor(course);
        } else {
            let mut root = self.root.take().unwrap();
            Professor::add_course_recursive(&mut root, prof_id.as_str(), course);
            self.root = Some(root);
        }
    }

    fn find_professor(&self, prof_id: &str) -> (r: Option<&Professor>)
        requires
            self.well_formed(),
        ensures
            match r {
                None => !self@.contains_key(prof_id@),
                Some(p) => {
                    &&& p.prof_id@ == prof_id@
                    &&& self@.contains_key(prof_id@)
                    &&& self@[prof_id@] == (p.prof_name@, p.courses@)
                }
            },
    {
        Professor::find_professor_recursive(&self.root, prof_id)
    }

    /// Adds a professor that is not yet in the tree, with `course` as first course.
    fn add_professor(&mut self, course: &Rc<Course>)
        requires
            old(self).well_formed(),
            !old(self)@.contains_key(course.prof_id@),
        ensures
            final(self).well_formed(),
            final(self)@ == old(self)@.insert(
                course.prof_id@,
                (course.prof_name_view(), seq![*course]),
            ),
            final(self).shape() == insert_leaf(old(self).shape(), course.prof_id@),
    {
        let mut courses: Vec<Rc<Course>> = Vec::new();
        courses.push(Rc::clone(course));
        let new_prof = Box::new(
            Professor {
                prof_id: course.get_prof_id(),
                prof_name: course.get_prof_name(),
                courses,
                left: None,
                right: None,
            },
        );
        assert(courses@ =~= seq![*course]);
        match self.root.take() {
            None => {
                assert(new_prof.as_map() =~= Map::empty().insert(
                    course.prof_id@,
                    (course.prof_name_view(), seq![*course]),
                ));
                self.root = Some(new_prof);
            },
            Some(mut root) => {
                Professor::add_professor_recursive(&mut root, new_prof);
                self.root = Some(root);
            },
        }
    }

    /// Looks up a professor: the display name and all courses, in the order filed.
    pub fn search_professor(&self, prof_id: &str) -> (r: Option<ProfessorProfile>)
        requires
            self.well_formed(),
        ensures
            match r {
                None => !self@.contains_key(prof_id@),
                Some(p) => {
                    &&& self@.contains_key(prof_id@)
                    &&& p.name@ == self@[prof_id@].0
                    &&& p.courses@ == self@[prof_id@].1
                }
            },
    {
        match self.find_professor(prof_id) {
            None => None,
            Some(p) => {
                let mut courses: Vec<Rc<Course>> = Vec::new();
                let mut i: usize = 0;
                while i < p.courses.len()
                    invariant
                        i <= p.courses.len(),
                        courses@ == p.courses@.take(i as int),
                    decreases p.courses.len() - i,
                {
                    courses.push(Rc::clone(&p.courses[i]));
                    assert(courses@ =~= p.courses@.take(i + 1));
                    i = i + 1;
                }
                assert(courses@ =~= p.courses@);
                Some(ProfessorProfile { name: p.prof_name.clone(), courses })
            },
        }
    }
}

/// The first record of `records` taught by `id` is at `i`.
pub open spec fn first_of(records: Seq<Rc<Course>>, id: Seq<char>, i: int) -> bool {
    &&& 0 <= i < records.len()
    &&& records[i].prof_id@ == id
    &&& forall|j: int| 0 <= j < i ==> (#[trigger] records[j]).prof_id@ != id
}

/// Professor aggregation: the index built from `records` knows exactly the
/// professors that teach some record; for each, its courses are the records
/// with that professor id, in the order of `records`, and its name is taken
/// from the first of them.
pub proof fn lemma_professor_aggregation(records: Seq<Rc<Course>>, id: Seq<char>)
    ensures
        professor_index(records).contains_key(id) <==> exists|i: int|
            0 <= i < records.len() && (#[trigger] records[i]).prof_id@ == id,
        professor_index(records).contains_key(id) ==> professor_index(records)[id].1 == courses_of(
            records,
            id,
        ),
        professor_index(records).contains_key(id) ==> exists|i: int|
            first_of(records, id, i) && professor_index(records)[id].0 == (
                #[trigger] records[i]).prof_name_view(),
    decreases records.len(),
{
    reveal(Seq::filter);
    if records.len() > 0 {
        let prev = records.drop_last();
        let x = records.last();
        let n = records.len() - 1;
        lemma_professor_aggregation(prev, id);
        assert(records[n] == x);
        assert forall|i: int| 0 <= i < prev.len() implies #[trigger] records[i] == prev[i] by {}
        if professor_index(prev).contains_key(id) {
            let i = choose|i: int|
                first_of(prev, id, i) && professor_index(prev)[id].0 == (
                #[trigger] prev[i]).prof_name_view();
            assert(first_of(records, id, i));
            assert(records[i] == prev[i]);
        } else {
            let pred = taught_by(id);
            if courses_of(prev, id).len() > 0 {
                let c = courses_of(prev, id)[0];
                prev.lemma_filter_pred(pred, 0);
                assert(courses_of(prev, id).contains(c));
                prev.lemma_filter_contains_rev(pred, c);
                let m = choose|m: int| 0 <= m < prev.len() && prev[m] == c;
                assert(records[m].prof_id@ == id);
            }
            assert(courses_of(prev, id) =~= Seq::empty());
            if x.prof_id@ == id {
                assert(first_of(records, id, n));
                assert(courses_of(records, id) =~= seq![x]);
            }
        }
    }
}

} // verus!
