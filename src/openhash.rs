use std::rc::Rc;
use vstd::prelude::*;

use crate::chaininghash::capped;
use crate::course::{distinct_keys, hash_course_num, key_absent, slot_of, Course};
use vstd::seq_lib::group_to_multiset_ensures;
use crate::error::TableError;

verus! {

/// The `i`-th slot of the quadratic probe sequence that starts at `h0`.
pub open spec fn probe(h0: int, i: int, size: nat) -> int {
    (h0 + i * i) % (size as int)
}

/// The first attempt `j` with `i <= j < size` whose probed slot is empty.
pub open spec fn first_free(
    slots: Seq<Option<Rc<Course>>>,
    h0: int,
    size: nat,
    i: int,
) -> Option<int>
    decreases size - i,
{
    if i < 0 || i >= size {
        None
    } else if slots[probe(h0, i, size)] is None {
        Some(i)
    } else {
        first_free(slots, h0, size, i + 1)
    }
}

/// Slots, collision count and probe steps of an open-addressing table.
pub type OpenState = (Seq<Option<Rc<Course>>>, nat, nat);

/// One more record placed in the first free slot of its probe sequence;
/// `None` when `size` attempts find none.
pub open spec fn open_step(st: OpenState, c: Rc<Course>, size: nat) -> Option<OpenState> {
    let h0 = slot_of(c.course_num, size);
    match first_free(st.0, h0, size, 0) {
        None => None,
        Some(i) => Some(
            (
                st.0.update(probe(h0, i, size), Some(c)),
                st.1 + if i > 0 {
                    1nat
                } else {
                    0nat
                },
                st.2 + i as nat,
            ),
        ),
    }
}

/// The state after placing `records` in order into `size` empty slots, or
/// `None` when some record finds no free slot.
pub open spec fn open_build_spec(records: Seq<Rc<Course>>, size: nat) -> Option<OpenState>
    decreases records.len(),
{
    if records.len() == 0 {
        Some((Seq::new(size, |s: int| None), 0, 0))
    } else {
        match open_build_spec(records.drop_last(), size) {
            None => None,
            Some(st) => open_step(st, records.last(), size),
        }
    }
}

/// What a search finds from attempt `i` on: an empty slot ends it, a record
/// with the key is the answer, and `size` attempts are the limit.
pub open spec fn open_find_from(
    slots: Seq<Option<Rc<Course>>>,
    size: nat,
    year: Seq<char>,
    course_num: u32,
    prof_id: Seq<char>,
    i: int,
) -> Option<Rc<Course>>
    decreases size - i,
{
    if i < 0 || i >= size {
        None
    } else {
        match slots[probe(slot_of(course_num, size), i, size)] {
            None => None,
            Some(c) => if c.has_key(year, course_num, prof_id) {
                Some(c)
            } else {
                open_find_from(slots, size, year, course_num, prof_id, i + 1)
            },
        }
    }
}

/// The records held in `slots`, in slot order.
pub open spec fn occupied(slots: Seq<Option<Rc<Course>>>) -> Seq<Rc<Course>>
    decreases slots.len(),
{
    if slots.len() == 0 {
        Seq::empty()
    } else {
        match slots.last() {
            Some(c) => occupied(slots.drop_last()).push(c),
            None => occupied(slots.drop_last()),
        }
    }
}

/// Hash table of course records that resolves collisions by quadratic probing.
pub struct OpenHash {
    open_hash: Vec<Option<Rc<Course>>>,
    hash_size: usize,
    collisions: usize,
    search_ops: usize,
}

impl View for OpenHash {
    type V = Seq<Option<Rc<Course>>>;

    /// The slots, in order.
    closed spec fn view(&self) -> Seq<Option<Rc<Course>>> {
        self.open_hash@
    }
}

/// Slot of attempt `i` from `h0`, computed without overflow.
fn probe_slot(h0: usize, i: usize, size: usize) -> (r: usize)
    requires
        size > 0,
    ensures
        r == probe(h0 as int, i as int, size as nat),
        r < size,
{
    assert(i as int <= 0xffff_ffff_ffff_ffff);
    assert((i as int) * (i as int) <= 0xffff_ffff_ffff_fffe_0000_0000_0000_0001) by (nonlinear_arith)
        requires
            0 <= i as int <= 0xffff_ffff_ffff_ffff,
    ;
    let ii: u128 = (i as u128) * (i as u128);
    let r = ((h0 as u128) + ii) % (size as u128);
    r as usize
}

impl OpenHash {
    pub closed spec fn spec_size(&self) -> nat {
        self.hash_size as nat
    }

    pub closed spec fn spec_collisions(&self) -> usize {
        self.collisions
    }

    pub closed spec fn spec_search_ops(&self) -> usize {
        self.search_ops
    }

    pub closed spec fn well_formed(&self) -> bool {
        &&& self.hash_size > 0
        &&& self.open_hash@.len() == self.hash_size
    }

    /// `self` is the table built from `records` with `size` slots.
    pub open spec fn built_from(&self, records: Seq<Rc<Course>>, size: nat) -> bool {
        &&& self.well_formed()
        &&& self.spec_size() == size
        &&& open_build_spec(records, size) matches Some(st)
        &&& self@ == st.0
        &&& self.spec_collisions() == capped(st.1)
        &&& self.spec_search_ops() == capped(st.2)
    }

    /// Builds the table: each record takes the first empty slot among
    /// `(course_num % hash_size + i * i) % hash_size` for `i < hash_size`.
    pub fn build(courses: &Vec<Rc<Course>>, hash_size: usize) -> (r: Result<OpenHash, TableError>)
        ensures
            hash_size == 0 ==> r == Err::<OpenHash, TableError>(TableError::ConfigError),
            hash_size > 0 && open_build_spec(courses@, hash_size as nat) is None ==> r == Err::<
                OpenHash,
                TableError,
            >(TableError::TableFull),
            hash_size > 0 && open_build_spec(courses@, hash_size as nat) is Some ==> (r matches Ok(
                t,
            ) && t.built_from(courses@, hash_size as nat)),
    {
        if hash_size == 0 {
            return Err(TableError::ConfigError);
        }
        let ghost size = hash_size as nat;
        let mut open_hash: Vec<Option<Rc<Course>>> = Vec::new();
        let mut s: usize = 0;
        while s < hash_size
            invariant
                s <= hash_size,
                open_hash@ =~= Seq::new(s as nat, |j: int| None::<Rc<Course>>),
            decreases hash_size - s,
        {
            open_hash.push(None);
            s = s + 1;
        }
        let mut collisions: usize = 0;
        let mut search_ops: usize = 0;
        let mut k: usize = 0;
        while k < courses.len()
            invariant
                hash_size > 0,
                size == hash_size as nat,
                k <= courses.len(),
                open_hash@.len() == hash_size,
                open_build_spec(courses@.take(k as int), size) matches Some(st) && st.0
                    == open_hash@ && collisions == capped(st.1) && search_ops == capped(st.2),
            decreases courses.len() - k,
        {
            let ghost prev = courses@.take(k as int);
            let ghost next = courses@.take(k + 1);
            assert(next.drop_last() =~= prev);
            let ghost st = open_build_spec(prev, size)->Some_0;
            let course = &courses[k];
            let h0 = course.hash(hash_size);
            let mut i: usize = 0;
            while i < hash_size
                invariant
                    hash_size > 0,
                    size == hash_size as nat,
                    i <= hash_size,
                    h0 < hash_size,
                    h0 == slot_of(course.course_num, size),
                    open_hash@.len() == hash_size,
                    open_hash@ == st.0,
                    first_free(st.0, h0 as int, size, 0) == first_free(st.0, h0 as int, size, i as int),
                ensures
                    i <= hash_size,
                    i < hash_size ==> st.0[probe(h0 as int, i as int, size)] is None,
                    first_free(st.0, h0 as int, size, 0) == first_free(st.0, h0 as int, size, i as int),
                decreases hash_size - i,
            {
                let slot = probe_slot(h0, i, hash_size);
                if open_hash[slot].is_none() {
                    break;
                }
                i = i + 1;
            }
            assert(next.last() == *course);
            if i == hash_size {
                assert(open_build_spec(next, size) is None);
                assert(open_build_spec(courses@, size) is None) by {
                    lemma_open_build_fails_after(courses@, size, k as int + 1);
                }
                return Err(TableError::TableFull);
            }
            let slot = probe_slot(h0, i, hash_size);
            assert(first_free(st.0, h0 as int, size, i as int) == Some(i as int));
            open_hash.set(slot, Some(Rc::clone(course)));
            if i > 0 {
                collisions = collisions.saturating_add(1);
            }
            search_ops = search_ops.saturating_add(i);
            k = k + 1;
        }
        assert(courses@.take(k as int) =~= courses@);
        Ok(OpenHash { open_hash, hash_size, collisions, search_ops })
    }

    /// Follows the probe sequence of the key: an empty slot or `hash_size`
    /// attempts end the search without a result.
    pub fn search(&self, course_year: &str, course_num: u32, prof_id: &str) -> (r: Option<Rc<Course>>)
        requires
            self.well_formed(),
        ensures
            r == open_find_from(self@, self.spec_size(), course_year@, course_num, prof_id@, 0),
    {
        let ghost size = self.spec_size();
        let h0 = hash_course_num(course_num, self.hash_size);
        let mut i: usize = 0;
        while i < self.hash_size
            invariant
                self.well_formed(),
                size == self.spec_size(),
                i <= self.hash_size,
                h0 == slot_of(course_num, size),
                open_find_from(self@, size, course_year@, course_num, prof_id@, 0) == open_find_from(
                    self@,
                    size,
                    course_year@,
                    course_num,
                    prof_id@,
                    i as int,
                ),
            decreases self.hash_size - i,
        {
            let slot = probe_slot(h0, i, self.hash_size);
            match &self.open_hash[slot] {
                None => {
                    return None;
                },
                Some(c) => {
                    if c.match_course(course_year, course_num, prof_id) {
                        return Some(Rc::clone(c));
                    }
                },
            }
            i = i + 1;
        }
        None
    }

    /// Every record held, in slot order.
    pub fn list_all(&self) -> (r: Vec<Rc<Course>>)
        requires
            self.well_formed(),
        ensures
            r@ == occupied(self@),
    {
        let mut out: Vec<Rc<Course>> = Vec::new();
        let mut s: usize = 0;
        while s < self.open_hash.len()
            invariant
                s <= self@.len(),
                out@ == occupied(self@.take(s as int)),
            decreases self@.len() - s,
        {
            assert(self@.take(s + 1).drop_last() =~= self@.take(s as int));
            match &self.open_hash[s] {
                Some(c) => {
                    out.push(Rc::clone(c));
                },
                None => {},
            }
            s = s + 1;
        }
        assert(self@.take(s as int) =~= self@);
        out
    }

    pub fn hash_size(&self) -> (r: usize)
        ensures
            r == self.spec_size(),
    {
        self.hash_size
    }

    /// Records that found their first probed slot taken during the build.
    pub fn collisions(&self) -> (r: usize)
        ensures
            r == self.spec_collisions(),
    {
        self.collisions
    }

    /// Occupied slots probed past while the build placed records.
    pub fn search_ops(&self) -> (r: usize)
        ensures
            r == self.spec_search_ops(),
    {
        self.search_ops
    }
}

/// Once a prefix of the records fails to fit, so does every longer one.
proof fn lemma_open_build_fails_after(records: Seq<Rc<Course>>, size: nat, n: int)
    requires
        0 <= n <= records.len(),
        open_build_spec(records.take(n), size) is None,
    ensures
        open_build_spec(records, size) is None,
    decreases records.len() - n,
{
    if n < records.len() {
        assert(records.take(n + 1).drop_last() =~= records.take(n));
        lemma_open_build_fails_after(records, size, n + 1);
    } else {
        assert(records.take(n) =~= records);
    }
}

/// `c` sits at attempt `p` of its probe sequence, and every earlier attempt
/// of that sequence meets an occupied slot.
pub open spec fn placed_at(slots: Seq<Option<Rc<Course>>>, c: Rc<Course>, size: nat, p: int) -> bool {
    let h0 = slot_of(c.course_num, size);
    &&& 0 <= p < size
    &&& slots[probe(h0, p, size)] == Some(c)
    &&& forall|j: int| 0 <= j < p ==> (#[trigger] slots[probe(h0, j, size)]) is Some
}

proof fn lemma_probe_in_range(h0: int, i: int, size: nat)
    requires
        size > 0,
    ensures
        0 <= probe(h0, i, size) < size,
{
}

/// `c` sits somewhere along its probe sequence, as `placed_at` says.
pub open spec fn reachable(slots: Seq<Option<Rc<Course>>>, c: Rc<Course>, size: nat) -> bool {
    exists|p: int| placed_at(slots, c, size, p)
}

/// The attempt that `first_free` picks is empty, and all before it are taken.
proof fn lemma_first_free(slots: Seq<Option<Rc<Course>>>, h0: int, size: nat, i: int)
    requires
        0 <= i,
    ensures
        first_free(slots, h0, size, i) matches Some(p) ==> i <= p < size && slots[probe(
            h0,
            p,
            size,
        )] is None && forall|j: int| i <= j < p ==> (#[trigger] slots[probe(h0, j, size)]) is Some,
    decreases size - i,
{
    if i < size && slots[probe(h0, i, size)] is Some {
        lemma_first_free(slots, h0, size, i + 1);
    }
}

/// What holds of every table that the build produces: its length, that each
/// slot holds one of the records, and where each record was placed.
proof fn lemma_open_build_facts(records: Seq<Rc<Course>>, size: nat)
    requires
        size > 0,
        open_build_spec(records, size) is Some,
    ensures
        ({
            let slots = open_build_spec(records, size)->Some_0.0;
            &&& slots.len() == size
            &&& forall|s: int|
                0 <= s < size && (#[trigger] slots[s]) is Some ==> records.contains(slots[s]->Some_0)
            &&& forall|k: int|
                0 <= k < records.len() ==> reachable(slots, #[trigger] records[k], size)
        }),
    decreases records.len(),
{
    if records.len() > 0 {
        let prev = records.drop_last();
        let x = records.last();
        lemma_open_build_facts(prev, size);
        let old_slots = open_build_spec(prev, size)->Some_0.0;
        let h0 = slot_of(x.course_num, size);
        lemma_first_free(old_slots, h0, size, 0);
        let i = first_free(old_slots, h0, size, 0)->Some_0;
        let target = probe(h0, i, size);
        lemma_probe_in_range(h0, i, size);
        let slots = open_build_spec(records, size)->Some_0.0;
        assert(slots == old_slots.update(target, Some(x)));
        assert forall|s: int| 0 <= s < size && (#[trigger] slots[s]) is Some implies records.contains(
            slots[s]->Some_0,
        ) by {
            if s == target {
                assert(records[records.len() - 1] == x);
            } else {
                assert(prev.contains(old_slots[s]->Some_0));
                let m = choose|m: int| 0 <= m < prev.len() && prev[m] == old_slots[s]->Some_0;
                assert(records[m] == prev[m]);
            }
        }
        assert forall|k: int| 0 <= k < records.len() implies reachable(
            slots,
            #[trigger] records[k],
            size,
        ) by {
            if k == records.len() - 1 {
                assert(placed_at(slots, records[k], size, i));
            } else {
                assert(records[k] == prev[k]);
                assert(reachable(old_slots, prev[k], size));
                let p = choose|p: int| placed_at(old_slots, prev[k], size, p);
                let hk = slot_of(prev[k].course_num, size);
                assert forall|j: int| 0 <= j < p implies (#[trigger] slots[probe(hk, j, size)]) is Some by {
                    assert(old_slots[probe(hk, j, size)] is Some);
                }
                assert(placed_at(slots, records[k], size, p));
            }
        }
        assert(slots.len() == size);
    } else {
        let slots = open_build_spec(records, size)->Some_0.0;
        assert forall|s: int| 0 <= s < size implies (#[trigger] slots[s]) is None by {}
        assert(slots.len() == size);
    }
}

/// A search along the probe sequence of `x` reaches `x` when no record
/// before it has the key.
proof fn lemma_open_find_reaches(
    slots: Seq<Option<Rc<Course>>>,
    size: nat,
    x: Rc<Course>,
    p: int,
    i: int,
)
    requires
        placed_at(slots, x, size, p),
        0 <= i <= p,
        forall|s: int|
            0 <= s < slots.len() && (#[trigger] slots[s]) is Some && slots[s]->Some_0.has_key(
                x.year@,
                x.course_num,
                x.prof_id@,
            ) ==> slots[s]->Some_0 == x,
        slots.len() == size,
    ensures
        open_find_from(slots, size, x.year@, x.course_num, x.prof_id@, i) == Some(x),
    decreases p - i,
{
    let h0 = slot_of(x.course_num, size);
    lemma_probe_in_range(h0, i, size);
    if i < p {
        assert(slots[probe(h0, i, size)] is Some);
        lemma_open_find_reaches(slots, size, x, p, i + 1);
    }
}

/// What a search returns sits in some slot and has the key.
proof fn lemma_open_find_sound(
    slots: Seq<Option<Rc<Course>>>,
    size: nat,
    year: Seq<char>,
    course_num: u32,
    prof_id: Seq<char>,
    i: int,
)
    requires
        slots.len() == size,
        size > 0,
    ensures
        open_find_from(slots, size, year, course_num, prof_id, i) matches Some(c) ==> c.has_key(
            year,
            course_num,
            prof_id,
        ) && exists|s: int| 0 <= s < size && slots[s] == Some(c),
    decreases size - i,
{
    if 0 <= i < size {
        let s = probe(slot_of(course_num, size), i, size);
        lemma_probe_in_range(slot_of(course_num, size), i, size);
        lemma_open_find_sound(slots, size, year, course_num, prof_id, i + 1);
        if slots[s] is Some {
            let c = slots[s]->Some_0;
            if c.has_key(year, course_num, prof_id) {
                assert(slots[s] == Some(c));
            }
        }
    }
}

/// Round trip: with distinct keys, when the open-addressing build succeeds,
/// searching the table for the key of any record returns that record.
pub proof fn lemma_open_round_trip(records: Seq<Rc<Course>>, size: nat, k: int)
    requires
        size > 0,
        distinct_keys(records),
        open_build_spec(records, size) is Some,
        0 <= k < records.len(),
    ensures
        open_find_from(
            open_build_spec(records, size)->Some_0.0,
            size,
            records[k].year@,
            records[k].course_num,
            records[k].prof_id@,
            0,
        ) == Some(records[k]),
{
    let slots = open_build_spec(records, size)->Some_0.0;
    let x = records[k];
    lemma_open_build_facts(records, size);
    assert(reachable(slots, records[k], size));
    let p = choose|p: int| placed_at(slots, records[k], size, p);
    assert forall|s: int|
        0 <= s < slots.len() && (#[trigger] slots[s]) is Some && slots[s]->Some_0.has_key(
            x.year@,
            x.course_num,
            x.prof_id@,
        ) implies slots[s]->Some_0 == x by {
        let y = slots[s]->Some_0;
        let m = choose|m: int| 0 <= m < records.len() && records[m] == y;
        assert(records[m].has_key(records[k].year@, records[k].course_num, records[k].prof_id@));
    }
    lemma_open_find_reaches(slots, size, x, p, 0);
}

/// Absence: when the open-addressing build succeeds, a key that no record
/// has is not found.
pub proof fn lemma_open_absent(
    records: Seq<Rc<Course>>,
    size: nat,
    year: Seq<char>,
    course_num: u32,
    prof_id: Seq<char>,
)
    requires
        size > 0,
        open_build_spec(records, size) is Some,
        key_absent(records, year, course_num, prof_id),
    ensures
        open_find_from(
            open_build_spec(records, size)->Some_0.0,
            size,
            year,
            course_num,
            prof_id,
            0,
        ) is None,
{
    let slots = open_build_spec(records, size)->Some_0.0;
    lemma_open_build_facts(records, size);
    lemma_open_find_sound(slots, size, year, course_num, prof_id, 0);
    if open_find_from(slots, size, year, course_num, prof_id, 0) is Some {
        let c = open_find_from(slots, size, year, course_num, prof_id, 0)->Some_0;
        let s = choose|s: int| 0 <= s < size && slots[s] == Some(c);
        assert(slots[s] is Some);
        let m = choose|m: int| 0 <= m < records.len() && records[m] == c;
        assert(records[m].has_key(year, course_num, prof_id));
    }
}

proof fn lemma_occupied_fill(slots: Seq<Option<Rc<Course>>>, s: int, c: Rc<Course>)
    requires
        0 <= s < slots.len(),
        slots[s] is None,
    ensures
        occupied(slots.update(s, Some(c))).to_multiset() =~= occupied(slots).to_multiset().insert(c),
    decreases slots.len(),
{
    broadcast use group_to_multiset_ensures;

    let n = slots.len() - 1;
    let filled = slots.update(s, Some(c));
    if s == n {
        assert(filled.drop_last() =~= slots.drop_last());
    } else {
        assert(filled.drop_last() =~= slots.drop_last().update(s, Some(c)));
        lemma_occupied_fill(slots.drop_last(), s, c);
        if slots.last() is Some {
            assert(occupied(filled) == occupied(filled.drop_last()).push(slots.last()->Some_0));
        }
    }
}

proof fn lemma_occupied_empty(slots: Seq<Option<Rc<Course>>>)
    requires
        forall|s: int| 0 <= s < slots.len() ==> (#[trigger] slots[s]) is None,
    ensures
        occupied(slots).len() == 0,
    decreases slots.len(),
{
    if slots.len() > 0 {
        lemma_occupied_empty(slots.drop_last());
    }
}

proof fn lemma_occupied_len(slots: Seq<Option<Rc<Course>>>)
    ensures
        occupied(slots).len() <= slots.len(),
    decreases slots.len(),
{
    if slots.len() > 0 {
        lemma_occupied_len(slots.drop_last());
    }
}

/// Enumeration is complete: when the open-addressing build succeeds, the
/// records held in its slots are those of `records`, each as often.
pub proof fn lemma_open_enumeration(records: Seq<Rc<Course>>, size: nat)
    requires
        size > 0,
        open_build_spec(records, size) is Some,
    ensures
        occupied(open_build_spec(records, size)->Some_0.0).to_multiset() =~= records.to_multiset(),
    decreases records.len(),
{
    broadcast use group_to_multiset_ensures;

    if records.len() == 0 {
        let slots = open_build_spec(records, size)->Some_0.0;
        assert forall|s: int| 0 <= s < slots.len() implies (#[trigger] slots[s]) is None by {}
        lemma_occupied_empty(slots);
    } else {
        let prev = records.drop_last();
        let x = records.last();
        lemma_open_enumeration(prev, size);
        lemma_open_build_facts(prev, size);
        let old_slots = open_build_spec(prev, size)->Some_0.0;
        let h0 = slot_of(x.course_num, size);
        lemma_first_free(old_slots, h0, size, 0);
        let i = first_free(old_slots, h0, size, 0)->Some_0;
        lemma_probe_in_range(h0, i, size);
        lemma_occupied_fill(old_slots, probe(h0, i, size), x);
        assert(records =~= prev.push(x));
    }
}

/// A table of `size` slots holds at most `size` records: with more, the
/// open-addressing build fails.
pub proof fn lemma_open_overfull(records: Seq<Rc<Course>>, size: nat)
    requires
        size > 0,
        records.len() > size,
    ensures
        open_build_spec(records, size) is None,
{
    broadcast use group_to_multiset_ensures;

    if open_build_spec(records, size) is Some {
        let slots = open_build_spec(records, size)->Some_0.0;
        lemma_open_enumeration(records, size);
        lemma_open_build_facts(records, size);
        lemma_occupied_len(slots);
        assert(occupied(slots).len() == occupied(slots).to_multiset().len());
    }
}

/// Determinism: two open-addressing tables built from the same records and
/// size have the same slots and the same counts.
pub proof fn lemma_open_deterministic(a: OpenHash, b: OpenHash, records: Seq<Rc<Course>>, size: nat)
    requires
        a.built_from(records, size),
        b.built_from(records, size),
    ensures
        a@ == b@,
        a.spec_collisions() == b.spec_collisions(),
        a.spec_search_ops() == b.spec_search_ops(),
{
}

} // verus!
