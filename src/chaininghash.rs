use std::rc::Rc;
use vstd::prelude::*;

use crate::course::{distinct_keys, hash_course_num, key_absent, slot_of, Course};
use vstd::seq_lib::{group_to_multiset_ensures, lemma_multiset_commutative};
use crate::error::TableError;

verus! {

/// The records of `records` whose course number falls in `slot`, in order.
pub open spec fn chain_bucket(records: Seq<Rc<Course>>, size: nat, slot: int) -> Seq<Rc<Course>> {
    records.filter(|c: Rc<Course>| slot_of(c.course_num, size) == slot)
}

/// The buckets of a chaining table of `size` slots built from `records`.
pub open spec fn chain_layout(records: Seq<Rc<Course>>, size: nat) -> Seq<Seq<Rc<Course>>> {
    Seq::new(size, |s: int| chain_bucket(records, size, s))
}

/// Number of records that went into a bucket that already held one.
pub open spec fn chain_collisions(records: Seq<Rc<Course>>, size: nat) -> nat
    decreases records.len(),
{
    if records.len() == 0 {
        0
    } else {
        let prev = records.drop_last();
        let occupied = chain_bucket(prev, size, slot_of(records.last().course_num, size)).len();
        chain_collisions(prev, size) + if occupied > 0 {
            1nat
        } else {
            0nat
        }
    }
}

/// Chain entries walked past while appending each record to its bucket.
pub open spec fn chain_steps(records: Seq<Rc<Course>>, size: nat) -> nat
    decreases records.len(),
{
    if records.len() == 0 {
        0
    } else {
        let prev = records.drop_last();
        chain_steps(prev, size) + chain_bucket(
            prev,
            size,
            slot_of(records.last().course_num, size),
        ).len()
    }
}

/// A count held in a `usize`, stopping at its largest value.
pub open spec fn capped(n: nat) -> usize {
    if n > usize::MAX {
        usize::MAX
    } else {
        n as usize
    }
}

/// The first record of `bucket` with the given composite key.
pub open spec fn first_match(
    bucket: Seq<Rc<Course>>,
    year: Seq<char>,
    course_num: u32,
    prof_id: Seq<char>,
) -> Option<Rc<Course>>
    decreases bucket.len(),
{
    if bucket.len() == 0 {
        None
    } else if bucket[0].has_key(year, course_num, prof_id) {
        Some(bucket[0])
    } else {
        first_match(bucket.drop_first(), year, course_num, prof_id)
    }
}

/// Hash table of course records that resolves collisions by chaining.
pub struct ChainingHash {
    chain_hash: Vec<Vec<Rc<Course>>>,
    hash_size: usize,
    collisions: usize,
    search_ops: usize,
}

impl View for ChainingHash {
    type V = Seq<Seq<Rc<Course>>>;

    /// The buckets, slot by slot.
    closed spec fn view(&self) -> Seq<Seq<Rc<Course>>> {
        self.chain_hash@.map_values(|b: Vec<Rc<Course>>| b@)
    }
}

impl ChainingHash {
    pub closed spec fn spec_size(&self) -> nat {
        self.hash_size as nat
    }

    pub closed spec fn spec_collisions(&self) -> usize {
        self.collisions
    }

    pub closed spec fn spec_search_ops(&self) -> usize {
        self.search_ops
    }

    pub closed spec fn well_formed(&self) -> bool {
        &&& self.hash_size > 0
        &&& self.chain_hash@.len() == self.hash_size
    }

    /// `self` is the table built from `records` with `size` slots.
    pub open spec fn built_from(&self, records: Seq<Rc<Course>>, size: nat) -> bool {
        &&& self.well_formed()
        &&& self.spec_size() == size
        &&& self@ == chain_layout(records, size)
        &&& self.spec_collisions() == capped(chain_collisions(records, size))
        &&& self.spec_search_ops() == capped(chain_steps(records, size))
    }

    /// Builds the table: each record is appended to bucket `course_num % hash_size`.
    pub fn build(courses: &Vec<Rc<Course>>, hash_size: usize) -> (r: Result<ChainingHash, TableError>)
        ensures
            hash_size == 0 ==> r == Err::<ChainingHash, TableError>(TableError::ConfigError),
            hash_size > 0 ==> (r matches Ok(t) && t.built_from(courses@, hash_size as nat)),
    {
        if hash_size == 0 {
            return Err(TableError::ConfigError);
        }
        let ghost size = hash_size as nat;
        let mut chain_hash: Vec<Vec<Rc<Course>>> = Vec::new();
        let mut s: usize = 0;
        while s < hash_size
            invariant
                s <= hash_size,
                chain_hash@.len() == s,
                forall|j: int| 0 <= j < s ==> (#[trigger] chain_hash@[j])@.len() == 0,
            decreases hash_size - s,
        {
            chain_hash.push(Vec::new());
            s = s + 1;
        }
        proof {
            reveal(Seq::filter);
        }
        let mut collisions: usize = 0;
        let mut search_ops: usize = 0;
        let mut i: usize = 0;
        while i < courses.len()
            invariant
                hash_size > 0,
                size == hash_size as nat,
                i <= courses.len(),
                chain_hash@.len() == hash_size,
                forall|j: int|
                    0 <= j < hash_size ==> (#[trigger] chain_hash@[j])@ == chain_bucket(
                        courses@.take(i as int),
                        size,
                        j,
                    ),
                collisions == capped(chain_collisions(courses@.take(i as int), size)),
                search_ops == capped(chain_steps(courses@.take(i as int), size)),
            decreases courses.len() - i,
        {
            let ghost prev = courses@.take(i as int);
            let ghost next = courses@.take(i + 1);
            assert(next.drop_last() =~= prev);
            assert(next.last() == courses@[i as int]);
            let course = &courses[i];
            let h = course.hash(hash_size);
            let len = chain_hash[h].len();
            if len > 0 {
                collisions = collisions.saturating_add(1);
            }
            search_ops = search_ops.saturating_add(len);
            chain_hash[h].push(Rc::clone(course));
            i = i + 1;
            assert forall|j: int| 0 <= j < hash_size implies (#[trigger] chain_hash@[j])@
                == chain_bucket(next, size, j) by {
                reveal(Seq::filter);
            }
        }
        assert(courses@.take(i as int) =~= courses@);
        let table = ChainingHash { chain_hash, hash_size, collisions, search_ops };
        assert(table@ =~= chain_layout(courses@, size));
        Ok(table)
    }

    /// Looks up the composite key in its bucket; the earliest record filed wins.
    pub fn search(&self, course_year: &str, course_num: u32, prof_id: &str) -> (r: Option<Rc<Course>>)
        requires
            self.well_formed(),
        ensures
            r == first_match(
                self@[slot_of(course_num, self.spec_size())],
                course_year@,
                course_num,
                prof_id@,
            ),
    {
        let h = hash_course_num(course_num, self.hash_size);
        let bucket = &self.chain_hash[h];
        let ghost b = bucket@;
        assert(self@[h as int] == b);
        assert(b.skip(0) =~= b);
        let mut k: usize = 0;
        while k < bucket.len()
            invariant
                b == bucket@,
                b == self@[slot_of(course_num, self.spec_size())],
                k <= b.len(),
                first_match(b, course_year@, course_num, prof_id@) == first_match(
                    b.skip(k as int),
                    course_year@,
                    course_num,
                    prof_id@,
                ),
            decreases b.len() - k,
        {
            assert(b.skip(k as int)[0] == b[k as int]);
            if bucket[k].match_course(course_year, course_num, prof_id) {
                assert(b.skip(k as int).len() > 0);
                return Some(Rc::clone(&bucket[k]));
            }
            assert(b.skip(k as int).drop_first() =~= b.skip(k + 1));
            k = k + 1;
        }
        None
    }

    /// Every record, bucket by bucket in slot order, each bucket in insertion order.
    pub fn list_all(&self) -> (r: Vec<Rc<Course>>)
        requires
            self.well_formed(),
        ensures
            r@ == self@.flatten(),
    {
        let mut out: Vec<Rc<Course>> = Vec::new();
        let mut s: usize = 0;
        while s < self.chain_hash.len()
            invariant
                s <= self.chain_hash@.len(),
                out@ == self@.take(s as int).flatten(),
            decreases self.chain_hash@.len() - s,
        {
            let bucket = &self.chain_hash[s];
            let ghost before = out@;
            let mut k: usize = 0;
            while k < bucket.len()
                invariant
                    k <= bucket@.len(),
                    out@ == before + bucket@.take(k as int),
                decreases bucket@.len() - k,
            {
                out.push(Rc::clone(&bucket[k]));
                assert(out@ =~= before + bucket@.take(k + 1));
                k = k + 1;
            }
            proof {
                assert(bucket@.take(k as int) =~= bucket@);
                assert(self@.take(s + 1) =~= self@.take(s as int).push(self@[s as int]));
                self@.take(s as int).lemma_flatten_push(self@[s as int]);
            }
            s = s + 1;
        }
        assert(self@.take(s as int) =~= self@);
        out
    }

    pub fn hash_size(&self) -> (r: usize)
        ensures
            r == self.spec_size(),
    {
        self.hash_size
    }

    /// Records that met an occupied bucket during the build.
    pub fn collisions(&self) -> (r: usize)
        ensures
            r == self.spec_collisions(),
    {
        self.collisions
    }

    /// Chain entries walked while the build appended records.
    pub fn search_ops(&self) -> (r: usize)
        ensures
            r == self.spec_search_ops(),
    {
        self.search_ops
    }
}

/// The first record of a bucket with the key is found, when every record of
/// the bucket with that key is `x`.
proof fn lemma_first_match_unique(
    bucket: Seq<Rc<Course>>,
    x: Rc<Course>,
    year: Seq<char>,
    course_num: u32,
    prof_id: Seq<char>,
)
    requires
        bucket.contains(x),
        x.has_key(year, course_num, prof_id),
        forall|j: int|
            0 <= j < bucket.len() && #[trigger] bucket[j].has_key(year, course_num, prof_id)
                ==> bucket[j] == x,
    ensures
        first_match(bucket, year, course_num, prof_id) == Some(x),
    decreases bucket.len(),
{
    if !bucket[0].has_key(year, course_num, prof_id) {
        let i = choose|i: int| 0 <= i < bucket.len() && bucket[i] == x;
        assert(bucket.drop_first()[i - 1] == x);
        lemma_first_match_unique(bucket.drop_first(), x, year, course_num, prof_id);
    }
}

/// What a bucket search returns lies in the bucket and has the key.
proof fn lemma_first_match_sound(
    bucket: Seq<Rc<Course>>,
    year: Seq<char>,
    course_num: u32,
    prof_id: Seq<char>,
)
    ensures
        first_match(bucket, year, course_num, prof_id) matches Some(x) ==> bucket.contains(x)
            && x.has_key(year, course_num, prof_id),
    decreases bucket.len(),
{
    if bucket.len() > 0 && !bucket[0].has_key(year, course_num, prof_id) {
        lemma_first_match_sound(bucket.drop_first(), year, course_num, prof_id);
        if first_match(bucket, year, course_num, prof_id) is Some {
            let x = first_match(bucket, year, course_num, prof_id)->Some_0;
            let i = choose|i: int| 0 <= i < bucket.drop_first().len() && bucket.drop_first()[i] == x;
            assert(bucket[i + 1] == x);
        }
    }
}

/// Round trip: with distinct keys, searching a chaining table built from
/// `records` for the key of any record returns that record.
pub proof fn lemma_chain_round_trip(records: Seq<Rc<Course>>, size: nat, k: int)
    requires
        size > 0,
        distinct_keys(records),
        0 <= k < records.len(),
    ensures
        first_match(
            chain_layout(records, size)[slot_of(records[k].course_num, size)],
            records[k].year@,
            records[k].course_num,
            records[k].prof_id@,
        ) == Some(records[k]),
{
    broadcast use vstd::seq_lib::group_filter_ensures, vstd::seq::Seq::lemma_filter_contains_rev;

    let x = records[k];
    let sl = slot_of(x.course_num, size);
    let bucket = chain_bucket(records, size, sl);
    assert(chain_layout(records, size)[sl] == bucket);
    assert(bucket.contains(x));
    assert forall|j: int|
        0 <= j < bucket.len() && #[trigger] bucket[j].has_key(
            x.year@,
            x.course_num,
            x.prof_id@,
        ) implies bucket[j] == x by {
        assert(bucket.contains(bucket[j]));
        assert(records.contains(bucket[j]));
        let m = choose|m: int| 0 <= m < records.len() && records[m] == bucket[j];
        assert(records[m].has_key(records[k].year@, records[k].course_num, records[k].prof_id@));
    }
    lemma_first_match_unique(bucket, x, x.year@, x.course_num, x.prof_id@);
}

/// Absence: a key that no record has is not found in the chaining table.
pub proof fn lemma_chain_absent(
    records: Seq<Rc<Course>>,
    size: nat,
    year: Seq<char>,
    course_num: u32,
    prof_id: Seq<char>,
)
    requires
        size > 0,
        key_absent(records, year, course_num, prof_id),
    ensures
        first_match(
            chain_layout(records, size)[slot_of(course_num, size)],
            year,
            course_num,
            prof_id,
        ) is None,
{
    broadcast use vstd::seq::Seq::lemma_filter_contains_rev;

    let bucket = chain_bucket(records, size, slot_of(course_num, size));
    assert(chain_layout(records, size)[slot_of(course_num, size)] == bucket);
    lemma_first_match_sound(bucket, year, course_num, prof_id);
    if first_match(bucket, year, course_num, prof_id) is Some {
        let x = first_match(bucket, year, course_num, prof_id)->Some_0;
        assert(records.contains(x));
        let m = choose|m: int| 0 <= m < records.len() && records[m] == x;
        assert(records[m].has_key(year, course_num, prof_id));
    }
}

/// Appending `x` to one bucket adds `x` once to what the buckets hold together.
proof fn lemma_flatten_push_into(bs: Seq<Seq<Rc<Course>>>, j: int, x: Rc<Course>)
    requires
        0 <= j < bs.len(),
    ensures
        bs.update(j, bs[j].push(x)).flatten().to_multiset() =~= bs.flatten().to_multiset().insert(
            x,
        ),
    decreases bs.len(),
{
    broadcast use group_to_multiset_ensures, lemma_multiset_commutative;
    broadcast use vstd::seq::Seq::lemma_flatten_push;

    let n = bs.len() - 1;
    let front = bs.drop_last();
    assert(bs =~= front.push(bs[n]));
    if j == n {
        assert(bs.update(j, bs[j].push(x)) =~= front.push(bs[n].push(x)));
        assert(front.flatten() + bs[n].push(x) =~= (front.flatten() + bs[n]).push(x));
    } else {
        lemma_flatten_push_into(front, j, x);
        assert(bs.update(j, bs[j].push(x)) =~= front.update(j, front[j].push(x)).push(bs[n]));
    }
}

/// Enumeration is complete: the buckets of a chaining table built from
/// `records`, taken in slot order, hold each record exactly as often as
/// `records` does.
pub proof fn lemma_chain_enumeration(records: Seq<Rc<Course>>, size: nat)
    requires
        size > 0,
    ensures
        chain_layout(records, size).flatten().to_multiset() =~= records.to_multiset(),
    decreases records.len(),
{
    broadcast use group_to_multiset_ensures;

    if records.len() == 0 {
        let empty = chain_layout(records, size);
        assert forall|s: int| 0 <= s < size implies (#[trigger] empty[s]).len() == 0 by {
            reveal(Seq::filter);
        }
        lemma_flatten_empty_buckets(empty);
    } else {
        let prev = records.drop_last();
        let x = records.last();
        let sl = slot_of(x.course_num, size);
        lemma_chain_enumeration(prev, size);
        let before = chain_layout(prev, size);
        assert(chain_layout(records, size) =~= before.update(sl, before[sl].push(x))) by {
            reveal(Seq::filter);
        }
        lemma_flatten_push_into(before, sl, x);
        assert(records =~= prev.push(x));
    }
}

proof fn lemma_flatten_empty_buckets(bs: Seq<Seq<Rc<Course>>>)
    requires
        forall|s: int| 0 <= s < bs.len() ==> (#[trigger] bs[s]).len() == 0,
    ensures
        bs.flatten().len() == 0,
    decreases bs.len(),
{
    if bs.len() > 0 {
        lemma_flatten_empty_buckets(bs.drop_first());
    }
}

/// Determinism: two chaining tables built from the same records and size
/// have the same buckets and the same counts.
pub proof fn lemma_chain_deterministic(
    a: ChainingHash,
    b: ChainingHash,
    records: Seq<Rc<Course>>,
    size: nat,
)
    requires
        a.built_from(records, size),
        b.built_from(records, size),
    ensures
        a@ == b@,
        a.spec_collisions() == b.spec_collisions(),
        a.spec_search_ops() == b.spec_search_ops(),
{
}

} // verus!
