//! An open-addressed hash set with quadratic probing, tombstone-based
//! deletion, and automatic load-factor-driven growth.
//!
//! The table is a contiguous array of buckets, each of which is empty, holds
//! one live element, or is a tombstone (formerly occupied, now deleted).
//! Lookups probe the quadratic sequence `(hash + k*k) % capacity` for
//! `k = 1, 2, 3, ...` and stop at the first empty bucket or the first bucket
//! holding an equal value; tombstones are probed past, never a stopping
//! condition. The set abstracts to the mathematical set of the views of the
//! live elements.

use vstd::prelude::*;
use vstd::pervasive::VecAdditionalExecFns;
use crate::set_item::SetItem;

verus! {

/// One slot of the table: never occupied since the last resize (`Empty`),
/// holding a live element (`NonEmpty`), or deleted (`Deleted`).
pub enum BucketElement<T> {
    NonEmpty(T),
    Empty,
    Deleted,
}

/// The bucket holds a live element.
pub open spec fn is_live<T>(b: BucketElement<T>) -> bool {
    b is NonEmpty
}

/// The bucket is occupied or tombstoned: probing passes it.
pub open spec fn is_used<T>(b: BucketElement<T>) -> bool {
    !(b is Empty)
}

/// The view of the element a live bucket holds.
pub open spec fn bucket_view<T: SetItem>(b: BucketElement<T>) -> T::V
    recommends
        is_live(b),
{
    match b {
        BucketElement::NonEmpty(t) => t@,
        _ => vstd::pervasive::arbitrary(),
    }
}

/// How many buckets hold a live element.
pub open spec fn count_live<T: SetItem>(s: Seq<BucketElement<T>>) -> nat
    decreases s.len(),
{
    if s.len() == 0 {
        0
    } else {
        count_live(s.drop_last()) + (if is_live(s.last()) {
            1nat
        } else {
            0nat
        })
    }
}

/// How many buckets are occupied or tombstoned (everything but `Empty`).
pub open spec fn count_used<T: SetItem>(s: Seq<BucketElement<T>>) -> nat
    decreases s.len(),
{
    if s.len() == 0 {
        0
    } else {
        count_used(s.drop_last()) + (if is_used(s.last()) {
            1nat
        } else {
            0nat
        })
    }
}

/// Bucket `i` holds a live element whose view is `v`.
pub open spec fn slot_matches<T: SetItem>(s: Seq<BucketElement<T>>, i: int, v: T::V) -> bool {
    0 <= i < s.len() && is_live(s[i]) && bucket_view(s[i]) == v
}

/// The set of views of the live elements of a table.
pub open spec fn table_contents<T: SetItem>(s: Seq<BucketElement<T>>) -> Set<T::V> {
    Set::new(|v: T::V| exists|i: int| slot_matches(s, i, v))
}

/// The bucket visited at step `k` of the quadratic probe sequence that
/// starts from hash value `h`.
pub open spec fn probe_pos(h: u64, cap: nat, k: nat) -> nat
    recommends
        cap > 0,
{
    (h as nat + k * k) % cap
}

/// No two live buckets hold equal values.
pub open spec fn distinct_live<T: SetItem>(s: Seq<BucketElement<T>>) -> bool {
    forall|i: int, j: int|
        0 <= i < s.len() && 0 <= j < s.len() && i != j && is_live(#[trigger] s[i]) && is_live(
            #[trigger] s[j],
        ) ==> bucket_view(s[i]) != bucket_view(s[j])
}

/// Probing for view `v` reaches a bucket holding `v` strictly before it
/// would reach an empty bucket.
pub open spec fn probe_reaches<T: SetItem>(s: Seq<BucketElement<T>>, v: T::V) -> bool {
    exists|k: nat|
        1 <= k <= s.len() && slot_matches(s, probe_pos(T::hash_of(v), s.len(), k) as int, v)
            && (forall|j: nat|
            1 <= j < k ==> is_used(#[trigger] s[probe_pos(T::hash_of(v), s.len(), j) as int]))
}

/// The whole probe sequence for hash `h` passes only occupied or
/// tombstoned buckets.
pub open spec fn probe_all_used<T: SetItem>(s: Seq<BucketElement<T>>, h: u64) -> bool {
    forall|k: nat| 1 <= k <= s.len() ==> is_used(#[trigger] s[probe_pos(h, s.len(), k) as int])
}

/// Every live element can be found again: its probe sequence either reaches
/// it before any empty bucket, or contains no empty bucket at all (in which
/// case an exhaustive sweep still finds it).
pub open spec fn placement_ok<T: SetItem>(s: Seq<BucketElement<T>>) -> bool {
    forall|i: int|
        0 <= i < s.len() && is_live(#[trigger] s[i]) ==> probe_reaches(s, bucket_view(s[i]))
            || probe_all_used(s, T::hash_of(bucket_view(s[i])))
}

/// An open-addressed hash set with quadratic probing and tombstone-based
/// deletion.
pub struct HashSet<T: SetItem> {
    data: Vec<BucketElement<T>>,
    size: usize,
    loaded: usize,
}

impl<T: SetItem> HashSet<T> {
    /// The mathematical contents: the set of views of the live elements.
    pub closed spec fn view(&self) -> Set<T::V> {
        table_contents(self.data@)
    }

    /// The number of live elements.
    pub closed spec fn spec_size(&self) -> nat {
        self.size as nat
    }

    /// The number of occupied slots, live and tombstoned together.
    pub closed spec fn spec_loaded(&self) -> nat {
        self.loaded as nat
    }

    /// The number of buckets.
    pub closed spec fn spec_capacity(&self) -> nat {
        self.data@.len()
    }

    /// Well-formedness: the counters agree with the table, no value is
    /// stored twice, and every live element is reachable by probing.
    pub closed spec fn wf(&self) -> bool {
        &&& self.size == count_live(self.data@)
        &&& self.loaded == count_used(self.data@)
        &&& distinct_live(self.data@)
        &&& placement_ok(self.data@)
    }

    /// A fresh set: no elements, no buckets allocated.
    pub fn new() -> (r: HashSet<T>)
        ensures
            r.wf(),
            r@ == Set::<T::V>::empty(),
            r.spec_size() == 0,
            r.spec_loaded() == 0,
            r.spec_capacity() == 0,
    {
        let r = HashSet { data: Vec::new(), size: 0, loaded: 0 };
        proof {
            assert(r@ =~= Set::<T::V>::empty());
        }
        r
    }

    /// The number of elements, which equals the cardinality of the contents.
    pub fn size(&self) -> (r: usize)
        requires
            self.wf(),
        ensures
            r == self.spec_size(),
            r == self@.len(),
    {
        proof {
            self.lemma_counters();
        }
        self.size
    }

    /// Whether the set holds no element.
    pub fn is_empty(&self) -> (r: bool)
        requires
            self.wf(),
        ensures
            r == (self.spec_size() == 0),
            r == (self@ =~= Set::<T::V>::empty()),
    {
        proof {
            self.lemma_counters();
            if self.size == 0 {
                lemma_no_live_of_count_zero(self.data@);
                assert(self@ =~= Set::<T::V>::empty());
            } else {
                assert(self@.len() != 0);
                assert(!(self@ =~= Set::<T::V>::empty()));
            }
        }
        self.size == 0
    }

    /// Drops the table and resets every counter; the set behaves afterwards
    /// as a freshly constructed one.
    pub fn clear(&mut self)
        ensures
            final(self).wf(),
            final(self)@ == Set::<T::V>::empty(),
            final(self).spec_size() == 0,
            final(self).spec_loaded() == 0,
            final(self).spec_capacity() == 0,
    {
        self.data = Vec::new();
        self.size = 0;
        self.loaded = 0;
        proof {
            assert(self@ =~= Set::<T::V>::empty());
        }
    }

    /// The invariants the structure maintains: the contents are a finite set
    /// whose cardinality is the element count, and the element count never
    /// exceeds the occupied-slot count, which never exceeds the capacity.
    pub proof fn lemma_counters(&self)
        requires
            self.wf(),
        ensures
            self@.finite(),
            self@.len() == self.spec_size(),
            self.spec_size() <= self.spec_loaded(),
            self.spec_loaded() <= self.spec_capacity(),
    {
        lemma_count_live_le_used(self.data@);
        lemma_count_used_le_len(self.data@);
        lemma_contents_cardinality(self.data@);
    }
}

/// The buckets visited strictly before step `k` of the probe sequence for
/// view `v` are all occupied or tombstoned, and none of them holds `v`.
pub open spec fn probe_prefix_clear<T: SetItem>(
    s: Seq<BucketElement<T>>,
    h: u64,
    v: T::V,
    k: nat,
) -> bool {
    forall|j: nat|
        1 <= j < k ==> {
            let p = #[trigger] probe_pos(h, s.len(), j) as int;
            is_used(s[p]) && !slot_matches(s, p, v)
        }
}

/// What a probe of the table reports.
enum ProbeOutcome {
    /// The element is live in the bucket with this index.
    Present(usize),
    /// The probe reached an empty bucket, with this index, first.
    Vacant(usize),
    /// A full probe cycle saw neither an empty bucket nor the element.
    Exhausted,
}

impl<T: SetItem> HashSet<T> {
    /// Follows the quadratic probe sequence of `item` to its first stopping
    /// bucket: one holding an equal element, or an empty one. One full cycle
    /// of `capacity` steps visits every bucket the sequence can ever reach,
    /// so the probe reports exhaustion after that many steps.
    fn probe_item(&self, item: &T) -> (res: ProbeOutcome)
        requires
            self.wf(),
            self.data@.len() > 0,
        ensures
            ({
                let s = self.data@;
                let h = T::hash_of(item@);
                match res {
                    ProbeOutcome::Present(i) => exists|k: nat|
                        1 <= k <= s.len() && i == probe_pos(h, s.len(), k) && slot_matches(
                            s,
                            i as int,
                            item@,
                        ) && probe_prefix_clear(s, h, item@, k),
                    ProbeOutcome::Vacant(i) => exists|k: nat|
                        1 <= k <= s.len() && i == probe_pos(h, s.len(), k) && i < s.len() && s[
                            i as int
                        ] is Empty && probe_prefix_clear(s, h, item@, k),
                    ProbeOutcome::Exhausted => probe_prefix_clear(
                        s,
                        h,
                        item@,
                        (s.len() + 1) as nat,
                    ),
                }
            }),
    {
        let h = item.hash_code();
        let cap = self.data.len();
        let mut done: usize = 0;
        while done < cap
            invariant
                self.wf(),
                cap == self.data@.len(),
                cap > 0,
                done <= cap,
                h == T::hash_of(item@),
                probe_prefix_clear(self.data@, h, item@, done as nat + 1),
            decreases cap - done,
        {
            let k = done + 1;
            let idx = probe_index(h, cap, k);
            match &self.data[idx] {
                BucketElement::NonEmpty(v) => {
                    if v.eq_item(item) {
                        proof {
                            assert(slot_matches(self.data@, idx as int, item@));
                        }
                        return ProbeOutcome::Present(idx);
                    }
                    proof {
                        assert(is_used(self.data@[idx as int]) && !slot_matches(
                            self.data@,
                            idx as int,
                            item@,
                        ));
                    }
                },
                BucketElement::Empty => {
                    return ProbeOutcome::Vacant(idx);
                },
                BucketElement::Deleted => {
                    proof {
                        assert(is_used(self.data@[idx as int]) && !slot_matches(
                            self.data@,
                            idx as int,
                            item@,
                        ));
                    }
                },
            }
            proof {
                assert forall|j: nat| 1 <= j < k as nat + 1 implies ({
                    let p = #[trigger] probe_pos(h, self.data@.len(), j) as int;
                    is_used(self.data@[p]) && !slot_matches(self.data@, p, item@)
                }) by {
                    if j == k as nat {
                        assert(probe_pos(h, self.data@.len(), j) == idx);
                    }
                }
                assert(probe_prefix_clear(self.data@, h, item@, k as nat + 1));
            }
            done = done + 1;
        }
        ProbeOutcome::Exhausted
    }

    /// Sweeps the whole table for a bucket holding an element equal to
    /// `item`.
    fn scan_find(&self, item: &T) -> (res: Option<usize>)
        ensures
            match res {
                Some(i) => slot_matches(self.data@, i as int, item@),
                None => forall|i: int|
                    0 <= i < self.data@.len() ==> !slot_matches(self.data@, i, item@),
            },
    {
        let n = self.data.len();
        let mut i: usize = 0;
        while i < n
            invariant
                i <= n,
                n == self.data@.len(),
                forall|j: int| 0 <= j < i ==> !slot_matches(self.data@, j, item@),
            decreases n - i,
        {
            match &self.data[i] {
                BucketElement::NonEmpty(v) => {
                    if v.eq_item(item) {
                        return Some(i);
                    }
                },
                _ => {},
            }
            i = i + 1;
        }
        None
    }

    /// Membership test. With no elements the test answers immediately;
    /// otherwise it probes the quadratic sequence, treating tombstones as
    /// buckets to pass over.
    pub fn contains(&self, item: &T) -> (r: bool)
        requires
            self.wf(),
        ensures
            r == self@.contains(item@),
    {
        if self.size == 0 {
            proof {
                lemma_no_live_of_count_zero(self.data@);
                if self@.contains(item@) {
                    let i = choose|i: int| slot_matches(self.data@, i, item@);
                }
            }
            return false;
        }
        proof {
            lemma_count_live_le_used(self.data@);
            lemma_count_used_le_len(self.data@);
        }
        match self.probe_item(item) {
            ProbeOutcome::Present(i) => {
                proof {
                    assert(self@.contains(item@));
                }
                true
            },
            ProbeOutcome::Vacant(i) => {
                proof {
                    let h = T::hash_of(item@);
                    let k = choose|k: nat|
                        1 <= k <= self.data@.len() && i == probe_pos(h, self.data@.len(), k)
                            && i < self.data@.len() && self.data@[i as int] is Empty
                            && probe_prefix_clear(self.data@, h, item@, k);
                    lemma_vacant_absent(self.data@, item@, k);
                }
                false
            },
            ProbeOutcome::Exhausted => {
                match self.scan_find(item) {
                    Some(_) => {
                        proof {
                            assert(self@.contains(item@));
                        }
                        true
                    },
                    None => {
                        proof {
                            if self@.contains(item@) {
                                let i = choose|i: int| slot_matches(self.data@, i, item@);
                            }
                        }
                        false
                    },
                }
            },
        }
    }
}

impl<T: SetItem> HashSet<T> {
    /// Sweeps the table for an empty bucket, which must exist.
    fn scan_vacant(&self) -> (r: usize)
        requires
            count_used(self.data@) < self.data@.len(),
        ensures
            r < self.data@.len(),
            self.data@[r as int] is Empty,
    {
        let n = self.data.len();
        let mut i: usize = 0;
        while i < n
            invariant
                i <= n,
                n == self.data@.len(),
                count_used(self.data@) < n,
                forall|j: int| 0 <= j < i ==> is_used(#[trigger] self.data@[j]),
            decreases n - i,
        {
            match &self.data[i] {
                BucketElement::Empty => {
                    return i;
                },
                _ => {},
            }
            i = i + 1;
        }
        proof {
            lemma_count_used_full(self.data@);
        }
        0
    }

    /// Inserts into the current table, which must have room, without ever
    /// growing it. Reports whether the element was new.
    fn insert_no_grow(&mut self, item: T) -> (r: bool)
        requires
            old(self).wf(),
            old(self).spec_loaded() < old(self).spec_capacity(),
        ensures
            final(self).wf(),
            r == !old(self)@.contains(item@),
            final(self)@ == old(self)@.insert(item@),
            final(self).spec_capacity() == old(self).spec_capacity(),
            final(self).spec_size() as int == old(self).spec_size() as int + (if r {
                1int
            } else {
                0int
            }),
            final(self).spec_loaded() as int == old(self).spec_loaded() as int + (if r {
                1int
            } else {
                0int
            }),
    {
        proof {
            lemma_count_used_le_len(self.data@);
            lemma_count_live_le_used(self.data@);
            assert(self.data.len() == self.data@.len());
        }
        match self.probe_item(&item) {
            ProbeOutcome::Present(_) => {
                proof {
                    assert(self@.contains(item@));
                    assert(self@.insert(item@) =~= self@);
                }
                false
            },
            ProbeOutcome::Vacant(i) => {
                proof {
                    let h = T::hash_of(item@);
                    let k = choose|k: nat|
                        1 <= k <= self.data@.len() && i == probe_pos(h, self.data@.len(), k)
                            && i < self.data@.len() && self.data@[i as int] is Empty
                            && probe_prefix_clear(self.data@, h, item@, k);
                    lemma_vacant_absent(self.data@, item@, k);
                }
                let ghost s0 = self.data@;
                let ghost iv = item@;
                self.data.set(i, BucketElement::NonEmpty(item));
                self.size = self.size + 1;
                self.loaded = self.loaded + 1;
                proof {
                    let s2 = self.data@;
                    let h = T::hash_of(iv);
                    lemma_counts_update(s0, i as int, s2[i as int]);
                    lemma_contents_update_insert(s0, i as int, s2[i as int]->NonEmpty_0);
                    lemma_placement_preserved(s0, i as int, s2[i as int]);
                    // No other live bucket holds this view: the value was absent.
                    assert forall|p: int, q: int|
                        0 <= p < s2.len() && 0 <= q < s2.len() && p != q && is_live(
                            #[trigger] s2[p],
                        ) && is_live(#[trigger] s2[q]) implies bucket_view(s2[p]) != bucket_view(
                        s2[q],
                    ) by {
                        if p == i || q == i {
                            let o = if p == i {
                                q
                            } else {
                                p
                            };
                            if bucket_view(s2[o]) == iv {
                                assert(slot_matches(s0, o, iv));
                                assert(table_contents(s0).contains(iv));
                            }
                        }
                    }
                    // The new element itself is reachable: its probe stops here.
                    let k = choose|k: nat|
                        1 <= k <= s0.len() && i == probe_pos(h, s0.len(), k) && i < s0.len() && s0[
                            i as int
                        ] is Empty && probe_prefix_clear(s0, h, iv, k);
                    assert(slot_matches(s2, probe_pos(h, s2.len(), k) as int, iv));
                    assert forall|j: nat| 1 <= j < k implies is_used(
                        #[trigger] s2[probe_pos(h, s2.len(), j) as int],
                    ) by {
                        let p = probe_pos(h, s0.len(), j) as int;
                        assert(is_used(s0[p]));
                        assert(p != i);
                    }
                    assert(probe_reaches(s2, iv));
                    assert(placement_ok(s2)) by {
                        assert forall|j: int|
                            0 <= j < s2.len() && is_live(#[trigger] s2[j]) implies probe_reaches(
                            s2,
                            bucket_view(s2[j]),
                        ) || probe_all_used(s2, T::hash_of(bucket_view(s2[j]))) by {
                            if j == i {
                                assert(bucket_view(s2[j]) == iv);
                            }
                        }
                    }
                }
                true
            },
            ProbeOutcome::Exhausted => {
                match self.scan_find(&item) {
                    Some(_) => {
                        proof {
                            assert(self@.contains(item@));
                            assert(self@.insert(item@) =~= self@);
                        }
                        false
                    },
                    None => {
                        proof {
                            if self@.contains(item@) {
                                let j = choose|j: int| slot_matches(self.data@, j, item@);
                            }
                        }
                        let e = self.scan_vacant();
                        let ghost s0 = self.data@;
                        let ghost iv = item@;
                        self.data.set(e, BucketElement::NonEmpty(item));
                        self.size = self.size + 1;
                        self.loaded = self.loaded + 1;
                        proof {
                            let s2 = self.data@;
                            let h = T::hash_of(iv);
                            lemma_counts_update(s0, e as int, s2[e as int]);
                            lemma_contents_update_insert(s0, e as int, s2[e as int]->NonEmpty_0);
                            lemma_placement_preserved(s0, e as int, s2[e as int]);
                            assert forall|p: int, q: int|
                                0 <= p < s2.len() && 0 <= q < s2.len() && p != q && is_live(
                                    #[trigger] s2[p],
                                ) && is_live(#[trigger] s2[q]) implies bucket_view(s2[p])
                                != bucket_view(s2[q]) by {
                                if p == e || q == e {
                                    let o = if p == e {
                                        q
                                    } else {
                                        p
                                    };
                                    if bucket_view(s2[o]) == iv {
                                        assert(slot_matches(s0, o, iv));
                                    }
                                }
                            }
                            // The whole probe sequence of the new element was
                            // already free of empty buckets, and stays so.
                            assert forall|k: nat| 1 <= k <= s2.len() implies is_used(
                                #[trigger] s2[probe_pos(h, s2.len(), k) as int],
                            ) by {
                                let p = probe_pos(h, s0.len(), k) as int;
                                assert(is_used(s0[p]) && !slot_matches(s0, p, iv));
                                assert(p != e);
                            }
                            assert(probe_all_used(s2, h));
                            assert(placement_ok(s2)) by {
                                assert forall|j: int|
                                    0 <= j < s2.len() && is_live(#[trigger] s2[j]) implies
                                    probe_reaches(s2, bucket_view(s2[j])) || probe_all_used(
                                    s2,
                                    T::hash_of(bucket_view(s2[j])),
                                ) by {
                                    if j == e {
                                        assert(bucket_view(s2[j]) == iv);
                                    }
                                }
                            }
                        }
                        true
                    },
                }
            },
        }
    }

    /// Replaces the table with a fresh, larger, all-empty one and re-inserts
    /// every live element; tombstones are dropped, and the counters are
    /// rebuilt from what is re-inserted.
    fn resize(&mut self, new_size: usize)
        requires
            old(self).wf(),
            old(self).spec_size() < new_size,
        ensures
            final(self).wf(),
            final(self)@ == old(self)@,
            final(self).spec_size() == old(self).spec_size(),
            final(self).spec_loaded() == old(self).spec_size(),
            final(self).spec_capacity() == new_size,
    {
        let mut swapped: Vec<BucketElement<T>> = Vec::new();
        let mut i: usize = 0;
        while i < new_size
            invariant
                swapped@.len() == i,
                i <= new_size,
                forall|j: int| 0 <= j < i ==> !is_used(#[trigger] swapped@[j]),
            decreases new_size - i,
        {
            swapped.push(BucketElement::Empty);
            i = i + 1;
        }
        core::mem::swap(&mut self.data, &mut swapped);
        let old_data = swapped;
        self.size = 0;
        self.loaded = 0;
        proof {
            lemma_counts_all_empty(self.data@);
            assert(self@ =~= Set::<T::V>::empty());
            lemma_count_take_le(old_data@, 0);
            assert(old_data@.take(0) =~= Seq::<BucketElement<T>>::empty());
            assert(self@ =~= table_contents(old_data@.take(0)));
        }
        let n = old_data.len();
        let mut i: usize = 0;
        while i < n
            invariant
                self.wf(),
                i <= n,
                n == old_data@.len(),
                self.spec_capacity() == new_size,
                count_live(old_data@) < new_size,
                distinct_live(old_data@),
                self@ == table_contents(old_data@.take(i as int)),
                self.spec_size() == count_live(old_data@.take(i as int)),
                self.spec_loaded() == self.spec_size(),
            decreases n - i,
        {
            proof {
                lemma_contents_take_step(old_data@, i as int);
                lemma_count_take_le(old_data@, i as int + 1);
            }
            match &old_data[i] {
                BucketElement::NonEmpty(v) => {
                    let c = v.clone_item();
                    proof {
                        // Re-inserted values are pairwise distinct, so this
                        // one is absent from what was re-inserted so far.
                        if self@.contains(c@) {
                            let j = choose|j: int|
                                slot_matches(old_data@.take(i as int), j, c@);
                            assert(is_live(old_data@[j]) && bucket_view(old_data@[j]) == c@);
                            assert(bucket_view(old_data@[j]) != bucket_view(old_data@[i as int]));
                        }
                    }
                    let inserted = self.insert_no_grow(c);
                    proof {
                        assert(self@ =~= table_contents(old_data@.take(i as int)).insert(c@));
                    }
                },
                _ => {},
            }
            i = i + 1;
        }
        proof {
            assert(old_data@.take(n as int) =~= old_data@);
        }
    }

    /// Inserts an element. Reports `true` if it was newly inserted and
    /// `false` if an equal element was already present, in which case
    /// nothing is stored. The table grows first whenever the occupied
    /// buckets, tombstones included, have reached half the capacity.
    pub fn add(&mut self, item: T) -> (r: bool)
        requires
            old(self).wf(),
            old(self).spec_capacity() <= 2 * old(self).spec_loaded() ==> 2 * old(
                self,
            ).spec_capacity() + 2 <= usize::MAX,
        ensures
            final(self).wf(),
            r == !old(self)@.contains(item@),
            final(self)@ == old(self)@.insert(item@),
            final(self).spec_capacity() == (if old(self).spec_capacity() <= 2 * old(
                self,
            ).spec_loaded() {
                2 * old(self).spec_capacity() + 2
            } else {
                old(self).spec_capacity()
            }),
            final(self).spec_size() as int == old(self).spec_size() as int + (if r {
                1int
            } else {
                0int
            }),
            !r ==> final(self)@ == old(self)@,
            final(self).spec_capacity() >= old(self).spec_capacity(),
            // When the insertion grew the table, the load factor is back
            // under one half afterwards.
            old(self).spec_capacity() <= 2 * old(self).spec_loaded()
                ==> 2 * final(self).spec_loaded() <= final(self).spec_capacity(),
            final(self).spec_loaded() as int == (if old(self).spec_capacity() <= 2 * old(
                self,
            ).spec_loaded() {
                old(self).spec_size() as int
            } else {
                old(self).spec_loaded() as int
            }) + (if r {
                1int
            } else {
                0int
            }),
    {
        proof {
            self.lemma_counters();
        }
        if self.data.len() - self.loaded <= self.loaded {
            let num_buckets = self.data.len() * 2 + 2;
            self.resize(num_buckets);
        }
        self.insert_no_grow(item)
    }

    /// Removes an element if an equal one is present, tombstoning its
    /// bucket; the tombstone keeps counting toward the load factor. Reports
    /// whether an element was removed; when none was, the set is unchanged.
    pub fn remove(&mut self, item: &T) -> (r: bool)
        requires
            old(self).wf(),
        ensures
            final(self).wf(),
            r == old(self)@.contains(item@),
            final(self)@ == old(self)@.remove(item@),
            final(self).spec_capacity() == old(self).spec_capacity(),
            final(self).spec_loaded() == old(self).spec_loaded(),
            final(self).spec_size() as int == old(self).spec_size() as int - (if r {
                1int
            } else {
                0int
            }),
            !r ==> *final(self) == *old(self),
    {
        if self.size == 0 {
            proof {
                lemma_no_live_of_count_zero(self.data@);
                if self@.contains(item@) {
                    let j = choose|j: int| slot_matches(self.data@, j, item@);
                }
                assert(self@.remove(item@) =~= self@);
            }
            return false;
        }
        proof {
            lemma_count_live_le_used(self.data@);
            lemma_count_used_le_len(self.data@);
        }
        let found: Option<usize> = match self.probe_item(item) {
            ProbeOutcome::Present(i) => Some(i),
            ProbeOutcome::Vacant(i) => {
                proof {
                    let h = T::hash_of(item@);
                    let k = choose|k: nat|
                        1 <= k <= self.data@.len() && i == probe_pos(h, self.data@.len(), k)
                            && i < self.data@.len() && self.data@[i as int] is Empty
                            && probe_prefix_clear(self.data@, h, item@, k);
                    lemma_vacant_absent(self.data@, item@, k);
                }
                None
            },
            ProbeOutcome::Exhausted => self.scan_find(item),
        };
        match found {
            Some(i) => {
                let ghost s0 = self.data@;
                proof {
                    lemma_no_live_of_count_zero(s0);
                }
                self.data.set(i, BucketElement::Deleted);
                self.size = self.size - 1;
                proof {
                    let s2 = self.data@;
                    lemma_counts_update(s0, i as int, BucketElement::Deleted);
                    lemma_contents_update_delete(s0, i as int);
                    lemma_placement_preserved(s0, i as int, BucketElement::Deleted);
                    assert(table_contents(s0).contains(item@));
                    assert(placement_ok(s2)) by {
                        assert forall|j: int|
                            0 <= j < s2.len() && is_live(#[trigger] s2[j]) implies probe_reaches(
                            s2,
                            bucket_view(s2[j]),
                        ) || probe_all_used(s2, T::hash_of(bucket_view(s2[j]))) by {
                            assert(j != i);
                        }
                    }
                }
                true
            },
            None => {
                proof {
                    if self@.contains(item@) {
                        let j = choose|j: int| slot_matches(self.data@, j, item@);
                    }
                    assert(self@.remove(item@) =~= self@);
                }
                false
            },
        }
    }
}

impl<T: SetItem> HashSet<T> {
    /// Whether the probe sequence for `v` stops at all: some step reaches an
    /// empty bucket or a bucket holding `v`. Where it never does, a search
    /// for `v` by pure probing would cycle forever.
    pub closed spec fn probe_terminates(&self, v: T::V) -> bool {
        exists|k: nat|
            1 <= k <= self.data@.len() && {
                let p = #[trigger] probe_pos(T::hash_of(v), self.data@.len(), k) as int;
                self.data@[p] is Empty || slot_matches(self.data@, p, v)
            }
    }

    /// `r` is the bucket index at which the probe sequence for `v` first
    /// stops: the bucket is empty or holds `v`, and every bucket the probe
    /// visited before is occupied or tombstoned by some other value.
    pub closed spec fn is_first_probe_stop(&self, v: T::V, r: usize) -> bool {
        exists|k: nat|
            1 <= k <= self.data@.len() && r == probe_pos(T::hash_of(v), self.data@.len(), k) && {
                let p = r as int;
                self.data@[p] is Empty || slot_matches(self.data@, p, v)
            } && probe_prefix_clear(self.data@, T::hash_of(v), v, k)
    }

    /// The index of the bucket where the quadratic probe for `item` first
    /// stops: either the bucket holding the equal element, or the empty
    /// bucket where it would be inserted.
    pub fn index_of(&self, item: &T) -> (r: usize)
        requires
            self.wf(),
            self.spec_capacity() > 0,
            self.probe_terminates(item@),
        ensures
            r < self.spec_capacity(),
            self.is_first_probe_stop(item@, r),
    {
        match self.probe_item(item) {
            ProbeOutcome::Present(i) => {
                proof {
                    assert(self.data.len() == self.data@.len());
                }
                i
            },
            ProbeOutcome::Vacant(i) => {
                proof {
                    assert(self.data.len() == self.data@.len());
                }
                i
            },
            ProbeOutcome::Exhausted => {
                proof {
                    let h = T::hash_of(item@);
                    let s = self.data@;
                    let k = choose|k: nat|
                        1 <= k <= s.len() && {
                            let p = #[trigger] probe_pos(h, s.len(), k) as int;
                            s[p] is Empty || slot_matches(s, p, item@)
                        };
                    assert({
                        let p = probe_pos(h, s.len(), k) as int;
                        is_used(s[p]) && !slot_matches(s, p, item@)
                    });
                    assert(false);
                }
                0
            },
        }
    }
}

/// Folds a sequence of values into a set, first to last.
pub open spec fn insert_all<V>(s: Set<V>, vals: Seq<V>) -> Set<V>
    decreases vals.len(),
{
    if vals.len() == 0 {
        s
    } else {
        insert_all(s, vals.drop_last()).insert(vals.last())
    }
}

/// Law: a value just inserted is reported present by an immediately
/// following lookup. `add` leaves the contents `old(self)@.insert(v)`, and
/// `contains` answers membership in the contents, so the lookup answers
/// `true`.
pub proof fn lemma_add_then_contains<V>(s: Set<V>, v: V)
    ensures
        s.insert(v).contains(v),
{
}

/// Law: a value just removed is reported absent by a following lookup, and
/// re-inserting it right afterwards succeeds and makes it present again:
/// the tombstone left behind does not block re-insertion. `remove` leaves
/// the contents `old(self)@.remove(v)`, and `add` reports `true` exactly on
/// values absent from the contents.
pub proof fn lemma_remove_then_add<V>(s: Set<V>, v: V)
    ensures
        !s.remove(v).contains(v),
        s.remove(v).insert(v).contains(v),
{
}

/// Law: inserting distinct values, however many growths of the table occur
/// along the way, leaves every one of them retrievable, and the cardinality
/// of the contents equals their number. Each `add` call leaves the contents
/// exactly `old(self)@.insert(v)` whatever resizing it performed, so a
/// sequence of calls starting from an empty set realizes `insert_all`, and
/// `size` reports the cardinality of the contents.
pub proof fn lemma_distinct_inserts_all_retrievable<V>(vals: Seq<V>)
    requires
        vals.no_duplicates(),
    ensures
        forall|i: int|
            0 <= i < vals.len() ==> insert_all(Set::<V>::empty(), vals).contains(#[trigger] vals[i]),
        forall|v: V| insert_all(Set::<V>::empty(), vals).contains(v) ==> vals.contains(v),
        insert_all(Set::<V>::empty(), vals).finite(),
        insert_all(Set::<V>::empty(), vals).len() == vals.len(),
    decreases vals.len(),
{
    if vals.len() > 0 {
        let prefix = vals.drop_last();
        assert(prefix.no_duplicates());
        lemma_distinct_inserts_all_retrievable(prefix);
        let before = insert_all(Set::<V>::empty(), prefix);
        assert(!before.contains(vals.last())) by {
            if before.contains(vals.last()) {
                assert(prefix.contains(vals.last()));
                let j = choose|j: int| 0 <= j < prefix.len() && prefix[j] == vals.last();
                assert(prefix[j] == vals[j]);
                assert(vals[j] == vals[vals.len() - 1]);
                assert(j != vals.len() - 1);
            }
        }
        assert forall|v: V| insert_all(Set::<V>::empty(), vals).contains(v) implies vals.contains(
            v,
        ) by {
            assert(insert_all(Set::<V>::empty(), vals) == before.insert(vals.last()));
            if v == vals.last() {
                assert(vals[vals.len() - 1] == v);
            } else {
                assert(before.contains(v));
                assert(prefix.contains(v));
                let j = choose|j: int| 0 <= j < prefix.len() && prefix[j] == v;
                assert(prefix[j] == vals[j]);
                assert(vals[j] == v);
            }
        }
        assert forall|i: int| 0 <= i < vals.len() implies insert_all(
            Set::<V>::empty(),
            vals,
        ).contains(#[trigger] vals[i]) by {
            if i < vals.len() - 1 {
                assert(prefix[i] == vals[i]);
            }
        }
    }
}

/// The bucket index visited at step `k` of the probe sequence for hash `h`,
/// computed without overflow.
fn probe_index(h: u64, cap: usize, k: usize) -> (r: usize)
    requires
        cap > 0,
        k <= cap,
    ensures
        r == probe_pos(h, cap as nat, k as nat),
        r < cap,
{
    let hh = h as u128;
    let kk = k as u128;
    let c = cap as u128;
    proof {
        assert((kk as int) * (kk as int) <= 0xffff_ffff_ffff_fffe_0000_0000_0000_0001int)
            by (nonlinear_arith)
            requires
                0 <= kk as int <= 0xffff_ffff_ffff_ffffint,
        ;
    }
    let idx = (hh + kk * kk) % c;
    idx as usize
}

/// If a probe reaches an empty bucket without passing the sought value, the
/// value is not in the set: a stored value is either reachable strictly
/// before any empty bucket, or its probe sequence has no empty bucket at
/// all.
proof fn lemma_vacant_absent<T: SetItem>(s: Seq<BucketElement<T>>, v: T::V, k: nat)
    requires
        distinct_live(s),
        placement_ok(s),
        s.len() > 0,
        1 <= k <= s.len(),
        s[probe_pos(T::hash_of(v), s.len(), k) as int] is Empty,
        probe_prefix_clear(s, T::hash_of(v), v, k),
    ensures
        !table_contents(s).contains(v),
{
    let h = T::hash_of(v);
    if table_contents(s).contains(v) {
        let i = choose|i: int| slot_matches(s, i, v);
        assert(is_live(s[i]));
        assert(probe_reaches(s, v) || probe_all_used(s, h));
        if probe_all_used(s, h) {
            assert(is_used(s[probe_pos(h, s.len(), k) as int]));
        } else {
            let kr = choose|kr: nat|
                1 <= kr <= s.len() && slot_matches(s, probe_pos(h, s.len(), kr) as int, v) && (
                forall|j: nat|
                    1 <= j < kr ==> is_used(#[trigger] s[probe_pos(h, s.len(), j) as int]));
            if k < kr {
                assert(is_used(s[probe_pos(h, s.len(), k) as int]));
            } else if kr < k {
                assert({
                    let p = probe_pos(h, s.len(), kr) as int;
                    is_used(s[p]) && !slot_matches(s, p, v)
                });
            } else {
                assert(s[probe_pos(h, s.len(), k) as int] is NonEmpty);
            }
        }
    }
}

/// Replacing one bucket changes the two counters by exactly the difference
/// the replaced and the new bucket contribute.
proof fn lemma_counts_update<T: SetItem>(s: Seq<BucketElement<T>>, i: int, b: BucketElement<T>)
    requires
        0 <= i < s.len(),
    ensures
        count_live(s.update(i, b)) as int == count_live(s) as int - (if is_live(s[i]) {
            1int
        } else {
            0int
        }) + (if is_live(b) {
            1int
        } else {
            0int
        }),
        count_used(s.update(i, b)) as int == count_used(s) as int - (if is_used(s[i]) {
            1int
        } else {
            0int
        }) + (if is_used(b) {
            1int
        } else {
            0int
        }),
    decreases s.len(),
{
    let s2 = s.update(i, b);
    if i == s.len() - 1 {
        assert(s2.drop_last() =~= s.drop_last());
        assert(s2.last() == b);
    } else {
        assert(s2.drop_last() =~= s.drop_last().update(i, b));
        lemma_counts_update(s.drop_last(), i, b);
        assert(s2.last() == s.last());
    }
}

/// A probe outcome survives a change of the table that removes no bucket
/// holding the sought value and turns no bucket empty.
proof fn lemma_probe_ok_monotone<T: SetItem>(
    s: Seq<BucketElement<T>>,
    s2: Seq<BucketElement<T>>,
    v: T::V,
)
    requires
        s2.len() == s.len(),
        forall|p: int| 0 <= p < s.len() && (#[trigger] s2[p]) is Empty ==> s[p] is Empty,
        forall|p: int| 0 <= p < s.len() && slot_matches(s, p, v) ==> slot_matches(s2, p, v),
    ensures
        probe_reaches(s, v) ==> probe_reaches(s2, v),
        probe_all_used(s, T::hash_of(v)) ==> probe_all_used(s2, T::hash_of(v)),
{
    let h = T::hash_of(v);
    if probe_reaches(s, v) {
        let k = choose|k: nat|
            1 <= k <= s.len() && slot_matches(s, probe_pos(h, s.len(), k) as int, v) && (forall|
                j: nat,
            |
                1 <= j < k ==> is_used(#[trigger] s[probe_pos(h, s.len(), j) as int]));
        assert(slot_matches(s2, probe_pos(h, s2.len(), k) as int, v));
        assert forall|j: nat| 1 <= j < k implies is_used(
            #[trigger] s2[probe_pos(h, s2.len(), j) as int],
        ) by {
            let p = probe_pos(h, s.len(), j) as int;
            assert(is_used(s[p]));
        }
        assert(probe_reaches(s2, v));
    }
    if probe_all_used(s, h) {
        assert forall|k: nat| 1 <= k <= s2.len() implies is_used(
            #[trigger] s2[probe_pos(h, s2.len(), k) as int],
        ) by {
            let p = probe_pos(h, s.len(), k) as int;
            assert(is_used(s[p]));
        }
    }
}

/// Replacing bucket `i` with an occupied or tombstoned bucket keeps every
/// other live element reachable.
proof fn lemma_placement_preserved<T: SetItem>(
    s: Seq<BucketElement<T>>,
    i: int,
    b: BucketElement<T>,
)
    requires
        0 <= i < s.len(),
        placement_ok(s),
        distinct_live(s),
        !(b is Empty),
    ensures
        forall|j: int|
            0 <= j < s.len() && j != i && is_live(#[trigger] s.update(i, b)[j]) ==> probe_reaches(
                s.update(i, b),
                bucket_view(s.update(i, b)[j]),
            ) || probe_all_used(s.update(i, b), T::hash_of(bucket_view(s.update(i, b)[j]))),
{
    let s2 = s.update(i, b);
    assert forall|j: int| 0 <= j < s.len() && j != i && is_live(#[trigger] s2[j]) implies
        probe_reaches(s2, bucket_view(s2[j])) || probe_all_used(
        s2,
        T::hash_of(bucket_view(s2[j])),
    ) by {
        let w = bucket_view(s2[j]);
        assert(s2[j] == s[j]);
        assert(is_live(s[j]));
        assert(probe_reaches(s, w) || probe_all_used(s, T::hash_of(w)));
        assert forall|p: int| 0 <= p < s.len() && slot_matches(s, p, w) implies slot_matches(
            s2,
            p,
            w,
        ) by {
            if p == i {
                assert(is_live(s[i]) && bucket_view(s[i]) == w);
                assert(bucket_view(s[i]) != bucket_view(s[j]));
            }
        }
        lemma_probe_ok_monotone(s, s2, w);
    }
}

/// Writing a live element into a bucket that held none inserts exactly its
/// view into the contents.
proof fn lemma_contents_update_insert<T: SetItem>(s: Seq<BucketElement<T>>, i: int, x: T)
    requires
        0 <= i < s.len(),
        !is_live(s[i]),
    ensures
        table_contents(s.update(i, BucketElement::NonEmpty(x))) =~= table_contents(s).insert(x@),
{
    let s2 = s.update(i, BucketElement::NonEmpty(x));
    assert forall|w: T::V| table_contents(s2).contains(w) implies table_contents(s).insert(
        x@,
    ).contains(w) by {
        let j = choose|j: int| slot_matches(s2, j, w);
        if j != i {
            assert(slot_matches(s, j, w));
        }
    }
    assert forall|w: T::V| table_contents(s).insert(x@).contains(w) implies table_contents(
        s2,
    ).contains(w) by {
        if w == x@ {
            assert(slot_matches(s2, i, w));
        } else {
            let j = choose|j: int| slot_matches(s, j, w);
            assert(j != i);
            assert(slot_matches(s2, j, w));
        }
    }
}

/// Tombstoning the one bucket that holds a value removes exactly its view
/// from the contents.
proof fn lemma_contents_update_delete<T: SetItem>(s: Seq<BucketElement<T>>, i: int)
    requires
        0 <= i < s.len(),
        is_live(s[i]),
        distinct_live(s),
    ensures
        table_contents(s.update(i, BucketElement::Deleted)) =~= table_contents(s).remove(
            bucket_view(s[i]),
        ),
{
    let v = bucket_view(s[i]);
    let s2 = s.update(i, BucketElement::Deleted);
    assert forall|w: T::V| table_contents(s2).contains(w) implies table_contents(s).remove(
        v,
    ).contains(w) by {
        let j = choose|j: int| slot_matches(s2, j, w);
        assert(j != i);
        assert(slot_matches(s, j, w));
        assert(w != v);
    }
    assert forall|w: T::V| table_contents(s).remove(v).contains(w) implies table_contents(
        s2,
    ).contains(w) by {
        let j = choose|j: int| slot_matches(s, j, w);
        assert(j != i);
        assert(slot_matches(s2, j, w));
    }
}

/// A table with no occupied bucket counts zero everywhere.
proof fn lemma_counts_all_empty<T: SetItem>(s: Seq<BucketElement<T>>)
    requires
        forall|i: int| 0 <= i < s.len() ==> !is_used(#[trigger] s[i]),
    ensures
        count_live(s) == 0,
        count_used(s) == 0,
    decreases s.len(),
{
    if s.len() > 0 {
        assert(forall|i: int|
            0 <= i < s.len() - 1 ==> s.drop_last()[i] == #[trigger] s[i]);
        lemma_counts_all_empty(s.drop_last());
    }
}

/// A table whose buckets are all occupied or tombstoned is counted full.
proof fn lemma_count_used_full<T: SetItem>(s: Seq<BucketElement<T>>)
    requires
        forall|i: int| 0 <= i < s.len() ==> is_used(#[trigger] s[i]),
    ensures
        count_used(s) == s.len(),
    decreases s.len(),
{
    if s.len() > 0 {
        assert(forall|i: int|
            0 <= i < s.len() - 1 ==> s.drop_last()[i] == #[trigger] s[i]);
        lemma_count_used_full(s.drop_last());
    }
}

/// Extending a prefix of a table by one bucket extends its live count and
/// its contents by exactly that bucket's contribution.
proof fn lemma_contents_take_step<T: SetItem>(s: Seq<BucketElement<T>>, i: int)
    requires
        0 <= i < s.len(),
    ensures
        count_live(s.take(i + 1)) as int == count_live(s.take(i)) as int + (if is_live(s[i]) {
            1int
        } else {
            0int
        }),
        is_live(s[i]) ==> table_contents(s.take(i + 1)) =~= table_contents(s.take(i)).insert(
            bucket_view(s[i]),
        ),
        !is_live(s[i]) ==> table_contents(s.take(i + 1)) =~= table_contents(s.take(i)),
{
    let p = s.take(i);
    let q = s.take(i + 1);
    assert(q.drop_last() =~= p);
    assert(q.last() == s[i]);
    if is_live(s[i]) {
        assert forall|w: T::V| table_contents(q).contains(w) implies table_contents(p).insert(
            bucket_view(s[i]),
        ).contains(w) by {
            let j = choose|j: int| slot_matches(q, j, w);
            if j < i {
                assert(slot_matches(p, j, w));
            }
        }
        assert forall|w: T::V| table_contents(p).insert(bucket_view(s[i])).contains(w) implies
            table_contents(q).contains(w) by {
            if w == bucket_view(s[i]) {
                assert(slot_matches(q, i, w));
            } else {
                let j = choose|j: int| slot_matches(p, j, w);
                assert(slot_matches(q, j, w));
            }
        }
    } else {
        assert forall|w: T::V| table_contents(q).contains(w) implies table_contents(p).contains(
            w,
        ) by {
            let j = choose|j: int| slot_matches(q, j, w);
            assert(j != i);
            assert(slot_matches(p, j, w));
        }
        assert forall|w: T::V| table_contents(p).contains(w) implies table_contents(q).contains(
            w,
        ) by {
            let j = choose|j: int| slot_matches(p, j, w);
            assert(slot_matches(q, j, w));
        }
    }
}

/// A prefix of a table never counts more live elements than the whole.
proof fn lemma_count_take_le<T: SetItem>(s: Seq<BucketElement<T>>, i: int)
    requires
        0 <= i <= s.len(),
    ensures
        count_live(s.take(i)) <= count_live(s),
    decreases s.len() - i,
{
    if i == s.len() {
        assert(s.take(i) =~= s);
    } else {
        lemma_contents_take_step(s, i);
        lemma_count_take_le(s, i + 1);
    }
}

/// A table with no live bucket counts zero live elements, and conversely.
proof fn lemma_no_live_of_count_zero<T: SetItem>(s: Seq<BucketElement<T>>)
    ensures
        (count_live(s) == 0) <==> (forall|i: int| 0 <= i < s.len() ==> !is_live(#[trigger] s[i])),
    decreases s.len(),
{
    if s.len() > 0 {
        lemma_no_live_of_count_zero(s.drop_last());
        assert(forall|i: int|
            0 <= i < s.len() - 1 ==> s.drop_last()[i] == #[trigger] s[i]);
        if count_live(s) == 0 {
            assert(forall|i: int| 0 <= i < s.len() ==> !is_live(#[trigger] s[i])) by {
                assert(!is_live(s[s.len() - 1]));
            }
        }
    }
}

proof fn lemma_count_live_le_used<T: SetItem>(s: Seq<BucketElement<T>>)
    ensures
        count_live(s) <= count_used(s),
    decreases s.len(),
{
    if s.len() > 0 {
        lemma_count_live_le_used(s.drop_last());
    }
}

proof fn lemma_count_used_le_len<T: SetItem>(s: Seq<BucketElement<T>>)
    ensures
        count_used(s) <= s.len(),
    decreases s.len(),
{
    if s.len() > 0 {
        lemma_count_used_le_len(s.drop_last());
    }
}

/// With no value stored twice, the number of live buckets is exactly the
/// cardinality of the contents.
proof fn lemma_contents_cardinality<T: SetItem>(s: Seq<BucketElement<T>>)
    requires
        distinct_live(s),
    ensures
        table_contents(s).finite(),
        table_contents(s).len() == count_live(s),
    decreases s.len(),
{
    if s.len() == 0 {
        assert(table_contents(s) =~= Set::<T::V>::empty());
    } else {
        let prefix = s.drop_last();
        assert(distinct_live(prefix)) by {
            assert(forall|i: int|
                0 <= i < prefix.len() ==> prefix[i] == #[trigger] s[i]);
        }
        lemma_contents_cardinality(prefix);
        if is_live(s.last()) {
            let v = bucket_view(s.last());
            assert(table_contents(s) =~= table_contents(prefix).insert(v)) by {
                assert forall|w: T::V| table_contents(s).contains(w) implies table_contents(
                    prefix,
                ).insert(v).contains(w) by {
                    let i = choose|i: int| slot_matches(s, i, w);
                    if i < s.len() - 1 {
                        assert(slot_matches(prefix, i, w));
                    }
                }
                assert forall|w: T::V| table_contents(prefix).insert(v).contains(w)
                    implies table_contents(s).contains(w) by {
                    if w == v {
                        assert(slot_matches(s, s.len() - 1, v));
                    } else {
                        let i = choose|i: int| slot_matches(prefix, i, w);
                        assert(slot_matches(s, i, w));
                    }
                }
            }
            assert(!table_contents(prefix).contains(v)) by {
                if table_contents(prefix).contains(v) {
                    let i = choose|i: int| slot_matches(prefix, i, v);
                    assert(slot_matches(s, i, v));
                    assert(is_live(s[s.len() - 1]));
                }
            }
        } else {
            assert(table_contents(s) =~= table_contents(prefix)) by {
                assert forall|w: T::V| table_contents(s).contains(w) implies table_contents(
                    prefix,
                ).contains(w) by {
                    let i = choose|i: int| slot_matches(s, i, w);
                    assert(i < s.len() - 1);
                    assert(slot_matches(prefix, i, w));
                }
                assert forall|w: T::V| table_contents(prefix).contains(w) implies table_contents(
                    s,
                ).contains(w) by {
                    let i = choose|i: int| slot_matches(prefix, i, w);
                    assert(slot_matches(s, i, w));
                }
            }
        }
    }
}

} // verus!
