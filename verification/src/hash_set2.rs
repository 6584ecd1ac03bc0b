//! A hash set with separate chaining: an array of buckets, each a vector of
//! elements whose hash lands there. Simpler than open addressing — deletion
//! needs no tombstones, and a lookup scans one bucket.

use vstd::prelude::*;
use crate::set_item::SetItem;

verus! {

/// The bucket an element with hash `h` belongs to, in a table of `cap`
/// buckets.
pub open spec fn bucket_index(h: u64, cap: nat) -> nat
    recommends
        cap > 0,
{
    (h as nat) % cap
}

/// Element `j` of bucket `b` has view `v`.
pub open spec fn chain_slot_matches<T: SetItem>(s: Seq<Vec<T>>, b: int, j: int, v: T::V) -> bool {
    0 <= b < s.len() && 0 <= j < s[b]@.len() && s[b]@[j]@ == v
}

/// The set of views of all stored elements.
pub open spec fn chain_contents<T: SetItem>(s: Seq<Vec<T>>) -> Set<T::V> {
    Set::new(|v: T::V| exists|b: int, j: int| chain_slot_matches(s, b, j, v))
}

/// The total number of stored elements, over all buckets.
pub open spec fn total_count<T>(s: Seq<Vec<T>>) -> nat
    decreases s.len(),
{
    if s.len() == 0 {
        0
    } else {
        total_count(s.drop_last()) + s.last()@.len()
    }
}

/// Every element sits in the bucket its hash selects.
pub open spec fn buckets_consistent<T: SetItem>(s: Seq<Vec<T>>) -> bool {
    forall|b: int, j: int|
        0 <= b < s.len() && 0 <= j < (#[trigger] s[b]@).len() ==> bucket_index(
            T::hash_of(#[trigger] s[b]@[j]@),
            s.len() as nat,
        ) == b
}

/// No value is stored twice, in any pair of positions.
pub open spec fn chain_distinct<T: SetItem>(s: Seq<Vec<T>>) -> bool {
    forall|b1: int, j1: int, b2: int, j2: int|
        0 <= b1 < s.len() && 0 <= j1 < (#[trigger] s[b1]@).len() && 0 <= b2 < s.len() && 0 <= j2
            < (#[trigger] s[b2]@).len() && (b1 != b2 || j1 != j2) ==> (#[trigger] s[b1]@[j1])@ != (#[trigger] s[b2]@[j2])@
}

/// A hash set with separate chaining.
pub struct HashSet<T: SetItem> {
    data: Vec<Vec<T>>,
    size: usize,
}

impl<T: SetItem> HashSet<T> {
    /// The mathematical contents: the set of views of the stored elements.
    pub closed spec fn view(&self) -> Set<T::V> {
        chain_contents(self.data@)
    }

    /// The number of stored elements.
    pub closed spec fn spec_size(&self) -> nat {
        self.size as nat
    }

    /// The number of buckets.
    pub closed spec fn spec_capacity(&self) -> nat {
        self.data@.len()
    }

    /// Well-formedness: the counter agrees with the table, every element is
    /// in the bucket its hash selects, and no value is stored twice.
    pub closed spec fn wf(&self) -> bool {
        &&& self.size == total_count(self.data@)
        &&& buckets_consistent(self.data@)
        &&& chain_distinct(self.data@)
    }

    /// A fresh set: no elements, no buckets allocated.
    pub fn new() -> (r: HashSet<T>)
        ensures
            r.wf(),
            r@ == Set::<T::V>::empty(),
            r.spec_size() == 0,
            r.spec_capacity() == 0,
    {
        let r = HashSet { data: Vec::new(), size: 0 };
        proof {
            assert(r@ =~= Set::<T::V>::empty());
        }
        r
    }

    /// Whether the set holds no element.
    pub fn is_empty(&self) -> (r: bool)
        requires
            self.wf(),
        ensures
            r == (self.spec_size() == 0),
            r == (self@ =~= Set::<T::V>::empty()),
    {
        proof {
            lemma_total_count_zero(self.data@);
            if self.size == 0 {
                assert(self@ =~= Set::<T::V>::empty());
            } else {
                let b = choose|b: int|
                    0 <= b < self.data@.len() && (#[trigger] self.data@[b]@).len() != 0;
                assert(self@.contains(self.data@[b]@[0]@)) by {
                    assert(chain_slot_matches(self.data@, b, 0, self.data@[b]@[0]@));
                }
                assert(!(self@ =~= Set::<T::V>::empty()));
            }
        }
        self.size == 0
    }

    /// The number of stored elements, which equals the cardinality of the
    /// contents.
    pub fn size(&self) -> (r: usize)
        requires
            self.wf(),
        ensures
            r == self.spec_size(),
            r == self@.len(),
    {
        proof {
            self.lemma_counters();
        }
        self.size
    }

    /// The invariants the structure maintains: the contents are a finite set
    /// whose cardinality is the element count.
    pub proof fn lemma_counters(&self)
        requires
            self.wf(),
        ensures
            self@.finite(),
            self@.len() == self.spec_size(),
    {
        lemma_chain_card(self.data@);
    }

    /// Drops the table and resets the counter; the set behaves afterwards as
    /// a freshly constructed one.
    pub fn clear(&mut self)
        ensures
            final(self).wf(),
            final(self)@ == Set::<T::V>::empty(),
            final(self).spec_size() == 0,
            final(self).spec_capacity() == 0,
    {
        self.data = Vec::new();
        self.size = 0;
        proof {
            assert(self@ =~= Set::<T::V>::empty());
        }
    }

    /// Membership test: scans the one bucket the element's hash selects.
    pub fn contains(&self, item: &T) -> (r: bool)
        requires
            self.wf(),
        ensures
            r == self@.contains(item@),
    {
        if self.size == 0 {
            proof {
                lemma_total_count_zero(self.data@);
                if self@.contains(item@) {
                    let (b, j) = choose|b: int, j: int| chain_slot_matches(self.data@, b, j, item@);
                }
            }
            return false;
        }
        proof {
            if self.data@.len() == 0 {
                assert(total_count(self.data@) == 0);
            }
        }
        let index = self.bucket_of(item);

        let bucket = &self.data[index];
        let n = bucket.len();
        let mut j: usize = 0;
        while j < n
            invariant
                j <= n,
                n == bucket@.len(),
                self.wf(),
                index < self.data@.len(),
                index == bucket_index(T::hash_of(item@), self.data@.len() as nat),
                *bucket == self.data@[index as int],
                forall|q: int| 0 <= q < j ==> (#[trigger] bucket@[q])@ != item@,
            decreases n - j,
        {
            if bucket[j].eq_item(item) {
                proof {
                    assert(*bucket == self.data@[index as int]);
                    assert(self.data@[index as int]@[j as int]@ == item@);
                    assert(chain_slot_matches(self.data@, index as int, j as int, item@));
                }
                return true;
            }
            j = j + 1;
        }
        proof {
            if self@.contains(item@) {
                let (b, q) = choose|b: int, q: int| chain_slot_matches(self.data@, b, q, item@);
                assert(bucket_index(T::hash_of(item@), self.data@.len() as nat) == b);
                assert(b == index);
                assert(bucket@[q]@ != item@);
            }
        }
        false
    }

    /// Appends a known-absent element to the bucket its hash selects.
    fn insert_unchecked(&mut self, item: T)
        requires
            old(self).wf(),
            old(self).spec_capacity() > 0,
            !old(self)@.contains(item@),
            old(self).spec_size() < usize::MAX,
        ensures
            final(self).wf(),
            final(self)@ == old(self)@.insert(item@),
            final(self).spec_size() == old(self).spec_size() + 1,
            final(self).spec_capacity() == old(self).spec_capacity(),
    {
        let index = self.bucket_of(&item);
        let ghost s0 = self.data@;
        let ghost iv = item@;
        let bucket = &mut self.data[index];
        bucket.push(item);
        self.size = self.size + 1;
        proof {
            let s2 = self.data@;
            assert(s2 =~= s0.update(index as int, s2[index as int]));
            assert(s2[index as int]@ == s0[index as int]@.push(s2[index as int]@.last()));
            lemma_total_count_update_push(s0, index as int, s2[index as int]);
            assert forall|b: int, j: int|
                0 <= b < s2.len() && 0 <= j < (#[trigger] s2[b]@).len() implies bucket_index(
                T::hash_of(#[trigger] s2[b]@[j]@),
                s2.len() as nat,
            ) == b by {
                if b == index && j == s2[b]@.len() - 1 {
                    assert(s2[b]@[j]@ == iv);
                } else {
                    assert(s2[b]@[j] == s0[b]@[j]);
                }
            }
            assert forall|b1: int, j1: int, b2: int, j2: int|
                0 <= b1 < s2.len() && 0 <= j1 < (#[trigger] s2[b1]@).len() && 0 <= b2 < s2.len()
                    && 0 <= j2 < (#[trigger] s2[b2]@).len() && (b1 != b2 || j1 != j2) implies (
            #[trigger] s2[b1]@[j1])@ != (#[trigger] s2[b2]@[j2])@ by {
                let last = s2[index as int]@.len() - 1;
                if b1 == index && j1 == last {
                    if !(b2 == index && j2 == last) {
                        assert(s2[b2]@[j2] == s0[b2]@[j2]);
                        if s0[b2]@[j2]@ == iv {
                            assert(chain_slot_matches(s0, b2, j2, iv));
                        }
                    }
                } else if b2 == index && j2 == last {
                    assert(s2[b1]@[j1] == s0[b1]@[j1]);
                    if s0[b1]@[j1]@ == iv {
                        assert(chain_slot_matches(s0, b1, j1, iv));
                    }
                } else {
                    assert(s2[b1]@[j1] == s0[b1]@[j1]);
                    assert(s2[b2]@[j2] == s0[b2]@[j2]);
                }
            }
            assert(chain_contents(s2) =~= chain_contents(s0).insert(iv)) by {
                assert forall|w: T::V| chain_contents(s2).contains(w) implies chain_contents(
                    s0,
                ).insert(iv).contains(w) by {
                    let (b, j) = choose|b: int, j: int| chain_slot_matches(s2, b, j, w);
                    if b == index && j == s2[index as int]@.len() - 1 {
                        assert(w == iv);
                    } else {
                        assert(chain_slot_matches(s0, b, j, w));
                    }
                }
                assert forall|w: T::V| chain_contents(s0).insert(iv).contains(w) implies
                    chain_contents(s2).contains(w) by {
                    if w == iv {
                        assert(chain_slot_matches(s2, index as int, s2[index as int]@.len() - 1, iv));
                    } else {
                        let (b, j) = choose|b: int, j: int| chain_slot_matches(s0, b, j, w);
                        assert(s2[b]@[j] == s0[b]@[j]);
                        assert(chain_slot_matches(s2, b, j, w));
                    }
                }
            }
        }
    }

    /// Replaces the table with a fresh one of `new_length` buckets and
    /// re-inserts every element into the bucket its hash now selects.
    fn resize(&mut self, new_length: usize)
        requires
            old(self).wf(),
            new_length > 0,
        ensures
            final(self).wf(),
            final(self)@ == old(self)@,
            final(self).spec_size() == old(self).spec_size(),
            final(self).spec_capacity() == new_length,
    {
        let mut swapped: Vec<Vec<T>> = Vec::new();
        let mut i: usize = 0;
        while i < new_length
            invariant
                swapped@.len() == i,
                i <= new_length,
                forall|b: int| 0 <= b < i ==> (#[trigger] swapped@[b]@).len() == 0,
            decreases new_length - i,
        {
            swapped.push(Vec::new());
            i = i + 1;
        }
        core::mem::swap(&mut self.data, &mut swapped);
        let old_data = swapped;
        self.size = 0;
        proof {
            lemma_total_count_zero(self.data@);
            assert(self@ =~= Set::<T::V>::empty());
            assert(old_data@.take(0) =~= Seq::<Vec<T>>::empty());
            assert(self@ =~= chain_contents(old_data@.take(0)));
        }
        let outer = old_data.len();
        let mut b: usize = 0;
        while b < outer
            invariant
                self.wf(),
                b <= outer,
                outer == old_data@.len(),
                self.spec_capacity() == new_length,
                new_length > 0,
                chain_distinct(old_data@),
                total_count(old_data@) <= usize::MAX,
                self@ == chain_contents(old_data@.take(b as int)),
                self.spec_size() == total_count(old_data@.take(b as int)),
            decreases outer - b,
        {
            let bucket = &old_data[b];
            let inner = bucket.len();
            let mut j: usize = 0;
            proof {
                lemma_total_take_step(old_data@, b as int);
                lemma_total_take_le(old_data@, b as int + 1);
                assert(bucket@.take(0) =~= Seq::<T>::empty());
                assert(elem_views(bucket@.take(0)) =~= Set::<T::V>::empty());
                assert(self@ =~= chain_contents(old_data@.take(b as int)).union(
                    elem_views(bucket@.take(0)),
                ));
            }
            while j < inner
                invariant
                    self.wf(),
                    j <= inner,
                    b < outer,
                    outer == old_data@.len(),
                    inner == bucket@.len(),
                    *bucket == old_data@[b as int],
                    self.spec_capacity() == new_length,
                    new_length > 0,
                    chain_distinct(old_data@),
                    total_count(old_data@.take(b as int)) + bucket@.len() <= total_count(
                        old_data@,
                    ),
                    total_count(old_data@) <= usize::MAX,
                    self@ == chain_contents(old_data@.take(b as int)).union(
                        elem_views(bucket@.take(j as int)),
                    ),
                    self.spec_size() == total_count(old_data@.take(b as int)) + j,
                decreases inner - j,
            {
                let c = bucket[j].clone_item();
                proof {
                    let cv = c@;
                    if self@.contains(cv) {
                        if chain_contents(old_data@.take(b as int)).contains(cv) {
                            let (b2, j2) = choose|b2: int, j2: int|
                                chain_slot_matches(old_data@.take(b as int), b2, j2, cv);
                            assert(old_data@[b2]@[j2]@ == old_data@[b as int]@[j as int]@);
                        } else {
                            let q = choose|q: int|
                                0 <= q < bucket@.take(j as int).len() && (#[trigger] bucket@.take(
                                    j as int,
                                )[q])@ == cv;
                            assert(old_data@[b as int]@[q]@ == old_data@[b as int]@[j as int]@);
                        }
                    }
                }
                self.insert_unchecked(c);
                proof {
                    assert(bucket@.take(j as int + 1) =~= bucket@.take(j as int).push(
                        bucket@[j as int],
                    ));
                    assert(elem_views(bucket@.take(j as int + 1)) =~= elem_views(
                        bucket@.take(j as int),
                    ).insert(c@)) by {
                        assert forall|w: T::V|
                            elem_views(bucket@.take(j as int + 1)).contains(w)
                                implies elem_views(bucket@.take(j as int)).insert(c@).contains(
                            w,
                        ) by {
                            let q = choose|q: int|
                                0 <= q < bucket@.take(j as int + 1).len() && (#[trigger] bucket@.take(
                                    j as int + 1,
                                )[q])@ == w;
                            if q < j as int {
                                assert(bucket@.take(j as int)[q]@ == w);
                            } else {
                                assert(w == c@);
                            }
                        }
                        assert forall|w: T::V|
                            elem_views(bucket@.take(j as int)).insert(c@).contains(w)
                                implies elem_views(bucket@.take(j as int + 1)).contains(w) by {
                            if w == c@ {
                                assert(bucket@.take(j as int + 1)[j as int]@ == w);
                            } else {
                                let q = choose|q: int|
                                    0 <= q < bucket@.take(j as int).len() && (#[trigger] bucket@.take(
                                        j as int,
                                    )[q])@ == w;
                                assert(bucket@.take(j as int + 1)[q]@ == w);
                            }
                        }
                    }
                    assert(self@ =~= chain_contents(old_data@.take(b as int)).union(
                        elem_views(bucket@.take(j as int + 1)),
                    ));
                }
                j = j + 1;
            }
            proof {
                assert(bucket@.take(inner as int) =~= bucket@);
                lemma_total_take_step(old_data@, b as int);
                assert(chain_contents(old_data@.take(b as int)).union(elem_views(bucket@))
                    =~= chain_contents(old_data@.take(b as int + 1))) by {
                    assert forall|w: T::V|
                        chain_contents(old_data@.take(b as int)).union(elem_views(bucket@)).contains(
                            w,
                        ) implies chain_contents(old_data@.take(b as int + 1)).contains(w) by {
                        if chain_contents(old_data@.take(b as int)).contains(w) {
                            let (b2, j2) = choose|b2: int, j2: int|
                                chain_slot_matches(old_data@.take(b as int), b2, j2, w);
                            assert(chain_slot_matches(old_data@.take(b as int + 1), b2, j2, w));
                        } else {
                            let q = choose|q: int|
                                0 <= q < bucket@.len() && (#[trigger] bucket@[q])@ == w;
                            assert(chain_slot_matches(old_data@.take(b as int + 1), b as int, q, w));
                        }
                    }
                    assert forall|w: T::V|
                        chain_contents(old_data@.take(b as int + 1)).contains(w) implies
                        chain_contents(old_data@.take(b as int)).union(elem_views(bucket@)).contains(
                        w,
                    ) by {
                        let t = old_data@.take(b as int + 1);
                        let (b2, j2) = choose|b2: int, j2: int| chain_slot_matches(t, b2, j2, w);
                        if b2 < b as int {
                            assert(chain_slot_matches(old_data@.take(b as int), b2, j2, w));
                        } else {
                            assert(bucket@[j2]@ == w);
                        }
                    }
                }
            }
            b = b + 1;
        }
        proof {
            assert(old_data@.take(outer as int) =~= old_data@);
        }
    }

    /// Inserts an element. Reports `true` if it was newly inserted and
    /// `false` if an equal element was already present, in which case
    /// nothing changes. The table grows before the insertion whenever it
    /// could not hold one more element within the load factor.
    pub fn add(&mut self, item: T) -> (r: bool)
        requires
            old(self).wf(),
            old(self).spec_size() + 1 >= old(self).spec_capacity() ==> 2 * old(self).spec_size()
                + 1 <= usize::MAX,
            old(self).spec_size() < usize::MAX,
        ensures
            final(self).wf(),
            r == !old(self)@.contains(item@),
            final(self)@ == old(self)@.insert(item@),
            final(self).spec_size() as int == old(self).spec_size() as int + (if r {
                1int
            } else {
                0int
            }),
            !r ==> *final(self) == *old(self),
            final(self).spec_capacity() == (if !old(self)@.contains(item@) && old(
                self,
            ).spec_size() + 1 >= old(self).spec_capacity() {
                2 * old(self).spec_size() + 1
            } else {
                old(self).spec_capacity()
            }),
    {
        if self.contains(&item) {
            proof {
                assert(self@.insert(item@) =~= self@);
            }
            return false;
        }

        if self.data.len() == 0 || self.size >= self.data.len() - 1 {
            let new_data_length = self.size * 2 + 1;
            self.resize(new_data_length);
        }

        self.insert_unchecked(item);
        true
    }

    /// Removes an element if an equal one is present, closing the gap in its
    /// bucket. Reports whether an element was removed; when none was, the
    /// set is unchanged.
    pub fn remove(&mut self, item: &T) -> (r: bool)
        requires
            old(self).wf(),
        ensures
            final(self).wf(),
            r == old(self)@.contains(item@),
            final(self)@ == old(self)@.remove(item@),
            final(self).spec_size() as int == old(self).spec_size() as int - (if r {
                1int
            } else {
                0int
            }),
            final(self).spec_capacity() == old(self).spec_capacity(),
            !r ==> *final(self) == *old(self),
    {
        if self.size == 0 {
            proof {
                lemma_total_count_zero(self.data@);
                if self@.contains(item@) {
                    let (b, j) = choose|b: int, j: int| chain_slot_matches(self.data@, b, j, item@);
                }
                assert(self@.remove(item@) =~= self@);
            }
            return false;
        }
        proof {
            if self.data@.len() == 0 {
                assert(total_count(self.data@) == 0);
            }
        }
        let index = self.bucket_of(item);

        let bucket = &self.data[index];
        let n = bucket.len();
        let mut j: usize = 0;
        let mut found: Option<usize> = None;
        while j < n && found.is_none()
            invariant
                j <= n,
                n == bucket@.len(),
                index < self.data@.len(),
                *bucket == self.data@[index as int],
                match found {
                    Some(jj) => jj < n && bucket@[jj as int]@ == item@,
                    None => forall|q: int| 0 <= q < j ==> (#[trigger] bucket@[q])@ != item@,
                },
            decreases n - j + (if found is None {
                1int
            } else {
                0int
            }),
        {
            if bucket[j].eq_item(item) {
                found = Some(j);
            } else {
                j = j + 1;
            }
        }

        match found {
            Some(jj) => {
                let ghost s0 = self.data@;
                proof {
                    assert(chain_slot_matches(s0, index as int, jj as int, item@));
                }
                let bucket_mut = &mut self.data[index];
                bucket_mut.remove(jj);
                self.size = self.size - 1;
                proof {
                    let s2 = self.data@;
                    let nb = s2[index as int];
                    assert(s2 =~= s0.update(index as int, nb));
                    assert(nb@ == s0[index as int]@.remove(jj as int));
                    assert(nb@.len() == s0[index as int]@.len() - 1);
                    assert(forall|q: int|
                        0 <= q < nb@.len() ==> #[trigger] nb@[q] == (if q < jj as int {
                            s0[index as int]@[q]
                        } else {
                            s0[index as int]@[q + 1]
                        }));
                    lemma_total_count_update_push(s0, index as int, nb);
                    assert forall|b2: int, j2: int|
                        0 <= b2 < s2.len() && 0 <= j2 < (#[trigger] s2[b2]@).len() implies
                        bucket_index(T::hash_of(#[trigger] s2[b2]@[j2]@), s2.len() as nat) == b2 by {
                        if b2 == index as int {
                            if j2 < jj as int {
                                assert(s2[b2]@[j2] == s0[b2]@[j2]);
                            } else {
                                assert(s2[b2]@[j2] == s0[b2]@[j2 + 1]);
                            }
                        } else {
                            assert(s2[b2]@[j2] == s0[b2]@[j2]);
                        }
                    }
                    assert forall|b1: int, j1: int, b2: int, j2: int|
                        0 <= b1 < s2.len() && 0 <= j1 < (#[trigger] s2[b1]@).len() && 0 <= b2
                            < s2.len() && 0 <= j2 < (#[trigger] s2[b2]@).len() && (b1 != b2 || j1
                            != j2) implies (#[trigger] s2[b1]@[j1])@ != (#[trigger] s2[b2]@[j2])@ by {
                        let o1 = if b1 == index as int && j1 >= jj as int {
                            j1 + 1
                        } else {
                            j1
                        };
                        let o2 = if b2 == index as int && j2 >= jj as int {
                            j2 + 1
                        } else {
                            j2
                        };
                        assert(s2[b1]@[j1] == s0[b1]@[o1]);
                        assert(s2[b2]@[j2] == s0[b2]@[o2]);
                    }
                    assert(chain_contents(s2) =~= chain_contents(s0).remove(item@)) by {
                        assert forall|w: T::V| chain_contents(s2).contains(w) implies
                            chain_contents(s0).remove(item@).contains(w) by {
                            let (b2, j2) = choose|b2: int, j2: int|
                                chain_slot_matches(s2, b2, j2, w);
                            let o2 = if b2 == index as int && j2 >= jj as int {
                                j2 + 1
                            } else {
                                j2
                            };
                            assert(s2[b2]@[j2] == s0[b2]@[o2]);
                            assert(chain_slot_matches(s0, b2, o2, w));
                            if w == item@ {
                                assert(s0[b2]@[o2]@ == s0[index as int]@[jj as int]@);
                                assert(b2 == index as int && o2 == jj as int);
                            }
                        }
                        assert forall|w: T::V| chain_contents(s0).remove(item@).contains(w)
                            implies chain_contents(s2).contains(w) by {
                            let (b2, j2) = choose|b2: int, j2: int|
                                chain_slot_matches(s0, b2, j2, w);
                            assert(w != item@);
                            if b2 == index as int {
                                assert(!(b2 == index as int && j2 == jj as int));
                                if j2 < jj as int {
                                    assert(chain_slot_matches(s2, b2, j2, w));
                                } else {
                                    assert(s2[b2]@[j2 - 1] == s0[b2]@[j2]);
                                    assert(chain_slot_matches(s2, b2, j2 - 1, w));
                                }
                            } else {
                                assert(chain_slot_matches(s2, b2, j2, w));
                            }
                        }
                    }
                }
                true
            },
            None => {
                proof {
                    if self@.contains(item@) {
                        let (b2, q) = choose|b2: int, q: int|
                            chain_slot_matches(self.data@, b2, q, item@);
                        assert(bucket_index(T::hash_of(item@), self.data@.len() as nat) == b2);
                        assert(b2 == index);
                        assert(bucket@[q]@ != item@);
                    }
                    assert(self@.remove(item@) =~= self@);
                }
                false
            },
        }
    }

    /// The bucket index the element's hash selects.
    fn bucket_of(&self, item: &T) -> (r: usize)
        requires
            self.data@.len() > 0,
        ensures
            r < self.data@.len(),
            r == bucket_index(T::hash_of(item@), self.data@.len() as nat),
    {
        let hash = item.hash_code();
        let len = self.data.len();
        (hash % (len as u64)) as usize
    }
}

/// The set of views of a plain run of elements.
pub open spec fn elem_views<T: SetItem>(es: Seq<T>) -> Set<T::V> {
    Set::new(|v: T::V| exists|i: int| 0 <= i < es.len() && (#[trigger] es[i])@ == v)
}

/// Extending a prefix of the table by one bucket adds that bucket's length
/// to the prefix count.
proof fn lemma_total_take_step<T>(s: Seq<Vec<T>>, b: int)
    requires
        0 <= b < s.len(),
    ensures
        total_count(s.take(b + 1)) == total_count(s.take(b)) + s[b]@.len(),
{
    assert(s.take(b + 1).drop_last() =~= s.take(b));
    assert(s.take(b + 1).last() == s[b]);
}

/// A prefix of the table never counts more elements than the whole.
proof fn lemma_total_take_le<T>(s: Seq<Vec<T>>, b: int)
    requires
        0 <= b <= s.len(),
    ensures
        total_count(s.take(b)) <= total_count(s),
    decreases s.len() - b,
{
    if b == s.len() {
        assert(s.take(b) =~= s);
    } else {
        lemma_total_take_step(s, b);
        lemma_total_take_le(s, b + 1);
    }
}

/// The views of pairwise-distinct elements are as many as the elements.
proof fn lemma_elem_views_card<T: SetItem>(es: Seq<T>)
    requires
        forall|i: int, j: int|
            0 <= i < es.len() && 0 <= j < es.len() && i != j ==> (#[trigger] es[i])@ != (
            #[trigger] es[j])@,
    ensures
        elem_views(es).finite(),
        elem_views(es).len() == es.len(),
    decreases es.len(),
{
    if es.len() == 0 {
        assert(elem_views(es) =~= Set::<T::V>::empty());
    } else {
        let pre = es.drop_last();
        assert(forall|i: int| 0 <= i < pre.len() ==> pre[i] == #[trigger] es[i]);
        lemma_elem_views_card(pre);
        assert(elem_views(es) =~= elem_views(pre).insert(es.last()@)) by {
            assert forall|w: T::V| elem_views(es).contains(w) implies elem_views(pre).insert(
                es.last()@,
            ).contains(w) by {
                let q = choose|q: int| 0 <= q < es.len() && (#[trigger] es[q])@ == w;
                if q < es.len() - 1 {
                    assert(pre[q]@ == w);
                }
            }
            assert forall|w: T::V| elem_views(pre).insert(es.last()@).contains(w) implies
                elem_views(es).contains(w) by {
                if w == es.last()@ {
                    assert(es[es.len() - 1]@ == w);
                } else {
                    let q = choose|q: int| 0 <= q < pre.len() && (#[trigger] pre[q])@ == w;
                    assert(es[q]@ == w);
                }
            }
        }
        assert(!elem_views(pre).contains(es.last()@)) by {
            if elem_views(pre).contains(es.last()@) {
                let q = choose|q: int| 0 <= q < pre.len() && (#[trigger] pre[q])@ == es.last()@;
                assert(es[q]@ == es[es.len() - 1]@);
            }
        }
    }
}

/// With no value stored twice, the number of stored elements is exactly the
/// cardinality of the contents.
proof fn lemma_chain_card<T: SetItem>(s: Seq<Vec<T>>)
    requires
        chain_distinct(s),
    ensures
        chain_contents(s).finite(),
        chain_contents(s).len() == total_count(s),
    decreases s.len(),
{
    if s.len() == 0 {
        assert(chain_contents(s) =~= Set::<T::V>::empty());
    } else {
        let pre = s.drop_last();
        let last = s.last()@;
        assert(forall|b: int| 0 <= b < pre.len() ==> pre[b] == #[trigger] s[b]);
        assert(chain_distinct(pre)) by {
            assert forall|b1: int, j1: int, b2: int, j2: int|
                0 <= b1 < pre.len() && 0 <= j1 < (#[trigger] pre[b1]@).len() && 0 <= b2
                    < pre.len() && 0 <= j2 < (#[trigger] pre[b2]@).len() && (b1 != b2 || j1 != j2)
                implies (#[trigger] pre[b1]@[j1])@ != (#[trigger] pre[b2]@[j2])@ by {
                assert(pre[b1] == s[b1] && pre[b2] == s[b2]);
            }
        }
        lemma_chain_card(pre);
        lemma_elem_views_card(last);
        assert(chain_contents(s) =~= chain_contents(pre) + elem_views(last)) by {
            assert forall|w: T::V| chain_contents(s).contains(w) implies (chain_contents(
                pre,
            ) + elem_views(last)).contains(w) by {
                let (b, j) = choose|b: int, j: int| chain_slot_matches(s, b, j, w);
                if b < s.len() - 1 {
                    assert(chain_slot_matches(pre, b, j, w));
                } else {
                    assert(last[j]@ == w);
                }
            }
            assert forall|w: T::V| (chain_contents(pre) + elem_views(last)).contains(w) implies
                chain_contents(s).contains(w) by {
                if chain_contents(pre).contains(w) {
                    let (b, j) = choose|b: int, j: int| chain_slot_matches(pre, b, j, w);
                    assert(chain_slot_matches(s, b, j, w));
                } else {
                    let q = choose|q: int| 0 <= q < last.len() && (#[trigger] last[q])@ == w;
                    assert(chain_slot_matches(s, s.len() - 1, q, w));
                }
            }
        }
        assert(chain_contents(pre).disjoint(elem_views(last))) by {
            assert forall|w: T::V| chain_contents(pre).contains(w) implies !elem_views(
                last,
            ).contains(w) by {
                if elem_views(last).contains(w) {
                    let (b, j) = choose|b: int, j: int| chain_slot_matches(pre, b, j, w);
                    let q = choose|q: int| 0 <= q < last.len() && (#[trigger] last[q])@ == w;
                    assert(s[b]@[j]@ == s[s.len() - 1]@[q]@);
                }
            }
        }
        vstd::set_lib::lemma_set_disjoint_lens(chain_contents(pre), elem_views(last));
    }
}

/// A table with no elements at all counts zero, and conversely.
proof fn lemma_total_count_zero<T>(s: Seq<Vec<T>>)
    ensures
        (total_count(s) == 0) <==> (forall|b: int|
            0 <= b < s.len() ==> (#[trigger] s[b]@).len() == 0),
    decreases s.len(),
{
    if s.len() > 0 {
        lemma_total_count_zero(s.drop_last());
        assert(forall|b: int| 0 <= b < s.len() - 1 ==> s.drop_last()[b] == #[trigger] s[b]);
        if total_count(s) == 0 {
            assert forall|b: int| 0 <= b < s.len() implies (#[trigger] s[b]@).len() == 0 by {
                if b == s.len() - 1 {
                    assert(s.last()@.len() == 0);
                }
            }
        } else {
            if forall|b: int| 0 <= b < s.len() ==> (#[trigger] s[b]@).len() == 0 {
                assert(s.last()@.len() == 0);
            }
        }
    }
}

/// Replacing one bucket changes the total count by the difference of the
/// two bucket lengths.
proof fn lemma_total_count_update_push<T>(s: Seq<Vec<T>>, b: int, nb: Vec<T>)
    requires
        0 <= b < s.len(),
    ensures
        total_count(s.update(b, nb)) as int == total_count(s) as int - s[b]@.len() + nb@.len(),
    decreases s.len(),
{
    let s2 = s.update(b, nb);
    if b == s.len() - 1 {
        assert(s2.drop_last() =~= s.drop_last());
        assert(s2.last() == nb);
    } else {
        assert(s2.drop_last() =~= s.drop_last().update(b, nb));
        lemma_total_count_update_push(s.drop_last(), b, nb);
        assert(s2.last() == s.last());
    }
}

} // verus!
