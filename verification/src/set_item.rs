use vstd::prelude::*;

verus! {

/// A value that the hash sets can store.
///
/// The sets need three capabilities from their element type: a deterministic,
/// stable hash (equal values must hash equal, which is guaranteed here by
/// making the hash a function of the value's mathematical view), an equality
/// test that agrees with equality of views, and a clone that reproduces the
/// value exactly.
pub trait SetItem: View + Sized {
    /// The mathematical hash of a value, as a function of its view alone.
    spec fn hash_of(v: Self::V) -> u64;

    /// Computes the hash of this value.
    fn hash_code(&self) -> (r: u64)
        ensures
            r == Self::hash_of(self@),
    ;

    /// Equality test, consistent with equality of views.
    fn eq_item(&self, other: &Self) -> (r: bool)
        ensures
            r == (self@ == other@),
    ;

    /// An exact copy of this value.
    fn clone_item(&self) -> (r: Self)
        ensures
            r@ == self@,
    ;
}

impl SetItem for u64 {
    open spec fn hash_of(v: u64) -> u64 {
        v
    }

    fn hash_code(&self) -> (r: u64) {
        *self
    }

    fn eq_item(&self, other: &Self) -> (r: bool) {
        *self == *other
    }

    fn clone_item(&self) -> (r: Self) {
        *self
    }
}

impl SetItem for usize {
    open spec fn hash_of(v: usize) -> u64 {
        v as u64
    }

    fn hash_code(&self) -> (r: u64) {
        *self as u64
    }

    fn eq_item(&self, other: &Self) -> (r: bool) {
        *self == *other
    }

    fn clone_item(&self) -> (r: Self) {
        *self
    }
}

impl SetItem for i64 {
    open spec fn hash_of(v: i64) -> u64 {
        v as u64
    }

    #[verifier::truncate]
    fn hash_code(&self) -> (r: u64) {
        *self as u64
    }

    fn eq_item(&self, other: &Self) -> (r: bool) {
        *self == *other
    }

    fn clone_item(&self) -> (r: Self) {
        *self
    }
}

/// A polynomial hash over the characters of a string, in wrapping
/// 64-bit arithmetic.
pub open spec fn string_hash(s: Seq<char>) -> u64
    decreases s.len(),
{
    if s.len() == 0 {
        7u64
    } else {
        string_hash(s.drop_last()).wrapping_mul(31).wrapping_add(s.last() as u64)
    }
}

impl SetItem for String {
    open spec fn hash_of(v: Seq<char>) -> u64 {
        string_hash(v)
    }

    fn hash_code(&self) -> (r: u64) {
        let n = self.as_str().unicode_len();
        let mut h: u64 = 7;
        let mut i: usize = 0;
        while i < n
            invariant
                i <= n,
                n == self@.len(),
                h == string_hash(self@.take(i as int)),
            decreases n - i,
        {
            let c = self.as_str().get_char(i);
            h = h.wrapping_mul(31).wrapping_add(c as u64);
            i = i + 1;
            proof {
                assert(self@.take(i as int).drop_last() =~= self@.take(i - 1));
            }
        }
        proof {
            assert(self@.take(n as int) =~= self@);
        }
        h
    }

    fn eq_item(&self, other: &Self) -> (r: bool) {
        <String as PartialEq>::eq(self, other)
    }

    fn clone_item(&self) -> (r: Self) {
        self.clone()
    }
}

} // verus!
