//! A trie over characters. A word is stored by descending through one child
//! per character, and a node marks the end of a stored word by owning a
//! child that carries no character.

use vstd::prelude::*;

verus! {

/// A trie node: the character it stands for (none at the root and on word
/// terminators), and one child per continuation.
pub struct Trie {
    value: Option<char>,
    children: Vec<Trie>,
}

/// The node owns a terminator child, so some stored word ends here.
pub closed spec fn has_terminator(t: Trie) -> bool {
    exists|i: int| 0 <= i < t.children@.len() && (#[trigger] t.children@[i]).value is None
}

/// The word `w` can be spelled by descending from `t`.
pub closed spec fn spec_prefix(t: Trie, w: Seq<char>) -> bool
    decreases w.len(),
{
    if w.len() == 0 {
        true
    } else {
        exists|i: int|
            0 <= i < t.children@.len() && (#[trigger] t.children@[i]).value == Some(w[0])
                && spec_prefix(t.children@[i], w.drop_first())
    }
}

/// The word `w` is stored below `t`: it can be spelled by descending from
/// `t` and a terminator marks its end.
pub closed spec fn spec_word(t: Trie, w: Seq<char>) -> bool
    decreases w.len(),
{
    if w.len() == 0 {
        has_terminator(t)
    } else {
        exists|i: int|
            0 <= i < t.children@.len() && (#[trigger] t.children@[i]).value == Some(w[0])
                && spec_word(t.children@[i], w.drop_first())
    }
}

impl Trie {
    /// No two children stand for the same character (nor is the terminator
    /// child doubled), here and all the way down.
    pub closed spec fn wf(&self) -> bool
        decreases *self,
    {
        &&& (forall|i: int, j: int|
            0 <= i < self.children@.len() && 0 <= j < self.children@.len() && i != j ==> (
            #[trigger] self.children@[i]).value != (#[trigger] self.children@[j]).value)
        &&& (forall|i: int|
            0 <= i < self.children@.len() ==> (#[trigger] self.children@[i]).wf())
    }

    /// An empty trie: stores no word.
    pub fn new() -> (r: Trie)
        ensures
            r.wf(),
            forall|w: Seq<char>| !(#[trigger] spec_word(r, w)),
    {
        let r = Trie { value: None, children: Vec::new() };
        proof {
            assert forall|w: Seq<char>| !(#[trigger] spec_word(r, w)) by {
                if w.len() == 0 {
                    assert(!has_terminator(r));
                }
            }
        }
        r
    }

    /// The node reached by spelling `t` from position `i` on, if the whole
    /// rest of `t` can be spelled.
    fn descend_from(&self, t: &str, i: usize) -> (r: Option<&Trie>)
        requires
            self.wf(),
            i <= t@.len(),
        ensures
            match r {
                Some(node) => node.wf() && spec_prefix(*self, t@.skip(i as int)) && (spec_word(
                    *self,
                    t@.skip(i as int),
                ) == has_terminator(*node)),
                None => !spec_prefix(*self, t@.skip(i as int)) && !spec_word(
                    *self,
                    t@.skip(i as int),
                ),
            },
        decreases t@.len() - i,
    {
        let n = t.unicode_len();
        if i == n {
            proof {
                assert(t@.skip(i as int) =~= Seq::<char>::empty());
            }
            return Some(self);
        }
        let c = t.get_char(i);
        proof {
            assert(t@.skip(i as int)[0] == t@[i as int]);
            assert(t@.skip(i as int).drop_first() =~= t@.skip(i as int + 1));
            assert(t@.skip(i as int).len() > 0);
        }
        let m = self.children.len();
        let mut j: usize = 0;
        let mut found: Option<usize> = None;
        while j < m && found.is_none()
            invariant
                j <= m,
                m == self.children@.len(),
                self.wf(),
                i < t@.len(),
                c == t@[i as int],
                match found {
                    Some(f) => f < m && self.children@[f as int].value == Some(t@[i as int]),
                    None => forall|q: int|
                        0 <= q < j ==> (#[trigger] self.children@[q]).value != Some(t@[i as int]),
                },
            decreases m - j + (if found is None {
                1int
            } else {
                0int
            }),
        {
            let matches_here = match self.children[j].value {
                Some(cc) => cc == c,
                None => false,
            };
            if matches_here {
                found = Some(j);
            } else {
                j = j + 1;
            }
        }
        match found {
            Some(f) => {
                let child = &self.children[f];
                let r = child.descend_from(t, i + 1);
                proof {
                    let w = t@.skip(i as int);
                    match r {
                        Some(node) => {
                            assert(spec_prefix(*self, w)) by {
                                assert(spec_prefix(self.children@[f as int], w.drop_first()));
                            }
                            assert(spec_word(*self, w) == has_terminator(*node)) by {
                                if spec_word(*self, w) {
                                    let q = choose|q: int|
                                        0 <= q < self.children@.len() && (
                                        #[trigger] self.children@[q]).value == Some(w[0])
                                            && spec_word(self.children@[q], w.drop_first());
                                    assert(q == f);
                                }
                                if has_terminator(*node) {
                                    assert(spec_word(self.children@[f as int], w.drop_first()));
                                }
                            }
                        },
                        None => {
                            assert(!spec_prefix(*self, w)) by {
                                if spec_prefix(*self, w) {
                                    let q = choose|q: int|
                                        0 <= q < self.children@.len() && (
                                        #[trigger] self.children@[q]).value == Some(w[0])
                                            && spec_prefix(self.children@[q], w.drop_first());
                                    assert(q == f);
                                }
                            }
                            assert(!spec_word(*self, w)) by {
                                if spec_word(*self, w) {
                                    let q = choose|q: int|
                                        0 <= q < self.children@.len() && (
                                        #[trigger] self.children@[q]).value == Some(w[0])
                                            && spec_word(self.children@[q], w.drop_first());
                                    assert(q == f);
                                }
                            }
                        },
                    }
                }
                r
            },
            None => {
                proof {
                    let w = t@.skip(i as int);
                    assert(!spec_prefix(*self, w)) by {
                        if spec_prefix(*self, w) {
                            let q = choose|q: int|
                                0 <= q < self.children@.len() && (
                                #[trigger] self.children@[q]).value == Some(w[0]) && spec_prefix(
                                    self.children@[q],
                                    w.drop_first(),
                                );
                        }
                    }
                    assert(!spec_word(*self, w)) by {
                        if spec_word(*self, w) {
                            let q = choose|q: int|
                                0 <= q < self.children@.len() && (
                                #[trigger] self.children@[q]).value == Some(w[0]) && spec_word(
                                    self.children@[q],
                                    w.drop_first(),
                                );
                        }
                    }
                }
                None
            },
        }
    }

    /// The node reached by spelling the whole of `t`, if `t` can be
    /// spelled.
    fn child_matches(&self, t: &str) -> (r: Option<&Trie>)
        requires
            self.wf(),
        ensures
            match r {
                Some(node) => node.wf() && spec_prefix(*self, t@) && (spec_word(*self, t@)
                    == has_terminator(*node)),
                None => !spec_prefix(*self, t@) && !spec_word(*self, t@),
            },
    {
        proof {
            assert(t@.skip(0) =~= t@);
        }
        self.descend_from(t, 0)
    }

    /// Whether the word `t` is stored.
    pub fn contains(&self, t: &str) -> (r: bool)
        requires
            self.wf(),
        ensures
            r == spec_word(*self, t@),
    {
        if let Some(current) = self.child_matches(t) {
            let m = current.children.len();
            let mut j: usize = 0;
            while j < m
                invariant
                    j <= m,
                    m == current.children@.len(),
                    spec_word(*self, t@) == has_terminator(*current),
                    forall|q: int| 0 <= q < j ==> !((#[trigger] current.children@[q]).value is None),
                decreases m - j,
            {
                let none_here = match current.children[j].value {
                    Some(_) => false,
                    None => true,
                };
                if none_here {
                    proof {
                        assert(has_terminator(*current));
                    }
                    return true;
                }
                j = j + 1;
            }
            proof {
                if has_terminator(*current) {
                    let q = choose|q: int|
                        0 <= q < current.children@.len() && (
                        #[trigger] current.children@[q]).value is None;
                }
            }
            false
        } else {
            false
        }
    }

    /// Whether some stored word starts with `t` (or `t` itself can be
    /// spelled out in the trie).
    pub fn contains_prefix(&self, t: &str) -> (r: bool)
        requires
            self.wf(),
        ensures
            r == spec_prefix(*self, t@),
    {
        self.child_matches(t).is_some()
    }

    /// Stores the word `values`: afterwards exactly the words stored
    /// before, and this one, are stored.
    pub fn add(&mut self, values: &str)
        requires
            old(self).wf(),
        ensures
            final(self).wf(),
            forall|w: Seq<char>|
                #[trigger] spec_word(*final(self), w) == (spec_word(*old(self), w) || w
                    == values@),
    {
        proof {
            assert(values@.skip(0) =~= values@);
        }
        self.add_from(values, 0);
    }

    /// Stores the tail of `values` from position `i` below this node.
    fn add_from(&mut self, values: &str, i: usize)
        requires
            old(self).wf(),
            i <= values@.len(),
        ensures
            final(self).wf(),
            final(self).value == old(self).value,
            forall|w: Seq<char>|
                #[trigger] spec_word(*final(self), w) == (spec_word(*old(self), w) || w
                    == values@.skip(i as int)),
        decreases values@.len() - i,
    {
        let n = values.unicode_len();
        if i == n {
            proof {
                assert(values@.skip(i as int) =~= Seq::<char>::empty());
            }
            self.set_complete();
            return ;
        }
        let c = values.get_char(i);
        proof {
            assert(values@.skip(i as int)[0] == values@[i as int]);
            assert(values@.skip(i as int).drop_first() =~= values@.skip(i as int + 1));
            assert(values@.skip(i as int).len() > 0);
        }
        let child_index = self.add_char(c);
        let ghost mid = *self;
        proof {
            // Finding or creating the child for this character stores no
            // new word by itself.
            assert forall|w: Seq<char>|
                #[trigger] spec_word(mid, w) == spec_word(*old(self), w) by {
                if mid == *old(self) {
                } else {
                    let m2 = mid.children@.len() - 1;
                    if w.len() == 0 {
                        assert(has_terminator(mid) == has_terminator(*old(self))) by {
                            if has_terminator(mid) {
                                let q = choose|q: int|
                                    0 <= q < mid.children@.len() && (
                                    #[trigger] mid.children@[q]).value is None;
                                assert(q != m2);
                                assert(old(self).children@[q].value is None);
                            }
                            if has_terminator(*old(self)) {
                                let q = choose|q: int|
                                    0 <= q < old(self).children@.len() && (#[trigger] old(
                                        self,
                                    ).children@[q]).value is None;
                                assert(mid.children@[q].value is None);
                            }
                        }
                    } else {
                        if spec_word(mid, w) {
                            let q = choose|q: int|
                                0 <= q < mid.children@.len() && (#[trigger] mid.children@[q]).value
                                    == Some(w[0]) && spec_word(mid.children@[q], w.drop_first());
                            if q == m2 {
                                assert(!spec_word(mid.children@[m2], w.drop_first()));
                            }
                            assert(spec_word(*old(self), w));
                        }
                        if spec_word(*old(self), w) {
                            let q = choose|q: int|
                                0 <= q < old(self).children@.len() && (#[trigger] old(
                                    self,
                                ).children@[q]).value == Some(w[0]) && spec_word(
                                    old(self).children@[q],
                                    w.drop_first(),
                                );
                            assert(mid.children@[q] == old(self).children@[q]);
                            assert(spec_word(mid, w));
                        }
                    }
                }
            }
        }
        let child = &mut self.children[child_index];
        child.add_from(values, i + 1);
        proof {
            let w0 = values@[i as int];
            let rest = values@.skip(i as int + 1);
            let j = child_index as int;
            assert(self.children@ == mid.children@.update(j, self.children@[j]));
            assert(self.children@[j].value == Some(w0));
            // Only the chosen child changed, and only in its subtree.
            assert(final(self).wf()) by {
                assert forall|p: int, q: int|
                    0 <= p < self.children@.len() && 0 <= q < self.children@.len() && p != q
                        implies (#[trigger] self.children@[p]).value != (
                    #[trigger] self.children@[q]).value by {
                    assert(self.children@[p].value == mid.children@[p].value);
                    assert(self.children@[q].value == mid.children@[q].value);
                }
                assert forall|p: int| 0 <= p < self.children@.len() implies (
                #[trigger] self.children@[p]).wf() by {
                    if p != j {
                        assert(self.children@[p] == mid.children@[p]);
                    }
                }
            }
            assert forall|w: Seq<char>|
                #[trigger] spec_word(*self, w) == (spec_word(mid, w) || w == values@.skip(
                    i as int,
                )) by {
                if w.len() == 0 {
                    assert(has_terminator(*self) == has_terminator(mid)) by {
                        assert forall|q: int|
                            0 <= q < self.children@.len() implies ((
                            #[trigger] self.children@[q]).value is None) == ((
                            #[trigger] mid.children@[q]).value is None) by {
                            assert(self.children@[q].value == mid.children@[q].value);
                        }
                        if has_terminator(*self) {
                            let q = choose|q: int|
                                0 <= q < self.children@.len() && (
                                #[trigger] self.children@[q]).value is None;
                            assert(mid.children@[q].value is None);
                        }
                        if has_terminator(mid) {
                            let q = choose|q: int|
                                0 <= q < mid.children@.len() && (
                                #[trigger] mid.children@[q]).value is None;
                            assert(self.children@[q].value is None);
                        }
                    }
                    assert(w != values@.skip(i as int));
                } else {
                    if spec_word(*self, w) {
                        let q = choose|q: int|
                            0 <= q < self.children@.len() && (#[trigger] self.children@[q]).value
                                == Some(w[0]) && spec_word(self.children@[q], w.drop_first());
                        if q == j {
                            assert(w[0] == w0);
                            if w.drop_first() == rest {
                                assert(w =~= values@.skip(i as int)) by {
                                    assert forall|k: int| 0 <= k < w.len() implies w[k]
                                        == values@.skip(i as int)[k] by {
                                        if k > 0 {
                                            assert(w[k] == w.drop_first()[k - 1]);
                                            assert(rest[k - 1] == values@.skip(i as int)[k]);
                                        }
                                    }
                                }
                            } else {
                                assert(spec_word(mid.children@[j], w.drop_first()));
                                assert(spec_word(mid, w));
                            }
                        } else {
                            assert(self.children@[q] == mid.children@[q]);
                            assert(spec_word(mid, w));
                        }
                    }
                    if spec_word(mid, w) {
                        let q = choose|q: int|
                            0 <= q < mid.children@.len() && (#[trigger] mid.children@[q]).value
                                == Some(w[0]) && spec_word(mid.children@[q], w.drop_first());
                        if q == j {
                            assert(spec_word(self.children@[j], w.drop_first()));
                            assert(spec_word(*self, w));
                        } else {
                            assert(self.children@[q] == mid.children@[q]);
                            assert(spec_word(*self, w));
                        }
                    }
                    if w == values@.skip(i as int) {
                        assert(w.drop_first() =~= rest);
                        assert(spec_word(self.children@[j], w.drop_first()));
                        assert(spec_word(*self, w));
                    }
                }
            }
        }
    }

    /// Finds the child standing for `value`, creating it if absent, and
    /// returns its position.
    fn add_char(&mut self, value: char) -> (r: usize)
        requires
            old(self).wf(),
        ensures
            final(self).wf(),
            final(self).value == old(self).value,
            (r as int) < final(self).children@.len(),
            final(self).children@[r as int].value == Some(value),
            // Either an existing child was found and nothing changed, or a
            // fresh child, storing nothing yet, was appended.
            *final(self) == *old(self) || {
                &&& final(self).children@.len() == old(self).children@.len() + 1
                &&& r as int == old(self).children@.len()
                &&& (forall|q: int|
                    0 <= q < old(self).children@.len() ==> #[trigger] final(self).children@[q]
                        == old(self).children@[q])
                &&& !has_terminator(final(self).children@[r as int])
                &&& (forall|w: Seq<char>|
                    !(#[trigger] spec_word(final(self).children@[r as int], w)))
            },
    {
        let m = self.children.len();
        let mut j: usize = 0;
        while j < m
            invariant
                j <= m,
                m == self.children@.len(),
                self.wf(),
                forall|q: int| 0 <= q < j ==> (#[trigger] self.children@[q]).value != Some(value),
            decreases m - j,
        {
            let matches_here = match self.children[j].value {
                Some(cc) => cc == value,
                None => false,
            };
            if matches_here {
                return j;
            }
            j = j + 1;
        }
        let fresh = Trie { value: Some(value), children: Vec::new() };
        proof {
            assert forall|w: Seq<char>| !(#[trigger] spec_word(fresh, w)) by {
                if w.len() == 0 {
                    assert(!has_terminator(fresh));
                }
            }
        }
        let ghost mid = *self;
        self.children.push(fresh);
        proof {
            let m2 = self.children@.len() - 1;
            assert(self.children@[m2] == fresh);
            assert(forall|q: int| 0 <= q < m2 ==> #[trigger] self.children@[q] == mid.children@[q]);
            assert forall|p: int, q: int|
                0 <= p < self.children@.len() && 0 <= q < self.children@.len() && p != q implies (
            #[trigger] self.children@[p]).value != (#[trigger] self.children@[q]).value by {
                if p == m2 {
                    assert(self.children@[q].value != Some(value));
                } else if q == m2 {
                    assert(self.children@[p].value != Some(value));
                }
            }
            assert forall|p: int| 0 <= p < self.children@.len() implies (
            #[trigger] self.children@[p]).wf() by {
                if p < m2 {
                    assert(self.children@[p] == mid.children@[p]);
                }
            }
            assert(!has_terminator(fresh)) by {
                if has_terminator(fresh) {
                    let q = choose|q: int|
                        0 <= q < fresh.children@.len() && (#[trigger] fresh.children@[q]).value
                            is None;
                }
            }
        }
        self.children.len() - 1
    }

    /// Marks this node as the end of a stored word, unless it is one
    /// already.
    fn set_complete(&mut self)
        requires
            old(self).wf(),
        ensures
            final(self).wf(),
            final(self).value == old(self).value,
            forall|w: Seq<char>|
                #[trigger] spec_word(*final(self), w) == (spec_word(*old(self), w) || w
                    == Seq::<char>::empty()),
    {
        let m = self.children.len();
        let mut j: usize = 0;
        while j < m
            invariant
                j <= m,
                m == self.children@.len(),
                self.wf(),
                forall|q: int| 0 <= q < j ==> !((#[trigger] self.children@[q]).value is None),
            decreases m - j,
        {
            let none_here = match self.children[j].value {
                Some(_) => false,
                None => true,
            };
            if none_here {
                proof {
                    assert(has_terminator(*self));
                    assert forall|w: Seq<char>|
                        #[trigger] spec_word(*self, w) == (spec_word(*old(self), w) || w
                            == Seq::<char>::empty()) by {
                        if w.len() == 0 {
                            assert(w =~= Seq::<char>::empty());
                            assert(spec_word(*self, w));
                        } else {
                            assert(w != Seq::<char>::empty());
                        }
                    }
                }
                return ;
            }
            j = j + 1;
        }
        let ghost mid = *self;
        let terminator = Trie { value: None, children: Vec::new() };
        self.children.push(terminator);
        proof {
            assert(self.children@[self.children@.len() - 1].value is None);
            assert(has_terminator(*self));
            assert forall|p: int| 0 <= p < self.children@.len() implies (
            #[trigger] self.children@[p]).wf() by {
                if p < mid.children@.len() {
                    assert(self.children@[p] == mid.children@[p]);
                }
            }
            assert forall|w: Seq<char>|
                #[trigger] spec_word(*self, w) == (spec_word(mid, w) || w
                    == Seq::<char>::empty()) by {
                if w.len() == 0 {
                    assert(w =~= Seq::<char>::empty());
                } else {
                    if spec_word(*self, w) {
                        let q = choose|q: int|
                            0 <= q < self.children@.len() && (#[trigger] self.children@[q]).value
                                == Some(w[0]) && spec_word(self.children@[q], w.drop_first());
                        assert(q < mid.children@.len());
                        assert(spec_word(mid, w));
                    }
                    if spec_word(mid, w) {
                        let q = choose|q: int|
                            0 <= q < mid.children@.len() && (#[trigger] mid.children@[q]).value
                                == Some(w[0]) && spec_word(mid.children@[q], w.drop_first());
                        assert(self.children@[q] == mid.children@[q]);
                        assert(spec_word(*self, w));
                    }
                }
            }
        }
    }
}

} // verus!
