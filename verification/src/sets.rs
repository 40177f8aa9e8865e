//! Duplicate-free vectors used as small sets.
//!
//! The synchronizer keeps its frontiers and peer pools in insertion order so
//! that scheduling is deterministic; the containers here are vectors with a
//! no-duplicates well-formedness predicate and set-style operations.

use vstd::prelude::*;

use crate::ids::{PeerId, TrieHash};

verus! {

broadcast use vstd::seq_lib::group_seq_properties;

/// True when no element of `s` occurs twice.
pub open spec fn unique_seq<T>(s: Seq<T>) -> bool {
    forall|i: int, j: int| 0 <= i < j < s.len() ==> s[i] != s[j]
}

/// `s` with the first occurrence of `x` removed; `s` itself when `x` does not
/// occur.
pub open spec fn seq_remove<T>(s: Seq<T>, x: T) -> Seq<T> {
    if s.contains(x) {
        s.remove(s.index_of(x))
    } else {
        s
    }
}

/// `base` extended by those elements of `add`, in order, that are not already
/// present.
pub open spec fn dedup_append<T>(base: Seq<T>, add: Seq<T>) -> Seq<T>
    decreases add.len(),
{
    if add.len() == 0 {
        base
    } else {
        let prev = dedup_append(base, add.drop_last());
        if prev.contains(add.last()) {
            prev
        } else {
            prev.push(add.last())
        }
    }
}

/// `dedup_append` keeps exactly the elements of both sequences.
pub proof fn lemma_dedup_append_membership<T>(base: Seq<T>, add: Seq<T>)
    ensures
        forall|x: T|
            #[trigger] dedup_append(base, add).contains(x) <==> base.contains(x)
                || add.contains(x),
    decreases add.len(),
{
    if add.len() == 0 {
    } else {
        let dl = add.drop_last();
        lemma_dedup_append_membership(base, dl);
        let prev = dedup_append(base, dl);
        assert forall|x: T| add.contains(x) implies dl.contains(x) || x == add.last() by {
            let i = choose|i: int| 0 <= i < add.len() && add[i] == x;
            if i < add.len() - 1 {
                assert(dl[i] == x);
            }
        }
        assert forall|x: T| dl.contains(x) implies add.contains(x) by {
            let i = choose|i: int| 0 <= i < dl.len() && dl[i] == x;
            assert(add[i] == x);
        }
        assert(add[add.len() - 1] == add.last());
        assert(add.contains(add.last()));
        if !prev.contains(add.last()) {
            let pushed = prev.push(add.last());
            assert(dedup_append(base, add) == pushed);
            assert forall|x: T| pushed.contains(x) implies prev.contains(x) || x
                == add.last() by {
                let i = choose|i: int| 0 <= i < pushed.len() && pushed[i] == x;
                if i < prev.len() {
                    assert(prev[i] == x);
                }
            }
            assert forall|x: T| prev.contains(x) implies pushed.contains(x) by {
                let i = choose|i: int| 0 <= i < prev.len() && prev[i] == x;
                assert(pushed[i] == x);
            }
            assert(pushed[prev.len() as int] == add.last());
            assert(pushed.contains(add.last()));
        }
    }
}

/// `dedup_append` preserves freedom from duplicates.
pub proof fn lemma_dedup_append_unique<T>(base: Seq<T>, add: Seq<T>)
    requires
        unique_seq(base),
    ensures
        unique_seq(dedup_append(base, add)),
    decreases add.len(),
{
    if add.len() != 0 {
        lemma_dedup_append_unique(base, add.drop_last());
        let prev = dedup_append(base, add.drop_last());
        if !prev.contains(add.last()) {
            assert forall|i: int, j: int|
                0 <= i < j < prev.push(add.last()).len() implies prev.push(add.last())[i]
                != prev.push(add.last())[j] by {
                if j == prev.len() {
                    assert(prev.contains(prev[i]));
                }
            }
        }
    }
}

/// A set of trie hashes, kept as a duplicate-free vector in insertion order.
#[derive(Clone, Debug)]
pub struct DigestSet {
    items: Vec<TrieHash>,
}

impl View for DigestSet {
    type V = Seq<TrieHash>;

    closed spec fn view(&self) -> Seq<TrieHash> {
        self.items@
    }
}

impl DigestSet {
    /// No hash occurs twice.
    pub open spec fn wf(&self) -> bool {
        unique_seq(self@)
    }

    /// The empty set.
    pub fn new() -> (r: Self)
        ensures
            r@ == Seq::<TrieHash>::empty(),
            r.wf(),
    {
        DigestSet { items: Vec::new() }
    }

    /// The number of hashes held.
    pub fn len(&self) -> (n: usize)
        ensures
            n == self@.len(),
    {
        self.items.len()
    }

    /// True when nothing is held.
    pub fn is_empty(&self) -> (b: bool)
        ensures
            b == (self@.len() == 0),
    {
        self.items.len() == 0
    }

    /// The hash at position `i` in insertion order.
    pub fn get(&self, i: usize) -> (h: TrieHash)
        requires
            i < self@.len(),
        ensures
            h == self@[i as int],
    {
        self.items[i]
    }

    /// Membership test.
    pub fn contains(&self, h: &TrieHash) -> (b: bool)
        ensures
            b == self@.contains(*h),
    {
        let mut i: usize = 0;
        while i < self.items.len()
            invariant
                i <= self.items.len(),
                forall|k: int| 0 <= k < i ==> self.items@[k] != *h,
            decreases self.items.len() - i,
        {
            if self.items[i] == *h {
                assert(self@[i as int] == *h);
                return true;
            }
            i += 1;
        }
        false
    }

    /// Adds `h` unless it is already present.
    pub fn insert(&mut self, h: TrieHash)
        requires
            old(self).wf(),
        ensures
            final(self).wf(),
            final(self)@ == (if old(self)@.contains(h) {
                old(self)@
            } else {
                old(self)@.push(h)
            }),
    {
        if !self.contains(&h) {
            let ghost before = self.items@;
            self.items.push(h);
            assert forall|i: int, j: int|
                0 <= i < j < self.items@.len() implies self.items@[i] != self.items@[j] by {
                if j == before.len() {
                    assert(before.contains(before[i]));
                }
            }
        }
    }

    /// Removes `h` if present; the order of the rest is unchanged.
    pub fn remove(&mut self, h: &TrieHash)
        requires
            old(self).wf(),
        ensures
            final(self).wf(),
            final(self)@ == seq_remove(old(self)@, *h),
    {
        let ghost before = self.items@;
        let mut i: usize = 0;
        while i < self.items.len()
            invariant
                self.items@ == before,
                before == old(self)@,
                unique_seq(before),
                i <= self.items.len(),
                forall|k: int| 0 <= k < i ==> self.items@[k] != *h,
            decreases self.items.len() - i,
        {
            if self.items[i] == *h {
                proof {
                    assert(before[i as int] == *h);
                    assert(before.contains(*h));
                    let j = before.index_of(*h);
                    assert(0 <= j < before.len() && before[j] == *h) by {
                        assert(before.contains(*h));
                    }
                    if j < i as int {
                        assert(false);
                    } else if j > i as int {
                        assert(before[i as int] != before[j]);
                        assert(false);
                    }
                    assert(j == i as int);
                }
                self.items.remove(i);
                assert(unique_seq(self.items@)) by {
                    assert forall|p: int, q: int|
                        0 <= p < q < self.items@.len() implies self.items@[p]
                        != self.items@[q] by {
                        if p < i && q < i {
                        } else if p < i {
                            assert(before[p] == self.items@[p]);
                            assert(before[q + 1] == self.items@[q]);
                        } else {
                            assert(before[p + 1] == self.items@[p]);
                            assert(before[q + 1] == self.items@[q]);
                        }
                    }
                }
                return ;
            }
            i += 1;
        }
        assert(!before.contains(*h)) by {
            if before.contains(*h) {
                let j = choose|j: int| 0 <= j < before.len() && before[j] == *h;
                assert(before[j] != *h);
            }
        }
    }

    /// Removes the hash at position `i`.
    pub fn remove_at(&mut self, i: usize)
        requires
            old(self).wf(),
            i < old(self)@.len(),
        ensures
            final(self).wf(),
            final(self)@ == old(self)@.remove(i as int),
    {
        let ghost before = self.items@;
        self.items.remove(i);
        assert forall|p: int, q: int|
            0 <= p < q < self.items@.len() implies self.items@[p] != self.items@[q] by {
            if p < i && q < i {
            } else if p < i {
                assert(before[p] == self.items@[p]);
                assert(before[q + 1] == self.items@[q]);
            } else {
                assert(before[p + 1] == self.items@[p]);
                assert(before[q + 1] == self.items@[q]);
            }
        }
    }
}

/// A set of peers, kept as a duplicate-free vector in insertion order.
#[derive(Clone, Debug)]
pub struct PeerSet {
    items: Vec<PeerId>,
}

impl View for PeerSet {
    type V = Seq<PeerId>;

    closed spec fn view(&self) -> Seq<PeerId> {
        self.items@
    }
}

impl PeerSet {
    /// No peer occurs twice.
    pub open spec fn wf(&self) -> bool {
        unique_seq(self@)
    }

    /// The empty set.
    pub fn new() -> (r: Self)
        ensures
            r@ == Seq::<PeerId>::empty(),
            r.wf(),
    {
        PeerSet { items: Vec::new() }
    }

    /// The number of peers held.
    pub fn len(&self) -> (n: usize)
        ensures
            n == self@.len(),
    {
        self.items.len()
    }

    /// The peer at position `i` in insertion order.
    pub fn get(&self, i: usize) -> (p: PeerId)
        requires
            i < self@.len(),
        ensures
            p == self@[i as int],
    {
        self.items[i]
    }

    /// Membership test.
    pub fn contains(&self, p: &PeerId) -> (b: bool)
        ensures
            b == self@.contains(*p),
    {
        let mut i: usize = 0;
        while i < self.items.len()
            invariant
                i <= self.items.len(),
                forall|k: int| 0 <= k < i ==> self.items@[k] != *p,
            decreases self.items.len() - i,
        {
            if self.items[i] == *p {
                assert(self@[i as int] == *p);
                return true;
            }
            i += 1;
        }
        false
    }

    /// Adds `p` unless it is already present.
    pub fn insert(&mut self, p: PeerId)
        requires
            old(self).wf(),
        ensures
            final(self).wf(),
            final(self)@ == (if old(self)@.contains(p) {
                old(self)@
            } else {
                old(self)@.push(p)
            }),
    {
        if !self.contains(&p) {
            let ghost before = self.items@;
            self.items.push(p);
            assert forall|i: int, j: int|
                0 <= i < j < self.items@.len() implies self.items@[i] != self.items@[j] by {
                if j == before.len() {
                    assert(before.contains(before[i]));
                }
            }
        }
    }

    /// Adds every peer of `v` that is not already present, in order.
    pub fn insert_all(&mut self, v: &Vec<PeerId>)
        requires
            old(self).wf(),
        ensures
            final(self).wf(),
            final(self)@ == dedup_append(old(self)@, v@),
    {
        let ghost start = self@;
        let mut k: usize = 0;
        while k < v.len()
            invariant
                k <= v.len(),
                self.wf(),
                self@ == dedup_append(start, v@.take(k as int)),
            decreases v.len() - k,
        {
            let ghost prefix = v@.take(k as int);
            self.insert(v[k]);
            proof {
                let next = v@.take(k as int + 1);
                assert(next.drop_last() =~= prefix);
                assert(next.last() == v@[k as int]);
            }
            k += 1;
        }
        proof {
            assert(v@.take(v@.len() as int) =~= v@);
        }
    }

    /// Adds every peer of `other` that is not already present, in order.
    pub fn insert_peers(&mut self, other: &PeerSet)
        requires
            old(self).wf(),
        ensures
            final(self).wf(),
            final(self)@ == dedup_append(old(self)@, other@),
    {
        let ghost start = self@;
        let mut k: usize = 0;
        while k < other.items.len()
            invariant
                k <= other.items@.len(),
                self.wf(),
                self@ == dedup_append(start, other.items@.take(k as int)),
            decreases other.items@.len() - k,
        {
            let ghost prefix = other.items@.take(k as int);
            self.insert(other.items[k]);
            proof {
                let next = other.items@.take(k as int + 1);
                assert(next.drop_last() =~= prefix);
                assert(next.last() == other.items@[k as int]);
            }
            k += 1;
        }
        proof {
            assert(other.items@.take(other.items@.len() as int) =~= other.items@);
        }
    }

    /// A copy of the peers as a plain vector, in insertion order.
    pub fn to_vec(&self) -> (r: Vec<PeerId>)
        ensures
            r@ == self@,
    {
        let mut r: Vec<PeerId> = Vec::new();
        let mut i: usize = 0;
        while i < self.items.len()
            invariant
                i <= self.items.len(),
                r@ == self.items@.take(i as int),
            decreases self.items.len() - i,
        {
            r.push(self.items[i]);
            proof {
                assert(self.items@.take(i as int + 1) =~= self.items@.take(i as int).push(
                    self.items@[i as int],
                ));
            }
            i += 1;
        }
        proof {
            assert(self.items@.take(self.items@.len() as int) =~= self.items@);
        }
        r
    }
}

} // verus!
