//! Sets of song keys. The key of a song is the symbol of its virtual
//! path, so these are small integer sets; they are kept as duplicate-free
//! vectors and modeled as `Set<u32>`.
use vstd::prelude::*;

verus! {

/// A set of song keys.
pub struct KeySet {
    v: Vec<u32>,
}

impl KeySet {
    /// The keys held, in insertion order, without duplicates.
    pub closed spec fn seq(&self) -> Seq<u32> {
        self.v@
    }

    /// The set of keys held.
    pub closed spec fn view(&self) -> Set<u32> {
        self.v@.to_set()
    }

    pub open spec fn wf(&self) -> bool {
        self.seq().no_duplicates()
    }

    pub fn new() -> (r: Self)
        ensures
            r@ == Set::<u32>::empty(),
            r.wf(),
    {
        let r = KeySet { v: Vec::new() };
        proof {
            assert(r@ =~= Set::<u32>::empty());
        }
        r
    }

    pub fn contains(&self, k: u32) -> (r: bool)
        ensures
            r == self@.contains(k),
    {
        let mut i: usize = 0;
        while i < self.v.len()
            invariant
                i <= self.v@.len(),
                forall|t: int| 0 <= t < i ==> self.v@[t] != k,
            decreases self.v@.len() - i,
        {
            if self.v[i] == k {
                assert(self.v@.contains(k));
                return true;
            }
            i = i + 1;
        }
        assert(!self.v@.contains(k));
        false
    }

    pub fn len(&self) -> (r: usize)
        requires
            self.wf(),
        ensures
            r == self@.len(),
    {
        proof {
            self.seq().unique_seq_to_set();
        }
        self.v.len()
    }

    pub fn is_empty(&self) -> (r: bool)
        requires
            self.wf(),
        ensures
            r == self@.is_empty(),
    {
        let n = self.len();
        proof {
            if self@.len() == 0 {
                assert(self@.is_empty()) by {
                    self.seq().unique_seq_to_set();
                    assert(self@ =~= Set::<u32>::empty());
                    vstd::set_lib::lemma_set_empty_equivalency_len(self@);
                }
            }
        }
        n == 0
    }

    pub fn insert(&mut self, k: u32)
        requires
            old(self).wf(),
        ensures
            final(self).wf(),
            final(self)@ == old(self)@.insert(k),
    {
        if self.contains(k) {
            proof {
                assert(old(self)@.insert(k) =~= old(self)@);
            }
            return;
        }
        self.v.push(k);
        proof {
            assert(self.v@.drop_last() =~= old(self).v@);
            assert(self.v@.to_set() =~= old(self)@.insert(k)) by {
                assert forall|x: u32| self.v@.contains(x) implies old(self).v@.contains(x) || x
                    == k by {
                    let t = choose|t: int| 0 <= t < self.v@.len() && self.v@[t] == x;
                    if t < old(self).v@.len() {
                        assert(old(self).v@[t] == x);
                    }
                }
                assert forall|x: u32| old(self).v@.contains(x) || x == k implies self.v@.contains(
                    x,
                ) by {
                    if old(self).v@.contains(x) {
                        let t = choose|t: int|
                            0 <= t < old(self).v@.len() && old(self).v@[t] == x;
                        assert(self.v@[t] == x);
                    } else {
                        assert(self.v@.last() == k);
                    }
                }
            }
        }
    }

    /// Adds every key of `other`.
    pub fn union_with(&mut self, other: &KeySet)
        requires
            old(self).wf(),
            other.wf(),
        ensures
            final(self).wf(),
            final(self)@ == old(self)@.union(other@),
    {
        let n = other.v.len();
        let mut i: usize = 0;
        while i < n
            invariant
                self.wf(),
                n == other.v@.len(),
                i <= n,
                self@ == old(self)@.union(other.v@.subrange(0, i as int).to_set()),
            decreases n - i,
        {
            let k = other.v[i];
            self.insert(k);
            proof {
                assert(other.v@.subrange(0, i + 1).drop_last() =~= other.v@.subrange(0, i as int));
                assert(other.v@.subrange(0, i + 1).to_set() =~= other.v@.subrange(
                    0,
                    i as int,
                ).to_set().insert(k)) by {
                    let pre = other.v@.subrange(0, i + 1);
                    assert forall|x: u32| pre.to_set().contains(x) implies other.v@.subrange(
                        0,
                        i as int,
                    ).to_set().insert(k).contains(x) by {
                        let t = choose|t: int| 0 <= t < pre.len() && pre[t] == x;
                        if t < i {
                            assert(other.v@.subrange(0, i as int)[t] == x);
                        }
                    }
                    assert forall|x: u32|
                        other.v@.subrange(0, i as int).to_set().insert(k).contains(
                            x,
                        ) implies pre.to_set().contains(x) by {
                        if x == k {
                            assert(pre[i as int] == k);
                        } else {
                            let t = choose|t: int|
                                0 <= t < i && other.v@.subrange(0, i as int)[t] == x;
                            assert(pre[t] == x);
                        }
                    }
                }
                assert(old(self)@.union(other.v@.subrange(0, i + 1).to_set()) =~= old(self)@.union(
                    other.v@.subrange(0, i as int).to_set(),
                ).insert(k));
            }
            i = i + 1;
        }
        proof {
            assert(other.v@.subrange(0, n as int) =~= other.v@);
        }
    }

    /// The keys present in both sets.
    pub fn intersect(&self, other: &KeySet) -> (r: KeySet)
        requires
            self.wf(),
            other.wf(),
        ensures
            r.wf(),
            r@ == self@.intersect(other@),
    {
        let mut r = KeySet::new();
        let n = self.v.len();
        let mut i: usize = 0;
        while i < n
            invariant
                self.wf(),
                r.wf(),
                n == self.v@.len(),
                i <= n,
                r@ == self.v@.subrange(0, i as int).to_set().intersect(other@),
            decreases n - i,
        {
            let k = self.v[i];
            proof {
                assert(self.v@.subrange(0, i + 1).drop_last() =~= self.v@.subrange(0, i as int));
                let pre = self.v@.subrange(0, i + 1);
                assert(pre.to_set() =~= self.v@.subrange(0, i as int).to_set().insert(k)) by {
                    assert forall|x: u32| pre.to_set().contains(x) implies self.v@.subrange(
                        0,
                        i as int,
                    ).to_set().insert(k).contains(x) by {
                        let t = choose|t: int| 0 <= t < pre.len() && pre[t] == x;
                        if t < i {
                            assert(self.v@.subrange(0, i as int)[t] == x);
                        }
                    }
                    assert forall|x: u32|
                        self.v@.subrange(0, i as int).to_set().insert(k).contains(
                            x,
                        ) implies pre.to_set().contains(x) by {
                        if x == k {
                            assert(pre[i as int] == k);
                        } else {
                            let t = choose|t: int|
                                0 <= t < i && self.v@.subrange(0, i as int)[t] == x;
                            assert(pre[t] == x);
                        }
                    }
                }
            }
            if other.contains(k) && !r.contains(k) {
                r.insert(k);
            }
            proof {
                assert(r@ =~= self.v@.subrange(0, i + 1).to_set().intersect(other@));
            }
            i = i + 1;
        }
        proof {
            assert(self.v@.subrange(0, n as int) =~= self.v@);
        }
        r
    }

    /// An owned copy of this set.
    pub fn duplicate(&self) -> (r: KeySet)
        ensures
            r@ == self@,
            r.wf() == self.wf(),
    {
        KeySet { v: self.to_vec() }
    }

    /// A copy of the keys as a plain vector, without duplicates.
    pub fn to_vec(&self) -> (r: Vec<u32>)
        ensures
            r@ == self.seq(),
            self.wf() ==> r@.no_duplicates() && r@.to_set() == self@,
    {
        let mut r: Vec<u32> = Vec::new();
        let mut i: usize = 0;
        while i < self.v.len()
            invariant
                i <= self.v@.len(),
                r@ == self.v@.subrange(0, i as int),
            decreases self.v@.len() - i,
        {
            r.push(self.v[i]);
            i = i + 1;
        }
        proof {
            assert(r@ =~= self.v@);
        }
        r
    }
}

} // verus!
