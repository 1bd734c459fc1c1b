//! Field indexes.
//!
//! A text field carries two structures: an exact map from the canonical
//! symbol of a value to the set of songs having exactly that value, and
//! an n-gram map from each two-character window (bigram) of a sanitized
//! value to a posting: a map from song key to the symbol of the indexed
//! value that produced the window. A number field is a plain map from
//! value to song set.
//!
//! The maps are association lists; an update removes a key's old binding
//! and appends the new one, which models exactly a map insertion.
use vstd::prelude::*;

use crate::interner::{reader_view, resolve, StringsReader};
use crate::sets::KeySet;
use crate::text::{contains_seq, sanitize, sanitize_chars, sanitize_str, chars_of, contains_sub};

verus! {

/// The two-character windows of a sequence; empty when the sequence is
/// shorter than a window.
pub open spec fn bigrams(s: Seq<char>) -> Seq<(char, char)> {
    if s.len() < 2 {
        Seq::empty()
    } else {
        Seq::new((s.len() - 1) as nat, |i: int| (s[i], s[i + 1]))
    }
}

/// Collects the two-character windows of `s`.
pub fn bigrams_exec(s: &Vec<char>) -> (r: Vec<(char, char)>)
    ensures
        r@ == bigrams(s@),
{
    let mut r: Vec<(char, char)> = Vec::new();
    if s.len() < 2 {
        assert(r@ =~= bigrams(s@));
        return r;
    }
    let n = s.len() - 1;
    let mut i: usize = 0;
    while i < n
        invariant
            n + 1 == s@.len(),
            i <= n,
            r@ == bigrams(s@).subrange(0, i as int),
        decreases n - i,
    {
        r.push((s[i], s[i + 1]));
        proof {
            assert(r@ =~= bigrams(s@).subrange(0, i + 1));
        }
        i = i + 1;
    }
    proof {
        assert(r@ =~= bigrams(s@));
    }
    r
}

/// A posting: which songs carry a given bigram in some indexed value of
/// the field, and for each song the symbol of one such value (the most
/// recently indexed one).
pub struct Posting {
    entries: Vec<(u32, u32)>,
    count: usize,
}

/// The map described by an association list, later bindings shadowing
/// earlier ones.
pub closed spec fn pmap(s: Seq<(u32, u32)>) -> Map<u32, u32>
    decreases s.len(),
{
    if s.len() == 0 {
        Map::empty()
    } else {
        pmap(s.drop_last()).insert(s.last().0, s.last().1)
    }
}

pub proof fn lemma_pmap_finite(s: Seq<(u32, u32)>)
    ensures
        pmap(s).dom().finite(),
    decreases s.len(),
{
    if s.len() > 0 {
        lemma_pmap_finite(s.drop_last());
    }
}

impl Posting {
    /// The pairs held, later bindings shadowing earlier ones.
    pub closed spec fn pairs(&self) -> Seq<(u32, u32)> {
        self.entries@
    }

    /// The map from song key to recorded value symbol.
    pub closed spec fn view(&self) -> Map<u32, u32> {
        pmap(self.entries@)
    }

    /// The stored size matches the number of distinct keys.
    pub closed spec fn wf(&self) -> bool {
        self.count == self@.dom().len()
    }

    pub fn new() -> (r: Self)
        ensures
            r@ == Map::<u32, u32>::empty(),
            r.wf(),
            r.pairs() == Seq::<(u32, u32)>::empty(),
    {
        let r = Posting { entries: Vec::new(), count: 0 };
        proof {
            assert(r@.dom() =~= Set::<u32>::empty());
        }
        r
    }

    /// The number of songs in the posting.
    pub fn len(&self) -> (r: usize)
        requires
            self.wf(),
        ensures
            r == self@.dom().len(),
    {
        self.count
    }

    /// The recorded symbol for a song, if the song is present.
    pub fn get(&self, k: u32) -> (r: Option<u32>)
        ensures
            match r {
                Some(sym) => self@.dom().contains(k) && self@[k] == sym,
                None => !self@.dom().contains(k),
            },
    {
        let ghost full = self.entries@;
        let mut i: usize = self.entries.len();
        proof {
            assert(full.subrange(0, full.len() as int) =~= full);
        }
        while i > 0
            invariant
                full == self.entries@,
                i <= full.len(),
                pmap(full).dom().contains(k) == pmap(full.subrange(0, i as int)).dom().contains(k),
                pmap(full).dom().contains(k) ==> pmap(full)[k] == pmap(
                    full.subrange(0, i as int),
                )[k],
            decreases i,
        {
            i = i - 1;
            proof {
                assert(full.subrange(0, i + 1).drop_last() =~= full.subrange(0, i as int));
                assert(full.subrange(0, i + 1).last() == full[i as int]);
            }
            if self.entries[i].0 == k {
                return Some(self.entries[i].1);
            }
        }
        proof {
            assert(full.subrange(0, 0) =~= Seq::<(u32, u32)>::empty());
        }
        None
    }

    pub fn contains_key(&self, k: u32) -> (r: bool)
        ensures
            r == self@.dom().contains(k),
    {
        match self.get(k) {
            Some(_) => true,
            None => false,
        }
    }

    /// Records `sym` for song `k`, shadowing an earlier record.
    pub fn set(&mut self, k: u32, sym: u32)
        requires
            old(self).wf(),
        ensures
            final(self).wf(),
            final(self)@ == old(self)@.insert(k, sym),
    {
        let present = self.contains_key(k);
        self.entries.push((k, sym));
        proof {
            assert(self.entries@.drop_last() =~= old(self).entries@);
            lemma_pmap_finite(old(self).entries@);
            lemma_pmap_dom_le(old(self).entries@);
            assert(self.entries.len() == old(self).entries@.len() + 1);
            if present {
                assert(self@.dom() =~= old(self)@.dom());
            }
        }
        if !present {
            self.count = self.count + 1;
        }
    }

    /// The pair at an index of the underlying list.
    pub fn pair_at(&self, i: usize) -> (r: (u32, u32))
        requires
            i < self.pairs().len(),
        ensures
            r == self.pairs()[i as int],
            self@.dom().contains(r.0),
    {
        proof {
            lemma_pmap_key_at(self.entries@, i as int);
        }
        self.entries[i]
    }

    /// How many pairs the underlying list holds (an upper bound on the
    /// posting's size).
    pub fn num_pairs(&self) -> (r: usize)
        ensures
            r == self.pairs().len(),
    {
        self.entries.len()
    }

    /// Every key in the map has a pair in the list and vice versa.
    pub proof fn lemma_dom_pairs(&self)
        ensures
            forall|k: u32|
                self@.dom().contains(k) <==> exists|t: int|
                    0 <= t < self.pairs().len() && (#[trigger] self.pairs()[t]).0 == k,
    {
        lemma_pmap_dom(self.entries@);
        assert forall|k: u32| self@.dom().contains(k) implies exists|t: int|
            0 <= t < self.pairs().len() && (#[trigger] self.pairs()[t]).0 == k by {
            let t = choose|t: int| 0 <= t < self.entries@.len() && (#[trigger] self.entries@[t]).0 == k;
            assert(self.pairs()[t].0 == k);
        }
        assert forall|k: u32|
            (exists|t: int| 0 <= t < self.pairs().len() && (#[trigger] self.pairs()[t]).0 == k)
            implies self@.dom().contains(k) by {
            let t = choose|t: int|
                0 <= t < self.pairs().len() && (#[trigger] self.pairs()[t]).0 == k;
            assert(self.entries@[t].0 == k);
        }
    }
}

/// A map holds no more keys than its association list has entries.
pub proof fn lemma_pmap_dom_le(s: Seq<(u32, u32)>)
    ensures
        pmap(s).dom().len() <= s.len(),
    decreases s.len(),
{
    if s.len() > 0 {
        lemma_pmap_dom_le(s.drop_last());
        lemma_pmap_finite(s.drop_last());
        vstd::set_lib::lemma_len_union(pmap(s.drop_last()).dom(), Set::empty().insert(s.last().0));
        assert(pmap(s).dom() =~= pmap(s.drop_last()).dom().union(
            Set::empty().insert(s.last().0),
        ));
    }
}

pub proof fn lemma_pmap_key_at(s: Seq<(u32, u32)>, i: int)
    requires
        0 <= i < s.len(),
    ensures
        pmap(s).dom().contains(s[i].0),
    decreases s.len(),
{
    if i == s.len() - 1 {
    } else {
        lemma_pmap_key_at(s.drop_last(), i);
    }
}

pub proof fn lemma_pmap_dom(s: Seq<(u32, u32)>)
    ensures
        forall|k: u32|
            pmap(s).dom().contains(k) <==> exists|t: int|
                0 <= t < s.len() && (#[trigger] s[t]).0 == k,
    decreases s.len(),
{
    if s.len() > 0 {
        let dl = s.drop_last();
        lemma_pmap_dom(dl);
        assert forall|k: u32| pmap(s).dom().contains(k) implies exists|t: int|
            0 <= t < s.len() && (#[trigger] s[t]).0 == k by {
            if k == s.last().0 {
                assert(s[s.len() - 1].0 == k);
            } else {
                assert(pmap(dl).dom().contains(k));
                let t = choose|t: int| 0 <= t < dl.len() && (#[trigger] dl[t]).0 == k;
                assert(dl[t] == s[t]);
                assert(s[t].0 == k);
            }
        }
        assert forall|k: u32| (exists|t: int| 0 <= t < s.len() && (#[trigger] s[t]).0 == k)
            implies pmap(s).dom().contains(k) by {
            let t = choose|t: int| 0 <= t < s.len() && (#[trigger] s[t]).0 == k;
            if t < s.len() - 1 {
                assert(dl[t].0 == k);
                assert(pmap(dl).dom().contains(k));
            }
        }
    }
}

/// The n-gram map of a text field: for each bigram, its posting.
pub struct NgramMap {
    entries: Vec<((char, char), Posting)>,
}

/// The map described by the association list, with postings abstracted to
/// their maps.
pub closed spec fn gmap(s: Seq<((char, char), Posting)>) -> Map<(char, char), Map<u32, u32>>
    decreases s.len(),
{
    if s.len() == 0 {
        Map::empty()
    } else {
        gmap(s.drop_last()).insert(s.last().0, s.last().1@)
    }
}

impl NgramMap {
    pub closed spec fn view(&self) -> Map<(char, char), Map<u32, u32>> {
        gmap(self.entries@)
    }

    pub closed spec fn wf(&self) -> bool {
        forall|i: int| 0 <= i < self.entries@.len() ==> (#[trigger] self.entries@[i]).1.wf()
    }

    pub fn new() -> (r: Self)
        ensures
            r@ == Map::<(char, char), Map<u32, u32>>::empty(),
            r.wf(),
    {
        NgramMap { entries: Vec::new() }
    }

    /// The posting of a bigram, if any value produced it.
    pub fn get(&self, b: (char, char)) -> (r: Option<&Posting>)
        ensures
            match r {
                Some(p) => self@.dom().contains(b) && p@ == self@[b] && (self.wf() ==> p.wf()),
                None => !self@.dom().contains(b),
            },
    {
        let ghost full = self.entries@;
        let mut i: usize = self.entries.len();
        proof {
            assert(full.subrange(0, full.len() as int) =~= full);
        }
        while i > 0
            invariant
                full == self.entries@,
                i <= full.len(),
                gmap(full).dom().contains(b) == gmap(full.subrange(0, i as int)).dom().contains(b),
                gmap(full).dom().contains(b) ==> gmap(full)[b] == gmap(
                    full.subrange(0, i as int),
                )[b],
            decreases i,
        {
            i = i - 1;
            proof {
                assert(full.subrange(0, i + 1).drop_last() =~= full.subrange(0, i as int));
                assert(full.subrange(0, i + 1).last() == full[i as int]);
            }
            if self.entries[i].0.0 == b.0 && self.entries[i].0.1 == b.1 {
                return Some(&self.entries[i].1);
            }
        }
        proof {
            assert(full.subrange(0, 0) =~= Seq::<((char, char), Posting)>::empty());
        }
        None
    }

    /// The posting map of a bigram; empty when the bigram is absent.
    pub open spec fn posting_view(&self, b: (char, char)) -> Map<u32, u32> {
        posting_in(self@, b)
    }

    /// How many songs carry the bigram.
    pub open spec fn posting_size(&self, b: (char, char)) -> nat {
        self.posting_view(b).dom().len()
    }

    fn posting_len(&self, b: (char, char)) -> (r: usize)
        requires
            self.wf(),
        ensures
            r == self.posting_size(b),
    {
        match self.get(b) {
            Some(p) => p.len(),
            None => {
                proof {
                    assert(Map::<u32, u32>::empty().dom() =~= Set::<u32>::empty());
                }
                0
            },
        }
    }

    /// The position of the binding of a bigram, if it has one.
    fn find_idx(&self, b: (char, char)) -> (r: Option<usize>)
        ensures
            match r {
                Some(i) => i < self.entries@.len() && self.entries@[i as int].0 == b
                    && self.entries@[i as int].1@ == self@[b] && self@.dom().contains(b),
                None => !self@.dom().contains(b),
            },
    {
        let ghost full = self.entries@;
        let mut i: usize = self.entries.len();
        proof {
            assert(full.subrange(0, full.len() as int) =~= full);
        }
        while i > 0
            invariant
                full == self.entries@,
                i <= full.len(),
                gmap(full).dom().contains(b) == gmap(full.subrange(0, i as int)).dom().contains(b),
                gmap(full).dom().contains(b) ==> gmap(full)[b] == gmap(
                    full.subrange(0, i as int),
                )[b],
            decreases i,
        {
            i = i - 1;
            proof {
                assert(full.subrange(0, i + 1).drop_last() =~= full.subrange(0, i as int));
                assert(full.subrange(0, i + 1).last() == full[i as int]);
            }
            if self.entries[i].0.0 == b.0 && self.entries[i].0.1 == b.1 {
                return Some(i);
            }
        }
        proof {
            assert(full.subrange(0, 0) =~= Seq::<((char, char), Posting)>::empty());
        }
        None
    }

    /// Records `sym` for song `k` under bigram `b`, replacing the
    /// bigram's binding in place.
    pub fn upsert(&mut self, b: (char, char), k: u32, sym: u32)
        requires
            old(self).wf(),
        ensures
            final(self).wf(),
            final(self)@ == old(self)@.insert(b, old(self).posting_view(b).insert(k, sym)),
    {
        let ghost pre = self.entries@;
        let found = self.find_idx(b);
        let mut p: Posting = match found {
            Some(i) => {
                let e = self.entries.remove(i);
                proof {
                    lemma_gmap_remove(pre, i as int);
                    assert forall|t: int|
                        0 <= t < self.entries@.len() implies (#[trigger] self.entries@[t]).1.wf() by {
                        if t < i {
                            assert(self.entries@[t] == pre[t]);
                        } else {
                            assert(self.entries@[t] == pre[t + 1]);
                        }
                    }
                }
                e.1
            },
            None => Posting::new(),
        };
        p.set(k, sym);
        let ghost mid = self.entries@;
        self.entries.push((b, p));
        proof {
            assert(self.entries@.drop_last() =~= mid);
            assert(gmap(self.entries@) == gmap(mid).insert(b, p@));
            assert forall|x: (char, char)|
                x != b implies (gmap(mid).dom().contains(x) == gmap(pre).dom().contains(x) && (gmap(
                pre,
            ).dom().contains(x) ==> gmap(mid)[x] == gmap(pre)[x])) by {
                match found {
                    Some(i) => {
                        assert(mid == pre.remove(i as int));
                        assert(gmap(pre.remove(i as int)).dom().contains(x) == gmap(
                            pre,
                        ).dom().contains(x));
                    },
                    None => {},
                }
            }
            assert(self@ =~= old(self)@.insert(b, old(self).posting_view(b).insert(k, sym)));
            assert forall|t: int|
                0 <= t < self.entries@.len() implies (#[trigger] self.entries@[t]).1.wf() by {
                if t < mid.len() {
                    assert(self.entries@[t] == mid[t]);
                }
            }
        }
    }
}

/// Removing one entry changes the described map at most at that entry's
/// key.
proof fn lemma_gmap_remove(s: Seq<((char, char), Posting)>, i: int)
    requires
        0 <= i < s.len(),
    ensures
        forall|b: (char, char)|
            #![trigger gmap(s.remove(i)).dom().contains(b)]
            b != s[i].0 ==> (gmap(s.remove(i)).dom().contains(b) == gmap(s).dom().contains(b) && (
            gmap(s).dom().contains(b) ==> gmap(s.remove(i))[b] == gmap(s)[b])),
    decreases s.len(),
{
    if i == s.len() - 1 {
        assert(s.remove(i) =~= s.drop_last());
        assert forall|b: (char, char)|
            #![trigger gmap(s.remove(i)).dom().contains(b)]
            b != s[i].0 implies (gmap(s.remove(i)).dom().contains(b) == gmap(s).dom().contains(b)
            && (gmap(s).dom().contains(b) ==> gmap(s.remove(i))[b] == gmap(s)[b])) by {
            assert(gmap(s) == gmap(s.drop_last()).insert(s.last().0, s.last().1@));
        }
    } else {
        let dl = s.drop_last();
        lemma_gmap_remove(dl, i);
        assert(dl[i] == s[i]);
        assert forall|b: (char, char)|
            #![trigger gmap(s.remove(i)).dom().contains(b)]
            b != s[i].0 implies (gmap(s.remove(i)).dom().contains(b) == gmap(s).dom().contains(b)
            && (gmap(s).dom().contains(b) ==> gmap(s.remove(i))[b] == gmap(s)[b])) by {
            assert(s.remove(i).len() > 0);
            assert(s.remove(i).drop_last() =~= dl.remove(i));
            assert(s.remove(i).last() == s.last());
            assert(gmap(s.remove(i)) == gmap(dl.remove(i)).insert(s.last().0, s.last().1@));
            assert(gmap(s) == gmap(dl).insert(s.last().0, s.last().1@));
            assert(gmap(dl.remove(i)).dom().contains(b) == gmap(dl).dom().contains(b));
            assert(gmap(dl).dom().contains(b) ==> gmap(dl.remove(i))[b] == gmap(dl)[b]);
        }
    }
}

/// The exact map of a field: for each canonical value symbol, the songs
/// having exactly that value.
pub struct ExactMap {
    entries: Vec<(u32, KeySet)>,
}

/// The map described by the association list, with buckets abstracted to
/// their sets.
pub closed spec fn emap(s: Seq<(u32, KeySet)>) -> Map<u32, Set<u32>>
    decreases s.len(),
{
    if s.len() == 0 {
        Map::empty()
    } else {
        emap(s.drop_last()).insert(s.last().0, s.last().1@)
    }
}

impl ExactMap {
    pub closed spec fn view(&self) -> Map<u32, Set<u32>> {
        emap(self.entries@)
    }

    pub closed spec fn wf(&self) -> bool {
        forall|i: int| 0 <= i < self.entries@.len() ==> (#[trigger] self.entries@[i]).1.wf()
    }

    /// The bucket of a symbol; empty when the symbol was never indexed.
    pub open spec fn bucket_view(&self, sym: u32) -> Set<u32> {
        if self@.dom().contains(sym) {
            self@[sym]
        } else {
            Set::empty()
        }
    }

    pub fn new() -> (r: Self)
        ensures
            r@ == Map::<u32, Set<u32>>::empty(),
            r.wf(),
    {
        ExactMap { entries: Vec::new() }
    }

    /// The song set recorded for a value symbol.
    pub fn get(&self, sym: u32) -> (r: Option<&KeySet>)
        ensures
            match r {
                Some(ks) => self@.dom().contains(sym) && ks@ == self@[sym] && (self.wf()
                    ==> ks.wf()),
                None => !self@.dom().contains(sym),
            },
    {
        let ghost full = self.entries@;
        let mut i: usize = self.entries.len();
        proof {
            assert(full.subrange(0, full.len() as int) =~= full);
        }
        while i > 0
            invariant
                full == self.entries@,
                i <= full.len(),
                emap(full).dom().contains(sym) == emap(full.subrange(0, i as int)).dom().contains(
                    sym,
                ),
                emap(full).dom().contains(sym) ==> emap(full)[sym] == emap(
                    full.subrange(0, i as int),
                )[sym],
            decreases i,
        {
            i = i - 1;
            proof {
                assert(full.subrange(0, i + 1).drop_last() =~= full.subrange(0, i as int));
                assert(full.subrange(0, i + 1).last() == full[i as int]);
            }
            if self.entries[i].0 == sym {
                return Some(&self.entries[i].1);
            }
        }
        proof {
            assert(full.subrange(0, 0) =~= Seq::<(u32, KeySet)>::empty());
        }
        None
    }

    /// The position of the binding of a symbol, if it has one.
    fn find_idx(&self, sym: u32) -> (r: Option<usize>)
        ensures
            match r {
                Some(i) => i < self.entries@.len() && self.entries@[i as int].0 == sym
                    && self.entries@[i as int].1@ == self@[sym] && self@.dom().contains(sym) && (
                self.wf() ==> self.entries@[i as int].1.wf()),
                None => !self@.dom().contains(sym),
            },
    {
        let ghost full = self.entries@;
        let mut i: usize = self.entries.len();
        proof {
            assert(full.subrange(0, full.len() as int) =~= full);
        }
        while i > 0
            invariant
                full == self.entries@,
                i <= full.len(),
                emap(full).dom().contains(sym) == emap(full.subrange(0, i as int)).dom().contains(
                    sym,
                ),
                emap(full).dom().contains(sym) ==> emap(full)[sym] == emap(
                    full.subrange(0, i as int),
                )[sym],
            decreases i,
        {
            i = i - 1;
            proof {
                assert(full.subrange(0, i + 1).drop_last() =~= full.subrange(0, i as int));
                assert(full.subrange(0, i + 1).last() == full[i as int]);
            }
            if self.entries[i].0 == sym {
                return Some(i);
            }
        }
        proof {
            assert(full.subrange(0, 0) =~= Seq::<(u32, KeySet)>::empty());
        }
        None
    }

    /// Adds a song to the bucket of a value symbol, replacing the
    /// symbol's binding in place.
    pub fn add(&mut self, sym: u32, key: u32)
        requires
            old(self).wf(),
        ensures
            final(self).wf(),
            final(self)@ == old(self)@.insert(sym, old(self).bucket_view(sym).insert(key)),
    {
        let ghost pre = self.entries@;
        let found = self.find_idx(sym);
        let mut bucket: KeySet = match found {
            Some(i) => {
                let e = self.entries.remove(i);
                proof {
                    lemma_emap_remove(pre, i as int);
                    assert forall|t: int|
                        0 <= t < self.entries@.len() implies (#[trigger] self.entries@[t]).1.wf() by {
                        if t < i {
                            assert(self.entries@[t] == pre[t]);
                        } else {
                            assert(self.entries@[t] == pre[t + 1]);
                        }
                    }
                }
                e.1
            },
            None => KeySet::new(),
        };
        bucket.insert(key);
        let ghost mid = self.entries@;
        self.entries.push((sym, bucket));
        proof {
            assert(self.entries@.drop_last() =~= mid);
            assert(emap(self.entries@) == emap(mid).insert(sym, bucket@));
            assert forall|x: u32|
                x != sym implies (emap(mid).dom().contains(x) == emap(pre).dom().contains(x) && (
                emap(pre).dom().contains(x) ==> emap(mid)[x] == emap(pre)[x])) by {
                match found {
                    Some(i) => {
                        assert(mid == pre.remove(i as int));
                        assert(emap(pre.remove(i as int)).dom().contains(x) == emap(
                            pre,
                        ).dom().contains(x));
                    },
                    None => {},
                }
            }
            assert(self@ =~= old(self)@.insert(sym, old(self).bucket_view(sym).insert(key)));
            assert forall|t: int|
                0 <= t < self.entries@.len() implies (#[trigger] self.entries@[t]).1.wf() by {
                if t < mid.len() {
                    assert(self.entries@[t] == mid[t]);
                }
            }
        }
    }
}

/// Removing one entry changes the described map at most at that entry's
/// key.
proof fn lemma_emap_remove(s: Seq<(u32, KeySet)>, i: int)
    requires
        0 <= i < s.len(),
    ensures
        forall|b: u32|
            #![trigger emap(s.remove(i)).dom().contains(b)]
            b != s[i].0 ==> (emap(s.remove(i)).dom().contains(b) == emap(s).dom().contains(b) && (
            emap(s).dom().contains(b) ==> emap(s.remove(i))[b] == emap(s)[b])),
    decreases s.len(),
{
    if i == s.len() - 1 {
        assert(s.remove(i) =~= s.drop_last());
        assert forall|b: u32|
            #![trigger emap(s.remove(i)).dom().contains(b)]
            b != s[i].0 implies (emap(s.remove(i)).dom().contains(b) == emap(s).dom().contains(b)
            && (emap(s).dom().contains(b) ==> emap(s.remove(i))[b] == emap(s)[b])) by {
            assert(emap(s) == emap(s.drop_last()).insert(s.last().0, s.last().1@));
        }
    } else {
        let dl = s.drop_last();
        lemma_emap_remove(dl, i);
        assert(dl[i] == s[i]);
        assert forall|b: u32|
            #![trigger emap(s.remove(i)).dom().contains(b)]
            b != s[i].0 implies (emap(s.remove(i)).dom().contains(b) == emap(s).dom().contains(b)
            && (emap(s).dom().contains(b) ==> emap(s.remove(i))[b] == emap(s)[b])) by {
            assert(s.remove(i).len() > 0);
            assert(s.remove(i).drop_last() =~= dl.remove(i));
            assert(s.remove(i).last() == s.last());
            assert(emap(s.remove(i)) == emap(dl.remove(i)).insert(s.last().0, s.last().1@));
            assert(emap(s) == emap(dl).insert(s.last().0, s.last().1@));
            assert(emap(dl.remove(i)).dom().contains(b) == emap(dl).dom().contains(b));
            assert(emap(dl).dom().contains(b) ==> emap(dl.remove(i))[b] == emap(dl)[b]);
        }
    }
}

/// One step of feeding a value into the n-gram map: record `sym` for
/// song `k` under bigram `b`.
pub open spec fn ngram_step(
    m: Map<(char, char), Map<u32, u32>>,
    b: (char, char),
    k: u32,
    sym: u32,
) -> Map<(char, char), Map<u32, u32>> {
    m.insert(
        b,
        (if m.dom().contains(b) {
            m[b]
        } else {
            Map::empty()
        }).insert(k, sym),
    )
}

/// The n-gram map after recording `sym` for song `k` under every bigram
/// of `bs`, in order.
pub open spec fn ngrams_after(
    m: Map<(char, char), Map<u32, u32>>,
    bs: Seq<(char, char)>,
    k: u32,
    sym: u32,
) -> Map<(char, char), Map<u32, u32>>
    decreases bs.len(),
{
    if bs.len() == 0 {
        m
    } else {
        ngrams_after(ngram_step(m, bs[0], k, sym), bs.drop_first(), k, sym)
    }
}

/// The index of one text field: exact buckets and the bigram postings.
pub struct TextFieldIndex {
    exact: ExactMap,
    ngrams: NgramMap,
}

impl TextFieldIndex {
    /// The exact map: canonical value symbol to song set.
    pub closed spec fn exact_view(&self) -> Map<u32, Set<u32>> {
        self.exact@
    }

    /// The bucket of a value symbol in the exact map.
    pub open spec fn exact_bucket(&self, sym: u32) -> Set<u32> {
        if self.exact_view().dom().contains(sym) {
            self.exact_view()[sym]
        } else {
            Set::empty()
        }
    }

    /// The n-gram map: bigram to posting.
    pub closed spec fn ngram_view(&self) -> Map<(char, char), Map<u32, u32>> {
        self.ngrams@
    }

    /// The posting of a bigram; empty when the bigram is absent.
    pub open spec fn posting_view(&self, b: (char, char)) -> Map<u32, u32> {
        posting_in(self.ngram_view(), b)
    }

    /// How many songs carry a bigram.
    pub open spec fn posting_size(&self, b: (char, char)) -> nat {
        self.posting_view(b).dom().len()
    }

    pub closed spec fn wf(&self) -> bool {
        &&& self.exact.wf()
        &&& self.ngrams.wf()
    }

    pub fn new() -> (r: Self)
        ensures
            r.wf(),
            r.exact_view() == Map::<u32, Set<u32>>::empty(),
            r.ngram_view() == Map::<(char, char), Map<u32, u32>>::empty(),
    {
        TextFieldIndex { exact: ExactMap::new(), ngrams: NgramMap::new() }
    }

    /// Feeds one indexed value into the field: every bigram of the
    /// sanitized value records the song and the value's symbol, and the
    /// song joins the exact bucket of the symbol.
    pub fn insert(&mut self, raw_value: &str, value: u32, key: u32)
        requires
            old(self).wf(),
        ensures
            final(self).wf(),
            final(self).ngram_view() == ngrams_after(
                old(self).ngram_view(),
                bigrams(sanitize(raw_value@)),
                key,
                value,
            ),
            final(self).exact_view() == old(self).exact_view().insert(
                value,
                old(self).exact_bucket(value).insert(key),
            ),
    {
        let q = sanitize_str(raw_value);
        let bs = bigrams_exec(&q);
        let ghost orig = self.ngrams@;
        let ghost all = bs@;
        proof {
            assert(all.skip(0) =~= all);
        }
        let n = bs.len();
        let mut i: usize = 0;
        while i < n
            invariant
                self.exact == old(self).exact,
                self.ngrams.wf(),
                n == all.len(),
                all == bs@,
                i <= n,
                ngrams_after(orig, all, key, value) == ngrams_after(
                    self.ngrams@,
                    all.skip(i as int),
                    key,
                    value,
                ),
            decreases n - i,
        {
            let b = bs[i];
            proof {
                assert(all.skip(i as int)[0] == all[i as int]);
                assert(all.skip(i as int).drop_first() =~= all.skip(i + 1));
            }
            self.ngrams.upsert(b, key, value);
            i = i + 1;
        }
        proof {
            assert(all.skip(n as int) =~= Seq::<(char, char)>::empty());
        }
        self.exact.add(value, key);
    }

    /// The songs whose value in this field is exactly the queried text,
    /// up to sanitization: the canonical map names the symbol, and the
    /// exact bucket of that symbol answers.
    pub open spec fn find_exact_spec(
        &self,
        canon: &crate::interner::CanonicalMap,
        q: Seq<char>,
    ) -> Set<u32> {
        let s = sanitize(q);
        if canon@.dom().contains(s) {
            self.exact_bucket(canon@[s])
        } else {
            Set::empty()
        }
    }

    /// Exact lookup of a queried text.
    pub fn find_exact(&self, canon: &crate::interner::CanonicalMap, value: &str) -> (r: KeySet)
        requires
            self.wf(),
        ensures
            r.wf(),
            r@ == self.find_exact_spec(canon, value@),
    {
        self.find_exact_chars(canon, &chars_of(value))
    }

    /// Exact lookup, on an already collected character sequence.
    pub fn find_exact_chars(&self, canon: &crate::interner::CanonicalMap, value: &Vec<char>) -> (r:
        KeySet)
        requires
            self.wf(),
        ensures
            r.wf(),
            r@ == self.find_exact_spec(canon, value@),
    {
        let s = sanitize_chars(value);
        match canon.get(&s) {
            Some(sym) => match self.exact.get(sym) {
                Some(ks) => ks.duplicate(),
                None => KeySet::new(),
            },
            None => KeySet::new(),
        }
    }

    /// The first bigram of `bs` whose posting is smallest: the driving
    /// posting of a fuzzy search.
    pub open spec fn driving_idx(&self, bs: Seq<(char, char)>) -> int
        decreases bs.len(),
    {
        if bs.len() <= 1 {
            0
        } else {
            let m = self.driving_idx(bs.drop_last());
            if self.posting_size(bs.last()) < self.posting_size(bs[m]) {
                bs.len() - 1
            } else {
                m
            }
        }
    }

    pub proof fn lemma_driving_idx_in_range(&self, bs: Seq<(char, char)>)
        requires
            bs.len() > 0,
        ensures
            0 <= self.driving_idx(bs) < bs.len(),
        decreases bs.len(),
    {
        if bs.len() > 1 {
            self.lemma_driving_idx_in_range(bs.drop_last());
        }
    }

    /// Membership in a fuzzy search: the song is in every posting of the
    /// query's bigrams, and the value recorded for it in the driving
    /// posting resolves to a string whose sanitized form contains the
    /// sanitized query (the narrow phase).
    pub open spec fn like_member(
        &self,
        reader: &StringsReader,
        qs: Seq<char>,
        k: u32,
    ) -> bool {
        let bs = bigrams(qs);
        let drv = bs[self.driving_idx(bs)];
        let pv = self.posting_view(drv);
        &&& pv.dom().contains(k)
        &&& (forall|j: int|
            0 <= j < bs.len() ==> self.posting_view(#[trigger] bs[j]).dom().contains(k))
        &&& pv[k] < reader_view(reader).len()
        &&& contains_seq(sanitize(reader_view(reader)[pv[k] as int]), qs)
    }

    /// The songs a fuzzy search returns: none when the sanitized query is
    /// shorter than one bigram, otherwise exactly the broad-phase
    /// intersection survivors that pass the narrow phase.
    pub open spec fn find_like_spec(&self, reader: &StringsReader, q: Seq<char>) -> Set<u32> {
        let qs = sanitize(q);
        if bigrams(qs).len() == 0 {
            Set::empty()
        } else {
            Set::new(|k: u32| self.like_member(reader, qs, k))
        }
    }

    /// Fuzzy lookup of a queried text.
    pub fn find_like(&self, reader: &StringsReader, value: &str) -> (r: KeySet)
        requires
            self.wf(),
        ensures
            r.wf(),
            r@ == self.find_like_spec(reader, value@),
    {
        self.find_like_chars(reader, &chars_of(value))
    }

    /// Fuzzy lookup, on an already collected character sequence.
    pub fn find_like_chars(&self, reader: &StringsReader, value: &Vec<char>) -> (r: KeySet)
        requires
            self.wf(),
        ensures
            r.wf(),
            r@ == self.find_like_spec(reader, value@),
    {
        let q = sanitize_chars(value);
        let ghost qs = q@;
        let bs = bigrams_exec(&q);
        let mut result = KeySet::new();
        if bs.len() == 0 {
            proof {
                assert(result@ =~= self.find_like_spec(reader, value@));
            }
            return result;
        }
        let mut best: usize = 0;
        let mut j: usize = 1;
        while j < bs.len()
            invariant
                self.wf(),
                1 <= j <= bs@.len(),
                best < j,
                best == self.driving_idx(bs@.subrange(0, j as int)),
            decreases bs@.len() - j,
        {
            proof {
                assert(bs@.subrange(0, j + 1).drop_last() =~= bs@.subrange(0, j as int));
                assert(bs@.subrange(0, j + 1).last() == bs@[j as int]);
                assert(bs@.subrange(0, j as int)[best as int] == bs@[best as int]);
            }
            if self.ngrams.posting_len(bs[j]) < self.ngrams.posting_len(bs[best]) {
                best = j;
            }
            j = j + 1;
        }
        proof {
            assert(bs@.subrange(0, bs@.len() as int) =~= bs@);
            self.lemma_driving_idx_in_range(bs@);
        }
        let drv = bs[best];
        let p = match self.ngrams.get(drv) {
            Some(p) => p,
            None => {
                proof {
                    assert(result@ =~= self.find_like_spec(reader, value@)) by {
                        assert forall|k: u32| !self.like_member(reader, qs, k) by {
                            assert(!self.posting_view(drv).dom().contains(k));
                        }
                    }
                }
                return result;
            },
        };
        let n = p.num_pairs();
        let mut i: usize = 0;
        while i < n
            invariant
                self.wf(),
                result.wf(),
                qs == sanitize(value@),
                q@ == qs,
                bs@ == bigrams(qs),
                bs@.len() > 0,
                0 <= best < bs@.len(),
                best == self.driving_idx(bs@),
                drv == bs@[best as int],
                self.ngram_view().dom().contains(drv),
                p@ == self.ngram_view()[drv],
                n == p.pairs().len(),
                i <= n,
                forall|k: u32|
                    result@.contains(k) <==> ((exists|t: int|
                        0 <= t < i && (#[trigger] p.pairs()[t]).0 == k) && self.like_member(
                        reader,
                        qs,
                        k,
                    )),
            decreases n - i,
        {
            let pair = p.pair_at(i);
            let k = pair.0;
            let mut all = true;
            let mut t: usize = 0;
            while t < bs.len()
                invariant
                    self.wf(),
                    bs@ == bigrams(qs),
                    t <= bs@.len(),
                    all == (forall|u: int|
                        0 <= u < t ==> self.posting_view(#[trigger] bs@[u]).dom().contains(k)),
                decreases bs@.len() - t,
            {
                let here = match self.ngrams.get(bs[t]) {
                    Some(pp) => pp.contains_key(k),
                    None => false,
                };
                proof {
                    if !here {
                        assert(!self.posting_view(bs@[t as int]).dom().contains(k));
                    }
                }
                all = all && here;
                t = t + 1;
            }
            if all {
                let sym = match p.get(k) {
                    Some(sym) => sym,
                    None => {
                        proof {
                            assert(false);
                        }
                        0
                    },
                };
                match resolve(reader, sym) {
                    Some(txt) => {
                        let ts = sanitize_str(txt.as_str());
                        if contains_sub(&ts, &q) {
                            result.insert(k);
                            proof {
                                assert(self.like_member(reader, qs, k));
                            }
                        }
                    },
                    None => {},
                }
            }
            proof {
                assert forall|k2: u32|
                    result@.contains(k2) <==> ((exists|t2: int|
                        0 <= t2 < i + 1 && (#[trigger] p.pairs()[t2]).0 == k2)
                        && self.like_member(reader, qs, k2)) by {
                    if k2 == k {
                        assert(p.pairs()[i as int].0 == k);
                    }
                }
            }
            i = i + 1;
        }
        proof {
            p.lemma_dom_pairs();
            assert(result@ =~= self.find_like_spec(reader, value@));
        }
        result
    }
}

/// The index of one number field: for each value, the songs having it.
pub struct NumberFieldIndex {
    entries: Vec<(i32, KeySet)>,
}

/// The map described by the association list, with buckets abstracted to
/// their sets.
pub closed spec fn nmap(s: Seq<(i32, KeySet)>) -> Map<i32, Set<u32>>
    decreases s.len(),
{
    if s.len() == 0 {
        Map::empty()
    } else {
        nmap(s.drop_last()).insert(s.last().0, s.last().1@)
    }
}

impl NumberFieldIndex {
    pub closed spec fn view(&self) -> Map<i32, Set<u32>> {
        nmap(self.entries@)
    }

    pub closed spec fn wf(&self) -> bool {
        forall|i: int| 0 <= i < self.entries@.len() ==> (#[trigger] self.entries@[i]).1.wf()
    }

    /// The bucket of a value; empty when the value was never indexed.
    pub open spec fn bucket_view(&self, value: i32) -> Set<u32> {
        if self@.dom().contains(value) {
            self@[value]
        } else {
            Set::empty()
        }
    }

    pub fn new() -> (r: Self)
        ensures
            r@ == Map::<i32, Set<u32>>::empty(),
            r.wf(),
    {
        NumberFieldIndex { entries: Vec::new() }
    }

    fn get(&self, value: i32) -> (r: Option<&KeySet>)
        ensures
            match r {
                Some(ks) => self@.dom().contains(value) && ks@ == self@[value] && (self.wf()
                    ==> ks.wf()),
                None => !self@.dom().contains(value),
            },
    {
        let ghost full = self.entries@;
        let mut i: usize = self.entries.len();
        proof {
            assert(full.subrange(0, full.len() as int) =~= full);
        }
        while i > 0
            invariant
                full == self.entries@,
                i <= full.len(),
                nmap(full).dom().contains(value) == nmap(
                    full.subrange(0, i as int),
                ).dom().contains(value),
                nmap(full).dom().contains(value) ==> nmap(full)[value] == nmap(
                    full.subrange(0, i as int),
                )[value],
            decreases i,
        {
            i = i - 1;
            proof {
                assert(full.subrange(0, i + 1).drop_last() =~= full.subrange(0, i as int));
                assert(full.subrange(0, i + 1).last() == full[i as int]);
            }
            if self.entries[i].0 == value {
                return Some(&self.entries[i].1);
            }
        }
        proof {
            assert(full.subrange(0, 0) =~= Seq::<(i32, KeySet)>::empty());
        }
        None
    }

    /// The position of the binding of a value, if it has one.
    fn find_idx(&self, value: i32) -> (r: Option<usize>)
        ensures
            match r {
                Some(i) => i < self.entries@.len() && self.entries@[i as int].0 == value
                    && self.entries@[i as int].1@ == self@[value] && self@.dom().contains(value)
                    && (self.wf() ==> self.entries@[i as int].1.wf()),
                None => !self@.dom().contains(value),
            },
    {
        let ghost full = self.entries@;
        let mut i: usize = self.entries.len();
        proof {
            assert(full.subrange(0, full.len() as int) =~= full);
        }
        while i > 0
            invariant
                full == self.entries@,
                i <= full.len(),
                nmap(full).dom().contains(value) == nmap(
                    full.subrange(0, i as int),
                ).dom().contains(value),
                nmap(full).dom().contains(value) ==> nmap(full)[value] == nmap(
                    full.subrange(0, i as int),
                )[value],
            decreases i,
        {
            i = i - 1;
            proof {
                assert(full.subrange(0, i + 1).drop_last() =~= full.subrange(0, i as int));
                assert(full.subrange(0, i + 1).last() == full[i as int]);
            }
            if self.entries[i].0 == value {
                return Some(i);
            }
        }
        proof {
            assert(full.subrange(0, 0) =~= Seq::<(i32, KeySet)>::empty());
        }
        None
    }

    /// Adds a song under a value, replacing the value's binding in
    /// place.
    pub fn insert(&mut self, value: i32, key: u32)
        requires
            old(self).wf(),
        ensures
            final(self).wf(),
            final(self)@ == old(self)@.insert(value, old(self).bucket_view(value).insert(key)),
    {
        let ghost pre = self.entries@;
        let found = self.find_idx(value);
        let mut bucket: KeySet = match found {
            Some(i) => {
                let e = self.entries.remove(i);
                proof {
                    lemma_nmap_remove(pre, i as int);
                    assert forall|t: int|
                        0 <= t < self.entries@.len() implies (#[trigger] self.entries@[t]).1.wf() by {
                        if t < i {
                            assert(self.entries@[t] == pre[t]);
                        } else {
                            assert(self.entries@[t] == pre[t + 1]);
                        }
                    }
                }
                e.1
            },
            None => KeySet::new(),
        };
        bucket.insert(key);
        let ghost mid = self.entries@;
        self.entries.push((value, bucket));
        proof {
            assert(self.entries@.drop_last() =~= mid);
            assert(nmap(self.entries@) == nmap(mid).insert(value, bucket@));
            assert forall|x: i32|
                x != value implies (nmap(mid).dom().contains(x) == nmap(pre).dom().contains(x) && (
                nmap(pre).dom().contains(x) ==> nmap(mid)[x] == nmap(pre)[x])) by {
                match found {
                    Some(i) => {
                        assert(mid == pre.remove(i as int));
                        assert(nmap(pre.remove(i as int)).dom().contains(x) == nmap(
                            pre,
                        ).dom().contains(x));
                    },
                    None => {},
                }
            }
            assert(self@ =~= old(self)@.insert(value, old(self).bucket_view(value).insert(key)));
            assert forall|t: int|
                0 <= t < self.entries@.len() implies (#[trigger] self.entries@[t]).1.wf() by {
                if t < mid.len() {
                    assert(self.entries@[t] == mid[t]);
                }
            }
        }
    }

    /// The songs indexed with exactly this value.
    pub open spec fn find_equal_spec(&self, value: i32) -> Set<u32> {
        self.bucket_view(value)
    }

    /// Equality lookup.
    pub fn find_equal(&self, value: i32) -> (r: KeySet)
        requires
            self.wf(),
        ensures
            r.wf(),
            r@ == self.find_equal_spec(value),
    {
        match self.get(value) {
            Some(ks) => ks.duplicate(),
            None => KeySet::new(),
        }
    }
}


/// Removing one entry changes the described map at most at that entry's
/// key.
proof fn lemma_nmap_remove(s: Seq<(i32, KeySet)>, i: int)
    requires
        0 <= i < s.len(),
    ensures
        forall|b: i32|
            #![trigger nmap(s.remove(i)).dom().contains(b)]
            b != s[i].0 ==> (nmap(s.remove(i)).dom().contains(b) == nmap(s).dom().contains(b) && (
            nmap(s).dom().contains(b) ==> nmap(s.remove(i))[b] == nmap(s)[b])),
    decreases s.len(),
{
    if i == s.len() - 1 {
        assert(s.remove(i) =~= s.drop_last());
        assert forall|b: i32|
            #![trigger nmap(s.remove(i)).dom().contains(b)]
            b != s[i].0 implies (nmap(s.remove(i)).dom().contains(b) == nmap(s).dom().contains(b)
            && (nmap(s).dom().contains(b) ==> nmap(s.remove(i))[b] == nmap(s)[b])) by {
            assert(nmap(s) == nmap(s.drop_last()).insert(s.last().0, s.last().1@));
        }
    } else {
        let dl = s.drop_last();
        lemma_nmap_remove(dl, i);
        assert(dl[i] == s[i]);
        assert forall|b: i32|
            #![trigger nmap(s.remove(i)).dom().contains(b)]
            b != s[i].0 implies (nmap(s.remove(i)).dom().contains(b) == nmap(s).dom().contains(b)
            && (nmap(s).dom().contains(b) ==> nmap(s.remove(i))[b] == nmap(s)[b])) by {
            assert(s.remove(i).len() > 0);
            assert(s.remove(i).drop_last() =~= dl.remove(i));
            assert(s.remove(i).last() == s.last());
            assert(nmap(s.remove(i)) == nmap(dl.remove(i)).insert(s.last().0, s.last().1@));
            assert(nmap(s) == nmap(dl).insert(s.last().0, s.last().1@));
            assert(nmap(dl.remove(i)).dom().contains(b) == nmap(dl).dom().contains(b));
            assert(nmap(dl).dom().contains(b) ==> nmap(dl.remove(i))[b] == nmap(dl)[b]);
        }
    }
}

/// The posting of a bigram in an n-gram map; empty when absent.
pub open spec fn posting_in(m: Map<(char, char), Map<u32, u32>>, b: (char, char)) -> Map<
    u32,
    u32,
> {
    if m.dom().contains(b) {
        m[b]
    } else {
        Map::empty()
    }
}

/// Feeding a value keeps every song already present under a bigram, and
/// keeps a recorded symbol unless the fed song is the same one.
pub proof fn lemma_ngrams_after_keeps(
    m: Map<(char, char), Map<u32, u32>>,
    bs: Seq<(char, char)>,
    k: u32,
    sym: u32,
    b: (char, char),
    k2: u32,
)
    requires
        posting_in(m, b).dom().contains(k2),
    ensures
        posting_in(ngrams_after(m, bs, k, sym), b).dom().contains(k2),
        k2 != k ==> posting_in(ngrams_after(m, bs, k, sym), b)[k2] == posting_in(m, b)[k2],
    decreases bs.len(),
{
    if bs.len() > 0 {
        let m1 = ngram_step(m, bs[0], k, sym);
        assert(posting_in(m1, b).dom().contains(k2));
        lemma_ngrams_after_keeps(m1, bs.drop_first(), k, sym, b, k2);
    }
}

/// After a value is fed in for a song, every bigram of its sanitized
/// text has a posting holding that song, with the value's symbol
/// recorded.
pub proof fn lemma_ngrams_after_covers(
    m: Map<(char, char), Map<u32, u32>>,
    bs: Seq<(char, char)>,
    k: u32,
    sym: u32,
)
    ensures
        forall|j: int|
            0 <= j < bs.len() ==> {
                let p = posting_in(ngrams_after(m, bs, k, sym), #[trigger] bs[j]);
                p.dom().contains(k) && p[k] == sym
            },
    decreases bs.len(),
{
    if bs.len() > 0 {
        let m1 = ngram_step(m, bs[0], k, sym);
        lemma_ngrams_after_covers(m1, bs.drop_first(), k, sym);
        lemma_ngrams_after_same_key(m1, bs.drop_first(), k, sym, bs[0]);
        assert forall|j: int| 0 <= j < bs.len() implies {
            let p = posting_in(ngrams_after(m, bs, k, sym), #[trigger] bs[j]);
            p.dom().contains(k) && p[k] == sym
        } by {
            if j > 0 {
                assert(bs.drop_first()[j - 1] == bs[j]);
            }
        }
    }
}

/// Feeding more bigrams of the same song with the same symbol never
/// changes what is recorded for that song.
proof fn lemma_ngrams_after_same_key(
    m: Map<(char, char), Map<u32, u32>>,
    bs: Seq<(char, char)>,
    k: u32,
    sym: u32,
    b: (char, char),
)
    requires
        posting_in(m, b).dom().contains(k),
        posting_in(m, b)[k] == sym,
    ensures
        posting_in(ngrams_after(m, bs, k, sym), b).dom().contains(k),
        posting_in(ngrams_after(m, bs, k, sym), b)[k] == sym,
    decreases bs.len(),
{
    if bs.len() > 0 {
        let m1 = ngram_step(m, bs[0], k, sym);
        assert(posting_in(m1, b).dom().contains(k) && posting_in(m1, b)[k] == sym);
        lemma_ngrams_after_same_key(m1, bs.drop_first(), k, sym, b);
    }
}

} // verus!
