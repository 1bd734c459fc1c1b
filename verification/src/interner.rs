//! The string interner and the canonical map.
//!
//! Every user-visible string is stored once, in a `lasso2` interner, and
//! is referred to everywhere else by a compact symbol: its index in the
//! interner, as a `u32`. The interner is mutable while the collection is
//! built and is then frozen into a read-only reader; symbols stay valid
//! across the freeze. The canonical map remembers, for each sanitized
//! form, the symbol of the first raw string that sanitized to it, so
//! that exact-match lookups are case- and diacritic-insensitive.
use vstd::prelude::*;

verus! {

/// Interner capacity: `lasso2` assigns 32-bit keys whose indexes stay
/// below `u32::MAX`, so it never holds more strings than this.
pub open spec fn sym_cap() -> nat {
    0xFFFF_FFFF
}

#[verifier::external_type_specification]
#[verifier::external_body]
#[verifier::reject_recursive_types(K)]
#[verifier::reject_recursive_types(S)]
pub struct ExRodeo<K, S>(lasso2::Rodeo<K, S>);

#[verifier::external_type_specification]
#[verifier::external_body]
#[verifier::reject_recursive_types(K)]
#[verifier::reject_recursive_types(S)]
pub struct ExRodeoReader<K, S>(lasso2::RodeoReader<K, S>);

#[verifier::external_type_specification]
#[verifier::external_body]
pub struct ExSpur(lasso2::Spur);

/// The mutable phase of the interner.
pub type Strings = lasso2::Rodeo<lasso2::Spur, std::collections::hash_map::RandomState>;

/// The frozen, read-only phase of the interner.
pub type StringsReader = lasso2::RodeoReader<lasso2::Spur, std::collections::hash_map::RandomState>;

/// The strings a mutable interner holds, in insertion order; the symbol
/// of a string is its index here.
pub uninterp spec fn strings_view(r: &Strings) -> Seq<Seq<char>>;

/// The strings a frozen interner holds, in insertion order.
pub uninterp spec fn reader_view(r: &StringsReader) -> Seq<Seq<char>>;

/// Relies on `lasso2::Rodeo::new`: a fresh interner holds no strings.
#[verifier::external_body]
pub(crate) fn strings_new() -> (r: Strings)
    ensures
        strings_view(&r) == Seq::<Seq<char>>::empty(),
{
    lasso2::Rodeo::new()
}

/// Relies on `lasso2::Rodeo::try_get_or_intern`: it returns the key of a
/// string already held, or appends the string with the next sequential
/// key (`lasso2::Spur` keys are the 0-based insertion indexes); it fails
/// only on key-space exhaustion or allocation failure, changing nothing.
#[verifier::external_body]
pub(crate) fn intern(r: &mut Strings, s: &str) -> (res: Option<u32>)
    ensures
        match res {
            Some(sym) => {
                &&& sym < strings_view(final(r)).len()
                &&& strings_view(final(r))[sym as int] == s@
                &&& strings_view(final(r)).len() <= sym_cap()
                &&& if strings_view(old(r)).contains(s@) {
                    strings_view(final(r)) == strings_view(old(r))
                } else {
                    strings_view(final(r)) == strings_view(old(r)).push(s@) && sym
                        == strings_view(old(r)).len()
                }
            },
            None => strings_view(final(r)) == strings_view(old(r)),
        },
{
    match r.try_get_or_intern(s) {
        Ok(k) => Some(lasso2::Key::into_usize(k) as u32),
        Err(_) => None,
    }
}

/// Relies on `lasso2::Rodeo::into_reader`: freezing moves the stored
/// strings unchanged into the read-only reader.
#[verifier::external_body]
pub(crate) fn freeze(r: Strings) -> (rd: StringsReader)
    ensures
        reader_view(&rd) == strings_view(&r),
{
    r.into_reader()
}

/// Relies on `lasso2::RodeoReader::try_resolve` and
/// `lasso2::Spur::try_from_usize`: a symbol below the number of stored
/// strings resolves to the string at that index; any other symbol
/// resolves to nothing.
#[verifier::external_body]
pub(crate) fn resolve(r: &StringsReader, sym: u32) -> (res: Option<String>)
    ensures
        match res {
            Some(t) => sym < reader_view(r).len() && t@ == reader_view(r)[sym as int],
            None => sym >= reader_view(r).len(),
        },
{
    match <lasso2::Spur as lasso2::Key>::try_from_usize(sym as usize) {
        Some(key) => r.try_resolve(&key).map(|t| t.to_owned()),
        None => None,
    }
}

/// The canonical map: for each sanitized string, the symbol of the first
/// raw string seen whose sanitized form it is.
pub struct CanonicalMap {
    entries: Vec<(Vec<char>, u32)>,
}

impl CanonicalMap {
    /// The association held: sanitized form to canonical symbol.
    pub closed spec fn view(&self) -> Map<Seq<char>, u32> {
        Self::assoc(self.entries@)
    }

    pub closed spec fn assoc(s: Seq<(Vec<char>, u32)>) -> Map<Seq<char>, u32>
        decreases s.len(),
    {
        if s.len() == 0 {
            Map::empty()
        } else {
            Self::assoc(s.drop_last()).insert(s.last().0@, s.last().1)
        }
    }

    /// Every symbol in the map is below `bound`.
    pub open spec fn syms_below(&self, bound: nat) -> bool {
        forall|k: Seq<char>| self@.dom().contains(k) ==> (#[trigger] self@[k]) < bound
    }

    pub fn new() -> (r: Self)
        ensures
            r@ == Map::<Seq<char>, u32>::empty(),
    {
        CanonicalMap { entries: Vec::new() }
    }

    /// Looks up the canonical symbol recorded for a sanitized form.
    pub fn get(&self, key: &Vec<char>) -> (r: Option<u32>)
        ensures
            match r {
                Some(sym) => self@.dom().contains(key@) && self@[key@] == sym,
                None => !self@.dom().contains(key@),
            },
    {
        let ghost full = self.entries@;
        let mut i: usize = self.entries.len();
        proof {
            assert(full.subrange(0, full.len() as int) =~= full);
        }
        while i > 0
            invariant
                full == self.entries@,
                i <= full.len(),
                Self::assoc(full).dom().contains(key@) == Self::assoc(
                    full.subrange(0, i as int),
                ).dom().contains(key@),
                Self::assoc(full).dom().contains(key@) ==> Self::assoc(full)[key@] == Self::assoc(
                    full.subrange(0, i as int),
                )[key@],
            decreases i,
        {
            i = i - 1;
            proof {
                assert(full.subrange(0, i + 1).drop_last() =~= full.subrange(0, i as int));
                assert(full.subrange(0, i + 1).last() == full[i as int]);
            }
            if crate::text::eq_chars(&self.entries[i].0, key) {
                return Some(self.entries[i].1);
            }
        }
        proof {
            assert(full.subrange(0, 0) =~= Seq::<(Vec<char>, u32)>::empty());
        }
        None
    }

    /// Records `sym` for `key` unless an earlier entry already claimed it:
    /// the first writer wins.
    pub fn insert_if_absent(&mut self, key: Vec<char>, sym: u32) -> (added: bool)
        ensures
            added == !old(self)@.dom().contains(key@),
            final(self)@ == if added {
                old(self)@.insert(key@, sym)
            } else {
                old(self)@
            },
            forall|b: nat| old(self).syms_below(b) && sym < b ==> final(self).syms_below(b),
    {
        let present = match self.get(&key) {
            Some(_) => true,
            None => false,
        };
        if present {
            return false;
        }
        let ghost pre = self.entries@;
        self.entries.push((key, sym));
        proof {
            assert(self.entries@.drop_last() =~= pre);
        }
        true
    }
}

} // verus!
