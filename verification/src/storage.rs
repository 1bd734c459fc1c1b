//! Song records.
//!
//! The scanner hands the core a raw song: plain strings and numbers. The
//! store interns every textual attribute and keeps, for each, its
//! canonical symbol: the symbol recorded in the canonical map for the
//! attribute's sanitized form, which is the symbol of the first raw
//! string seen with that form. Keying the field indexes by canonical
//! symbols is what makes exact-match queries case- and
//! diacritic-insensitive. The symbol of the virtual path is the song's
//! key everywhere in the index.
use vstd::prelude::*;

use crate::interner::{intern, strings_view, CanonicalMap, Strings};
use crate::text::{sanitize, sanitize_str};
use crate::Error;

verus! {

/// A raw song record, as the scanner supplies it.
pub struct Song {
    pub virtual_path: String,
    pub title: Option<String>,
    pub album: Option<String>,
    pub artists: Vec<String>,
    pub album_artists: Vec<String>,
    pub composers: Vec<String>,
    pub genres: Vec<String>,
    pub labels: Vec<String>,
    pub lyricists: Vec<String>,
    pub year: Option<i32>,
    pub track_number: Option<i32>,
    pub disc_number: Option<i32>,
}

impl Default for Song {
    /// A song with no metadata and an empty virtual path.
    fn default() -> (r: Self)
        ensures
            r.virtual_path@ == Seq::<char>::empty(),
            r.title is None,
            r.album is None,
            r.artists@ == Seq::<String>::empty(),
            r.album_artists@ == Seq::<String>::empty(),
            r.composers@ == Seq::<String>::empty(),
            r.genres@ == Seq::<String>::empty(),
            r.labels@ == Seq::<String>::empty(),
            r.lyricists@ == Seq::<String>::empty(),
            r.year is None,
            r.track_number is None,
            r.disc_number is None,
    {
        Song {
            virtual_path: String::new(),
            title: None,
            album: None,
            artists: Vec::new(),
            album_artists: Vec::new(),
            composers: Vec::new(),
            genres: Vec::new(),
            labels: Vec::new(),
            lyricists: Vec::new(),
            year: None,
            track_number: None,
            disc_number: None,
        }
    }
}

/// The interned form of a song: every textual attribute is a canonical
/// symbol, and the virtual-path symbol is the song's key.
pub struct StorageSong {
    pub virtual_path: u32,
    pub title: Option<u32>,
    pub album: Option<u32>,
    pub artists: Vec<u32>,
    pub album_artists: Vec<u32>,
    pub composers: Vec<u32>,
    pub genres: Vec<u32>,
    pub labels: Vec<u32>,
    pub lyricists: Vec<u32>,
    pub year: Option<i32>,
    pub track_number: Option<i32>,
    pub disc_number: Option<i32>,
}

/// `sym` names `s` in the interner contents `v`.
pub open spec fn sym_resolves(v: Seq<Seq<char>>, sym: u32, s: Seq<char>) -> bool {
    sym < v.len() && v[sym as int] == s
}

/// The canonical map is consistent with the interner: every recorded
/// symbol resolves to a string whose sanitized form is its key.
pub open spec fn canon_wf(c: Map<Seq<char>, u32>, v: Seq<Seq<char>>) -> bool {
    forall|s: Seq<char>|
        c.dom().contains(s) ==> (#[trigger] c[s]) < v.len() && sanitize(v[c[s] as int]) == s
}

/// `sym` is the canonical symbol of `raw`: the one the canonical map
/// records for `raw`'s sanitized form.
pub open spec fn canonical_for(c: Map<Seq<char>, u32>, sym: u32, raw: Seq<char>) -> bool {
    c.dom().contains(sanitize(raw)) && c[sanitize(raw)] == sym
}

/// An optional symbol is canonical for an optional string.
pub open spec fn canonical_opt(
    c: Map<Seq<char>, u32>,
    sym: Option<u32>,
    s: Option<String>,
) -> bool {
    match (sym, s) {
        (Some(y), Some(t)) => canonical_for(c, y, t@),
        (None, None) => true,
        _ => false,
    }
}

/// A symbol list is canonical for a string list, element by element.
pub open spec fn canonical_list(c: Map<Seq<char>, u32>, syms: Seq<u32>, ss: Seq<String>) -> bool {
    &&& syms.len() == ss.len()
    &&& forall|i: int| 0 <= i < syms.len() ==> canonical_for(c, #[trigger] syms[i], ss[i]@)
}

/// The interner only gained strings: the old contents are a prefix.
pub open spec fn strings_grew(pre: Seq<Seq<char>>, post: Seq<Seq<char>>) -> bool {
    &&& pre.len() <= post.len()
    &&& post.subrange(0, pre.len() as int) == pre
}

/// Consistency survives growth of the interner.
proof fn lemma_canon_wf_grow(c: Map<Seq<char>, u32>, pre: Seq<Seq<char>>, post: Seq<Seq<char>>)
    requires
        canon_wf(c, pre),
        strings_grew(pre, post),
    ensures
        canon_wf(c, post),
{
    assert forall|s: Seq<char>| c.dom().contains(s) implies (#[trigger] c[s]) < post.len()
        && sanitize(post[c[s] as int]) == s by {
        assert(post.subrange(0, pre.len() as int)[c[s] as int] == post[c[s] as int]);
    }
}

/// One intern step only grows the interner.
proof fn lemma_grow_step(pre: Seq<Seq<char>>, post: Seq<Seq<char>>, s: Seq<char>)
    requires
        post == pre || post == pre.push(s),
    ensures
        strings_grew(pre, post),
{
    assert(post.subrange(0, pre.len() as int) =~= pre);
}

/// A canonical-symbol fact survives additions to the canonical map.
proof fn lemma_canonical_persists(
    c1: Map<Seq<char>, u32>,
    c2: Map<Seq<char>, u32>,
    sym: u32,
    raw: Seq<char>,
)
    requires
        c1.submap_of(c2),
        canonical_for(c1, sym, raw),
    ensures
        canonical_for(c2, sym, raw),
{
    assert(c2.dom().contains(sanitize(raw)) && c2[sanitize(raw)] == sym);
}

proof fn lemma_canonical_opt_persists(
    c1: Map<Seq<char>, u32>,
    c2: Map<Seq<char>, u32>,
    sym: Option<u32>,
    s: Option<String>,
)
    requires
        c1.submap_of(c2),
        canonical_opt(c1, sym, s),
    ensures
        canonical_opt(c2, sym, s),
{
    if sym is Some {
        lemma_canonical_persists(c1, c2, sym->Some_0, s->Some_0@);
    }
}

proof fn lemma_canonical_list_persists(
    c1: Map<Seq<char>, u32>,
    c2: Map<Seq<char>, u32>,
    syms: Seq<u32>,
    ss: Seq<String>,
)
    requires
        c1.submap_of(c2),
        canonical_list(c1, syms, ss),
    ensures
        canonical_list(c2, syms, ss),
{
    assert forall|i: int| 0 <= i < syms.len() implies canonical_for(
        c2,
        #[trigger] syms[i],
        ss[i]@,
    ) by {
        lemma_canonical_persists(c1, c2, syms[i], ss[i]@);
    }
}

/// Interns `raw`; records its symbol for `sanitize(raw)` in the
/// canonical map unless an earlier string already claimed that sanitized
/// form (the first writer wins); and returns the canonical symbol now
/// recorded for that form. Returns nothing when the interner is
/// exhausted, and then nothing changed.
pub fn canonicalize(strings: &mut Strings, canon: &mut CanonicalMap, raw: &str) -> (r: Option<
    u32,
>)
    ensures
        match r {
            Some(sym) => {
                &&& (if strings_view(old(strings)).contains(raw@) {
                    strings_view(final(strings)) == strings_view(old(strings))
                } else {
                    strings_view(final(strings)) == strings_view(old(strings)).push(raw@)
                })
                &&& strings_view(final(strings)).len() <= crate::interner::sym_cap()
                &&& (if old(canon)@.dom().contains(sanitize(raw@)) {
                    final(canon)@ == old(canon)@ && sym == old(canon)@[sanitize(raw@)]
                } else {
                    final(canon)@ == old(canon)@.insert(sanitize(raw@), sym) && sym_resolves(
                        strings_view(final(strings)),
                        sym,
                        raw@,
                    )
                })
                &&& canonical_for(final(canon)@, sym, raw@)
                &&& old(canon)@.submap_of(final(canon)@)
                &&& (canon_wf(old(canon)@, strings_view(old(strings))) ==> canon_wf(
                    final(canon)@,
                    strings_view(final(strings)),
                ))
            },
            None => {
                &&& strings_view(final(strings)) == strings_view(old(strings))
                &&& final(canon)@ == old(canon)@
            },
        },
{
    let raw_sym = match intern(strings, raw) {
        Some(sym) => sym,
        None => {
            return None;
        },
    };
    proof {
        lemma_grow_step(strings_view(old(strings)), strings_view(strings), raw@);
    }
    let s = sanitize_str(raw);
    match canon.get(&s) {
        Some(sym) => {
            proof {
                if canon_wf(old(canon)@, strings_view(old(strings))) {
                    lemma_canon_wf_grow(
                        old(canon)@,
                        strings_view(old(strings)),
                        strings_view(strings),
                    );
                }
            }
            Some(sym)
        },
        None => {
            canon.insert_if_absent(s, raw_sym);
            proof {
                if canon_wf(old(canon)@, strings_view(old(strings))) {
                    lemma_canon_wf_grow(
                        old(canon)@,
                        strings_view(old(strings)),
                        strings_view(strings),
                    );
                }
            }
            Some(raw_sym)
        },
    }
}

/// Interns every textual attribute of `song` (the list-valued attributes
/// element by element, in order, duplicates kept) and stores the
/// canonical symbol of each; interns the virtual path and stores its own
/// symbol as the song's key; copies the numbers through. Fails only when
/// the interner cannot accept another string; the data itself is never
/// rejected.
pub fn store_song(strings: &mut Strings, canon: &mut CanonicalMap, song: &Song) -> (r: Result<
    StorageSong,
    Error,
>)
    ensures
        match r {
            Ok(st) => {
                &&& sym_resolves(strings_view(final(strings)), st.virtual_path, song.virtual_path@)
                &&& canonical_opt(final(canon)@, st.title, song.title)
                &&& canonical_opt(final(canon)@, st.album, song.album)
                &&& canonical_list(final(canon)@, st.artists@, song.artists@)
                &&& canonical_list(final(canon)@, st.album_artists@, song.album_artists@)
                &&& canonical_list(final(canon)@, st.composers@, song.composers@)
                &&& canonical_list(final(canon)@, st.genres@, song.genres@)
                &&& canonical_list(final(canon)@, st.labels@, song.labels@)
                &&& canonical_list(final(canon)@, st.lyricists@, song.lyricists@)
                &&& st.year == song.year
                &&& st.track_number == song.track_number
                &&& st.disc_number == song.disc_number
                &&& old(canon)@.submap_of(final(canon)@)
                &&& (canon_wf(old(canon)@, strings_view(old(strings))) ==> canon_wf(
                    final(canon)@,
                    strings_view(final(strings)),
                ))
            },
            Err(e) => e == Error::InternerExhausted,
        },
{
    let title = match canonicalize_opt(strings, canon, &song.title) {
        Ok(t) => t,
        Err(e) => {
            return Err(e);
        },
    };
    let ghost c1 = canon@;
    let album = match canonicalize_opt(strings, canon, &song.album) {
        Ok(t) => t,
        Err(e) => {
            return Err(e);
        },
    };
    let ghost c2 = canon@;
    let artists = match canonicalize_list(strings, canon, &song.artists) {
        Ok(t) => t,
        Err(e) => {
            return Err(e);
        },
    };
    let ghost c3 = canon@;
    let album_artists = match canonicalize_list(strings, canon, &song.album_artists) {
        Ok(t) => t,
        Err(e) => {
            return Err(e);
        },
    };
    let ghost c4 = canon@;
    let composers = match canonicalize_list(strings, canon, &song.composers) {
        Ok(t) => t,
        Err(e) => {
            return Err(e);
        },
    };
    let ghost c5 = canon@;
    let genres = match canonicalize_list(strings, canon, &song.genres) {
        Ok(t) => t,
        Err(e) => {
            return Err(e);
        },
    };
    let ghost c6 = canon@;
    let labels = match canonicalize_list(strings, canon, &song.labels) {
        Ok(t) => t,
        Err(e) => {
            return Err(e);
        },
    };
    let ghost c7 = canon@;
    let lyricists = match canonicalize_list(strings, canon, &song.lyricists) {
        Ok(t) => t,
        Err(e) => {
            return Err(e);
        },
    };
    let ghost c8 = canon@;
    let ghost v8 = strings_view(strings);
    let virtual_path = match intern(strings, song.virtual_path.as_str()) {
        Some(sym) => sym,
        None => {
            return Err(Error::InternerExhausted);
        },
    };
    proof {
        let cf = canon@;
        assert(c8 == cf);
        vstd::map_lib::lemma_submap_of_trans(c7, c8, cf);
        vstd::map_lib::lemma_submap_of_trans(c6, c7, cf);
        vstd::map_lib::lemma_submap_of_trans(c5, c6, cf);
        vstd::map_lib::lemma_submap_of_trans(c4, c5, cf);
        vstd::map_lib::lemma_submap_of_trans(c3, c4, cf);
        vstd::map_lib::lemma_submap_of_trans(c2, c3, cf);
        vstd::map_lib::lemma_submap_of_trans(c1, c2, cf);
        vstd::map_lib::lemma_submap_of_trans(old(canon)@, c1, cf);
        lemma_canonical_opt_persists(c1, cf, title, song.title);
        lemma_canonical_opt_persists(c2, cf, album, song.album);
        lemma_canonical_list_persists(c3, cf, artists@, song.artists@);
        lemma_canonical_list_persists(c4, cf, album_artists@, song.album_artists@);
        lemma_canonical_list_persists(c5, cf, composers@, song.composers@);
        lemma_canonical_list_persists(c6, cf, genres@, song.genres@);
        lemma_canonical_list_persists(c7, cf, labels@, song.labels@);
        lemma_canonical_list_persists(c8, cf, lyricists@, song.lyricists@);
        lemma_grow_step(v8, strings_view(strings), song.virtual_path@);
        if canon_wf(old(canon)@, strings_view(old(strings))) {
            lemma_canon_wf_grow(cf, v8, strings_view(strings));
        }
    }
    Ok(
        StorageSong {
            virtual_path,
            title,
            album,
            artists,
            album_artists,
            composers,
            genres,
            labels,
            lyricists,
            year: song.year,
            track_number: song.track_number,
            disc_number: song.disc_number,
        },
    )
}

/// Canonicalizes an optional attribute.
fn canonicalize_opt(strings: &mut Strings, canon: &mut CanonicalMap, s: &Option<String>) -> (r:
    Result<Option<u32>, Error>)
    ensures
        match r {
            Ok(sym) => canonical_opt(final(canon)@, sym, *s),
            Err(e) => e == Error::InternerExhausted,
        },
        old(canon)@.submap_of(final(canon)@),
        canon_wf(old(canon)@, strings_view(old(strings))) ==> canon_wf(
            final(canon)@,
            strings_view(final(strings)),
        ),
{
    match s {
        Some(t) => match canonicalize(strings, canon, t.as_str()) {
            Some(sym) => Ok(Some(sym)),
            None => Err(Error::InternerExhausted),
        },
        None => Ok(None),
    }
}

/// Canonicalizes a list attribute element by element, in order.
fn canonicalize_list(strings: &mut Strings, canon: &mut CanonicalMap, ss: &Vec<String>) -> (r:
    Result<Vec<u32>, Error>)
    ensures
        match r {
            Ok(syms) => canonical_list(final(canon)@, syms@, ss@),
            Err(e) => e == Error::InternerExhausted,
        },
        old(canon)@.submap_of(final(canon)@),
        canon_wf(old(canon)@, strings_view(old(strings))) ==> canon_wf(
            final(canon)@,
            strings_view(final(strings)),
        ),
{
    let mut syms: Vec<u32> = Vec::new();
    let mut i: usize = 0;
    while i < ss.len()
        invariant
            i <= ss@.len(),
            syms@.len() == i,
            old(canon)@.submap_of(canon@),
            canon_wf(old(canon)@, strings_view(old(strings))) ==> canon_wf(
                canon@,
                strings_view(strings),
            ),
            canonical_list(canon@, syms@, ss@.subrange(0, i as int)),
        decreases ss@.len() - i,
    {
        let ghost cmid = canon@;
        match canonicalize(strings, canon, ss[i].as_str()) {
            Some(sym) => {
                syms.push(sym);
                proof {
                    vstd::map_lib::lemma_submap_of_trans(old(canon)@, cmid, canon@);
                    lemma_canonical_list_persists(
                        cmid,
                        canon@,
                        syms@.drop_last(),
                        ss@.subrange(0, i as int),
                    );
                    assert(syms@.drop_last() =~= syms@.subrange(0, i as int));
                    assert(ss@.subrange(0, i + 1).drop_last() =~= ss@.subrange(0, i as int));
                    assert(canonical_list(canon@, syms@, ss@.subrange(0, i + 1))) by {
                        assert(forall|t: int|
                            0 <= t < i ==> #[trigger] syms@[t] == syms@.subrange(0, i as int)[t]);
                        assert(syms@[i as int] == sym);
                    }
                }
                i = i + 1;
            },
            None => {
                return Err(Error::InternerExhausted);
            },
        }
    }
    proof {
        assert(ss@.subrange(0, i as int) =~= ss@);
    }
    Ok(syms)
}

} // verus!
