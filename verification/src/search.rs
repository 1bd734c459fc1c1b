//! The frozen search index and its builder, and the query evaluator.
use vstd::prelude::*;

use crate::index::{bigrams, ngrams_after, NumberFieldIndex, TextFieldIndex};
use crate::interner::{reader_view, resolve, CanonicalMap, StringsReader};
use crate::query::{
    expr_view, int_of, parse_spec, parse_query, BoolOp, Expr, Literal, NumberField, NumberOp,
    SExpr, SLiteral, TextField, TextOp,
};
use crate::sets::KeySet;
use crate::storage::{Song, StorageSong};
use crate::text::{contains_seq, sanitize};
use crate::Error;

verus! {

/// The decimal digit character of a value below ten.
pub open spec fn digit_char(d: int) -> char {
    if d == 0 {
        '0'
    } else if d == 1 {
        '1'
    } else if d == 2 {
        '2'
    } else if d == 3 {
        '3'
    } else if d == 4 {
        '4'
    } else if d == 5 {
        '5'
    } else if d == 6 {
        '6'
    } else if d == 7 {
        '7'
    } else if d == 8 {
        '8'
    } else {
        '9'
    }
}

/// The decimal digits of a natural number, most significant first.
pub open spec fn dec_nat(n: int) -> Seq<char>
    decreases n,
{
    if n < 10 {
        seq![digit_char(n)]
    } else {
        dec_nat(n / 10).push(digit_char(n % 10))
    }
}

/// The decimal rendering of a 32-bit integer.
pub open spec fn dec_i32(n: i32) -> Seq<char> {
    if n < 0 {
        seq!['-'].add(dec_nat(-(n as int)))
    } else {
        dec_nat(n as int)
    }
}

fn digit_char_exec(d: u32) -> (r: char)
    requires
        d < 10,
    ensures
        r == digit_char(d as int),
{
    if d == 0 {
        '0'
    } else if d == 1 {
        '1'
    } else if d == 2 {
        '2'
    } else if d == 3 {
        '3'
    } else if d == 4 {
        '4'
    } else if d == 5 {
        '5'
    } else if d == 6 {
        '6'
    } else if d == 7 {
        '7'
    } else if d == 8 {
        '8'
    } else {
        '9'
    }
}

fn dec_u32(n: u32) -> (r: Vec<char>)
    ensures
        r@ == dec_nat(n as int),
    decreases n,
{
    if n < 10 {
        let mut r: Vec<char> = Vec::new();
        r.push(digit_char_exec(n));
        proof {
            assert(r@ =~= seq![digit_char(n as int)]);
        }
        r
    } else {
        let mut r = dec_u32(n / 10);
        r.push(digit_char_exec(n % 10));
        r
    }
}

fn dec_i32_exec(n: i32) -> (r: Vec<char>)
    ensures
        r@ == dec_i32(n),
{
    if n < 0 {
        let m: u32 = (-(n as i64)) as u32;
        let mut r: Vec<char> = Vec::new();
        r.push('-');
        let ds = dec_u32(m);
        crate::query::append_chars(&mut r, &ds);
        proof {
            assert(r@ =~= seq!['-'].add(dec_nat(-(n as int))));
        }
        r
    } else {
        dec_u32(n as u32)
    }
}

/// The frozen search index: one index per text field, one per number
/// field.
pub struct Search {
    pub album: TextFieldIndex,
    pub album_artist: TextFieldIndex,
    pub artist: TextFieldIndex,
    pub composer: TextFieldIndex,
    pub genre: TextFieldIndex,
    pub label: TextFieldIndex,
    pub lyricist: TextFieldIndex,
    pub path: TextFieldIndex,
    pub title: TextFieldIndex,
    pub year: NumberFieldIndex,
    pub track_number: NumberFieldIndex,
    pub disc_number: NumberFieldIndex,
}

impl Search {
    pub open spec fn wf(&self) -> bool {
        &&& self.album.wf()
        &&& self.album_artist.wf()
        &&& self.artist.wf()
        &&& self.composer.wf()
        &&& self.genre.wf()
        &&& self.label.wf()
        &&& self.lyricist.wf()
        &&& self.path.wf()
        &&& self.title.wf()
        &&& self.year.wf()
        &&& self.track_number.wf()
        &&& self.disc_number.wf()
    }

    /// The index of a text field.
    pub open spec fn text_index(&self, f: TextField) -> TextFieldIndex {
        match f {
            TextField::Album => self.album,
            TextField::AlbumArtist => self.album_artist,
            TextField::Artist => self.artist,
            TextField::Composer => self.composer,
            TextField::Genre => self.genre,
            TextField::Label => self.label,
            TextField::Lyricist => self.lyricist,
            TextField::Path => self.path,
            TextField::Title => self.title,
        }
    }

    /// The index of a number field.
    pub open spec fn number_index(&self, f: NumberField) -> NumberFieldIndex {
        match f {
            NumberField::Year => self.year,
            NumberField::TrackNumber => self.track_number,
            NumberField::DiscNumber => self.disc_number,
        }
    }

    fn text_index_ref(&self, f: TextField) -> (r: &TextFieldIndex)
        ensures
            *r == self.text_index(f),
    {
        match f {
            TextField::Album => &self.album,
            TextField::AlbumArtist => &self.album_artist,
            TextField::Artist => &self.artist,
            TextField::Composer => &self.composer,
            TextField::Genre => &self.genre,
            TextField::Label => &self.label,
            TextField::Lyricist => &self.lyricist,
            TextField::Path => &self.path,
            TextField::Title => &self.title,
        }
    }

    fn number_index_ref(&self, f: NumberField) -> (r: &NumberFieldIndex)
        ensures
            *r == self.number_index(f),
    {
        match f {
            NumberField::Year => &self.year,
            NumberField::TrackNumber => &self.track_number,
            NumberField::DiscNumber => &self.disc_number,
        }
    }

    /// A fuzzy text term matches in any text field: the union of the
    /// fuzzy matches of every field.
    pub open spec fn fuzzy_text_spec(&self, reader: &StringsReader, t: Seq<char>) -> Set<u32> {
        self.album.find_like_spec(reader, t).union(
            self.album_artist.find_like_spec(reader, t),
        ).union(self.artist.find_like_spec(reader, t)).union(
            self.composer.find_like_spec(reader, t),
        ).union(self.genre.find_like_spec(reader, t)).union(
            self.label.find_like_spec(reader, t),
        ).union(self.lyricist.find_like_spec(reader, t)).union(
            self.path.find_like_spec(reader, t),
        ).union(self.title.find_like_spec(reader, t))
    }

    /// The songs carrying a number in any number field.
    pub open spec fn number_buckets_spec(&self, n: i32) -> Set<u32> {
        self.year.find_equal_spec(n).union(self.track_number.find_equal_spec(n)).union(
            self.disc_number.find_equal_spec(n),
        )
    }

    /// A fuzzy text term matches in any text field; when the text also
    /// reads as a 32-bit integer, it matches the number fields carrying
    /// that integer as well.
    pub open spec fn fuzzy_text_term_spec(&self, reader: &StringsReader, t: Seq<char>) -> Set<
        u32,
    > {
        match int_of(t) {
            Some(n) => self.fuzzy_text_spec(reader, t).union(self.number_buckets_spec(n)),
            None => self.fuzzy_text_spec(reader, t),
        }
    }

    /// A fuzzy number term matches songs carrying the number in any
    /// number field, and songs matched by its decimal rendering as a
    /// fuzzy text term.
    pub open spec fn fuzzy_number_spec(&self, reader: &StringsReader, n: i32) -> Set<u32> {
        self.number_buckets_spec(n).union(self.fuzzy_text_term_spec(reader, dec_i32(n)))
    }

    /// What a parsed query evaluates to: a set of song keys. Number
    /// comparisons other than equality are not supported in this revision
    /// and match nothing.
    pub open spec fn eval_spec(
        &self,
        reader: &StringsReader,
        canon: &CanonicalMap,
        e: SExpr,
    ) -> Set<u32>
        decreases e,
    {
        match e {
            SExpr::Fuzzy(l) => match l {
                SLiteral::Text(t) => self.fuzzy_text_term_spec(reader, t),
                SLiteral::Number(n) => self.fuzzy_number_spec(reader, n),
            },
            SExpr::TextCmp(f, op, t) => match op {
                TextOp::Eq => self.text_index(f).find_exact_spec(canon, t),
                TextOp::Like => self.text_index(f).find_like_spec(reader, t),
            },
            SExpr::NumberCmp(f, op, n) => match op {
                NumberOp::Eq => self.number_index(f).find_equal_spec(n),
                _ => Set::empty(),
            },
            SExpr::Combined(a, op, b) => match op {
                BoolOp::And => self.eval_spec(reader, canon, *a).intersect(
                    self.eval_spec(reader, canon, *b),
                ),
                BoolOp::Or => self.eval_spec(reader, canon, *a).union(
                    self.eval_spec(reader, canon, *b),
                ),
            },
        }
    }

    fn eval_fuzzy_text(&self, reader: &StringsReader, t: &Vec<char>) -> (r: KeySet)
        requires
            self.wf(),
        ensures
            r.wf(),
            r@ == self.fuzzy_text_spec(reader, t@),
    {
        let mut songs = self.album.find_like_chars(reader, t);
        songs.union_with(&self.album_artist.find_like_chars(reader, t));
        songs.union_with(&self.artist.find_like_chars(reader, t));
        songs.union_with(&self.composer.find_like_chars(reader, t));
        songs.union_with(&self.genre.find_like_chars(reader, t));
        songs.union_with(&self.label.find_like_chars(reader, t));
        songs.union_with(&self.lyricist.find_like_chars(reader, t));
        songs.union_with(&self.path.find_like_chars(reader, t));
        songs.union_with(&self.title.find_like_chars(reader, t));
        songs
    }

    fn eval_fuzzy_text_term(&self, reader: &StringsReader, t: &Vec<char>) -> (r: KeySet)
        requires
            self.wf(),
        ensures
            r.wf(),
            r@ == self.fuzzy_text_term_spec(reader, t@),
    {
        let mut songs = self.eval_fuzzy_text(reader, t);
        match crate::query::int_of_exec(t) {
            Some(n) => {
                songs.union_with(&self.year.find_equal(n));
                songs.union_with(&self.track_number.find_equal(n));
                songs.union_with(&self.disc_number.find_equal(n));
                proof {
                    assert(songs@ =~= self.fuzzy_text_term_spec(reader, t@));
                }
            },
            None => {},
        }
        songs
    }

    /// Evaluates a parsed expression against the index.
    pub fn eval(&self, reader: &StringsReader, canon: &CanonicalMap, e: &Expr) -> (r: KeySet)
        requires
            self.wf(),
        ensures
            r.wf(),
            r@ == self.eval_spec(reader, canon, expr_view(e)),
        decreases e,
    {
        match e {
            Expr::Fuzzy(l) => match l {
                Literal::Text(t) => self.eval_fuzzy_text_term(reader, t),
                Literal::Number(n) => {
                    let mut songs = self.year.find_equal(*n);
                    songs.union_with(&self.track_number.find_equal(*n));
                    songs.union_with(&self.disc_number.find_equal(*n));
                    let rendered = dec_i32_exec(*n);
                    songs.union_with(&self.eval_fuzzy_text_term(reader, &rendered));
                    songs
                },
            },
            Expr::TextCmp(f, op, t) => {
                let idx = self.text_index_ref(*f);
                match op {
                    TextOp::Eq => idx.find_exact_chars(canon, t),
                    TextOp::Like => idx.find_like_chars(reader, t),
                }
            },
            Expr::NumberCmp(f, op, n) => {
                let idx = self.number_index_ref(*f);
                match op {
                    NumberOp::Eq => idx.find_equal(*n),
                    _ => KeySet::new(),
                }
            },
            Expr::Combined(a, op, b) => {
                let left = self.eval(reader, canon, a);
                let right = self.eval(reader, canon, b);
                match op {
                    BoolOp::And => left.intersect(&right),
                    BoolOp::Or => {
                        let mut songs = left;
                        songs.union_with(&right);
                        songs
                    },
                }
            },
        }
    }

    /// Parses and evaluates a query and resolves the matching songs to
    /// their virtual paths, in unspecified order. A malformed query is a
    /// parse error; a song key missing from the reader aborts the query,
    /// which cannot happen when the index was built with that reader's
    /// strings.
    pub fn find_songs(
        &self,
        reader: &StringsReader,
        canon: &CanonicalMap,
        query: &str,
    ) -> (r: Result<Vec<String>, Error>)
        requires
            self.wf(),
        ensures
            match r {
                Ok(paths) => {
                    &&& parse_spec(query@) is Some
                    &&& exists|ks: Seq<u32>|
                        {
                            &&& #[trigger] ks.to_set() == self.eval_spec(
                                reader,
                                canon,
                                parse_spec(query@)->Some_0,
                            )
                            &&& ks.no_duplicates()
                            &&& paths@.map_values(|p: String| p@) == ks.map_values(
                                |k: u32| reader_view(reader)[k as int],
                            )
                        }
                },
                Err(e) => match e {
                    Error::SearchQueryParseError => parse_spec(query@) is None,
                    Error::SongNotFound => parse_spec(query@) is Some && exists|k: u32|
                        self.eval_spec(reader, canon, parse_spec(query@)->Some_0).contains(k) && k
                            >= reader_view(reader).len(),
                    _ => false,
                },
            },
    {
        let e = match parse_query(query) {
            Ok(e) => e,
            Err(err) => {
                return Err(err);
            },
        };
        let keys = self.eval(reader, canon, &e);
        let kv = keys.to_vec();
        let mut paths: Vec<String> = Vec::new();
        let mut i: usize = 0;
        while i < kv.len()
            invariant
                self.wf(),
                kv@.no_duplicates(),
                kv@.to_set() == self.eval_spec(reader, canon, expr_view(&e)),
                parse_spec(query@) == Some(expr_view(&e)),
                i <= kv@.len(),
                paths@.len() == i,
                forall|t: int|
                    0 <= t < i ==> (#[trigger] paths@[t])@ == reader_view(reader)[kv@[t] as int],
            decreases kv@.len() - i,
        {
            let k = kv[i];
            match resolve(reader, k) {
                Some(p) => {
                    paths.push(p);
                },
                None => {
                    proof {
                        assert(kv@.contains(kv@[i as int]));
                        assert(parse_spec(query@) == Some(expr_view(&e)));
                        assert(kv@.to_set().contains(kv@[i as int]));
                        assert(self.eval_spec(reader, canon, parse_spec(query@)->Some_0).contains(
                            kv@[i as int],
                        ) && kv@[i as int] >= reader_view(reader).len());
                    }
                    return Err(Error::SongNotFound);
                },
            }
            i = i + 1;
        }
        proof {
            assert(paths@.map_values(|p: String| p@) =~= kv@.map_values(
                |k: u32| reader_view(reader)[k as int],
            ));
        }
        Ok(paths)
    }
}

/// Every field index of the search is empty.
pub open spec fn empty_search(s: &Search) -> bool {
    &&& s.album.exact_view() == Map::<u32, Set<u32>>::empty()
    &&& s.album.ngram_view() == Map::<(char, char), Map<u32, u32>>::empty()
    &&& s.album_artist.exact_view() == Map::<u32, Set<u32>>::empty()
    &&& s.album_artist.ngram_view() == Map::<(char, char), Map<u32, u32>>::empty()
    &&& s.artist.exact_view() == Map::<u32, Set<u32>>::empty()
    &&& s.artist.ngram_view() == Map::<(char, char), Map<u32, u32>>::empty()
    &&& s.composer.exact_view() == Map::<u32, Set<u32>>::empty()
    &&& s.composer.ngram_view() == Map::<(char, char), Map<u32, u32>>::empty()
    &&& s.genre.exact_view() == Map::<u32, Set<u32>>::empty()
    &&& s.genre.ngram_view() == Map::<(char, char), Map<u32, u32>>::empty()
    &&& s.label.exact_view() == Map::<u32, Set<u32>>::empty()
    &&& s.label.ngram_view() == Map::<(char, char), Map<u32, u32>>::empty()
    &&& s.lyricist.exact_view() == Map::<u32, Set<u32>>::empty()
    &&& s.lyricist.ngram_view() == Map::<(char, char), Map<u32, u32>>::empty()
    &&& s.path.exact_view() == Map::<u32, Set<u32>>::empty()
    &&& s.path.ngram_view() == Map::<(char, char), Map<u32, u32>>::empty()
    &&& s.title.exact_view() == Map::<u32, Set<u32>>::empty()
    &&& s.title.ngram_view() == Map::<(char, char), Map<u32, u32>>::empty()
    &&& s.year@ == Map::<i32, Set<u32>>::empty()
    &&& s.track_number@ == Map::<i32, Set<u32>>::empty()
    &&& s.disc_number@ == Map::<i32, Set<u32>>::empty()
}

impl Default for Search {
    /// An index with every field empty.
    fn default() -> (r: Self)
        ensures
            r.wf(),
            empty_search(&r),
    {
        Search {
            album: TextFieldIndex::new(),
            album_artist: TextFieldIndex::new(),
            artist: TextFieldIndex::new(),
            composer: TextFieldIndex::new(),
            genre: TextFieldIndex::new(),
            label: TextFieldIndex::new(),
            lyricist: TextFieldIndex::new(),
            path: TextFieldIndex::new(),
            title: TextFieldIndex::new(),
            year: NumberFieldIndex::new(),
            track_number: NumberFieldIndex::new(),
            disc_number: NumberFieldIndex::new(),
        }
    }
}

/// Relation: `post` is `pre` after one value was fed into a text field
/// index for one song.
pub open spec fn inserted_text(
    pre: TextFieldIndex,
    post: TextFieldIndex,
    raw: Seq<char>,
    sym: u32,
    key: u32,
) -> bool {
    &&& post.ngram_view() == ngrams_after(pre.ngram_view(), bigrams(sanitize(raw)), key, sym)
    &&& post.exact_view() == pre.exact_view().insert(sym, pre.exact_bucket(sym).insert(key))
}

/// Relation: `post` is `pre` after a list of values was fed in, pairwise
/// with their symbols, left to right.
pub open spec fn inserted_list(
    pre: TextFieldIndex,
    post: TextFieldIndex,
    raws: Seq<String>,
    syms: Seq<u32>,
    key: u32,
) -> bool
    decreases raws.len(),
{
    if raws.len() == 0 || syms.len() == 0 {
        post == pre
    } else {
        exists|mid: TextFieldIndex|
            #[trigger] inserted_text(pre, mid, raws[0]@, syms[0], key) && inserted_list(
                mid,
                post,
                raws.drop_first(),
                syms.drop_first(),
                key,
            )
    }
}

/// Relation: one optional value was fed in when both the raw string and
/// the symbol are present.
pub open spec fn inserted_opt(
    pre: TextFieldIndex,
    post: TextFieldIndex,
    raw: Option<String>,
    sym: Option<u32>,
    key: u32,
) -> bool {
    match (raw, sym) {
        (Some(t), Some(y)) => inserted_text(pre, post, t@, y, key),
        _ => post == pre,
    }
}

/// Accumulates field indexes while the collection is scanned, and seals
/// them into a `Search`.
pub struct Builder {
    search: Search,
}

impl Builder {
    /// The index built so far.
    pub closed spec fn view(&self) -> Search {
        self.search
    }

    pub open spec fn wf(&self) -> bool {
        self@.wf()
    }

    /// Feeds one song into every field index it has a value for. The
    /// song's key is its virtual-path symbol.
    pub fn add_song(&mut self, scanner_song: &Song, storage_song: &StorageSong)
        requires
            old(self).wf(),
            scanner_song.artists@.len() == storage_song.artists@.len(),
            scanner_song.album_artists@.len() == storage_song.album_artists@.len(),
            scanner_song.composers@.len() == storage_song.composers@.len(),
            scanner_song.genres@.len() == storage_song.genres@.len(),
            scanner_song.labels@.len() == storage_song.labels@.len(),
            scanner_song.lyricists@.len() == storage_song.lyricists@.len(),
        ensures
            final(self).wf(),
            inserted_opt(
                old(self)@.album,
                final(self)@.album,
                scanner_song.album,
                storage_song.album,
                storage_song.virtual_path,
            ),
            inserted_list(
                old(self)@.album_artist,
                final(self)@.album_artist,
                scanner_song.album_artists@,
                storage_song.album_artists@,
                storage_song.virtual_path,
            ),
            inserted_list(
                old(self)@.artist,
                final(self)@.artist,
                scanner_song.artists@,
                storage_song.artists@,
                storage_song.virtual_path,
            ),
            inserted_list(
                old(self)@.composer,
                final(self)@.composer,
                scanner_song.composers@,
                storage_song.composers@,
                storage_song.virtual_path,
            ),
            inserted_list(
                old(self)@.genre,
                final(self)@.genre,
                scanner_song.genres@,
                storage_song.genres@,
                storage_song.virtual_path,
            ),
            inserted_list(
                old(self)@.label,
                final(self)@.label,
                scanner_song.labels@,
                storage_song.labels@,
                storage_song.virtual_path,
            ),
            inserted_list(
                old(self)@.lyricist,
                final(self)@.lyricist,
                scanner_song.lyricists@,
                storage_song.lyricists@,
                storage_song.virtual_path,
            ),
            inserted_text(
                old(self)@.path,
                final(self)@.path,
                scanner_song.virtual_path@,
                storage_song.virtual_path,
                storage_song.virtual_path,
            ),
            inserted_opt(
                old(self)@.title,
                final(self)@.title,
                scanner_song.title,
                storage_song.title,
                storage_song.virtual_path,
            ),
            final(self)@.year@ == (match storage_song.year {
                Some(y) => old(self)@.year@.insert(
                    y,
                    old(self)@.year.bucket_view(y).insert(storage_song.virtual_path),
                ),
                None => old(self)@.year@,
            }),
            final(self)@.track_number@ == (match storage_song.track_number {
                Some(y) => old(self)@.track_number@.insert(
                    y,
                    old(self)@.track_number.bucket_view(y).insert(storage_song.virtual_path),
                ),
                None => old(self)@.track_number@,
            }),
            final(self)@.disc_number@ == (match storage_song.disc_number {
                Some(y) => old(self)@.disc_number@.insert(
                    y,
                    old(self)@.disc_number.bucket_view(y).insert(storage_song.virtual_path),
                ),
                None => old(self)@.disc_number@,
            }),
    {
        let key = storage_song.virtual_path;
        match (&scanner_song.album, &storage_song.album) {
            (Some(t), Some(sym)) => {
                self.search.album.insert(t.as_str(), *sym, key);
            },
            _ => {},
        }
        insert_all(&mut self.search.album_artist, &scanner_song.album_artists, &storage_song.album_artists, key);
        insert_all(&mut self.search.artist, &scanner_song.artists, &storage_song.artists, key);
        insert_all(&mut self.search.composer, &scanner_song.composers, &storage_song.composers, key);
        insert_all(&mut self.search.genre, &scanner_song.genres, &storage_song.genres, key);
        insert_all(&mut self.search.label, &scanner_song.labels, &storage_song.labels, key);
        insert_all(&mut self.search.lyricist, &scanner_song.lyricists, &storage_song.lyricists, key);
        self.search.path.insert(scanner_song.virtual_path.as_str(), key, key);
        match (&scanner_song.title, &storage_song.title) {
            (Some(t), Some(sym)) => {
                self.search.title.insert(t.as_str(), *sym, key);
            },
            _ => {},
        }
        match storage_song.year {
            Some(y) => self.search.year.insert(y, key),
            None => {},
        }
        match storage_song.track_number {
            Some(y) => self.search.track_number.insert(y, key),
            None => {},
        }
        match storage_song.disc_number {
            Some(y) => self.search.disc_number.insert(y, key),
            None => {},
        }
    }

    /// Seals the builder into the frozen index.
    pub fn build(self) -> (r: Search)
        ensures
            r == self@,
    {
        self.search
    }
}

impl Default for Builder {
    /// A builder with every field index empty.
    fn default() -> (r: Self)
        ensures
            r.wf(),
            empty_search(&r@),
    {
        Builder { search: Search::default() }
    }
}

/// Feeds a list of values into one text field index, pairwise with their
/// symbols, left to right.
fn insert_all(idx: &mut TextFieldIndex, raws: &Vec<String>, syms: &Vec<u32>, key: u32)
    requires
        old(idx).wf(),
        raws@.len() == syms@.len(),
    ensures
        final(idx).wf(),
        inserted_list(*old(idx), *final(idx), raws@, syms@, key),
{
    let n = raws.len();
    let ghost pre = *idx;
    // walk forward; the invariant says that finishing the remaining
    // suffix from the current state finishes the whole list from `pre`
    let mut t: usize = 0;
    proof {
        assert(raws@.skip(0) =~= raws@);
        assert(syms@.skip(0) =~= syms@);
    }
    while t < n
        invariant
            idx.wf(),
            n == raws@.len(),
            raws@.len() == syms@.len(),
            t <= n,
            forall|post: TextFieldIndex|
                inserted_list(*idx, post, raws@.skip(t as int), syms@.skip(t as int), key)
                    ==> inserted_list(pre, post, raws@, syms@, key),
        decreases n - t,
    {
        let ghost mid0 = *idx;
        idx.insert(raws[t].as_str(), syms[t], key);
        proof {
            assert(raws@.skip(t as int)[0] == raws@[t as int]);
            assert(syms@.skip(t as int)[0] == syms@[t as int]);
            assert(raws@.skip(t as int).drop_first() =~= raws@.skip(t + 1));
            assert(syms@.skip(t as int).drop_first() =~= syms@.skip(t + 1));
            assert(inserted_text(mid0, *idx, raws@[t as int]@, syms@[t as int], key));
            assert(inserted_text(
                mid0,
                *idx,
                raws@.skip(t as int)[0]@,
                syms@.skip(t as int)[0],
                key,
            ));
            assert forall|post: TextFieldIndex|
                inserted_list(*idx, post, raws@.skip(t + 1), syms@.skip(t + 1), key)
                    implies inserted_list(pre, post, raws@, syms@, key) by {
                assert(inserted_list(
                    mid0,
                    post,
                    raws@.skip(t as int),
                    syms@.skip(t as int),
                    key,
                ));
            }
        }
        t = t + 1;
    }
    proof {
        assert(raws@.skip(n as int) =~= Seq::<String>::empty());
        lemma_inserted_list_refl(*idx, raws@.skip(n as int), syms@.skip(n as int), key);
    }
}

proof fn lemma_inserted_list_refl(idx: TextFieldIndex, raws: Seq<String>, syms: Seq<u32>, key: u32)
    requires
        raws.len() == 0 || syms.len() == 0,
    ensures
        inserted_list(idx, idx, raws, syms, key),
{
}

/// Boolean `and` of a query is commutative.
pub proof fn lemma_and_commutative(
    s: &Search,
    reader: &StringsReader,
    canon: &CanonicalMap,
    a: SExpr,
    b: SExpr,
)
    ensures
        s.eval_spec(reader, canon, SExpr::Combined(Box::new(a), BoolOp::And, Box::new(b)))
            == s.eval_spec(reader, canon, SExpr::Combined(Box::new(b), BoolOp::And, Box::new(a))),
{
    assert(s.eval_spec(reader, canon, a).intersect(s.eval_spec(reader, canon, b)) =~= s.eval_spec(
        reader,
        canon,
        b,
    ).intersect(s.eval_spec(reader, canon, a)));
}

/// Boolean `or` of a query is commutative.
pub proof fn lemma_or_commutative(
    s: &Search,
    reader: &StringsReader,
    canon: &CanonicalMap,
    a: SExpr,
    b: SExpr,
)
    ensures
        s.eval_spec(reader, canon, SExpr::Combined(Box::new(a), BoolOp::Or, Box::new(b)))
            == s.eval_spec(reader, canon, SExpr::Combined(Box::new(b), BoolOp::Or, Box::new(a))),
{
    assert(s.eval_spec(reader, canon, a).union(s.eval_spec(reader, canon, b)) =~= s.eval_spec(
        reader,
        canon,
        b,
    ).union(s.eval_spec(reader, canon, a)));
}

/// Boolean `and` of a query is associative.
pub proof fn lemma_and_associative(
    s: &Search,
    reader: &StringsReader,
    canon: &CanonicalMap,
    a: SExpr,
    b: SExpr,
    c: SExpr,
)
    ensures
        s.eval_spec(
            reader,
            canon,
            SExpr::Combined(
                Box::new(SExpr::Combined(Box::new(a), BoolOp::And, Box::new(b))),
                BoolOp::And,
                Box::new(c),
            ),
        ) == s.eval_spec(
            reader,
            canon,
            SExpr::Combined(
                Box::new(a),
                BoolOp::And,
                Box::new(SExpr::Combined(Box::new(b), BoolOp::And, Box::new(c))),
            ),
        ),
{
    let sa = s.eval_spec(reader, canon, a);
    let sb = s.eval_spec(reader, canon, b);
    let sc = s.eval_spec(reader, canon, c);
    let ab = SExpr::Combined(Box::new(a), BoolOp::And, Box::new(b));
    let bc = SExpr::Combined(Box::new(b), BoolOp::And, Box::new(c));
    assert(s.eval_spec(reader, canon, ab) == sa.intersect(sb));
    assert(s.eval_spec(reader, canon, bc) == sb.intersect(sc));
    assert(s.eval_spec(reader, canon, SExpr::Combined(Box::new(ab), BoolOp::And, Box::new(c)))
        == sa.intersect(sb).intersect(sc));
    assert(s.eval_spec(reader, canon, SExpr::Combined(Box::new(a), BoolOp::And, Box::new(bc)))
        == sa.intersect(sb.intersect(sc)));
    assert(sa.intersect(sb).intersect(sc) =~= sa.intersect(sb.intersect(sc)));
}

/// Boolean `or` of a query is associative.
pub proof fn lemma_or_associative(
    s: &Search,
    reader: &StringsReader,
    canon: &CanonicalMap,
    a: SExpr,
    b: SExpr,
    c: SExpr,
)
    ensures
        s.eval_spec(
            reader,
            canon,
            SExpr::Combined(
                Box::new(SExpr::Combined(Box::new(a), BoolOp::Or, Box::new(b))),
                BoolOp::Or,
                Box::new(c),
            ),
        ) == s.eval_spec(
            reader,
            canon,
            SExpr::Combined(
                Box::new(a),
                BoolOp::Or,
                Box::new(SExpr::Combined(Box::new(b), BoolOp::Or, Box::new(c))),
            ),
        ),
{
    let sa = s.eval_spec(reader, canon, a);
    let sb = s.eval_spec(reader, canon, b);
    let sc = s.eval_spec(reader, canon, c);
    let ab = SExpr::Combined(Box::new(a), BoolOp::Or, Box::new(b));
    let bc = SExpr::Combined(Box::new(b), BoolOp::Or, Box::new(c));
    assert(s.eval_spec(reader, canon, ab) == sa.union(sb));
    assert(s.eval_spec(reader, canon, bc) == sb.union(sc));
    assert(s.eval_spec(reader, canon, SExpr::Combined(Box::new(ab), BoolOp::Or, Box::new(c)))
        == sa.union(sb).union(sc));
    assert(s.eval_spec(reader, canon, SExpr::Combined(Box::new(a), BoolOp::Or, Box::new(bc)))
        == sa.union(sb.union(sc)));
    assert(sa.union(sb).union(sc) =~= sa.union(sb.union(sc)));
}

/// A conjunction with a query that matches nothing matches nothing.
pub proof fn lemma_and_empty_absorbs(
    s: &Search,
    reader: &StringsReader,
    canon: &CanonicalMap,
    a: SExpr,
    b: SExpr,
)
    requires
        s.eval_spec(reader, canon, b) == Set::<u32>::empty(),
    ensures
        s.eval_spec(reader, canon, SExpr::Combined(Box::new(a), BoolOp::And, Box::new(b)))
            == Set::<u32>::empty(),
{
    assert(s.eval_spec(reader, canon, a).intersect(s.eval_spec(reader, canon, b))
        =~= Set::<u32>::empty());
}

/// The narrow phase admits no bigram false positives: every fuzzy match
/// carries a recorded value whose sanitized text contains the sanitized
/// query as a contiguous substring.
pub proof fn lemma_like_no_false_positives(
    idx: &TextFieldIndex,
    reader: &StringsReader,
    q: Seq<char>,
    k: u32,
)
    requires
        idx.find_like_spec(reader, q).contains(k),
    ensures
        exists|b: (char, char)|
            {
                &&& #[trigger] idx.posting_view(b).dom().contains(k)
                &&& idx.posting_view(b)[k] < reader_view(reader).len()
                &&& contains_seq(
                    sanitize(reader_view(reader)[idx.posting_view(b)[k] as int]),
                    sanitize(q),
                )
            },
{
    let qs = sanitize(q);
    let bs = bigrams(qs);
    idx.lemma_driving_idx_in_range(bs);
    let drv = bs[idx.driving_idx(bs)];
    assert(idx.posting_view(drv).dom().contains(k) && idx.posting_view(drv)[k] < reader_view(
        reader,
    ).len() && contains_seq(
        sanitize(reader_view(reader)[idx.posting_view(drv)[k] as int]),
        sanitize(q),
    ));
}

/// An exact match is also a fuzzy match, provided the query spans at
/// least one bigram and the song's recorded postings for those bigrams
/// all point at text containing the sanitized value. (When another value
/// of the same song shadows a posting with text that does not contain
/// the value, the fuzzy search may miss what the exact search finds.)
pub proof fn lemma_exact_below_like(
    idx: &TextFieldIndex,
    reader: &StringsReader,
    canon: &CanonicalMap,
    v: Seq<char>,
    k: u32,
)
    requires
        bigrams(sanitize(v)).len() > 0,
        idx.find_exact_spec(canon, v).contains(k),
        forall|j: int|
            0 <= j < bigrams(sanitize(v)).len() ==> idx.posting_view(
                #[trigger] bigrams(sanitize(v))[j],
            ).dom().contains(k),
        forall|j: int|
            0 <= j < bigrams(sanitize(v)).len() ==> {
                let sym = idx.posting_view(#[trigger] bigrams(sanitize(v))[j])[k];
                sym < reader_view(reader).len() && contains_seq(
                    sanitize(reader_view(reader)[sym as int]),
                    sanitize(v),
                )
            },
    ensures
        idx.find_like_spec(reader, v).contains(k),
{
    let qs = sanitize(v);
    let bs = bigrams(qs);
    idx.lemma_driving_idx_in_range(bs);
    let di = idx.driving_idx(bs);
    assert(idx.posting_view(bs[di]).dom().contains(k));
    assert(idx.like_member(reader, qs, k));
}

/// A fuzzy term covers the title field: when the query spans at least
/// one bigram, the song sits in the title postings of all the query's
/// bigrams, and the values recorded there resolve to text containing the
/// sanitized query, then the bare query finds the song. (As with exact
/// search, another value of the same song may shadow a posting and make
/// the fuzzy search miss a song whose title does contain the query.)
pub proof fn lemma_fuzzy_covers_title(
    s: &Search,
    reader: &StringsReader,
    canon: &CanonicalMap,
    q: Seq<char>,
    k: u32,
)
    requires
        bigrams(sanitize(q)).len() > 0,
        forall|j: int|
            0 <= j < bigrams(sanitize(q)).len() ==> s.title.posting_view(
                #[trigger] bigrams(sanitize(q))[j],
            ).dom().contains(k),
        forall|j: int|
            0 <= j < bigrams(sanitize(q)).len() ==> {
                let sym = s.title.posting_view(#[trigger] bigrams(sanitize(q))[j])[k];
                sym < reader_view(reader).len() && contains_seq(
                    sanitize(reader_view(reader)[sym as int]),
                    sanitize(q),
                )
            },
    ensures
        s.title.find_like_spec(reader, q).contains(k),
        s.eval_spec(reader, canon, SExpr::Fuzzy(SLiteral::Text(q))).contains(k),
{
    let qs = sanitize(q);
    let bs = bigrams(qs);
    s.title.lemma_driving_idx_in_range(bs);
    let di = s.title.driving_idx(bs);
    assert(s.title.posting_view(bs[di]).dom().contains(k));
    assert(s.title.like_member(reader, qs, k));
}

} // verus!
