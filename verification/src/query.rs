//! The query language.
//!
//! Grammar, lowest precedence first: an expression is `or`-separated
//! conjunctions; a conjunction is a run of atoms joined by `&&` or by
//! plain juxtaposition; an atom is a parenthesized expression, a field
//! comparison (`artist = x`, `title % y`, `year < 2000`), or a bare
//! literal, which is matched fuzzily against every field. Barewords are
//! runs of characters that are neither whitespace nor an operator
//! character; quoted strings are delimited by double quotes with backslash escapes; a
//! bareword that reads as a 32-bit integer is a number literal.
//!
//! Every executable step (lexer and parser) is mirrored by a spec
//! function; the parser's contract is that the two agree exactly.
use vstd::prelude::*;

use crate::text::{sanitize, sanitize_chars, eq_chars};
use crate::Error;

verus! {

/// The text fields a query may name.
#[derive(Clone, Copy, Debug, PartialEq, Eq, Structural)]
pub enum TextField {
    Album,
    AlbumArtist,
    Artist,
    Composer,
    Genre,
    Label,
    Lyricist,
    Path,
    Title,
}

/// The number fields a query may name.
#[derive(Clone, Copy, Debug, PartialEq, Eq, Structural)]
pub enum NumberField {
    Year,
    TrackNumber,
    DiscNumber,
}

/// Text comparison operators: exact and fuzzy.
#[derive(Clone, Copy, Debug, PartialEq, Eq, Structural)]
pub enum TextOp {
    Eq,
    Like,
}

/// Number comparison operators.
#[derive(Clone, Copy, Debug, PartialEq, Eq, Structural)]
pub enum NumberOp {
    Eq,
    Less,
    LessEqual,
    Greater,
    GreaterEqual,
}

/// Boolean connectives.
#[derive(Clone, Copy, Debug, PartialEq, Eq, Structural)]
pub enum BoolOp {
    And,
    Or,
}

/// A bare literal: text, or a 32-bit integer.
pub enum Literal {
    Text(Vec<char>),
    Number(i32),
}

/// A parsed query.
pub enum Expr {
    Fuzzy(Literal),
    TextCmp(TextField, TextOp, Vec<char>),
    NumberCmp(NumberField, NumberOp, i32),
    Combined(Box<Expr>, BoolOp, Box<Expr>),
}

/// The mathematical form of a literal.
pub enum SLiteral {
    Text(Seq<char>),
    Number(i32),
}

/// The mathematical form of a parsed query.
pub enum SExpr {
    Fuzzy(SLiteral),
    TextCmp(TextField, TextOp, Seq<char>),
    NumberCmp(NumberField, NumberOp, i32),
    Combined(Box<SExpr>, BoolOp, Box<SExpr>),
}

pub open spec fn lit_view(l: &Literal) -> SLiteral {
    match l {
        Literal::Text(w) => SLiteral::Text(w@),
        Literal::Number(n) => SLiteral::Number(*n),
    }
}

pub open spec fn expr_view(e: &Expr) -> SExpr
    decreases e,
{
    match e {
        Expr::Fuzzy(l) => SExpr::Fuzzy(lit_view(l)),
        Expr::TextCmp(f, op, w) => SExpr::TextCmp(*f, *op, w@),
        Expr::NumberCmp(f, op, n) => SExpr::NumberCmp(*f, *op, *n),
        Expr::Combined(a, op, b) => SExpr::Combined(
            Box::new(expr_view(&**a)),
            *op,
            Box::new(expr_view(&**b)),
        ),
    }
}

/// A token of the query language.
pub enum Tok {
    LParen,
    RParen,
    AndOp,
    OrOp,
    EqOp,
    LikeOp,
    LtOp,
    LeOp,
    GtOp,
    GeOp,
    Word(Vec<char>),
    Quoted(Vec<char>),
}

/// The mathematical form of a token.
pub enum STok {
    LParen,
    RParen,
    AndOp,
    OrOp,
    EqOp,
    LikeOp,
    LtOp,
    LeOp,
    GtOp,
    GeOp,
    Word(Seq<char>),
    Quoted(Seq<char>),
}

pub open spec fn tok_view(t: &Tok) -> STok {
    match t {
        Tok::LParen => STok::LParen,
        Tok::RParen => STok::RParen,
        Tok::AndOp => STok::AndOp,
        Tok::OrOp => STok::OrOp,
        Tok::EqOp => STok::EqOp,
        Tok::LikeOp => STok::LikeOp,
        Tok::LtOp => STok::LtOp,
        Tok::LeOp => STok::LeOp,
        Tok::GtOp => STok::GtOp,
        Tok::GeOp => STok::GeOp,
        Tok::Word(w) => STok::Word(w@),
        Tok::Quoted(w) => STok::Quoted(w@),
    }
}

pub open spec fn tok_views(ts: Seq<Tok>) -> Seq<STok> {
    ts.map_values(|t: Tok| tok_view(&t))
}

pub open spec fn is_ws(c: char) -> bool {
    c == ' ' || c == '\t' || c == '\n' || c == '\r'
}

pub open spec fn is_special(c: char) -> bool {
    c == '(' || c == ')' || c == '&' || c == '|' || c == '=' || c == '%' || c == '<' || c == '>'
        || c == '"'
}

pub open spec fn is_word_char(c: char) -> bool {
    !is_ws(c) && !is_special(c)
}

fn is_ws_exec(c: char) -> (r: bool)
    ensures
        r == is_ws(c),
{
    c == ' ' || c == '\t' || c == '\n' || c == '\r'
}

fn is_word_char_exec(c: char) -> (r: bool)
    ensures
        r == is_word_char(c),
{
    !(c == ' ' || c == '\t' || c == '\n' || c == '\r' || c == '(' || c == ')' || c == '&' || c
        == '|' || c == '=' || c == '%' || c == '<' || c == '>' || c == '"')
}

/// The first position at or after `i` that is not whitespace.
pub open spec fn skip_ws(s: Seq<char>, i: int) -> int
    decreases s.len() - i when 0 <= i <= s.len()
{
    if i == s.len() || !is_ws(s[i]) {
        i
    } else {
        skip_ws(s, i + 1)
    }
}

pub proof fn lemma_skip_ws_range(s: Seq<char>, i: int)
    requires
        0 <= i <= s.len(),
    ensures
        i <= skip_ws(s, i) <= s.len(),
    decreases s.len() - i,
{
    if !(i == s.len() || !is_ws(s[i])) {
        lemma_skip_ws_range(s, i + 1);
    }
}

fn skip_ws_exec(s: &Vec<char>, i: usize) -> (r: usize)
    requires
        i <= s@.len(),
    ensures
        r == skip_ws(s@, i as int),
        i <= r <= s@.len(),
    decreases s@.len() - i,
{
    if i == s.len() || !is_ws_exec(s[i]) {
        i
    } else {
        skip_ws_exec(s, i + 1)
    }
}

/// The first position at or after `i` that cannot extend a bareword.
pub open spec fn word_end(s: Seq<char>, i: int) -> int
    decreases s.len() - i when 0 <= i <= s.len()
{
    if i == s.len() || !is_word_char(s[i]) {
        i
    } else {
        word_end(s, i + 1)
    }
}

pub proof fn lemma_word_end_range(s: Seq<char>, i: int)
    requires
        0 <= i <= s.len(),
    ensures
        i <= word_end(s, i) <= s.len(),
    decreases s.len() - i,
{
    if !(i == s.len() || !is_word_char(s[i])) {
        lemma_word_end_range(s, i + 1);
    }
}

fn word_end_exec(s: &Vec<char>, i: usize) -> (r: usize)
    requires
        i <= s@.len(),
    ensures
        r == word_end(s@, i as int),
        i <= r <= s@.len(),
    decreases s@.len() - i,
{
    if i == s.len() || !is_word_char_exec(s[i]) {
        i
    } else {
        word_end_exec(s, i + 1)
    }
}

/// The body of a quoted string starting at `i` (just after the opening
/// quote), and the position after the closing quote; nothing when the
/// quote never closes. A backslash takes the next character literally.
pub open spec fn scan_quoted(s: Seq<char>, i: int) -> Option<(Seq<char>, int)>
    decreases s.len() - i when 0 <= i <= s.len()
{
    if i == s.len() {
        None
    } else if s[i] == '"' {
        Some((Seq::empty(), i + 1))
    } else if s[i] == '\\' {
        if i + 1 < s.len() {
            match scan_quoted(s, i + 2) {
                None => None,
                Some((t, j)) => Some((seq![s[i + 1]].add(t), j)),
            }
        } else {
            None
        }
    } else {
        match scan_quoted(s, i + 1) {
            None => None,
            Some((t, j)) => Some((seq![s[i]].add(t), j)),
        }
    }
}

pub proof fn lemma_scan_quoted_range(s: Seq<char>, i: int)
    requires
        0 <= i <= s.len(),
        scan_quoted(s, i) is Some,
    ensures
        i < scan_quoted(s, i)->Some_0.1 <= s.len(),
    decreases s.len() - i,
{
    if i == s.len() {
    } else if s[i] == '"' {
    } else if s[i] == '\\' {
        if i + 1 < s.len() {
            lemma_scan_quoted_range(s, i + 2);
        }
    } else {
        lemma_scan_quoted_range(s, i + 1);
    }
}

fn scan_quoted_exec(s: &Vec<char>, i: usize) -> (r: Option<(Vec<char>, usize)>)
    requires
        i <= s@.len(),
    ensures
        match r {
            Some((t, j)) => scan_quoted(s@, i as int) == Some((t@, j as int)) && i < j <= s@.len(),
            None => scan_quoted(s@, i as int) is None,
        },
    decreases s@.len() - i,
{
    if i == s.len() {
        None
    } else if s[i] == '"' {
        let t: Vec<char> = Vec::new();
        proof {
            assert(t@ =~= Seq::<char>::empty());
        }
        Some((t, i + 1))
    } else if s[i] == '\\' {
        if i + 1 < s.len() {
            match scan_quoted_exec(s, i + 2) {
                None => None,
                Some((t, j)) => {
                    let mut out: Vec<char> = Vec::new();
                    out.push(s[i + 1]);
                    let mut t = t;
                    let ghost told = t@;
                    append_chars(&mut out, &t);
                    proof {
                        assert(out@ =~= seq![s@[i + 1]].add(told));
                    }
                    Some((out, j))
                },
            }
        } else {
            None
        }
    } else {
        match scan_quoted_exec(s, i + 1) {
            None => None,
            Some((t, j)) => {
                let mut out: Vec<char> = Vec::new();
                out.push(s[i]);
                let ghost told = t@;
                append_chars(&mut out, &t);
                proof {
                    assert(out@ =~= seq![s@[i as int]].add(told));
                }
                Some((out, j))
            },
        }
    }
}

/// Appends the characters of `src` to `dst`.
pub fn append_chars(dst: &mut Vec<char>, src: &Vec<char>)
    ensures
        final(dst)@ == old(dst)@.add(src@),
{
    let mut i: usize = 0;
    while i < src.len()
        invariant
            i <= src@.len(),
            dst@ == old(dst)@.add(src@.subrange(0, i as int)),
        decreases src@.len() - i,
    {
        dst.push(src[i]);
        proof {
            assert(dst@ =~= old(dst)@.add(src@.subrange(0, i + 1)));
        }
        i = i + 1;
    }
    proof {
        assert(old(dst)@.add(src@.subrange(0, src@.len() as int)) =~= old(dst)@.add(src@));
    }
}

/// A copy of a character vector.
pub fn copy_chars(src: &Vec<char>) -> (r: Vec<char>)
    ensures
        r@ == src@,
{
    let mut r: Vec<char> = Vec::new();
    append_chars(&mut r, src);
    proof {
        assert(Seq::<char>::empty().add(src@) =~= src@);
    }
    r
}

/// The token starting at non-whitespace position `i`, and the position
/// after it; nothing on a lone `&` or `|` or an unterminated quote.
pub open spec fn tok_at(s: Seq<char>, i: int) -> Option<(STok, int)>
    decreases s.len() - i,
{
    if !(0 <= i < s.len()) {
        None
    } else {
        let c = s[i];
        if c == '(' {
            Some((STok::LParen, i + 1))
        } else if c == ')' {
            Some((STok::RParen, i + 1))
        } else if c == '&' {
            if i + 1 < s.len() && s[i + 1] == '&' {
                Some((STok::AndOp, i + 2))
            } else {
                None
            }
        } else if c == '|' {
            if i + 1 < s.len() && s[i + 1] == '|' {
                Some((STok::OrOp, i + 2))
            } else {
                None
            }
        } else if c == '=' {
            Some((STok::EqOp, i + 1))
        } else if c == '%' {
            Some((STok::LikeOp, i + 1))
        } else if c == '<' {
            if i + 1 < s.len() && s[i + 1] == '=' {
                Some((STok::LeOp, i + 2))
            } else {
                Some((STok::LtOp, i + 1))
            }
        } else if c == '>' {
            if i + 1 < s.len() && s[i + 1] == '=' {
                Some((STok::GeOp, i + 2))
            } else {
                Some((STok::GtOp, i + 1))
            }
        } else if c == '"' {
            match scan_quoted(s, i + 1) {
                None => None,
                Some((t, j)) => Some((STok::Quoted(t), j)),
            }
        } else if is_ws(c) {
            None
        } else {
            Some((STok::Word(s.subrange(i, word_end(s, i))), word_end(s, i)))
        }
    }
}

pub proof fn lemma_tok_at_range(s: Seq<char>, i: int)
    requires
        0 <= i < s.len(),
        tok_at(s, i) is Some,
    ensures
        i < tok_at(s, i)->Some_0.1 <= s.len(),
{
    let c = s[i];
    if c == '"' {
        if scan_quoted(s, i + 1) is Some {
            lemma_scan_quoted_range(s, i + 1);
        }
    } else if !is_special(c) && !is_ws(c) {
        lemma_word_end_range(s, i + 1);
        assert(word_end(s, i) == word_end(s, i + 1));
    }
}

fn tok_at_exec(s: &Vec<char>, i: usize) -> (r: Option<(Tok, usize)>)
    requires
        i < s@.len(),
    ensures
        match r {
            Some((t, j)) => tok_at(s@, i as int) == Some((tok_view(&t), j as int)) && i < j
                <= s@.len(),
            None => tok_at(s@, i as int) is None,
        },
{
    let n = s.len();
    let c = s[i];
    if c == '(' {
        Some((Tok::LParen, i + 1))
    } else if c == ')' {
        Some((Tok::RParen, i + 1))
    } else if c == '&' {
        if i + 1 < s.len() && s[i + 1] == '&' {
            Some((Tok::AndOp, i + 2))
        } else {
            None
        }
    } else if c == '|' {
        if i + 1 < s.len() && s[i + 1] == '|' {
            Some((Tok::OrOp, i + 2))
        } else {
            None
        }
    } else if c == '=' {
        Some((Tok::EqOp, i + 1))
    } else if c == '%' {
        Some((Tok::LikeOp, i + 1))
    } else if c == '<' {
        if i + 1 < s.len() && s[i + 1] == '=' {
            Some((Tok::LeOp, i + 2))
        } else {
            Some((Tok::LtOp, i + 1))
        }
    } else if c == '>' {
        if i + 1 < s.len() && s[i + 1] == '=' {
            Some((Tok::GeOp, i + 2))
        } else {
            Some((Tok::GtOp, i + 1))
        }
    } else if c == '"' {
        match scan_quoted_exec(s, i + 1) {
            None => None,
            Some((t, j)) => Some((Tok::Quoted(t), j)),
        }
    } else if is_ws_exec(c) {
        None
    } else {
        let e = word_end_exec(s, i);
        proof {
            assert(is_word_char(s@[i as int]));
            lemma_word_end_range(s@, i + 1);
            assert(word_end(s@, i as int) == word_end(s@, i + 1));
        }
        let mut w: Vec<char> = Vec::new();
        let mut t: usize = i;
        while t < e
            invariant
                i <= t <= e <= s@.len(),
                w@ == s@.subrange(i as int, t as int),
            decreases e - t,
        {
            w.push(s[t]);
            proof {
                assert(w@ =~= s@.subrange(i as int, t + 1));
            }
            t = t + 1;
        }
        Some((Tok::Word(w), e))
    }
}

/// The token list of a query string; nothing when some character cannot
/// start a token.
pub open spec fn lex(s: Seq<char>, i: int) -> Option<Seq<STok>>
    decreases s.len() - i when 0 <= i <= s.len()
{
    let j = skip_ws(s, i);
    if !(i <= j && j <= s.len()) {
        None
    } else if j == s.len() {
        Some(Seq::empty())
    } else {
        match tok_at(s, j) {
            None => None,
            Some((t, k)) => {
                if j < k <= s.len() {
                    match lex(s, k) {
                        None => None,
                        Some(r) => Some(seq![t].add(r)),
                    }
                } else {
                    None
                }
            },
        }
    }
}

fn lex_exec(s: &Vec<char>) -> (r: Option<Vec<Tok>>)
    ensures
        match r {
            Some(ts) => lex(s@, 0) == Some(tok_views(ts@)),
            None => lex(s@, 0) is None,
        },
{
    let mut out: Vec<Tok> = Vec::new();
    let mut i: usize = 0;
    loop
        invariant
            i <= s@.len(),
            forall|rest: Seq<STok>|
                lex(s@, i as int) == Some(rest) ==> lex(s@, 0) == Some(
                    tok_views(out@).add(rest),
                ),
            lex(s@, i as int) is None ==> lex(s@, 0) is None,
        decreases s@.len() - i,
    {
        let j = skip_ws_exec(s, i);
        if j == s.len() {
            proof {
                assert(lex(s@, i as int) == Some(Seq::<STok>::empty()));
                assert(tok_views(out@).add(Seq::<STok>::empty()) =~= tok_views(out@));
            }
            return Some(out);
        }
        match tok_at_exec(s, j) {
            None => {
                return None;
            },
            Some((t, k)) => {
                let ghost pre = out@;
                out.push(t);
                proof {
                    assert(tok_views(out@) =~= tok_views(pre).push(tok_view(&t)));
                    assert forall|rest: Seq<STok>| lex(s@, k as int) == Some(rest) implies lex(
                        s@,
                        0,
                    ) == Some(tok_views(out@).add(rest)) by {
                        assert(lex(s@, i as int) == Some(seq![tok_view(&t)].add(rest)));
                        assert(tok_views(pre).add(seq![tok_view(&t)].add(rest)) =~= tok_views(
                            out@,
                        ).add(rest));
                    }
                }
                i = k;
            },
        }
    }
}

/// The text field a (case-insensitively) sanitized word names, if any.
pub open spec fn text_field_of(w: Seq<char>) -> Option<TextField> {
    let l = sanitize(w);
    if l == "album"@ {
        Some(TextField::Album)
    } else if l == "albumartist"@ {
        Some(TextField::AlbumArtist)
    } else if l == "artist"@ {
        Some(TextField::Artist)
    } else if l == "composer"@ {
        Some(TextField::Composer)
    } else if l == "genre"@ {
        Some(TextField::Genre)
    } else if l == "label"@ {
        Some(TextField::Label)
    } else if l == "lyricist"@ {
        Some(TextField::Lyricist)
    } else if l == "path"@ {
        Some(TextField::Path)
    } else if l == "title"@ {
        Some(TextField::Title)
    } else {
        None
    }
}

fn text_field_of_exec(w: &Vec<char>) -> (r: Option<TextField>)
    ensures
        r == text_field_of(w@),
{
    let l = sanitize_chars(w);
    if eq_chars(&l, &crate::text::chars_of("album")) {
        Some(TextField::Album)
    } else if eq_chars(&l, &crate::text::chars_of("albumartist")) {
        Some(TextField::AlbumArtist)
    } else if eq_chars(&l, &crate::text::chars_of("artist")) {
        Some(TextField::Artist)
    } else if eq_chars(&l, &crate::text::chars_of("composer")) {
        Some(TextField::Composer)
    } else if eq_chars(&l, &crate::text::chars_of("genre")) {
        Some(TextField::Genre)
    } else if eq_chars(&l, &crate::text::chars_of("label")) {
        Some(TextField::Label)
    } else if eq_chars(&l, &crate::text::chars_of("lyricist")) {
        Some(TextField::Lyricist)
    } else if eq_chars(&l, &crate::text::chars_of("path")) {
        Some(TextField::Path)
    } else if eq_chars(&l, &crate::text::chars_of("title")) {
        Some(TextField::Title)
    } else {
        None
    }
}

/// The number field a (case-insensitively) sanitized word names, if any.
pub open spec fn number_field_of(w: Seq<char>) -> Option<NumberField> {
    let l = sanitize(w);
    if l == "year"@ {
        Some(NumberField::Year)
    } else if l == "track"@ {
        Some(NumberField::TrackNumber)
    } else if l == "disc"@ {
        Some(NumberField::DiscNumber)
    } else {
        None
    }
}

fn number_field_of_exec(w: &Vec<char>) -> (r: Option<NumberField>)
    ensures
        r == number_field_of(w@),
{
    let l = sanitize_chars(w);
    if eq_chars(&l, &crate::text::chars_of("year")) {
        Some(NumberField::Year)
    } else if eq_chars(&l, &crate::text::chars_of("track")) {
        Some(NumberField::TrackNumber)
    } else if eq_chars(&l, &crate::text::chars_of("disc")) {
        Some(NumberField::DiscNumber)
    } else {
        None
    }
}

pub open spec fn is_digit(c: char) -> bool {
    48 <= c as u32 <= 57
}

/// The value of a digit string, most significant digit first.
pub open spec fn digits_val(w: Seq<char>) -> int
    decreases w.len(),
{
    if w.len() == 0 {
        0
    } else {
        digits_val(w.drop_last()) * 10 + (w.last() as u32 - 48)
    }
}

pub open spec fn all_digits(w: Seq<char>) -> bool {
    w.len() > 0 && forall|i: int| 0 <= i < w.len() ==> is_digit(#[trigger] w[i])
}

/// The 32-bit integer a bareword denotes, if any: an optional minus sign
/// and decimal digits, within the type's range.
pub open spec fn int_of(w: Seq<char>) -> Option<i32> {
    if all_digits(w) {
        if digits_val(w) <= 0x7FFF_FFFF {
            Some(digits_val(w) as i32)
        } else {
            None
        }
    } else if w.len() >= 2 && w[0] == '-' && all_digits(w.skip(1)) {
        if digits_val(w.skip(1)) <= 0x8000_0000 {
            Some((-digits_val(w.skip(1))) as i32)
        } else {
            None
        }
    } else {
        None
    }
}

proof fn lemma_digits_nonneg(w: Seq<char>)
    requires
        forall|i: int| 0 <= i < w.len() ==> is_digit(#[trigger] w[i]),
    ensures
        digits_val(w) >= 0,
    decreases w.len(),
{
    if w.len() > 0 {
        assert(forall|i: int|
            0 <= i < w.drop_last().len() ==> is_digit(#[trigger] w.drop_last()[i]));
        lemma_digits_nonneg(w.drop_last());
    }
}

/// A digit string is worth at least any of its prefixes.
proof fn lemma_digits_prefix_le(w: Seq<char>, i: int)
    requires
        forall|t: int| 0 <= t < w.len() ==> is_digit(#[trigger] w[t]),
        0 <= i <= w.len(),
    ensures
        digits_val(w.subrange(0, i)) <= digits_val(w),
    decreases w.len() - i,
{
    if i == w.len() {
        assert(w.subrange(0, i) =~= w);
    } else {
        lemma_digits_prefix_le(w, i + 1);
        let p = w.subrange(0, i + 1);
        assert(p.drop_last() =~= w.subrange(0, i));
        assert(forall|t: int| 0 <= t < p.len() ==> is_digit(#[trigger] p[t]));
        assert(forall|t: int|
            0 <= t < p.drop_last().len() ==> is_digit(#[trigger] p.drop_last()[t]));
        lemma_digits_nonneg(p.drop_last());
        assert(digits_val(p) == digits_val(p.drop_last()) * 10 + (p.last() as u32 - 48));
        assert(digits_val(w.subrange(0, i)) <= digits_val(w.subrange(0, i + 1)));
    }
}

fn digits_value_exec(w: &Vec<char>, start: usize) -> (r: Option<u64>)
    requires
        start < w@.len(),
    ensures
        match r {
            Some(v) => all_digits(w@.skip(start as int)) && v == digits_val(
                w@.skip(start as int),
            ) && v <= 0x8000_0000,
            None => !all_digits(w@.skip(start as int)) || digits_val(w@.skip(start as int))
                > 0x8000_0000,
        },
{
    let ghost part = w@.skip(start as int);
    let mut v: u64 = 0;
    let mut i: usize = start;
    proof {
        assert(part.subrange(0, 0) =~= Seq::<char>::empty());
    }
    while i < w.len()
        invariant
            start <= i <= w@.len(),
            part == w@.skip(start as int),
            forall|t: int| 0 <= t < i - start ==> is_digit(#[trigger] part[t]),
            v == digits_val(part.subrange(0, i - start)),
            v <= 0x8000_0000,
        decreases w@.len() - i,
    {
        let u = w[i] as u32;
        if u < 48 || u > 57 {
            proof {
                assert(part[i - start] == w@[i as int]);
                assert(!is_digit(part[i - start]));
            }
            return None;
        }
        proof {
            assert(part[i - start] == w@[i as int]);
            assert(part.subrange(0, i - start + 1).drop_last() =~= part.subrange(0, i - start));
            assert(part.subrange(0, i - start + 1).last() == part[i - start]);
        }
        v = v * 10 + ((u - 48) as u64);
        if v > 0x8000_0000 {
            proof {
                if all_digits(part) {
                    lemma_digits_prefix_le(part, i - start + 1);
                }
            }
            return None;
        }
        i = i + 1;
    }
    proof {
        assert(part.subrange(0, part.len() as int) =~= part);
        assert(part.len() > 0);
    }
    Some(v)
}

pub(crate) fn int_of_exec(w: &Vec<char>) -> (r: Option<i32>)
    ensures
        r == int_of(w@),
{
    if w.len() == 0 {
        return None;
    }
    if w[0] == '-' {
        if w.len() < 2 {
            proof {
                assert(!all_digits(w@)) by {
                    assert(!is_digit(w@[0]));
                }
            }
            return None;
        }
        proof {
            assert(!all_digits(w@)) by {
                assert(!is_digit(w@[0]));
            }
        }
        match digits_value_exec(w, 1) {
            Some(v) => Some((-(v as i64)) as i32),
            None => None,
        }
    } else {
        proof {
            assert(w@[0] != '-');
        }
        match digits_value_exec(w, 0) {
            Some(v) => {
                proof {
                    assert(w@.skip(0) =~= w@);
                }
                if v <= 0x7FFF_FFFF {
                    Some(v as i32)
                } else {
                    None
                }
            },
            None => {
                proof {
                    assert(w@.skip(0) =~= w@);
                }
                None
            },
        }
    }
}

/// The literal a bareword denotes: a number when it reads as one, else
/// text.
pub open spec fn lit_of_word(w: Seq<char>) -> SLiteral {
    match int_of(w) {
        Some(n) => SLiteral::Number(n),
        None => SLiteral::Text(w),
    }
}

fn lit_of_word_exec(w: &Vec<char>) -> (r: Literal)
    ensures
        lit_view(&r) == lit_of_word(w@),
{
    match int_of_exec(w) {
        Some(n) => Literal::Number(n),
        None => Literal::Text(copy_chars(w)),
    }
}

/// The text operator a token denotes, if any.
pub open spec fn text_op_of(t: STok) -> Option<TextOp> {
    match t {
        STok::EqOp => Some(TextOp::Eq),
        STok::LikeOp => Some(TextOp::Like),
        _ => None,
    }
}

fn text_op_of_exec(t: &Tok) -> (r: Option<TextOp>)
    ensures
        r == text_op_of(tok_view(t)),
{
    match t {
        Tok::EqOp => Some(TextOp::Eq),
        Tok::LikeOp => Some(TextOp::Like),
        _ => None,
    }
}

/// The number operator a token denotes, if any.
pub open spec fn num_op_of(t: STok) -> Option<NumberOp> {
    match t {
        STok::EqOp => Some(NumberOp::Eq),
        STok::LtOp => Some(NumberOp::Less),
        STok::LeOp => Some(NumberOp::LessEqual),
        STok::GtOp => Some(NumberOp::Greater),
        STok::GeOp => Some(NumberOp::GreaterEqual),
        _ => None,
    }
}

fn num_op_of_exec(t: &Tok) -> (r: Option<NumberOp>)
    ensures
        r == num_op_of(tok_view(t)),
{
    match t {
        Tok::EqOp => Some(NumberOp::Eq),
        Tok::LtOp => Some(NumberOp::Less),
        Tok::LeOp => Some(NumberOp::LessEqual),
        Tok::GtOp => Some(NumberOp::Greater),
        Tok::GeOp => Some(NumberOp::GreaterEqual),
        _ => None,
    }
}

/// The text a literal token carries, if it is one.
pub open spec fn lit_tok_text(t: STok) -> Option<Seq<char>> {
    match t {
        STok::Word(w) => Some(w),
        STok::Quoted(q) => Some(q),
        _ => None,
    }
}

fn lit_tok_text_exec(t: &Tok) -> (r: Option<Vec<char>>)
    ensures
        match r {
            Some(v) => lit_tok_text(tok_view(t)) == Some(v@),
            None => lit_tok_text(tok_view(t)) is None,
        },
{
    match t {
        Tok::Word(w) => Some(copy_chars(w)),
        Tok::Quoted(q) => Some(copy_chars(q)),
        _ => None,
    }
}

/// An atom: a parenthesized expression, a field comparison, or a bare
/// literal.
pub open spec fn p_atom(ts: Seq<STok>, i: int) -> Option<(SExpr, int)>
    decreases ts.len() - i, 0int when 0 <= i <= ts.len()
{
    if i >= ts.len() {
        None
    } else {
        match ts[i] {
            STok::LParen => match p_or(ts, i + 1) {
                None => None,
                Some((e, j)) => if 0 <= j < ts.len() && ts[j] is RParen {
                    Some((e, j + 1))
                } else {
                    None
                },
            },
            STok::Word(w) => {
                if i + 2 < ts.len() && text_field_of(w) is Some && text_op_of(ts[i + 1]) is Some
                    && lit_tok_text(ts[i + 2]) is Some {
                    Some(
                        (
                            SExpr::TextCmp(
                                text_field_of(w)->Some_0,
                                text_op_of(ts[i + 1])->Some_0,
                                lit_tok_text(ts[i + 2])->Some_0,
                            ),
                            i + 3,
                        ),
                    )
                } else if i + 2 < ts.len() && number_field_of(w) is Some && num_op_of(ts[i + 1])
                    is Some && ts[i + 2] is Word && int_of(ts[i + 2]->Word_0) is Some {
                    Some(
                        (
                            SExpr::NumberCmp(
                                number_field_of(w)->Some_0,
                                num_op_of(ts[i + 1])->Some_0,
                                int_of(ts[i + 2]->Word_0)->Some_0,
                            ),
                            i + 3,
                        ),
                    )
                } else {
                    Some((SExpr::Fuzzy(lit_of_word(w)), i + 1))
                }
            },
            STok::Quoted(q) => Some((SExpr::Fuzzy(SLiteral::Text(q)), i + 1)),
            _ => None,
        }
    }
}

/// A token that can begin an atom.
pub open spec fn atom_start(t: STok) -> bool {
    t is LParen || t is Word || t is Quoted
}

/// The rest of a conjunction after `acc`: further atoms joined by `&&`
/// or juxtaposed, folded to the left.
pub open spec fn p_and_tail(ts: Seq<STok>, i: int, acc: SExpr) -> Option<(SExpr, int)>
    decreases ts.len() - i, 2int when 0 <= i <= ts.len()
{
    if i < ts.len() && ts[i] is AndOp {
        match p_atom(ts, i + 1) {
            None => None,
            Some((e, j)) => if i + 1 < j && j <= ts.len() {
                p_and_tail(ts, j, SExpr::Combined(Box::new(acc), BoolOp::And, Box::new(e)))
            } else {
                None
            },
        }
    } else if i < ts.len() && atom_start(ts[i]) {
        match p_atom(ts, i) {
            None => None,
            Some((e, j)) => if i < j && j <= ts.len() {
                p_and_tail(ts, j, SExpr::Combined(Box::new(acc), BoolOp::And, Box::new(e)))
            } else {
                None
            },
        }
    } else {
        Some((acc, i))
    }
}

/// A conjunction: one or more atoms.
pub open spec fn p_and(ts: Seq<STok>, i: int) -> Option<(SExpr, int)>
    decreases ts.len() - i, 3int when 0 <= i <= ts.len()
{
    match p_atom(ts, i) {
        None => None,
        Some((e, j)) => if i < j && j <= ts.len() {
            p_and_tail(ts, j, e)
        } else {
            None
        },
    }
}

/// The rest of a disjunction after `acc`: further conjunctions joined by
/// `||`, folded to the left.
pub open spec fn p_or_tail(ts: Seq<STok>, i: int, acc: SExpr) -> Option<(SExpr, int)>
    decreases ts.len() - i, 4int when 0 <= i <= ts.len()
{
    if i < ts.len() && ts[i] is OrOp {
        match p_and(ts, i + 1) {
            None => None,
            Some((e, j)) => if i + 1 < j && j <= ts.len() {
                p_or_tail(ts, j, SExpr::Combined(Box::new(acc), BoolOp::Or, Box::new(e)))
            } else {
                None
            },
        }
    } else {
        Some((acc, i))
    }
}

/// A disjunction: one or more conjunctions.
pub open spec fn p_or(ts: Seq<STok>, i: int) -> Option<(SExpr, int)>
    decreases ts.len() - i, 5int when 0 <= i <= ts.len()
{
    match p_and(ts, i) {
        None => None,
        Some((e, j)) => if i < j && j <= ts.len() {
            p_or_tail(ts, j, e)
        } else {
            None
        },
    }
}

fn p_atom_exec(ts: &Vec<Tok>, i: usize) -> (r: Option<(Expr, usize)>)
    requires
        i <= ts@.len(),
    ensures
        match r {
            Some((e, j)) => i < j <= ts@.len() && p_atom(tok_views(ts@), i as int) == Some(
                (expr_view(&e), j as int),
            ),
            None => p_atom(tok_views(ts@), i as int) is None,
        },
    decreases ts@.len() - i, 0int,
{
    let ghost sv = tok_views(ts@);
    if i >= ts.len() {
        return None;
    }
    proof {
        assert(sv[i as int] == tok_view(&ts@[i as int]));
    }
    match &ts[i] {
        Tok::LParen => {
            match p_or_exec(ts, i + 1) {
                None => None,
                Some((e, j)) => {
                    if j < ts.len() {
                        proof {
                            assert(sv[j as int] == tok_view(&ts@[j as int]));
                        }
                        match &ts[j] {
                            Tok::RParen => Some((e, j + 1)),
                            _ => None,
                        }
                    } else {
                        None
                    }
                },
            }
        },
        Tok::Word(w) => {
            if i < ts.len() - 1 && i + 1 < ts.len() - 1 {
                proof {
                    assert(sv[i + 1] == tok_view(&ts@[i + 1]));
                    assert(sv[i + 2] == tok_view(&ts@[i + 2]));
                }
                let tf = text_field_of_exec(w);
                let top = text_op_of_exec(&ts[i + 1]);
                let lt = lit_tok_text_exec(&ts[i + 2]);
                match (tf, top, lt) {
                    (Some(f), Some(op), Some(val)) => {
                        return Some((Expr::TextCmp(f, op, val), i + 3));
                    },
                    _ => {},
                }
                let nf = number_field_of_exec(w);
                let nop = num_op_of_exec(&ts[i + 1]);
                let nv = match &ts[i + 2] {
                    Tok::Word(w2) => int_of_exec(w2),
                    _ => None,
                };
                match (nf, nop, nv) {
                    (Some(f), Some(op), Some(n)) => {
                        return Some((Expr::NumberCmp(f, op, n), i + 3));
                    },
                    _ => {},
                }
            }
            let l = lit_of_word_exec(w);
            Some((Expr::Fuzzy(l), i + 1))
        },
        Tok::Quoted(q) => Some((Expr::Fuzzy(Literal::Text(copy_chars(q))), i + 1)),
        _ => None,
    }
}

fn p_and_tail_exec(ts: &Vec<Tok>, i: usize, acc: Expr) -> (r: Option<(Expr, usize)>)
    requires
        i <= ts@.len(),
    ensures
        match r {
            Some((e, j)) => i <= j <= ts@.len() && p_and_tail(
                tok_views(ts@),
                i as int,
                expr_view(&acc),
            ) == Some((expr_view(&e), j as int)),
            None => p_and_tail(tok_views(ts@), i as int, expr_view(&acc)) is None,
        },
    decreases ts@.len() - i, 2int,
{
    let ghost sv = tok_views(ts@);
    if i < ts.len() {
        proof {
            assert(sv[i as int] == tok_view(&ts@[i as int]));
        }
        let is_and = match &ts[i] {
            Tok::AndOp => true,
            _ => false,
        };
        let starts = match &ts[i] {
            Tok::LParen => true,
            Tok::Word(_) => true,
            Tok::Quoted(_) => true,
            _ => false,
        };
        if is_and {
            match p_atom_exec(ts, i + 1) {
                None => None,
                Some((e, j)) => p_and_tail_exec(
                    ts,
                    j,
                    Expr::Combined(Box::new(acc), BoolOp::And, Box::new(e)),
                ),
            }
        } else if starts {
            match p_atom_exec(ts, i) {
                None => None,
                Some((e, j)) => p_and_tail_exec(
                    ts,
                    j,
                    Expr::Combined(Box::new(acc), BoolOp::And, Box::new(e)),
                ),
            }
        } else {
            Some((acc, i))
        }
    } else {
        Some((acc, i))
    }
}

fn p_and_exec(ts: &Vec<Tok>, i: usize) -> (r: Option<(Expr, usize)>)
    requires
        i <= ts@.len(),
    ensures
        match r {
            Some((e, j)) => i < j <= ts@.len() && p_and(tok_views(ts@), i as int) == Some(
                (expr_view(&e), j as int),
            ),
            None => p_and(tok_views(ts@), i as int) is None,
        },
    decreases ts@.len() - i, 3int,
{
    match p_atom_exec(ts, i) {
        None => None,
        Some((e, j)) => p_and_tail_exec(ts, j, e),
    }
}

fn p_or_tail_exec(ts: &Vec<Tok>, i: usize, acc: Expr) -> (r: Option<(Expr, usize)>)
    requires
        i <= ts@.len(),
    ensures
        match r {
            Some((e, j)) => i <= j <= ts@.len() && p_or_tail(
                tok_views(ts@),
                i as int,
                expr_view(&acc),
            ) == Some((expr_view(&e), j as int)),
            None => p_or_tail(tok_views(ts@), i as int, expr_view(&acc)) is None,
        },
    decreases ts@.len() - i, 4int,
{
    let ghost sv = tok_views(ts@);
    if i < ts.len() {
        proof {
            assert(sv[i as int] == tok_view(&ts@[i as int]));
        }
        let is_or = match &ts[i] {
            Tok::OrOp => true,
            _ => false,
        };
        if is_or {
            match p_and_exec(ts, i + 1) {
                None => None,
                Some((e, j)) => p_or_tail_exec(
                    ts,
                    j,
                    Expr::Combined(Box::new(acc), BoolOp::Or, Box::new(e)),
                ),
            }
        } else {
            Some((acc, i))
        }
    } else {
        Some((acc, i))
    }
}

fn p_or_exec(ts: &Vec<Tok>, i: usize) -> (r: Option<(Expr, usize)>)
    requires
        i <= ts@.len(),
    ensures
        match r {
            Some((e, j)) => i < j <= ts@.len() && p_or(tok_views(ts@), i as int) == Some(
                (expr_view(&e), j as int),
            ),
            None => p_or(tok_views(ts@), i as int) is None,
        },
    decreases ts@.len() - i, 5int,
{
    match p_and_exec(ts, i) {
        None => None,
        Some((e, j)) => p_or_tail_exec(ts, j, e),
    }
}

/// What a query string parses to, if anything: its tokens, read as one
/// whole disjunction.
pub open spec fn parse_spec(s: Seq<char>) -> Option<SExpr> {
    match lex(s, 0) {
        None => None,
        Some(ts) => match p_or(ts, 0) {
            None => None,
            Some((e, j)) => if j == ts.len() {
                Some(e)
            } else {
                None
            },
        },
    }
}

/// Parses a query string; a malformed query is one parse error, with no
/// partial result.
pub fn parse_query(q: &str) -> (r: Result<Expr, Error>)
    ensures
        match r {
            Ok(e) => parse_spec(q@) == Some(expr_view(&e)),
            Err(err) => parse_spec(q@) is None && err == Error::SearchQueryParseError,
        },
{
    let cs = crate::text::chars_of(q);
    match lex_exec(&cs) {
        None => Err(Error::SearchQueryParseError),
        Some(ts) => {
            match p_or_exec(&ts, 0) {
                None => Err(Error::SearchQueryParseError),
                Some((e, j)) => {
                    if j == ts.len() {
                        Ok(e)
                    } else {
                        Err(Error::SearchQueryParseError)
                    }
                },
            }
        },
    }
}

} // verus!
