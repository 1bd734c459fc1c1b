//! Character-level text utilities: sanitization (the normal form used
//! by every index lookup) and substring search.
use vstd::prelude::*;
use vstd::string::StrSliceExecFns;

verus! {

/// Normal form of one character: ASCII letters are lowercased, common
/// Latin-1 letters with diacritics are folded to their base letter, and
/// whitespace characters become a plain space. Everything else is kept.
pub open spec fn fold_char(c: char) -> char {
    match c {
        'A' => 'a',
        'B' => 'b',
        'C' => 'c',
        'D' => 'd',
        'E' => 'e',
        'F' => 'f',
        'G' => 'g',
        'H' => 'h',
        'I' => 'i',
        'J' => 'j',
        'K' => 'k',
        'L' => 'l',
        'M' => 'm',
        'N' => 'n',
        'O' => 'o',
        'P' => 'p',
        'Q' => 'q',
        'R' => 'r',
        'S' => 's',
        'T' => 't',
        'U' => 'u',
        'V' => 'v',
        'W' => 'w',
        'X' => 'x',
        'Y' => 'y',
        'Z' => 'z',
        '\u{c0}'..='\u{c6}' => 'a',
        '\u{c7}' => 'c',
        '\u{c8}'..='\u{cb}' => 'e',
        '\u{cc}'..='\u{cf}' => 'i',
        '\u{d1}' => 'n',
        '\u{d2}'..='\u{d6}' => 'o',
        '\u{d8}' => 'o',
        '\u{d9}'..='\u{dc}' => 'u',
        '\u{dd}' => 'y',
        '\u{df}' => 's',
        '\u{e0}'..='\u{e6}' => 'a',
        '\u{e7}' => 'c',
        '\u{e8}'..='\u{eb}' => 'e',
        '\u{ec}'..='\u{ef}' => 'i',
        '\u{f1}' => 'n',
        '\u{f2}'..='\u{f6}' => 'o',
        '\u{f8}' => 'o',
        '\u{f9}'..='\u{fc}' => 'u',
        '\u{fd}' => 'y',
        '\u{ff}' => 'y',
        '\t' | '\n' | '\r' | '\u{b}' | '\u{c}' => ' ',
        _ => c,
    }
}

/// Sanitized form of a string: every character replaced by its normal form.
pub open spec fn sanitize(s: Seq<char>) -> Seq<char> {
    s.map_values(|c: char| fold_char(c))
}

/// The normal form of a character is a fixed point of the normalization.
pub proof fn lemma_fold_char_idempotent(c: char)
    ensures
        fold_char(fold_char(c)) == fold_char(c),
{
}

/// Sanitization is idempotent: sanitizing a sanitized string changes nothing.
pub proof fn lemma_sanitize_idempotent(s: Seq<char>)
    ensures
        sanitize(sanitize(s)) == sanitize(s),
{
    assert(sanitize(sanitize(s)) =~= sanitize(s)) by {
        assert forall|i: int| 0 <= i < s.len() implies sanitize(sanitize(s))[i] == sanitize(s)[i] by {
            lemma_fold_char_idempotent(s[i]);
        }
    }
}

/// Exec counterpart of `fold_char`.
pub fn fold_char_exec(c: char) -> (r: char)
    ensures
        r == fold_char(c),
{
    match c {
        'A' => 'a',
        'B' => 'b',
        'C' => 'c',
        'D' => 'd',
        'E' => 'e',
        'F' => 'f',
        'G' => 'g',
        'H' => 'h',
        'I' => 'i',
        'J' => 'j',
        'K' => 'k',
        'L' => 'l',
        'M' => 'm',
        'N' => 'n',
        'O' => 'o',
        'P' => 'p',
        'Q' => 'q',
        'R' => 'r',
        'S' => 's',
        'T' => 't',
        'U' => 'u',
        'V' => 'v',
        'W' => 'w',
        'X' => 'x',
        'Y' => 'y',
        'Z' => 'z',
        '\u{c0}'..='\u{c6}' => 'a',
        '\u{c7}' => 'c',
        '\u{c8}'..='\u{cb}' => 'e',
        '\u{cc}'..='\u{cf}' => 'i',
        '\u{d1}' => 'n',
        '\u{d2}'..='\u{d6}' => 'o',
        '\u{d8}' => 'o',
        '\u{d9}'..='\u{dc}' => 'u',
        '\u{dd}' => 'y',
        '\u{df}' => 's',
        '\u{e0}'..='\u{e6}' => 'a',
        '\u{e7}' => 'c',
        '\u{e8}'..='\u{eb}' => 'e',
        '\u{ec}'..='\u{ef}' => 'i',
        '\u{f1}' => 'n',
        '\u{f2}'..='\u{f6}' => 'o',
        '\u{f8}' => 'o',
        '\u{f9}'..='\u{fc}' => 'u',
        '\u{fd}' => 'y',
        '\u{ff}' => 'y',
        '\t' | '\n' | '\r' | '\u{b}' | '\u{c}' => ' ',
        _ => c,
    }
}

/// Collects the characters of a string slice.
pub fn chars_of(s: &str) -> (r: Vec<char>)
    ensures
        r@ == s@,
{
    let n = s.unicode_len();
    let mut r: Vec<char> = Vec::new();
    let mut i: usize = 0;
    while i < n
        invariant
            n == s@.len(),
            i <= n,
            r@ == s@.subrange(0, i as int),
        decreases n - i,
    {
        r.push(s.get_char(i));
        i = i + 1;
    }
    assert(r@ =~= s@);
    r
}

/// Sanitizes a character sequence.
pub fn sanitize_chars(s: &Vec<char>) -> (r: Vec<char>)
    ensures
        r@ == sanitize(s@),
{
    let mut r: Vec<char> = Vec::new();
    let mut i: usize = 0;
    while i < s.len()
        invariant
            i <= s@.len(),
            r@ == sanitize(s@.subrange(0, i as int)),
        decreases s@.len() - i,
    {
        r.push(fold_char_exec(s[i]));
        proof {
            assert(sanitize(s@.subrange(0, i + 1 as int)) =~= sanitize(
                s@.subrange(0, i as int),
            ).push(fold_char(s@[i as int])));
        }
        i = i + 1;
    }
    assert(r@ =~= sanitize(s@)) by {
        assert(s@.subrange(0, s@.len() as int) =~= s@);
    }
    r
}

/// Sanitizes a string slice.
pub fn sanitize_str(s: &str) -> (r: Vec<char>)
    ensures
        r@ == sanitize(s@),
{
    let cs = chars_of(s);
    sanitize_chars(&cs)
}

/// Character-sequence equality.
pub fn eq_chars(a: &Vec<char>, b: &Vec<char>) -> (r: bool)
    ensures
        r == (a@ == b@),
{
    if a.len() != b.len() {
        return false;
    }
    let mut i: usize = 0;
    while i < a.len()
        invariant
            a@.len() == b@.len(),
            i <= a@.len(),
            forall|t: int| 0 <= t < i ==> a@[t] == b@[t],
        decreases a@.len() - i,
    {
        if a[i] != b[i] {
            return false;
        }
        i = i + 1;
    }
    assert(a@ =~= b@);
    true
}

/// `needle` occurs in `hay` as a contiguous subsequence.
pub open spec fn contains_seq(hay: Seq<char>, needle: Seq<char>) -> bool {
    exists|i: int| #[trigger] matches_at(hay, needle, i)
}

/// `needle` occurs in `hay` starting at position `i`.
pub open spec fn matches_at(hay: Seq<char>, needle: Seq<char>, i: int) -> bool {
    0 <= i && i + needle.len() <= hay.len() && hay.subrange(i, i + needle.len()) == needle
}

fn matches_at_exec(hay: &Vec<char>, needle: &Vec<char>, i: usize) -> (r: bool)
    requires
        i + needle@.len() <= hay@.len(),
    ensures
        r == matches_at(hay@, needle@, i as int),
{
    let hl: usize = hay.len();
    let mut j: usize = 0;
    while j < needle.len()
        invariant
            hl == hay@.len(),
            i + needle@.len() <= hay@.len(),
            j <= needle@.len(),
            forall|t: int| 0 <= t < j ==> hay@[i + t] == needle@[t],
        decreases needle@.len() - j,
    {
        assert(i + j < hl);
        if hay[i + j] != needle[j] {
            assert(hay@.subrange(i as int, i + needle@.len()) != needle@) by {
                assert(hay@.subrange(i as int, i + needle@.len())[j as int] == hay@[i + j]);
            }
            return false;
        }
        j = j + 1;
    }
    assert(hay@.subrange(i as int, i + needle@.len()) =~= needle@);
    true
}

/// Substring search: decides whether `needle` occurs contiguously in `hay`.
pub fn contains_sub(hay: &Vec<char>, needle: &Vec<char>) -> (r: bool)
    ensures
        r == contains_seq(hay@, needle@),
{
    if needle.len() > hay.len() {
        return false;
    }
    let last = hay.len() - needle.len();
    let mut i: usize = 0;
    loop
        invariant
            needle@.len() <= hay@.len(),
            last == hay@.len() - needle@.len(),
            i <= last,
            forall|t: int| 0 <= t < i ==> !matches_at(hay@, needle@, t),
        decreases last - i,
    {
        if matches_at_exec(hay, needle, i) {
            return true;
        }
        if i == last {
            assert(forall|t: int| t > last ==> !matches_at(hay@, needle@, t));
            return false;
        }
        i = i + 1;
    }
}

} // verus!
