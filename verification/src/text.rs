//! Character sequences: the mathematical meaning of the string operations
//! that the dictionary's file format and lookups are built on, and the
//! library calls that carry them out.

use vstd::prelude::*;
use vstd::string::*;
use trim_in_place::TrimInPlace;

verus! {

/// The characters that Unicode gives the property `White_Space`; this is the
/// set that `char::is_whitespace` tests for.
pub open spec fn is_white_space(c: char) -> bool {
    let n: u32 = c as u32;
    ||| 0x09 <= n <= 0x0D
    ||| n == 0x20
    ||| n == 0x85
    ||| n == 0xA0
    ||| n == 0x1680
    ||| 0x2000 <= n <= 0x200A
    ||| n == 0x2028
    ||| n == 0x2029
    ||| n == 0x202F
    ||| n == 0x205F
    ||| n == 0x3000
}

/// `s` without its leading white space.
pub open spec fn trim_start(s: Seq<char>) -> Seq<char>
    decreases s.len(),
{
    if s.len() > 0 && is_white_space(s[0]) {
        trim_start(s.drop_first())
    } else {
        s
    }
}

/// `s` without its trailing white space.
pub open spec fn trim_end(s: Seq<char>) -> Seq<char>
    decreases s.len(),
{
    if s.len() > 0 && is_white_space(s.last()) {
        trim_end(s.drop_last())
    } else {
        s
    }
}

/// `s` without white space at either end.
pub open spec fn trim(s: Seq<char>) -> Seq<char> {
    trim_end(trim_start(s))
}

/// A text is its own trimmed form: it neither begins nor ends with white
/// space.
pub open spec fn is_trimmed(s: Seq<char>) -> bool {
    trim(s) == s
}

/// `pat` stands in `s` at position `i`.
pub open spec fn has_match_at(s: Seq<char>, pat: Seq<char>, i: int) -> bool {
    &&& 0 <= i
    &&& i + pat.len() <= s.len()
    &&& s.subrange(i, i + pat.len()) == pat
}

/// `pat` occurs somewhere in `s`.
pub open spec fn contains(s: Seq<char>, pat: Seq<char>) -> bool {
    exists|i: int| has_match_at(s, pat, i)
}

/// The pieces of `s` between the occurrences of `pat`, found from the left
/// and never overlapping. There is always at least one piece.
pub open spec fn split_seq(s: Seq<char>, pat: Seq<char>) -> Seq<Seq<char>>
    decreases s.len(),
{
    if pat.len() == 0 || s.len() < pat.len() {
        seq![s]
    } else if s.subrange(0, pat.len() as int) == pat {
        seq![Seq::<char>::empty()] + split_seq(s.subrange(pat.len() as int, s.len() as int), pat)
    } else {
        let rest = split_seq(s.drop_first(), pat);
        rest.update(0, seq![s[0]] + rest[0])
    }
}

/// The parts written one after another with `sep` between neighbours.
pub open spec fn join(parts: Seq<Seq<char>>, sep: Seq<char>) -> Seq<char>
    decreases parts.len(),
{
    if parts.len() == 0 {
        Seq::<char>::empty()
    } else if parts.len() == 1 {
        parts[0]
    } else {
        parts[0] + sep + join(parts.drop_first(), sep)
    }
}

/// An ASCII capital letter becomes its small letter; every other character
/// stays as it is.
pub open spec fn fold_char(c: char) -> char {
    if 0x41 <= c as u32 <= 0x5A {
        ((c as u32 + 32) as u8) as char
    } else {
        c
    }
}

/// `s` with its ASCII capital letters made small: the key under which two
/// terms count as the same.
pub open spec fn fold(s: Seq<char>) -> Seq<char> {
    s.map_values(|c: char| fold_char(c))
}

/// `a` and `b` differ at most in the case of ASCII letters.
pub open spec fn same_ignoring_case(a: Seq<char>, b: Seq<char>) -> bool {
    fold(a) == fold(b)
}

/// `a` comes strictly before `b` in the lexical order of code points.
pub open spec fn lex_less(a: Seq<char>, b: Seq<char>) -> bool
    decreases a.len(),
{
    if b.len() == 0 {
        false
    } else if a.len() == 0 {
        true
    } else if a[0] != b[0] {
        (a[0] as u32) < (b[0] as u32)
    } else {
        lex_less(a.drop_first(), b.drop_first())
    }
}

/// What `str::to_uppercase` returns for the text `s`.
pub uninterp spec fn upper_case(s: Seq<char>) -> Seq<char>;

/// What `str::to_lowercase` returns for the text `s`.
pub uninterp spec fn lower_case(s: Seq<char>) -> Seq<char>;

/// The texts of a list of strings.
pub open spec fn texts(v: Seq<String>) -> Seq<Seq<char>> {
    v.map_values(|s: String| s@)
}

/// Calls `TrimInPlace::trim_in_place` of the crate `trim-in-place`, which
/// takes the result of `str::trim` and moves it to the front of the same
/// buffer: afterwards the string is its former self without white space at
/// either end.
#[verifier::external_body]
pub(crate) fn trim_in_place(s: &mut String)
    ensures
        final(s)@ == trim(old(s)@),
{
    s.trim_in_place();
}

/// Calls `str::trim`: the slice without leading and trailing white space.
#[verifier::external_body]
pub(crate) fn trimmed<'a>(s: &'a str) -> (r: &'a str)
    ensures
        r@ == trim(s@),
{
    s.trim()
}

/// Calls `str::trim_end`: the slice without trailing white space.
#[verifier::external_body]
pub(crate) fn trimmed_end<'a>(s: &'a str) -> (r: &'a str)
    ensures
        r@ == trim_end(s@),
{
    s.trim_end()
}

/// Calls `str::contains` with a string pattern: whether `pat` occurs in `s`.
#[verifier::external_body]
pub(crate) fn has_substring(s: &str, pat: &str) -> (r: bool)
    ensures
        r == contains(s@, pat@),
{
    s.contains(pat)
}

/// Calls `str::split` with a non-empty string pattern and copies each piece
/// it yields, in order. The pieces are those between the matches of `pat`,
/// which are found from the left and do not overlap.
#[verifier::external_body]
pub(crate) fn split_on(s: &str, pat: &str) -> (r: Vec<String>)
    requires
        pat@.len() > 0,
    ensures
        texts(r@) == split_seq(s@, pat@),
{
    let mut pieces: Vec<String> = Vec::new();
    for piece in s.split(pat) {
        pieces.push(piece.to_string());
    }
    pieces
}

/// Calls `str::to_uppercase`.
#[verifier::external_body]
pub(crate) fn upper(s: &str) -> (r: String)
    ensures
        r@ == upper_case(s@),
{
    s.to_uppercase()
}

/// Calls `str::to_lowercase`.
#[verifier::external_body]
pub(crate) fn lower(s: &str) -> (r: String)
    ensures
        r@ == lower_case(s@),
{
    s.to_lowercase()
}

/// Calls `str::eq_ignore_ascii_case`: the two strings are equal once the
/// ASCII letters `A` to `Z` are replaced by `a` to `z`.
#[verifier::external_body]
pub(crate) fn equal_ignoring_case(a: &str, b: &str) -> (r: bool)
    ensures
        r == same_ignoring_case(a@, b@),
{
    a.eq_ignore_ascii_case(b)
}

/// Compares two strings with `>`. Strings are ordered lexically by their
/// bytes, which for UTF-8 is the lexical order of their code points.
#[verifier::external_body]
pub(crate) fn sorts_after(a: &str, b: &str) -> (r: bool)
    ensures
        r == lex_less(b@, a@),
{
    a > b
}

/// Calls `<[T]>::swap` on the vector's elements: the two places exchange
/// their values and every other place keeps its own.
#[verifier::external_body]
pub(crate) fn swap_places<T>(v: &mut Vec<T>, i: usize, j: usize)
    requires
        i < old(v)@.len(),
        j < old(v)@.len(),
    ensures
        final(v)@ == old(v)@.update(i as int, old(v)@[j as int]).update(j as int, old(v)@[i as int]),
{
    v.swap(i, j);
}

/// Appending a part to a non-empty list appends the separator and the part
/// to the joined text; appending to the empty list gives the part alone.
pub proof fn lemma_join_push(parts: Seq<Seq<char>>, sep: Seq<char>, last: Seq<char>)
    ensures
        join(parts.push(last), sep) == if parts.len() == 0 {
            last
        } else {
            join(parts, sep) + sep + last
        },
    decreases parts.len(),
{
    let longer = parts.push(last);
    if parts.len() == 0 {
    } else if parts.len() == 1 {
        assert(longer.drop_first() =~= seq![last]);
        assert(join(longer.drop_first(), sep) == last);
    } else {
        assert(longer.drop_first() =~= parts.drop_first().push(last));
        lemma_join_push(parts.drop_first(), sep, last);
        assert(join(longer, sep) == parts[0] + sep + (join(parts.drop_first(), sep) + sep + last));
        assert(join(longer, sep) =~= join(parts, sep) + sep + last);
    }
}

/// Joins the strings with `sep` between neighbours.
pub fn join_with(parts: &Vec<String>, sep: &str) -> (r: String)
    ensures
        r@ == join(texts(parts@), sep@),
{
    let mut out = String::new();
    let mut i: usize = 0;
    while i < parts.len()
        invariant
            i <= parts@.len(),
            out@ == join(texts(parts@).subrange(0, i as int), sep@),
        decreases parts@.len() - i,
    {
        proof {
            let done = texts(parts@).subrange(0, i as int);
            lemma_join_push(done, sep@, parts@[i as int]@);
            assert(texts(parts@).subrange(0, i + 1) =~= done.push(parts@[i as int]@));
        }
        if i > 0 {
            out.append(sep);
        }
        out.append(parts[i].as_str());
        i += 1;
    }
    assert(texts(parts@).subrange(0, i as int) =~= texts(parts@));
    out
}

} // verus!
