//! Facts about trimming, searching and splitting character sequences.

use vstd::prelude::*;
use crate::text::{
    contains, has_match_at, is_trimmed, is_white_space, join, lex_less, split_seq, trim, trim_end,
    trim_start,
};

verus! {

/// `part` is a stretch of consecutive characters of `whole`.
pub open spec fn within(part: Seq<char>, whole: Seq<char>) -> bool {
    exists|a: int, b: int| 0 <= a <= b <= whole.len() && #[trigger] whole.subrange(a, b) == part
}

/// What occurs in a stretch of a text occurs in the text.
pub proof fn lemma_within_contains(part: Seq<char>, whole: Seq<char>, pat: Seq<char>)
    requires
        within(part, whole),
        contains(part, pat),
    ensures
        contains(whole, pat),
{
    let (a, b) = choose|a: int, b: int|
        0 <= a <= b <= whole.len() && #[trigger] whole.subrange(a, b) == part;
    let i = choose|i: int| has_match_at(part, pat, i);
    assert(whole.subrange(a + i, a + i + pat.len()) =~= part.subrange(i, i + pat.len()));
    assert(has_match_at(whole, pat, a + i));
}

/// A stretch of a stretch is a stretch.
pub proof fn lemma_within_within(inner: Seq<char>, middle: Seq<char>, outer: Seq<char>)
    requires
        within(inner, middle),
        within(middle, outer),
    ensures
        within(inner, outer),
{
    let (a, b) = choose|a: int, b: int|
        0 <= a <= b <= middle.len() && #[trigger] middle.subrange(a, b) == inner;
    let (c, d) = choose|c: int, d: int|
        0 <= c <= d <= outer.len() && #[trigger] outer.subrange(c, d) == middle;
    assert(outer.subrange(c + a, c + b) =~= inner);
}

/// Trimming at the front leaves the end of the text.
pub proof fn lemma_trim_start_is_suffix(s: Seq<char>)
    ensures
        trim_start(s).len() <= s.len(),
        s.subrange(s.len() - trim_start(s).len(), s.len() as int) == trim_start(s),
    decreases s.len(),
{
    if s.len() > 0 && is_white_space(s[0]) {
        let rest = s.drop_first();
        lemma_trim_start_is_suffix(rest);
        let kept = trim_start(rest);
        assert(s.subrange(s.len() - kept.len(), s.len() as int) =~= rest.subrange(
            rest.len() - kept.len(),
            rest.len() as int,
        ));
    } else {
        assert(s.subrange(0, s.len() as int) =~= s);
    }
}

/// Trimming at the end leaves the front of the text.
pub proof fn lemma_trim_end_is_prefix(s: Seq<char>)
    ensures
        trim_end(s).len() <= s.len(),
        s.subrange(0, trim_end(s).len() as int) == trim_end(s),
    decreases s.len(),
{
    if s.len() > 0 && is_white_space(s.last()) {
        let rest = s.drop_last();
        lemma_trim_end_is_prefix(rest);
        let kept = trim_end(rest);
        assert(s.subrange(0, kept.len() as int) =~= rest.subrange(0, kept.len() as int));
    } else {
        assert(s.subrange(0, s.len() as int) =~= s);
    }
}

/// A trimmed text is a stretch of the text it was trimmed from.
pub proof fn lemma_trim_within(s: Seq<char>)
    ensures
        within(trim_start(s), s),
        within(trim_end(s), s),
        within(trim(s), s),
{
    lemma_trim_start_is_suffix(s);
    lemma_trim_end_is_prefix(s);
    lemma_trim_end_is_prefix(trim_start(s));
    let front = trim_start(s);
    assert(front.subrange(0, trim(s).len() as int) == trim(s));
    assert(within(trim(s), front));
    assert(within(front, s));
    lemma_within_within(trim(s), front, s);
}

/// Splitting gives at least one piece; the first piece is the front of the
/// text; every piece is a stretch of the text and holds no occurrence of
/// the pattern.
pub proof fn lemma_split_pieces(s: Seq<char>, pat: Seq<char>)
    requires
        pat.len() > 0,
    ensures
        split_seq(s, pat).len() >= 1,
        split_seq(s, pat)[0].len() <= s.len(),
        s.subrange(0, split_seq(s, pat)[0].len() as int) == split_seq(s, pat)[0],
        forall|k: int|
            0 <= k < split_seq(s, pat).len() ==> within(#[trigger] split_seq(s, pat)[k], s),
        forall|k: int|
            0 <= k < split_seq(s, pat).len() ==> !contains(#[trigger] split_seq(s, pat)[k], pat),
    decreases s.len(),
{
    let pieces = split_seq(s, pat);
    let n = pat.len() as int;
    if s.len() < pat.len() {
        assert(s.subrange(0, s.len() as int) =~= s);
        assert forall|k: int| 0 <= k < pieces.len() implies !contains(#[trigger] pieces[k], pat) by {
            assert forall|i: int| !has_match_at(s, pat, i) by {}
        }
    } else if s.subrange(0, n) == pat {
        let tail = s.subrange(n, s.len() as int);
        lemma_split_pieces(tail, pat);
        let rest = split_seq(tail, pat);
        assert(pieces[0] =~= Seq::<char>::empty());
        assert(s.subrange(0, 0) =~= pieces[0]);
        assert(within(tail, s));
        assert forall|k: int| 0 <= k < pieces.len() implies within(#[trigger] pieces[k], s)
            && !contains(pieces[k], pat) by {
            if k == 0 {
                assert forall|i: int| !has_match_at(pieces[0], pat, i) by {}
            } else {
                assert(pieces[k] == rest[k - 1]);
                lemma_within_within(rest[k - 1], tail, s);
            }
        }
    } else {
        let tail = s.drop_first();
        lemma_split_pieces(tail, pat);
        let rest = split_seq(tail, pat);
        let head = seq![s[0]] + rest[0];
        assert(pieces[0] == head);
        assert(s.subrange(0, head.len() as int) =~= head) by {
            assert(tail.subrange(0, rest[0].len() as int) == rest[0]);
            assert forall|i: int| 0 <= i < head.len() implies s[i] == head[i] by {
                if i > 0 {
                    assert(rest[0][i - 1] == tail.subrange(0, rest[0].len() as int)[i - 1]);
                }
            }
        }
        assert(s.subrange(1, s.len() as int) =~= tail);
        assert(within(tail, s));
        assert forall|k: int| 0 <= k < pieces.len() implies within(#[trigger] pieces[k], s)
            && !contains(pieces[k], pat) by {
            if k == 0 {
                assert forall|i: int| !has_match_at(head, pat, i) by {
                    if has_match_at(head, pat, i) {
                        if i == 0 {
                            assert(s.subrange(0, n) =~= head.subrange(0, n));
                        } else {
                            assert(rest[0].subrange(i - 1, i - 1 + n) =~= head.subrange(i, i + n));
                            assert(has_match_at(rest[0], pat, i - 1));
                        }
                    }
                }
            } else {
                assert(pieces[k] == rest[k]);
                lemma_within_within(rest[k], tail, s);
            }
        }
    }
}

/// No text comes before itself.
pub proof fn lemma_lex_less_irreflexive(a: Seq<char>)
    ensures
        !lex_less(a, a),
    decreases a.len(),
{
    if a.len() > 0 {
        lemma_lex_less_irreflexive(a.drop_first());
    }
}

/// The lexical order is transitive.
pub proof fn lemma_lex_less_transitive(a: Seq<char>, b: Seq<char>, c: Seq<char>)
    requires
        lex_less(a, b),
        lex_less(b, c),
    ensures
        lex_less(a, c),
    decreases a.len(),
{
    if a.len() > 0 && a[0] == b[0] && b[0] == c[0] {
        lemma_lex_less_transitive(a.drop_first(), b.drop_first(), c.drop_first());
    }
}

/// Of two texts at most one comes before the other.
pub proof fn lemma_lex_less_asymmetric(a: Seq<char>, b: Seq<char>)
    requires
        lex_less(a, b),
    ensures
        !lex_less(b, a),
{
    if lex_less(b, a) {
        lemma_lex_less_transitive(a, b, a);
        lemma_lex_less_irreflexive(a);
    }
}

/// Exchanging two elements of a sequence keeps what it holds.
pub proof fn lemma_swap_keeps_multiset<A>(s: Seq<A>, i: int, j: int)
    requires
        0 <= i < s.len(),
        0 <= j < s.len(),
    ensures
        s.update(i, s[j]).update(j, s[i]).to_multiset() == s.to_multiset(),
{
    let once = s.update(i, s[j]);
    vstd::seq_lib::to_multiset_update(s, i, s[j]);
    vstd::seq_lib::to_multiset_update(once, j, s[i]);
    vstd::seq_lib::to_multiset_contains(s, s[i]);
    vstd::seq_lib::to_multiset_contains(s, s[j]);
    assert(s.contains(s[i]));
    assert(s.contains(s[j]));
    assert(once.update(j, s[i]).to_multiset() =~= s.to_multiset());
}

/// The character `c` stands somewhere in `s`.
pub open spec fn has_char(s: Seq<char>, c: char) -> bool {
    exists|i: int| 0 <= i < s.len() && #[trigger] s[i] == c
}

/// A pattern of one character occurs where that character stands.
pub proof fn lemma_contains_char(s: Seq<char>, c: char)
    ensures
        contains(s, seq![c]) <==> has_char(s, c),
{
    let pat = seq![c];
    if contains(s, pat) {
        let i = choose|i: int| has_match_at(s, pat, i);
        assert(s.subrange(i, i + 1)[0] == pat[0]);
        assert(s[i] == c);
    }
    if has_char(s, c) {
        let i = choose|i: int| 0 <= i < s.len() && #[trigger] s[i] == c;
        assert(s.subrange(i, i + 1) =~= pat);
        assert(has_match_at(s, pat, i));
    }
}

/// A character stands in a text of two parts where it stands in one of
/// them.
pub proof fn lemma_has_char_concat(a: Seq<char>, b: Seq<char>, c: char)
    ensures
        has_char(a + b, c) <==> has_char(a, c) || has_char(b, c),
{
    let whole = a + b;
    if has_char(whole, c) {
        let i = choose|i: int| 0 <= i < whole.len() && #[trigger] whole[i] == c;
        if i < a.len() {
            assert(a[i] == c);
        } else {
            assert(b[i - a.len()] == c);
        }
    }
    if has_char(a, c) {
        let i = choose|i: int| 0 <= i < a.len() && #[trigger] a[i] == c;
        assert(whole[i] == c);
    }
    if has_char(b, c) {
        let i = choose|i: int| 0 <= i < b.len() && #[trigger] b[i] == c;
        assert(whole[a.len() + i] == c);
    }
}

/// A character that stands in a joined text stands in one of the parts or
/// in the separator.
pub proof fn lemma_has_char_join(parts: Seq<Seq<char>>, sep: Seq<char>, c: char)
    requires
        !has_char(sep, c),
        forall|k: int| 0 <= k < parts.len() ==> !has_char(#[trigger] parts[k], c),
    ensures
        !has_char(join(parts, sep), c),
    decreases parts.len(),
{
    if parts.len() >= 2 {
        let rest = parts.drop_first();
        assert forall|k: int| 0 <= k < rest.len() implies !has_char(#[trigger] rest[k], c) by {
            assert(rest[k] == parts[k + 1]);
        }
        lemma_has_char_join(rest, sep, c);
        lemma_has_char_concat(parts[0], sep, c);
        lemma_has_char_concat(parts[0] + sep, join(rest, sep), c);
    }
}

/// A text in which the pattern does not occur is its own single piece.
pub proof fn lemma_split_none(s: Seq<char>, pat: Seq<char>)
    requires
        pat.len() > 0,
        !contains(s, pat),
    ensures
        split_seq(s, pat) == seq![s],
    decreases s.len(),
{
    let n = pat.len() as int;
    if s.len() >= pat.len() {
        assert(!has_match_at(s, pat, 0));
        let tail = s.drop_first();
        if contains(tail, pat) {
            let i = choose|i: int| has_match_at(tail, pat, i);
            assert(s.subrange(i + 1, i + 1 + n) =~= tail.subrange(i, i + n));
            assert(has_match_at(s, pat, i + 1));
        }
        lemma_split_none(tail, pat);
        assert(seq![tail].update(0, seq![s[0]] + tail) =~= seq![s]) by {
            assert(seq![s[0]] + tail =~= s);
        }
    }
}

/// The pattern does not occur in `a + pat` before the end of `a`: the
/// first occurrence is the one that follows `a`.
pub open spec fn clean_before(a: Seq<char>, pat: Seq<char>) -> bool {
    forall|i: int| 0 <= i < a.len() ==> !has_match_at(a + pat, pat, i)
}

/// Where the first occurrence of the pattern is the one that follows `a`,
/// the first piece is `a` and the others are the pieces of what follows the
/// pattern.
pub proof fn lemma_split_step(a: Seq<char>, pat: Seq<char>, rest: Seq<char>)
    requires
        pat.len() > 0,
        clean_before(a, pat),
    ensures
        split_seq(a + pat + rest, pat) == seq![a] + split_seq(rest, pat),
    decreases a.len(),
{
    let s = a + pat + rest;
    let n = pat.len() as int;
    if a.len() == 0 {
        assert(s.subrange(0, n) =~= pat);
        assert(s.subrange(n, s.len() as int) =~= rest);
        assert(a =~= Seq::<char>::empty());
    } else {
        assert(!has_match_at(a + pat, pat, 0));
        assert(s.subrange(0, n) =~= (a + pat).subrange(0, n));
        let shorter = a.drop_first();
        assert(s.drop_first() =~= shorter + pat + rest);
        assert forall|i: int| 0 <= i < shorter.len() implies !has_match_at(
            shorter + pat,
            pat,
            i,
        ) by {
            assert(!has_match_at(a + pat, pat, i + 1));
            assert((a + pat).subrange(i + 1, i + 1 + n) =~= (shorter + pat).subrange(i, i + n));
        }
        lemma_split_step(shorter, pat, rest);
        let pieces = seq![shorter] + split_seq(rest, pat);
        assert(seq![s[0]] + shorter =~= a);
        assert(pieces.update(0, seq![s[0]] + pieces[0]) =~= seq![a] + split_seq(rest, pat));
    }
}

/// A text in which a character does not stand is clean before a pattern of
/// that one character.
pub proof fn lemma_clean_before_char(a: Seq<char>, c: char)
    requires
        !has_char(a, c),
    ensures
        clean_before(a, seq![c]),
        !contains(a, seq![c]),
{
    let pat = seq![c];
    lemma_contains_char(a, c);
    assert forall|i: int| 0 <= i < a.len() implies !has_match_at(a + pat, pat, i) by {
        if has_match_at(a + pat, pat, i) {
            assert((a + pat).subrange(i, i + 1)[0] == pat[0]);
            assert(a[i] == c);
        }
    }
}

/// Parts that are joined by a character which stands in none of them come
/// back when the joined text is split at that character.
pub proof fn lemma_split_join_char(parts: Seq<Seq<char>>, c: char)
    requires
        parts.len() >= 1,
        forall|k: int| 0 <= k < parts.len() ==> !has_char(#[trigger] parts[k], c),
    ensures
        split_seq(join(parts, seq![c]), seq![c]) == parts,
    decreases parts.len(),
{
    let pat = seq![c];
    if parts.len() == 1 {
        lemma_clean_before_char(parts[0], c);
        lemma_split_none(parts[0], pat);
        assert(seq![parts[0]] =~= parts);
    } else {
        let rest = parts.drop_first();
        assert forall|k: int| 0 <= k < rest.len() implies !has_char(#[trigger] rest[k], c) by {
            assert(rest[k] == parts[k + 1]);
        }
        lemma_split_join_char(rest, c);
        lemma_clean_before_char(parts[0], c);
        lemma_split_step(parts[0], pat, join(rest, pat));
        assert(seq![parts[0]] + rest =~= parts);
    }
}

/// A text that is its own trimmed form neither begins nor ends with white
/// space, and trimming at one end leaves it as it is.
pub proof fn lemma_trimmed_ends(s: Seq<char>)
    requires
        is_trimmed(s),
    ensures
        trim_start(s) == s,
        trim_end(s) == s,
        s.len() > 0 ==> !is_white_space(s[0]) && !is_white_space(s.last()),
{
    lemma_trim_start_is_suffix(s);
    lemma_trim_end_is_prefix(trim_start(s));
    assert(trim_start(s).len() == s.len());
    assert(s.subrange(0, s.len() as int) =~= s);
    if s.len() > 0 {
        if is_white_space(s[0]) {
            lemma_trim_start_is_suffix(s.drop_first());
        }
        if is_white_space(s.last()) {
            lemma_trim_end_is_prefix(s.drop_last());
        }
    }
}

/// A trimmed text that is not empty comes back when it is trimmed with a
/// space before it, or with a space on either side.
pub proof fn lemma_trim_padded(s: Seq<char>)
    requires
        is_trimmed(s),
        s.len() > 0,
    ensures
        trim(seq![' '] + s) == s,
        trim(seq![' '] + s + seq![' ']) == s,
        trim_end(s + seq![' ']) == s,
{
    lemma_trimmed_ends(s);
    let front = seq![' '] + s;
    assert(front.drop_first() =~= s);
    assert(trim_start(front) == trim_start(s));
    let back = s + seq![' '];
    assert(back.drop_last() =~= s);
    assert(trim_end(back) == trim_end(s));
    assert(back[0] == s[0]);
    assert(trim_start(back) == back);
    let both = seq![' '] + s + seq![' '];
    assert(both.drop_first() =~= back);
    assert(trim_start(both) == trim_start(back));
}

/// What is left after trimming at the front does not begin with white
/// space.
pub proof fn lemma_trim_start_head(s: Seq<char>)
    ensures
        trim_start(s).len() > 0 ==> !is_white_space(trim_start(s)[0]),
    decreases s.len(),
{
    if s.len() > 0 && is_white_space(s[0]) {
        lemma_trim_start_head(s.drop_first());
    }
}

/// What is left after trimming at the end does not end with white space.
pub proof fn lemma_trim_end_tail(s: Seq<char>)
    ensures
        trim_end(s).len() > 0 ==> !is_white_space(trim_end(s).last()),
    decreases s.len(),
{
    if s.len() > 0 && is_white_space(s.last()) {
        lemma_trim_end_tail(s.drop_last());
    }
}

/// A text that neither begins nor ends with white space is its own trimmed
/// form.
pub proof fn lemma_clean_ends_trimmed(s: Seq<char>)
    requires
        s.len() > 0 ==> !is_white_space(s[0]) && !is_white_space(s.last()),
    ensures
        is_trimmed(s),
{
    assert(trim_start(s) == s);
    assert(trim_end(s) == s);
}

/// Trimming twice is trimming once.
pub proof fn lemma_trim_is_trimmed(s: Seq<char>)
    ensures
        is_trimmed(trim(s)),
{
    let front = trim_start(s);
    let both = trim_end(front);
    lemma_trim_start_head(s);
    lemma_trim_end_tail(front);
    lemma_trim_end_is_prefix(front);
    if both.len() > 0 {
        assert(both[0] == front.subrange(0, both.len() as int)[0]);
    }
    lemma_clean_ends_trimmed(both);
}

/// The front of a trimmed text, trimmed at its end, is a trimmed text.
pub proof fn lemma_trim_end_of_front(whole: Seq<char>, front: Seq<char>)
    requires
        is_trimmed(whole),
        front.len() <= whole.len(),
        whole.subrange(0, front.len() as int) == front,
    ensures
        is_trimmed(trim_end(front)),
{
    let kept = trim_end(front);
    lemma_trimmed_ends(whole);
    lemma_trim_end_tail(front);
    lemma_trim_end_is_prefix(front);
    if kept.len() > 0 {
        assert(kept[0] == front.subrange(0, kept.len() as int)[0]);
        assert(front[0] == whole.subrange(0, front.len() as int)[0]);
    }
    lemma_clean_ends_trimmed(kept);
}

} // verus!
