//! Writing and reading agree: the text that is written for a store reads
//! back as the same entries.

use vstd::prelude::*;
use crate::format::{
    has_empty, line_step, load, read_text, render, render_line, render_lines, spaced_arrow,
    spaced_equals, trim_each, Loaded, Step,
};
use crate::laws::lemma_same_entries_valid;
use crate::lemmas::{
    clean_before, has_char, lemma_clean_before_char, lemma_contains_char,
    lemma_has_char_concat, lemma_has_char_join, lemma_split_join_char, lemma_split_none,
    lemma_split_step, lemma_trim_padded, lemma_trimmed_ends,
};
use crate::model::{
    arrow, equals_sign, first_hit, is_term, left_equal_marks, lemma_first_hit, line_break,
    valid_store, Entry,
};
use crate::text::{
    contains, fold, has_match_at, is_trimmed, is_white_space, join, split_seq, trim, trim_end,
    trim_start,
};

verus! {

/// A term that can stand in a line of the file: it holds no line break.
pub open spec fn writable_term(s: Seq<char>) -> bool {
    !contains(s, line_break())
}

/// A store whose text can be read back: no term holds a line break, and
/// no right term is empty.
pub open spec fn writable(entries: Seq<Entry>) -> bool {
    &&& forall|i: int| 0 <= i < entries.len() ==> writable_term((#[trigger] entries[i]).left)
    &&& forall|i: int, k: int|
        0 <= i < entries.len() && 0 <= k < entries[i].rights.len() ==> writable_term(
            #[trigger] entries[i].rights[k],
        ) && entries[i].rights[k].len() > 0
}

/// A joined text ends as its last part ends, where that part is not empty.
pub proof fn lemma_join_last(parts: Seq<Seq<char>>, sep: Seq<char>)
    requires
        parts.len() >= 1,
        parts.last().len() > 0,
    ensures
        join(parts, sep).len() > 0,
        join(parts, sep).last() == parts.last().last(),
    decreases parts.len(),
{
    if parts.len() >= 2 {
        let rest = parts.drop_first();
        assert(rest.last() == parts.last());
        lemma_join_last(rest, sep);
    }
}

/// The mark `-->` does not occur in a text that holds none with a space
/// set before it.
proof fn lemma_space_before_keeps_clear(s: Seq<char>)
    requires
        !contains(s, arrow()),
    ensures
        !contains(seq![' '] + s, arrow()),
{
    let padded = seq![' '] + s;
    if contains(padded, arrow()) {
        let i = choose|i: int| has_match_at(padded, arrow(), i);
        if i == 0 {
            assert(padded.subrange(0, 3)[0] == arrow()[0]);
        } else {
            assert(s.subrange(i - 1, i + 2) =~= padded.subrange(i, i + 3));
            assert(has_match_at(s, arrow(), i - 1));
        }
    }
}

/// The mark `-->` does not occur in a text that holds none with a space
/// set after it, also where the mark itself follows.
proof fn lemma_space_after_keeps_clear(s: Seq<char>)
    requires
        !contains(s, arrow()),
    ensures
        !contains(s + seq![' '], arrow()),
        clean_before(s + seq![' '], arrow()),
{
    let padded = s + seq![' '];
    let longer = padded + arrow();
    assert forall|i: int| 0 <= i < padded.len() implies !has_match_at(longer, arrow(), i) by {
        if has_match_at(longer, arrow(), i) {
            let window = longer.subrange(i, i + 3);
            if i + 3 <= s.len() {
                assert(s.subrange(i, i + 3) =~= window);
                assert(has_match_at(s, arrow(), i));
            } else {
                let at = s.len() - i;
                assert(window[at] == longer[s.len() as int]);
                assert(window[at] == arrow()[at]);
            }
        }
    }
    if contains(padded, arrow()) {
        let i = choose|i: int| has_match_at(padded, arrow(), i);
        assert(longer.subrange(i, i + 3) =~= padded.subrange(i, i + 3));
        assert(has_match_at(longer, arrow(), i));
    }
}

/// The right terms of a line come back: the text after the `=`, which is a
/// space and the right terms joined by ` --> `, splits at `-->` into pieces
/// that are the right terms once trimmed.
pub proof fn lemma_rights_read_back(rights: Seq<Seq<char>>)
    requires
        rights.len() >= 1,
        forall|k: int|
            0 <= k < rights.len() ==> !contains(#[trigger] rights[k], arrow()) && is_trimmed(
                rights[k],
            ) && rights[k].len() > 0,
    ensures
        trim_each(split_seq(seq![' '] + join(rights, spaced_arrow()), arrow())) == rights,
    decreases rights.len(),
{
    let text = seq![' '] + join(rights, spaced_arrow());
    let first = rights[0];
    lemma_trim_padded(first);
    if rights.len() == 1 {
        lemma_space_before_keeps_clear(first);
        lemma_split_none(text, arrow());
        assert(trim_each(seq![text]) =~= rights);
    } else {
        let rest = rights.drop_first();
        assert forall|k: int| 0 <= k < rest.len() implies !contains(#[trigger] rest[k], arrow())
            && is_trimmed(rest[k]) && rest[k].len() > 0 by {
            assert(rest[k] == rights[k + 1]);
        }
        lemma_rights_read_back(rest);
        let head = seq![' '] + first + seq![' '];
        let tail = seq![' '] + join(rest, spaced_arrow());
        assert(text =~= head + arrow() + tail);
        lemma_space_before_keeps_clear(first);
        lemma_space_after_keeps_clear(seq![' '] + first);
        lemma_split_step(head, arrow(), tail);
        let pieces = split_seq(tail, arrow());
        assert(trim_each(seq![head] + pieces) =~= seq![first] + trim_each(pieces));
        assert(seq![first] + rest =~= rights);
    }
}

/// The line of an entry reads back as the entry, in a store that does not
/// have its left term yet.
pub proof fn lemma_line_reads_back(held: Seq<Entry>, entry: Entry)
    requires
        is_term(entry.left),
        entry.rights.len() >= 1,
        forall|k: int|
            0 <= k < entry.rights.len() ==> is_term(#[trigger] entry.rights[k])
                && entry.rights[k].len() > 0,
        forall|i: int| 0 <= i < held.len() ==> fold((#[trigger] held[i]).left) != fold(entry.left),
    ensures
        line_step(held, render_line(entry)) == Step::Add(entry),
{
    let left = entry.left;
    let rights = entry.rights;
    let joined = join(rights, spaced_arrow());
    let after = seq![' '] + joined;
    let line = render_line(entry);
    let before = if left.len() > 0 {
        left + seq![' ']
    } else {
        Seq::<char>::empty()
    };
    let t = before + equals_sign() + after;

    // the line, trimmed, is the left term's piece, the mark, and the rest
    lemma_join_last(rights, spaced_arrow());
    lemma_trimmed_ends(rights.last());
    lemma_trimmed_ends(left);
    assert(line =~= left + seq![' '] + equals_sign() + after);
    assert(line.last() == joined.last());
    if left.len() > 0 {
        assert(line[0] == left[0]);
        assert(trim_start(line) == line);
        assert(t =~= line);
    } else {
        assert(is_white_space(line[0]));
        assert(line.drop_first() =~= t);
        assert(t[0] == '=');
        assert(trim_start(t) == t);
        assert(trim_start(line) == t);
    }
    assert(t.last() == joined.last());
    assert(trim_end(t) == t);
    assert(trim(line) == t);

    // the pieces at the `=`
    lemma_contains_char(left, '=');
    lemma_has_char_concat(left, seq![' '], '=');
    assert(!has_char(seq![' '], '=')) by {
        if has_char(seq![' '], '=') {
            let i = choose|i: int| 0 <= i < seq![' '].len() && #[trigger] seq![' '][i] == '=';
        }
    }
    assert(!has_char(before, '='));
    lemma_clean_before_char(before, '=');
    lemma_split_step(before, equals_sign(), after);
    assert(!has_char(spaced_arrow(), '=')) by {
        if has_char(spaced_arrow(), '=') {
            let i = choose|i: int|
                0 <= i < spaced_arrow().len() && #[trigger] spaced_arrow()[i] == '=';
        }
    }
    assert forall|k: int| 0 <= k < rights.len() implies !has_char(#[trigger] rights[k], '=') by {
        lemma_contains_char(rights[k], '=');
    }
    lemma_has_char_join(rights, spaced_arrow(), '=');
    lemma_has_char_concat(seq![' '], joined, '=');
    lemma_clean_before_char(after, '=');
    lemma_split_none(after, equals_sign());
    let pieces = split_seq(t, equals_sign());
    assert(pieces =~= seq![before, after]);

    // the left term
    if left.len() > 0 {
        lemma_space_after_keeps_clear(left);
        lemma_trim_padded(left);
    } else {
        assert(!contains(before, arrow())) by {
            assert forall|i: int| !has_match_at(before, arrow(), i) by {}
        }
    }
    assert(trim_end(before) == left);
    let marks = left_equal_marks(held, left);
    if held.len() > 0 {
        lemma_first_hit(marks, 0, 0);
    }
    assert(first_hit(marks, 0, 0) is None);

    // the right terms
    lemma_rights_read_back(rights);
    assert(!has_empty(rights));
    assert(t.len() > 0);
}

/// Reading the lines of a store from its `k`-th line on, into the entries
/// before that line, gives the whole store.
pub proof fn lemma_lines_read_back(entries: Seq<Entry>, k: int)
    requires
        valid_store(entries),
        writable(entries),
        0 <= k <= entries.len(),
    ensures
        load(entries.take(k), render_lines(entries).skip(k), k as nat) == (Loaded {
            entries,
            failure: None,
        }),
    decreases entries.len() - k,
{
    let lines = render_lines(entries);
    let held = entries.take(k);
    if k == entries.len() {
        assert(held =~= entries);
        assert(lines.skip(k).len() == 0);
    } else {
        let entry = entries[k];
        assert forall|i: int| 0 <= i < held.len() implies fold((#[trigger] held[i]).left) != fold(
            entry.left,
        ) by {
            assert(held[i] == entries[i]);
        }
        lemma_line_reads_back(held, entry);
        assert(lines.skip(k)[0] == render_line(entry));
        assert(lines.skip(k).drop_first() =~= lines.skip(k + 1));
        assert(held.push(entry) =~= entries.take(k + 1));
        lemma_lines_read_back(entries, k + 1);
    }
}

/// No line of a writable store holds a line break.
pub proof fn lemma_line_has_no_break(entry: Entry)
    requires
        writable_term(entry.left),
        forall|k: int| 0 <= k < entry.rights.len() ==> writable_term(#[trigger] entry.rights[k]),
    ensures
        !has_char(render_line(entry), '\n'),
{
    lemma_contains_char(entry.left, '\n');
    assert forall|k: int| 0 <= k < entry.rights.len() implies !has_char(
        #[trigger] entry.rights[k],
        '\n',
    ) by {
        lemma_contains_char(entry.rights[k], '\n');
    }
    assert(!has_char(spaced_arrow(), '\n')) by {
        if has_char(spaced_arrow(), '\n') {
            let i = choose|i: int|
                0 <= i < spaced_arrow().len() && #[trigger] spaced_arrow()[i] == '\n';
        }
    }
    assert(!has_char(spaced_equals(), '\n')) by {
        if has_char(spaced_equals(), '\n') {
            let i = choose|i: int|
                0 <= i < spaced_equals().len() && #[trigger] spaced_equals()[i] == '\n';
        }
    }
    lemma_has_char_join(entry.rights, spaced_arrow(), '\n');
    lemma_has_char_concat(entry.left, spaced_equals(), '\n');
    lemma_has_char_concat(entry.left + spaced_equals(), join(entry.rights, spaced_arrow()), '\n');
}

/// Writing a store and reading the text back into an empty store gives the
/// entries as they were written, in the same order, and no line is
/// refused. This holds of a valid store whose terms hold no line break and
/// whose right terms are not empty.
pub proof fn law_written_text_reads_back(entries: Seq<Entry>)
    requires
        valid_store(entries),
        writable(entries),
    ensures
        read_text(Seq::<Entry>::empty(), render(entries)) == (Loaded { entries, failure: None }),
{
    let lines = render_lines(entries);
    let nothing = Seq::<Entry>::empty();
    if entries.len() == 0 {
        let blank = Seq::<char>::empty();
        assert(render(entries) =~= blank);
        assert(split_seq(blank, line_break()) =~= seq![blank]);
        assert(trim_start(blank) == blank);
        assert(trim(blank) == blank);
        assert(line_step(nothing, blank) == Step::Skip);
        assert(seq![blank].drop_first() =~= Seq::<Seq<char>>::empty());
        assert(load(nothing, seq![blank].drop_first(), 0) == (Loaded {
            entries: nothing,
            failure: None,
        }));
        assert(entries =~= nothing);
    } else {
        assert forall|k: int| 0 <= k < lines.len() implies !has_char(#[trigger] lines[k], '\n') by {
            lemma_line_has_no_break(entries[k]);
        }
        lemma_split_join_char(lines, '\n');
        lemma_lines_read_back(entries, 0);
        assert(entries.take(0) =~= nothing);
        assert(lines.skip(0) =~= lines);
    }
}

/// Writing a store and reading it back keeps what the store holds: the
/// entries that are read are those of the store, in the order in which
/// they were written.
pub proof fn law_round_trip(stored: Seq<Entry>, written: Seq<Entry>)
    requires
        valid_store(stored),
        writable(stored),
        written.to_multiset() == stored.to_multiset(),
    ensures
        read_text(Seq::<Entry>::empty(), render(written)).failure is None,
        read_text(Seq::<Entry>::empty(), render(written)).entries == written,
        read_text(Seq::<Entry>::empty(), render(written)).entries.to_multiset()
            == stored.to_multiset(),
{
    lemma_same_entries_valid(stored, written);
    assert forall|i: int| 0 <= i < written.len() implies writable_term(
        (#[trigger] written[i]).left,
    ) by {
        let a = choose|a: int| 0 <= a < stored.len() && stored[a] == written[i];
    }
    assert forall|i: int, k: int|
        0 <= i < written.len() && 0 <= k < written[i].rights.len() implies writable_term(
        #[trigger] written[i].rights[k],
    ) && written[i].rights[k].len() > 0 by {
        assert(stored.contains(written[i]));
        let a = choose|a: int| 0 <= a < stored.len() && stored[a] == written[i];
        assert(writable_term(stored[a].rights[k]));
    }
    law_written_text_reads_back(written);
}

} // verus!
