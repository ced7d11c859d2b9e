//! The file format: how a text is read line by line into entries, and how
//! entries are written out as text.

use vstd::prelude::*;
use crate::lemmas::{
    lemma_split_pieces, lemma_trim_end_of_front, lemma_trim_is_trimmed, lemma_trim_within,
    lemma_within_contains, lemma_within_within,
};
use crate::model::{
    arrow, equals_sign, first_hit, is_term, left_equal_marks, lemma_first_hit_none,
    lemma_push_keeps_valid, line_break, valid_store, Entry,
};
use crate::text::{contains, fold, join, split_seq, trim, trim_end};

verus! {

/// Why a line cannot be read.
pub enum Flaw {
    /// The text before the first `=` holds `-->`.
    BadLeft,
    /// The line holds no `=`.
    NoRight,
    /// The line holds a second `=`, or a right term is empty; with the text
    /// after the first `=`, up to the second where there is one.
    BadRight(Seq<char>),
    /// The left term is in the store already; with the left term as the
    /// store holds it.
    Duplicate(Seq<char>),
}

/// A line that cannot be read: its number, its left term, and why.
pub struct Break {
    pub line: nat,
    pub left: Seq<char>,
    pub flaw: Flaw,
}

/// What reading one line does to a store.
pub enum Step {
    /// A blank line: nothing to read.
    Skip,
    /// The line gives this entry, which goes to the end of the store.
    Add(Entry),
    /// The line cannot be read; with its left term.
    Fail(Seq<char>, Flaw),
}

/// The store after a text was read, and the line at which reading stopped.
pub struct Loaded {
    pub entries: Seq<Entry>,
    pub failure: Option<Break>,
}

/// Every piece without white space at either end.
pub open spec fn trim_each(pieces: Seq<Seq<char>>) -> Seq<Seq<char>> {
    pieces.map_values(|p: Seq<char>| trim(p))
}

/// One of the texts is empty.
pub open spec fn has_empty(parts: Seq<Seq<char>>) -> bool {
    exists|k: int| 0 <= k < parts.len() && (#[trigger] parts[k]).len() == 0
}

/// Reads one line against the entries that the store holds so far.
///
/// The line is trimmed; a blank one is skipped. It is cut at each `=`. The
/// first piece, without trailing white space, is the left term: it must not
/// hold `-->`, and no entry may have it yet, whatever the case of its ASCII
/// letters. There must be exactly one more piece. That piece is cut at each
/// `-->`, and its parts, trimmed, are the right terms: none may be empty.
pub open spec fn line_step(entries: Seq<Entry>, line: Seq<char>) -> Step {
    let t = trim(line);
    let pieces = split_seq(t, equals_sign());
    let left = trim_end(pieces[0]);
    let twin = first_hit(left_equal_marks(entries, left), 0, 0);
    if t.len() == 0 {
        Step::Skip
    } else if contains(pieces[0], arrow()) {
        Step::Fail(pieces[0], Flaw::BadLeft)
    } else if twin is Some {
        Step::Fail(left, Flaw::Duplicate(entries[twin->0].left))
    } else if pieces.len() < 2 {
        Step::Fail(left, Flaw::NoRight)
    } else if pieces.len() > 2 {
        Step::Fail(left, Flaw::BadRight(pieces[1]))
    } else {
        let rights = trim_each(split_seq(pieces[1], arrow()));
        if has_empty(rights) {
            Step::Fail(left, Flaw::BadRight(pieces[1]))
        } else {
            Step::Add(Entry { left, rights })
        }
    }
}

/// Reads the lines in order, beginning with a store of `entries` to which
/// this reading has added `added` entries so far. Reading stops at the
/// first line that cannot be read; the number reported for it is one more
/// than the number of entries added before it.
pub open spec fn load(entries: Seq<Entry>, lines: Seq<Seq<char>>, added: nat) -> Loaded
    decreases lines.len(),
{
    if lines.len() == 0 {
        Loaded { entries, failure: None }
    } else {
        match line_step(entries, lines[0]) {
            Step::Skip => load(entries, lines.drop_first(), added),
            Step::Add(entry) => load(entries.push(entry), lines.drop_first(), added + 1),
            Step::Fail(left, flaw) => Loaded {
                entries,
                failure: Some(Break { line: added + 1, left, flaw }),
            },
        }
    }
}

/// Reads a whole text, line by line, into a store that holds `entries`.
pub open spec fn read_text(entries: Seq<Entry>, text: Seq<char>) -> Loaded {
    load(entries, split_seq(text, line_break()), 0)
}

/// The mark between two right terms as it is written: with a space on
/// either side.
pub open spec fn spaced_arrow() -> Seq<char> {
    seq![' ', '-', '-', '>', ' ']
}

/// The mark after the left term as it is written: with a space on either
/// side.
pub open spec fn spaced_equals() -> Seq<char> {
    seq![' ', '=', ' ']
}

/// The line of one entry.
pub open spec fn render_line(entry: Entry) -> Seq<char> {
    entry.left + spaced_equals() + join(entry.rights, spaced_arrow())
}

/// The lines of the entries, in their order.
pub open spec fn render_lines(entries: Seq<Entry>) -> Seq<Seq<char>> {
    entries.map_values(|e: Entry| render_line(e))
}

/// The text of a store: one line for each entry, and no line break after
/// the last.
pub open spec fn render(entries: Seq<Entry>) -> Seq<char> {
    join(render_lines(entries), line_break())
}

/// An entry that a line gives has a right term, and its terms are as the
/// store keeps them: trimmed, and without a mark of the format.
pub proof fn lemma_added_entry_terms(entries: Seq<Entry>, line: Seq<char>)
    requires
        line_step(entries, line) is Add,
    ensures
        line_step(entries, line)->Add_0.rights.len() >= 1,
        is_term(line_step(entries, line)->Add_0.left),
        forall|k: int|
            0 <= k < line_step(entries, line)->Add_0.rights.len() ==> is_term(
                #[trigger] line_step(entries, line)->Add_0.rights[k],
            ),
{
    let t = trim(line);
    let pieces = split_seq(t, equals_sign());
    let left = trim_end(pieces[0]);
    let parts = split_seq(pieces[1], arrow());
    let rights = trim_each(parts);
    lemma_split_pieces(t, equals_sign());
    lemma_split_pieces(pieces[1], arrow());
    lemma_trim_within(pieces[0]);
    lemma_trim_is_trimmed(line);
    lemma_trim_end_of_front(t, pieces[0]);
    assert(!contains(pieces[0], equals_sign()));
    if contains(left, arrow()) {
        lemma_within_contains(left, pieces[0], arrow());
    }
    if contains(left, equals_sign()) {
        lemma_within_contains(left, pieces[0], equals_sign());
    }
    assert(!contains(pieces[1], equals_sign()));
    assert forall|k: int| 0 <= k < rights.len() implies is_term(#[trigger] rights[k]) by {
        lemma_trim_within(parts[k]);
        lemma_trim_is_trimmed(parts[k]);
        assert(rights[k] == trim(parts[k]));
        assert(!contains(parts[k], arrow()));
        if contains(rights[k], arrow()) {
            lemma_within_contains(rights[k], parts[k], arrow());
        }
        if contains(rights[k], equals_sign()) {
            lemma_within_within(rights[k], parts[k], pieces[1]);
            lemma_within_contains(rights[k], pieces[1], equals_sign());
        }
    }
}

/// A valid store stays valid when it takes the entry that a line gives.
pub proof fn lemma_step_keeps_valid(entries: Seq<Entry>, line: Seq<char>)
    requires
        valid_store(entries),
        line_step(entries, line) is Add,
    ensures
        valid_store(entries.push(line_step(entries, line)->Add_0)),
{
    let entry = line_step(entries, line)->Add_0;
    let marks = left_equal_marks(entries, entry.left);
    lemma_added_entry_terms(entries, line);
    lemma_first_hit_none(marks, 0);
    assert forall|i: int| 0 <= i < entries.len() implies fold((#[trigger] entries[i]).left)
        != fold(entry.left) by {
        assert(!marks[i]);
    }
    lemma_push_keeps_valid(entries, entry);
}

} // verus!
