//! Laws of the dictionary: what holds of its lookups and changes whatever
//! the entries and the terms are.

use vstd::prelude::*;
use crate::model::{
    first_hit, is_plain, is_term, left_equal_marks, lemma_extend_keeps_valid, lemma_first_hit,
    lemma_first_hit_none, lemma_push_keeps_valid, upsert, valid_store, walk_start, Change,
    Entry, Refusal,
};
use crate::lemmas::lemma_trim_is_trimmed;
use crate::text::{fold, trim};

verus! {

/// The history that the store keeps for `left`, whatever the case of its
/// ASCII letters; empty where the store has no such left term.
pub open spec fn history_of(entries: Seq<Entry>, left: Seq<char>) -> Seq<Seq<char>> {
    match first_hit(left_equal_marks(entries, left), 0, 0) {
        Some(index) => entries[index].rights,
        None => Seq::<Seq<char>>::empty(),
    }
}

/// The entries that a change leaves, before they are put in order; none
/// for a pair that was refused.
pub open spec fn changed_entries(change: Change) -> Seq<Entry> {
    match change {
        Change::Refused(_) => Seq::<Entry>::empty(),
        Change::Extended(entries) => entries,
        Change::Created(entries) => entries,
    }
}

/// Where exactly one index is marked, a walk finds it from every start.
pub proof fn lemma_single_mark_found(marks: Seq<bool>, k: int, m: int)
    requires
        0 <= k < marks.len(),
        0 <= m < marks.len(),
        marks[m],
        forall|i: int| 0 <= i < marks.len() && i != m ==> !#[trigger] marks[i],
    ensures
        first_hit(marks, k, 0) == Some(m),
{
    lemma_first_hit(marks, k, 0);
    if first_hit(marks, k, 0) is None {
        lemma_first_hit_none(marks, k);
    }
}

/// A lookup of a left term finds the same entry from every start index,
/// when exactly one entry matches: where the walk begins changes the order
/// in which it looks, not what it finds.
pub proof fn law_start_does_not_change_single_match(
    entries: Seq<Entry>,
    term: Seq<char>,
    start: nat,
    only: int,
)
    requires
        0 <= only < entries.len(),
        left_equal_marks(entries, term)[only],
        forall|i: int|
            0 <= i < entries.len() && i != only ==> !#[trigger] left_equal_marks(entries, term)[i],
    ensures
        first_hit(
            left_equal_marks(entries, term),
            walk_start(entries.len() as int, start as int),
            0,
        ) == Some(only),
        first_hit(
            left_equal_marks(entries, term),
            walk_start(entries.len() as int, start as int),
            0,
        ) == first_hit(left_equal_marks(entries, term), walk_start(entries.len() as int, 0), 0),
{
    let marks = left_equal_marks(entries, term);
    let n = entries.len() as int;
    assert(0 <= walk_start(n, start as int) < n) by (nonlinear_arith)
        requires
            n > 0,
            start >= 0,
            walk_start(n, start as int) == (start as int) % n,
    ;
    lemma_single_mark_found(marks, walk_start(n, start as int), only);
    lemma_single_mark_found(marks, walk_start(n, 0), only);
}

/// In a valid store a lookup of a left term gives the same answer from
/// every start index: no two entries can both match.
pub proof fn law_left_lookup_ignores_start(
    entries: Seq<Entry>,
    term: Seq<char>,
    start: nat,
    other_start: nat,
)
    requires
        valid_store(entries),
    ensures
        first_hit(
            left_equal_marks(entries, term),
            walk_start(entries.len() as int, start as int),
            0,
        ) == first_hit(
            left_equal_marks(entries, term),
            walk_start(entries.len() as int, other_start as int),
            0,
        ),
{
    let marks = left_equal_marks(entries, term);
    let n = entries.len() as int;
    if n > 0 {
        let k = walk_start(n, start as int);
        let l = walk_start(n, other_start as int);
        assert(0 <= k < n) by (nonlinear_arith)
            requires
                n > 0,
                start >= 0,
                k == (start as int) % n,
        ;
        assert(0 <= l < n) by (nonlinear_arith)
            requires
                n > 0,
                other_start >= 0,
                l == (other_start as int) % n,
        ;
        lemma_first_hit(marks, k, 0);
        lemma_first_hit(marks, l, 0);
        match first_hit(marks, k, 0) {
            Some(m) => {
                assert forall|i: int| 0 <= i < n && i != m implies !#[trigger] marks[i] by {
                    assert(fold(entries[i].left) != fold(entries[m].left));
                }
                lemma_single_mark_found(marks, l, m);
            },
            None => {
                lemma_first_hit_none(marks, k);
            },
        }
    }
}

/// In a valid store the entry whose left term is `left`, but for the case
/// of ASCII letters, is the one that a lookup finds.
pub proof fn lemma_history_found(entries: Seq<Entry>, left: Seq<char>, index: int)
    requires
        valid_store(entries),
        0 <= index < entries.len(),
        fold(entries[index].left) == fold(left),
    ensures
        first_hit(left_equal_marks(entries, left), 0, 0) == Some(index),
        history_of(entries, left) == entries[index].rights,
{
    let marks = left_equal_marks(entries, left);
    assert(marks[index]);
    assert forall|i: int| 0 <= i < marks.len() && i != index implies !#[trigger] marks[i] by {
        assert(fold(entries[i].left) != fold(entries[index].left));
    }
    lemma_single_mark_found(marks, 0, index);
}

/// Entries that hold the same as a valid store, in whatever order, are a
/// valid store.
pub proof fn lemma_same_entries_valid(entries: Seq<Entry>, moved: Seq<Entry>)
    requires
        valid_store(entries),
        entries.to_multiset() == moved.to_multiset(),
    ensures
        valid_store(moved),
        moved.len() == entries.len(),
        forall|i: int| 0 <= i < moved.len() ==> entries.contains(#[trigger] moved[i]),
{
    broadcast use vstd::seq_lib::group_to_multiset_ensures;

    assert(moved.len() == entries.len()) by {
        vstd::seq_lib::to_multiset_len(moved);
        vstd::seq_lib::to_multiset_len(entries);
    }
    assert forall|i: int| 0 <= i < moved.len() implies entries.contains(#[trigger] moved[i]) by {
        assert(moved.contains(moved[i]));
        assert(moved.to_multiset().count(moved[i]) > 0);
    }
    assert(entries.no_duplicates()) by {
        assert forall|i: int, j: int|
            0 <= i < entries.len() && 0 <= j < entries.len() && i != j implies entries[i]
            != entries[j] by {
            assert(fold(entries[i].left) != fold(entries[j].left));
        }
    }
    entries.lemma_multiset_has_no_duplicates();
    moved.lemma_multiset_has_no_duplicates_conv();
    assert forall|i: int| 0 <= i < moved.len() implies (#[trigger] moved[i]).rights.len() >= 1
        && is_term(moved[i].left) by {
        let a = choose|a: int| 0 <= a < entries.len() && entries[a] == moved[i];
    }
    assert forall|i: int, k: int|
        0 <= i < moved.len() && 0 <= k < moved[i].rights.len() implies is_term(
        #[trigger] moved[i].rights[k],
    ) by {
        assert(entries.contains(moved[i]));
        let a = choose|a: int| 0 <= a < entries.len() && entries[a] == moved[i];
        assert(is_term(entries[a].rights[k]));
    }
    assert forall|i: int, j: int|
        0 <= i < moved.len() && 0 <= j < moved.len() && i != j implies fold(
        (#[trigger] moved[i]).left,
    ) != fold((#[trigger] moved[j]).left) by {
        assert(entries.contains(moved[i]));
        assert(entries.contains(moved[j]));
        let a = choose|a: int| 0 <= a < entries.len() && entries[a] == moved[i];
        let b = choose|b: int| 0 <= b < entries.len() && entries[b] == moved[j];
        assert(moved[i] != moved[j]);
        assert(a != b);
    }
}

/// A pair that is taken into a valid store leaves a valid store, in which
/// the history of the left term is what it was with the right term added
/// as the newest. Both terms are meant as they are stored: trimmed.
pub proof fn law_accepted_pair_extends_history(
    before: Seq<Entry>,
    after: Seq<Entry>,
    left: Seq<char>,
    right: Seq<char>,
)
    requires
        valid_store(before),
        !(upsert(before, left, right) is Refused),
        after.to_multiset() == changed_entries(upsert(before, left, right)).to_multiset(),
    ensures
        valid_store(after),
        history_of(after, trim(left)) == history_of(before, trim(left)).push(trim(right)),
{
    broadcast use vstd::seq_lib::group_to_multiset_ensures;

    let term = trim(left);
    let newest = trim(right);
    lemma_trim_is_trimmed(left);
    lemma_trim_is_trimmed(right);
    let marks = left_equal_marks(before, term);
    let changed = changed_entries(upsert(before, left, right));
    let twin = first_hit(marks, 0, 0);
    let target = if twin is Some {
        Entry { left: before[twin->0].left, rights: before[twin->0].rights.push(newest) }
    } else {
        Entry { left: term, rights: seq![newest] }
    };
    if twin is Some {
        let index = twin->0;
        lemma_first_hit(marks, 0, 0);
        assert(marks[index]);
        lemma_extend_keeps_valid(before, index, newest);
        assert(changed[index] == target);
    } else {
        lemma_first_hit_none(marks, 0);
        assert forall|i: int| 0 <= i < before.len() implies fold((#[trigger] before[i]).left)
            != fold(term) by {
            assert(!marks[i]);
        }
        assert forall|k: int| 0 <= k < target.rights.len() implies is_term(
            #[trigger] target.rights[k],
        ) by {}
        lemma_push_keeps_valid(before, target);
        assert(changed[before.len() as int] == target);
        assert(seq![newest] =~= Seq::<Seq<char>>::empty().push(newest));
    }
    assert(changed.contains(target));
    lemma_same_entries_valid(changed, after);
    assert(after.to_multiset().count(target) > 0);
    assert(after.contains(target));
    let place = choose|p: int| 0 <= p < after.len() && after[p] == target;
    lemma_history_found(after, term, place);
}

/// After a pair was taken into the store, the same pair is refused as
/// duplicated: the store does not change a second time.
pub proof fn law_repeated_pair_is_refused(
    before: Seq<Entry>,
    after: Seq<Entry>,
    left: Seq<char>,
    right: Seq<char>,
)
    requires
        valid_store(before),
        !(upsert(before, left, right) is Refused),
        after.to_multiset() == changed_entries(upsert(before, left, right)).to_multiset(),
    ensures
        upsert(after, left, right) == Change::Refused(Refusal::Duplicate),
{
    law_accepted_pair_extends_history(before, after, left, right);
    let history = history_of(before, trim(left)).push(trim(right));
    assert(history.len() > 0);
    assert(history.last() == trim(right));
}

/// A left term that takes one right term and then another has both at the
/// end of its history, in that order, and the second is its newest. The
/// terms are meant as they are stored: trimmed.
pub proof fn law_history_accumulates(
    before: Seq<Entry>,
    between: Seq<Entry>,
    after: Seq<Entry>,
    left: Seq<char>,
    first: Seq<char>,
    second: Seq<char>,
)
    requires
        valid_store(before),
        !(upsert(before, left, first) is Refused),
        between.to_multiset() == changed_entries(upsert(before, left, first)).to_multiset(),
        trim(first) != trim(second),
        is_plain(trim(second)),
        trim(left) != trim(second),
        after.to_multiset() == changed_entries(upsert(between, left, second)).to_multiset(),
    ensures
        upsert(between, left, second) is Extended,
        history_of(after, trim(left)) == history_of(before, trim(left)).push(trim(first)).push(
            trim(second),
        ),
        history_of(after, trim(left)).last() == trim(second),
        history_of(before, trim(left)).len() == 0 ==> history_of(after, trim(left)) == seq![
            trim(first),
            trim(second),
        ],
{
    law_accepted_pair_extends_history(before, between, left, first);
    let history = history_of(before, trim(left)).push(trim(first));
    assert(history.last() == trim(first));
    assert(history_of(between, trim(left)).len() > 0);
    law_accepted_pair_extends_history(between, after, left, second);
    if history_of(before, trim(left)).len() == 0 {
        assert(history_of(before, trim(left)).push(trim(first)).push(trim(second)) =~= seq![
            trim(first),
            trim(second),
        ]);
    }
}

/// No two entries of a valid store have the same left term, whatever the
/// case of its ASCII letters; every change of a dictionary leaves a valid
/// store.
pub proof fn law_left_terms_differ(entries: Seq<Entry>, i: int, j: int)
    requires
        valid_store(entries),
        0 <= i < entries.len(),
        0 <= j < entries.len(),
        i != j,
    ensures
        fold(entries[i].left) != fold(entries[j].left),
        entries[i].left != entries[j].left,
{
}

} // verus!
