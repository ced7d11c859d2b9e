//! The dictionary as a mathematical value: a sequence of entries, the rule
//! that makes such a sequence a valid store, and the order in which a lookup
//! walks it.

use vstd::prelude::*;
use crate::text::{
    contains, fold, is_trimmed, lex_less, lower_case, same_ignoring_case, trim, upper_case,
};

verus! {

/// One entry: a left term and the history of its right terms, oldest first.
pub struct Entry {
    pub left: Seq<char>,
    pub rights: Seq<Seq<char>>,
}

/// The mark between two right terms of one history.
pub open spec fn arrow() -> Seq<char> {
    seq!['-', '-', '>']
}

/// The mark between the left term and its history.
pub open spec fn equals_sign() -> Seq<char> {
    seq!['=']
}

/// The mark between two lines.
pub open spec fn line_break() -> Seq<char> {
    seq!['\n']
}

/// A term that holds neither of the two marks of the file format.
pub open spec fn is_plain(s: Seq<char>) -> bool {
    !contains(s, arrow()) && !contains(s, equals_sign())
}

/// A term as the store keeps it: trimmed, and without a mark of the file
/// format.
pub open spec fn is_term(s: Seq<char>) -> bool {
    is_plain(s) && is_trimmed(s)
}

/// The rule of the store: every history has a right term, every term is
/// trimmed and holds no mark of the file format, and no two left terms are
/// the same once the case of ASCII letters is ignored.
pub open spec fn valid_store(entries: Seq<Entry>) -> bool {
    &&& forall|i: int| 0 <= i < entries.len() ==> (#[trigger] entries[i]).rights.len() >= 1
    &&& forall|i: int| 0 <= i < entries.len() ==> is_term((#[trigger] entries[i]).left)
    &&& forall|i: int, k: int|
        0 <= i < entries.len() && 0 <= k < entries[i].rights.len() ==> is_term(
            #[trigger] entries[i].rights[k],
        )
    &&& forall|i: int, j: int|
        0 <= i < entries.len() && 0 <= j < entries.len() && i != j ==> fold(
            (#[trigger] entries[i]).left,
        ) != fold((#[trigger] entries[j]).left)
}

/// The index that a walk over `n` entries reaches after `d` steps when it
/// began at index `k`: it runs to the end and goes on from the front.
pub open spec fn turn(n: int, k: int, d: int) -> int {
    if k + d < n {
        k + d
    } else {
        k + d - n
    }
}

/// The first marked index that a walk reaches which begins at `k` and has
/// already made `d` steps; `None` where the rest of the walk meets no mark.
pub open spec fn first_hit(marks: Seq<bool>, k: int, d: int) -> Option<int>
    decreases marks.len() - d,
{
    if d < 0 || d >= marks.len() {
        None
    } else if marks[turn(marks.len() as int, k, d)] {
        Some(turn(marks.len() as int, k, d))
    } else {
        first_hit(marks, k, d + 1)
    }
}

/// The marked indices that a walk beginning at `k` meets in its first `d`
/// steps, in the order in which it meets them.
pub open spec fn hits_within(marks: Seq<bool>, k: int, d: int) -> Seq<int>
    decreases d,
{
    if d <= 0 {
        Seq::<int>::empty()
    } else if marks[turn(marks.len() as int, k, d - 1)] {
        hits_within(marks, k, d - 1).push(turn(marks.len() as int, k, d - 1))
    } else {
        hits_within(marks, k, d - 1)
    }
}

/// At most the first `limit` elements of `s`.
pub open spec fn capped(s: Seq<int>, limit: int) -> Seq<int> {
    if s.len() <= limit {
        s
    } else {
        s.subrange(0, limit)
    }
}

/// `term` is found in `text` when both are written in capitals, or when both
/// are written in small letters.
pub open spec fn found_within(text: Seq<char>, term: Seq<char>) -> bool {
    contains(upper_case(text), upper_case(term)) || contains(lower_case(text), lower_case(term))
}

/// Some right term of the history equals `term` but for the case of ASCII
/// letters.
pub open spec fn history_has(rights: Seq<Seq<char>>, term: Seq<char>) -> bool {
    exists|k: int| 0 <= k < rights.len() && same_ignoring_case(#[trigger] rights[k], term)
}

/// `term` is found within some right term of the history.
pub open spec fn history_holds(rights: Seq<Seq<char>>, term: Seq<char>) -> bool {
    exists|k: int| 0 <= k < rights.len() && found_within(#[trigger] rights[k], term)
}

/// Marks the entries whose left term equals `term` but for the case of ASCII
/// letters.
pub open spec fn left_equal_marks(entries: Seq<Entry>, term: Seq<char>) -> Seq<bool> {
    Seq::new(entries.len(), |i: int| same_ignoring_case(entries[i].left, term))
}

/// Marks the entries in whose left term `term` is found.
pub open spec fn left_within_marks(entries: Seq<Entry>, term: Seq<char>) -> Seq<bool> {
    Seq::new(entries.len(), |i: int| found_within(entries[i].left, term))
}

/// Marks the entries with a right term that equals `term` but for the case
/// of ASCII letters.
pub open spec fn right_equal_marks(entries: Seq<Entry>, term: Seq<char>) -> Seq<bool> {
    Seq::new(entries.len(), |i: int| history_has(entries[i].rights, term))
}

/// Marks the entries with a right term in which `term` is found.
pub open spec fn right_within_marks(entries: Seq<Entry>, term: Seq<char>) -> Seq<bool> {
    Seq::new(entries.len(), |i: int| history_holds(entries[i].rights, term))
}

/// Where a walk over `n` entries begins that was asked to begin at `start`.
pub open spec fn walk_start(n: int, start: int) -> int {
    if n > 0 {
        start % n
    } else {
        0
    }
}

/// The most lookups a search for part of a left term gives back.
pub open spec fn suggestion_limit() -> int {
    50
}

/// What a walk has met after `d` steps stands at the front of what it has
/// met after `e` steps, for `d <= e`: so once the limit is reached, the walk
/// may stop.
pub proof fn lemma_hits_prefix(marks: Seq<bool>, k: int, d: int, e: int)
    requires
        0 <= d <= e,
    ensures
        hits_within(marks, k, d).len() <= hits_within(marks, k, e).len(),
        hits_within(marks, k, e).subrange(0, hits_within(marks, k, d).len() as int)
            == hits_within(marks, k, d),
    decreases e - d,
{
    if d == e {
        assert(hits_within(marks, k, e).subrange(0, hits_within(marks, k, d).len() as int)
            =~= hits_within(marks, k, d));
    } else {
        lemma_hits_prefix(marks, k, d, e - 1);
        let shorter = hits_within(marks, k, e - 1);
        assert(hits_within(marks, k, e).subrange(0, hits_within(marks, k, d).len() as int)
            =~= shorter.subrange(0, hits_within(marks, k, d).len() as int));
    }
}

/// What `first_hit` gives: a marked index that the walk reaches with no
/// marked index before it; or nothing, and then no step of the rest of the
/// walk reaches a mark.
pub proof fn lemma_first_hit(marks: Seq<bool>, k: int, d: int)
    requires
        0 <= k < marks.len(),
        0 <= d <= marks.len(),
    ensures
        match first_hit(marks, k, d) {
            Some(i) => 0 <= i < marks.len() && marks[i] && exists|e: int|
                d <= e < marks.len() && i == #[trigger] turn(marks.len() as int, k, e) && forall|
                    f: int,
                |
                    d <= f < e ==> !marks[#[trigger] turn(marks.len() as int, k, f)],
            None => forall|e: int|
                d <= e < marks.len() ==> !marks[#[trigger] turn(marks.len() as int, k, e)],
        },
    decreases marks.len() - d,
{
    let n = marks.len() as int;
    if d < n {
        if marks[turn(n, k, d)] {
            assert(first_hit(marks, k, d) == Some(turn(n, k, d)));
        } else {
            lemma_first_hit(marks, k, d + 1);
            match first_hit(marks, k, d + 1) {
                Some(i) => {
                    let e = choose|e: int|
                        d + 1 <= e < n && i == #[trigger] turn(n, k, e) && forall|f: int|
                            d + 1 <= f < e ==> !marks[#[trigger] turn(n, k, f)];
                    assert forall|f: int| d <= f < e implies !marks[#[trigger] turn(n, k, f)] by {
                        if f > d {
                        }
                    }
                },
                None => {
                    assert forall|e: int| d <= e < n implies !marks[#[trigger] turn(n, k, e)] by {
                        if e > d {
                        }
                    }
                },
            }
        }
    }
}

/// A walk that goes once round and finds nothing shows that nothing is
/// marked.
pub proof fn lemma_first_hit_none(marks: Seq<bool>, k: int)
    requires
        marks.len() == 0 || 0 <= k < marks.len(),
        first_hit(marks, k, 0) is None,
    ensures
        forall|i: int| 0 <= i < marks.len() ==> !#[trigger] marks[i],
{
    let n = marks.len() as int;
    if n > 0 {
        lemma_first_hit(marks, k, 0);
        assert forall|i: int| 0 <= i < n implies !#[trigger] marks[i] by {
            let e = if i >= k {
                i - k
            } else {
                i - k + n
            };
            assert(turn(n, k, e) == i);
        }
    }
}

/// The texts stand in ascending lexical order: none comes before one that
/// stands earlier.
pub open spec fn ascending(keys: Seq<Seq<char>>) -> bool {
    forall|i: int, j: int| 0 <= i < j < keys.len() ==> !lex_less(keys[j], keys[i])
}

/// The entries stand in the order of their left terms written in capitals.
pub open spec fn sorted_by_capitals(entries: Seq<Entry>) -> bool {
    forall|i: int, j: int|
        0 <= i < j < entries.len() ==> !lex_less(
            upper_case(entries[j].left),
            upper_case(entries[i].left),
        )
}

/// An entry together with the key by which it is sorted.
pub struct Keyed {
    pub key: Seq<char>,
    pub entry: Entry,
}

/// Each entry with the key that stands at its index.
pub open spec fn keyed(keys: Seq<Seq<char>>, entries: Seq<Entry>) -> Seq<Keyed> {
    Seq::new(entries.len(), |i: int| Keyed { key: keys[i], entry: entries[i] })
}

/// A valid store stays valid when two of its entries change places.
pub proof fn lemma_swap_keeps_valid(entries: Seq<Entry>, i: int, j: int)
    requires
        valid_store(entries),
        0 <= i < entries.len(),
        0 <= j < entries.len(),
    ensures
        valid_store(entries.update(i, entries[j]).update(j, entries[i])),
{
    let after = entries.update(i, entries[j]).update(j, entries[i]);
    let from = |a: int|
        if a == i {
            j
        } else if a == j {
            i
        } else {
            a
        };
    assert forall|a: int| 0 <= a < after.len() implies after[a] == entries[from(a)] by {}
    assert forall|a: int| 0 <= a < after.len() implies (#[trigger] after[a]).rights.len() >= 1 by {
        assert(after[a] == entries[from(a)]);
    }
    assert forall|a: int| 0 <= a < after.len() implies is_term((#[trigger] after[a]).left) by {
        assert(after[a] == entries[from(a)]);
    }
    assert forall|a: int, k: int|
        0 <= a < after.len() && 0 <= k < after[a].rights.len() implies is_term(
        #[trigger] after[a].rights[k],
    ) by {
        assert(after[a] == entries[from(a)]);
    }
    assert forall|a: int, b: int|
        0 <= a < after.len() && 0 <= b < after.len() && a != b implies fold(
        (#[trigger] after[a]).left,
    ) != fold((#[trigger] after[b]).left) by {
        assert(after[a] == entries[from(a)]);
        assert(after[b] == entries[from(b)]);
    }
}

/// A valid store stays valid when it takes an entry of terms as the store
/// keeps them, which has a right term, and whose left term no entry has
/// yet.
pub proof fn lemma_push_keeps_valid(entries: Seq<Entry>, entry: Entry)
    requires
        valid_store(entries),
        entry.rights.len() >= 1,
        is_term(entry.left),
        forall|k: int| 0 <= k < entry.rights.len() ==> is_term(#[trigger] entry.rights[k]),
        forall|i: int|
            0 <= i < entries.len() ==> fold((#[trigger] entries[i]).left) != fold(entry.left),
    ensures
        valid_store(entries.push(entry)),
{
    let longer = entries.push(entry);
    assert forall|i: int, k: int|
        0 <= i < longer.len() && 0 <= k < longer[i].rights.len() implies is_term(
        #[trigger] longer[i].rights[k],
    ) by {
        if i < entries.len() {
            assert(longer[i] == entries[i]);
        }
    }
    assert forall|i: int, j: int|
        0 <= i < longer.len() && 0 <= j < longer.len() && i != j implies fold(
        (#[trigger] longer[i]).left,
    ) != fold((#[trigger] longer[j]).left) by {
        if i < entries.len() {
            assert(longer[i] == entries[i]);
        }
        if j < entries.len() {
            assert(longer[j] == entries[j]);
        }
    }
}

/// A valid store stays valid when an entry leaves it.
pub proof fn lemma_remove_keeps_valid(entries: Seq<Entry>, index: int)
    requires
        valid_store(entries),
        0 <= index < entries.len(),
    ensures
        valid_store(entries.remove(index)),
{
    let shorter = entries.remove(index);
    let from = |a: int|
        if a < index {
            a
        } else {
            a + 1
        };
    assert forall|a: int| 0 <= a < shorter.len() implies (#[trigger] shorter[a]).rights.len()
        >= 1 && is_term(shorter[a].left) by {
        assert(shorter[a] == entries[from(a)]);
    }
    assert forall|a: int, k: int|
        0 <= a < shorter.len() && 0 <= k < shorter[a].rights.len() implies is_term(
        #[trigger] shorter[a].rights[k],
    ) by {
        assert(shorter[a] == entries[from(a)]);
    }
    assert forall|a: int, b: int|
        0 <= a < shorter.len() && 0 <= b < shorter.len() && a != b implies fold(
        (#[trigger] shorter[a]).left,
    ) != fold((#[trigger] shorter[b]).left) by {
        assert(shorter[a] == entries[from(a)]);
        assert(shorter[b] == entries[from(b)]);
    }
}

/// A valid store stays valid when a history takes one more right term as
/// the store keeps them.
pub proof fn lemma_extend_keeps_valid(entries: Seq<Entry>, index: int, right: Seq<char>)
    requires
        valid_store(entries),
        0 <= index < entries.len(),
        is_term(right),
    ensures
        valid_store(
            entries.update(
                index,
                Entry { left: entries[index].left, rights: entries[index].rights.push(right) },
            ),
        ),
{
    let grown = Entry { left: entries[index].left, rights: entries[index].rights.push(right) };
    let after = entries.update(index, grown);
    assert forall|a: int| 0 <= a < after.len() implies (#[trigger] after[a]).rights.len() >= 1
        && is_term(after[a].left) by {
        if a != index {
            assert(after[a] == entries[a]);
        }
    }
    assert forall|a: int, k: int|
        0 <= a < after.len() && 0 <= k < after[a].rights.len() implies is_term(
        #[trigger] after[a].rights[k],
    ) by {
        if a != index {
            assert(after[a] == entries[a]);
        } else if k < entries[index].rights.len() {
            assert(after[a].rights[k] == entries[index].rights[k]);
        }
    }
    assert forall|a: int, b: int|
        0 <= a < after.len() && 0 <= b < after.len() && a != b implies fold(
        (#[trigger] after[a]).left,
    ) != fold((#[trigger] after[b]).left) by {
        assert(after[a].left == entries[a].left);
        assert(after[b].left == entries[b].left);
    }
}

/// Why a pair of terms is not taken into the store.
pub enum Refusal {
    /// The left term holds a mark of the format.
    BadLeft,
    /// The right term holds a mark of the format.
    BadRight,
    /// The left term has this right term as its newest already.
    Duplicate,
    /// The left term and the right term are the same text.
    Same,
}

/// What adding a pair of terms does to a store.
pub enum Change {
    /// Nothing: the pair is refused.
    Refused(Refusal),
    /// The left term was there: its history has the right term as its
    /// newest. With the entries before they are put in order.
    Extended(Seq<Entry>),
    /// The left term is new: an entry for it stands at the end. With the
    /// entries before they are put in order.
    Created(Seq<Entry>),
}

/// Adds the pair of `left` and `right` to the entries. Both are trimmed
/// first. A term with a mark of the file format is refused, the left one
/// first; so is a pair of equal terms; so is a right term that the left
/// term has as its newest already. Else the right term goes to the end of
/// the history of the left term, which is looked up without regard to the
/// case of ASCII letters; where the store has no such left term, a new
/// entry goes to the end of the store.
pub open spec fn upsert(entries: Seq<Entry>, left: Seq<char>, right: Seq<char>) -> Change {
    let left = trim(left);
    let right = trim(right);
    let twin = first_hit(left_equal_marks(entries, left), 0, 0);
    if !is_plain(left) {
        Change::Refused(Refusal::BadLeft)
    } else if !is_plain(right) {
        Change::Refused(Refusal::BadRight)
    } else if left == right {
        Change::Refused(Refusal::Same)
    } else if twin is Some {
        let index = twin->0;
        if entries[index].rights.last() == right {
            Change::Refused(Refusal::Duplicate)
        } else {
            Change::Extended(
                entries.update(
                    index,
                    Entry { left: entries[index].left, rights: entries[index].rights.push(right) },
                ),
            )
        }
    } else {
        Change::Created(entries.push(Entry { left, rights: seq![right] }))
    }
}

/// The indices of the entries that a search for the pairs of `keyword`
/// gives: those in whose left term the keyword is found, from the front of
/// the store, and no more than the limit.
pub open spec fn pair_hits(entries: Seq<Entry>, keyword: Seq<char>) -> Seq<int> {
    capped(
        hits_within(left_within_marks(entries, keyword), 0, entries.len() as int),
        suggestion_limit(),
    )
}

/// The walk has reached `index` in one of its first `d` steps.
pub open spec fn visited(n: int, k: int, d: int, index: int) -> bool {
    exists|e: int| 0 <= e < d && index == #[trigger] turn(n, k, e)
}

} // verus!
