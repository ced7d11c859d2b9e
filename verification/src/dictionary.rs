//! The dictionary itself: the entries in memory and the lookups over them.

use vstd::prelude::*;
use vstd::string::*;
use vstd::std_specs::convert::IntoSpec;
use std::path::PathBuf;
use crate::error::{BrokenReason, ReadError, WriteError};
use crate::format::{
    has_empty, lemma_step_keeps_valid, line_step, load, read_text, render, render_line,
    render_lines, spaced_arrow, spaced_equals, trim_each, Break, Step,
};
use crate::lemmas::{
    lemma_lex_less_asymmetric, lemma_lex_less_transitive, lemma_split_pieces,
    lemma_swap_keeps_multiset, lemma_trim_is_trimmed,
};
use crate::model::{
    arrow, ascending, capped, equals_sign, first_hit, found_within, history_has, history_holds,
    hits_within, keyed, left_equal_marks, left_within_marks, lemma_extend_keeps_valid,
    lemma_first_hit_none, lemma_hits_prefix, lemma_push_keeps_valid, lemma_remove_keeps_valid,
    lemma_swap_keeps_valid, line_break, pair_hits, right_equal_marks, right_within_marks,
    sorted_by_capitals, suggestion_limit, turn, upsert, valid_store, visited, walk_start, Change,
    Entry,
};
use crate::text::{
    contains, equal_ignoring_case, fold, has_substring, join, join_with, lex_less, lower,
    lower_case, same_ignoring_case, sorts_after, split_on, split_seq, swap_places, texts, trim,
    trim_in_place, trimmed, trimmed_end, upper, upper_case,
};

verus! {

/// `std::path::PathBuf`: the dictionary carries the path of its file and
/// never looks into it.
#[verifier::external_type_specification]
#[verifier::external_body]
pub struct ExPathBuf(PathBuf);

/// Left terms with the histories of their right terms, and the path of the
/// file that keeps them.
#[derive(Debug)]
pub struct Dictionary {
    /// The path of the dictionary file.
    path: PathBuf,
    /// Left data.
    left: Vec<String>,
    /// Right data.
    right: Vec<Vec<String>>,
}

/// One entry taken out of a dictionary.
#[derive(Debug)]
pub struct SingleItem {
    /// Left data.
    pub left: Option<String>,
    /// Right data.
    pub right: Vec<String>,
}

impl View for Dictionary {
    type V = Seq<Entry>;

    closed spec fn view(&self) -> Seq<Entry> {
        Seq::new(
            self.left@.len(),
            |i: int| Entry { left: self.left@[i]@, rights: texts(self.right@[i]@) },
        )
    }
}

/// The indices of a result as mathematical integers.
pub open spec fn positions(v: Seq<usize>) -> Seq<int> {
    v.map_values(|i: usize| i as int)
}

/// Whether `term` occurs in the first text of a pair or in the second: a
/// text and a term in capitals, and the same two in small letters.
pub fn either_contains(upper_text: &str, upper_term: &str, lower_text: &str, lower_term: &str) -> (r:
    bool)
    ensures
        r == (contains(upper_text@, upper_term@) || contains(lower_text@, lower_term@)),
{
    has_substring(upper_text, upper_term) || has_substring(lower_text, lower_term)
}

/// Whether the term, given in capitals and in small letters, is found in
/// `text`.
fn text_holds(text: &str, upper_term: &str, lower_term: &str) -> (r: bool)
    ensures
        r == (contains(upper_case(text@), upper_term@) || contains(
            lower_case(text@),
            lower_term@,
        )),
{
    let upper_text = upper(text);
    let lower_text = lower(text);
    either_contains(upper_text.as_str(), upper_term, lower_text.as_str(), lower_term)
}

/// Whether a right term of the history equals `term` but for the case of
/// ASCII letters; the newest right term is looked at first.
fn history_has_term(history: &Vec<String>, term: &str) -> (r: bool)
    ensures
        r == history_has(texts(history@), term@),
{
    let mut j: usize = history.len();
    while j > 0
        invariant
            j <= history@.len(),
            forall|k: int| j <= k < history@.len() ==> !same_ignoring_case(history@[k]@, term@),
        decreases j,
    {
        j -= 1;
        if equal_ignoring_case(history[j].as_str(), term) {
            assert(same_ignoring_case(texts(history@)[j as int], term@));
            return true;
        }
    }
    false
}

/// Whether the term, given in capitals and in small letters, is found in a
/// right term of the history; the newest right term is looked at first.
fn history_holds_term(history: &Vec<String>, term: &str, upper_term: &str, lower_term: &str) -> (r:
    bool)
    requires
        upper_term@ == upper_case(term@),
        lower_term@ == lower_case(term@),
    ensures
        r == history_holds(texts(history@), term@),
{
    let mut j: usize = history.len();
    while j > 0
        invariant
            j <= history@.len(),
            upper_term@ == upper_case(term@),
            lower_term@ == lower_case(term@),
            forall|k: int| j <= k < history@.len() ==> !found_within(history@[k]@, term@),
        decreases j,
    {
        j -= 1;
        if text_holds(history[j].as_str(), upper_term, lower_term) {
            assert(found_within(texts(history@)[j as int], term@));
            return true;
        }
    }
    false
}

impl Dictionary {
    /// The two lists have one length.
    pub closed spec fn aligned(&self) -> bool {
        self.left@.len() == self.right@.len()
    }

    /// The dictionary is in order: its lists agree and its entries form a
    /// valid store.
    pub open spec fn wf(&self) -> bool {
        self.aligned() && valid_store(self@)
    }

    /// The path of the dictionary file, as the dictionary holds it.
    pub closed spec fn path_held(&self) -> PathBuf {
        self.path
    }

    /// Create a new `Dictionary` instance without entries. The file is not
    /// read.
    pub fn new<P: Into<PathBuf>>(path: P) -> (r: Dictionary)
        ensures
            r.wf(),
            r@ == Seq::<Entry>::empty(),
            P::obeys_into_spec() ==> r.path_held() == path.into_spec(),
    {
        let r = Dictionary { path: path.into(), left: Vec::new(), right: Vec::new() };
        assert(r@ =~= Seq::<Entry>::empty());
        r
    }

    /// The path of the dictionary file.
    pub fn path(&self) -> (r: &PathBuf)
        ensures
            *r == self.path_held(),
    {
        &self.path
    }

    /// Get the count of words.
    pub fn count(&self) -> (n: usize)
        ensures
            n == self@.len(),
    {
        self.left.len()
    }

    /// Get the all right words.
    pub fn get_all_right(&self, index: usize) -> (r: Option<&[String]>)
        requires
            self.wf(),
        ensures
            match r {
                Some(history) => index < self@.len() && texts(history@) == self@[index as int].rights,
                None => index >= self@.len(),
            },
    {
        if index < self.right.len() {
            Some(self.right[index].as_slice())
        } else {
            None
        }
    }

    /// Get the all keys of words.
    pub fn get_all_right_keys(&self, index: usize) -> (r: Option<&String>)
        ensures
            match r {
                Some(term) => index < self@.len() && term@ == self@[index as int].left,
                None => index >= self@.len(),
            },
    {
        if index < self.left.len() {
            Some(&self.left[index])
        } else {
            None
        }
    }

    /// Get the all right words with their keys.
    pub fn get_all_right_with_keys(&self, index: usize) -> (r: SingleItem)
        requires
            self.wf(),
            index < self@.len(),
        ensures
            r.left matches Some(term) && term@ == self@[index as int].left,
            texts(r.right@) == self@[index as int].rights,
    {
        let history = &self.right[index];
        let mut right: Vec<String> = Vec::new();
        let mut k: usize = 0;
        while k < history.len()
            invariant
                k <= history@.len(),
                right@.len() == k,
                forall|i: int| 0 <= i < k ==> right@[i]@ == history@[i]@,
            decreases history@.len() - k,
        {
            right.push(history[k].clone());
            k += 1;
        }
        assert(texts(right@) =~= texts(history@));
        SingleItem { left: Some(self.left[index].clone()), right }
    }

    /// Get the all right words, joined by ` --> `.
    pub fn get_all_right_to_string(&self, index: usize) -> (r: Option<String>)
        requires
            self.wf(),
        ensures
            match r {
                Some(line) => index < self@.len() && line@ == join(
                    self@[index as int].rights,
                    " --> "@,
                ),
                None => index >= self@.len(),
            },
    {
        if index < self.right.len() {
            Some(join_with(&self.right[index], " --> "))
        } else {
            None
        }
    }

    /// Get the last right word at a specific index.
    pub fn get_right(&self, index: usize) -> (r: Option<&str>)
        requires
            self.wf(),
        ensures
            match r {
                Some(term) => index < self@.len() && term@ == self@[index as int].rights.last(),
                None => index >= self@.len(),
            },
    {
        if index < self.right.len() {
            let history = &self.right[index];
            assert(self@[index as int].rights.len() >= 1);
            Some(history[history.len() - 1].as_str())
        } else {
            None
        }
    }

    /// Get the left word at a specific index
    pub fn get_left(&self, index: usize) -> (r: Option<&str>)
        ensures
            match r {
                Some(term) => index < self@.len() && term@ == self@[index as int].left,
                None => index >= self@.len(),
            },
    {
        if index < self.left.len() {
            Some(self.left[index].as_str())
        } else {
            None
        }
    }

    /// Find a word by a keyword: the first entry whose left term equals `s`
    /// but for the case of ASCII letters. The walk begins at `start_index`
    /// and goes once round the dictionary.
    pub fn find_left_strictly(&self, s: &str, start_index: usize) -> (r: Option<usize>)
        ensures
            match r {
                Some(index) => index < self@.len() && first_hit(
                    left_equal_marks(self@, s@),
                    walk_start(self@.len() as int, start_index as int),
                    0,
                ) == Some(index as int),
                None => first_hit(
                    left_equal_marks(self@, s@),
                    walk_start(self@.len() as int, start_index as int),
                    0,
                ) is None,
            },
    {
        let size = self.count();
        if size == 0 {
            return None;
        }
        let start: usize = start_index % size;
        let mut index: usize = start;
        let mut step: usize = 0;
        let ghost marks = left_equal_marks(self@, s@);
        while step < size
            invariant
                size == self@.len(),
                size > 0,
                start < size,
                start == walk_start(self@.len() as int, start_index as int),
                step <= size,
                marks == left_equal_marks(self@, s@),
                step < size ==> index == turn(size as int, start as int, step as int),
                first_hit(marks, start as int, 0) == first_hit(marks, start as int, step as int),
            decreases size - step,
        {
            assert(marks.len() == size);
            assert(self@[index as int].left == self.left@[index as int]@);
            if equal_ignoring_case(self.left[index].as_str(), s) {
                assert(marks[index as int]);
                return Some(index);
            }
            assert(!marks[index as int]);
            index += 1;
            if index == size {
                index = 0;
            }
            step += 1;
        }
        None
    }

    /// Find a word by a keyword: the entries in whose left term `s` is
    /// found, in the order in which the walk meets them, and no more than
    /// fifty. `None` for a dictionary without entries.
    pub fn find_left(&self, s: &str, start_index: usize) -> (r: Option<Vec<usize>>)
        ensures
            match r {
                Some(found) => self@.len() > 0 && positions(found@) == capped(
                    hits_within(
                        left_within_marks(self@, s@),
                        walk_start(self@.len() as int, start_index as int),
                        self@.len() as int,
                    ),
                    suggestion_limit(),
                ) && found@.no_duplicates() && forall|t: int|
                    0 <= t < found@.len() ==> #[trigger] found@[t] < self@.len(),
                None => self@.len() == 0,
            },
    {
        let size = self.count();
        if size == 0 {
            return None;
        }
        let start: usize = start_index % size;
        let upper_term = upper(s);
        let lower_term = lower(s);
        let mut found: Vec<usize> = Vec::new();
        let mut index: usize = start;
        let mut step: usize = 0;
        let ghost marks = left_within_marks(self@, s@);
        assert(positions(found@) =~= hits_within(marks, start as int, 0));
        while step < size && found.len() < 50
            invariant
                size == self@.len(),
                size > 0,
                start < size,
                start == walk_start(self@.len() as int, start_index as int),
                step <= size,
                upper_term@ == upper_case(s@),
                lower_term@ == lower_case(s@),
                marks == left_within_marks(self@, s@),
                step < size ==> index == turn(size as int, start as int, step as int),
                found@.len() <= 50,
                positions(found@) == hits_within(marks, start as int, step as int),
                found@.no_duplicates(),
                forall|t: int|
                    0 <= t < found@.len() ==> #[trigger] found@[t] < size && visited(
                        size as int,
                        start as int,
                        step as int,
                        found@[t] as int,
                    ),
            decreases size - step,
        {
            assert(marks.len() == size);
            assert(self@[index as int].left == self.left@[index as int]@);
            let ghost earlier = found@;
            if text_holds(self.left[index].as_str(), upper_term.as_str(), lower_term.as_str()) {
                assert(marks[index as int]);
                found.push(index);
                assert(positions(found@) =~= hits_within(marks, start as int, step + 1));
                assert(turn(size as int, start as int, step as int) == index);
                assert forall|t: int| 0 <= t < earlier.len() implies earlier[t] != index by {
                    if earlier[t] == index {
                        let e = choose|e: int|
                            0 <= e < step && index as int == #[trigger] turn(
                                size as int,
                                start as int,
                                e,
                            );
                        assert(false);
                    }
                }
            } else {
                assert(!marks[index as int]);
            }
            assert forall|t: int| 0 <= t < found@.len() implies visited(
                size as int,
                start as int,
                step + 1,
                #[trigger] found@[t] as int,
            ) by {
                if t < earlier.len() {
                    let e = choose|e: int|
                        0 <= e < step && earlier[t] as int == #[trigger] turn(
                            size as int,
                            start as int,
                            e,
                        );
                    assert(turn(size as int, start as int, e) == found@[t]);
                } else {
                    assert(turn(size as int, start as int, step as int) == found@[t]);
                }
            }
            index += 1;
            if index == size {
                index = 0;
            }
            step += 1;
        }
        proof {
            let all = hits_within(marks, start as int, size as int);
            lemma_hits_prefix(marks, start as int, step as int, size as int);
            if step < size {
                assert(found@.len() == 50);
                assert(capped(all, suggestion_limit()) =~= positions(found@));
            } else {
                assert(capped(all, suggestion_limit()) =~= positions(found@));
            }
        }
        Some(found)
    }

    /// Find a word by a keyword: the first entry with a right term that
    /// equals `s` but for the case of ASCII letters.
    pub fn find_right_strictly(&self, s: &str, start_index: usize) -> (r: Option<usize>)
        requires
            self.wf(),
        ensures
            match r {
                Some(index) => index < self@.len() && first_hit(
                    right_equal_marks(self@, s@),
                    walk_start(self@.len() as int, start_index as int),
                    0,
                ) == Some(index as int),
                None => first_hit(
                    right_equal_marks(self@, s@),
                    walk_start(self@.len() as int, start_index as int),
                    0,
                ) is None,
            },
    {
        let size = self.count();
        if size == 0 {
            return None;
        }
        let start: usize = start_index % size;
        let mut index: usize = start;
        let mut step: usize = 0;
        let ghost marks = right_equal_marks(self@, s@);
        while step < size
            invariant
                self.wf(),
                size == self@.len(),
                size > 0,
                start < size,
                start == walk_start(self@.len() as int, start_index as int),
                step <= size,
                marks == right_equal_marks(self@, s@),
                step < size ==> index == turn(size as int, start as int, step as int),
                first_hit(marks, start as int, 0) == first_hit(marks, start as int, step as int),
            decreases size - step,
        {
            assert(marks.len() == size);
            assert(self@[index as int].rights == texts(self.right@[index as int]@));
            if history_has_term(&self.right[index], s) {
                assert(marks[index as int]);
                return Some(index);
            }
            assert(!marks[index as int]);
            index += 1;
            if index == size {
                index = 0;
            }
            step += 1;
        }
        None
    }

    /// Find a word by a keyword: the first entry with a right term in which
    /// `s` is found.
    pub fn find_right(&self, s: &str, start_index: usize) -> (r: Option<usize>)
        requires
            self.wf(),
        ensures
            match r {
                Some(index) => index < self@.len() && first_hit(
                    right_within_marks(self@, s@),
                    walk_start(self@.len() as int, start_index as int),
                    0,
                ) == Some(index as int),
                None => first_hit(
                    right_within_marks(self@, s@),
                    walk_start(self@.len() as int, start_index as int),
                    0,
                ) is None,
            },
    {
        let size = self.count();
        if size == 0 {
            return None;
        }
        let start: usize = start_index % size;
        let upper_term = upper(s);
        let lower_term = lower(s);
        let mut index: usize = start;
        let mut step: usize = 0;
        let ghost marks = right_within_marks(self@, s@);
        while step < size
            invariant
                self.wf(),
                size == self@.len(),
                size > 0,
                start < size,
                start == walk_start(self@.len() as int, start_index as int),
                step <= size,
                upper_term@ == upper_case(s@),
                lower_term@ == lower_case(s@),
                marks == right_within_marks(self@, s@),
                step < size ==> index == turn(size as int, start as int, step as int),
                first_hit(marks, start as int, 0) == first_hit(marks, start as int, step as int),
            decreases size - step,
        {
            assert(marks.len() == size);
            assert(self@[index as int].rights == texts(self.right@[index as int]@));
            if history_holds_term(
                &self.right[index],
                s,
                upper_term.as_str(),
                lower_term.as_str(),
            ) {
                assert(marks[index as int]);
                return Some(index);
            }
            assert(!marks[index as int]);
            index += 1;
            if index == size {
                index = 0;
            }
            step += 1;
        }
        None
    }

    /// Reads one line of the dictionary file. A blank line changes nothing
    /// and gives `Ok(false)`; a line with an entry appends it and gives
    /// `Ok(true)`; a broken line changes nothing and is reported under the
    /// line number `number`.
    #[verifier::loop_isolation(false)]
    pub fn read_line(&mut self, line: &str, number: usize) -> (r: Result<bool, ReadError>)
        requires
            old(self).wf(),
        ensures
            final(self).wf(),
            final(self).path_held() == old(self).path_held(),
            match line_step(old(self)@, line@) {
                Step::Skip => r matches Ok(took) && !took && final(self)@ == old(self)@,
                Step::Add(entry) => r matches Ok(took) && took && final(self)@ == old(self)@.push(
                    entry,
                ),
                Step::Fail(left, flaw) => r matches Err(error) && error.broken() == Some(
                    Break { line: number as nat, left, flaw },
                ) && final(self)@ == old(self)@,
            },
    {
        proof {
            reveal_strlit("=");
            reveal_strlit("-->");
            assert("="@ =~= equals_sign());
            assert("-->"@ =~= arrow());
        }
        let mut buffer = line.to_owned();
        trim_in_place(&mut buffer);
        if buffer.as_str().is_empty() {
            return Ok(false);
        }
        let pieces = split_on(buffer.as_str(), "=");
        proof {
            lemma_split_pieces(buffer@, equals_sign());
            assert(texts(pieces@).len() == pieces@.len());
            assert(forall|k: int| 0 <= k < pieces@.len() ==> pieces@[k]@ == texts(pieces@)[k]);
        }
        let raw_left = pieces[0].as_str();
        if has_substring(raw_left, "-->") {
            return Err(
                ReadError::Broken {
                    line: number,
                    left_string: raw_left.to_owned(),
                    reason: BrokenReason::BadLeftString,
                },
            );
        }
        let left = trimmed_end(raw_left);
        if let Some(index) = self.find_left_strictly(left, 0) {
            return Err(
                ReadError::Broken {
                    line: number,
                    left_string: left.to_owned(),
                    reason: BrokenReason::Duplicated {
                        another_left_string: self.left[index].clone(),
                    },
                },
            );
        }
        if pieces.len() < 2 {
            return Err(
                ReadError::Broken {
                    line: number,
                    left_string: left.to_owned(),
                    reason: BrokenReason::NoRightString,
                },
            );
        }
        let right_string = pieces[1].as_str();
        if pieces.len() > 2 {
            return Err(
                ReadError::Broken {
                    line: number,
                    left_string: left.to_owned(),
                    reason: BrokenReason::BadRightString { right_string: right_string.to_owned() },
                },
            );
        }
        let parts = split_on(right_string, "-->");
        let ghost rights = trim_each(split_seq(right_string@, arrow()));
        proof {
            assert(texts(parts@).len() == parts@.len());
            assert(forall|k: int| 0 <= k < parts@.len() ==> parts@[k]@ == texts(parts@)[k]);
        }
        let mut right_strings: Vec<String> = Vec::new();
        let mut k: usize = 0;
        while k < parts.len()
            invariant
                k <= parts@.len(),
                rights.len() == parts@.len(),
                forall|j: int| 0 <= j < parts@.len() ==> rights[j] == trim(#[trigger] parts@[j]@),
                right_strings@.len() == k,
                forall|j: int| 0 <= j < k ==> (#[trigger] right_strings@[j])@ == rights[j],
                forall|j: int| 0 <= j < k ==> (#[trigger] rights[j]).len() > 0,
            decreases parts@.len() - k,
        {
            let part = trimmed(parts[k].as_str());
            if part.is_empty() {
                assert(rights[k as int].len() == 0);
                assert(has_empty(rights));
                return Err(
                    ReadError::Broken {
                        line: number,
                        left_string: left.to_owned(),
                        reason: BrokenReason::BadRightString {
                            right_string: right_string.to_owned(),
                        },
                    },
                );
            }
            right_strings.push(part.to_owned());
            k += 1;
        }
        proof {
            assert(!has_empty(rights));
            assert(texts(right_strings@) =~= rights);
            lemma_step_keeps_valid(self@, line@);
        }
        let ghost before = self@;
        self.left.push(left.to_owned());
        self.right.push(right_strings);
        assert(self@ =~= before.push(Entry { left: left@, rights }));
        Ok(true)
    }

    /// Read the dictionary from the text of the dictionary file, line by
    /// line. Each line with an entry is appended to the dictionary. Reading
    /// stops at the first line that cannot be read; the entries of the lines
    /// before it stay.
    pub fn read_data(&mut self, text: &str) -> (r: Result<(), ReadError>)
        requires
            old(self).wf(),
        ensures
            final(self).wf(),
            final(self).path_held() == old(self).path_held(),
            final(self)@ == read_text(old(self)@, text@).entries,
            match r {
                Ok(_) => read_text(old(self)@, text@).failure is None,
                Err(error) => error.broken() is Some && error.broken() == read_text(
                    old(self)@,
                    text@,
                ).failure,
            },
    {
        proof {
            reveal_strlit("\n");
            assert("\n"@ =~= line_break());
        }
        let lines = split_on(text, "\n");
        let ghost all = texts(lines@);
        let ghost before = self@;
        let mut added: usize = 0;
        let mut i: usize = 0;
        assert(all.skip(0) =~= all);
        while i < lines.len()
            invariant
                self.wf(),
                i <= lines@.len(),
                added <= i,
                before == old(self)@,
                self.path_held() == old(self).path_held(),
                all == texts(lines@),
                all == split_seq(text@, line_break()),
                load(before, all, 0) == load(self@, all.skip(i as int), added as nat),
            decreases lines@.len() - i,
        {
            proof {
                assert(all.skip(i as int)[0] == lines@[i as int]@);
                assert(all.skip(i as int).drop_first() =~= all.skip(i + 1));
            }
            match self.read_line(lines[i].as_str(), added + 1) {
                Ok(took) => {
                    if took {
                        added += 1;
                    }
                },
                Err(error) => {
                    return Err(error);
                },
            }
            i += 1;
        }
        Ok(())
    }

    /// Puts the entries in the ascending order of `keys`, of which there is
    /// one for each entry: whenever a later key comes before an earlier
    /// one, the two entries change places, and their keys with them.
    pub fn sort_by_keys(&mut self, keys: &mut Vec<String>)
        requires
            old(self).wf(),
            old(keys)@.len() == old(self)@.len(),
        ensures
            final(self).wf(),
            final(self).path_held() == old(self).path_held(),
            final(self)@.len() == old(self)@.len(),
            final(keys)@.len() == old(keys)@.len(),
            final(self)@.to_multiset() == old(self)@.to_multiset(),
            keyed(texts(final(keys)@), final(self)@).to_multiset() == keyed(
                texts(old(keys)@),
                old(self)@,
            ).to_multiset(),
            ascending(texts(final(keys)@)),
    {
        let size = self.count();
        let ghost start_entries = self@;
        let ghost start_keyed = keyed(texts(keys@), self@);
        if size == 0 {
            return ;
        }
        let mut i: usize = 0;
        while i < size - 1
            invariant
                size > 0,
                i <= size - 1,
                self.wf(),
                self@.len() == size,
                keys@.len() == size,
                self.path_held() == old(self).path_held(),
                self@.to_multiset() == start_entries.to_multiset(),
                keyed(texts(keys@), self@).to_multiset() == start_keyed.to_multiset(),
                forall|a: int, b: int|
                    0 <= a < i && a < b < size ==> !lex_less(
                        (#[trigger] keys@[b])@,
                        (#[trigger] keys@[a])@,
                    ),
            decreases size - i,
        {
            let mut j: usize = i + 1;
            while j < size
                invariant
                    i < size - 1,
                    i < j <= size,
                    self.wf(),
                    self@.len() == size,
                    keys@.len() == size,
                    self.path_held() == old(self).path_held(),
                    self@.to_multiset() == start_entries.to_multiset(),
                    keyed(texts(keys@), self@).to_multiset() == start_keyed.to_multiset(),
                    forall|a: int, b: int|
                        0 <= a < i && a < b < size ==> !lex_less(
                            (#[trigger] keys@[b])@,
                            (#[trigger] keys@[a])@,
                        ),
                    forall|b: int|
                        i < b < j ==> !lex_less((#[trigger] keys@[b])@, keys@[i as int]@),
                decreases size - j,
            {
                let ghost entries = self@;
                let ghost old_keys = keys@;
                let ghost pairs = keyed(texts(keys@), self@);
                if sorts_after(keys[i].as_str(), keys[j].as_str()) {
                    swap_places(&mut self.left, i, j);
                    swap_places(&mut self.right, i, j);
                    swap_places(keys, i, j);
                    proof {
                        let a = i as int;
                        let b = j as int;
                        assert(self@ =~= entries.update(a, entries[b]).update(b, entries[a]));
                        assert(keyed(texts(keys@), self@) =~= pairs.update(a, pairs[b]).update(
                            b,
                            pairs[a],
                        ));
                        lemma_swap_keeps_valid(entries, a, b);
                        lemma_swap_keeps_multiset(entries, a, b);
                        lemma_swap_keeps_multiset(pairs, a, b);
                        lemma_lex_less_asymmetric(old_keys[b]@, old_keys[a]@);
                        assert forall|c: int| i < c < j + 1 implies !lex_less(
                            (#[trigger] keys@[c])@,
                            keys@[a]@,
                        ) by {
                            if c < j {
                                assert(keys@[c] == old_keys[c]);
                                if lex_less(old_keys[c]@, old_keys[b]@) {
                                    lemma_lex_less_transitive(
                                        old_keys[c]@,
                                        old_keys[b]@,
                                        old_keys[a]@,
                                    );
                                }
                            }
                        }
                        assert forall|c: int, d: int| 0 <= c < i && c < d < size implies !lex_less(
                            (#[trigger] keys@[d])@,
                            (#[trigger] keys@[c])@,
                        ) by {
                            assert(keys@[c] == old_keys[c]);
                            if d == a {
                                assert(keys@[d] == old_keys[b]);
                            } else if d == b {
                                assert(keys@[d] == old_keys[a]);
                            } else {
                                assert(keys@[d] == old_keys[d]);
                            }
                        }
                    }
                }
                j += 1;
            }
            i += 1;
        }
        assert(ascending(texts(keys@))) by {
            assert forall|a: int, b: int| 0 <= a < b < texts(keys@).len() implies !lex_less(
                texts(keys@)[b],
                texts(keys@)[a],
            ) by {
                assert(texts(keys@)[b] == keys@[b]@);
                assert(texts(keys@)[a] == keys@[a]@);
            }
        }
    }

    /// Puts the entries in the order of their left terms written in
    /// capitals.
    fn arrange(&mut self)
        requires
            old(self).wf(),
        ensures
            final(self).wf(),
            final(self).path_held() == old(self).path_held(),
            final(self)@.len() == old(self)@.len(),
            final(self)@.to_multiset() == old(self)@.to_multiset(),
            sorted_by_capitals(final(self)@),
    {
        let mut keys: Vec<String> = Vec::new();
        let mut i: usize = 0;
        while i < self.left.len()
            invariant
                i <= self.left@.len(),
                keys@.len() == i,
                forall|t: int| 0 <= t < i ==> (#[trigger] keys@[t])@ == upper_case(self.left@[t]@),
            decreases self.left@.len() - i,
        {
            keys.push(upper(self.left[i].as_str()));
            i += 1;
        }
        let ghost start_keyed = keyed(texts(keys@), self@);
        assert forall|t: int| 0 <= t < start_keyed.len() implies (#[trigger] start_keyed[t]).key
            == upper_case(start_keyed[t].entry.left) by {
            assert(texts(keys@)[t] == keys@[t]@);
        }
        self.sort_by_keys(&mut keys);
        proof {
            let end_keyed = keyed(texts(keys@), self@);
            assert forall|t: int| 0 <= t < self@.len() implies texts(keys@)[t] == upper_case(
                (#[trigger] self@[t]).left,
            ) by {
                vstd::seq_lib::to_multiset_contains(end_keyed, end_keyed[t]);
                vstd::seq_lib::to_multiset_contains(start_keyed, end_keyed[t]);
                assert(end_keyed.contains(end_keyed[t]));
                assert(start_keyed.contains(end_keyed[t]));
                let u = choose|u: int| 0 <= u < start_keyed.len() && start_keyed[u] == end_keyed[t];
                assert(start_keyed[u].key == upper_case(start_keyed[u].entry.left));
            }
            assert forall|a: int, b: int| 0 <= a < b < self@.len() implies !lex_less(
                upper_case(self@[b].left),
                upper_case(self@[a].left),
            ) by {
                assert(texts(keys@)[a] == upper_case(self@[a].left));
                assert(texts(keys@)[b] == upper_case(self@[b].left));
            }
        }
    }

    /// The text of the dictionary file for the entries as they stand.
    fn render_text(&self) -> (text: String)
        requires
            self.wf(),
        ensures
            text@ == render(self@),
    {
        proof {
            reveal_strlit(" = ");
            reveal_strlit(" --> ");
            reveal_strlit("\n");
            assert(" = "@ =~= spaced_equals());
            assert(" --> "@ =~= spaced_arrow());
            assert("\n"@ =~= line_break());
        }
        let mut lines: Vec<String> = Vec::new();
        let mut i: usize = 0;
        while i < self.left.len()
            invariant
                self.wf(),
                i <= self@.len(),
                lines@.len() == i,
                " = "@ == spaced_equals(),
                " --> "@ == spaced_arrow(),
                forall|t: int| 0 <= t < i ==> (#[trigger] lines@[t])@ == render_line(self@[t]),
            decreases self@.len() - i,
        {
            let mut line = self.left[i].clone();
            line.append(" = ");
            let history = join_with(&self.right[i], " --> ");
            line.append(history.as_str());
            lines.push(line);
            i += 1;
        }
        assert(texts(lines@) =~= render_lines(self@));
        join_with(&lines, "\n")
    }

    /// Write this dictionary: the entries are put in the order of their
    /// left terms written in capitals, and the text of the dictionary file
    /// is returned, one line for each entry.
    pub fn write_data(&mut self) -> (text: String)
        requires
            old(self).wf(),
        ensures
            final(self).wf(),
            final(self).path_held() == old(self).path_held(),
            final(self)@.to_multiset() == old(self)@.to_multiset(),
            final(self)@.len() == old(self)@.len(),
            sorted_by_capitals(final(self)@),
            text@ == render(final(self)@),
    {
        self.arrange();
        self.render_text()
    }

    /// Delete a word. An index beyond the last entry removes nothing and
    /// gives `Ok(false)`; otherwise the entry leaves and the rest is put in
    /// the order of the dictionary file.
    pub fn delete(&mut self, index: usize) -> (r: Result<bool, WriteError>)
        requires
            old(self).wf(),
        ensures
            final(self).wf(),
            final(self).path_held() == old(self).path_held(),
            r matches Ok(removed) && removed == (index < old(self)@.len()),
            index >= old(self)@.len() ==> final(self)@ == old(self)@,
            index < old(self)@.len() ==> final(self)@.to_multiset() == old(self)@.remove(
                index as int,
            ).to_multiset() && final(self)@.len() == old(self)@.len() - 1 && sorted_by_capitals(
                final(self)@,
            ),
    {
        if index < self.count() {
            let ghost before = self@;
            self.left.remove(index);
            self.right.remove(index);
            proof {
                assert(self@ =~= before.remove(index as int));
                lemma_remove_keeps_valid(before, index as int);
            }
            self.arrange();
            Ok(true)
        } else {
            Ok(false)
        }
    }

    /// Add or edit a word. Both terms are trimmed first. If the left word
    /// exists, its history takes the right word, and the result is
    /// `Ok(false)`; else a new entry is made, and the result is `Ok(true)`.
    /// After either the entries are put in the order of the dictionary
    /// file. A pair that is refused changes nothing.
    pub fn add_edit(&mut self, left: &str, right: &str) -> (r: Result<bool, WriteError>)
        requires
            old(self).wf(),
        ensures
            final(self).wf(),
            final(self).path_held() == old(self).path_held(),
            match upsert(old(self)@, left@, right@) {
                Change::Refused(refusal) => r matches Err(error) && error.refusal() == Some(
                    refusal,
                ) && final(self)@ == old(self)@,
                Change::Extended(entries) => r matches Ok(created) && !created
                    && final(self)@.to_multiset() == entries.to_multiset()
                    && final(self)@.len() == entries.len()
                    && sorted_by_capitals(final(self)@),
                Change::Created(entries) => r matches Ok(created) && created
                    && final(self)@.to_multiset() == entries.to_multiset()
                    && final(self)@.len() == entries.len()
                    && sorted_by_capitals(final(self)@),
            },
    {
        proof {
            reveal_strlit("=");
            reveal_strlit("-->");
            assert("="@ =~= equals_sign());
            assert("-->"@ =~= arrow());
        }
        proof {
            lemma_trim_is_trimmed(left@);
            lemma_trim_is_trimmed(right@);
        }
        let left = trimmed(left);
        let right = trimmed(right);
        let ghost before = self@;
        if has_substring(left, "-->") || has_substring(left, "=") {
            Err(WriteError::BadLeftString)
        } else if has_substring(right, "-->") || has_substring(right, "=") {
            Err(WriteError::BadRightString)
        } else if left.to_owned() == right.to_owned() {
            Err(WriteError::Same)
        } else if let Some(index) = self.find_left_strictly(left, 0) {
            let history = &self.right[index];
            assert(before[index as int].rights.len() >= 1);
            if history[history.len() - 1] == right.to_owned() {
                Err(WriteError::Duplicated)
            } else {
                self.right[index].push(right.to_owned());
                proof {
                    let grown = Entry {
                        left: before[index as int].left,
                        rights: before[index as int].rights.push(right@),
                    };
                    assert(texts(self.right@[index as int]@) =~= before[index as int].rights.push(
                        right@,
                    ));
                    assert(self@ =~= before.update(index as int, grown));
                    lemma_extend_keeps_valid(before, index as int, right@);
                }
                self.arrange();
                Ok(false)
            }
        } else {
            let mut history: Vec<String> = Vec::new();
            history.push(right.to_owned());
            self.left.push(left.to_owned());
            self.right.push(history);
            proof {
                let entry = Entry { left: left@, rights: seq![right@] };
                let marks = left_equal_marks(before, left@);
                assert(texts(history@) =~= seq![right@]);
                assert(self@ =~= before.push(entry));
                lemma_first_hit_none(marks, 0);
                assert forall|i: int| 0 <= i < before.len() implies fold(
                    (#[trigger] before[i]).left,
                ) != fold(left@) by {
                    assert(!marks[i]);
                }
                lemma_push_keeps_valid(before, entry);
            }
            self.arrange();
            Ok(true)
        }
    }

    /// The entries in whose left term `keyword` is found, each as its left
    /// term with its history: those that `find_left` gives for a walk from
    /// the front. No left term comes twice. A dictionary without entries
    /// gives none.
    pub fn find_pairs(&self, keyword: &str) -> (pairs: Vec<(String, Vec<String>)>)
        requires
            self.wf(),
        ensures
            pairs@.len() == pair_hits(self@, keyword@).len(),
            forall|t: int|
                0 <= t < pairs@.len() ==> {
                    let index = pair_hits(self@, keyword@)[t];
                    &&& 0 <= index < self@.len()
                    &&& (#[trigger] pairs@[t]).0@ == self@[index].left
                    &&& texts(pairs@[t].1@) == self@[index].rights
                },
            forall|t: int, u: int|
                0 <= t < pairs@.len() && 0 <= u < pairs@.len() && t != u ==> (#[trigger] pairs@[t]).0@
                    != (#[trigger] pairs@[u]).0@,
    {
        let mut output: Vec<(String, Vec<String>)> = Vec::new();
        let ghost hits = pair_hits(self@, keyword@);
        if let Some(found) = self.find_left(keyword, 0) {
            assert(positions(found@) == hits);
            let mut t: usize = 0;
            while t < found.len()
                invariant
                    self.wf(),
                    t <= found@.len(),
                    output@.len() == t,
                    positions(found@) == hits,
                    forall|u: int| 0 <= u < found@.len() ==> #[trigger] found@[u] < self@.len(),
                    forall|u: int|
                        0 <= u < t ==> (#[trigger] output@[u]).0@ == self@[found@[u] as int].left
                            && texts(output@[u].1@) == self@[found@[u] as int].rights,
                decreases found@.len() - t,
            {
                let single_item = self.get_all_right_with_keys(found[t]);
                output.push((single_item.left.unwrap(), single_item.right));
                t += 1;
            }
            proof {
                assert forall|u: int| 0 <= u < output@.len() implies hits[u] == found@[u] as int by {
                    assert(positions(found@)[u] == found@[u] as int);
                }
                assert forall|u: int, v: int|
                    0 <= u < output@.len() && 0 <= v < output@.len() && u != v implies (
                #[trigger] output@[u]).0@ != (#[trigger] output@[v]).0@ by {
                    let a = found@[u] as int;
                    let b = found@[v] as int;
                    assert(a != b);
                    assert(fold(self@[a].left) != fold(self@[b].left));
                }
            }
        } else {
            assert(hits =~= Seq::<int>::empty());
        }
        output
    }
}

} // verus!
