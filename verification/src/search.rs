//! Scanning a text: one pass through the automaton that records, for each
//! pattern, the first place at which it is found.

use crate::text::{
    ascii_space_mask, ends_at, first_occurrence, lemma_ends_at_suffix, lemma_suffix_of_suffix,
    lemma_suffix_transitive, occurs_at, occurs_in, space_mask, to_chars, white_mask, word_count,
    word_index, word_indices, word_length,
};
use crate::trie::{longest_suffix_node, reports, ACAutomaton, Entry};
use std::collections::HashMap;
use vstd::prelude::*;
use vstd::string::StrSliceExecFns;

verus! {

/// At position `i` of `text` an entry with index `k` is recognised and
/// accepted: its pattern ends there, and the position's mark, plus one, is
/// at least the span of `k`.
pub open spec fn fires(
    entries: Seq<Entry>,
    text: Seq<char>,
    marks: Seq<usize>,
    spans: Seq<usize>,
    k: usize,
    i: int,
) -> bool {
    &&& 0 <= i < text.len()
    &&& reports(entries, text.take(i + 1), k)
    &&& marks[i] + 1 >= spans[k as int]
}

/// The index `k` fires at some position before `n`.
pub open spec fn fires_before(
    entries: Seq<Entry>,
    text: Seq<char>,
    marks: Seq<usize>,
    spans: Seq<usize>,
    k: usize,
    n: int,
) -> bool {
    exists|i: int| 0 <= i < n && fires(entries, text, marks, spans, k, i)
}

/// `value` is what the first position before `n` at which `k` fires gives:
/// its mark, plus one, less the span of `k`.
pub open spec fn recorded(
    entries: Seq<Entry>,
    text: Seq<char>,
    marks: Seq<usize>,
    spans: Seq<usize>,
    k: usize,
    value: usize,
    n: int,
) -> bool {
    exists|i: int|
        0 <= i < n && #[trigger] fires(entries, text, marks, spans, k, i) && !fires_before(
            entries,
            text,
            marks,
            spans,
            k,
            i,
        ) && value == marks[i] + 1 - spans[k as int]
}

/// Adds `key` with `value` unless `key` is present.
pub fn insert_if_absent(m: &mut HashMap<usize, usize>, key: usize, value: usize)
    ensures
        final(m)@ == if old(m)@.contains_key(key) {
            old(m)@
        } else {
            old(m)@.insert(key, value)
        },
{
    broadcast use vstd::std_specs::hash::group_hash_axioms;

    m.entry(key).or_insert(value);
    assert(m@ =~= if old(m)@.contains_key(key) {
        old(m)@
    } else {
        old(m)@.insert(key, value)
    });
}

/// An occurrence of `p` ends at position `i` of `text`, and the words of the
/// text up to that position are at least as many as the words of `p`.
pub open spec fn word_hit(text: Seq<char>, p: Seq<char>, i: int) -> bool {
    &&& ends_at(text, p, i)
    &&& word_index(space_mask(text), i) + 1 >= word_count(white_mask(p))
}

/// `start` is the word offset reported for `p` in `text`: at the first
/// position that is a word hit, the word index plus one, less the number of
/// words of `p`.
pub open spec fn first_word_hit(text: Seq<char>, p: Seq<char>, start: int) -> bool {
    exists|i: int|
        #[trigger] word_hit(text, p, i) && (forall|j: int| 0 <= j < i ==> !word_hit(text, p, j))
            && start == word_index(space_mask(text), i) + 1 - word_count(white_mask(p))
}

/// `r` is what a scan in character mode reports for the pattern `p`: the
/// offset of the first occurrence of `p` in `text`, or nothing if there is
/// none. For the empty pattern it is 1 if the text is not empty.
pub open spec fn char_report(text: Seq<char>, p: Seq<char>, r: Option<usize>) -> bool {
    match r {
        Some(o) => text.len() > 0 && if p.len() > 0 {
            first_occurrence(text, p, o as int)
        } else {
            o == 1
        },
        None => !(text.len() > 0 && occurs_in(text, p)),
    }
}

/// `r` is what a scan in word mode reports for the pattern `p`: the word
/// offset that the first word hit of `p` in `text` gives, or nothing if
/// there is no word hit.
pub open spec fn word_report(text: Seq<char>, p: Seq<char>, r: Option<usize>) -> bool {
    match r {
        Some(start) => first_word_hit(text, p, start as int),
        None => forall|i: int| !word_hit(text, p, i),
    }
}

/// An occurrence of `p` ends somewhere in `text` exactly if the text is not
/// empty and `p` occurs in it.
pub proof fn lemma_ends_somewhere(text: Seq<char>, p: Seq<char>)
    ensures
        (exists|i: int| ends_at(text, p, i)) <==> (text.len() > 0 && occurs_in(text, p)),
{
    if text.len() > 0 && occurs_in(text, p) {
        let o = choose|o: int| occurs_at(text, p, o);
        if p.len() > 0 {
            assert(ends_at(text, p, o + p.len() - 1));
        } else {
            assert(text.subrange(1, 1) =~= p);
            assert(ends_at(text, p, 0));
        }
    }
}

impl ACAutomaton {
    /// In the state that stands for the longest suffix of `s` that is a path
    /// of the trie, the patterns that are suffixes of the path are those
    /// that are suffixes of `s`.
    pub(crate) proof fn lemma_state_reports(&self, s: Seq<char>, state: int, k: usize)
        requires
            self.wf(),
            longest_suffix_node(self.paths@, s, state),
        ensures
            reports(self.entries@, self.paths@[state], k) <==> reports(self.entries@, s, k),
    {
        let path = self.paths@[state];
        if reports(self.entries@, path, k) {
            let e = choose|e: int|
                0 <= e < self.entries@.len() && (#[trigger] self.entries@[e]).1 == k
                    && self.entries@[e].0.is_suffix_of(path);
            lemma_suffix_transitive(self.entries@[e].0, path, s);
        }
        if reports(self.entries@, s, k) {
            let e = choose|e: int|
                0 <= e < self.entries@.len() && (#[trigger] self.entries@[e]).1 == k
                    && self.entries@[e].0.is_suffix_of(s);
            let g = self.terminals@[e];
            assert(self.paths@[g] == self.entries@[e].0);
            lemma_suffix_of_suffix(self.entries@[e].0, path, s);
        }
    }

    /// Runs `text` through the automaton. Whenever a pattern with index `k`
    /// ends at a position `i`, and `marks[i] + 1 >= spans[k]`, and nothing is
    /// recorded for `k` yet, records `marks[i] + 1 - spans[k]` for `k`.
    ///
    /// `marks` gives every position of the text its index in the unit that
    /// offsets are counted in, and `spans` gives every pattern its length in
    /// that unit: characters for both in character mode, words in word mode.
    pub fn scan(&self, text: &[char], marks: &[usize], spans: &[usize]) -> (result:
        HashMap<usize, usize>)
        requires
            self.wf(),
            self.built(),
            marks@.len() == text@.len(),
            forall|i: int| 0 <= i < marks@.len() ==> marks@[i] < usize::MAX,
            forall|e: int|
                0 <= e < self.entries().len() ==> (#[trigger] self.entries()[e]).1 < spans@.len(),
        ensures
            forall|k: usize|
                result@.contains_key(k) <==> fires_before(
                    self.entries(),
                    text@,
                    marks@,
                    spans@,
                    k,
                    text@.len() as int,
                ),
            forall|k: usize|
                result@.contains_key(k) ==> recorded(
                    self.entries(),
                    text@,
                    marks@,
                    spans@,
                    k,
                    #[trigger] result@[k],
                    text@.len() as int,
                ),
    {
        broadcast use vstd::std_specs::hash::group_hash_axioms;

        let mut result: HashMap<usize, usize> = HashMap::new();
        let mut state: usize = 0;
        let mut i: usize = 0;
        proof {
            assert forall|e: int| 0 <= e < self.entries@.len() implies (#[trigger] self.entries@[e]).1
                < spans@.len() by {
                assert(self.entries()[e].1 < spans@.len());
            }
        }
        while i < text.len()
            invariant
                self.wf(),
                self.built,
                i <= text@.len(),
                marks@.len() == text@.len(),
                forall|i: int| 0 <= i < marks@.len() ==> marks@[i] < usize::MAX,
                forall|e: int|
                    0 <= e < self.entries@.len() ==> (#[trigger] self.entries@[e]).1 < spans@.len(),
                longest_suffix_node(self.paths@, text@.take(i as int), state as int),
                forall|k: usize|
                    result@.contains_key(k) <==> fires_before(
                        self.entries@,
                        text@,
                        marks@,
                        spans@,
                        k,
                        i as int,
                    ),
                forall|k: usize|
                    result@.contains_key(k) ==> recorded(
                        self.entries@,
                        text@,
                        marks@,
                        spans@,
                        k,
                        #[trigger] result@[k],
                        i as int,
                    ),
            decreases text@.len() - i,
        {
            let c = text[i];
            let ghost seen = text@.take(i as int);
            state = self.advance(state, c as u32, Ghost(c), Ghost(seen));
            proof {
                assert(self.full_outputs(state as int));
            }
            let mut j: usize = 0;
            while j < self.nodes[state].outputs.len()
                invariant
                    self.wf(),
                    self.built,
                    i < text@.len(),
                    state < self.nodes@.len(),
                    j <= self.nodes@[state as int].outputs@.len(),
                    marks@.len() == text@.len(),
                    forall|i: int| 0 <= i < marks@.len() ==> marks@[i] < usize::MAX,
                    forall|e: int|
                        0 <= e < self.entries@.len() ==> (#[trigger] self.entries@[e]).1
                            < spans@.len(),
                    longest_suffix_node(self.paths@, text@.take(i + 1), state as int),
                    forall|k: usize|
                        result@.contains_key(k) <==> (fires_before(
                            self.entries@,
                            text@,
                            marks@,
                            spans@,
                            k,
                            i as int,
                        ) || (self.nodes@[state as int].outputs@.take(j as int).contains(k)
                            && marks@[i as int] + 1 >= spans@[k as int])),
                    forall|k: usize|
                        result@.contains_key(k) ==> recorded(
                            self.entries@,
                            text@,
                            marks@,
                            spans@,
                            k,
                            #[trigger] result@[k],
                            i + 1,
                        ),
                decreases self.nodes@[state as int].outputs@.len() - j,
            {
                let k = self.nodes[state].outputs[j];
                let ghost outs = self.nodes@[state as int].outputs@;
                proof {
                    assert(self.full_outputs(state as int));
                    self.lemma_state_reports(text@.take(i + 1), state as int, k);
                }
                if marks[i] + 1 >= spans[k] {
                    insert_if_absent(&mut result, k, marks[i] + 1 - spans[k]);
                    proof {
                        assert(fires(self.entries@, text@, marks@, spans@, k, i as int));
                    }
                }
                proof {
                    assert forall|x: usize|
                        result@.contains_key(x) <==> (fires_before(
                            self.entries@,
                            text@,
                            marks@,
                            spans@,
                            x,
                            i as int,
                        ) || (outs.take(j + 1).contains(x) && marks@[i as int] + 1
                            >= spans@[x as int])) by {
                        let long = outs.take(j + 1);
                        if x == k {
                            assert(long[j as int] == k);
                        }
                    }
                }
                j += 1;
            }
            proof {
                let outs = self.nodes@[state as int].outputs@;
                assert(outs.take(outs.len() as int) =~= outs);
                assert forall|k: usize|
                    result@.contains_key(k) <==> fires_before(
                        self.entries@,
                        text@,
                        marks@,
                        spans@,
                        k,
                        i + 1,
                    ) by {
                    self.lemma_state_reports(text@.take(i + 1), state as int, k);
                    if outs.contains(k) && marks@[i as int] + 1 >= spans@[k as int] {
                        assert(fires(self.entries@, text@, marks@, spans@, k, i as int));
                    }
                }
            }
            i += 1;
        }
        result
    }

    /// Every inserted pattern stands in `patterns` at its index.
    pub open spec fn indexed_by(&self, patterns: Seq<String>) -> bool {
        forall|e: int|
            0 <= e < self.entries().len() ==> {
                &&& (#[trigger] self.entries()[e]).1 < patterns.len()
                &&& patterns[self.entries()[e].1 as int]@ == self.entries()[e].0
            }
    }

    /// `found` holds what a scan of `text` in character mode reports: for
    /// each index of the automaton, what `char_report` says of its pattern,
    /// and nothing under any other key.
    pub open spec fn char_results(
        &self,
        text: Seq<char>,
        patterns: Seq<String>,
        found: Map<usize, usize>,
    ) -> bool {
        &&& forall|k: usize| #[trigger] found.contains_key(k) ==> self.has_index(k)
        &&& forall|k: usize|
            #[trigger] self.has_index(k) ==> char_report(text, patterns[k as int]@, found.get(k))
    }

    /// `found` holds what a scan of `text` in word mode reports: for each
    /// index of the automaton, what `word_report` says of its pattern, and
    /// nothing under any other key.
    pub open spec fn word_results(
        &self,
        text: Seq<char>,
        patterns: Seq<String>,
        found: Map<usize, usize>,
    ) -> bool {
        &&& forall|k: usize| #[trigger] found.contains_key(k) ==> self.has_index(k)
        &&& forall|k: usize|
            #[trigger] self.has_index(k) ==> word_report(text, patterns[k as int]@, found.get(k))
    }

    /// With the patterns at their indices, an entry with index `k` is
    /// recognised at position `i` exactly if `k` is an index of the automaton
    /// and an occurrence of the pattern `k` ends at `i`.
    pub(crate) proof fn lemma_reports_indexed(
        &self,
        text: Seq<char>,
        patterns: Seq<String>,
        k: usize,
        i: int,
    )
        requires
            self.indexed_by(patterns),
            0 <= i < text.len(),
        ensures
            reports(self.entries(), text.take(i + 1), k) <==> (self.has_index(k) && ends_at(
                text,
                patterns[k as int]@,
                i,
            )),
    {
        lemma_ends_at_suffix(text, patterns[k as int]@, i);
    }

    /// Character mode: for each pattern, the offset of its first occurrence
    /// in `text`, counted in characters.
    ///
    /// A pattern is found when an occurrence of it ends at the character
    /// just read; the offset recorded is that position, plus one, less the
    /// length of the pattern. So the empty pattern is found at the first
    /// character of a text that is not empty, and the offset recorded for it
    /// is 1.
    pub fn search_char(&self, text: &str, patterns: &[String]) -> (result: HashMap<usize, usize>)
        requires
            self.wf(),
            self.built(),
            self.indexed_by(patterns@),
        ensures
            self.char_results(text@, patterns@, result@),
    {
        let chars = to_chars(text);
        let mut marks: Vec<usize> = Vec::new();
        let mut i: usize = 0;
        while i < chars.len()
            invariant
                i <= chars@.len(),
                marks@.len() == i,
                forall|j: int| 0 <= j < i ==> #[trigger] marks@[j] == j,
            decreases chars@.len() - i,
        {
            marks.push(i);
            i += 1;
        }
        let mut spans: Vec<usize> = Vec::new();
        let mut k: usize = 0;
        while k < patterns.len()
            invariant
                k <= patterns@.len(),
                spans@.len() == k,
                forall|j: int| 0 <= j < k ==> #[trigger] spans@[j] == patterns@[j]@.len(),
            decreases patterns@.len() - k,
        {
            spans.push(patterns[k].as_str().unicode_len());
            k += 1;
        }
        let result = self.scan(chars.as_slice(), marks.as_slice(), spans.as_slice());
        proof {
            let entries = self.entries();
            let n = text@.len() as int;
            assert forall|k: usize|
                #[trigger] result@.contains_key(k) <==> (self.has_index(k) && text@.len() > 0
                    && occurs_in(text@, patterns@[k as int]@)) by {
                let p = patterns@[k as int]@;
                lemma_ends_somewhere(text@, p);
                if result@.contains_key(k) {
                    let i = choose|i: int|
                        0 <= i < n && fires(entries, text@, marks@, spans@, k, i);
                    self.lemma_reports_indexed(text@, patterns@, k, i);
                }
                if self.has_index(k) && text@.len() > 0 && occurs_in(text@, p) {
                    let i = choose|i: int| ends_at(text@, p, i);
                    self.lemma_reports_indexed(text@, patterns@, k, i);
                    assert(fires(entries, text@, marks@, spans@, k, i));
                }
            }
            assert forall|k: usize| #[trigger] result@.contains_key(k) implies (if patterns@[k as int]@.len()
                > 0 {
                first_occurrence(text@, patterns@[k as int]@, result@[k] as int)
            } else {
                result@[k] == 1
            }) by {
                let p = patterns@[k as int]@;
                let i = choose|i: int|
                    0 <= i < n && #[trigger] fires(entries, text@, marks@, spans@, k, i)
                        && !fires_before(entries, text@, marks@, spans@, k, i) && result@[k]
                        == marks@[i] + 1 - spans@[k as int];
                self.lemma_reports_indexed(text@, patterns@, k, i);
                if p.len() > 0 {
                    let o = i + 1 - p.len();
                    assert forall|q: int| 0 <= q < o implies !occurs_at(text@, p, q) by {
                        if occurs_at(text@, p, q) {
                            let j = q + p.len() - 1;
                            self.lemma_reports_indexed(text@, patterns@, k, j);
                            assert(fires(entries, text@, marks@, spans@, k, j));
                        }
                    }
                } else {
                    if i > 0 {
                        self.lemma_reports_indexed(text@, patterns@, k, 0);
                        assert(fires(entries, text@, marks@, spans@, k, 0));
                    }
                }
            }
        }
        result
    }

    /// Word mode: for each pattern, the word offset of its first word hit in
    /// `text`.
    ///
    /// Every position of the text has a word index, and every pattern a
    /// number of words. When an occurrence of a pattern ends at a position,
    /// it is accepted if the position's word index, plus one, is at least
    /// the pattern's number of words, and is passed over otherwise; the
    /// offset recorded is the difference. The words of the text are divided
    /// by ASCII whitespace, those of a pattern by Unicode whitespace.
    pub fn search_character(&self, text: &str, patterns: &[String]) -> (result: HashMap<
        usize,
        usize,
    >)
        requires
            self.wf(),
            self.built(),
            self.indexed_by(patterns@),
        ensures
            self.word_results(text@, patterns@, result@),
    {
        let chars = to_chars(text);
        let mask = ascii_space_mask(chars.as_slice());
        let word_indices = word_indices(mask.as_slice());
        let mut spans: Vec<usize> = Vec::new();
        let mut k: usize = 0;
        while k < patterns.len()
            invariant
                k <= patterns@.len(),
                spans@.len() == k,
                forall|j: int|
                    0 <= j < k ==> #[trigger] spans@[j] == word_count(white_mask(patterns@[j]@)),
            decreases patterns@.len() - k,
        {
            spans.push(word_length(patterns[k].as_str()));
            k += 1;
        }
        let result = self.scan(chars.as_slice(), word_indices.as_slice(), spans.as_slice());
        proof {
            let entries = self.entries();
            let marks = word_indices@;
            let n = text@.len() as int;
            assert forall|k: usize, i: int| 0 <= i < n implies (#[trigger] fires(
                entries,
                text@,
                marks,
                spans@,
                k,
                i,
            ) <==> (self.has_index(k) && word_hit(text@, patterns@[k as int]@, i))) by {
                self.lemma_reports_indexed(text@, patterns@, k, i);
            }
            assert forall|k: usize|
                #[trigger] result@.contains_key(k) <==> (self.has_index(k) && exists|i: int|
                    word_hit(text@, patterns@[k as int]@, i)) by {
                let p = patterns@[k as int]@;
                if self.has_index(k) && exists|i: int| word_hit(text@, p, i) {
                    let i = choose|i: int| word_hit(text@, p, i);
                    assert(fires(entries, text@, marks, spans@, k, i));
                }
            }
            assert forall|k: usize| #[trigger] result@.contains_key(k) implies first_word_hit(
                text@,
                patterns@[k as int]@,
                result@[k] as int,
            ) by {
                let p = patterns@[k as int]@;
                let i = choose|i: int|
                    0 <= i < n && #[trigger] fires(entries, text@, marks, spans@, k, i)
                        && !fires_before(entries, text@, marks, spans@, k, i) && result@[k]
                        == marks[i] + 1 - spans@[k as int];
                assert forall|j: int| 0 <= j < i implies !word_hit(text@, p, j) by {
                    if word_hit(text@, p, j) {
                        assert(fires(entries, text@, marks, spans@, k, j));
                    }
                }
            }
        }
        result
    }
}

/// What character mode reports for a pattern is determined by the text and
/// the pattern.
pub proof fn lemma_char_report_unique(
    text: Seq<char>,
    p: Seq<char>,
    a: Option<usize>,
    b: Option<usize>,
)
    requires
        char_report(text, p, a),
        char_report(text, p, b),
    ensures
        a == b,
{
    match (a, b) {
        (Some(x), Some(y)) => {
        },
        (Some(x), None) => {
        },
        (None, Some(y)) => {
            if !(p.len() > 0) {
                assert(text.subrange(0, 0) =~= p);
                assert(occurs_at(text, p, 0));
            }
        },
        (None, None) => {},
    }
}

/// What word mode reports for a pattern is determined by the text and the
/// pattern.
pub proof fn lemma_word_report_unique(
    text: Seq<char>,
    p: Seq<char>,
    a: Option<usize>,
    b: Option<usize>,
)
    requires
        word_report(text, p, a),
        word_report(text, p, b),
    ensures
        a == b,
{
    match (a, b) {
        (Some(x), Some(y)) => {
        },
        (Some(x), None) => {
        },
        (None, Some(y)) => {
        },
        (None, None) => {},
    }
}

/// For the empty pattern character mode reports 1 in a text that is not
/// empty, and nothing in the empty text: the pattern is found when the first
/// character has been read.
pub proof fn lemma_empty_pattern_report(text: Seq<char>, found: Option<usize>)
    requires
        char_report(text, Seq::empty(), found),
    ensures
        found == if text.len() > 0 {
            Some(1usize)
        } else {
            None
        },
{
    let p = Seq::<char>::empty();
    if text.len() > 0 && found is None {
        assert(text.subrange(0, 0) =~= p);
        assert(occurs_at(text, p, 0));
    }
}

/// The offset that character mode reports for a pattern that is not empty
/// is the least offset at which the text holds the pattern.
pub proof fn lemma_reported_offset_is_least(text: Seq<char>, p: Seq<char>, o: usize)
    requires
        p.len() > 0,
        char_report(text, p, Some(o)),
    ensures
        o + p.len() <= text.len(),
        text.subrange(o as int, o + p.len()) == p,
        forall|q: int| #[trigger] occurs_at(text, p, q) ==> o <= q,
{
}

/// Two scans of one text in character mode, over one automaton and one
/// list of patterns, report the same.
pub proof fn lemma_char_scan_repeatable(
    ac: ACAutomaton,
    text: Seq<char>,
    patterns: Seq<String>,
    first: Map<usize, usize>,
    second: Map<usize, usize>,
)
    requires
        ac.char_results(text, patterns, first),
        ac.char_results(text, patterns, second),
    ensures
        first == second,
{
    assert forall|k: usize| first.get(k) == second.get(k) by {
        if ac.has_index(k) {
            lemma_char_report_unique(text, patterns[k as int]@, first.get(k), second.get(k));
        }
    }
}

/// Two scans of one text in word mode, over one automaton and one list of
/// patterns, report the same.
pub proof fn lemma_word_scan_repeatable(
    ac: ACAutomaton,
    text: Seq<char>,
    patterns: Seq<String>,
    first: Map<usize, usize>,
    second: Map<usize, usize>,
)
    requires
        ac.word_results(text, patterns, first),
        ac.word_results(text, patterns, second),
    ensures
        first == second,
{
    assert forall|k: usize| first.get(k) == second.get(k) by {
        if ac.has_index(k) {
            lemma_word_report_unique(text, patterns[k as int]@, first.get(k), second.get(k));
        }
    }
}

/// What is reported for a pattern does not depend on its place in the list
/// of patterns, nor on the other patterns: if two automata hold the same
/// pattern, one under the index `j` and the other under the index `k`, then
/// scans of one text report under `j` in the one what they report under `k`
/// in the other. So a permutation of the list of patterns permutes the keys
/// of the result, and nothing else.
pub proof fn lemma_char_scan_order_free(
    one: ACAutomaton,
    other: ACAutomaton,
    text: Seq<char>,
    patterns: Seq<String>,
    permuted: Seq<String>,
    found: Map<usize, usize>,
    found_permuted: Map<usize, usize>,
    j: usize,
    k: usize,
)
    requires
        one.char_results(text, patterns, found),
        other.char_results(text, permuted, found_permuted),
        one.has_index(j),
        other.has_index(k),
        patterns[j as int]@ == permuted[k as int]@,
    ensures
        found.get(j) == found_permuted.get(k),
{
    lemma_char_report_unique(text, patterns[j as int]@, found.get(j), found_permuted.get(k));
}

/// The same for word mode.
pub proof fn lemma_word_scan_order_free(
    one: ACAutomaton,
    other: ACAutomaton,
    text: Seq<char>,
    patterns: Seq<String>,
    permuted: Seq<String>,
    found: Map<usize, usize>,
    found_permuted: Map<usize, usize>,
    j: usize,
    k: usize,
)
    requires
        one.word_results(text, patterns, found),
        other.word_results(text, permuted, found_permuted),
        one.has_index(j),
        other.has_index(k),
        patterns[j as int]@ == permuted[k as int]@,
    ensures
        found.get(j) == found_permuted.get(k),
{
    lemma_word_report_unique(text, patterns[j as int]@, found.get(j), found_permuted.get(k));
}

/// The unit in which a scan counts offsets.
#[derive(Clone, Copy, Debug, PartialEq, Eq)]
pub enum MatchMode {
    /// Offsets are counted in characters.
    Character,
    /// Offsets are counted in words.
    Word,
}

/// The entries of an automaton into which the first `n` of `patterns` have
/// been inserted in order, each under its place in the list.
pub open spec fn listed(patterns: Seq<String>, n: int) -> Seq<Entry> {
    Seq::new(n as nat, |e: int| (patterns[e]@, e as usize))
}

/// Builds the automaton of `patterns`, each under its place in the list.
pub fn compile(patterns: &[String]) -> (ac: ACAutomaton)
    ensures
        ac.wf(),
        ac.built(),
        ac.entries() == listed(patterns@, patterns@.len() as int),
        ac.indexed_by(patterns@),
        forall|k: usize| ac.has_index(k) <==> k < patterns@.len(),
{
    let mut ac = ACAutomaton::new();
    let mut k: usize = 0;
    while k < patterns.len()
        invariant
            k <= patterns@.len(),
            ac.wf(),
            !ac.built(),
            ac.entries() == listed(patterns@, k as int),
        decreases patterns@.len() - k,
    {
        ac.insert(patterns[k].as_str(), k);
        k += 1;
    }
    ac.build_failures();
    proof {
        let entries = ac.entries();
        assert forall|k: usize| ac.has_index(k) <==> k < patterns@.len() by {
            if k < patterns@.len() {
                assert(entries[k as int].1 == k);
            }
        }
    }
    ac
}

/// For each of `patterns`, in order, where it is first found in `corpus`,
/// if it is found: the character offset or the word offset, as `mode` says.
pub fn locate(corpus: &str, patterns: &[String], mode: MatchMode) -> (found: Vec<Option<usize>>)
    ensures
        found@.len() == patterns@.len(),
        forall|k: int|
            0 <= k < patterns@.len() ==> match mode {
                MatchMode::Character => char_report(corpus@, patterns@[k]@, #[trigger] found@[k]),
                MatchMode::Word => word_report(corpus@, patterns@[k]@, #[trigger] found@[k]),
            },
{
    broadcast use vstd::std_specs::hash::group_hash_axioms;

    let ac = compile(patterns);
    let positions = match mode {
        MatchMode::Character => ac.search_char(corpus, patterns),
        MatchMode::Word => ac.search_character(corpus, patterns),
    };
    let mut found: Vec<Option<usize>> = Vec::new();
    let mut k: usize = 0;
    while k < patterns.len()
        invariant
            k <= patterns@.len(),
            found@.len() == k,
            forall|j: int| 0 <= j < k ==> #[trigger] found@[j] == positions@.get(j as usize),
        decreases patterns@.len() - k,
    {
        let entry = match positions.get(&k) {
            Some(position) => Some(*position),
            None => None,
        };
        found.push(entry);
        k += 1;
    }
    proof {
        assert forall|k: int| 0 <= k < patterns@.len() implies match mode {
            MatchMode::Character => char_report(corpus@, patterns@[k]@, #[trigger] found@[k]),
            MatchMode::Word => word_report(corpus@, patterns@[k]@, #[trigger] found@[k]),
        } by {
            assert(ac.has_index(k as usize));
        }
    }
    found
}

} // verus!
