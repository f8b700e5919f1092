//! Strings as sequences of characters: occurrences of a pattern in a text,
//! and the division of a text into words.

use vstd::prelude::*;

verus! {

/// `p` occurs in `text` starting at offset `o`.
pub open spec fn occurs_at(text: Seq<char>, p: Seq<char>, o: int) -> bool {
    &&& 0 <= o
    &&& o + p.len() <= text.len()
    &&& text.subrange(o, o + p.len()) == p
}

/// An occurrence of `p` in `text` ends with the character at position `i`.
/// For the empty pattern this holds at every position of the text.
pub open spec fn ends_at(text: Seq<char>, p: Seq<char>, i: int) -> bool {
    &&& 0 <= i < text.len()
    &&& occurs_at(text, p, i + 1 - p.len())
}

/// `c` is one of the five ASCII whitespace characters: space, tab, line feed,
/// form feed or carriage return.
pub open spec fn is_space(c: char) -> bool {
    c == ' ' || c == '\t' || c == '\n' || c == '\x0C' || c == '\r'
}

/// Tests whether `c` is ASCII whitespace.
pub fn is_ascii_space(c: char) -> (b: bool)
    ensures
        b == is_space(c),
{
    c == ' ' || c == '\t' || c == '\n' || c == '\x0C' || c == '\r'
}

/// The characters of `s`, in order.
pub fn to_chars(s: &str) -> (chars: Vec<char>)
    ensures
        chars@ == s@,
{
    let mut chars: Vec<char> = Vec::new();
    for c in it: s.chars()
        invariant
            chars@ == it.seq().take(it.index()),
    {
        chars.push(c);
    }
    chars
}

/// An occurrence ends at `i` exactly when the pattern is a suffix of the text
/// read up to and including position `i`.
pub proof fn lemma_ends_at_suffix(text: Seq<char>, p: Seq<char>, i: int)
    requires
        0 <= i < text.len(),
    ensures
        ends_at(text, p, i) <==> p.is_suffix_of(text.take(i + 1)),
{
    let head = text.take(i + 1);
    if p.len() <= i + 1 {
        assert(head.subrange(head.len() - p.len(), head.len() as int) =~= text.subrange(
            i + 1 - p.len(),
            i + 1,
        ));
    }
}

/// Of two suffixes of one string, the shorter is a suffix of the longer.
pub proof fn lemma_suffix_of_suffix(a: Seq<char>, b: Seq<char>, s: Seq<char>)
    requires
        a.is_suffix_of(s),
        b.is_suffix_of(s),
        a.len() <= b.len(),
    ensures
        a.is_suffix_of(b),
{
    assert(b.subrange(b.len() - a.len(), b.len() as int) =~= s.subrange(
        s.len() - a.len(),
        s.len() as int,
    ));
}

/// The suffix relation is transitive.
pub proof fn lemma_suffix_transitive(a: Seq<char>, b: Seq<char>, s: Seq<char>)
    requires
        a.is_suffix_of(b),
        b.is_suffix_of(s),
    ensures
        a.is_suffix_of(s),
{
    assert(s.subrange(s.len() - a.len(), s.len() as int) =~= b.subrange(
        b.len() - a.len(),
        b.len() as int,
    ));
}

/// A string's suffixes, extended by `c`, are suffixes of the string extended
/// by `c`.
pub proof fn lemma_suffix_push(a: Seq<char>, s: Seq<char>, c: char)
    requires
        a.is_suffix_of(s),
    ensures
        a.push(c).is_suffix_of(s.push(c)),
{
    let sc = s.push(c);
    assert(sc.subrange(sc.len() - a.len() - 1, sc.len() as int) =~= s.subrange(
        s.len() - a.len(),
        s.len() as int,
    ).push(c));
}

/// A non-empty suffix of a string extended by `c` ends in `c`, and without
/// that last character it is a suffix of the string.
pub proof fn lemma_suffix_pop(a: Seq<char>, s: Seq<char>, c: char)
    requires
        a.is_suffix_of(s.push(c)),
        a.len() > 0,
    ensures
        a.last() == c,
        a.drop_last().is_suffix_of(s),
{
}

/// The proper suffixes of a non-empty string are the suffixes of the string
/// without its first character.
pub proof fn lemma_proper_suffix(a: Seq<char>, s: Seq<char>)
    requires
        s.len() > 0,
    ensures
        a.is_suffix_of(s.drop_first()) <==> a.is_suffix_of(s) && a.len() < s.len(),
{
    let d = s.drop_first();
    if a.len() < s.len() {
        assert(d.subrange(d.len() - a.len(), d.len() as int) =~= s.subrange(
            s.len() - a.len(),
            s.len() as int,
        ));
    }
}

/// Two suffixes of one string that have the same length are equal.
pub proof fn lemma_suffix_same_len(a: Seq<char>, b: Seq<char>, s: Seq<char>)
    requires
        a.is_suffix_of(s),
        b.is_suffix_of(s),
        a.len() == b.len(),
    ensures
        a == b,
{
}

/// `p` occurs in `text` at the offset `o` and at no smaller offset.
pub open spec fn first_occurrence(text: Seq<char>, p: Seq<char>, o: int) -> bool {
    &&& occurs_at(text, p, o)
    &&& forall|q: int| 0 <= q < o ==> !occurs_at(text, p, q)
}

/// `p` occurs somewhere in `text`.
pub open spec fn occurs_in(text: Seq<char>, p: Seq<char>) -> bool {
    exists|o: int| occurs_at(text, p, o)
}

/// For each character of `text`, whether it is ASCII whitespace.
pub open spec fn space_mask(text: Seq<char>) -> Seq<bool> {
    Seq::new(text.len(), |i: int| is_space(text[i]))
}

/// A word starts at position `j`: the character there is not whitespace,
/// and it is the first character or follows whitespace. `mask` tells for
/// each position whether its character is whitespace.
pub open spec fn starts_word(mask: Seq<bool>, j: int) -> bool {
    &&& 0 <= j < mask.len()
    &&& !mask[j]
    &&& (j == 0 || mask[j - 1])
}

/// The number of words that start before position `n`.
pub open spec fn words_before(mask: Seq<bool>, n: int) -> nat
    decreases n,
{
    if n <= 0 {
        0
    } else {
        words_before(mask, n - 1) + if starts_word(mask, n - 1) {
            1nat
        } else {
            0nat
        }
    }
}

/// The number of words: the maximal runs of characters that are not
/// whitespace.
pub open spec fn word_count(mask: Seq<bool>) -> nat {
    words_before(mask, mask.len() as int)
}

/// The word index of position `i`, counting words from zero: for a
/// character of a word, the index of that word; for whitespace, the index
/// of the word that ended last, or zero before the first word.
pub open spec fn word_index(mask: Seq<bool>, i: int) -> nat {
    let started = words_before(mask, i + 1);
    if started == 0 {
        0
    } else {
        (started - 1) as nat
    }
}

/// Marks the ASCII whitespace of `text`.
pub fn ascii_space_mask(text: &[char]) -> (mask: Vec<bool>)
    ensures
        mask@ == space_mask(text@),
{
    let mut mask: Vec<bool> = Vec::new();
    let mut i: usize = 0;
    while i < text.len()
        invariant
            i <= text@.len(),
            mask@ == space_mask(text@).take(i as int),
        decreases text@.len() - i,
    {
        mask.push(is_ascii_space(text[i]));
        i += 1;
    }
    mask
}

/// The word index of every position of a text, given its whitespace mask.
pub fn word_indices(mask: &[bool]) -> (indices: Vec<usize>)
    ensures
        indices@.len() == mask@.len(),
        forall|i: int| 0 <= i < mask@.len() ==> #[trigger] indices@[i] == word_index(mask@, i),
        forall|i: int| 0 <= i < mask@.len() ==> #[trigger] indices@[i] <= i,
{
    let mut indices: Vec<usize> = Vec::new();
    let mut word_count: usize = 0;
    let mut in_word = false;
    let mut i: usize = 0;
    while i < mask.len()
        invariant
            i <= mask@.len(),
            indices@.len() == i,
            word_count == words_before(mask@, i as int),
            word_count <= i,
            in_word == (i > 0 && !mask@[i - 1]),
            forall|j: int| 0 <= j < i ==> #[trigger] indices@[j] == word_index(mask@, j),
            forall|j: int| 0 <= j < i ==> #[trigger] indices@[j] <= j,
        decreases mask@.len() - i,
    {
        if mask[i] {
            in_word = false;
        } else {
            if !in_word {
                word_count += 1;
                in_word = true;
            }
        }
        indices.push(
            if word_count == 0 {
                0
            } else {
                word_count - 1
            },
        );
        i += 1;
    }
    indices
}

/// The number of words of a text, given its whitespace mask.
pub fn count_words(mask: &[bool]) -> (count: usize)
    ensures
        count == word_count(mask@),
{
    let mut count: usize = 0;
    let mut in_word = false;
    let mut i: usize = 0;
    while i < mask.len()
        invariant
            i <= mask@.len(),
            count == words_before(mask@, i as int),
            count <= i,
            in_word == (i > 0 && !mask@[i - 1]),
        decreases mask@.len() - i,
    {
        if mask[i] {
            in_word = false;
        } else {
            if !in_word {
                count += 1;
                in_word = true;
            }
        }
        i += 1;
    }
    count
}

/// Whether `c` has the Unicode property White_Space.
pub uninterp spec fn white_space(c: char) -> bool;

/// For each character of `text`, whether it is Unicode whitespace.
pub open spec fn white_mask(text: Seq<char>) -> Seq<bool> {
    Seq::new(text.len(), |i: int| white_space(text[i]))
}

/// Calls `char::is_whitespace`, which tells whether a character has the
/// Unicode property White_Space; its result is known here only by the name
/// `white_space`.
#[verifier::external_body]
fn is_white_space(c: char) -> (b: bool)
    ensures
        b == white_space(c),
{
    c.is_whitespace()
}

/// Marks the Unicode whitespace of `text`.
pub fn unicode_space_mask(text: &[char]) -> (mask: Vec<bool>)
    ensures
        mask@ == white_mask(text@),
{
    let mut mask: Vec<bool> = Vec::new();
    let mut i: usize = 0;
    while i < text.len()
        invariant
            i <= text@.len(),
            mask@ == white_mask(text@).take(i as int),
        decreases text@.len() - i,
    {
        mask.push(is_white_space(text[i]));
        i += 1;
    }
    mask
}

/// The number of words of `pattern`, its words being divided by Unicode
/// whitespace.
pub fn word_length(pattern: &str) -> (count: usize)
    ensures
        count == word_count(white_mask(pattern@)),
{
    let chars = to_chars(pattern);
    let mask = unicode_space_mask(chars.as_slice());
    count_words(mask.as_slice())
}

} // verus!
