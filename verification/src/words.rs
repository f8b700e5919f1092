//! The words of a text, and what a word offset says about them.

use crate::text::{
    ends_at, is_space, occurs_at, space_mask, starts_word, white_mask, word_count, word_index,
    words_before,
};
use vstd::prelude::*;

verus! {

/// The words of the first `n` characters of `text`, in order: the maximal
/// runs of characters that `mask` does not mark as whitespace. A word that
/// goes on beyond `n` appears as far as it has come.
pub open spec fn words_upto(text: Seq<char>, mask: Seq<bool>, n: int) -> Seq<Seq<char>>
    decreases n,
{
    if n <= 0 {
        Seq::empty()
    } else {
        let prev = words_upto(text, mask, n - 1);
        if mask[n - 1] {
            prev
        } else if starts_word(mask, n - 1) || prev.len() == 0 {
            prev.push(Seq::empty().push(text[n - 1]))
        } else {
            prev.update(prev.len() - 1, prev.last().push(text[n - 1]))
        }
    }
}

/// The words of `text`.
pub open spec fn words(text: Seq<char>, mask: Seq<bool>) -> Seq<Seq<char>> {
    words_upto(text, mask, text.len() as int)
}

/// Position `m` is not inside a word: it is an end of the text, or the
/// character at `m` or the one before it is whitespace.
pub open spec fn between_words(mask: Seq<bool>, m: int) -> bool {
    m <= 0 || m >= mask.len() || mask[m] || mask[m - 1]
}

/// The number of words that start before a position does not go down as the
/// position goes up.
pub proof fn lemma_words_before_monotone(mask: Seq<bool>, m: int, n: int)
    requires
        m <= n,
    ensures
        words_before(mask, m) <= words_before(mask, n),
    decreases n - m,
{
    if m < n {
        lemma_words_before_monotone(mask, m, n - 1);
    }
}

/// A word has started by the position after a character that is not
/// whitespace, and it started no earlier than any place between words
/// before that character.
pub proof fn lemma_word_in_progress(mask: Seq<bool>, m: int, k: int)
    requires
        0 <= m <= k < mask.len(),
        !mask[k],
        between_words(mask, m),
    ensures
        words_before(mask, k + 1) > words_before(mask, m),
    decreases k - m,
{
    if starts_word(mask, k) {
        lemma_words_before_monotone(mask, m, k);
    } else {
        lemma_word_in_progress(mask, m, k - 1);
    }
}

/// There are as many words as word starts.
pub proof fn lemma_words_len(text: Seq<char>, mask: Seq<bool>, n: int)
    requires
        0 <= n <= mask.len(),
    ensures
        words_upto(text, mask, n).len() == words_before(mask, n),
    decreases n,
{
    if n > 0 {
        lemma_words_len(text, mask, n - 1);
        if !mask[n - 1] && !starts_word(mask, n - 1) {
            lemma_word_in_progress(mask, 0, n - 2);
        }
    }
}

/// The words that end at or before a place between words stay as they are
/// when more of the text is read.
pub proof fn lemma_words_stable(text: Seq<char>, mask: Seq<bool>, m: int, n: int)
    requires
        0 <= m <= n <= mask.len(),
        between_words(mask, m),
    ensures
        words_upto(text, mask, m).is_prefix_of(words_upto(text, mask, n)),
    decreases n - m,
{
    if m < n {
        lemma_words_stable(text, mask, m, n - 1);
        let prev = words_upto(text, mask, n - 1);
        lemma_words_len(text, mask, m);
        lemma_words_len(text, mask, n - 1);
        if !mask[n - 1] && !starts_word(mask, n - 1) && prev.len() > 0 {
            lemma_word_in_progress(mask, m, n - 2);
        }
    }
}

/// Where `p` occurs in `text` at the offset `o`, with the same whitespace,
/// and does not begin inside a word of the text, the words of the text up to
/// any place in the occurrence are those before the occurrence, followed by
/// the words of `p` up to that place.
pub proof fn lemma_words_of_occurrence(
    text: Seq<char>,
    mask: Seq<bool>,
    p: Seq<char>,
    p_mask: Seq<bool>,
    o: int,
    j: int,
)
    requires
        occurs_at(text, p, o),
        mask.len() == text.len(),
        p_mask.len() == p.len(),
        forall|h: int| 0 <= h < p.len() ==> #[trigger] p_mask[h] == mask[o + h],
        p.len() > 0 ==> o == 0 || mask[o - 1] || p_mask[0],
        0 <= j <= p.len(),
    ensures
        words_upto(text, mask, o + j) == words_upto(text, mask, o) + words_upto(p, p_mask, j),
    decreases j,
{
    let before = words_upto(text, mask, o);
    if !(j == 0) {
        lemma_words_of_occurrence(text, mask, p, p_mask, o, j - 1);
        let own = words_upto(p, p_mask, j - 1);
        let prev = words_upto(text, mask, o + j - 1);
        let c = p[j - 1];
        lemma_words_len(p, p_mask, j - 1);
        if !p_mask[j - 1] {
            if starts_word(p_mask, j - 1) {
                assert(prev.push(Seq::empty().push(c)) =~= before + own.push(
                    Seq::empty().push(c),
                ));
            } else {
                lemma_word_in_progress(p_mask, 0, j - 2);
                assert(prev.update(prev.len() - 1, prev.last().push(c)) =~= before + own.update(
                    own.len() - 1,
                    own.last().push(c),
                ));
            }
        }
    }
}

/// What a word offset means. Let an occurrence of `p` end at position `i`
/// of `text`, and let `start` be the word offset that this position gives
/// when the words of `p` are counted by `p_mask`. If `p_mask` marks the
/// ASCII whitespace of `p`, `p` has a word, and the occurrence neither
/// begins nor ends inside a word of the text, then the words of the text
/// from the word `start` on are the words of `p`.
pub proof fn lemma_word_offset_names_given_words(
    text: Seq<char>,
    p: Seq<char>,
    p_mask: Seq<bool>,
    i: int,
    start: int,
)
    requires
        ends_at(text, p, i),
        p_mask == space_mask(p),
        start == word_index(space_mask(text), i) + 1 - word_count(p_mask),
        word_count(p_mask) >= 1,
        i + 1 == p.len() || is_space(text[i - p.len()]) || is_space(p[0]),
        i + 1 == text.len() || is_space(text[i + 1]) || is_space(p.last()),
    ensures
        0 <= start,
        start + words(p, p_mask).len() <= words(text, space_mask(text)).len(),
        words(text, space_mask(text)).subrange(start, start + words(p, p_mask).len()) == words(
            p,
            p_mask,
        ),
{
    let mask = space_mask(text);
    let o = i + 1 - p.len();
    let end = i + 1;
    let own = words(p, p_mask);
    let all = words(text, mask);
    lemma_words_of_occurrence(text, mask, p, p_mask, o, p.len() as int);
    lemma_words_len(text, mask, o);
    lemma_words_len(text, mask, end);
    lemma_words_len(p, p_mask, p.len() as int);
    lemma_words_stable(text, mask, end, text.len() as int);
    let read = words_upto(text, mask, end);
    let part = all.subrange(start, start + own.len());
    assert forall|w: int| 0 <= w < own.len() implies own[w] == part[w] by {
        assert(all.subrange(0, read.len() as int)[start + w] == all[start + w]);
    }
}

/// The same for the word offset of a scan in word mode, which counts the
/// words of a pattern by its Unicode whitespace: it holds where the Unicode
/// whitespace of `p` is its ASCII whitespace.
pub proof fn lemma_word_offset_names_words(text: Seq<char>, p: Seq<char>, i: int, start: int)
    requires
        ends_at(text, p, i),
        start == word_index(space_mask(text), i) + 1 - word_count(white_mask(p)),
        word_count(white_mask(p)) >= 1,
        white_mask(p) == space_mask(p),
        i + 1 == p.len() || is_space(text[i - p.len()]) || is_space(p[0]),
        i + 1 == text.len() || is_space(text[i + 1]) || is_space(p.last()),
    ensures
        0 <= start,
        start + words(p, white_mask(p)).len() <= words(text, space_mask(text)).len(),
        words(text, space_mask(text)).subrange(start, start + words(p, white_mask(p)).len())
            == words(p, white_mask(p)),
{
    lemma_word_offset_names_given_words(text, p, white_mask(p), i, start);
}

} // verus!
