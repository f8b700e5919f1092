use algokit::text::{
    ascii_space_mask, count_words, is_ascii_space, to_chars, unicode_space_mask, word_indices,
    word_length,
};

#[test]
fn ascii_whitespace_is_five_characters() {
    for c in [' ', '\t', '\n', '\x0C', '\r'] {
        assert!(is_ascii_space(c));
    }
    for c in ['a', '\x0B', '\u{a0}', '\u{2003}', '0', '_'] {
        assert!(!is_ascii_space(c));
    }
    for code in 0u32..0x3000 {
        if let Some(c) = char::from_u32(code) {
            assert_eq!(is_ascii_space(c), c.is_ascii_whitespace());
        }
    }
}

#[test]
fn to_chars_keeps_every_character() {
    assert_eq!(to_chars("aé日"), vec!['a', 'é', '日']);
    assert_eq!(to_chars(""), Vec::<char>::new());
}

#[test]
fn masks_mark_whitespace() {
    let text = to_chars("a b\u{a0}c\t");
    assert_eq!(ascii_space_mask(&text), vec![false, true, false, false, false, true]);
    assert_eq!(unicode_space_mask(&text), vec![false, true, false, true, false, true]);
}

#[test]
fn word_indices_of_a_sentence() {
    let mask = ascii_space_mask(&to_chars("the quick  fox"));
    assert_eq!(word_indices(&mask), vec![0, 0, 0, 0, 1, 1, 1, 1, 1, 1, 1, 2, 2, 2]);
}

#[test]
fn word_indices_with_leading_whitespace() {
    let mask = ascii_space_mask(&to_chars("  ab c "));
    assert_eq!(word_indices(&mask), vec![0, 0, 0, 0, 0, 1, 1]);
    assert_eq!(word_indices(&[]), Vec::<usize>::new());
}

#[test]
fn count_words_counts_runs() {
    assert_eq!(count_words(&[false, false, true, true, false, true, false]), 3);
    assert_eq!(count_words(&[true, true]), 0);
    assert_eq!(count_words(&[]), 0);
    assert_eq!(count_words(&[false]), 1);
}

#[test]
fn word_length_is_the_number_of_tokens() {
    assert_eq!(word_length("quick fox"), 2);
    assert_eq!(word_length("  quick   brown\tfox\n"), 3);
    assert_eq!(word_length(""), 0);
    assert_eq!(word_length("   "), 0);
    assert_eq!(word_length("one"), 1);
}

#[test]
fn word_length_divides_at_unicode_whitespace() {
    assert_eq!(word_length("a\u{a0}b"), 2);
    assert_eq!(word_length("a\u{2003}b\u{3000}c"), 3);
    assert_eq!(word_length("a\x0Bb"), 2);
    for p in ["x y", "a\u{a0}b  c", "\u{1680}", "tab\tseparated words", "é è"] {
        assert_eq!(word_length(p), p.split_whitespace().count());
    }
}
