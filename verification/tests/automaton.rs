use algokit::search::{compile, locate, MatchMode};
use algokit::text::{ascii_space_mask, count_words, to_chars, word_indices};
use algokit::trie::{ACAutomaton, Node};
use std::collections::HashMap;

fn strings(items: &[&str]) -> Vec<String> {
    items.iter().map(|s| s.to_string()).collect()
}

fn build(patterns: &[String]) -> ACAutomaton {
    let mut ac = ACAutomaton::new();
    for (i, p) in patterns.iter().enumerate() {
        ac.insert(p, i);
    }
    ac.build_failures();
    ac
}

fn char_scan(patterns: &[&str], text: &str) -> HashMap<usize, usize> {
    let patterns = strings(patterns);
    build(&patterns).search_char(text, &patterns)
}

fn word_scan(patterns: &[&str], text: &str) -> HashMap<usize, usize> {
    let patterns = strings(patterns);
    build(&patterns).search_character(text, &patterns)
}

/// The least offset at which `text` holds `p`, counted in characters.
fn naive_first(text: &str, p: &str) -> Option<usize> {
    let t: Vec<char> = text.chars().collect();
    let p: Vec<char> = p.chars().collect();
    if p.len() > t.len() {
        return None;
    }
    (0..=t.len() - p.len()).find(|&o| t[o..o + p.len()] == p[..])
}

#[test]
fn node_new_is_blank_and_automaton_starts_unbuilt() {
    let _node = Node::new();
    let ac = ACAutomaton::new();
    assert!(!ac.is_built());
}

#[test]
fn build_sets_the_phase() {
    let mut ac = ACAutomaton::new();
    ac.insert("ab", 0);
    assert!(!ac.is_built());
    ac.build_failures();
    assert!(ac.is_built());
}

#[test]
fn classic_four_patterns() {
    let found = char_scan(&["he", "she", "his", "hers"], "ahishers");
    assert_eq!(found.get(&2), Some(&1));
    assert_eq!(found.get(&0), Some(&4));
    assert_eq!(found.get(&3), Some(&4));
    // "she" does occur: characters 3, 4 and 5.
    assert_eq!(found.get(&1), Some(&3));
    assert_eq!(found.len(), 4);
}

#[test]
fn absent_pattern_has_no_entry() {
    let found = char_scan(&["he", "she", "his", "hers"], "ahis hers");
    assert_eq!(found.get(&1), None);
    assert_eq!(found.get(&0), Some(&5));
    assert_eq!(found.get(&2), Some(&1));
    assert_eq!(found.get(&3), Some(&5));
    assert_eq!(found.len(), 3);
}

#[test]
fn reported_offset_is_the_first_occurrence() {
    let found = char_scan(&["ab", "b", "xab"], "xxabxxab");
    assert_eq!(found.get(&0), Some(&2));
    assert_eq!(found.get(&1), Some(&3));
    assert_eq!(found.get(&2), Some(&1));
}

#[test]
fn offsets_agree_with_a_direct_search() {
    let patterns = ["a", "ab", "bab", "bc", "bca", "c", "caa", "abcabc", "zz"];
    let texts = ["abccab", "bcabcabcaab", "", "c", "aaaaab", "babcbabcabcaabcabcabcacabc"];
    for text in texts {
        let found = char_scan(&patterns, text);
        for (k, p) in patterns.iter().enumerate() {
            assert_eq!(found.get(&k).copied(), naive_first(text, p), "{p:?} in {text:?}");
        }
    }
}

#[test]
fn suffix_of_a_longer_path_is_reported_through_failure_links() {
    // "bcd" is found while the automaton is deep in the path of "abcde".
    let found = char_scan(&["abcde", "bcd", "cd", "d"], "xabcdy");
    assert_eq!(found.get(&0), None);
    assert_eq!(found.get(&1), Some(&2));
    assert_eq!(found.get(&2), Some(&3));
    assert_eq!(found.get(&3), Some(&4));
}

#[test]
fn pattern_of_one_character_next_to_the_root() {
    let found = char_scan(&["ab", "b", "a"], "ab");
    assert_eq!(found.get(&0), Some(&0));
    assert_eq!(found.get(&1), Some(&1));
    assert_eq!(found.get(&2), Some(&0));
}

#[test]
fn identical_patterns_are_both_reported() {
    let found = char_scan(&["na", "na", "ba"], "banana");
    assert_eq!(found.get(&0), Some(&2));
    assert_eq!(found.get(&1), Some(&2));
    assert_eq!(found.get(&2), Some(&0));
}

#[test]
fn prefix_patterns_are_each_reported() {
    let found = char_scan(&["a", "ab", "abc"], "zabc");
    assert_eq!(found.get(&0), Some(&1));
    assert_eq!(found.get(&1), Some(&1));
    assert_eq!(found.get(&2), Some(&1));
}

#[test]
fn empty_corpus_reports_nothing() {
    assert!(char_scan(&["a", ""], "").is_empty());
    assert!(word_scan(&["a", ""], "").is_empty());
}

#[test]
fn no_patterns_reports_nothing() {
    assert!(char_scan(&[], "some text").is_empty());
    assert!(word_scan(&[], "some text").is_empty());
}

#[test]
fn pattern_longer_than_the_corpus_is_absent() {
    assert!(char_scan(&["abcd"], "abc").is_empty());
}

#[test]
fn empty_pattern_fires_at_the_first_character() {
    // The match ends at position 0, so the offset is 0 + 1 - 0.
    for text in ["a", "abc", " x"] {
        let found = char_scan(&[""], text);
        assert_eq!(found.get(&0), Some(&1));
    }
}

#[test]
fn empty_pattern_beside_others() {
    let found = char_scan(&["", "a", "ab"], "ab");
    assert_eq!(found.get(&0), Some(&1));
    assert_eq!(found.get(&1), Some(&0));
    assert_eq!(found.get(&2), Some(&0));
}

#[test]
fn offsets_count_characters_not_bytes() {
    let found = char_scan(&["é", "日本", "b"], "aé日本b");
    assert_eq!(found.get(&0), Some(&1));
    assert_eq!(found.get(&1), Some(&2));
    assert_eq!(found.get(&2), Some(&4));
}

#[test]
fn matching_is_case_sensitive() {
    let found = char_scan(&["He", "he"], "xhe");
    assert_eq!(found.get(&0), None);
    assert_eq!(found.get(&1), Some(&1));
}

#[test]
fn scanning_twice_gives_the_same_result() {
    let patterns = strings(&["he", "she", "his", "hers", "quick fox"]);
    let ac = build(&patterns);
    let text = "she sells his shells; the quick fox hears hers";
    assert_eq!(ac.search_char(text, &patterns), ac.search_char(text, &patterns));
    assert_eq!(ac.search_character(text, &patterns), ac.search_character(text, &patterns));
}

#[test]
fn automaton_serves_several_texts() {
    let patterns = strings(&["ab", "bc"]);
    let ac = build(&patterns);
    let first = ac.search_char("xabc", &patterns);
    let second = ac.search_char("bcab", &patterns);
    assert_eq!(first.get(&0), Some(&1));
    assert_eq!(first.get(&1), Some(&2));
    assert_eq!(second.get(&0), Some(&2));
    assert_eq!(second.get(&1), Some(&0));
}

#[test]
fn permuting_the_patterns_permutes_the_keys() {
    let text = "the quick brown fox jumps over the lazy dog";
    let patterns = ["fox", "the", "dog", "cat", "ump"];
    let order = [3usize, 0, 4, 2, 1];
    let permuted: Vec<&str> = order.iter().map(|&k| patterns[k]).collect();
    let found = char_scan(&patterns, text);
    let found_permuted = char_scan(&permuted, text);
    let words = word_scan(&patterns, text);
    let words_permuted = word_scan(&permuted, text);
    for (place, &k) in order.iter().enumerate() {
        assert_eq!(found_permuted.get(&place), found.get(&k));
        assert_eq!(words_permuted.get(&place), words.get(&k));
    }
    assert_eq!(found.get(&0), Some(&16));
    assert_eq!(found.get(&3), None);
}

#[test]
fn word_mode_reports_word_offsets() {
    let found = word_scan(&["quick fox", "the"], "the quick brown fox");
    assert_eq!(found.get(&1), Some(&0));
    assert_eq!(found.get(&0), None);
    let found = word_scan(&["quick", "fox"], "the quick brown fox");
    assert_eq!(found.get(&0), Some(&1));
    assert_eq!(found.get(&1), Some(&3));
}

#[test]
fn word_mode_phrase_of_several_words() {
    let found = word_scan(&["brown fox", "quick brown fox", "fox"], "the quick brown fox");
    assert_eq!(found.get(&0), Some(&2));
    assert_eq!(found.get(&1), Some(&1));
    assert_eq!(found.get(&2), Some(&3));
}

#[test]
fn word_offset_names_the_words_of_the_pattern() {
    let text = "  one two  three\tfour five";
    let tokens: Vec<&str> = text.split_ascii_whitespace().collect();
    let patterns = ["two  three", "four", "one", "three\tfour five"];
    let found = word_scan(&patterns, text);
    for (k, p) in patterns.iter().enumerate() {
        let start = *found.get(&k).expect("the pattern is in the text");
        let wanted: Vec<&str> = p.split_whitespace().collect();
        assert_eq!(&tokens[start..start + wanted.len()], &wanted[..]);
    }
    assert_eq!(found.get(&0), Some(&1));
    assert_eq!(found.get(&1), Some(&3));
    assert_eq!(found.get(&2), Some(&0));
    assert_eq!(found.get(&3), Some(&2));
}

#[test]
fn word_mode_counts_from_the_first_word_after_leading_whitespace() {
    let found = word_scan(&["the", "fox"], "   the fox");
    assert_eq!(found.get(&0), Some(&0));
    assert_eq!(found.get(&1), Some(&1));
}

#[test]
fn word_mode_match_inside_a_word_takes_the_index_of_that_word() {
    let found = word_scan(&["he", "row"], "the brown");
    assert_eq!(found.get(&0), Some(&0));
    assert_eq!(found.get(&1), Some(&1));
}

#[test]
fn word_mode_reports_the_first_hit_only() {
    let found = word_scan(&["b"], "a b c b");
    assert_eq!(found.get(&0), Some(&1));
}

#[test]
fn word_mode_pattern_without_words() {
    // A pattern of whitespace has no word: the offset is the word index plus one.
    let found = word_scan(&[" ", ""], "ab cd");
    assert_eq!(found.get(&0), Some(&1));
    assert_eq!(found.get(&1), Some(&1));
}

#[test]
fn word_mode_passes_over_a_hit_with_too_few_words_before_it() {
    // The pattern has two words, divided by a no-break space; the text,
    // divided by ASCII whitespace only, has one word where it is found.
    let found = word_scan(&["a\u{a0}b"], "a\u{a0}b");
    assert_eq!(found.get(&0), None);
    let found = char_scan(&["a\u{a0}b"], "a\u{a0}b");
    assert_eq!(found.get(&0), Some(&0));
    // With a word before it, the same hit is taken.
    let found = word_scan(&["a\u{a0}b"], "x a\u{a0}b");
    assert_eq!(found.get(&0), Some(&0));
}

#[test]
fn compile_builds_from_a_list() {
    let patterns = strings(&["he", "she", "his", "hers"]);
    let ac = compile(&patterns);
    assert!(ac.is_built());
    let found = ac.search_char("ushers", &patterns);
    assert_eq!(found.get(&0), Some(&2));
    assert_eq!(found.get(&1), Some(&1));
    assert_eq!(found.get(&2), None);
    assert_eq!(found.get(&3), Some(&2));
}

#[test]
fn locate_lists_results_in_pattern_order() {
    let patterns = strings(&["quick fox", "the", "fox", "cat"]);
    let text = "the quick brown fox";
    assert_eq!(
        locate(text, &patterns, MatchMode::Character),
        vec![None, Some(0), Some(16), None]
    );
    assert_eq!(locate(text, &patterns, MatchMode::Word), vec![None, Some(0), Some(3), None]);
    assert_eq!(locate(text, &[], MatchMode::Word), Vec::<Option<usize>>::new());
}

#[test]
fn insert_with_indices_out_of_order() {
    let patterns = strings(&["x", "needle", "y"]);
    let mut ac = ACAutomaton::new();
    ac.insert("needle", 1);
    ac.build_failures();
    let found = ac.search_char("haystack with a needle", &patterns);
    assert_eq!(found.len(), 1);
    assert_eq!(found.get(&1), Some(&16));
}

#[test]
fn long_repetitive_text() {
    let text = "ab".repeat(2000) + "abc";
    let found = char_scan(&["abc", "bab", "ba", "c", "cc"], &text);
    assert_eq!(found.get(&0), Some(&4000));
    assert_eq!(found.get(&1), Some(&1));
    assert_eq!(found.get(&2), Some(&1));
    assert_eq!(found.get(&3), Some(&4002));
    assert_eq!(found.get(&4), None);
}

#[test]
fn corpus_of_whitespace_only() {
    let found = char_scan(&[" ", "  ", "a"], "   ");
    assert_eq!(found.get(&0), Some(&0));
    assert_eq!(found.get(&1), Some(&0));
    assert_eq!(found.get(&2), None);
    let found = word_scan(&[" ", "a"], "   ");
    // No word has started: the word index is 0, and the pattern has no word.
    assert_eq!(found.get(&0), Some(&1));
    assert_eq!(found.get(&1), None);
}

#[test]
fn word_mode_divides_the_corpus_at_tabs_and_line_ends() {
    let found = word_scan(&["alpha", "beta", "gamma", "delta"], "alpha\nbeta\tgamma\r\ndelta");
    assert_eq!(found.get(&0), Some(&0));
    assert_eq!(found.get(&1), Some(&1));
    assert_eq!(found.get(&2), Some(&2));
    assert_eq!(found.get(&3), Some(&3));
}

#[test]
fn word_mode_phrase_across_a_line_end_is_a_different_string() {
    // The pattern holds a space where the corpus holds a line end.
    let found = word_scan(&["quick brown", "quick\nbrown"], "the quick\nbrown fox");
    assert_eq!(found.get(&0), None);
    assert_eq!(found.get(&1), Some(&1));
}

#[test]
fn overlapping_occurrences_report_the_first() {
    let found = char_scan(&["aa", "aaa", "aaaa"], "baaaaa");
    assert_eq!(found.get(&0), Some(&1));
    assert_eq!(found.get(&1), Some(&1));
    assert_eq!(found.get(&2), Some(&1));
}

#[test]
fn empty_pattern_sits_on_the_root() {
    let mut ac = ACAutomaton::new();
    assert_eq!(ac.node_count(), 1);
    assert_eq!(ac.outputs_of(0), Vec::<usize>::new());
    ac.insert("", 0);
    assert_eq!(ac.node_count(), 1);
    assert_eq!(ac.outputs_of(0), vec![0]);
    assert_eq!(ac.state_of(""), Some(0));
}

#[test]
fn insert_appends_the_index_at_the_node_reached() {
    let mut ac = ACAutomaton::new();
    ac.insert("ab", 0);
    ac.insert("a", 1);
    assert_eq!(ac.node_count(), 3);
    ac.insert("ab", 2);
    assert_eq!(ac.node_count(), 3);
    let a = ac.state_of("a").unwrap();
    let ab = ac.state_of("ab").unwrap();
    assert_eq!(ac.outputs_of(ab), vec![0, 2]);
    assert_eq!(ac.outputs_of(a), vec![1]);
    assert_eq!(ac.outputs_of(0), Vec::<usize>::new());
    assert_eq!(ac.state_of("b"), None);
    assert_eq!(ac.state_of("abc"), None);
}

#[test]
fn insert_adds_a_node_for_each_character_beyond_the_known_prefix() {
    let mut ac = ACAutomaton::new();
    ac.insert("abc", 0);
    assert_eq!(ac.node_count(), 4);
    ac.insert("abd", 1);
    assert_eq!(ac.node_count(), 5);
    ac.insert("ab", 2);
    assert_eq!(ac.node_count(), 5);
    ac.insert("xyz", 3);
    assert_eq!(ac.node_count(), 8);
    // States are numbered in the order of their making.
    assert_eq!(ac.state_of("a"), Some(1));
    assert_eq!(ac.state_of("abc"), Some(3));
    assert_eq!(ac.state_of("abd"), Some(4));
    assert_eq!(ac.state_of("x"), Some(5));
    for state in 0..ac.node_count() {
        assert_eq!(ac.fail_of(state), 0);
    }
}

#[test]
fn build_links_each_node_to_its_longest_suffix() {
    let patterns = strings(&["he", "she", "his", "hers"]);
    let mut ac = ACAutomaton::new();
    for (k, p) in patterns.iter().enumerate() {
        ac.insert(p, k);
    }
    let count = ac.node_count();
    let before: Vec<Vec<usize>> = (0..count).map(|t| ac.outputs_of(t)).collect();
    ac.build_failures();
    assert_eq!(ac.node_count(), count);
    let state = |p: &str| ac.state_of(p).unwrap();
    assert_eq!(ac.fail_of(0), 0);
    assert_eq!(ac.fail_of(state("she")), state("he"));
    assert_eq!(ac.fail_of(state("sh")), state("h"));
    assert_eq!(ac.fail_of(state("his")), state("s"));
    assert_eq!(ac.fail_of(state("hers")), state("s"));
    assert_eq!(ac.fail_of(state("her")), 0);
    assert_eq!(ac.outputs_of(state("she")), vec![1, 0]);
    assert_eq!(ac.outputs_of(state("he")), vec![0]);
    assert_eq!(ac.outputs_of(state("his")), vec![2]);
    assert_eq!(ac.outputs_of(state("hers")), vec![3]);
    assert_eq!(ac.outputs_of(0), before[0]);
    for t in 1..count {
        let mut expected = before[t].clone();
        expected.extend(ac.outputs_of(ac.fail_of(t)));
        assert_eq!(ac.outputs_of(t), expected);
    }
}

#[test]
fn no_state_holds_an_index_twice() {
    let patterns = strings(&["a", "aa", "aaa", "ba", "", "a", "b"]);
    let ac = build(&patterns);
    for t in 0..ac.node_count() {
        let mut outputs = ac.outputs_of(t);
        let held = outputs.len();
        outputs.sort();
        outputs.dedup();
        assert_eq!(outputs.len(), held);
    }
    let aaa = ac.state_of("aaa").unwrap();
    assert_eq!(ac.outputs_of(aaa), vec![2, 1, 0, 5, 4]);
}

#[test]
fn scan_takes_the_units_of_positions_and_patterns() {
    let patterns = strings(&["quick fox", "the", "fox", "brown fox"]);
    let ac = build(&patterns);
    let text = to_chars("the quick brown fox");
    let marks = word_indices(&ascii_space_mask(&text));
    let spans: Vec<usize> =
        patterns.iter().map(|p| count_words(&ascii_space_mask(&to_chars(p)))).collect();
    assert_eq!(spans, vec![2, 1, 1, 2]);
    let found = ac.scan(&text, &marks, &spans);
    assert_eq!(found.get(&0), None);
    assert_eq!(found.get(&1), Some(&0));
    assert_eq!(found.get(&2), Some(&3));
    assert_eq!(found.get(&3), Some(&2));
    // With every position its own unit, and every pattern its length.
    let marks: Vec<usize> = (0..text.len()).collect();
    let spans: Vec<usize> = patterns.iter().map(|p| p.chars().count()).collect();
    let found = ac.scan(&text, &marks, &spans);
    assert_eq!(found.get(&1), Some(&0));
    assert_eq!(found.get(&2), Some(&16));
    assert_eq!(found.get(&3), Some(&10));
}
