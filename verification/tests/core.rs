use diceware::assemble::{assemble_table, attach_transliterations, render_entry, render_table};
use diceware::dedup::uniq_words;
use diceware::filter::{filter_lines, filter_source, keep_word, limit_len};
use diceware::index::{checked_index_space, gen_dice_number};
use diceware::sample::{select_words, try_select_words};
use diceware::text::{extract_token_str, make_wordlist, read_string, split_lines};
use diceware::DicewareError;

fn strings(words: &[&str]) -> Vec<String> {
    words.iter().map(|w| w.to_string()).collect()
}

#[test]
fn index_generator_two_by_two() {
    let v = gen_dice_number(2, 2).unwrap();
    assert_eq!(v, vec!["1|1", "1|2", "2|1", "2|2"]);
}

#[test]
fn index_generator_counts_and_distinct() {
    for (dice, number) in [(2u8, 3u8), (3, 2), (6, 2), (20, 2)] {
        let v = gen_dice_number(dice, number).unwrap();
        assert_eq!(v.len(), (dice as usize).pow(number as u32));
        let mut seen = v.clone();
        seen.sort();
        seen.dedup();
        assert_eq!(seen.len(), v.len(), "duplicate index for dice={dice}");
    }
}

#[test]
fn index_generator_single_roll() {
    let v = gen_dice_number(12, 1).unwrap();
    let expected: Vec<String> = (1..=12).map(|d: u32| d.to_string()).collect();
    assert_eq!(v, expected);
}

#[test]
fn index_generator_ascending_digits() {
    // dice > 9: digit-sequence order, not character order, must hold.
    let v = gen_dice_number(10, 2).unwrap();
    assert_eq!(v.len(), 100);
    assert_eq!(v[0], "1|1");
    assert_eq!(v[9], "1|10");
    assert_eq!(v[10], "2|1");
    assert_eq!(v[99], "10|10");
}

#[test]
fn index_space_overflow_is_reported() {
    assert_eq!(
        gen_dice_number(20, 20).unwrap_err(),
        DicewareError::IndexSpaceOverflow
    );
    assert!(checked_index_space(20, 20).is_none());
    assert_eq!(checked_index_space(6, 4), Some(1296));
}

#[test]
fn filter_keeps_only_words_within_bounds() {
    let words = strings(&["ab", "abc", "abcdef"]);
    let kept = filter_source(&words, 3, 5);
    assert_eq!(kept, vec!["abc"]);
}

#[test]
fn filter_measures_characters_not_bytes() {
    let words = strings(&["날씨", "아침노을", "해"]);
    let kept = filter_source(&words, 2, 3);
    assert_eq!(kept, vec!["날씨"]);
}

#[test]
fn limit_len_is_inclusive() {
    assert!(limit_len("abc", 3, 3));
    assert!(!limit_len("ab", 3, 3));
    assert!(!limit_len("abcd", 3, 3));
}

#[test]
fn keep_word_respects_shift_exclusion() {
    assert!(keep_word(4, false, 1, 20, true));
    assert!(!keep_word(4, true, 1, 20, true));
    assert!(keep_word(4, true, 1, 20, false));
    assert!(!keep_word(0, false, 1, 20, true));
    assert!(!keep_word(21, false, 1, 20, false));
}

#[test]
fn filter_lines_takes_whole_lines() {
    let kept = filter_lines("ab\nabc\nabcdef\n", 3, 5);
    assert_eq!(kept, vec!["abc"]);
}

#[test]
fn dedup_removes_repeats_and_keeps_the_set() {
    let out = uniq_words(strings(&["pear", "plum", "pear", "fig", "plum"]));
    assert_eq!(out.len(), 3);
    let mut sorted = out.clone();
    sorted.sort();
    assert_eq!(sorted, vec!["fig", "pear", "plum"]);
}

#[test]
fn dedup_of_empty_list_is_empty() {
    let out = uniq_words(Vec::new());
    assert!(out.is_empty());
}

#[test]
fn extract_prefers_second_token() {
    assert_eq!(extract_token_str("1|1 apple"), "apple");
    assert_eq!(extract_token_str("banana"), "banana");
    assert_eq!(extract_token_str("  spaced   pair   third"), "pair");
    assert_eq!(extract_token_str(""), "");
    assert_eq!(extract_token_str("   "), "");
}

#[test]
fn make_wordlist_maps_each_line() {
    let lines = strings(&["1|1 apple", "banana", ""]);
    let words = make_wordlist(&lines);
    assert_eq!(words, vec!["apple", "banana", ""]);
}

#[test]
fn read_string_splits_lines_and_extracts() {
    let words = read_string("1|1 apple\n1|2 banana\ncherry\n");
    assert_eq!(words, vec!["apple", "banana", "cherry"]);
}

#[test]
fn split_lines_handles_carriage_returns() {
    let lines = split_lines("a\r\nb\nc");
    assert_eq!(lines, vec!["a", "b", "c"]);
    let lines = split_lines("a\nb\n");
    assert_eq!(lines, vec!["a", "b"]);
    assert!(split_lines("").is_empty());
}

#[test]
fn passphrase_of_three_words() {
    let words = strings(&["apple", "banana"]);
    let p = select_words(&words, 3, "-");
    let parts: Vec<&str> = p.split('-').collect();
    assert_eq!(parts.len(), 3);
    for part in parts {
        assert!(part == "apple" || part == "banana");
    }
}

#[test]
fn passphrase_of_zero_words_is_empty() {
    let words = strings(&["apple", "banana"]);
    assert_eq!(select_words(&words, 0, "-"), "");
}

#[test]
fn empty_word_list_is_rejected() {
    let words: Vec<String> = Vec::new();
    assert_eq!(
        try_select_words(&words, 4, "-").unwrap_err(),
        DicewareError::EmptyWordList
    );
    let some = strings(&["apple"]);
    assert!(try_select_words(&some, 4, "-").is_ok());
}

#[test]
fn single_word_list_repeats_that_word() {
    // A draw outside the list would panic or pick another word; the only
    // possible passphrase here repeats the single word.
    let words = strings(&["only"]);
    assert_eq!(select_words(&words, 3, "-"), "only-only-only");
}

#[test]
fn draws_are_roughly_uniform() {
    let words = strings(&["a", "b", "c", "d", "e", "f"]);
    let mut counts = [0usize; 6];
    for _ in 0..10000 {
        let w = select_words(&words, 1, "");
        let i = (w.as_bytes()[0] - b'a') as usize;
        counts[i] += 1;
    }
    for &c in counts.iter() {
        // expectation 1667, standard deviation about 37; this band is over
        // ten standard deviations wide on each side
        assert!((1250..=2100).contains(&c), "skewed draw count {c}");
    }
}

#[test]
fn table_pairs_sorted_words_with_ascending_indices() {
    let words = strings(&["banana", "apple", "cherry"]);
    let table = assemble_table(words, 2, 2).unwrap();
    assert_eq!(table.len(), 3);
    let indices: Vec<&str> = table.iter().map(|e| e.index.as_str()).collect();
    assert_eq!(indices, vec!["1|1", "1|2", "2|1"]);
    let col: Vec<&str> = table.iter().map(|e| e.word.as_str()).collect();
    assert_eq!(col, vec!["apple", "banana", "cherry"]);
    assert!(table.iter().all(|e| e.translit.is_none()));
}

#[test]
fn table_length_is_min_of_words_and_space() {
    let words = strings(&["a", "b", "c", "d", "e"]);
    let table = assemble_table(words.clone(), 2, 1).unwrap();
    assert_eq!(table.len(), 2);
    let idx: Vec<&str> = table.iter().map(|e| e.index.as_str()).collect();
    assert_eq!(idx, vec!["1", "2"]);
    let mut col: Vec<String> = table.iter().map(|e| e.word.clone()).collect();
    assert!(col.windows(2).all(|p| p[0] < p[1]));
    col.dedup();
    assert_eq!(col.len(), 2);
    for w in col {
        assert!(words.contains(&w));
    }
}

#[test]
fn table_deduplicates_before_pairing() {
    let words = strings(&["pear", "pear", "fig", "fig"]);
    let table = assemble_table(words, 6, 2).unwrap();
    assert_eq!(table.len(), 2);
    let col: Vec<&str> = table.iter().map(|e| e.word.as_str()).collect();
    assert_eq!(col, vec!["fig", "pear"]);
}

#[test]
fn table_overflow_is_reported() {
    let words = strings(&["a", "b"]);
    assert_eq!(
        assemble_table(words, 20, 20).unwrap_err(),
        DicewareError::IndexSpaceOverflow
    );
}

#[test]
fn rendered_entry_shows_its_fields() {
    let words = strings(&["apple", "banana"]);
    let table = assemble_table(words, 2, 2).unwrap();
    let line = render_entry(&table[0]);
    assert_eq!(line, "1|1 apple");
}

#[test]
fn rendered_table_reparses_to_its_words() {
    let words = strings(&["banana", "apple", "cherry"]);
    let table = assemble_table(words, 6, 2).unwrap();
    let lines = render_table(&table);
    let reread = make_wordlist(&lines);
    let col: Vec<String> = table.iter().map(|e| e.word.clone()).collect();
    assert_eq!(reread, col);
    assert_eq!(reread, vec!["apple", "banana", "cherry"]);
}

#[test]
fn serialized_table_rereads_through_read_string() {
    let words = strings(&["banana", "apple", "cherry"]);
    let table = assemble_table(words, 6, 2).unwrap();
    let mut text = String::new();
    for line in render_table(&table) {
        text.push_str(&line);
        text.push('\n');
    }
    let reread = read_string(&text);
    let col: Vec<String> = table.iter().map(|e| e.word.clone()).collect();
    assert_eq!(reread, col);
}

#[test]
fn transliterations_attach_in_order() {
    let words = strings(&["banana", "apple"]);
    let mut table = assemble_table(words, 2, 2).unwrap();
    let translits = strings(&["vvm", "dogmf"]);
    attach_transliterations(&mut table, translits);
    assert_eq!(render_entry(&table[0]), "1|1 vvm apple");
    assert_eq!(render_entry(&table[1]), "1|2 dogmf banana");
}
