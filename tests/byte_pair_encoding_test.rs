use std::collections::HashMap;
use std::io::ErrorKind;

use tokenizers_rs::byte_pair_encoding::BytePairEncoding;

const TEXT: &str = "a test? yes, a test.";
const CORPUS: &str = "This is not a token.";

fn str_vec_to_string_vec(arr: Vec<&str>) -> Vec<String> {
    arr.into_iter()
        .map(|s| s.to_string())
        .collect::<Vec<String>>()
}

fn as_map(model: Vec<(Vec<String>, usize)>) -> HashMap<Vec<String>, usize> {
    model.into_iter().collect::<HashMap<Vec<String>, usize>>()
}

#[test]
fn build_vocablary_returns_unique_characters() {
    let expected = vec![
        " ",
        ",",
        ".",
        "<|endoftext|>",
        "<|startoftext|>",
        "?",
        "a",
        "e",
        "s",
        "t",
        "y",
    ];
    let mut actual = BytePairEncoding::build_vocablary(&TEXT);
    actual.sort();

    assert_eq!(expected, actual);
}

#[test]
fn pre_tokenize_returns_splitted_string() {
    let expected = vec!["a", " test", "?", " yes", ",", " a", " test", "."];
    let actual = BytePairEncoding::pre_tokenize(&TEXT);

    assert_eq!(expected, actual);
}

#[test]
fn text_to_map_returns_map_of_splitted_words_and_their_frequencies() {
    let expected = vec![
        (vec!["a"], 1),
        (vec![" ", "t", "e", "s", "t"], 2),
        (vec!["?"], 1),
        (vec![" ", "y", "e", "s"], 1),
        (vec![","], 1),
        (vec![" ", "a"], 1),
        (vec!["."], 1),
    ]
    .into_iter()
    .map(|(arr, freq)| (str_vec_to_string_vec(arr), freq))
    .collect::<HashMap<Vec<String>, usize>>();

    let pretokenized_text = BytePairEncoding::pre_tokenize(&TEXT);
    let actual = as_map(BytePairEncoding::text_to_map(&pretokenized_text));

    assert_eq!(expected, actual);
}

#[test]
fn get_most_frequent_pair_returns_the_most_frequent_pair() {
    let expected = (vec!["e".to_string(), "s".to_string()], 3);

    let pretokenized_text = BytePairEncoding::pre_tokenize(&TEXT);
    let mapped_text = BytePairEncoding::text_to_map(&pretokenized_text);
    let actual = BytePairEncoding::get_most_frequent_pair(&mapped_text);

    assert_eq!(expected, actual);
}

#[test]
fn merge_by_pair_returns_a_new_map_with_merged_words() {
    let pair = vec!["e".to_string(), "s".to_string()];

    let expected = vec![
        (vec!["a"], 1),
        (vec![" ", "t", "es", "t"], 2),
        (vec!["?"], 1),
        (vec![" ", "y", "es"], 1),
        (vec![","], 1),
        (vec![" ", "a"], 1),
        (vec!["."], 1),
    ]
    .into_iter()
    .map(|(arr, freq)| (str_vec_to_string_vec(arr), freq))
    .collect::<HashMap<Vec<String>, usize>>();

    let pretokenized_text = BytePairEncoding::pre_tokenize(&TEXT);
    let mapped_text = BytePairEncoding::text_to_map(&pretokenized_text);
    let actual = as_map(BytePairEncoding::merge_by_pair(mapped_text, pair));

    assert_eq!(expected, actual);
}

#[test]
fn bpe_tokenizes_text() {
    let tokenizer = BytePairEncoding::from(CORPUS.to_string(), 18);

    let expected = vec![
        "<|startoftext|>".to_string(),
        "T".to_string(),
        "h".to_string(),
        "is".to_string(),
        " ".to_string(),
        "token".to_string(),
        " ".to_string(),
        "is".to_string(),
        " ".to_string(),
        "n".to_string(),
        "ot".to_string(),
        "<|endoftext|>".to_string(),
    ];
    let actual = tokenizer.tokenize("This token is not".to_string());

    assert!(actual.is_ok());
    assert_eq!(expected, actual.unwrap());
}

#[test]
fn bpe_throws_error_for_unseen_word() {
    let tokenizer = BytePairEncoding::from(CORPUS.to_string(), 18);

    let res = tokenizer.tokenize("This token is not real".to_string());

    assert!(res.is_err());
}

#[test]
fn bpe_throws_io_error() {
    let tokenizer = BytePairEncoding::from(CORPUS.to_string(), 18);

    let expected_err_kind = ErrorKind::InvalidInput;
    let expected_err_msg = "Word not found in vocabulary";
    let actal = tokenizer
        .tokenize("This token is not real".to_string())
        .err()
        .unwrap();

    assert_eq!(expected_err_kind, actal.kind());
    assert_eq!(expected_err_msg, actal.to_string());
}

#[test]
fn pre_tokenize_of_empty_text_is_one_empty_unit() {
    assert_eq!(vec![""], BytePairEncoding::pre_tokenize(""));
}

#[test]
fn pre_tokenize_makes_repeated_punctuation_single_units() {
    assert_eq!(vec!["a", ".", ".b", " ", "!c"], BytePairEncoding::pre_tokenize("a..b !c"));
    assert_eq!(vec!["\nx", "\n"], BytePairEncoding::pre_tokenize("\nx\n"));
}

#[test]
fn pre_tokenize_units_join_back_into_the_text() {
    for text in ["a test? yes, a test.", "", "..", "no punctuation", " lead, trail!\n"] {
        assert_eq!(text, BytePairEncoding::pre_tokenize(text).concat());
    }
}

#[test]
fn text_to_map_counts_sum_to_number_of_units() {
    let units = BytePairEncoding::pre_tokenize(TEXT);
    let model = BytePairEncoding::text_to_map(&units);
    let total: usize = model.iter().map(|(_, c)| *c).sum();
    assert_eq!(units.len(), total);
    assert_eq!(8, total);
}

#[test]
fn merge_by_absent_pair_changes_nothing() {
    let units = BytePairEncoding::pre_tokenize(TEXT);
    let model = BytePairEncoding::text_to_map(&units);
    let before = as_map(model.clone());
    let pair = vec!["x".to_string(), "q".to_string()];
    let after = as_map(BytePairEncoding::merge_by_pair(model, pair));
    assert_eq!(before, after);
}

#[test]
fn merge_by_pair_scans_left_to_right_without_overlap() {
    let model = vec![(str_vec_to_string_vec(vec!["a", "a", "a"]), 2)];
    let pair = vec!["a".to_string(), "a".to_string()];
    let expected = vec![(str_vec_to_string_vec(vec!["aa", "a"]), 2)];
    assert_eq!(expected, BytePairEncoding::merge_by_pair(model, pair));

    let model = vec![(str_vec_to_string_vec(vec!["a", "a", "a", "a"]), 1)];
    let pair = vec!["a".to_string(), "a".to_string()];
    let expected = vec![(str_vec_to_string_vec(vec!["aa", "aa"]), 1)];
    assert_eq!(expected, BytePairEncoding::merge_by_pair(model, pair));
}

#[test]
fn merge_by_pair_joins_words_that_become_equal() {
    let model = vec![
        (str_vec_to_string_vec(vec!["ab", "c"]), 2),
        (str_vec_to_string_vec(vec!["a", "b", "c"]), 3),
    ];
    let pair = vec!["a".to_string(), "b".to_string()];
    let expected = vec![(str_vec_to_string_vec(vec!["ab", "c"]), 5)];
    assert_eq!(expected, BytePairEncoding::merge_by_pair(model, pair));
}

#[test]
fn get_most_frequent_pair_breaks_ties_by_greatest_pair() {
    let model = vec![
        (str_vec_to_string_vec(vec!["a", "b"]), 1),
        (str_vec_to_string_vec(vec!["c", "d"]), 1),
        (str_vec_to_string_vec(vec!["c", "a"]), 1),
    ];
    let expected = (vec!["c".to_string(), "d".to_string()], 1);
    assert_eq!(expected, BytePairEncoding::get_most_frequent_pair(&model));
}

#[test]
fn get_most_frequent_pair_weights_by_word_count() {
    let model = vec![
        (str_vec_to_string_vec(vec!["x", "y", "x", "y"]), 1),
        (str_vec_to_string_vec(vec!["a", "b"]), 3),
    ];
    let expected = (vec!["a".to_string(), "b".to_string()], 3);
    assert_eq!(expected, BytePairEncoding::get_most_frequent_pair(&model));
}

#[test]
fn get_most_frequent_pair_is_zero_without_pairs() {
    let model = vec![
        (str_vec_to_string_vec(vec!["a"]), 4),
        (str_vec_to_string_vec(vec![]), 1),
    ];
    let expected: (Vec<String>, usize) = (vec![], 0);
    assert_eq!(expected, BytePairEncoding::get_most_frequent_pair(&model));
}

#[test]
fn build_vocablary_counts_distinct_characters() {
    let vocabulary = BytePairEncoding::build_vocablary(CORPUS);
    assert_eq!(14, vocabulary.len());
    assert_eq!("<|startoftext|>", vocabulary[12]);
    assert_eq!("<|endoftext|>", vocabulary[13]);
    assert_eq!(2, BytePairEncoding::build_vocablary("").len());
}

#[test]
fn bpe_reaches_requested_vocabulary_size() {
    let tokenizer = BytePairEncoding::from(CORPUS.to_string(), 18);
    assert_eq!(18, tokenizer.vocab_size);
}

#[test]
fn bpe_stops_when_no_pair_is_left() {
    let tokenizer = BytePairEncoding::from("ab".to_string(), 100);
    assert_eq!(3, tokenizer.vocab_size);
    let tokens = tokenizer.tokenize("ab".to_string()).unwrap();
    assert_eq!(vec!["<|startoftext|>", "ab", "<|endoftext|>"], tokens);
}

#[test]
fn bpe_with_target_equal_to_alphabet_tokenizes_nothing() {
    let tokenizer = BytePairEncoding::from(CORPUS.to_string(), 12);
    assert_eq!(12, tokenizer.vocab_size);
    assert!(tokenizer.tokenizer.is_empty());
    assert!(tokenizer.tokenize("This".to_string()).is_err());
    assert!(tokenizer.tokenize("a".to_string()).is_err());
}

#[test]
fn bpe_tokenize_twice_gives_the_same_tokens() {
    let tokenizer = BytePairEncoding::from(TEXT.to_string(), 14);
    let first = tokenizer.tokenize("a test? yes".to_string()).unwrap();
    let second = tokenizer.tokenize("a test? yes".to_string()).unwrap();
    assert_eq!(first, second);
}

#[test]
fn bpe_round_trips_every_training_unit() {
    let tokenizer = BytePairEncoding::from(TEXT.to_string(), 15);
    for unit in BytePairEncoding::pre_tokenize(TEXT) {
        let tokens = tokenizer.tokenize(unit.clone()).unwrap();
        assert_eq!("<|startoftext|>", tokens[0]);
        assert_eq!("<|endoftext|>", tokens[tokens.len() - 1]);
        assert_eq!(unit, tokens[1..tokens.len() - 1].concat());
    }
}
