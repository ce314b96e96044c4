use word_count::cli::parse_path_arg;
use word_count::counter::count_range;
use word_count::counter::count_words_chunked;
use word_count::counter::count_words_sync;
use word_count::counts::WordCounts;
use word_count::tokens::tokenize;

fn lines_of(ls: &[&str]) -> Vec<Vec<u8>> {
    let mut v: Vec<Vec<u8>> = Vec::new();
    for l in ls {
        v.push(l.as_bytes().to_vec());
    }
    v
}

fn word(s: &str) -> Vec<u8> {
    s.as_bytes().to_vec()
}

fn reference_token_count(ls: &[&str]) -> u64 {
    let mut n: u64 = 0;
    for l in ls {
        n += l.split_ascii_whitespace().count() as u64;
    }
    n
}

const SAMPLE: [&str; 5] = [
    "  the quick   brown fox ",
    "jumps\tover the lazy dog",
    "",
    "the the the",
    "   \t  ",
];

#[test]
fn tokenize_splits_on_whitespace_runs() {
    let toks = tokenize(&word(" the\tquick  fox "));
    assert_eq!(toks, vec![word("the"), word("quick"), word("fox")]);
}

#[test]
fn tokenize_empty_and_blank_lines() {
    assert_eq!(tokenize(&word("")), Vec::<Vec<u8>>::new());
    assert_eq!(tokenize(&word(" \t \r ")), Vec::<Vec<u8>>::new());
}

#[test]
fn sequential_and_chunked_agree() {
    let lines = lines_of(&SAMPLE);
    let sequential = count_words_sync(&lines);
    let chunked = count_words_chunked(&lines, 5);
    assert!(sequential.counts_eq(&chunked));
    assert!(chunked.counts_eq(&sequential));
}

#[test]
fn total_matches_reference_tokenizer() {
    let lines = lines_of(&SAMPLE);
    let expected = reference_token_count(&SAMPLE);
    assert_eq!(count_words_sync(&lines).total_count(), expected);
    assert_eq!(count_words_chunked(&lines, 4).total_count(), expected);
}

#[test]
fn repeated_runs_yield_identical_mappings() {
    let lines = lines_of(&SAMPLE);
    let first = count_words_sync(&lines);
    let second = count_words_sync(&lines);
    assert!(first.counts_eq(&second));
    let third = count_words_chunked(&lines, 5);
    let fourth = count_words_chunked(&lines, 5);
    assert!(third.counts_eq(&fourth));
}

#[test]
fn empty_file_gives_empty_mapping() {
    let lines = lines_of(&[]);
    assert!(count_words_sync(&lines).is_empty());
    assert!(count_words_chunked(&lines, 5).is_empty());
    let blank = lines_of(&[""]);
    assert!(count_words_sync(&blank).is_empty());
    assert!(count_words_chunked(&blank, 5).is_empty());
}

#[test]
fn single_word_file_gives_one_entry_of_one() {
    let lines = lines_of(&["hello"]);
    let counts = count_words_sync(&lines);
    assert_eq!(counts.get(&word("hello")), 1);
    assert_eq!(counts.total_count(), 1);
    let chunked = count_words_chunked(&lines, 5);
    assert_eq!(chunked.get(&word("hello")), 1);
    assert_eq!(chunked.total_count(), 1);
}

#[test]
fn three_line_scenario() {
    let lines = lines_of(&["the quick fox", "the lazy fox", "the fox runs"]);
    for counts in [count_words_sync(&lines), count_words_chunked(&lines, 5)] {
        assert_eq!(counts.get(&word("the")), 3);
        assert_eq!(counts.get(&word("quick")), 1);
        assert_eq!(counts.get(&word("fox")), 3);
        assert_eq!(counts.get(&word("lazy")), 1);
        assert_eq!(counts.get(&word("runs")), 1);
        assert_eq!(counts.total_count(), 9);
    }
}

#[test]
fn pool_of_five_matches_pool_of_one() {
    let mut many: Vec<&str> = Vec::new();
    let rows = [
        "alpha beta", "gamma", "beta beta", "", "delta alpha",
        "epsilon", "alpha", "zeta eta", "theta", "iota kappa",
        "lambda", "mu nu xi",
    ];
    for r in &rows {
        many.push(r);
    }
    let lines = lines_of(&many);
    let wide = count_words_chunked(&lines, 5);
    let narrow = count_words_chunked(&lines, 1);
    assert!(wide.counts_eq(&narrow));
    assert!(wide.counts_eq(&count_words_sync(&lines)));
}

#[test]
fn missing_path_argument_is_usage_error() {
    assert_eq!(parse_path_arg(vec!["word_count".to_string()]), None);
    assert_eq!(parse_path_arg(Vec::new()), None);
}

#[test]
fn present_path_argument_is_returned() {
    let args = vec!["word_count".to_string(), "input.txt".to_string()];
    assert_eq!(parse_path_arg(args), Some("input.txt".to_string()));
}

#[test]
fn absent_word_counts_zero() {
    let lines = lines_of(&["one two"]);
    let counts = count_words_sync(&lines);
    assert_eq!(counts.get(&word("three")), 0);
    assert!(!counts.is_empty());
}

#[test]
fn merge_adds_partial_counts() {
    let first_half = lines_of(&["ant bee", "ant"]);
    let second_half = lines_of(&["bee cat", "ant"]);
    let whole = lines_of(&["ant bee", "ant", "bee cat", "ant"]);
    let mut merged = count_words_sync(&first_half);
    merged.merge(&count_words_sync(&second_half));
    assert!(merged.counts_eq(&count_words_sync(&whole)));
    assert_eq!(merged.get(&word("ant")), 3);
    assert_eq!(merged.get(&word("bee")), 2);
    assert_eq!(merged.get(&word("cat")), 1);
}

#[test]
fn counts_eq_detects_differences() {
    let one = count_words_sync(&lines_of(&["a b"]));
    let other = count_words_sync(&lines_of(&["a b b"]));
    assert!(!one.counts_eq(&other));
    assert!(!other.counts_eq(&one));
}

#[test]
fn count_range_covers_only_its_lines() {
    let lines = lines_of(&["a b", "c", "a"]);
    let middle = count_range(&lines, 1, 2);
    assert_eq!(middle.get(&word("c")), 1);
    assert_eq!(middle.get(&word("a")), 0);
    assert_eq!(middle.total_count(), 1);
}

#[test]
fn fresh_mapping_counts_added_words() {
    let mut counts = WordCounts::new();
    assert!(counts.is_empty());
    counts.add_count(&word("ant"), 1);
    counts.add_count(&word("ant"), 2);
    counts.add_count(&word("bee"), 1);
    assert_eq!(counts.get(&word("ant")), 3);
    assert_eq!(counts.get(&word("bee")), 1);
    assert_eq!(counts.total_count(), 4);
}
