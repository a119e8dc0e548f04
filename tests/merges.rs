use fast_bpe::merge::{merge_budget, rewrite_word, run_bpe_merge, total_weight, MergeState};
use fast_bpe::order::{bytes_less, pair_less};

fn tok(s: &str) -> Vec<u8> {
    s.as_bytes().to_vec()
}

fn word(tokens: &[&str]) -> Vec<Vec<u8>> {
    tokens.iter().map(|t| tok(t)).collect()
}

fn pair(a: &str, b: &str) -> (Vec<u8>, Vec<u8>) {
    (tok(a), tok(b))
}

#[test]
fn tie_between_two_pairs_of_one_word_picks_smaller() {
    let words = vec![(word(&["l", "o", "w"]), 5)];
    let r = run_bpe_merge(words, 257, 0);
    assert_eq!(r, vec![pair("l", "o")]);
}

#[test]
fn tie_between_two_words_then_remaining_pair() {
    let words = vec![(word(&["a", "b"]), 3), (word(&["b", "a"]), 3)];
    let r = run_bpe_merge(words.clone(), 258, 0);
    assert_eq!(r, vec![pair("a", "b"), pair("b", "a")]);

    let mut state = MergeState::new(words);
    let first = state.step();
    assert_eq!(first, Some(pair("a", "b")));
    assert_eq!(state.keys, vec![pair("b", "a")]);
    assert_eq!(state.freqs, vec![3]);
    // ["ab"] is down to one token and can hold no pair any more.
    assert_eq!(state.words, vec![(word(&["b", "a"]), 3)]);
}

#[test]
fn rewritten_word_meeting_another_sums_counts() {
    let words = vec![(word(&["a", "b", "c"]), 3), (word(&["ab", "c"]), 1)];
    let mut state = MergeState::new(words);
    assert_eq!(state.step(), Some(pair("a", "b")));
    assert_eq!(state.words, vec![(word(&["ab", "c"]), 4)]);
    assert_eq!(state.keys, vec![pair("ab", "c")]);
    assert_eq!(state.freqs, vec![4]);
}

#[test]
fn input_aggregation_sums_equal_words() {
    let words = vec![
        (word(&["x", "y"]), 2),
        (word(&["q"]), 8),
        (word(&["x", "y"]), 3),
        (word(&["z", "w"]), 0),
    ];
    let state = MergeState::new(words);
    assert_eq!(state.words, vec![(word(&["x", "y"]), 5)]);
    assert_eq!(state.keys, vec![pair("x", "y")]);
    assert_eq!(state.freqs, vec![5]);
}

#[test]
fn zero_budget_gives_no_merges() {
    let words = vec![(word(&["a", "b"]), 7), (word(&["c", "d", "e"]), 2)];
    assert_eq!(run_bpe_merge(words.clone(), 256, 0), Vec::<(Vec<u8>, Vec<u8>)>::new());
    assert_eq!(run_bpe_merge(words.clone(), 260, 4), Vec::<(Vec<u8>, Vec<u8>)>::new());
    assert_eq!(run_bpe_merge(words, 100, 0), Vec::<(Vec<u8>, Vec<u8>)>::new());
}

#[test]
fn budget_values() {
    assert_eq!(merge_budget(300, 10), 34);
    assert_eq!(merge_budget(256, 0), 0);
    assert_eq!(merge_budget(257, 0), 1);
    assert_eq!(merge_budget(200, 0), 0);
    assert_eq!(merge_budget(270, 20), 0);
    assert_eq!(merge_budget(usize::MAX, usize::MAX), 0);
    assert_eq!(merge_budget(usize::MAX, 0), usize::MAX - 256);
}

#[test]
fn budget_caps_the_record() {
    let words = vec![(word(&["a", "b", "c", "d", "e", "f"]), 1)];
    let r = run_bpe_merge(words.clone(), 258, 0);
    assert_eq!(r.len(), 2);
    let all = run_bpe_merge(words, 1000, 0);
    assert_eq!(all.len(), 5);
}

#[test]
fn short_words_give_no_merges() {
    let words = vec![(word(&["a"]), 9), (word(&[]), 4), (word(&["xyz"]), 1)];
    assert_eq!(run_bpe_merge(words, 10_000, 0), Vec::<(Vec<u8>, Vec<u8>)>::new());
}

#[test]
fn empty_input_gives_no_merges() {
    assert_eq!(run_bpe_merge(Vec::new(), 10_000, 3), Vec::<(Vec<u8>, Vec<u8>)>::new());
}

#[test]
fn zero_count_words_are_inert() {
    let words = vec![(word(&["a", "b"]), 0)];
    assert_eq!(run_bpe_merge(words, 300, 0), Vec::<(Vec<u8>, Vec<u8>)>::new());
    let words = vec![(word(&["a", "b"]), 0), (word(&["c", "d"]), 1)];
    assert_eq!(run_bpe_merge(words, 300, 0), vec![pair("c", "d")]);
}

#[test]
fn same_word_twice_equals_summed_count() {
    let split = vec![
        (word(&["x", "y", "z"]), 2),
        (word(&["y", "z", "x"]), 4),
        (word(&["x", "y", "z"]), 3),
    ];
    let joined = vec![(word(&["x", "y", "z"]), 5), (word(&["y", "z", "x"]), 4)];
    assert_eq!(run_bpe_merge(split, 300, 0), run_bpe_merge(joined, 300, 0));
}

#[test]
fn input_order_does_not_matter() {
    let a = vec![
        (word(&["t", "h", "e"]), 4),
        (word(&["t", "o"]), 3),
        (word(&["h", "e", "r"]), 2),
        (word(&["e", "r"]), 6),
    ];
    let mut b = a.clone();
    b.reverse();
    let ra = run_bpe_merge(a.clone(), 300, 0);
    assert_eq!(ra, run_bpe_merge(b, 300, 0));
    assert_eq!(ra, run_bpe_merge(a, 300, 0));
    assert_eq!(ra[0], pair("e", "r"));
}

#[test]
fn frequency_then_tie_break_order() {
    // ("e","r") leads with 6 + 2 = 8; afterwards ("t","h") and ("h","e") tie
    // at 4 and the smaller pair ("h","e") wins.
    let words = vec![
        (word(&["t", "h", "e"]), 4),
        (word(&["h", "e", "r"]), 2),
        (word(&["e", "r"]), 6),
    ];
    let r = run_bpe_merge(words, 258, 0);
    assert_eq!(r, vec![pair("e", "r"), pair("h", "e")]);
}

#[test]
fn overlapping_run_merges_left_to_right() {
    let words = vec![(word(&["a", "a", "a"]), 1)];
    let r = run_bpe_merge(words, 300, 0);
    assert_eq!(r, vec![pair("a", "a"), pair("aa", "a")]);
}

#[test]
fn rewrite_is_greedy_and_non_overlapping() {
    let (w, changed) = rewrite_word(&word(&["a", "a", "a", "b", "a", "a"]), &tok("a"), &tok("a"));
    assert!(changed);
    assert_eq!(w, word(&["aa", "a", "b", "aa"]));
    let (w, changed) = rewrite_word(&word(&["a", "b"]), &tok("b"), &tok("a"));
    assert!(!changed);
    assert_eq!(w, word(&["a", "b"]));
}

#[test]
fn frequencies_stay_exact_after_steps() {
    let words = vec![
        (word(&["a", "b", "a", "b"]), 2),
        (word(&["b", "a", "b"]), 1),
        (word(&["a", "b"]), 5),
    ];
    let mut state = MergeState::new(words);
    assert_eq!(state.step(), Some(pair("a", "b")));
    let mut table: Vec<((Vec<u8>, Vec<u8>), usize)> =
        state.keys.iter().cloned().zip(state.freqs.iter().cloned()).collect();
    table.sort();
    assert_eq!(
        table,
        vec![(pair("ab", "ab"), 2), (pair("b", "ab"), 1)]
    );
    assert_eq!(state.step(), Some(pair("ab", "ab")));
    assert_eq!(state.step(), Some(pair("b", "ab")));
    assert_eq!(state.step(), None);
    assert!(state.keys.is_empty());
}

#[test]
fn weight_is_exact_or_absent() {
    let words = vec![(word(&["a", "b", "c"]), 4), (word(&["d"]), 10)];
    assert_eq!(total_weight(&words), Some(22));
    let big = vec![(word(&["a", "b"]), usize::MAX / 2 + 1)];
    assert_eq!(total_weight(&big), None);
}

#[test]
fn byte_order_is_lexicographic() {
    assert!(bytes_less(&tok("ab"), &tok("b")));
    assert!(bytes_less(&tok("a"), &tok("ab")));
    assert!(!bytes_less(&tok("ab"), &tok("a")));
    assert!(!bytes_less(&tok("a"), &tok("a")));
    assert!(bytes_less(&vec![], &vec![0u8]));
    assert!(pair_less(&tok("a"), &tok("z"), &tok("b"), &tok("a")));
    assert!(pair_less(&tok("a"), &tok("b"), &tok("a"), &tok("c")));
    assert!(!pair_less(&tok("a"), &tok("c"), &tok("a"), &tok("c")));
}
