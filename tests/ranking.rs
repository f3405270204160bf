use similar_sort::distance::{metric_from_flags, score, Metric, UsageError};
use similar_sort::rank::{ranked_order, score_all, sort_candidates};

fn strings(items: &[&str]) -> Vec<String> {
    items.iter().map(|s| s.to_string()).collect()
}

fn similarity(target: &str, candidate: &str) -> f64 {
    f64::from_bits(score(target, candidate, Metric::JaroWinkler))
}

#[test]
fn levenshtein_known_distances() {
    assert_eq!(score("kitten", "sitting", Metric::Levenshtein), 3);
    assert_eq!(score("", "abc", Metric::Levenshtein), 3);
    assert_eq!(score("abc", "", Metric::Levenshtein), 3);
    assert_eq!(score("cat", "dog", Metric::Levenshtein), 3);
    assert_eq!(score("cat", "cats", Metric::Levenshtein), 1);
    assert_eq!(score("cat", "car", Metric::Levenshtein), 1);
    assert_eq!(score("ab", "ba", Metric::Levenshtein), 2);
}

#[test]
fn levenshtein_of_a_string_with_itself_is_zero() {
    for s in ["", "a", "similar", "ünïcödé"] {
        assert_eq!(score(s, s, Metric::Levenshtein), 0);
    }
}

#[test]
fn levenshtein_is_symmetric() {
    let pairs = [("kitten", "sitting"), ("", "xyz"), ("flaw", "lawn"), ("cat", "cats")];
    for (a, b) in pairs {
        assert_eq!(score(a, b, Metric::Levenshtein), score(b, a, Metric::Levenshtein));
    }
}

#[test]
fn jaro_winkler_of_a_string_with_itself_is_one() {
    for s in ["a", "cat", "cheeseburger", "aaaa"] {
        assert_eq!(similarity(s, s), 1.0);
    }
}

#[test]
fn jaro_winkler_known_similarity() {
    assert!((similarity("cheeseburger", "cheese fries") - 0.911).abs() < 0.001);
    assert_eq!(similarity("abc", "xyz"), 0.0);
}

#[test]
fn empty_input_gives_empty_output() {
    let lines: Vec<String> = Vec::new();
    assert!(sort_candidates("cat", &lines, Metric::Levenshtein).is_empty());
    assert!(sort_candidates("cat", &lines, Metric::JaroWinkler).is_empty());
}

#[test]
fn levenshtein_example_from_cat() {
    let lines = strings(&["cats", "dog", "cat", "car"]);
    let out = sort_candidates("cat", &lines, Metric::Levenshtein);
    assert_eq!(out, strings(&["cat", "cats", "car", "dog"]));
}

#[test]
fn jaro_winkler_puts_most_similar_first() {
    let lines = strings(&["dog", "cats", "cat", "cut"]);
    let out = sort_candidates("cat", &lines, Metric::JaroWinkler);
    assert_eq!(out[0], "cat");
    assert_eq!(out[1], "cats");
    assert_eq!(out[3], "dog");
    for w in out.windows(2) {
        assert!(similarity("cat", &w[0]) >= similarity("cat", &w[1]));
    }
}

#[test]
fn output_is_a_permutation_of_input() {
    let lines = strings(&["b", "a", "b", "", "abc", "a"]);
    for metric in [Metric::Levenshtein, Metric::JaroWinkler] {
        let mut out = sort_candidates("ab", &lines, metric);
        let mut expected = lines.clone();
        out.sort();
        expected.sort();
        assert_eq!(out, expected);
    }
}

#[test]
fn levenshtein_output_is_ascending() {
    let lines = strings(&["zzzzzz", "target", "targ", "tarket", "", "targets"]);
    let out = sort_candidates("target", &lines, Metric::Levenshtein);
    for w in out.windows(2) {
        assert!(score("target", &w[0], Metric::Levenshtein) <= score("target", &w[1], Metric::Levenshtein));
    }
    assert_eq!(out[0], "target");
}

#[test]
fn ties_keep_input_order() {
    let lines = strings(&["bat", "cab", "hat", "cat"]);
    let out = sort_candidates("cat", &lines, Metric::Levenshtein);
    assert_eq!(out, strings(&["cat", "bat", "cab", "hat"]));
}

#[test]
fn ranked_order_levenshtein_ascending_and_stable() {
    assert_eq!(ranked_order(&vec![3, 1, 1, 0], Metric::Levenshtein), vec![3, 1, 2, 0]);
    assert_eq!(ranked_order(&vec![], Metric::Levenshtein), Vec::<usize>::new());
}

#[test]
fn ranked_order_jaro_winkler_descending_and_stable() {
    assert_eq!(ranked_order(&vec![5, 7, 7, 9], Metric::JaroWinkler), vec![3, 1, 2, 0]);
    assert_eq!(ranked_order(&vec![0, u64::MAX], Metric::JaroWinkler), vec![1, 0]);
}

#[test]
fn score_all_keeps_input_order() {
    let lines = strings(&["cats", "dog", "cat"]);
    assert_eq!(score_all("cat", &lines, Metric::Levenshtein), vec![1, 3, 0]);
}

#[test]
fn metric_flags() {
    assert_eq!(metric_from_flags(false, false), Ok(Metric::Levenshtein));
    assert_eq!(metric_from_flags(true, false), Ok(Metric::Levenshtein));
    assert_eq!(metric_from_flags(false, true), Ok(Metric::JaroWinkler));
    assert_eq!(metric_from_flags(true, true), Err(UsageError::ConflictingMetrics));
}
