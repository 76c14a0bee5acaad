use keyps::keys::{dedup_keys, merge_fetched};

fn lines(v: &[&str]) -> Vec<String> {
    v.iter().map(|s| s.to_string()).collect()
}

#[test]
fn dedup_keeps_first_occurrence_in_order() {
    let out = dedup_keys(&lines(&["a", "b", "a", "c", "b"]));
    assert_eq!(out, lines(&["a", "b", "c"]));
}

#[test]
fn dedup_of_distinct_keys_is_identity() {
    let ks = lines(&["a", "b", "c"]);
    assert_eq!(dedup_keys(&ks), ks);
}

#[test]
fn merge_collapses_duplicates_across_sources() {
    // source 1 delivers [keyA, keyB], source 2 delivers [keyB, keyC]
    let results = vec![Some(lines(&["keyA", "keyB"])), Some(lines(&["keyB", "keyC"]))];
    assert_eq!(merge_fetched(&results), lines(&["keyA", "keyB", "keyC"]));
}

#[test]
fn merge_isolates_a_failed_source() {
    // source 1 failed, source 2 delivered keyA: the cycle still has keyA
    let results = vec![None, Some(lines(&["keyA"]))];
    assert_eq!(merge_fetched(&results), lines(&["keyA"]));
}

#[test]
fn merge_of_nothing_is_empty() {
    assert_eq!(merge_fetched(&Vec::new()), lines(&[]));
    assert_eq!(merge_fetched(&vec![None, None]), lines(&[]));
}
