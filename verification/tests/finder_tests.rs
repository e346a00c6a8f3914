use tuiscope::data::FuzzyFinder;
use tuiscope::highlight::{sections_from_stringdices, Style};

fn strings(v: &[&str]) -> Vec<String> {
    v.iter().map(|s| s.to_string()).collect()
}

#[test]
fn remove_option() {
    let mut ff = FuzzyFinder::default();
    ff.push_options(strings(&["hello", "friend"]));
    assert!(ff.contains_key("hello"));
    ff.remove_option("hello");
    assert!(!ff.contains_key("hello"));
}

#[test]
fn remove_options() {
    let mut ff = FuzzyFinder::default();
    ff.push_options(strings(&["hello", "my", "old", "friend"]));
    ff.remove_options(strings(&["my", "old"]));
    assert!(ff.contains_key("hello"));
    assert!(ff.contains_key("friend"));
    assert!(!ff.contains_key("my"));
    assert!(!ff.contains_key("old"));
}

// Empty filter matches everything; ties are broken by insertion order, so the
// first selected row is the first inserted, and stepping down reaches the
// second.
#[test]
fn empty_filter_scenario() {
    let mut ff = FuzzyFinder::default();
    ff.push_options(strings(&["hello", "friend"]));
    ff.set_filter("".to_string());
    assert_eq!(ff.matched_count(), 2);
    assert_eq!(ff.selection().unwrap().value, "hello");
    ff.select_next();
    assert_eq!(ff.selection().unwrap().value, "friend");
}

// Removal reconciles the selection onto the first remaining match.
#[test]
fn remove_resets_selection() {
    let mut ff = FuzzyFinder::default();
    ff.push_options(strings(&["hello", "friend"]));
    ff.select_next();
    ff.remove_option("hello");
    let rows = ff.ranked_view(0, 10);
    assert_eq!(rows.len(), 1);
    assert_eq!(rows[0].value, "friend");
    assert_eq!(ff.selection().unwrap().value, "friend");
}

// Setting the same filter twice gives an identical ranked view and selection.
#[test]
fn set_filter_is_idempotent() {
    let mut ff = FuzzyFinder::default();
    ff.push_options(strings(&["alpha", "beta", "gamma", "alabaster"]));
    ff.set_filter("a".to_string());
    let rows1: Vec<String> = ff.ranked_view(0, 10).into_iter().map(|e| e.value).collect();
    let sel1 = ff.selection().map(|e| e.value);
    ff.set_filter("a".to_string());
    let rows2: Vec<String> = ff.ranked_view(0, 10).into_iter().map(|e| e.value).collect();
    let sel2 = ff.selection().map(|e| e.value);
    assert_eq!(rows1, rows2);
    assert_eq!(sel1, sel2);
}

// Scores in the ranked view never increase from one row to the next.
#[test]
fn ranked_view_scores_are_monotone() {
    let mut ff = FuzzyFinder::default();
    ff.push_options(strings(&[
        "src/main.rs",
        "sherbet",
        "fuzzy searcher",
        "search",
        "sea rch",
        "unrelated",
    ]));
    ff.set_filter("search".to_string());
    let rows = ff.ranked_view(0, 100);
    assert!(!rows.is_empty());
    for pair in rows.windows(2) {
        assert!(pair[0].score >= pair[1].score);
    }
}

// After any mutation the selection is unselected exactly when nothing matches,
// and otherwise addresses a matched row.
#[test]
fn selection_clamps_to_matches() {
    let mut ff = FuzzyFinder::default();
    ff.push_options(strings(&["hello", "friend"]));
    ff.set_filter("zzz".to_string());
    assert_eq!(ff.matched_count(), 0);
    assert!(ff.selection().is_none());
    ff.select_next();
    assert!(ff.selection().is_none());
    ff.set_filter("e".to_string());
    assert!(ff.matched_count() > 0);
    assert!(ff.selection().is_some());
    // The cursor saturates at the last match instead of wrapping.
    for _ in 0..10 {
        ff.select_next();
    }
    let last = ff.ranked_view(ff.matched_count() - 1, 1).pop().unwrap();
    assert_eq!(ff.selection().unwrap().value, last.value);
    for _ in 0..10 {
        ff.select_prev();
    }
    let first = ff.ranked_view(0, 1).pop().unwrap();
    assert_eq!(ff.selection().unwrap().value, first.value);
}

// With the empty filter every inserted candidate is matched.
#[test]
fn empty_filter_matches_all() {
    let mut ff = FuzzyFinder::default();
    ff.push_options(strings(&["one", "two", "three", "four"]));
    assert_eq!(ff.matched_count(), ff.option_count());
    ff.set_filter("o".to_string());
    ff.clear_filter();
    assert_eq!(ff.matched_count(), 4);
}

// The scorer is really consulted: a narrowing filter keeps only fuzzy
// subsequence matches, and the reported indices point at the matched
// characters of the right row.
#[test]
fn filter_narrows_and_reports_indices() {
    let mut ff = FuzzyFinder::default();
    ff.push_options(strings(&["hello", "friend"]));
    ff.set_filter("fr".to_string());
    assert_eq!(ff.matched_count(), 1);
    let sel = ff.selection().unwrap();
    assert_eq!(sel.value, "friend");
    assert_eq!(sel.indices, vec![0, 1]);
    let segs = sections_from_stringdices(&sel.value, &sel.indices).unwrap();
    assert_eq!(
        segs,
        vec![
            Style::Matched("fr".to_string()),
            Style::Unmatched("iend".to_string())
        ]
    );
}

// Re-inserting an existing key neither duplicates it nor resets its slot.
#[test]
fn duplicate_insert_updates_slot() {
    let mut ff = FuzzyFinder::default();
    ff.push_option("hello".to_string());
    ff.push_option("hello".to_string());
    assert_eq!(ff.option_count(), 1);
}

// Replacing the candidate set clears the previous one.
#[test]
fn set_options_replaces_all() {
    let mut ff = FuzzyFinder::default().with_options(strings(&["one", "two", "three"]));
    assert_eq!(ff.option_count(), 3);
    ff.set_options(strings(&["four"]));
    assert_eq!(ff.option_count(), 1);
    assert!(!ff.contains_key("one"));
    assert!(ff.contains_key("four"));
}

// Removing an absent key changes nothing, selection included.
#[test]
fn remove_absent_key_is_noop() {
    let mut ff = FuzzyFinder::default();
    ff.push_options(strings(&["hello", "friend"]));
    ff.select_next();
    let before = ff.selection().unwrap().value;
    ff.remove_option("missing");
    assert_eq!(ff.option_count(), 2);
    assert_eq!(ff.selection().unwrap().value, before);
}

// Equal-score ties keep original insertion order even after the filter has
// changed in between.
#[test]
fn tie_break_is_insertion_order() {
    let mut ff = FuzzyFinder::default();
    ff.push_options(strings(&["bbb", "aaa", "ccc"]));
    let order1: Vec<String> = ff.ranked_view(0, 10).into_iter().map(|e| e.value).collect();
    assert_eq!(order1, vec!["bbb", "aaa", "ccc"]);
    ff.set_filter("aa".to_string());
    assert_eq!(ff.matched_count(), 1);
    ff.clear_filter();
    let order2: Vec<String> = ff.ranked_view(0, 10).into_iter().map(|e| e.value).collect();
    assert_eq!(order1, order2);
}

// The paging accessor windows the ranked matches.
#[test]
fn ranked_view_pages() {
    let mut ff = FuzzyFinder::default();
    ff.push_options(strings(&["a", "b", "c", "d", "e"]));
    assert_eq!(ff.matched_count(), 5);
    let page = ff.ranked_view(1, 2);
    assert_eq!(page.len(), 2);
    assert_eq!(page[0].value, "b");
    assert_eq!(page[1].value, "c");
    assert_eq!(ff.ranked_view(4, 2).len(), 1);
    assert_eq!(ff.ranked_view(5, 2).len(), 0);
    assert_eq!(ff.ranked_view(17, 2).len(), 0);
}

// Candidates the filter does not match come after all matches in the store
// and never appear in the ranked view.
#[test]
fn unmatched_rows_stay_out_of_view() {
    let mut ff = FuzzyFinder::default();
    ff.push_options(strings(&["xray", "hello", "help"]));
    ff.set_filter("hel".to_string());
    assert_eq!(ff.matched_count(), 2);
    assert_eq!(ff.option_count(), 3);
    let values: Vec<String> = ff.ranked_view(0, 10).into_iter().map(|e| e.value).collect();
    assert_eq!(values.len(), 2);
    assert!(values.contains(&"hello".to_string()));
    assert!(values.contains(&"help".to_string()));
}

// An empty store is a valid steady state for every operation.
#[test]
fn empty_store_is_total() {
    let mut ff = FuzzyFinder::new();
    ff.select_next();
    ff.select_prev();
    assert!(ff.selection().is_none());
    ff.set_filter("abc".to_string());
    ff.clear_filter();
    ff.remove_option("anything");
    assert_eq!(ff.matched_count(), 0);
    assert_eq!(ff.ranked_view(0, 10).len(), 0);
}
