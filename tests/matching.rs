use skym::matcher::{
    bench_perform_non_interactive_match, dispatch, picked_items, rank, skim_rank, Dispatch,
    SelectorConfig,
};
use skym::ranking::order_by_score;
use skym::scorer::{score, score_chars};

fn strings(xs: &[&str]) -> Vec<String> {
    xs.iter().map(|s| s.to_string()).collect()
}

fn texts(r: &[&String]) -> Vec<String> {
    r.iter().map(|s| (*s).clone()).collect()
}

fn pairs(r: &[(&String, i64)]) -> Vec<(String, i64)> {
    r.iter().map(|(s, v)| ((*s).clone(), *v)).collect()
}

#[test]
fn empty_query_scores_zero() {
    assert_eq!(score("abc", ""), Some(0));
    assert_eq!(score("", ""), Some(0));
}

#[test]
fn empty_candidate_does_not_match() {
    assert_eq!(score("", "a"), None);
}

#[test]
fn contiguous_match_scores_match_points_and_bonus() {
    assert_eq!(score("ab", "ab"), Some(12));
    assert_eq!(score("abc", "abc"), Some(23));
}

#[test]
fn gapped_match_scores_only_match_points() {
    assert_eq!(score("a_b", "ab"), Some(2));
    assert_eq!(score("axbxc", "abc"), Some(3));
}

#[test]
fn locality_bonus_prefers_contiguous() {
    let c1 = score("ab", "ab").unwrap();
    let c2 = score("a_b", "ab").unwrap();
    assert!(c1 > c2);
}

#[test]
fn matching_ignores_ascii_case() {
    assert_eq!(score("Apple", "aP"), Some(12));
    assert_eq!(score("apple", "AP"), Some(12));
}

#[test]
fn earliest_placement_is_scored() {
    // 'a' is taken at index 0, so the later contiguous "ab" earns no bonus.
    assert_eq!(score("a_ab", "ab"), Some(2));
}

#[test]
fn out_of_order_does_not_match() {
    assert_eq!(score("ba", "ab"), None);
}

#[test]
fn long_partial_prefix_gets_no_credit() {
    assert_eq!(score("abc", "abcd"), None);
}

#[test]
fn non_ascii_characters_match_exactly() {
    assert_eq!(score("Hello, 世界", "o世"), Some(2));
    assert_eq!(score("ÉCOLE", "é"), None);
}

#[test]
fn score_chars_works_on_char_vectors() {
    let c: Vec<char> = "grape".chars().collect();
    let q: Vec<char> = "ap".chars().collect();
    assert_eq!(score_chars(&c, &q), Some(12));
}

#[test]
fn order_by_score_is_descending_and_stable() {
    let scores = vec![Some(2), None, Some(5), Some(2), Some(-1), Some(5)];
    assert_eq!(order_by_score(&scores), vec![2, 5, 0, 3, 4]);
}

#[test]
fn order_by_score_handles_extreme_scores() {
    let scores = vec![Some(i64::MIN), Some(i64::MAX), Some(0)];
    assert_eq!(order_by_score(&scores), vec![1, 2, 0]);
}

#[test]
fn order_by_score_of_nothing_is_empty() {
    let scores: Vec<Option<i64>> = vec![None, None];
    assert!(order_by_score(&scores).is_empty());
    assert!(order_by_score(&Vec::new()).is_empty());
}

#[test]
fn rank_of_no_candidates_is_empty() {
    let items: Vec<String> = Vec::new();
    assert!(rank(&items, "x").is_empty());
}

#[test]
fn empty_query_keeps_all_in_order() {
    let items = strings(&["b", "a", "c", "a"]);
    let r = rank(&items, "");
    assert_eq!(
        pairs(&r),
        vec![
            ("b".to_string(), 0),
            ("a".to_string(), 0),
            ("c".to_string(), 0),
            ("a".to_string(), 0)
        ]
    );
}

#[test]
fn nothing_matches_gives_empty() {
    let items = strings(&["foo", "bar", "foo"]);
    assert!(rank(&items, "zzz").is_empty());
    assert!(bench_perform_non_interactive_match("zzz", &items).is_empty());
}

#[test]
fn apple_grape_orange() {
    let items = strings(&["apple", "grape", "orange"]);
    let r = rank(&items, "ap");
    assert_eq!(
        pairs(&r),
        vec![("apple".to_string(), 12), ("grape".to_string(), 12)]
    );
    let t = bench_perform_non_interactive_match("ap", &items);
    assert_eq!(texts(&t), vec!["apple".to_string(), "grape".to_string()]);
}

#[test]
fn rank_orders_by_score_then_input() {
    let items = strings(&["a_b", "ab", "xab", "a__b", "ba"]);
    let r = rank(&items, "ab");
    assert_eq!(
        pairs(&r),
        vec![
            ("ab".to_string(), 12),
            ("xab".to_string(), 12),
            ("a_b".to_string(), 2),
            ("a__b".to_string(), 2)
        ]
    );
}

#[test]
fn rank_is_deterministic() {
    let items = strings(&["axb", "ab", "b", "aab", "AB"]);
    let a = pairs(&rank(&items, "ab"));
    let b = pairs(&rank(&items, "ab"));
    assert_eq!(a, b);
}

#[test]
fn rank_returns_references_into_input() {
    let items = strings(&["zz", "az"]);
    let r = rank(&items, "z");
    assert_eq!(r.len(), 2);
    assert!(std::ptr::eq(r[0].0, &items[0]));
    assert!(std::ptr::eq(r[1].0, &items[1]));
}

#[test]
fn skim_rank_prefers_contiguous_and_drops_misses() {
    let items = strings(&["xyz", "axbycz", "abc"]);
    let r = skim_rank(&items, "abc");
    assert_eq!(r.len(), 2);
    assert_eq!(r[0].0, "abc");
    assert_eq!(r[1].0, "axbycz");
    assert!(r[0].1 > r[1].1);
}

#[test]
fn skim_rank_empty_query_keeps_all() {
    let items = strings(&["b", "a"]);
    let r = skim_rank(&items, "");
    assert_eq!(pairs(&r), vec![("b".to_string(), 0), ("a".to_string(), 0)]);
}

#[test]
fn skim_rank_upper_case_query_respects_case() {
    let items = strings(&["abc", "ABC", "aBc"]);
    let r = skim_rank(&items, "AB");
    assert_eq!(r.len(), 1);
    assert_eq!(r[0].0, "ABC");
    let r = skim_rank(&items, "ab");
    assert_eq!(r.len(), 3);
}

#[test]
fn dispatch_no_candidates_is_empty_in_both_modes() {
    let items: Vec<String> = Vec::new();
    for interactive in [false, true] {
        match dispatch("q", &items, interactive) {
            Dispatch::Done(v) => assert!(v.is_empty()),
            Dispatch::Select(_) => panic!("no session expected without candidates"),
        }
    }
}

#[test]
fn dispatch_interactive_asks_for_a_session() {
    let items = strings(&["a", "b"]);
    match dispatch("qu", &items, true) {
        Dispatch::Select(c) => {
            assert!(c.multi_select);
            assert_eq!(c.initial_query, "qu");
            assert_eq!(c.height_percent, 100);
        }
        Dispatch::Done(_) => panic!("interactive mode must ask for a session"),
    }
}

#[test]
fn dispatch_default_mode_ranks() {
    let items = strings(&["apple", "grape", "orange"]);
    match dispatch("ap", &items, false) {
        Dispatch::Done(v) => assert_eq!(texts(&v), vec!["apple".to_string(), "grape".to_string()]),
        Dispatch::Select(_) => panic!("default mode must rank"),
    }
}

#[test]
fn picked_items_are_a_subset_in_pick_order() {
    let items = strings(&["one", "two", "three"]);
    // a stub selector that picks the third, then the first, then an unknown index
    let picks = vec![2usize, 0, 7];
    let r = picked_items(&items, &picks);
    assert_eq!(texts(&r), vec!["three".to_string(), "one".to_string()]);
    for s in &r {
        assert!(items.contains(s));
    }
}

#[test]
fn picked_items_aborted_session_is_empty() {
    let items = strings(&["one"]);
    assert!(picked_items(&items, &Vec::new()).is_empty());
}

#[test]
fn selector_config_for_query() {
    let c = SelectorConfig::for_query("abc");
    assert!(c.multi_select);
    assert_eq!(c.initial_query, "abc");
    assert_eq!(c.height_percent, 100);
}
