use rmenu::rmenu::{match_rank, selected_value, sort_by_rank, MatchRank};
use rmenu::text::{find_text, fold_case, split_text};
use rmenu::{alpha_sort_entries, filter_entries, sort_entries, Choice, CliArgs};

fn args(query: &str, insensetive: bool) -> CliArgs {
    CliArgs {
        insensetive,
        desktop: false,
        options: String::new(),
        query: query.to_string(),
    }
}

fn choices(names: &[&str]) -> Vec<Choice> {
    names.iter().map(|n| Choice::plain(n.to_string())).collect()
}

fn names(cs: &[Choice]) -> Vec<String> {
    cs.iter().map(|c| c.name.clone()).collect()
}

#[test]
fn empty_query_keeps_everything_in_order() {
    let input = ["zeta", "Alpha", "mid", ""];
    for ci in [false, true] {
        let out = filter_entries(args("", ci), choices(&input));
        assert_eq!(names(&out), vec!["zeta", "Alpha", "mid", ""]);
    }
}

#[test]
fn filter_keeps_exactly_the_matches() {
    let out = filter_entries(args("an", false), choices(&["banana", "apple", "mango", "AN"]));
    assert_eq!(names(&out), vec!["banana", "mango"]);
}

#[test]
fn filter_case_sensitive_does_not_fold() {
    let out = filter_entries(args("APP", false), choices(&["apple", "APPLE", "Application"]));
    assert_eq!(names(&out), vec!["APPLE"]);
}

#[test]
fn filter_case_insensitive_folds_both_sides() {
    let out = filter_entries(args("APP", true), choices(&["apple", "APPLE", "Application", "pear"]));
    assert_eq!(names(&out), vec!["apple", "APPLE", "Application"]);
}

#[test]
fn filter_no_match_gives_empty() {
    let out = filter_entries(args("xyz", true), choices(&["apple", "banana"]));
    assert!(out.is_empty());
}

#[test]
fn sort_orders_by_position_then_length() {
    let mut v = choices(&["xxab", "abcdef", "ab", "zzz", "xab", "q"]);
    sort_entries(args("ab", false), &mut v);
    assert_eq!(names(&v), vec!["ab", "abcdef", "xab", "xxab", "q", "zzz"]);
}

#[test]
fn sort_without_match_goes_last() {
    let mut v = choices(&["nomatch", "a", "ba"]);
    sort_entries(args("a", false), &mut v);
    assert_eq!(names(&v), vec!["a", "ba", "nomatch"]);
}

#[test]
fn sort_empty_query_orders_by_length() {
    let mut v = choices(&["ccc", "a", "bb", "d"]);
    sort_entries(args("", false), &mut v);
    assert_eq!(names(&v), vec!["a", "d", "bb", "ccc"]);
}

#[test]
fn sort_case_insensitive_positions() {
    let mut v = choices(&["xFoo", "FOO", "foobar"]);
    sort_entries(args("foo", true), &mut v);
    assert_eq!(names(&v), vec!["FOO", "foobar", "xFoo"]);
}

#[test]
fn sort_is_idempotent() {
    let mut once = choices(&["bca", "abc", "cab", "ca", "zz", "a"]);
    sort_entries(args("a", false), &mut once);
    let mut twice = choices(&names(&once).iter().map(|s| s.as_str()).collect::<Vec<_>>());
    sort_entries(args("a", false), &mut twice);
    assert_eq!(names(&once), names(&twice));
    assert_eq!(names(&once), vec!["a", "abc", "ca", "cab", "bca", "zz"]);
}

#[test]
fn sort_keeps_order_of_ties() {
    let mut v = vec![
        Choice::new("1".to_string(), "ab".to_string(), String::new()),
        Choice::new("2".to_string(), "ab".to_string(), String::new()),
        Choice::new("3".to_string(), "ac".to_string(), String::new()),
    ];
    sort_entries(args("a", false), &mut v);
    let values: Vec<String> = v.iter().map(|c| c.value.clone()).collect();
    assert_eq!(values, vec!["1", "2", "3"]);
}

#[test]
fn example_end_to_end() {
    let a = args("app", true);
    let kept = filter_entries(args("app", true), choices(&["apple", "banana", "app"]));
    assert_eq!(names(&kept), vec!["apple", "app"]);
    let mut sorted = kept;
    sort_entries(a, &mut sorted);
    assert_eq!(names(&sorted), vec!["app", "apple"]);
}

#[test]
fn alpha_sort_ignores_case() {
    let mut v = choices(&["banana", "Apple", "cherry", "apricot", "B"]);
    alpha_sort_entries(&mut v);
    assert_eq!(names(&v), vec!["Apple", "apricot", "B", "banana", "cherry"]);
}

#[test]
fn alpha_sort_prefix_first_and_stable() {
    let mut v = vec![
        Choice::new("1".to_string(), "ab".to_string(), String::new()),
        Choice::new("2".to_string(), "a".to_string(), String::new()),
        Choice::new("3".to_string(), "AB".to_string(), String::new()),
    ];
    alpha_sort_entries(&mut v);
    let values: Vec<String> = v.iter().map(|c| c.value.clone()).collect();
    assert_eq!(values, vec!["2", "1", "3"]);
}

#[test]
fn literal_list_round_trip() {
    let mut a = args("", false);
    a.options = "a\nb\nc".to_string();
    let out = a.user_options();
    assert_eq!(out.len(), 3);
    for (c, want) in out.iter().zip(["a", "b", "c"]) {
        assert_eq!(c.name, want);
        assert_eq!(c.value, want);
        assert_eq!(c.icon, "");
    }
}

#[test]
fn literal_list_empty_gives_nothing() {
    let a = args("", false);
    assert!(a.user_options().is_empty());
}

#[test]
fn literal_list_keeps_empty_lines() {
    let mut a = args("", false);
    a.options = "x\n\ny\n".to_string();
    assert_eq!(names(&a.user_options()), vec!["x", "", "y", ""]);
}

#[test]
fn find_text_gives_first_position() {
    assert_eq!(find_text("banana", "an"), Some(1));
    assert_eq!(find_text("banana", "nab"), None);
    assert_eq!(find_text("abc", ""), Some(0));
    assert_eq!(find_text("", "a"), None);
    assert_eq!(find_text("héllo", "llo"), Some(2));
}

#[test]
fn fold_case_lowers_only_when_asked() {
    assert_eq!(fold_case(&"MiXeD".to_string(), true), "mixed");
    assert_eq!(fold_case(&"MiXeD".to_string(), false), "MiXeD");
    assert_eq!(fold_case(&String::new(), true), "");
}

#[test]
fn split_text_cuts_at_separator() {
    assert_eq!(split_text("a:b::c", ':'), vec!["a", "b", "", "c"]);
    assert_eq!(split_text("", ':'), vec![""]);
    assert_eq!(split_text("plain", ':'), vec!["plain"]);
}

#[test]
fn match_rank_reports_position_and_length() {
    let r = match_rank(&"XAB".to_string(), &"xab".to_string(), &"ab".to_string());
    assert_eq!(r.position, Some(1));
    assert_eq!(r.length, 3);
    let r = match_rank(&"hello".to_string(), &"hello".to_string(), &"z".to_string());
    assert_eq!(r.position, None);
    assert_eq!(r.length, 5);
}

#[test]
fn sort_by_rank_uses_given_ranks() {
    let entries = choices(&["a", "b", "c", "d"]);
    let ranks = vec![
        MatchRank { position: None, length: 1 },
        MatchRank { position: Some(2), length: 1 },
        MatchRank { position: Some(0), length: 4 },
        MatchRank { position: Some(0), length: 2 },
    ];
    assert_eq!(names(&sort_by_rank(entries, ranks)), vec!["d", "c", "b", "a"]);
}

#[test]
fn selected_value_returns_value() {
    let v = vec![
        Choice::new("/usr/bin/vim".to_string(), "vim".to_string(), String::new()),
        Choice::new("emacs %f".to_string(), "Emacs".to_string(), "emacs".to_string()),
    ];
    assert_eq!(selected_value(&v, 1), "emacs %f");
    assert_eq!(selected_value(&v, 0), "/usr/bin/vim");
}

#[test]
fn sort_keeps_every_choice() {
    let input = ["b", "a", "b", "zz", "ab"];
    let mut v = choices(&input);
    sort_entries(args("b", false), &mut v);
    let mut got = names(&v);
    got.sort();
    let mut want: Vec<String> = input.iter().map(|s| s.to_string()).collect();
    want.sort();
    assert_eq!(got, want);
    let mut w = choices(&input);
    alpha_sort_entries(&mut w);
    assert_eq!(names(&w), vec!["a", "ab", "b", "b", "zz"]);
}

#[test]
fn positions_and_lengths_count_characters() {
    let mut v = choices(&["abcx", "ééx"]);
    sort_entries(args("x", false), &mut v);
    assert_eq!(names(&v), vec!["ééx", "abcx"]);
}
