use oeuvre::partition::Partitioner;
use oeuvre::paths::output_file_path;
use oeuvre::strutil::{split_commas_exec, str_eq, str_lt, trim};

fn paths(v: &[&str]) -> Vec<String> {
    v.iter().map(|s| s.to_string()).collect()
}

#[test]
fn a_path_claimed_by_an_earlier_category_is_invisible_later() {
    // Categories A before B both match "f": A's result contains it, B's
    // does not.
    let mut p = Partitioner::new();
    let a = p.partition(&paths(&["f"]));
    let b = p.partition(&paths(&["f", "b"]));
    assert_eq!(a, paths(&["f"]));
    assert_eq!(b, paths(&["b"]));
}

#[test]
fn matches_are_deduplicated_and_sorted() {
    let mut p = Partitioner::new();
    let r = p.partition(&paths(&["b", "a", "b", "a"]));
    assert_eq!(r, paths(&["a", "b"]));
}

#[test]
fn results_are_pairwise_disjoint_and_cover_every_match() {
    let cats = vec![
        paths(&["x", "y"]),
        paths(&["y", "z"]),
        paths(&["x", "w", "z"]),
    ];
    let mut p = Partitioner::new();
    let mut results: Vec<Vec<String>> = Vec::new();
    for c in &cats {
        results.push(p.partition(c));
    }
    assert_eq!(results[0], paths(&["x", "y"]));
    assert_eq!(results[1], paths(&["z"]));
    assert_eq!(results[2], paths(&["w"]));
    // Pairwise disjoint.
    for i in 0..results.len() {
        for j in 0..results.len() {
            if i != j {
                for s in &results[i] {
                    assert!(!results[j].contains(s));
                }
            }
        }
    }
    // The union covers every distinct matched path.
    let mut all: Vec<String> = cats.iter().flatten().cloned().collect();
    all.sort();
    all.dedup();
    let mut union: Vec<String> = results.iter().flatten().cloned().collect();
    union.sort();
    assert_eq!(union, all);
}

#[test]
fn a_category_whose_matches_are_all_claimed_gets_nothing() {
    let mut p = Partitioner::new();
    let first = p.partition(&paths(&["a", "b"]));
    let second = p.partition(&paths(&["a", "b"]));
    assert_eq!(first, paths(&["a", "b"]));
    assert!(second.is_empty());
}

#[test]
fn empty_matches_yield_an_empty_result() {
    let mut p = Partitioner::new();
    let r = p.partition(&Vec::new());
    assert!(r.is_empty());
}

#[test]
fn paths_sort_lexicographically_not_numerically() {
    let mut p = Partitioner::new();
    let r = p.partition(&paths(&["p2", "p10"]));
    assert_eq!(r, paths(&["p10", "p2"]));
}

#[test]
fn output_paths_are_joined_and_cleaned() {
    // The join alone would give "output/a/./b.html"; cleaning removes the
    // `.` component.
    assert_eq!(output_file_path("output", "a/./b.html"), "output/a/b.html");
    assert_eq!(output_file_path("out", "sub/../x.html"), "out/x.html");
    assert_eq!(output_file_path("", "x.html"), "x.html");
}

#[test]
fn string_order_and_equality_helpers() {
    assert!(str_lt("abc", "abd"));
    assert!(!str_lt("abd", "abc"));
    assert!(!str_lt("abc", "abc"));
    assert!(str_lt("ab", "abc"));
    assert!(str_eq("abc", "abc"));
    assert!(!str_eq("abc", "abd"));
}

#[test]
fn trimming_and_splitting_slot_name_lists() {
    assert_eq!(trim("  a b\t"), "a b");
    assert_eq!(trim(""), "");
    assert_eq!(trim(" \t\r\n"), "");
    assert_eq!(split_commas_exec("a,,b"), vec!["a".to_string(), "".to_string(), "b".to_string()]);
    assert_eq!(split_commas_exec(""), vec!["".to_string()]);
    assert_eq!(split_commas_exec("one"), vec!["one".to_string()]);
}
