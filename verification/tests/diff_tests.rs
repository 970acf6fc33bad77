use docxkit::text_diff::{compute_lcs, diff_lines, DiffLine};

fn v(items: &[&str]) -> Vec<String> {
    items.iter().map(|s| s.to_string()).collect()
}

#[test]
fn lcs_of_paragraphs() {
    let a = v(&["A", "B", "C", "D"]);
    let b = v(&["B", "X", "C", "D", "E"]);
    assert_eq!(compute_lcs(&a, &b), v(&["B", "C", "D"]));
}

#[test]
fn lcs_of_disjoint_lists_is_empty() {
    assert_eq!(compute_lcs(&v(&["a"]), &v(&["b"])), Vec::<String>::new());
    assert_eq!(compute_lcs(&v(&[]), &v(&["b"])), Vec::<String>::new());
}

#[test]
fn lcs_tie_prefers_dropping_from_first() {
    // both "a" and "b" are longest; walking back drops from the first list first
    assert_eq!(compute_lcs(&v(&["a", "b"]), &v(&["b", "a"])), v(&["a"]));
}

#[test]
fn diff_listing() {
    let a = v(&["A", "B", "C"]);
    let b = v(&["A", "X", "C", "Y"]);
    assert_eq!(
        diff_lines(&a, &b),
        vec![
            DiffLine::Removed(2, "B".to_string()),
            DiffLine::Added(2, "X".to_string()),
            DiffLine::Added(4, "Y".to_string()),
        ]
    );
}

#[test]
fn diff_of_equal_lists_is_empty() {
    let a = v(&["one", "two"]);
    assert!(diff_lines(&a, &a).is_empty());
}
