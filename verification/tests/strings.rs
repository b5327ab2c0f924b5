use q3::script::{
    append, filter_commented, filter_empty, join_and, join_or, normalize_spaces, prepend, quote,
    split_on, trim, uniq,
};

fn strings(items: &[&str]) -> Vec<String> {
    items.iter().map(|s| s.to_string()).collect()
}

#[test]
fn quote_wraps_each_element() {
    assert_eq!(quote(strings(&["a", "b c", ""])), strings(&["\"a\"", "\"b c\"", "\"\""]));
}

#[test]
fn trim_strips_surrounding_whitespace() {
    assert_eq!(
        trim(strings(&["  a ", "\tb\n", "c", "   ", ""])),
        strings(&["a", "b", "c", "", ""])
    );
}

#[test]
fn prepend_and_append_attach_the_value() {
    assert_eq!(prepend(strings(&["x", "y"]), "p-".to_string()), strings(&["p-x", "p-y"]));
    assert_eq!(append(strings(&["x", "y"]), "-s".to_string()), strings(&["x-s", "y-s"]));
}

#[test]
fn normalize_spaces_collapses_runs() {
    assert_eq!(
        normalize_spaces(strings(&["a   b  c", " lead", "trail ", "one", ""])),
        strings(&["a b c", "lead", "trail", "one", ""])
    );
    assert_eq!(normalize_spaces(strings(&["a\t\tb\nc"])), strings(&["a b c"]));
}

#[test]
fn uniq_drops_consecutive_duplicates_only() {
    assert_eq!(uniq(strings(&["a", "a", "b", "a"])), strings(&["a", "b", "a"]));
    assert_eq!(uniq(strings(&[])), strings(&[]));
    assert_eq!(uniq(strings(&["x", "x", "x"])), strings(&["x"]));
}

#[test]
fn joins_use_their_connectors() {
    assert_eq!(join_or(strings(&["a", "b", "c"])), "a OR b OR c");
    assert_eq!(join_and(strings(&["a", "b"])), "a AND b");
    assert_eq!(join_or(strings(&["solo"])), "solo");
    assert_eq!(join_and(strings(&[])), "");
}

#[test]
fn filters_drop_commented_and_empty_elements() {
    assert_eq!(filter_commented(strings(&["#note", "keep", "#"])), strings(&["keep"]));
    assert_eq!(filter_empty(strings(&["", "a", "", "b"])), strings(&["a", "b"]));
}

#[test]
fn split_on_matches_rusts_split() {
    assert_eq!(split_on("a,b,,c", ","), strings(&["a", "b", "", "c"]));
    assert_eq!(split_on("abc", ""), strings(&["", "a", "b", "c", ""]));
    assert_eq!(split_on("no-sep", ","), strings(&["no-sep"]));
    assert_eq!(split_on("a--b", "--"), strings(&["a", "b"]));
    assert_eq!(split_on("", ","), strings(&[""]));
    for (s, sep) in [("a,b,,c", ","), ("abc", ""), ("xx", "x"), ("a--b-c", "--")] {
        let expected: Vec<String> = s.split(sep).map(|p| p.to_string()).collect();
        assert_eq!(split_on(s, sep), expected);
    }
}
