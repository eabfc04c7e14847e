use lib::chars::white_space;
use lib::sibling_navigation::next_calls;

#[test]
fn splits_base_and_index() {
    let code = "const n3 = _next(_child(n2), 1)\nconst n4 = _next(n3)";
    assert_eq!(next_calls(code), vec![("_child(n2)", Some("1")), ("n3", None)]);
}

#[test]
fn index_is_trimmed_and_only_the_first_comma_splits() {
    let code = "_next(a, \u{3000} f(x, y) \t)";
    assert_eq!(next_calls(code), vec![("a", Some("f(x, y)"))]);
}

#[test]
fn unclosed_call_runs_to_the_end() {
    assert_eq!(next_calls("x = _next(n1"), vec![("n1", None)]);
    assert_eq!(next_calls("x = _next("), vec![("", None)]);
}

#[test]
fn nested_next_calls_are_all_listed() {
    assert_eq!(next_calls("_next(_next(n1))"), vec![("_next(n1)", None), ("n1", None)]);
    assert!(next_calls("const n1 = _nthChild(n0, 3)").is_empty());
}

#[test]
fn white_space_matches_std() {
    for c in [' ', '\t', '\n', '\u{b}', '\u{85}', '\u{a0}', '\u{2009}', '\u{3000}', 'a', '_', '\u{200b}', '\u{180e}'] {
        assert_eq!(white_space(c), c.is_whitespace(), "{c:?}");
    }
}
