use pssh::expand::{
    expand_expressions, expand_list, expand_range, expand_string, ExpandError,
};

fn b(s: &str) -> Vec<u8> {
    s.as_bytes().to_vec()
}

fn bs(items: &[&str]) -> Vec<Vec<u8>> {
    items.iter().map(|s| b(s)).collect()
}

#[test]
fn literal_expression_expands_to_itself() {
    let r = expand_string(&b("plain-host.example.org")).unwrap();
    assert_eq!(r, bs(&["plain-host.example.org"]));
}

#[test]
fn empty_expression_expands_to_one_empty_name() {
    let r = expand_string(&b("")).unwrap();
    assert_eq!(r, bs(&[""]));
}

#[test]
fn range_expansion_is_ordered() {
    let r = expand_string(&b("h[1:3]")).unwrap();
    assert_eq!(r, bs(&["h1", "h2", "h3"]));
}

#[test]
fn list_expansion_is_ordered() {
    let r = expand_string(&b("h{a,b}")).unwrap();
    assert_eq!(r, bs(&["ha", "hb"]));
}

#[test]
fn range_outer_list_inner() {
    let r = expand_string(&b("h[1:2]-{x,y}")).unwrap();
    assert_eq!(r, bs(&["h1-x", "h1-y", "h2-x", "h2-y"]));
}

#[test]
fn two_ranges_leftmost_outermost() {
    let r = expand_string(&b("a[1:2]b[3:4]")).unwrap();
    assert_eq!(r, bs(&["a1b3", "a1b4", "a2b3", "a2b4"]));
}

#[test]
fn two_lists_leftmost_outermost() {
    let r = expand_string(&b("a{1,2}b{3,4}")).unwrap();
    assert_eq!(r, bs(&["a1b3", "a1b4", "a2b3", "a2b4"]));
}

#[test]
fn negative_range_bounds() {
    let r = expand_string(&b("h[-2:1]")).unwrap();
    assert_eq!(r, bs(&["h-2", "h-1", "h0", "h1"]));
}

#[test]
fn single_value_range() {
    let r = expand_string(&b("h[7:7]")).unwrap();
    assert_eq!(r, bs(&["h7"]));
}

#[test]
fn multiple_expressions_concatenate_in_order() {
    let exprs = bs(&["web-[1:2]", "db-{a,b}"]);
    let r = expand_expressions(&exprs).unwrap();
    assert_eq!(r, bs(&["web-1", "web-2", "db-a", "db-b"]));
}

#[test]
fn unclosed_bracket_is_fatal() {
    assert_eq!(expand_string(&b("h[1")), Err(ExpandError::UnclosedBracket));
}

#[test]
fn missing_colon_is_fatal() {
    assert_eq!(expand_string(&b("h[12]")), Err(ExpandError::MissingColon));
}

#[test]
fn colon_after_closing_bracket_is_fatal() {
    assert_eq!(expand_string(&b("h[12]x:y")), Err(ExpandError::MissingColon));
}

#[test]
fn non_numeric_bound_is_fatal() {
    assert_eq!(expand_string(&b("h[a:b]")), Err(ExpandError::InvalidNumber));
}

#[test]
fn out_of_range_bound_is_fatal() {
    assert_eq!(
        expand_string(&b("h[1:99999999999]")),
        Err(ExpandError::InvalidNumber)
    );
}

#[test]
fn reversed_range_is_fatal() {
    assert_eq!(expand_string(&b("h[3:1]")), Err(ExpandError::EmptyRange));
}

#[test]
fn unclosed_brace_is_fatal() {
    assert_eq!(expand_string(&b("h{a,b")), Err(ExpandError::UnclosedBrace));
}

#[test]
fn brace_closed_before_opened_is_fatal() {
    assert_eq!(expand_string(&b("}x{a,b}")), Err(ExpandError::UnclosedBrace));
}

#[test]
fn error_in_second_expression_rejects_the_set() {
    let exprs = bs(&["ok-[1:2]", "bad-[3"]);
    assert_eq!(expand_expressions(&exprs), Err(ExpandError::UnclosedBracket));
}

#[test]
fn expand_range_renders_decimal() {
    assert_eq!(expand_range(8, 11), bs(&["8", "9", "10", "11"]));
}

#[test]
fn expand_range_reversed_is_empty() {
    assert_eq!(expand_range(2, 1), Vec::<Vec<u8>>::new());
}

#[test]
fn expand_range_negative_values() {
    assert_eq!(expand_range(-1, 1), bs(&["-1", "0", "1"]));
}

#[test]
fn expand_list_splits_on_commas() {
    assert_eq!(expand_list(&b("prod,dev,stage")), bs(&["prod", "dev", "stage"]));
}

#[test]
fn expand_list_keeps_empty_items() {
    assert_eq!(expand_list(&b("a,,b,")), bs(&["a", "", "b", ""]));
}

#[test]
fn nested_braces_are_expanded_to_a_fixed_point() {
    let r = expand_string(&b("a{b{c}d}")).unwrap();
    assert_eq!(r, bs(&["abcd"]));
}

#[test]
fn deeply_nested_braces_reach_the_fixed_point() {
    let r = expand_string(&b("a{b{c{d}e}f}")).unwrap();
    assert_eq!(r, bs(&["abcdef"]));
}

#[test]
fn expanded_names_hold_no_expansion_syntax() {
    let r = expand_string(&b("w[1:2]{x{y}z,q}")).unwrap();
    for name in &r {
        assert!(!name.contains(&b'['));
        assert!(!name.contains(&b'{'));
    }
}

#[test]
fn error_nested_inside_an_item_is_found() {
    assert_eq!(expand_string(&b("a{b{c}d")), Err(ExpandError::UnclosedBrace));
}

#[test]
fn plus_signed_bound_is_read_as_a_number() {
    let r = expand_string(&b("h[+1:2]")).unwrap();
    assert_eq!(r, bs(&["h1", "h2"]));
}

#[test]
fn leading_zeros_in_bounds_are_read_as_numbers() {
    let r = expand_string(&b("h[08:10]")).unwrap();
    assert_eq!(r, bs(&["h8", "h9", "h10"]));
}
