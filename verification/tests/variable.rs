use template_tokens::Variable;

#[test]
fn single_and_from_parts_agree() {
    let a = Variable::single("name".to_string());
    let b = Variable::from_parts(vec!["name".to_string()]);
    assert_eq!(a, b);
}

#[test]
fn single_unchecked_matches_single() {
    let a = Variable::single_unchecked("t1".to_string());
    let b = Variable::single("t1".to_string());
    assert_eq!(a, b);
}

#[test]
fn from_string_splits_on_dots() {
    let v = Variable::from_string("a.b.c").unwrap();
    let expected = Variable::from_parts(vec!["a".to_string(), "b".to_string(), "c".to_string()]);
    assert_eq!(v, expected);
}

#[test]
fn from_string_single_name() {
    let v = Variable::from_string("alpha").unwrap();
    assert_eq!(v, Variable::from_parts(vec!["alpha".to_string()]));
}

#[test]
fn from_string_double_dot_fails_at_second_dot() {
    let e = Variable::from_string("a..b").unwrap_err();
    assert_eq!(e.offset, 2);
}

#[test]
fn from_string_empty_fails_at_zero() {
    let e = Variable::from_string("").unwrap_err();
    assert_eq!(e.offset, 0);
}

#[test]
fn from_string_trailing_dot_fails() {
    let e = Variable::from_string("a.").unwrap_err();
    assert_eq!(e.offset, 2);
}

#[test]
fn from_string_leading_dot_fails() {
    let e = Variable::from_string(".a").unwrap_err();
    assert_eq!(e.offset, 0);
}

#[test]
fn parse_error_message_names_offset() {
    let e = Variable::from_string("a..b").unwrap_err();
    assert_eq!(e.message(), "variable part is empty, at character 2");
}

#[test]
fn from_string_matches_single_for_plain_names() {
    let v = Variable::from_string("x").unwrap();
    assert_eq!(v, Variable::single("x".to_string()));
}
