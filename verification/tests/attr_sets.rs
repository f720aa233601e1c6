use nix_parser::{
    attr_set, attr_set_within, expression, expression_within, AttrSet, ErrorKind, ParseError,
    Type, MAX_NESTING,
};

fn s(val: &str) -> Type {
    Type::String(val.into())
}

fn is(val: &str) -> Type {
    Type::IndentedString(val.into())
}

fn id(val: &str) -> Type {
    Type::Identifier(val.into())
}

fn set(bindings: Vec<Type>) -> Type {
    Type::AttrSet(AttrSet(bindings))
}

fn err(kind: ErrorKind, offset: usize) -> ParseError {
    ParseError { kind, offset }
}

fn nested(levels: usize) -> Vec<u8> {
    let mut text = vec![b'{'; levels];
    text.extend(vec![b'}'; levels]);
    text
}

fn nested_node(levels: usize) -> Type {
    let mut node = set(vec![]);
    for _ in 1..levels {
        node = set(vec![node]);
    }
    node
}

#[test]
fn empty_set() {
    assert_eq!(attr_set(b"{}"), Ok((&b""[..], set(vec![]))));
    assert_eq!(attr_set(b"{ \t\r\n}"), Ok((&b""[..], set(vec![]))));
}

#[test]
fn set_leaves_what_follows() {
    assert_eq!(attr_set(b"{test}rest"), Ok((&b"rest"[..], set(vec![id("test")]))));
    assert_eq!(attr_set(b"{test} "), Ok((&b" "[..], set(vec![id("test")]))));
}

#[test]
fn set_in_set() {
    assert_eq!(attr_set(b"{ {test} }"), Ok((&b""[..], set(vec![set(vec![id("test")])]))));
    assert_eq!(attr_set(b"{{test}}"), Ok((&b""[..], set(vec![set(vec![id("test")])]))));
    assert_eq!(
        attr_set(b"{{{a}}{b}}"),
        Ok((&b""[..], set(vec![set(vec![set(vec![id("a")])]), set(vec![id("b")])])))
    );
}

#[test]
fn bindings_keep_source_order() {
    assert_eq!(
        attr_set(b"{b a \"two\" ''three'' {c}\n\td}"),
        Ok((
            &b""[..],
            set(vec![id("b"), id("a"), s("two"), is("three"), set(vec![id("c")]), id("d")])
        ))
    );
}

#[test]
fn bindings_need_no_space_between_them() {
    assert_eq!(attr_set(b"{a\"b\"c}"), Ok((&b""[..], set(vec![id("a"), s("b"), id("c")]))));
}

#[test]
fn brace_inside_a_string_closes_nothing() {
    assert_eq!(attr_set(b"{\"}\"}"), Ok((&b""[..], set(vec![s("}")]))));
}

#[test]
fn set_without_opening_brace_is_a_mismatch() {
    assert_eq!(attr_set(b"test"), Err(err(ErrorKind::StructuralMismatch, 0)));
    assert_eq!(attr_set(b"}"), Err(err(ErrorKind::StructuralMismatch, 0)));
    assert_eq!(attr_set(b" {}"), Err(err(ErrorKind::StructuralMismatch, 0)));
    assert_eq!(attr_set(b""), Err(err(ErrorKind::StructuralMismatch, 0)));
}

#[test]
fn unbalanced_braces_are_unclosed() {
    assert_eq!(attr_set(b"{test"), Err(err(ErrorKind::UnclosedAttrSet, 5)));
    assert_eq!(attr_set(b"{"), Err(err(ErrorKind::UnclosedAttrSet, 1)));
    assert_eq!(attr_set(b"{ "), Err(err(ErrorKind::UnclosedAttrSet, 2)));
    assert_eq!(attr_set(b"{{test}"), Err(err(ErrorKind::UnclosedAttrSet, 7)));
    assert_eq!(attr_set(b"{ {test} "), Err(err(ErrorKind::UnclosedAttrSet, 9)));
    assert_eq!(attr_set(b"{{{"), Err(err(ErrorKind::UnclosedAttrSet, 3)));
}

#[test]
fn failure_of_a_binding_is_passed_on() {
    assert_eq!(attr_set(b"{9}"), Err(err(ErrorKind::StructuralMismatch, 1)));
    assert_eq!(attr_set(b"{ a ;}"), Err(err(ErrorKind::StructuralMismatch, 4)));
    assert_eq!(attr_set(b"{\"abc}"), Err(err(ErrorKind::UnterminatedLiteral, 6)));
    assert_eq!(attr_set(b"{a ''bc}"), Err(err(ErrorKind::UnterminatedLiteral, 8)));
    assert_eq!(attr_set(b"{ \"\xff\"}"), Err(err(ErrorKind::InvalidEncoding, 3)));
    assert_eq!(attr_set(b"{a {b {9}}}"), Err(err(ErrorKind::StructuralMismatch, 7)));
}

#[test]
fn nesting_is_limited_by_the_budget() {
    assert_eq!(attr_set_within(b"{}", 0), Err(err(ErrorKind::NestingTooDeep, 0)));
    assert_eq!(attr_set_within(b"{}", 1), Ok((&b""[..], set(vec![]))));
    assert_eq!(attr_set_within(b"{{}}", 1), Err(err(ErrorKind::NestingTooDeep, 1)));
    assert_eq!(attr_set_within(b"{{}}", 2), Ok((&b""[..], set(vec![set(vec![])]))));
    assert_eq!(attr_set_within(b"{a {b {c}}}", 2), Err(err(ErrorKind::NestingTooDeep, 6)));
    assert_eq!(attr_set_within(b"x", 0), Err(err(ErrorKind::StructuralMismatch, 0)));
}

#[test]
fn budget_does_not_count_for_other_forms() {
    assert_eq!(expression_within(b"abc", 0), Ok((&b""[..], id("abc"))));
    assert_eq!(expression_within(b"\"abc\"", 0), Ok((&b""[..], s("abc"))));
    assert_eq!(expression_within(b"{}", 0), Err(err(ErrorKind::NestingTooDeep, 0)));
}

#[test]
fn default_budget() {
    assert_eq!(MAX_NESTING, 64);
    assert_eq!(attr_set(&nested(64)), Ok((&b""[..], nested_node(64))));
    assert_eq!(attr_set(&nested(65)), Err(err(ErrorKind::NestingTooDeep, 64)));
    assert_eq!(expression(&nested(65)), Err(err(ErrorKind::NestingTooDeep, 64)));
}

#[test]
fn larger_budget_changes_nothing() {
    let text = b"{a {b \"c\"} ''d''}";
    assert_eq!(attr_set_within(text, 2), attr_set_within(text, 3));
    assert_eq!(attr_set_within(text, 2), attr_set(text));
}

#[test]
fn expression_goes_by_the_first_bytes() {
    assert_eq!(expression(b"\"a\" b"), Ok((&b" b"[..], s("a"))));
    assert_eq!(expression(b"''a'' b"), Ok((&b" b"[..], is("a"))));
    assert_eq!(expression(b"{a} b"), Ok((&b" b"[..], set(vec![id("a")]))));
    assert_eq!(expression(b"a b"), Ok((&b" b"[..], id("a"))));
}

#[test]
fn expression_that_is_none_of_the_forms_is_a_mismatch() {
    assert_eq!(expression(b"9"), Err(err(ErrorKind::StructuralMismatch, 0)));
    assert_eq!(expression(b"'a'"), Err(err(ErrorKind::StructuralMismatch, 0)));
    assert_eq!(expression(b" a"), Err(err(ErrorKind::StructuralMismatch, 0)));
    assert_eq!(expression(b""), Err(err(ErrorKind::StructuralMismatch, 0)));
}

#[test]
fn expression_keeps_the_failure_of_the_form_it_chose() {
    assert_eq!(expression(b"\"abc"), Err(err(ErrorKind::UnterminatedLiteral, 4)));
    assert_eq!(expression(b"''abc"), Err(err(ErrorKind::UnterminatedLiteral, 5)));
    assert_eq!(expression(b"{abc"), Err(err(ErrorKind::UnclosedAttrSet, 4)));
    assert_eq!(expression(b"{9}"), Err(err(ErrorKind::StructuralMismatch, 1)));
}

#[test]
fn remainders_parse_one_after_another() {
    let (rest, first) = expression(b"\"a\"{b}c").unwrap();
    assert_eq!(first, s("a"));
    assert_eq!(rest, &b"{b}c"[..]);
    let (rest, second) = expression(rest).unwrap();
    assert_eq!(second, set(vec![id("b")]));
    assert_eq!(rest, &b"c"[..]);
    assert_eq!(expression(rest), Ok((&b""[..], id("c"))));
}

#[test]
fn two_identifiers_in_a_row_read_as_one() {
    assert_eq!(expression(b"abcd"), Ok((&b""[..], id("abcd"))));
}
