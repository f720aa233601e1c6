use nix_parser::{expression, indented_string, string, ErrorKind, ParseError, Type};

fn s(val: &str) -> Type {
    Type::String(val.into())
}

fn is(val: &str) -> Type {
    Type::IndentedString(val.into())
}

fn err(kind: ErrorKind, offset: usize) -> ParseError {
    ParseError { kind, offset }
}

#[test]
fn string_leaves_what_follows() {
    assert_eq!(string(b"\"a\"bc"), Ok((&b"bc"[..], s("a"))));
}

#[test]
fn string_closing_quote_at_last_byte() {
    assert_eq!(string(b"\"x\""), Ok((&b""[..], s("x"))));
}

#[test]
fn string_content_is_kept_as_written() {
    assert_eq!(string(b"\"a\\\"b\""), Ok((&b""[..], s("a\\\"b"))));
    assert_eq!(string(b"\"a\\nb\""), Ok((&b""[..], s("a\\nb"))));
}

#[test]
fn string_decodes_utf8() {
    assert_eq!(string("\"h\u{e9}llo \u{4e16}\u{754c}\"".as_bytes()), Ok((&b""[..], s("h\u{e9}llo \u{4e16}\u{754c}"))));
}

#[test]
fn string_rejects_invalid_utf8() {
    assert_eq!(string(b"\"\xff\""), Err(err(ErrorKind::InvalidEncoding, 1)));
    assert_eq!(string(b"\"a\xc3\""), Err(err(ErrorKind::InvalidEncoding, 1)));
}

#[test]
fn string_without_opening_quote_is_a_mismatch() {
    assert_eq!(string(b"abc"), Err(err(ErrorKind::StructuralMismatch, 0)));
    assert_eq!(string(b""), Err(err(ErrorKind::StructuralMismatch, 0)));
    assert_eq!(string(b"''abc''"), Err(err(ErrorKind::StructuralMismatch, 0)));
}

#[test]
fn string_without_closing_quote_is_unterminated() {
    assert_eq!(string(b"\"abc"), Err(err(ErrorKind::UnterminatedLiteral, 4)));
    assert_eq!(string(b"\""), Err(err(ErrorKind::UnterminatedLiteral, 1)));
    assert_eq!(string(b"\"abc\\\""), Err(err(ErrorKind::UnterminatedLiteral, 6)));
}

#[test]
fn string_with_no_content_is_unterminated() {
    assert_eq!(string(b"\"\""), Err(err(ErrorKind::UnterminatedLiteral, 2)));
}

#[test]
fn indented_string_leaves_what_follows() {
    assert_eq!(indented_string(b"''a''b"), Ok((&b"b"[..], is("a"))));
}

#[test]
fn indented_string_keeps_indentation() {
    assert_eq!(
        indented_string(b"''\n    mkdir -p $out/share\n    cp -r . $out/share/promo\n  ''"),
        Ok((&b""[..], is("\n    mkdir -p $out/share\n    cp -r . $out/share/promo\n  ")))
    );
}

#[test]
fn indented_string_keeps_a_triple() {
    assert_eq!(indented_string(b"''a'''b''"), Ok((&b""[..], is("a'''b"))));
}

#[test]
fn indented_string_decodes_utf8() {
    assert_eq!(indented_string("''\u{e9}t\u{e9}''".as_bytes()), Ok((&b""[..], is("\u{e9}t\u{e9}"))));
}

#[test]
fn indented_string_rejects_invalid_utf8() {
    assert_eq!(indented_string(b"''\xff''"), Err(err(ErrorKind::InvalidEncoding, 2)));
}

#[test]
fn indented_string_without_opening_pair_is_a_mismatch() {
    assert_eq!(indented_string(b"'a''"), Err(err(ErrorKind::StructuralMismatch, 0)));
    assert_eq!(indented_string(b"\"a\""), Err(err(ErrorKind::StructuralMismatch, 0)));
    assert_eq!(indented_string(b"'"), Err(err(ErrorKind::StructuralMismatch, 0)));
    assert_eq!(indented_string(b""), Err(err(ErrorKind::StructuralMismatch, 0)));
}

#[test]
fn indented_string_without_closing_pair_is_unterminated() {
    assert_eq!(indented_string(b"''a"), Err(err(ErrorKind::UnterminatedLiteral, 3)));
    assert_eq!(indented_string(b"''a'"), Err(err(ErrorKind::UnterminatedLiteral, 4)));
    assert_eq!(indented_string(b"''"), Err(err(ErrorKind::UnterminatedLiteral, 2)));
}

#[test]
fn indented_string_with_no_content_is_unterminated() {
    assert_eq!(indented_string(b"''''"), Err(err(ErrorKind::UnterminatedLiteral, 4)));
}

#[test]
fn two_indented_strings_in_a_row_read_as_one() {
    assert_eq!(indented_string(b"''x''''y''"), Ok((&b""[..], is("x''''y"))));
}

#[test]
fn quoted_round_trip() {
    let content = "no quote in here, but a \\\" escaped one";
    let mut input = Vec::new();
    input.push(b'"');
    input.extend_from_slice(content.as_bytes());
    input.push(b'"');
    assert_eq!(string(&input), Ok((&b""[..], s(content))));
}

#[test]
fn indented_round_trip() {
    let content = "it's a ''' triple";
    let mut input = Vec::new();
    input.extend_from_slice(b"''");
    input.extend_from_slice(content.as_bytes());
    input.extend_from_slice(b"''");
    assert_eq!(indented_string(&input), Ok((&b""[..], is(content))));
}

#[test]
fn remainder_of_a_string_parses_on_its_own() {
    let (rest, first) = expression(b"\"one\"''two''").unwrap();
    assert_eq!(first, s("one"));
    assert_eq!(rest, &b"''two''"[..]);
    assert_eq!(expression(rest), expression(b"''two''"));
    assert_eq!(expression(rest), Ok((&b""[..], is("two"))));
}
