use nix_parser::{identifier, identifier_from_match, ErrorKind, ParseError, Type};

fn id(val: &str) -> Type {
    Type::Identifier(val.into())
}

fn declined() -> ParseError {
    ParseError { kind: ErrorKind::StructuralMismatch, offset: 0 }
}

#[test]
fn identifier_takes_the_longest_name() {
    assert_eq!(identifier(b"foo bar"), Ok((&b" bar"[..], id("foo"))));
    assert_eq!(identifier(b"foo}"), Ok((&b"}"[..], id("foo"))));
    assert_eq!(identifier(b"foo.bar"), Ok((&b".bar"[..], id("foo"))));
    assert_eq!(identifier(b"a1-b_c=2"), Ok((&b"=2"[..], id("a1-b_c"))));
}

#[test]
fn identifier_of_one_byte() {
    assert_eq!(identifier(b"a"), Ok((&b""[..], id("a"))));
    assert_eq!(identifier(b"_"), Ok((&b""[..], id("_"))));
    assert_eq!(identifier(b"Z"), Ok((&b""[..], id("Z"))));
}

#[test]
fn identifier_is_not_searched_for_further_on() {
    assert_eq!(identifier(b" foo"), Err(declined()));
    assert_eq!(identifier(b"9foo"), Err(declined()));
    assert_eq!(identifier(b"{foo}"), Err(declined()));
}

#[test]
fn identifier_of_nothing_is_a_mismatch() {
    assert_eq!(identifier(b""), Err(declined()));
}

#[test]
fn identifier_is_ascii_only() {
    assert_eq!(identifier("\u{e9}t\u{e9}".as_bytes()), Err(declined()));
    assert_eq!(identifier("caf\u{e9}".as_bytes()), Ok((&"\u{e9}".as_bytes()[..], id("caf"))));
}

#[test]
fn match_at_the_start_becomes_the_name() {
    assert_eq!(identifier_from_match(b"abc def", Some((0, 3))), Ok((&b" def"[..], id("abc"))));
    assert_eq!(identifier_from_match(b"abc def", Some((0, 2))), Ok((&b"c def"[..], id("ab"))));
    assert_eq!(identifier_from_match(b"abc", Some((0, 3))), Ok((&b""[..], id("abc"))));
}

#[test]
fn no_match_is_a_mismatch() {
    assert_eq!(identifier_from_match(b"abc def", None), Err(declined()));
}

#[test]
fn match_that_is_no_name_is_a_mismatch() {
    assert_eq!(identifier_from_match(b"abc def", Some((0, 4))), Err(declined()));
    assert_eq!(identifier_from_match(b"9bc", Some((0, 3))), Err(declined()));
    assert_eq!(identifier_from_match(b"-bc", Some((0, 1))), Err(declined()));
}

#[test]
fn empty_match_is_a_mismatch() {
    assert_eq!(identifier_from_match(b"abc", Some((0, 0))), Err(declined()));
}

#[test]
fn match_away_from_the_start_is_a_mismatch() {
    assert_eq!(identifier_from_match(b"abc", Some((1, 3))), Err(declined()));
}

#[test]
fn match_beyond_the_buffer_is_a_mismatch() {
    assert_eq!(identifier_from_match(b"abc", Some((0, 4))), Err(declined()));
    assert_eq!(identifier_from_match(b"", Some((0, 1))), Err(declined()));
    assert_eq!(identifier_from_match(b"abc", Some((0, usize::MAX))), Err(declined()));
}
