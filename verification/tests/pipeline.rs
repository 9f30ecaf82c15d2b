use structdiff::pipeline::{generate, Error};
use structdiff::lexer::LexError;
use structdiff::parser::ParseError;

fn run(text: &str) -> Result<String, Error> {
    let bytes = text.as_bytes().to_vec();
    generate(&bytes).map(|o| String::from_utf8(o.rendering).unwrap())
}

#[test]
fn base_alone_is_identity() {
    let out = run("struct Base { id: Int, name: Text }").unwrap();
    assert_eq!(out, "struct Base { id: Int, name: Text }\n");
}

#[test]
fn variant_appends_inherited_fields() {
    let out = run("struct Base { id: Int, name: Text } struct V1 { email: Text }").unwrap();
    assert_eq!(
        out,
        "struct Base { id: Int, name: Text }\nstruct V1 { email: Text, id: Int, name: Text }\n"
    );
}

#[test]
fn variant_removes_inherited_field() {
    let out = run("struct Base { id: Int, name: Text } struct V2 { - name }").unwrap();
    assert_eq!(out, "struct Base { id: Int, name: Text }\nstruct V2 { id: Int }\n");
}

#[test]
fn optional_marker_wraps_inherited_only() {
    let out = run("struct Base { id: Int, name: Text } struct V3 ? { nickname: Text }").unwrap();
    assert_eq!(
        out,
        "struct Base { id: Int, name: Text }\nstruct V3 { nickname: Text, id: Option<Int>, name: Option<Text> }\n"
    );
}

#[test]
fn removal_wins_over_same_declaration_addition() {
    let out = run("struct Base { id: Int } struct V4 { id: Text, - id }").unwrap();
    assert_eq!(out, "struct Base { id: Int }\nstruct V4 {}\n");
}

#[test]
fn own_field_shadows_inherited_one() {
    let out = run("struct Base { id: Int, name: Text } struct V5 { name: Blob }").unwrap();
    assert_eq!(
        out,
        "struct Base { id: Int, name: Text }\nstruct V5 { name: Blob, id: Int }\n"
    );
}

#[test]
fn removing_unknown_name_is_a_no_op() {
    let out = run("struct Base { id: Int } struct V6 { - ghostly }").unwrap();
    assert_eq!(out, "struct Base { id: Int }\nstruct V6 { id: Int }\n");
}

#[test]
fn base_removal_entry_has_no_effect() {
    let out = run("struct Base { id: Int, - id }").unwrap();
    assert_eq!(out, "struct Base { id: Int }\n");
}

#[test]
fn metadata_and_generics_pass_through() {
    let out = run("pub struct Base<T> { id: T } struct V7 { tag: Text }").unwrap();
    assert_eq!(
        out,
        "pub struct Base<T> { id: T }\nstruct V7 { tag: Text, id: T }\n"
    );
}

#[test]
fn nested_generic_types_survive() {
    let out = run("struct Base { items: Vec<Pair<K, V>> } struct V8 ? { n: Int }").unwrap();
    assert_eq!(
        out,
        "struct Base { items: Vec<Pair<K,V>> }\nstruct V8 { n: Int, items: Option<Vec<Pair<K,V>>> }\n"
    );
}

#[test]
fn scoped_visibility_passes_through() {
    let out = run("pub(crate) struct Base { id: Int }").unwrap();
    assert_eq!(out, "pub(crate) struct Base { id: Int }\n");
}

#[test]
fn generics_and_optional_marker_combine() {
    let out = run("struct Base { id: Int } pub struct V10<T> ? { extra: T }").unwrap();
    assert_eq!(
        out,
        "struct Base { id: Int }\npub struct V10<T> { extra: T, id: Option<Int> }\n"
    );
}

#[test]
fn resolving_twice_is_byte_identical() {
    let text = "struct Base { id: Int, name: Text } struct V3 ? { nickname: Text } struct V2 { - name }";
    let first = run(text).unwrap();
    let second = run(text).unwrap();
    assert_eq!(first.as_bytes(), second.as_bytes());
}

#[test]
fn unknown_byte_is_a_lex_error() {
    let r = run("struct Base { id: Int } @");
    assert_eq!(r.unwrap_err(), Error::Lex(LexError { pos: 24 }));
}

#[test]
fn missing_keyword_is_rejected() {
    let r = run("{ id: Int }");
    assert_eq!(r.unwrap_err(), Error::Parse(ParseError::ExpectedStruct { pos: 0 }));
}

#[test]
fn missing_name_is_rejected() {
    let r = run("struct { id: Int }");
    assert_eq!(r.unwrap_err(), Error::Parse(ParseError::MissingName { pos: 1 }));
}

#[test]
fn unclosed_generics_are_rejected() {
    let r = run("struct Base<T { id: Int }");
    assert_eq!(r.unwrap_err(), Error::Parse(ParseError::UnclosedGenerics { pos: 2 }));
}

#[test]
fn missing_body_is_rejected() {
    let r = run("struct Base");
    assert_eq!(r.unwrap_err(), Error::Parse(ParseError::MissingBrace { pos: 2 }));
}

#[test]
fn unclosed_brace_is_rejected() {
    let r = run("struct Base { id: Int");
    assert_eq!(r.unwrap_err(), Error::Parse(ParseError::UnclosedBrace { pos: 6 }));
}

#[test]
fn bad_entry_is_rejected() {
    let r = run("struct Base { id Int }");
    assert_eq!(r.unwrap_err(), Error::Parse(ParseError::BadEntry { pos: 3 }));
}

#[test]
fn leading_separator_is_rejected() {
    let r = run("struct Base { , id: Int }");
    assert_eq!(r.unwrap_err(), Error::Parse(ParseError::BadSeparator { pos: 3 }));
}

#[test]
fn bad_separator_after_removal_is_rejected() {
    let r = run("struct Base { - id name: Int }");
    assert_eq!(r.unwrap_err(), Error::Parse(ParseError::BadSeparator { pos: 5 }));
}

#[test]
fn duplicate_added_name_is_rejected() {
    let r = run("struct Base { id: Int, id: Text }");
    assert_eq!(r.unwrap_err(), Error::Parse(ParseError::DuplicateField { pos: 7 }));
}

#[test]
fn trailing_comma_is_accepted() {
    let out = run("struct Base { id: Int, }").unwrap();
    assert_eq!(out, "struct Base { id: Int }\n");
}

#[test]
fn empty_base_body_is_accepted() {
    let out = run("struct Base { }").unwrap();
    assert_eq!(out, "struct Base {}\n");
}

#[test]
fn empty_batch_emits_nothing() {
    assert_eq!(run("").unwrap(), "");
    assert_eq!(run("   \n\t ").unwrap(), "");
}

#[test]
fn failed_batch_yields_no_partial_output() {
    let r = run("struct Base { id: Int } struct V9 { broken");
    assert!(r.is_err());
}
