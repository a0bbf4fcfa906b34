use biome_text::json_parser::{
    parse_json, JsonDiagnostic, JsonDiagnosticKind, JsonEvent, JsonParserOptions, JsonToken,
};
use biome_text::json_syntax::JsonSyntaxKind;
use biome_text::json_syntax::JsonSyntaxKind::{
    Colon, Comma, Eof, FalseKw, Ident, JsonArrayElementList, JsonArrayValue, JsonBogusValue, JsonMember,
    JsonMemberList, JsonMemberName, JsonNumberLiteral, JsonNumberValue, JsonObjectValue, JsonRoot,
    JsonNullValue, JsonStringLiteral, LBrack, LCurly, NullKw, RBrack, RCurly, TrueKw, UnicodeBom,
};

fn tokens(kinds: &[JsonSyntaxKind]) -> Vec<JsonToken> {
    kinds
        .iter()
        .map(|&kind| JsonToken { kind, has_preceding_line_break: false })
        .collect()
}

fn s(kind: JsonSyntaxKind) -> JsonEvent {
    JsonEvent::Start { kind }
}

fn t(kind: JsonSyntaxKind, index: usize) -> JsonEvent {
    JsonEvent::Token { kind, index }
}

const F: JsonEvent = JsonEvent::Finish;

fn parse(kinds: &[JsonSyntaxKind]) -> (Vec<JsonEvent>, Vec<JsonDiagnostic>) {
    let parse = parse_json(&tokens(kinds), JsonParserOptions::default());
    (parse.events, parse.diagnostics)
}

fn diagnostic(kind: JsonDiagnosticKind, start: usize, end: usize) -> JsonDiagnostic {
    JsonDiagnostic { kind, start, end }
}

#[test]
fn parses_an_object() {
    let (events, diagnostics) = parse(&[LCurly, JsonStringLiteral, Colon, JsonNumberLiteral, RCurly, Eof]);
    assert_eq!(
        events,
        vec![
            s(JsonRoot),
            s(JsonObjectValue),
            t(LCurly, 0),
            s(JsonMemberList),
            s(JsonMember),
            s(JsonMemberName),
            t(JsonStringLiteral, 1),
            F,
            t(Colon, 2),
            s(JsonNumberValue),
            t(JsonNumberLiteral, 3),
            F,
            F,
            F,
            t(RCurly, 4),
            F,
            F,
        ]
    );
    assert!(diagnostics.is_empty());
}

#[test]
fn parses_nested_arrays() {
    let (events, diagnostics) =
        parse(&[LBrack, JsonNumberLiteral, Comma, LBrack, JsonNumberLiteral, RBrack, RBrack, Eof]);
    assert_eq!(
        events,
        vec![
            s(JsonRoot),
            s(JsonArrayValue),
            t(LBrack, 0),
            s(JsonArrayElementList),
            s(JsonNumberValue),
            t(JsonNumberLiteral, 1),
            F,
            t(Comma, 2),
            s(JsonArrayValue),
            t(LBrack, 3),
            s(JsonArrayElementList),
            s(JsonNumberValue),
            t(JsonNumberLiteral, 4),
            F,
            F,
            t(RBrack, 5),
            F,
            F,
            t(RBrack, 6),
            F,
            F,
        ]
    );
    assert!(diagnostics.is_empty());
}

#[test]
fn a_keyword_as_property_name_is_an_identifier() {
    let (events, diagnostics) = parse(&[LCurly, NullKw, Colon, JsonNumberLiteral, RCurly, Eof]);
    assert_eq!(events[6], t(Ident, 1));
    assert_eq!(diagnostics, vec![diagnostic(JsonDiagnosticKind::UnquotedPropertyKey, 1, 2)]);
}

#[test]
fn more_values_are_wrapped_in_an_array() {
    let (events, diagnostics) = parse(&[JsonNumberLiteral, JsonNumberLiteral, Eof]);
    assert_eq!(
        events,
        vec![
            s(JsonRoot),
            s(JsonArrayValue),
            s(JsonArrayElementList),
            s(JsonNumberValue),
            t(JsonNumberLiteral, 0),
            F,
            s(JsonNumberValue),
            t(JsonNumberLiteral, 1),
            F,
            F,
            F,
            F,
        ]
    );
    assert_eq!(diagnostics, vec![diagnostic(JsonDiagnosticKind::EndOfFileExpected, 1, 2)]);
}

#[test]
fn an_empty_text_expects_a_value() {
    let (events, diagnostics) = parse(&[Eof]);
    assert_eq!(events, vec![s(JsonRoot), F]);
    assert_eq!(diagnostics, vec![diagnostic(JsonDiagnosticKind::ExpectedValue, 0, 1)]);
}

#[test]
fn trailing_commas_when_allowed() {
    let input = tokens(&[LBrack, JsonNumberLiteral, Comma, RBrack, Eof]);
    let allowed = parse_json(&input, JsonParserOptions { allow_trailing_commas: true });
    let expected = vec![
        s(JsonRoot),
        s(JsonArrayValue),
        t(LBrack, 0),
        s(JsonArrayElementList),
        s(JsonNumberValue),
        t(JsonNumberLiteral, 1),
        F,
        t(Comma, 2),
        F,
        t(RBrack, 3),
        F,
        F,
    ];
    assert_eq!(allowed.events, expected);
    assert!(allowed.diagnostics.is_empty());

    let refused = parse_json(&input, JsonParserOptions::default());
    assert_eq!(refused.events, expected);
    assert_eq!(refused.diagnostics, vec![diagnostic(JsonDiagnosticKind::ExpectedValue, 3, 4)]);
}

#[test]
fn a_missing_closing_bracket_is_reported() {
    let (events, diagnostics) = parse(&[LBrack, JsonNumberLiteral, Eof]);
    assert_eq!(events.len(), 10);
    assert_eq!(
        diagnostics,
        vec![diagnostic(JsonDiagnosticKind::ExpectedToken(RBrack), 2, 3)]
    );
}

#[test]
fn a_missing_comma_is_reported() {
    let (events, diagnostics) = parse(&[LBrack, JsonNumberLiteral, JsonNumberLiteral, RBrack, Eof]);
    assert_eq!(events.iter().filter(|e| matches!(e, JsonEvent::Token { .. })).count(), 4);
    assert_eq!(diagnostics, vec![diagnostic(JsonDiagnosticKind::ExpectedToken(Comma), 2, 3)]);
}

#[test]
fn an_unquoted_string_is_a_bogus_value() {
    let (events, diagnostics) = parse(&[LBrack, Ident, RBrack, Eof]);
    assert_eq!(&events[4..7], &[s(JsonBogusValue), t(Ident, 1), F]);
    assert_eq!(diagnostics, vec![diagnostic(JsonDiagnosticKind::UnquotedString, 1, 2)]);
}

#[test]
fn recovery_skips_to_a_value() {
    let (events, diagnostics) = parse(&[LBrack, Colon, Colon, JsonNumberLiteral, RBrack, Eof]);
    assert_eq!(
        events,
        vec![
            s(JsonRoot),
            s(JsonArrayValue),
            t(LBrack, 0),
            s(JsonArrayElementList),
            s(JsonBogusValue),
            t(Colon, 1),
            t(Colon, 2),
            F,
            s(JsonNumberValue),
            t(JsonNumberLiteral, 3),
            F,
            F,
            t(RBrack, 4),
            F,
            F,
        ]
    );
    assert_eq!(
        diagnostics,
        vec![
            diagnostic(JsonDiagnosticKind::ExpectedValue, 1, 3),
            diagnostic(JsonDiagnosticKind::ExpectedToken(Comma), 3, 4),
        ]
    );
}

#[test]
fn valid_json_parses_without_diagnostics() {
    let (events, diagnostics) = parse(&[
        LCurly,
        JsonStringLiteral,
        Colon,
        LBrack,
        JsonNumberLiteral,
        Comma,
        LCurly,
        JsonStringLiteral,
        Colon,
        NullKw,
        RCurly,
        RBrack,
        Comma,
        JsonStringLiteral,
        Colon,
        TrueKw,
        Comma,
        JsonStringLiteral,
        Colon,
        FalseKw,
        RCurly,
        Eof,
    ]);
    assert!(diagnostics.is_empty());
    let indices: Vec<usize> = events
        .iter()
        .filter_map(|e| match e {
            JsonEvent::Token { index, .. } => Some(*index),
            _ => None,
        })
        .collect();
    assert_eq!(indices, (0..21).collect::<Vec<_>>());
}

#[test]
fn a_missing_first_item_before_a_comma_is_reported() {
    let (events, diagnostics) = parse(&[LBrack, Comma, JsonNumberLiteral, RBrack, Eof]);
    assert_eq!(
        events,
        vec![
            s(JsonRoot),
            s(JsonArrayValue),
            t(LBrack, 0),
            s(JsonArrayElementList),
            t(Comma, 1),
            s(JsonNumberValue),
            t(JsonNumberLiteral, 2),
            F,
            F,
            t(RBrack, 3),
            F,
            F,
        ]
    );
    assert_eq!(diagnostics, vec![diagnostic(JsonDiagnosticKind::ExpectedValue, 1, 2)]);
}

#[test]
fn a_member_without_a_name_is_reported() {
    let (events, diagnostics) = parse(&[LCurly, Colon, JsonNumberLiteral, RCurly, Eof]);
    assert_eq!(
        events,
        vec![
            s(JsonRoot),
            s(JsonObjectValue),
            t(LCurly, 0),
            s(JsonMemberList),
            s(JsonMember),
            t(Colon, 1),
            s(JsonNumberValue),
            t(JsonNumberLiteral, 2),
            F,
            F,
            F,
            t(RCurly, 3),
            F,
            F,
        ]
    );
    assert_eq!(diagnostics, vec![diagnostic(JsonDiagnosticKind::ExpectedProperty, 1, 2)]);
}

#[test]
fn a_byte_order_mark_comes_first() {
    let (events, diagnostics) = parse(&[UnicodeBom, NullKw, Eof]);
    assert_eq!(events, vec![s(JsonRoot), t(UnicodeBom, 0), s(JsonNullValue), t(NullKw, 1), F, F]);
    assert!(diagnostics.is_empty());
}

#[test]
fn one_diagnostic_per_token() {
    let (events, diagnostics) = parse(&[LCurly, Comma, RCurly, Eof]);
    assert_eq!(
        events,
        vec![s(JsonRoot), s(JsonObjectValue), t(LCurly, 0), s(JsonMemberList), t(Comma, 1), F, t(RCurly, 2), F, F]
    );
    assert_eq!(
        diagnostics,
        vec![
            diagnostic(JsonDiagnosticKind::ExpectedProperty, 1, 2),
            diagnostic(JsonDiagnosticKind::ExpectedProperty, 2, 3),
        ]
    );
}

#[test]
fn an_erroneous_token_is_a_value_reported_by_the_lexer() {
    let (events, diagnostics) = parse(&[LBrack, JsonSyntaxKind::ErrorToken, RBrack, Eof]);
    assert_eq!(&events[4..7], &[s(JsonBogusValue), t(JsonSyntaxKind::ErrorToken, 1), F]);
    assert!(diagnostics.is_empty());
}

#[test]
fn trailing_commas_let_a_member_without_a_name_follow_a_comma() {
    let kinds = [LCurly, JsonStringLiteral, Colon, JsonNumberLiteral, Comma, Colon, JsonNumberLiteral, RCurly, Eof];
    let options = JsonParserOptions { allow_trailing_commas: true };
    let parse = parse_json(&tokens(&kinds), options);
    assert!(parse.diagnostics.is_empty());
    let strict = parse_json(&tokens(&kinds), JsonParserOptions::default());
    assert_eq!(strict.diagnostics, vec![diagnostic(JsonDiagnosticKind::ExpectedProperty, 5, 6)]);
}
