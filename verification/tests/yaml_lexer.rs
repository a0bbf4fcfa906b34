use biome_text::yaml_lexer::{LexDiagnostic, LexDiagnosticKind, YamlLexer};
use biome_text::yaml_scope::YamlSyntaxKind;
use biome_text::yaml_scope::YamlSyntaxKind::{
    Colon, Comma, Comment, Dash, DoubleQuotedLiteral, Eof, ErrorToken, FlowEnd, FlowStart, LBrack,
    MappingEnd, MappingStart, Newline, PlainLiteral, RBrack, SequenceEnd, SequenceStart,
    SingleQuotedLiteral, Tombstone, Whitespace,
};

fn lex(source: &str) -> Vec<(YamlSyntaxKind, usize, usize)> {
    let mut lexer = YamlLexer::from_str(source);
    let mut tokens = Vec::new();
    loop {
        let kind = lexer.next_token();
        let (start, end) = lexer.current_range();
        tokens.push((kind, start, end));
        if kind == Eof {
            break;
        }
    }
    tokens
}

fn kinds(source: &str) -> Vec<YamlSyntaxKind> {
    lex(source).into_iter().map(|(kind, _, _)| kind).collect()
}

#[test]
fn lexes_a_block_mapping() {
    assert_eq!(
        lex("a: b"),
        vec![
            (MappingStart, 0, 0),
            (PlainLiteral, 0, 1),
            (Colon, 1, 2),
            (Whitespace, 2, 3),
            (FlowStart, 3, 3),
            (PlainLiteral, 3, 4),
            (FlowEnd, 4, 4),
            (MappingEnd, 4, 4),
            (Eof, 4, 4),
        ]
    );
}

#[test]
fn lexes_a_flow_sequence() {
    assert_eq!(
        lex("[a, b]"),
        vec![
            (FlowStart, 0, 0),
            (LBrack, 0, 1),
            (PlainLiteral, 1, 2),
            (Comma, 2, 3),
            (Whitespace, 3, 4),
            (PlainLiteral, 4, 5),
            (RBrack, 5, 6),
            (FlowEnd, 6, 6),
            (Eof, 6, 6),
        ]
    );
}

#[test]
fn lexes_a_block_sequence() {
    assert_eq!(
        kinds("- a\n- b"),
        vec![
            SequenceStart,
            Dash,
            Whitespace,
            FlowStart,
            PlainLiteral,
            FlowEnd,
            Newline,
            Dash,
            Whitespace,
            FlowStart,
            PlainLiteral,
            FlowEnd,
            SequenceEnd,
            Eof,
        ]
    );
}

#[test]
fn a_dedent_closes_the_inner_mapping() {
    assert_eq!(
        kinds("a:\n  b: c\nd: e"),
        vec![
            MappingStart,
            PlainLiteral,
            Colon,
            Newline,
            MappingStart,
            PlainLiteral,
            Colon,
            Whitespace,
            FlowStart,
            PlainLiteral,
            FlowEnd,
            Newline,
            MappingEnd,
            PlainLiteral,
            Colon,
            Whitespace,
            FlowStart,
            PlainLiteral,
            FlowEnd,
            MappingEnd,
            Eof,
        ]
    );
}

#[test]
fn a_flow_collection_can_be_a_key() {
    assert_eq!(
        kinds("[a]: b"),
        vec![
            MappingStart,
            LBrack,
            PlainLiteral,
            RBrack,
            Colon,
            Whitespace,
            FlowStart,
            PlainLiteral,
            FlowEnd,
            MappingEnd,
            Eof,
        ]
    );
}

#[test]
fn lexes_quoted_scalars_and_comments() {
    assert_eq!(
        lex("'it''s' \"a\\\"b\" # note"),
        vec![
            (SingleQuotedLiteral, 0, 7),
            (Whitespace, 7, 8),
            (DoubleQuotedLiteral, 8, 14),
            (Whitespace, 14, 15),
            (Comment, 15, 21),
            (Eof, 21, 21),
        ]
    );
}

#[test]
fn an_unterminated_quote_runs_to_the_end() {
    assert_eq!(lex("\"abc"), vec![(DoubleQuotedLiteral, 0, 4), (Eof, 4, 4)]);
    assert_eq!(lex("'abc"), vec![(SingleQuotedLiteral, 0, 4), (Eof, 4, 4)]);
}

#[test]
fn crlf_is_one_line_break() {
    assert_eq!(lex("\r\n"), vec![(Newline, 0, 2), (Eof, 2, 2)]);
}

#[test]
fn reports_unexpected_characters() {
    let mut lexer = YamlLexer::from_str("@");
    assert_eq!(lexer.next_token(), ErrorToken);
    assert_eq!(lexer.current_range(), (0, 1));
    assert_eq!(lexer.next_token(), Eof);
    assert_eq!(
        lexer.finish(),
        vec![LexDiagnostic { kind: LexDiagnosticKind::UnexpectedCharacter, start: 0, end: 1 }]
    );
}

#[test]
fn reports_non_standard_whitespace() {
    let mut lexer = YamlLexer::from_str(" \u{c}\ta");
    assert_eq!(lexer.next_token(), Whitespace);
    assert_eq!(lexer.current_range(), (0, 3));
    assert_eq!(
        lexer.finish(),
        vec![LexDiagnostic { kind: LexDiagnosticKind::NonStandardWhitespace, start: 1, end: 2 }]
    );
}

#[test]
fn a_multibyte_character_is_lexed_whole() {
    assert_eq!(
        lex("é: ü"),
        vec![
            (MappingStart, 0, 0),
            (PlainLiteral, 0, 2),
            (Colon, 2, 3),
            (Whitespace, 3, 4),
            (FlowStart, 4, 4),
            (PlainLiteral, 4, 6),
            (FlowEnd, 6, 6),
            (MappingEnd, 6, 6),
            (Eof, 6, 6),
        ]
    );
}

#[test]
fn the_lexer_keeps_returning_the_end() {
    let mut lexer = YamlLexer::from_str("");
    assert_eq!(lexer.current(), Tombstone);
    assert_eq!(lexer.next_token(), Eof);
    assert_eq!(lexer.next_token(), Eof);
    assert_eq!(lexer.current_start(), 0);
    assert_eq!(lexer.position(), 0);
    assert_eq!(lexer.source(), "");
    assert!(!lexer.has_preceding_line_break());
    assert!(!lexer.has_unicode_escape());
    assert!(lexer.finish().is_empty());
}

#[test]
fn a_plain_scalar_can_hold_spaces() {
    assert_eq!(
        lex("a bc: x yz"),
        vec![
            (MappingStart, 0, 0),
            (PlainLiteral, 0, 4),
            (Colon, 4, 5),
            (Whitespace, 5, 6),
            (FlowStart, 6, 6),
            (PlainLiteral, 6, 10),
            (FlowEnd, 10, 10),
            (MappingEnd, 10, 10),
            (Eof, 10, 10),
        ]
    );
}

#[test]
fn the_tokens_follow_one_another_through_the_text() {
    let sources = [
        "a: b\nc:\n  - d\n  - [e, {f: g}]\n? h\n",
        "[a, b]: c\n# comment\n'x' \"y\"\r\n  z",
        "- a\n-\n  - b\n@\u{a0}",
    ];
    for source in sources {
        let tokens = lex(source);
        let mut at = 0;
        for &(_, start, end) in &tokens {
            assert_eq!(start, at);
            assert!(start <= end);
            at = end;
        }
        assert_eq!(at, source.len());
    }
}
