//! A lexer for YAML: it turns the source text into tokens, opening and
//! closing block collections as the indentation goes.

use vstd::prelude::*;

use crate::yaml_scope::{
    LexScope, LexToken, TextCoordinate, YamlSyntaxKind, borders_bounded, break_byte, flow_indicator_byte,
    indicator_byte, is_break, is_flow, is_space, lemma_advance_char, lemma_after_ascii_boundary,
    lemma_boundary_at, non_space_byte,
    plain_safe_byte, scope_close_token, scope_contains, space_byte, utf8_width, utf8_width_of,
    enters_mapping, enters_sequence, flow_scope_in, is_key_of, is_whitespace, whitespace_byte,
};
use vstd::string::StringSliceAdditionalSpecFns;
use vstd::utf8::{is_char_boundary, valid_utf8};

verus! {

broadcast use vstd::utf8::encode_utf8_valid_utf8;

/// What a lexing diagnostic reports.
#[derive(Clone, Copy, Debug, PartialEq, Eq, Structural)]
pub enum LexDiagnosticKind {
    /// A character that starts no token.
    UnexpectedCharacter,
    /// A whitespace character other than a space or a tab.
    NonStandardWhitespace,
}

/// A diagnostic emitted while lexing, with the byte range it is about.
#[derive(Clone, Copy, Debug, PartialEq, Eq, Structural)]
pub struct LexDiagnostic {
    pub kind: LexDiagnosticKind,
    pub start: usize,
    pub end: usize,
}

/// Whether every scope of `scopes` has borders and nesting counts that do not
/// exceed `offset`.
pub open spec fn scopes_bounded(scopes: Seq<LexScope>, offset: int) -> bool {
    forall|i: int| 0 <= i < scopes.len() ==> #[trigger] scope_bounded(scopes[i], offset)
}

/// Whether the border or nesting count of `scope` does not exceed `offset`.
pub open spec fn scope_bounded(scope: LexScope, offset: int) -> bool {
    match scope {
        LexScope::Document => true,
        LexScope::BlockSequence(border) => border <= offset,
        LexScope::BlockMap(border) => border <= offset,
        LexScope::FlowCollection { num_nested, .. } => num_nested <= offset,
    }
}

/// Whether every token of `tokens` lies between the offsets `from` and `to`.
pub open spec fn tokens_between(tokens: Seq<LexToken>, from: int, to: int) -> bool {
    forall|i: int| 0 <= i < tokens.len() ==> from <= (#[trigger] tokens[i]).start.offset
        && tokens[i].start.offset <= tokens[i].end.offset && tokens[i].end.offset <= to
}

/// The end of a comment that starts at `i`: the next line feed, or the end.
pub open spec fn comment_end(bytes: Seq<u8>, i: int) -> int
    decreases bytes.len() - i,
{
    if i < 0 || i >= bytes.len() {
        bytes.len() as int
    } else if bytes[i] == 0x0a {
        i
    } else {
        comment_end(bytes, i + 1)
    }
}

/// The end of a double-quoted scalar whose content starts at `i`: after the
/// first `"` that no `\\` escapes, or the end.
pub open spec fn double_quoted_end(bytes: Seq<u8>, i: int) -> int
    decreases bytes.len() - i,
{
    if i < 0 || i >= bytes.len() {
        bytes.len() as int
    } else if bytes[i] == 0x5c {
        if i + 1 < bytes.len() && bytes[i + 1] == 0x22 {
            double_quoted_end(bytes, i + 2)
        } else {
            double_quoted_end(bytes, i + 1)
        }
    } else if bytes[i] == 0x22 {
        i + 1
    } else {
        double_quoted_end(bytes, i + 1)
    }
}

/// The end of a run of whitespace that starts at `i`: spaces, tabs and
/// other whitespace characters up to a line break or another character.
pub open spec fn whitespaces_end(bytes: Seq<u8>, i: int) -> int
    decreases bytes.len() - i,
{
    if i < 0 || i >= bytes.len() {
        bytes.len() as int
    } else if !whitespace_byte(bytes[i]) || break_byte(bytes[i]) {
        i
    } else {
        whitespaces_end(bytes, i + 1)
    }
}

/// The diagnostic about a whitespace character other than a space or a tab at `i`.
pub open spec fn whitespace_diagnostic(i: int) -> LexDiagnostic {
    LexDiagnostic { kind: LexDiagnosticKind::NonStandardWhitespace, start: i as usize, end: (i + 1) as usize }
}

/// The diagnostics of a run of whitespace that starts at `i`: one for each
/// whitespace character other than a space or a tab.
pub open spec fn whitespace_diagnostics(bytes: Seq<u8>, i: int) -> Seq<LexDiagnostic>
    decreases bytes.len() - i,
{
    if i < 0 || i >= bytes.len() || !whitespace_byte(bytes[i]) || break_byte(bytes[i]) {
        Seq::empty()
    } else if space_byte(bytes[i]) {
        whitespace_diagnostics(bytes, i + 1)
    } else {
        seq![whitespace_diagnostic(i)] + whitespace_diagnostics(bytes, i + 1)
    }
}

pub proof fn lemma_whitespaces_end(bytes: Seq<u8>, i: int)
    requires
        0 <= i <= bytes.len(),
    ensures
        i <= whitespaces_end(bytes, i) <= bytes.len(),
        i < bytes.len() && space_byte(bytes[i]) ==> i < whitespaces_end(bytes, i),
        forall|j: int| i <= j < whitespaces_end(bytes, i) ==> #[trigger] bytes[j] < 0x80,
    decreases bytes.len() - i,
{
    if i < bytes.len() && whitespace_byte(bytes[i]) && !break_byte(bytes[i]) {
        lemma_whitespaces_end(bytes, i + 1);
    }
}

/// The end of the line break at `i`: `\r\n` counts as one line break.
pub open spec fn newline_end(bytes: Seq<u8>, i: int) -> int {
    if bytes[i] == 0x0d && i + 1 < bytes.len() && bytes[i + 1] == 0x0a {
        i + 2
    } else {
        i + 1
    }
}

/// Blanks from `i` on: the position and column where they end, and whether
/// they hold a line break, from the column `column` and `newline` so far.
pub open spec fn blank_scan(bytes: Seq<u8>, i: int, column: int, newline: bool) -> (int, int, bool)
    decreases bytes.len() - i,
{
    if i < 0 || i >= bytes.len() {
        (i, column, newline)
    } else if space_byte(bytes[i]) {
        proof {
            lemma_whitespaces_end(bytes, i);
        }
        let end = whitespaces_end(bytes, i);
        blank_scan(bytes, end, column + (end - i), newline)
    } else if break_byte(bytes[i]) {
        blank_scan(bytes, newline_end(bytes, i), 0, true)
    } else {
        (i, column, newline)
    }
}

/// The diagnostics of the blanks from `i` on.
pub open spec fn blank_diagnostics(bytes: Seq<u8>, i: int) -> Seq<LexDiagnostic>
    decreases bytes.len() - i,
{
    if i < 0 || i >= bytes.len() {
        Seq::empty()
    } else if space_byte(bytes[i]) {
        proof {
            lemma_whitespaces_end(bytes, i);
        }
        whitespace_diagnostics(bytes, i) + blank_diagnostics(bytes, whitespaces_end(bytes, i))
    } else if break_byte(bytes[i]) {
        blank_diagnostics(bytes, newline_end(bytes, i))
    } else {
        Seq::empty()
    }
}

/// The scopes that a line starting at `column` leaves, innermost first: the
/// innermost scopes that do not contain the column.
pub open spec fn exited_scopes(scopes: Seq<LexScope>, column: usize) -> Seq<LexScope>
    decreases scopes.len(),
{
    if scopes.len() == 0 || scope_contains(scopes.last(), column) {
        Seq::empty()
    } else {
        seq![scopes.last()] + exited_scopes(scopes.drop_last(), column)
    }
}

/// The scopes that remain when a line starts at `column`.
pub open spec fn remaining_scopes(scopes: Seq<LexScope>, column: usize) -> Seq<LexScope>
    decreases scopes.len(),
{
    if scopes.len() == 0 || scope_contains(scopes.last(), column) {
        scopes
    } else {
        remaining_scopes(scopes.drop_last(), column)
    }
}

/// The tokens that close `scopes`, in order, all at `at`.
pub open spec fn close_tokens(scopes: Seq<LexScope>, at: TextCoordinate) -> Seq<LexToken>
    decreases scopes.len(),
{
    if scopes.len() == 0 {
        Seq::empty()
    } else {
        (match scope_close_token(scopes[0]) {
            Some(kind) => seq![LexToken { kind, start: at, end: at }],
            None => Seq::empty(),
        }) + close_tokens(scopes.drop_first(), at)
    }
}

/// Whether a `:` at `i` is a mapping indicator: it is followed by a blank or the end.
pub open spec fn at_mapping_indicator(bytes: Seq<u8>, i: int) -> bool {
    &&& 0 <= i < bytes.len()
    &&& bytes[i] == 0x3a
    &&& (i + 1 >= bytes.len() || break_byte(bytes[i + 1]) || space_byte(bytes[i + 1]))
}

/// Whether the byte at `i` may start a plain scalar in `scope` (`ns-plain-first`).
pub open spec fn plain_first_at(bytes: Seq<u8>, i: int, scope: LexScope) -> bool {
    let c = bytes[i];
    ||| (non_space_byte(c) && !indicator_byte(c))
    ||| ((c == 0x3f || c == 0x3a || c == 0x2d) && i + 1 < bytes.len() && plain_safe_byte(bytes[i + 1], scope))
}

/// The end of the line of a plain scalar from `i` on, in `scope`.
pub open spec fn plain_line_end(bytes: Seq<u8>, i: int, scope: LexScope) -> int
    decreases bytes.len() + 4 - i,
{
    if i < 0 || i >= bytes.len() {
        i
    } else {
        let c = bytes[i];
        proof {
            crate::yaml_scope::lemma_utf8_width_bounds(c);
            if i + 1 < bytes.len() {
                crate::yaml_scope::lemma_utf8_width_bounds(bytes[i + 1]);
            }
        }
        if plain_safe_byte(c, scope) && c != 0x3a && c != 0x23 {
            plain_line_end(bytes, i + utf8_width(c), scope)
        } else if non_space_byte(c) && i + 1 < bytes.len() && bytes[i + 1] == 0x23 {
            plain_line_end(bytes, i + utf8_width(c) + 1, scope)
        } else if c == 0x3a && i + 1 < bytes.len() && plain_safe_byte(bytes[i + 1], scope) {
            plain_line_end(bytes, i + 1 + utf8_width(bytes[i + 1]), scope)
        } else if space_byte(c) {
            plain_line_end(bytes, i + 1, scope)
        } else {
            i
        }
    }
}

pub proof fn lemma_plain_line_end_after(bytes: Seq<u8>, i: int, scope: LexScope)
    requires
        0 <= i,
    ensures
        i <= plain_line_end(bytes, i, scope),
    decreases bytes.len() + 4 - i,
{
    if i < bytes.len() {
        let c = bytes[i];
        crate::yaml_scope::lemma_utf8_width_bounds(c);
        if i + 1 < bytes.len() {
            crate::yaml_scope::lemma_utf8_width_bounds(bytes[i + 1]);
        }
        if plain_safe_byte(c, scope) && c != 0x3a && c != 0x23 {
            lemma_plain_line_end_after(bytes, i + utf8_width(c), scope);
        } else if non_space_byte(c) && i + 1 < bytes.len() && bytes[i + 1] == 0x23 {
            lemma_plain_line_end_after(bytes, i + utf8_width(c) + 1, scope);
        } else if c == 0x3a && i + 1 < bytes.len() && plain_safe_byte(bytes[i + 1], scope) {
            lemma_plain_line_end_after(bytes, i + 1 + utf8_width(bytes[i + 1]), scope);
        } else if space_byte(c) {
            lemma_plain_line_end_after(bytes, i + 1, scope);
        }
    }
}

/// How far a scope is from being a flow collection: the lexer at a flow
/// indicator outside a flow collection first enters one.
pub open spec fn flow_rank(scope: LexScope) -> int {
    if is_flow(scope) {
        0
    } else {
        2
    }
}

/// The tokens that close the scopes `scopes`, innermost first, all at `at`.
pub open spec fn closing_tokens(scopes: Seq<LexScope>, at: TextCoordinate) -> Seq<LexToken> {
    close_tokens(scopes.reverse(), at)
}

pub proof fn lemma_closing_tokens_at(scopes: Seq<LexScope>, at: TextCoordinate)
    ensures
        forall|k: int| 0 <= k < closing_tokens(scopes, at).len() ==>
            (#[trigger] closing_tokens(scopes, at)[k]).start == at && closing_tokens(scopes, at)[k].end == at,
{
    lemma_close_tokens_at(scopes.reverse(), at);
}

proof fn lemma_close_tokens_at(scopes: Seq<LexScope>, at: TextCoordinate)
    ensures
        forall|k: int| 0 <= k < close_tokens(scopes, at).len() ==>
            (#[trigger] close_tokens(scopes, at)[k]).start == at && close_tokens(scopes, at)[k].end == at,
    decreases scopes.len(),
{
    if scopes.len() > 0 {
        lemma_close_tokens_at(scopes.drop_first(), at);
        let head: Seq<LexToken> = match scope_close_token(scopes[0]) {
            Some(kind) => seq![LexToken { kind, start: at, end: at }],
            None => Seq::empty(),
        };
        let tail = close_tokens(scopes.drop_first(), at);
        assert(close_tokens(scopes, at) == head + tail);
        assert forall|k: int| 0 <= k < close_tokens(scopes, at).len() implies
            (#[trigger] close_tokens(scopes, at)[k]).start == at && close_tokens(scopes, at)[k].end == at by {
            if k >= head.len() {
                assert(close_tokens(scopes, at)[k] == tail[k - head.len()]);
            }
        }
    }
}

/// The end of a single-quoted scalar whose content starts at `i`: after the
/// first `'` that is not doubled, or the end.
pub open spec fn single_quoted_end(bytes: Seq<u8>, i: int) -> int
    decreases bytes.len() - i,
{
    if i < 0 || i >= bytes.len() {
        bytes.len() as int
    } else if bytes[i] == 0x27 {
        if i + 1 < bytes.len() && bytes[i + 1] == 0x27 {
            single_quoted_end(bytes, i + 2)
        } else {
            i + 1
        }
    } else {
        single_quoted_end(bytes, i + 1)
    }
}

proof fn lemma_framed_between(inner: Seq<LexToken>, framed: Seq<LexToken>, start: TextCoordinate, end: TextCoordinate)
    requires
        start.offset <= end.offset,
        tokens_between(inner, start.offset as int, end.offset as int),
        framed == seq![LexToken { kind: YamlSyntaxKind::FlowStart, start, end: start }] + inner
            + seq![LexToken { kind: YamlSyntaxKind::FlowEnd, start: end, end }],
    ensures
        tokens_between(framed, start.offset as int, end.offset as int),
{
    assert forall|k: int| 0 <= k < framed.len() implies start.offset <= (#[trigger] framed[k]).start.offset
        && framed[k].start.offset <= framed[k].end.offset && framed[k].end.offset <= end.offset by {
        if 0 < k < framed.len() - 1 {
            assert(framed[k] == inner[k - 1]);
        }
    }
}

proof fn lemma_comment_end(bytes: Seq<u8>, i: int)
    requires
        0 <= i <= bytes.len(),
    ensures
        i <= comment_end(bytes, i) <= bytes.len(),
    decreases bytes.len() - i,
{
    if i < bytes.len() && bytes[i] != 0x0a {
        lemma_comment_end(bytes, i + 1);
    }
}

proof fn lemma_double_quoted_end(bytes: Seq<u8>, i: int)
    requires
        0 <= i <= bytes.len(),
    ensures
        i <= double_quoted_end(bytes, i) <= bytes.len(),
    decreases bytes.len() - i,
{
    if i < bytes.len() {
        if bytes[i] == 0x5c {
            if i + 1 < bytes.len() && bytes[i + 1] == 0x22 {
                lemma_double_quoted_end(bytes, i + 2);
            } else {
                lemma_double_quoted_end(bytes, i + 1);
            }
        } else if bytes[i] != 0x22 {
            lemma_double_quoted_end(bytes, i + 1);
        }
    }
}

proof fn lemma_single_quoted_end(bytes: Seq<u8>, i: int)
    requires
        0 <= i <= bytes.len(),
    ensures
        i <= single_quoted_end(bytes, i) <= bytes.len(),
    decreases bytes.len() - i,
{
    if i < bytes.len() {
        if bytes[i] == 0x27 {
            if i + 1 < bytes.len() && bytes[i + 1] == 0x27 {
                lemma_single_quoted_end(bytes, i + 2);
            }
        } else {
            lemma_single_quoted_end(bytes, i + 1);
        }
    }
}

proof fn lemma_blank_scan_progress(bytes: Seq<u8>, i: int, column: int, newline: bool)
    requires
        0 <= i <= bytes.len(),
    ensures
        i <= blank_scan(bytes, i, column, newline).0,
        i < bytes.len() && (space_byte(bytes[i]) || break_byte(bytes[i])) ==> i < blank_scan(bytes, i, column, newline).0,
    decreases bytes.len() - i,
{
    if i < bytes.len() {
        if space_byte(bytes[i]) {
            lemma_whitespaces_end(bytes, i);
            let end = whitespaces_end(bytes, i);
            lemma_blank_scan_progress(bytes, end, column + (end - i), newline);
        } else if break_byte(bytes[i]) {
            lemma_blank_scan_progress(bytes, newline_end(bytes, i), 0, true);
        }
    }
}

/// What the lexer carries from one token to the next: its position, the
/// scopes it is in (innermost last) and the diagnostics so far.
pub struct LexState {
    pub coordinate: TextCoordinate,
    pub scopes: Seq<LexScope>,
    pub diagnostics: Seq<LexDiagnostic>,
}

/// The scope of a lexer in `scopes`: the innermost one, or the document.
pub open spec fn scope_of(scopes: Seq<LexScope>) -> LexScope {
    if scopes.len() == 0 {
        LexScope::Document
    } else {
        scopes.last()
    }
}

/// `st` moved forward on the same line to the offset `end`.
pub open spec fn moved_to(st: LexState, end: int) -> LexState {
    LexState {
        coordinate: TextCoordinate {
            offset: end as usize,
            column: (st.coordinate.column + (end - st.coordinate.offset)) as usize,
        },
        scopes: st.scopes,
        diagnostics: st.diagnostics,
    }
}

/// A single token of kind `kind` up to the offset `end`.
pub open spec fn token_step(st: LexState, kind: YamlSyntaxKind, end: int) -> (Seq<LexToken>, LexState) {
    let next = moved_to(st, end);
    (seq![LexToken { kind, start: st.coordinate, end: next.coordinate }], next)
}

/// Lexing a `-`, which opens a block sequence where the scope admits one.
pub open spec fn dash_step(st: LexState) -> (Seq<LexToken>, LexState) {
    let start = st.coordinate;
    let next = moved_to(st, start.offset + 1);
    let dash = LexToken { kind: YamlSyntaxKind::Dash, start, end: next.coordinate };
    if enters_sequence(scope_of(st.scopes), start.column) {
        (seq![LexToken { kind: YamlSyntaxKind::SequenceStart, start, end: start }, dash],
            LexState { scopes: st.scopes.push(LexScope::BlockSequence(start.column)), ..next })
    } else {
        (seq![dash], next)
    }
}

/// Lexing a `?`, which opens a block mapping where the scope admits one.
pub open spec fn question_step(st: LexState) -> (Seq<LexToken>, LexState) {
    let start = st.coordinate;
    let next = moved_to(st, start.offset + 1);
    let question = LexToken { kind: YamlSyntaxKind::Question, start, end: next.coordinate };
    if enters_mapping(scope_of(st.scopes), start.column) {
        (seq![LexToken { kind: YamlSyntaxKind::MappingStart, start, end: start }, question],
            LexState { scopes: st.scopes.push(LexScope::BlockMap(start.column)), ..next })
    } else {
        (seq![question], next)
    }
}

/// Lexing a character that starts no token: an error token and a diagnostic.
pub open spec fn unexpected_step(b: Seq<u8>, st: LexState) -> (Seq<LexToken>, LexState) {
    let start = st.coordinate;
    let width = utf8_width(b[start.offset as int]);
    let next = moved_to(st, start.offset + width);
    (seq![LexToken { kind: YamlSyntaxKind::ErrorToken, start, end: next.coordinate }],
        LexState {
            diagnostics: st.diagnostics.push(LexDiagnostic {
                kind: LexDiagnosticKind::UnexpectedCharacter,
                start: start.offset,
                end: (start.offset + width) as usize,
            }),
            ..next
        })
}

/// Lexing blanks: whitespace within a line, or line breaks, after which the
/// scopes that the new line leaves are closed.
pub open spec fn blank_step(b: Seq<u8>, st: LexState) -> (Seq<LexToken>, LexState) {
    let start = st.coordinate;
    let scan = blank_scan(b, start.offset as int, start.column as int, false);
    let here = TextCoordinate { offset: scan.0 as usize, column: scan.1 as usize };
    let diagnostics = st.diagnostics + blank_diagnostics(b, start.offset as int);
    if scan.2 {
        (seq![LexToken { kind: YamlSyntaxKind::Newline, start, end: here }]
            + close_tokens(exited_scopes(st.scopes, here.column), here),
            LexState { coordinate: here, scopes: remaining_scopes(st.scopes, here.column), diagnostics })
    } else {
        (seq![LexToken { kind: YamlSyntaxKind::Whitespace, start, end: here }],
            LexState { coordinate: here, scopes: st.scopes, diagnostics })
    }
}

/// Lexing a plain scalar: it opens a block mapping when a mapping indicator
/// follows it where the scope admits one; one that is neither a key nor in a
/// flow collection is a flow node of its own.
pub open spec fn plain_step(b: Seq<u8>, st: LexState) -> (Seq<LexToken>, LexState) {
    let start = st.coordinate;
    let scope = scope_of(st.scopes);
    let next = moved_to(st, plain_line_end(b, start.offset + utf8_width(b[start.offset as int]), scope));
    let end = next.coordinate;
    let plain = LexToken { kind: YamlSyntaxKind::PlainLiteral, start, end };
    if enters_mapping(scope, start.column) && at_mapping_indicator(b, end.offset as int) {
        (seq![LexToken { kind: YamlSyntaxKind::MappingStart, start, end: start }, plain],
            LexState { scopes: st.scopes.push(LexScope::BlockMap(start.column)), ..next })
    } else if is_key_of(scope, start.column) || is_flow(scope) {
        (seq![plain], next)
    } else {
        (seq![
            LexToken { kind: YamlSyntaxKind::FlowStart, start, end: start },
            plain,
            LexToken { kind: YamlSyntaxKind::FlowEnd, start: end, end },
        ], next)
    }
}

/// The kind of the token of a flow indicator.
pub open spec fn flow_indicator_kind(c: u8) -> YamlSyntaxKind {
    if c == 0x5b {
        YamlSyntaxKind::LBrack
    } else if c == 0x5d {
        YamlSyntaxKind::RBrack
    } else if c == 0x7b {
        YamlSyntaxKind::LCurly
    } else {
        YamlSyntaxKind::RCurly
    }
}

/// Lexing the next tokens from `st`. At the end of the text, every scope is
/// closed, innermost first, and the end of the file comes last.
pub open spec fn lex_step(b: Seq<u8>, st: LexState) -> (Seq<LexToken>, LexState)
    decreases b.len() - st.coordinate.offset, flow_rank(scope_of(st.scopes)), 2int,
{
    let i = st.coordinate.offset as int;
    let here = st.coordinate;
    if i >= b.len() {
        (closing_tokens(st.scopes, here).push(LexToken { kind: YamlSyntaxKind::Eof, start: here, end: here }),
            LexState { scopes: Seq::empty(), ..st })
    } else {
        let c = b[i];
        if plain_first_at(b, i, scope_of(st.scopes)) {
            plain_step(b, st)
        } else if c == 0x3a {
            token_step(st, YamlSyntaxKind::Colon, i + 1)
        } else if c == 0x2c {
            token_step(st, YamlSyntaxKind::Comma, i + 1)
        } else if c == 0x23 {
            token_step(st, YamlSyntaxKind::Comment, comment_end(b, i))
        } else if c == 0x27 {
            token_step(st, YamlSyntaxKind::SingleQuotedLiteral, single_quoted_end(b, i + 1))
        } else if c == 0x22 {
            token_step(st, YamlSyntaxKind::DoubleQuotedLiteral, double_quoted_end(b, i + 1))
        } else if flow_indicator_byte(c) && c != 0x2c {
            flow_step(b, st)
        } else if c == 0x3f {
            question_step(st)
        } else if c == 0x2d {
            dash_step(st)
        } else if space_byte(c) || break_byte(c) {
            blank_step(b, st)
        } else {
            unexpected_step(b, st)
        }
    }
}

/// Lexing a flow indicator at `st`. Inside a flow collection, it counts the
/// nesting. Outside, it enters a flow collection and lexes it whole: the
/// collection is a flow node of its own, or the key of a new block mapping
/// when a mapping indicator follows it.
pub open spec fn flow_step(b: Seq<u8>, st: LexState) -> (Seq<LexToken>, LexState)
    decreases b.len() - st.coordinate.offset, flow_rank(scope_of(st.scopes)), 1int,
{
    let start = st.coordinate;
    let c = b[start.offset as int];
    if st.scopes.len() > 0 && st.scopes.last() is FlowCollection {
        let last = st.scopes.last();
        let nested: usize = if c == 0x5b || c == 0x7b {
            (last->num_nested + 1) as usize
        } else if last->num_nested == 0 {
            0
        } else {
            (last->num_nested - 1) as usize
        };
        let next = moved_to(st, start.offset + 1);
        (seq![LexToken { kind: flow_indicator_kind(c), start, end: next.coordinate }],
            LexState {
                scopes: st.scopes.update(st.scopes.len() - 1, LexScope::FlowCollection { border: last->border, num_nested: nested }),
                ..next
            })
    } else {
        let entered = LexState { scopes: st.scopes.push(flow_scope_in(scope_of(st.scopes))), ..st };
        let (inner, after) = flow_loop(b, entered);
        let end = after.coordinate;
        let flow_start = LexToken { kind: YamlSyntaxKind::FlowStart, start, end: start };
        let flow_end = LexToken { kind: YamlSyntaxKind::FlowEnd, start: end, end };
        if at_mapping_indicator(b, end.offset as int) && after.scopes.len() > 0 {
            (seq![LexToken { kind: YamlSyntaxKind::MappingStart, start, end: start }] + inner,
                LexState { scopes: after.scopes.update(after.scopes.len() - 1, LexScope::BlockMap(end.column)), ..after })
        } else if at_mapping_indicator(b, end.offset as int) || !is_flow(scope_of(after.scopes)) {
            (seq![flow_start] + inner + seq![flow_end], after)
        } else {
            (seq![flow_start] + inner + seq![flow_end], LexState { scopes: after.scopes.drop_last(), ..after })
        }
    }
}

/// Lexing the inside of a flow collection from `st`, up to where its
/// nesting comes back to zero or the collection is left.
pub open spec fn flow_loop(b: Seq<u8>, st: LexState) -> (Seq<LexToken>, LexState)
    decreases b.len() - st.coordinate.offset, flow_rank(scope_of(st.scopes)), 3int,
{
    let (tokens, next) = lex_step(b, st);
    let scope = scope_of(next.scopes);
    if scope is FlowCollection && scope->num_nested != 0
        && st.coordinate.offset < next.coordinate.offset <= b.len() {
        let (rest, last) = flow_loop(b, next);
        (tokens + rest, last)
    } else {
        (tokens, next)
    }
}

/// The tokens of a `-` that opens a block sequence at `start`: an empty
/// `SequenceStart`, then the `-` itself.
pub open spec fn sequence_opening_tokens(start: TextCoordinate) -> Seq<LexToken> {
    let after = TextCoordinate { offset: (start.offset + 1) as usize, column: (start.column + 1) as usize };
    seq![
        LexToken { kind: YamlSyntaxKind::SequenceStart, start, end: start },
        LexToken { kind: YamlSyntaxKind::Dash, start, end: after },
    ]
}

/// The token of a `-` that enters no new collection at `start`.
pub open spec fn lone_dash_tokens(start: TextCoordinate) -> Seq<LexToken> {
    let after = TextCoordinate { offset: (start.offset + 1) as usize, column: (start.column + 1) as usize };
    seq![LexToken { kind: YamlSyntaxKind::Dash, start, end: after }]
}

/// A `-` followed by a blank or the end of the text is a block sequence
/// entry indicator. It opens a new block sequence (a `SequenceStart` before
/// the `Dash`, and a block sequence scope at its column) at the top of the
/// document, at the column of the keys of the current block mapping or to
/// their right, and to the right of the entries of the current block
/// sequence. At the column of those entries it is one more entry of the same
/// sequence, and inside a flow collection it opens nothing.
pub proof fn law_dash_opens_block_sequence(b: Seq<u8>, st: LexState)
    requires
        0 <= st.coordinate.offset < b.len(),
        b.len() <= usize::MAX,
        b[st.coordinate.offset as int] == 0x2d,
        st.coordinate.offset + 1 == b.len() || space_byte(b[st.coordinate.offset + 1]) || break_byte(
            b[st.coordinate.offset + 1],
        ),
    ensures
        ({
            let start = st.coordinate;
            let (tokens, next) = lex_step(b, st);
            let opened = next.scopes == st.scopes.push(LexScope::BlockSequence(start.column)) && tokens
                == sequence_opening_tokens(start);
            let unchanged = next.scopes == st.scopes && tokens == lone_dash_tokens(start);
            &&& scope_of(st.scopes) == LexScope::Document ==> opened
            &&& (scope_of(st.scopes) matches LexScope::BlockMap(border) && start.column >= border) ==> opened
            &&& (scope_of(st.scopes) matches LexScope::BlockSequence(border) && start.column > border) ==> opened
            &&& (scope_of(st.scopes) matches LexScope::BlockSequence(border) && start.column == border) ==> unchanged
            &&& is_flow(scope_of(st.scopes)) ==> unchanged
            &&& next.coordinate.offset == start.offset + 1
        }),
{
    let i = st.coordinate.offset as int;
    let scope = scope_of(st.scopes);
    assert(!plain_first_at(b, i, scope));
    assert(lex_step(b, st) == dash_step(st));
    let start = st.coordinate;
    assert(dash_step(st).0 =~= if enters_sequence(scope, start.column) {
        sequence_opening_tokens(start)
    } else {
        lone_dash_tokens(start)
    });
}

/// The tokens of a `?` that opens a block mapping at `start`: an empty
/// `MappingStart`, then the `?` itself.
pub open spec fn mapping_opening_tokens(start: TextCoordinate) -> Seq<LexToken> {
    let after = TextCoordinate { offset: (start.offset + 1) as usize, column: (start.column + 1) as usize };
    seq![
        LexToken { kind: YamlSyntaxKind::MappingStart, start, end: start },
        LexToken { kind: YamlSyntaxKind::Question, start, end: after },
    ]
}

/// The token of a `?` that enters no new collection at `start`.
pub open spec fn lone_question_tokens(start: TextCoordinate) -> Seq<LexToken> {
    let after = TextCoordinate { offset: (start.offset + 1) as usize, column: (start.column + 1) as usize };
    seq![LexToken { kind: YamlSyntaxKind::Question, start, end: after }]
}

/// A `?` followed by a blank or the end of the text is a mapping key
/// indicator. It opens a new block mapping (a `MappingStart` before the
/// `Question`, and a block mapping scope at its column) at the top of the
/// document and to the right of the keys of the current block mapping or of
/// the entries of the current block sequence. At the column of the current
/// keys it is one more key of the same mapping, and inside a flow collection
/// it opens nothing.
pub proof fn law_question_opens_block_mapping(b: Seq<u8>, st: LexState)
    requires
        0 <= st.coordinate.offset < b.len(),
        b.len() <= usize::MAX,
        b[st.coordinate.offset as int] == 0x3f,
        st.coordinate.offset + 1 == b.len() || space_byte(b[st.coordinate.offset + 1]) || break_byte(
            b[st.coordinate.offset + 1],
        ),
    ensures
        ({
            let start = st.coordinate;
            let (tokens, next) = lex_step(b, st);
            let opened = next.scopes == st.scopes.push(LexScope::BlockMap(start.column)) && tokens
                == mapping_opening_tokens(start);
            let unchanged = next.scopes == st.scopes && tokens == lone_question_tokens(start);
            &&& scope_of(st.scopes) == LexScope::Document ==> opened
            &&& (scope_of(st.scopes) matches LexScope::BlockMap(border) && start.column > border) ==> opened
            &&& (scope_of(st.scopes) matches LexScope::BlockMap(border) && start.column == border) ==> unchanged
            &&& (scope_of(st.scopes) matches LexScope::BlockSequence(border) && start.column > border) ==> opened
            &&& (scope_of(st.scopes) matches LexScope::BlockSequence(border) && start.column <= border) ==> unchanged
            &&& is_flow(scope_of(st.scopes)) ==> unchanged
            &&& next.coordinate.offset == start.offset + 1
        }),
{
    let i = st.coordinate.offset as int;
    let scope = scope_of(st.scopes);
    assert(!plain_first_at(b, i, scope));
    assert(lex_step(b, st) == question_step(st));
    let start = st.coordinate;
    assert(question_step(st).0 =~= if enters_mapping(scope, start.column) {
        mapping_opening_tokens(start)
    } else {
        lone_question_tokens(start)
    });
}

/// The border of a block collection or a flow collection: the column from
/// which its content goes on.
pub open spec fn border_of(scope: LexScope) -> int {
    match scope {
        LexScope::Document => 0,
        LexScope::BlockSequence(border) => border as int,
        LexScope::BlockMap(border) => border as int,
        LexScope::FlowCollection { border, .. } => border as int,
    }
}

/// A line that starts at `column` leaves exactly the innermost scopes whose
/// border lies to its right: each of them is closed, innermost first, and
/// the scopes kept are the outer ones, the innermost of which has its border
/// at the column or to its left.
pub proof fn law_new_line_leaves_deeper_scopes(scopes: Seq<LexScope>, column: usize)
    ensures
        remaining_scopes(scopes, column) + exited_scopes(scopes, column).reverse() == scopes,
        forall|k: int| 0 <= k < exited_scopes(scopes, column).len() ==> border_of(
            #[trigger] exited_scopes(scopes, column)[k],
        ) > column,
        remaining_scopes(scopes, column).len() > 0 ==> border_of(remaining_scopes(scopes, column).last()) <= column,
    decreases scopes.len(),
{
    if scopes.len() > 0 && !scope_contains(scopes.last(), column) {
        let rest = scopes.drop_last();
        law_new_line_leaves_deeper_scopes(rest, column);
        let ex = exited_scopes(rest, column);
        assert(exited_scopes(scopes, column) == seq![scopes.last()] + ex);
        assert((seq![scopes.last()] + ex).reverse() =~= ex.reverse().push(scopes.last()));
        assert(remaining_scopes(rest, column) + ex.reverse().push(scopes.last()) =~= (remaining_scopes(rest, column)
            + ex.reverse()).push(scopes.last()));
        assert(rest.push(scopes.last()) =~= scopes);
        assert forall|k: int| 0 <= k < exited_scopes(scopes, column).len() implies border_of(
            #[trigger] exited_scopes(scopes, column)[k],
        ) > column by {
            if k > 0 {
                assert(exited_scopes(scopes, column)[k] == ex[k - 1]);
            }
        }
    } else {
        assert(exited_scopes(scopes, column) =~= Seq::<LexScope>::empty());
        assert(scopes + Seq::<LexScope>::empty().reverse() =~= scopes);
    }
}

/// A plain scalar followed by a mapping indicator `: ` is a mapping key. It
/// opens a new block mapping (a `MappingStart` at its start, then the
/// scalar, and a block mapping scope at its column) at the top of the
/// document and to the right of the keys of the current block mapping or of
/// the entries of the current block sequence; at the column of the current
/// keys it is one more key of the same mapping, a lone scalar.
pub proof fn law_plain_key_opens_block_mapping(b: Seq<u8>, st: LexState)
    requires
        0 <= st.coordinate.offset < b.len(),
        plain_first_at(b, st.coordinate.offset as int, scope_of(st.scopes)),
    ensures
        ({
            let start = st.coordinate;
            let (tokens, next) = lex_step(b, st);
            let scope = scope_of(st.scopes);
            let key = at_mapping_indicator(b, next.coordinate.offset as int);
            let opened = next.scopes == st.scopes.push(LexScope::BlockMap(start.column)) && tokens.len() == 2
                && tokens[0] == (LexToken { kind: YamlSyntaxKind::MappingStart, start, end: start })
                && tokens[1].kind == YamlSyntaxKind::PlainLiteral;
            let lone = next.scopes == st.scopes && tokens.len() == 1 && tokens[0].kind == YamlSyntaxKind::PlainLiteral;
            &&& (key && scope == LexScope::Document) ==> opened
            &&& key ==> ((scope matches LexScope::BlockMap(border) && start.column > border) ==> opened)
            &&& key ==> ((scope matches LexScope::BlockSequence(border) && start.column > border) ==> opened)
            &&& (scope matches LexScope::BlockMap(border) && start.column == border) ==> lone
            &&& is_flow(scope) ==> lone
        }),
{
    assert(lex_step(b, st) == plain_step(b, st));
}

/// Once the text is lexed and every scope closed, lexing goes on giving the
/// end of the file and leaves the state as it is.
pub proof fn law_end_of_file_repeats(b: Seq<u8>, st: LexState)
    requires
        st.coordinate.offset >= b.len(),
        st.scopes.len() == 0,
    ensures
        lex_step(b, st) == (seq![LexToken { kind: YamlSyntaxKind::Eof, start: st.coordinate, end: st.coordinate }], st),
{
    assert(st.scopes.reverse() =~= Seq::<LexScope>::empty());
    assert(closing_tokens(st.scopes, st.coordinate) =~= Seq::<LexToken>::empty());
    assert(st.scopes =~= Seq::<LexScope>::empty());
}

/// Whether `tokens` follow one another from the offset `from` to the offset
/// `to`, each starting where the one before ended.
pub open spec fn tiles(tokens: Seq<LexToken>, from: int, to: int) -> bool
    decreases tokens.len(),
{
    if tokens.len() == 0 {
        from == to
    } else {
        tokens[0].start.offset == from && tiles(tokens.drop_first(), tokens[0].end.offset as int, to)
    }
}

proof fn lemma_tiles_concat(a: Seq<LexToken>, b: Seq<LexToken>, x: int, y: int, z: int)
    requires
        tiles(a, x, y),
        tiles(b, y, z),
    ensures
        tiles(a + b, x, z),
    decreases a.len(),
{
    if a.len() > 0 {
        lemma_tiles_concat(a.drop_first(), b, a[0].end.offset as int, y, z);
        assert((a + b).drop_first() =~= a.drop_first() + b);
    } else {
        assert(a + b =~= b);
    }
}

proof fn lemma_tiles_at(tokens: Seq<LexToken>, at: TextCoordinate)
    requires
        forall|k: int| 0 <= k < tokens.len() ==> (#[trigger] tokens[k]).start == at && tokens[k].end == at,
    ensures
        tiles(tokens, at.offset as int, at.offset as int),
    decreases tokens.len(),
{
    if tokens.len() > 0 {
        assert forall|k: int| 0 <= k < tokens.drop_first().len() implies (#[trigger] tokens.drop_first()[k]).start == at
            && tokens.drop_first()[k].end == at by {
            assert(tokens.drop_first()[k] == tokens[k + 1]);
        }
        lemma_tiles_at(tokens.drop_first(), at);
    }
}

proof fn lemma_tiles_chain(tokens: Seq<LexToken>)
    requires
        tokens.len() > 0,
        forall|k: int| 0 <= k < tokens.len() - 1 ==> (#[trigger] tokens[k]).end.offset == tokens[k + 1].start.offset,
    ensures
        tiles(tokens, tokens[0].start.offset as int, tokens.last().end.offset as int),
    decreases tokens.len(),
{
    let rest = tokens.drop_first();
    if rest.len() > 0 {
        assert forall|k: int| 0 <= k < rest.len() - 1 implies (#[trigger] rest[k]).end.offset == rest[k + 1].start.offset by {
            assert(rest[k] == tokens[k + 1]);
            assert(tokens[k + 1].end.offset == tokens[k + 2].start.offset);
        }
        lemma_tiles_chain(rest);
        assert(rest[0] == tokens[1]);
        assert(tokens[0].end.offset == tokens[1].start.offset);
        assert(rest.last() == tokens.last());
    } else {
        assert(tiles(rest, tokens[0].end.offset as int, tokens.last().end.offset as int));
    }
}

/// Lexing from a state gives tokens that follow one another from its
/// position to the position it reaches: every byte lexed is in exactly one
/// token.
pub proof fn law_lex_step_tiles(b: Seq<u8>, st: LexState)
    ensures
        tiles(lex_step(b, st).0, st.coordinate.offset as int, lex_step(b, st).1.coordinate.offset as int),
    decreases b.len() - st.coordinate.offset, flow_rank(scope_of(st.scopes)), 2int,
{
    let i = st.coordinate.offset as int;
    let here = st.coordinate;
    if i >= b.len() {
        let closing = closing_tokens(st.scopes, here);
        let eof = LexToken { kind: YamlSyntaxKind::Eof, start: here, end: here };
        lemma_closing_tokens_at(st.scopes, here);
        assert forall|k: int| 0 <= k < closing.push(eof).len() implies (#[trigger] closing.push(eof)[k]).start == here
            && closing.push(eof)[k].end == here by {
            if k < closing.len() {
                assert(closing.push(eof)[k] == closing[k]);
            }
        }
        lemma_tiles_at(closing.push(eof), here);
    } else {
        let c = b[i];
        if plain_first_at(b, i, scope_of(st.scopes)) {
            lemma_tiles_chain(plain_step(b, st).0);
        } else if c == 0x3a || c == 0x2c || c == 0x23 || c == 0x27 || c == 0x22 {
            lemma_tiles_chain(lex_step(b, st).0);
        } else if flow_indicator_byte(c) && c != 0x2c {
            lemma_flow_step_tiles(b, st);
        } else if c == 0x3f {
            lemma_tiles_chain(question_step(st).0);
        } else if c == 0x2d {
            lemma_tiles_chain(dash_step(st).0);
        } else if space_byte(c) || break_byte(c) {
            let scan = blank_scan(b, i, here.column as int, false);
            let end = TextCoordinate { offset: scan.0 as usize, column: scan.1 as usize };
            if scan.2 {
                let newline = seq![LexToken { kind: YamlSyntaxKind::Newline, start: here, end }];
                let closing = close_tokens(exited_scopes(st.scopes, end.column), end);
                lemma_tiles_chain(newline);
                lemma_close_tokens_at(exited_scopes(st.scopes, end.column), end);
                lemma_tiles_at(closing, end);
                lemma_tiles_concat(newline, closing, i, end.offset as int, end.offset as int);
            } else {
                lemma_tiles_chain(blank_step(b, st).0);
            }
        } else {
            lemma_tiles_chain(unexpected_step(b, st).0);
        }
    }
}

proof fn lemma_flow_step_tiles(b: Seq<u8>, st: LexState)
    requires
        0 <= st.coordinate.offset < b.len(),
    ensures
        tiles(flow_step(b, st).0, st.coordinate.offset as int, flow_step(b, st).1.coordinate.offset as int),
    decreases b.len() - st.coordinate.offset, flow_rank(scope_of(st.scopes)), 1int,
{
    let start = st.coordinate;
    if st.scopes.len() > 0 && st.scopes.last() is FlowCollection {
        lemma_tiles_chain(flow_step(b, st).0);
    } else {
        let entered = LexState { scopes: st.scopes.push(flow_scope_in(scope_of(st.scopes))), ..st };
        lemma_flow_loop_tiles(b, entered);
        let (inner, after) = flow_loop(b, entered);
        let end = after.coordinate;
        let flow_start = seq![LexToken { kind: YamlSyntaxKind::FlowStart, start, end: start }];
        let flow_end = seq![LexToken { kind: YamlSyntaxKind::FlowEnd, start: end, end }];
        if at_mapping_indicator(b, end.offset as int) && after.scopes.len() > 0 {
            let mapping = seq![LexToken { kind: YamlSyntaxKind::MappingStart, start, end: start }];
            lemma_tiles_chain(mapping);
            lemma_tiles_concat(mapping, inner, start.offset as int, start.offset as int, end.offset as int);
        } else {
            lemma_tiles_chain(flow_start);
            lemma_tiles_chain(flow_end);
            lemma_tiles_concat(flow_start, inner, start.offset as int, start.offset as int, end.offset as int);
            lemma_tiles_concat(flow_start + inner, flow_end, start.offset as int, end.offset as int, end.offset as int);
        }
    }
}

proof fn lemma_flow_loop_tiles(b: Seq<u8>, st: LexState)
    ensures
        tiles(flow_loop(b, st).0, st.coordinate.offset as int, flow_loop(b, st).1.coordinate.offset as int),
    decreases b.len() - st.coordinate.offset, flow_rank(scope_of(st.scopes)), 3int,
{
    law_lex_step_tiles(b, st);
    let (tokens, next) = lex_step(b, st);
    let scope = scope_of(next.scopes);
    if scope is FlowCollection && scope->num_nested != 0 && st.coordinate.offset < next.coordinate.offset <= b.len() {
        lemma_flow_loop_tiles(b, next);
        let (rest, last) = flow_loop(b, next);
        lemma_tiles_concat(tokens, rest, st.coordinate.offset as int, next.coordinate.offset as int, last.coordinate.offset as int);
    }
}

/// The YAML lexer.
pub struct YamlLexer<'src> {
    /// Source text
    source: &'src str,
    current_coordinate: TextCoordinate,
    /// diagnostics emitted during the parsing phase
    diagnostics: Vec<LexDiagnostic>,
    scopes: Vec<LexScope>,
    tokens: Vec<LexToken>,
    token_index: usize,
}

impl<'src> YamlLexer<'src> {
    /// The bytes of the source text.
    pub closed spec fn bytes(&self) -> Seq<u8> {
        self.source.spec_bytes()
    }

    /// The position of the lexer.
    pub closed spec fn coordinate(&self) -> TextCoordinate {
        self.current_coordinate
    }

    /// The scopes the lexer is in, innermost last.
    pub closed spec fn scope_stack(&self) -> Seq<LexScope> {
        self.scopes@
    }

    /// The tokens lexed so far.
    pub closed spec fn token_seq(&self) -> Seq<LexToken> {
        self.tokens@
    }

    /// The diagnostics emitted so far.
    pub closed spec fn diagnostic_seq(&self) -> Seq<LexDiagnostic> {
        self.diagnostics@
    }

    /// The index of the current token.
    pub closed spec fn current_index(&self) -> usize {
        self.token_index
    }

    /// Whether the tokens lexed so far follow one another from the start of
    /// the text to the position of the lexer.
    pub open spec fn tokens_tile(&self) -> bool {
        tiles(self.token_seq(), 0, self.coordinate().offset as int)
    }

    /// The state of the lexer is consistent, except that the position may lie
    /// inside a character.
    pub closed spec fn wf_inside(&self) -> bool {
        let len = self.bytes().len();
        &&& len < usize::MAX
        &&& self.current_coordinate.offset <= len
        &&& self.current_coordinate.column <= self.current_coordinate.offset
        &&& scopes_bounded(self.scopes@, self.current_coordinate.offset as int)
        &&& tokens_between(self.tokens@, 0, len as int)
        &&& self.token_index < self.tokens@.len()
    }

    /// The state of the lexer is consistent: the position is on a character boundary.
    pub closed spec fn wf(&self) -> bool {
        &&& self.wf_inside()
        &&& is_char_boundary(self.bytes(), self.current_coordinate.offset as int)
    }

    /// The byte at `offset`, if any.
    pub closed spec fn byte_at(&self, offset: int) -> Option<u8> {
        if 0 <= offset < self.bytes().len() {
            Some(self.bytes()[offset])
        } else {
            None
        }
    }

    /// The scope the lexer is in.
    pub closed spec fn scope(&self) -> LexScope {
        scope_of(self.scopes@)
    }

    /// What the lexer carries from one token to the next.
    pub closed spec fn state(&self) -> LexState {
        LexState { coordinate: self.current_coordinate, scopes: self.scopes@, diagnostics: self.diagnostics@ }
    }

    /// A lexer at the start of `source`.
    pub fn from_str(source: &'src str) -> (lexer: Self)
        requires
            source.spec_bytes().len() < usize::MAX,
        ensures
            lexer.wf(),
            lexer.bytes() == source.spec_bytes(),
            lexer.coordinate() == (TextCoordinate { offset: 0, column: 0 }),
            lexer.scope_stack() == Seq::<LexScope>::empty(),
            lexer.diagnostic_seq() == Seq::<LexDiagnostic>::empty(),
            lexer.token_seq() == seq![LexToken::spec_tombstone()],
            lexer.current_index() == 0,
            lexer.tokens_tile(),
    {
        proof {
            vstd::utf8::is_char_boundary_start_end_of_seq(source.spec_bytes());
        }
        let lexer = YamlLexer {
            source,
            diagnostics: Vec::new(),
            scopes: Vec::new(),
            current_coordinate: TextCoordinate { offset: 0, column: 0 },
            tokens: vec![LexToken::tombstone()],
            token_index: 0,
        };
        proof {
            lemma_tiles_chain(lexer.token_seq());
        }
        lexer
    }

    fn len(&self) -> (n: usize)
        ensures
            n == self.bytes().len(),
    {
        self.source.as_bytes().len()
    }

    fn byte(&self, offset: usize) -> (b: Option<u8>)
        ensures
            b == self.byte_at(offset as int),
    {
        let bytes = self.source.as_bytes();
        if offset < bytes.len() {
            Some(bytes[offset])
        } else {
            None
        }
    }

    /// The byte at the position of the lexer, if any.
    fn current_byte(&self) -> (b: Option<u8>)
        ensures
            b == self.byte_at(self.coordinate().offset as int),
    {
        self.byte(self.current_coordinate.offset)
    }

    /// The byte after the one at the position of the lexer, if any.
    fn peek_byte(&self) -> (b: Option<u8>)
        requires
            self.wf_inside(),
        ensures
            b == self.byte_at(self.coordinate().offset + 1),
    {
        self.byte(self.current_coordinate.offset + 1)
    }

    /// The position of the lexer in the source text.
    pub fn position(&self) -> (p: usize)
        ensures
            p == self.coordinate().offset,
    {
        self.current_coordinate.offset
    }

    /// Moves `n` bytes forward on the same line.
    fn advance(&mut self, n: usize)
        requires
            old(self).wf_inside(),
            old(self).coordinate().offset + n <= old(self).bytes().len(),
        ensures
            final(self).wf_inside(),
            final(self).coordinate().offset == old(self).coordinate().offset + n,
            final(self).coordinate().column == old(self).coordinate().column + n,
            final(self).bytes() == old(self).bytes(),
            final(self).scope_stack() == old(self).scope_stack(),
            final(self).token_seq() == old(self).token_seq(),
            final(self).diagnostic_seq() == old(self).diagnostic_seq(),
            final(self).current_index() == old(self).current_index(),
    {
        self.current_coordinate.advance(n);
        proof {
            assert forall|i: int| 0 <= i < self.scopes@.len() implies
                #[trigger] scope_bounded(self.scopes@[i], self.current_coordinate.offset as int) by {
                assert(scope_bounded(self.scopes@[i], old(self).current_coordinate.offset as int));
            }
        }
    }

    /// Moves over the character at the position of the lexer.
    fn advance_char_unchecked(&mut self)
        requires
            old(self).wf(),
            old(self).coordinate().offset < old(self).bytes().len(),
        ensures
            final(self).wf(),
            final(self).coordinate().offset == old(self).coordinate().offset + utf8_width(old(self).bytes()[old(self).coordinate().offset as int]),
            final(self).coordinate().column == old(self).coordinate().column + utf8_width(old(self).bytes()[old(self).coordinate().offset as int]),
            final(self).bytes() == old(self).bytes(),
            final(self).scope_stack() == old(self).scope_stack(),
            final(self).token_seq() == old(self).token_seq(),
            final(self).diagnostic_seq() == old(self).diagnostic_seq(),
            final(self).current_index() == old(self).current_index(),
    {
        let b = self.source.as_bytes()[self.current_coordinate.offset];
        proof {
            lemma_advance_char(self.bytes(), self.current_coordinate.offset as int);
        }
        let w = utf8_width_of(b);
        self.advance(w);
    }

    /// Bumps the current byte and creates a lexed token of the passed in kind.
    fn consume_byte(&mut self, tok: YamlSyntaxKind) -> (t: LexToken)
        requires
            old(self).wf(),
            old(self).coordinate().offset < old(self).bytes().len(),
            old(self).bytes()[old(self).coordinate().offset as int] < 0x80,
        ensures
            final(self).wf(),
            final(self).coordinate().offset == old(self).coordinate().offset + 1,
            final(self).coordinate().column == old(self).coordinate().column + 1,
            t == (LexToken { kind: tok, start: old(self).coordinate(), end: final(self).coordinate() }),
            final(self).bytes() == old(self).bytes(),
            final(self).scope_stack() == old(self).scope_stack(),
            final(self).token_seq() == old(self).token_seq(),
            final(self).diagnostic_seq() == old(self).diagnostic_seq(),
            final(self).current_index() == old(self).current_index(),
    {
        let start = self.current_coordinate;
        proof {
            lemma_advance_char(self.bytes(), start.offset as int);
        }
        self.advance(1);
        LexToken { kind: tok, start, end: self.current_coordinate }
    }

    /// Lexes a comment: from `#` to the end of the line.
    fn consume_comment(&mut self) -> (t: LexToken)
        requires
            old(self).wf(),
            old(self).byte_at(old(self).coordinate().offset as int) == Some(0x23u8),
        ensures
            final(self).wf(),
            final(self).coordinate().offset == comment_end(old(self).bytes(), old(self).coordinate().offset as int),
            final(self).coordinate().column == old(self).coordinate().column
                + (final(self).coordinate().offset - old(self).coordinate().offset),
            t == (LexToken { kind: YamlSyntaxKind::Comment, start: old(self).coordinate(), end: final(self).coordinate() }),
            final(self).bytes() == old(self).bytes(),
            final(self).scope_stack() == old(self).scope_stack(),
            final(self).token_seq() == old(self).token_seq(),
            final(self).diagnostic_seq() == old(self).diagnostic_seq(),
            final(self).current_index() == old(self).current_index(),
    {
        let start = self.current_coordinate;
        let ghost end = comment_end(self.bytes(), start.offset as int);
        loop
            invariant
                self.wf_inside(),
                self.bytes() == old(self).bytes(),
                self.scope_stack() == old(self).scope_stack(),
                self.token_seq() == old(self).token_seq(),
                self.diagnostic_seq() == old(self).diagnostic_seq(),
                self.current_index() == old(self).current_index(),
                start == old(self).coordinate(),
                end == comment_end(self.bytes(), start.offset as int),
                start.offset <= self.coordinate().offset,
                self.coordinate().column == start.column + (self.coordinate().offset - start.offset),
                comment_end(self.bytes(), self.coordinate().offset as int) == end,
            ensures
                self.coordinate().offset == end,
                end == self.bytes().len() || self.bytes()[end] == 0x0a,
            decreases self.bytes().len() - self.coordinate().offset,
        {
            match self.current_byte() {
                Some(c) => {
                    if c == 0x0a {
                        break;
                    }
                    self.advance(1);
                },
                None => break,
            }
        }
        proof {
            lemma_boundary_at(self.bytes(), self.current_coordinate.offset as int);
        }
        LexToken { kind: YamlSyntaxKind::Comment, start, end: self.current_coordinate }
    }

    /// Lexes a double-quoted scalar: from `"` to the next `"` that no `\\` escapes.
    fn consume_double_quoted_literal(&mut self) -> (t: LexToken)
        requires
            old(self).wf(),
            old(self).byte_at(old(self).coordinate().offset as int) == Some(0x22u8),
        ensures
            final(self).wf(),
            final(self).coordinate().offset == double_quoted_end(old(self).bytes(), old(self).coordinate().offset + 1),
            final(self).coordinate().column == old(self).coordinate().column
                + (final(self).coordinate().offset - old(self).coordinate().offset),
            t == (LexToken { kind: YamlSyntaxKind::DoubleQuotedLiteral, start: old(self).coordinate(), end: final(self).coordinate() }),
            final(self).bytes() == old(self).bytes(),
            final(self).scope_stack() == old(self).scope_stack(),
            final(self).token_seq() == old(self).token_seq(),
            final(self).diagnostic_seq() == old(self).diagnostic_seq(),
            final(self).current_index() == old(self).current_index(),
    {
        let start = self.current_coordinate;
        self.advance(1);
        let ghost end = double_quoted_end(self.bytes(), start.offset + 1);
        loop
            invariant_except_break
                double_quoted_end(self.bytes(), self.coordinate().offset as int) == end,
            invariant
                self.wf_inside(),
                self.bytes() == old(self).bytes(),
                self.scope_stack() == old(self).scope_stack(),
                self.token_seq() == old(self).token_seq(),
                self.diagnostic_seq() == old(self).diagnostic_seq(),
                self.current_index() == old(self).current_index(),
                start == old(self).coordinate(),
                start.offset < self.coordinate().offset,
                self.coordinate().column == start.column + (self.coordinate().offset - start.offset),
            ensures
                self.coordinate().offset == end,
                self.coordinate().offset == self.bytes().len() || self.bytes()[self.coordinate().offset - 1] == 0x22,
            decreases self.bytes().len() - self.coordinate().offset,
        {
            match self.current_byte() {
                Some(0x5c) => {
                    if self.peek_byte() == Some(0x22u8) {
                        self.advance(2);
                    } else {
                        self.advance(1);
                    }
                },
                Some(0x22) => {
                    self.advance(1);
                    break;
                },
                Some(_) => self.advance(1),
                None => break,
            }
        }
        proof {
            let n = self.current_coordinate.offset as int;
            if n < self.bytes().len() {
                lemma_after_ascii_boundary(self.bytes(), n - 1);
            } else {
                lemma_boundary_at(self.bytes(), n);
            }
        }
        LexToken { kind: YamlSyntaxKind::DoubleQuotedLiteral, start, end: self.current_coordinate }
    }

    /// Whether the state of `self` is that of `other` but for the position.
    pub closed spec fn keeps_state_of(&self, other: &Self) -> bool {
        &&& self.bytes() == other.bytes()
        &&& self.scopes@ == other.scopes@
        &&& self.tokens@ == other.tokens@
        &&& self.diagnostics@ == other.diagnostics@
        &&& self.token_index == other.token_index
    }

    /// Lexes a single-quoted scalar: from `'` to the next `'` that is not doubled.
    fn consume_single_quoted_literal(&mut self) -> (t: LexToken)
        requires
            old(self).wf(),
            old(self).byte_at(old(self).coordinate().offset as int) == Some(0x27u8),
        ensures
            final(self).wf(),
            final(self).keeps_state_of(old(self)),
            final(self).coordinate().offset == single_quoted_end(old(self).bytes(), old(self).coordinate().offset + 1),
            final(self).coordinate().column == old(self).coordinate().column
                + (final(self).coordinate().offset - old(self).coordinate().offset),
            t == (LexToken { kind: YamlSyntaxKind::SingleQuotedLiteral, start: old(self).coordinate(), end: final(self).coordinate() }),
    {
        let start = self.current_coordinate;
        self.advance(1);
        let ghost end = single_quoted_end(self.bytes(), start.offset + 1);
        loop
            invariant_except_break
                single_quoted_end(self.bytes(), self.coordinate().offset as int) == end,
            invariant
                self.wf_inside(),
                self.keeps_state_of(old(self)),
                start == old(self).coordinate(),
                start.offset < self.coordinate().offset,
                self.coordinate().column == start.column + (self.coordinate().offset - start.offset),
            ensures
                self.coordinate().offset == end,
                self.coordinate().offset == self.bytes().len() || self.bytes()[self.coordinate().offset - 1] == 0x27,
            decreases self.bytes().len() - self.coordinate().offset,
        {
            match self.current_byte() {
                Some(0x27) => {
                    if self.peek_byte() == Some(0x27u8) {
                        self.advance(2);
                    } else {
                        self.advance(1);
                        break;
                    }
                },
                Some(_) => self.advance(1),
                None => break,
            }
        }
        proof {
            let n = self.current_coordinate.offset as int;
            if n < self.bytes().len() {
                lemma_after_ascii_boundary(self.bytes(), n - 1);
            } else {
                lemma_boundary_at(self.bytes(), n);
            }
        }
        LexToken { kind: YamlSyntaxKind::SingleQuotedLiteral, start, end: self.current_coordinate }
    }

    /// The scope the lexer is in.
    fn current_scope(&self) -> (s: LexScope)
        ensures
            s == self.scope(),
    {
        match self.scopes.last() {
            Some(scope) => *scope,
            None => LexScope::Document,
        }
    }

    /// Enters `scope`.
    fn enter_scope(&mut self, scope: LexScope)
        requires
            old(self).wf(),
            scope_bounded(scope, old(self).coordinate().offset as int),
        ensures
            final(self).wf(),
            final(self).scope_stack() == old(self).scope_stack().push(scope),
            final(self).coordinate() == old(self).coordinate(),
            final(self).bytes() == old(self).bytes(),
            final(self).token_seq() == old(self).token_seq(),
            final(self).diagnostic_seq() == old(self).diagnostic_seq(),
            final(self).current_index() == old(self).current_index(),
    {
        self.scopes.push(scope);
        proof {
            assert forall|i: int| 0 <= i < self.scopes@.len() implies
                #[trigger] scope_bounded(self.scopes@[i], self.current_coordinate.offset as int) by {
                if i < old(self).scopes@.len() {
                    assert(self.scopes@[i] == old(self).scopes@[i]);
                }
            }
        }
    }

    /// Leaves the scopes that do not contain `cursor`; returns them, innermost first.
    fn eject_exited_scope(&mut self, cursor: TextCoordinate) -> (ejected: Vec<LexScope>)
        requires
            old(self).wf(),
        ensures
            final(self).wf(),
            ejected@ == exited_scopes(old(self).scope_stack(), cursor.column),
            final(self).scope_stack() == remaining_scopes(old(self).scope_stack(), cursor.column),
            final(self).coordinate() == old(self).coordinate(),
            final(self).bytes() == old(self).bytes(),
            final(self).token_seq() == old(self).token_seq(),
            final(self).diagnostic_seq() == old(self).diagnostic_seq(),
            final(self).current_index() == old(self).current_index(),
    {
        let mut ejected: Vec<LexScope> = Vec::new();
        loop
            invariant
                self.wf(),
                self.coordinate() == old(self).coordinate(),
                self.bytes() == old(self).bytes(),
                self.token_seq() == old(self).token_seq(),
                self.diagnostic_seq() == old(self).diagnostic_seq(),
                self.current_index() == old(self).current_index(),
                ejected@ + exited_scopes(self.scopes@, cursor.column) == exited_scopes(old(self).scope_stack(), cursor.column),
                remaining_scopes(self.scopes@, cursor.column) == remaining_scopes(old(self).scope_stack(), cursor.column),
            ensures
                ejected@ == exited_scopes(old(self).scope_stack(), cursor.column),
                self.scopes@ == remaining_scopes(old(self).scope_stack(), cursor.column),
            decreases self.scopes@.len(),
        {
            let ghost before = self.scopes@;
            match self.scopes.pop() {
                Some(scope) => {
                    if scope.contain(cursor) {
                        self.scopes.push(scope);
                        proof {
                            assert(self.scopes@ == before);
                            assert(exited_scopes(before, cursor.column) == Seq::<LexScope>::empty());
                            assert(ejected@ + Seq::<LexScope>::empty() == ejected@);
                        }
                        break;
                    }
                    proof {
                        assert(before.drop_last() == self.scopes@);
                        assert(ejected@.push(scope) + exited_scopes(self.scopes@, cursor.column)
                            == ejected@ + exited_scopes(before, cursor.column));
                        assert forall|i: int| 0 <= i < self.scopes@.len() implies
                            #[trigger] scope_bounded(self.scopes@[i], self.current_coordinate.offset as int) by {
                            assert(self.scopes@[i] == before[i]);
                        }
                    }
                    ejected.push(scope);
                },
                None => {
                    proof {
                        assert(ejected@ + Seq::<LexScope>::empty() == ejected@);
                    }
                    break;
                },
            }
        }
        ejected
    }

    /// Bumps a line break: `\r\n`, `\n` or `\r`.
    fn consume_newline(&mut self) -> (consumed: bool)
        requires
            old(self).wf(),
        ensures
            final(self).wf(),
            final(self).keeps_state_of(old(self)),
            consumed == (old(self).coordinate().offset < old(self).bytes().len()
                && break_byte(old(self).bytes()[old(self).coordinate().offset as int])),
            consumed ==> final(self).coordinate().offset == newline_end(old(self).bytes(), old(self).coordinate().offset as int),
            !consumed ==> final(self).coordinate() == old(self).coordinate(),
    {
        let ghost b = self.bytes();
        let ghost i = self.current_coordinate.offset as int;
        match self.current_byte() {
            Some(0x0d) => {
                if self.peek_byte() == Some(0x0au8) {
                    self.advance(2);
                    proof {
                        lemma_after_ascii_boundary(b, i + 1);
                    }
                } else {
                    self.advance(1);
                    proof {
                        lemma_after_ascii_boundary(b, i);
                    }
                }
                true
            },
            Some(0x0a) => {
                self.advance(1);
                proof {
                    lemma_after_ascii_boundary(b, i);
                }
                true
            },
            _ => false,
        }
    }

    /// Consumes all whitespace until a non-whitespace or a newline is found.
    /// Whitespace other than spaces and tabs is reported.
    fn consume_whitespaces(&mut self)
        requires
            old(self).wf(),
        ensures
            final(self).wf(),
            final(self).bytes() == old(self).bytes(),
            final(self).scope_stack() == old(self).scope_stack(),
            final(self).token_seq() == old(self).token_seq(),
            final(self).current_index() == old(self).current_index(),
            final(self).coordinate().offset == whitespaces_end(old(self).bytes(), old(self).coordinate().offset as int),
            final(self).coordinate().column == old(self).coordinate().column
                + (final(self).coordinate().offset - old(self).coordinate().offset),
            final(self).diagnostic_seq() == old(self).diagnostic_seq()
                + whitespace_diagnostics(old(self).bytes(), old(self).coordinate().offset as int),
    {
        let ghost b = self.bytes();
        let ghost start = self.current_coordinate;
        proof {
            lemma_whitespaces_end(b, start.offset as int);
        }
        loop
            invariant
                self.wf_inside(),
                self.bytes() == b,
                b == old(self).bytes(),
                start == old(self).coordinate(),
                self.scope_stack() == old(self).scope_stack(),
                self.token_seq() == old(self).token_seq(),
                self.current_index() == old(self).current_index(),
                start.offset <= self.coordinate().offset,
                self.coordinate().column == start.column + (self.coordinate().offset - start.offset),
                whitespaces_end(b, self.coordinate().offset as int) == whitespaces_end(b, start.offset as int),
                self.diagnostic_seq() + whitespace_diagnostics(b, self.coordinate().offset as int)
                    == old(self).diagnostic_seq() + whitespace_diagnostics(b, start.offset as int),
                forall|j: int| start.offset <= j < self.coordinate().offset ==> #[trigger] b[j] < 0x80,
            ensures
                self.coordinate().offset == whitespaces_end(b, start.offset as int),
                self.diagnostic_seq() == old(self).diagnostic_seq() + whitespace_diagnostics(b, start.offset as int),
                forall|j: int| start.offset <= j < self.coordinate().offset ==> #[trigger] b[j] < 0x80,
            decreases b.len() - self.coordinate().offset,
        {
            let pos = self.current_coordinate.offset;
            match self.current_byte() {
                Some(c) => {
                    if !is_whitespace(c) {
                        proof {
                            assert(whitespace_diagnostics(b, pos as int) == Seq::<LexDiagnostic>::empty());
                            assert(self.diagnostic_seq() + Seq::<LexDiagnostic>::empty() == self.diagnostic_seq());
                        }
                        break;
                    }
                    if is_space(c) {
                        self.advance(1);
                    } else if is_break(c) {
                        proof {
                            assert(whitespace_diagnostics(b, pos as int) == Seq::<LexDiagnostic>::empty());
                            assert(self.diagnostic_seq() + Seq::<LexDiagnostic>::empty() == self.diagnostic_seq());
                        }
                        break;
                    } else {
                        self.advance(1);
                        let ghost before = self.diagnostics@;
                        self.push_diagnostic(LexDiagnostic {
                            kind: LexDiagnosticKind::NonStandardWhitespace,
                            start: pos,
                            end: pos + 1,
                        });
                        proof {
                            assert(self.diagnostics@ == before.push(whitespace_diagnostic(pos as int)));
                            assert(whitespace_diagnostics(b, pos as int)
                                == seq![whitespace_diagnostic(pos as int)] + whitespace_diagnostics(b, pos + 1));
                            assert(before + (seq![whitespace_diagnostic(pos as int)] + whitespace_diagnostics(b, pos + 1))
                                =~= self.diagnostics@ + whitespace_diagnostics(b, pos + 1));
                        }
                    }
                },
                None => {
                    proof {
                        assert(self.diagnostic_seq() + Seq::<LexDiagnostic>::empty() == self.diagnostic_seq());
                    }
                    break;
                },
            }
        }
        proof {
            let n = self.current_coordinate.offset as int;
            if n > start.offset {
                lemma_after_ascii_boundary(b, n - 1);
            }
        }
    }

    /// Records a diagnostic.
    pub fn push_diagnostic(&mut self, diagnostic: LexDiagnostic)
        requires
            old(self).wf_inside(),
        ensures
            final(self).wf_inside(),
            old(self).wf() ==> final(self).wf(),
            final(self).diagnostic_seq() == old(self).diagnostic_seq().push(diagnostic),
            final(self).coordinate() == old(self).coordinate(),
            final(self).bytes() == old(self).bytes(),
            final(self).scope_stack() == old(self).scope_stack(),
            final(self).token_seq() == old(self).token_seq(),
            final(self).current_index() == old(self).current_index(),
    {
        self.diagnostics.push(diagnostic);
    }

    /// Lexes blanks: spaces, tabs and line breaks. After a line break, the
    /// scopes that the new line leaves are closed.
    fn consume_blank(&mut self) -> (tokens: Vec<LexToken>)
        requires
            old(self).wf(),
        ensures
            final(self).wf(),
            ({
                let (end, column, newline) = blank_scan(old(self).bytes(), old(self).coordinate().offset as int,
                    old(self).coordinate().column as int, false);
                &&& final(self).coordinate().offset == end
                &&& final(self).coordinate().column == column
                &&& final(self).diagnostic_seq() == old(self).diagnostic_seq()
                    + blank_diagnostics(old(self).bytes(), old(self).coordinate().offset as int)
                &&& newline ==> tokens@ == seq![LexToken { kind: YamlSyntaxKind::Newline, start: old(self).coordinate(), end: final(self).coordinate() }]
                    + close_tokens(exited_scopes(old(self).scope_stack(), final(self).coordinate().column), final(self).coordinate())
                &&& newline ==> final(self).scope_stack() == remaining_scopes(old(self).scope_stack(), final(self).coordinate().column)
                &&& !newline ==> tokens@ == seq![LexToken { kind: YamlSyntaxKind::Whitespace, start: old(self).coordinate(), end: final(self).coordinate() }]
                &&& !newline ==> final(self).scope_stack() == old(self).scope_stack()
            }),
            tokens_between(tokens@, old(self).coordinate().offset as int, final(self).coordinate().offset as int),
            final(self).bytes() == old(self).bytes(),
            final(self).token_seq() == old(self).token_seq(),
            final(self).current_index() == old(self).current_index(),
    {
        let ghost b = self.bytes();
        let mut tokens: Vec<LexToken> = Vec::new();
        let mut is_newline = false;
        let start = self.current_coordinate;
        loop
            invariant
                self.wf(),
                self.bytes() == b,
                b == old(self).bytes(),
                start == old(self).coordinate(),
                self.scope_stack() == old(self).scope_stack(),
                self.token_seq() == old(self).token_seq(),
                self.current_index() == old(self).current_index(),
                tokens@ == Seq::<LexToken>::empty(),
                start.offset <= self.coordinate().offset,
                blank_scan(b, self.coordinate().offset as int, self.coordinate().column as int, is_newline)
                    == blank_scan(b, start.offset as int, start.column as int, false),
                self.diagnostic_seq() + blank_diagnostics(b, self.coordinate().offset as int)
                    == old(self).diagnostic_seq() + blank_diagnostics(b, start.offset as int),
            ensures
                blank_scan(b, start.offset as int, start.column as int, false)
                    == (self.coordinate().offset as int, self.coordinate().column as int, is_newline),
                self.diagnostic_seq() == old(self).diagnostic_seq() + blank_diagnostics(b, start.offset as int),
            decreases b.len() - self.coordinate().offset,
        {
            let ghost pos = self.current_coordinate.offset as int;
            match self.current_byte() {
                Some(current) => {
                    if is_space(current) {
                        let ghost diags = self.diagnostics@;
                        self.consume_whitespaces();
                        proof {
                            lemma_whitespaces_end(b, pos);
                            assert(blank_diagnostics(b, pos) == whitespace_diagnostics(b, pos)
                                + blank_diagnostics(b, whitespaces_end(b, pos)));
                            assert(diags + blank_diagnostics(b, pos) =~= self.diagnostics@
                                + blank_diagnostics(b, self.current_coordinate.offset as int));
                        }
                    } else if is_break(current) {
                        self.consume_newline();
                        self.current_coordinate.enter_new_line();
                        is_newline = true;
                    } else {
                        proof {
                            assert(self.diagnostic_seq() + Seq::<LexDiagnostic>::empty() == self.diagnostic_seq());
                        }
                        break;
                    }
                },
                None => {
                    proof {
                        assert(self.diagnostic_seq() + Seq::<LexDiagnostic>::empty() == self.diagnostic_seq());
                    }
                    break;
                },
            }
        }
        if is_newline {
            tokens.push(LexToken { kind: YamlSyntaxKind::Newline, start, end: self.current_coordinate });
            let ejected = self.eject_exited_scope(self.current_coordinate);
            let mut i: usize = 0;
            proof {
                assert(ejected@.subrange(0, ejected@.len() as int) =~= ejected@);
            }
            while i < ejected.len()
                invariant
                    self.wf(),
                    0 <= i <= ejected@.len(),
                    tokens@ + close_tokens(ejected@.subrange(i as int, ejected@.len() as int), self.coordinate())
                        == seq![LexToken { kind: YamlSyntaxKind::Newline, start, end: self.coordinate() }]
                        + close_tokens(ejected@, self.coordinate()),
                decreases ejected.len() - i,
            {
                let ghost rest = ejected@.subrange(i as int, ejected@.len() as int);
                assert(rest.drop_first() =~= ejected@.subrange(i + 1, ejected@.len() as int));
                match ejected[i].close_token() {
                    Some(token) => {
                        tokens.push(LexToken { kind: token, start: self.current_coordinate, end: self.current_coordinate });
                    },
                    None => {},
                }
                proof {
                    let here = self.coordinate();
                    let head: Seq<LexToken> = match scope_close_token(rest[0]) {
                        Some(kind) => seq![LexToken { kind, start: here, end: here }],
                        None => Seq::empty(),
                    };
                    assert(close_tokens(rest, here) == head + close_tokens(rest.drop_first(), here));
                }
                i = i + 1;
                proof {
                    assert(tokens@ + close_tokens(ejected@.subrange(i as int, ejected@.len() as int), self.coordinate())
                        =~= seq![LexToken { kind: YamlSyntaxKind::Newline, start, end: self.coordinate() }]
                        + close_tokens(ejected@, self.coordinate()));
                }
            }
            proof {
                assert(ejected@.subrange(ejected@.len() as int, ejected@.len() as int) =~= Seq::<LexScope>::empty());
                assert(tokens@ + Seq::<LexToken>::empty() == tokens@);
                lemma_close_tokens_at(ejected@, self.coordinate());
                lemma_blank_scan_progress(b, start.offset as int, start.column as int, false);
                let closing = close_tokens(ejected@, self.coordinate());
                assert forall|k: int| 0 <= k < tokens@.len() implies start.offset <= (#[trigger] tokens@[k]).start.offset
                    && tokens@[k].start.offset <= tokens@[k].end.offset
                    && tokens@[k].end.offset <= self.coordinate().offset by {
                    if k > 0 {
                        assert(tokens@[k] == closing[k - 1]);
                    }
                }
            }
        } else {
            tokens.push(LexToken { kind: YamlSyntaxKind::Whitespace, start, end: self.current_coordinate });
            proof {
                lemma_blank_scan_progress(b, start.offset as int, start.column as int, false);
            }
        }
        tokens
    }

    /// Lexes a `-`, which may open a block sequence.
    fn consume_dash(&mut self) -> (tokens: Vec<LexToken>)
        requires
            old(self).wf(),
            old(self).byte_at(old(self).coordinate().offset as int) == Some(0x2du8),
        ensures
            final(self).wf(),
            final(self).coordinate().offset == old(self).coordinate().offset + 1,
            final(self).coordinate().column == old(self).coordinate().column + 1,
            ({
                let start = old(self).coordinate();
                let dash = LexToken { kind: YamlSyntaxKind::Dash, start, end: final(self).coordinate() };
                if enters_sequence(old(self).scope(), start.column) {
                    &&& tokens@ == seq![LexToken { kind: YamlSyntaxKind::SequenceStart, start, end: start }, dash]
                    &&& final(self).scope_stack() == old(self).scope_stack().push(LexScope::BlockSequence(start.column))
                } else {
                    &&& tokens@ == seq![dash]
                    &&& final(self).scope_stack() == old(self).scope_stack()
                }
            }),
            final(self).bytes() == old(self).bytes(),
            final(self).token_seq() == old(self).token_seq(),
            final(self).diagnostic_seq() == old(self).diagnostic_seq(),
            final(self).current_index() == old(self).current_index(),
    {
        let mut tokens: Vec<LexToken> = Vec::new();
        let start = self.current_coordinate;
        if self.current_scope().should_enter_sequence(start) {
            tokens.push(LexToken { kind: YamlSyntaxKind::SequenceStart, start, end: start });
            self.enter_scope(LexScope::new_sequence_scope(start));
        }
        let dash = self.consume_byte(YamlSyntaxKind::Dash);
        tokens.push(dash);
        tokens
    }

    /// Lexes a `?`, which may open a block mapping.
    fn consume_question(&mut self) -> (tokens: Vec<LexToken>)
        requires
            old(self).wf(),
            old(self).byte_at(old(self).coordinate().offset as int) == Some(0x3fu8),
        ensures
            final(self).wf(),
            final(self).coordinate().offset == old(self).coordinate().offset + 1,
            final(self).coordinate().column == old(self).coordinate().column + 1,
            ({
                let start = old(self).coordinate();
                let question = LexToken { kind: YamlSyntaxKind::Question, start, end: final(self).coordinate() };
                if enters_mapping(old(self).scope(), start.column) {
                    &&& tokens@ == seq![LexToken { kind: YamlSyntaxKind::MappingStart, start, end: start }, question]
                    &&& final(self).scope_stack() == old(self).scope_stack().push(LexScope::BlockMap(start.column))
                } else {
                    &&& tokens@ == seq![question]
                    &&& final(self).scope_stack() == old(self).scope_stack()
                }
            }),
            final(self).bytes() == old(self).bytes(),
            final(self).token_seq() == old(self).token_seq(),
            final(self).diagnostic_seq() == old(self).diagnostic_seq(),
            final(self).current_index() == old(self).current_index(),
    {
        let mut tokens: Vec<LexToken> = Vec::new();
        let start = self.current_coordinate;
        if self.current_scope().should_enter_mapping(self.current_coordinate) {
            tokens.push(LexToken { kind: YamlSyntaxKind::MappingStart, start, end: self.current_coordinate });
            self.enter_scope(LexScope::BlockMap(self.current_coordinate.column));
        }
        let question = self.consume_byte(YamlSyntaxKind::Question);
        tokens.push(question);
        tokens
    }

    /// Lexes a character that starts no token, and reports it.
    fn consume_unexpected_token(&mut self) -> (t: LexToken)
        requires
            old(self).wf(),
            old(self).coordinate().offset < old(self).bytes().len(),
        ensures
            final(self).wf(),
            ({
                let start = old(self).coordinate();
                let width = utf8_width(old(self).bytes()[start.offset as int]);
                &&& final(self).coordinate().offset == start.offset + width
                &&& final(self).coordinate().column == start.column + width
                &&& t == (LexToken { kind: YamlSyntaxKind::ErrorToken, start, end: final(self).coordinate() })
                &&& final(self).diagnostic_seq() == old(self).diagnostic_seq().push(LexDiagnostic {
                    kind: LexDiagnosticKind::UnexpectedCharacter,
                    start: start.offset,
                    end: (start.offset + width) as usize,
                })
            }),
            final(self).bytes() == old(self).bytes(),
            final(self).scope_stack() == old(self).scope_stack(),
            final(self).token_seq() == old(self).token_seq(),
            final(self).current_index() == old(self).current_index(),
    {
        let start = self.current_coordinate;
        proof {
            lemma_advance_char(self.bytes(), start.offset as int);
        }
        let width = utf8_width_of(self.source.as_bytes()[start.offset]);
        self.push_diagnostic(LexDiagnostic {
            kind: LexDiagnosticKind::UnexpectedCharacter,
            start: start.offset,
            end: start.offset + width,
        });
        self.advance_char_unchecked();
        LexToken { kind: YamlSyntaxKind::ErrorToken, start, end: self.current_coordinate }
    }

    /// Whether the lexer is at a mapping indicator: a `:` followed by a blank or the end.
    fn is_at_mapping_indicator(&self) -> (b: bool)
        requires
            self.wf_inside(),
        ensures
            b == at_mapping_indicator(self.bytes(), self.coordinate().offset as int),
    {
        match self.current_byte() {
            Some(0x3a) => match self.peek_byte() {
                None => true,
                Some(c) => is_break(c) || is_space(c),
            },
            _ => false,
        }
    }

    /// Whether `c`, the byte at the position of the lexer, may start a plain
    /// scalar (`ns-plain-first`).
    fn is_first_plain_char(&self, c: u8) -> (b: bool)
        requires
            self.wf_inside(),
            self.byte_at(self.coordinate().offset as int) == Some(c),
        ensures
            b == plain_first_at(self.bytes(), self.coordinate().offset as int, self.scope()),
    {
        (crate::yaml_scope::is_non_space_char(c) && !crate::yaml_scope::is_indicator(c))
            || ((c == 0x3f || c == 0x3a || c == 0x2d) && match self.peek_byte() {
                Some(next) => crate::yaml_scope::is_plain_safe(next, &self.current_scope()),
                None => false,
            })
    }

    /// Lexes the rest of a line of a plain scalar. A plain scalar can
    /// contain spaces: `a bc: x yz` is a valid mapping.
    fn consume_single_plain_literal_line(&mut self)
        requires
            old(self).wf(),
        ensures
            final(self).wf(),
            final(self).keeps_state_of(old(self)),
            final(self).coordinate().offset == plain_line_end(old(self).bytes(), old(self).coordinate().offset as int, old(self).scope()),
            final(self).coordinate().column == old(self).coordinate().column
                + (final(self).coordinate().offset - old(self).coordinate().offset),
    {
        let ghost b = self.bytes();
        let ghost start = self.current_coordinate;
        let scope = self.current_scope();
        loop
            invariant
                self.wf(),
                self.keeps_state_of(old(self)),
                self.bytes() == b,
                b == old(self).bytes(),
                start == old(self).coordinate(),
                scope == old(self).scope(),
                scope == self.scope(),
                start.offset <= self.coordinate().offset,
                self.coordinate().column == start.column + (self.coordinate().offset - start.offset),
                plain_line_end(b, self.coordinate().offset as int, scope) == plain_line_end(b, start.offset as int, scope),
            ensures
                self.coordinate().offset == plain_line_end(b, start.offset as int, scope),
            decreases b.len() - self.coordinate().offset,
        {
            let ghost i = self.current_coordinate.offset as int;
            match self.current_byte() {
                Some(c) => {
                    proof {
                        lemma_advance_char(b, i);
                    }
                    if crate::yaml_scope::is_plain_safe(c, &scope) && c != 0x3a && c != 0x23 {
                        self.advance_char_unchecked();
                    } else if crate::yaml_scope::is_non_space_char(c) && self.peek_byte() == Some(0x23u8) {
                        self.advance_char_unchecked();
                        self.advance(1); // '#'
                        proof {
                            lemma_after_ascii_boundary(b, i + 1);
                        }
                    } else if c == 0x3a && match self.peek_byte() {
                        Some(next) => crate::yaml_scope::is_plain_safe(next, &scope),
                        None => false,
                    } {
                        self.advance(1); // ':'
                        proof {
                            lemma_after_ascii_boundary(b, i);
                        }
                        self.advance_char_unchecked();
                    } else if is_space(c) {
                        self.advance(1);
                        proof {
                            lemma_after_ascii_boundary(b, i);
                        }
                    } else {
                        break;
                    }
                },
                None => break,
            }
        }
    }

    /// Lexes a plain scalar. A plain scalar that is followed by a mapping
    /// indicator may open a block mapping; one that is neither a key nor in a
    /// flow collection is a flow node of its own.
    fn consume_plain_literal(&mut self) -> (tokens: Vec<LexToken>)
        requires
            old(self).wf(),
            old(self).coordinate().offset < old(self).bytes().len(),
            plain_first_at(old(self).bytes(), old(self).coordinate().offset as int, old(self).scope()),
        ensures
            final(self).wf(),
            ({
                let b = old(self).bytes();
                let start = old(self).coordinate();
                let scope = old(self).scope();
                let end = final(self).coordinate();
                let plain = LexToken { kind: YamlSyntaxKind::PlainLiteral, start, end };
                &&& end.offset == plain_line_end(b, start.offset + utf8_width(b[start.offset as int]), scope)
                &&& end.column == start.column + (end.offset - start.offset)
                &&& if enters_mapping(scope, start.column) && at_mapping_indicator(b, end.offset as int) {
                    &&& tokens@ == seq![LexToken { kind: YamlSyntaxKind::MappingStart, start, end: start }, plain]
                    &&& final(self).scope_stack() == old(self).scope_stack().push(LexScope::BlockMap(start.column))
                } else if is_key_of(scope, start.column) || is_flow(scope) {
                    &&& tokens@ == seq![plain]
                    &&& final(self).scope_stack() == old(self).scope_stack()
                } else {
                    &&& tokens@ == seq![
                        LexToken { kind: YamlSyntaxKind::FlowStart, start, end: start },
                        plain,
                        LexToken { kind: YamlSyntaxKind::FlowEnd, start: end, end },
                    ]
                    &&& final(self).scope_stack() == old(self).scope_stack()
                }
            }),
            final(self).bytes() == old(self).bytes(),
            final(self).token_seq() == old(self).token_seq(),
            final(self).diagnostic_seq() == old(self).diagnostic_seq(),
            final(self).current_index() == old(self).current_index(),
    {
        let start = self.current_coordinate;
        let mut tokens: Vec<LexToken> = Vec::new();
        self.advance_char_unchecked();
        self.consume_single_plain_literal_line();
        proof {
            lemma_plain_line_end_after(self.bytes(), start.offset + utf8_width(self.bytes()[start.offset as int]), old(self).scope());
        }
        if self.current_scope().should_enter_mapping(start) && self.is_at_mapping_indicator() {
            self.enter_scope(LexScope::BlockMap(start.column));
            tokens.push(LexToken::new(YamlSyntaxKind::MappingStart, start, start));
            tokens.push(LexToken::new(YamlSyntaxKind::PlainLiteral, start, self.current_coordinate));
        } else if self.current_scope().is_mapping_key(start) || match self.current_scope() {
            LexScope::FlowCollection { .. } => true,
            _ => false,
        } {
            tokens.push(LexToken::new(YamlSyntaxKind::PlainLiteral, start, self.current_coordinate));
        } else {
            tokens.push(LexToken::new(YamlSyntaxKind::FlowStart, start, start));
            tokens.push(LexToken::new(YamlSyntaxKind::PlainLiteral, start, self.current_coordinate));
            tokens.push(LexToken::new(YamlSyntaxKind::FlowEnd, self.current_coordinate, self.current_coordinate));
        }
        tokens
    }

    /// At the end of the text: closes every scope, innermost first, and
    /// ends with the end of the file.
    fn consume_end(&mut self) -> (tokens: Vec<LexToken>)
        requires
            old(self).wf(),
            old(self).coordinate().offset >= old(self).bytes().len(),
        ensures
            final(self).wf(),
            final(self).coordinate() == old(self).coordinate(),
            final(self).bytes() == old(self).bytes(),
            final(self).token_seq() == old(self).token_seq(),
            final(self).diagnostic_seq() == old(self).diagnostic_seq(),
            final(self).current_index() == old(self).current_index(),
            final(self).scope_stack() == Seq::<LexScope>::empty(),
            tokens@ == closing_tokens(old(self).scope_stack(), old(self).coordinate())
                .push(LexToken { kind: YamlSyntaxKind::Eof, start: old(self).coordinate(), end: old(self).coordinate() }),
    {
        let here = self.current_coordinate;
        let mut tokens: Vec<LexToken> = Vec::new();
        loop
            invariant
                self.wf(),
                self.coordinate() == here,
                here == old(self).coordinate(),
                self.bytes() == old(self).bytes(),
                self.token_seq() == old(self).token_seq(),
                self.current_index() == old(self).current_index(),
                self.diagnostic_seq() == old(self).diagnostic_seq(),
                tokens@ + closing_tokens(self.scopes@, here) == closing_tokens(old(self).scope_stack(), here),
            ensures
                self.scopes@ == Seq::<LexScope>::empty(),
                tokens@ == closing_tokens(old(self).scope_stack(), here),
            decreases self.scopes@.len(),
        {
            let ghost before = self.scopes@;
            match self.scopes.pop() {
                Some(scope) => {
                    proof {
                        assert(before.reverse() =~= seq![scope] + self.scopes@.reverse());
                        assert(before.reverse().drop_first() =~= self.scopes@.reverse());
                        assert forall|i: int| 0 <= i < self.scopes@.len() implies
                            #[trigger] scope_bounded(self.scopes@[i], self.current_coordinate.offset as int) by {
                            assert(self.scopes@[i] == before[i]);
                        }
                    }
                    match scope.close_token() {
                        Some(token) => tokens.push(LexToken { kind: token, start: here, end: here }),
                        None => {},
                    }
                    proof {
                        assert(tokens@ + closing_tokens(self.scopes@, here) =~= closing_tokens(old(self).scope_stack(), here));
                    }
                },
                None => {
                    proof {
                        assert(self.scopes@.reverse() =~= Seq::<LexScope>::empty());
                        assert(tokens@ + Seq::<LexToken>::empty() == tokens@);
                    }
                    break;
                },
            }
        }
        tokens.push(LexToken { kind: YamlSyntaxKind::Eof, start: here, end: here });
        tokens
    }

    /// Lexes the next tokens. At the end of the file, every scope is closed
    /// and the end of the file is the last token.
    fn consume_tokens(&mut self) -> (tokens: Vec<LexToken>)
        requires
            old(self).wf(),
        ensures
            final(self).wf(),
            final(self).bytes() == old(self).bytes(),
            final(self).token_seq() == old(self).token_seq(),
            final(self).current_index() == old(self).current_index(),
            (tokens@, final(self).state()) == lex_step(old(self).bytes(), old(self).state()),
            tokens@.len() > 0,
            tokens_between(tokens@, old(self).coordinate().offset as int, final(self).coordinate().offset as int),
            old(self).coordinate().offset < old(self).bytes().len() ==> final(self).coordinate().offset > old(self).coordinate().offset,
            old(self).coordinate().offset >= old(self).bytes().len() ==> {
                &&& final(self).coordinate() == old(self).coordinate()
                &&& final(self).scope_stack() == Seq::<LexScope>::empty()
                &&& tokens@ == closing_tokens(old(self).scope_stack(), old(self).coordinate())
                    .push(LexToken { kind: YamlSyntaxKind::Eof, start: old(self).coordinate(), end: old(self).coordinate() })
            },
        decreases old(self).bytes().len() - old(self).coordinate().offset, flow_rank(old(self).scope()), 1int,
    {
        let here = self.current_coordinate;
        let ghost b = self.bytes();
        let ghost i = here.offset as int;
        let current = match self.current_byte() {
            Some(current) => current,
            None => {
                let tokens = self.consume_end();
                proof {
                    lemma_closing_tokens_at(old(self).scope_stack(), here);
                    let closing = closing_tokens(old(self).scope_stack(), here);
                    assert forall|k: int| 0 <= k < tokens@.len() implies here.offset <= (#[trigger] tokens@[k]).start.offset
                        && tokens@[k].start.offset <= tokens@[k].end.offset
                        && tokens@[k].end.offset <= here.offset by {
                        if k < closing.len() {
                            assert(tokens@[k] == closing[k]);
                        }
                    }
                }
                return tokens;
            },
        };
        proof {
            lemma_advance_char(b, i);
            crate::yaml_scope::lemma_utf8_width_bounds(b[i]);
        }
        if self.is_first_plain_char(current) {
            let tokens = self.consume_plain_literal();
            proof {
                lemma_plain_line_end_after(b, i + utf8_width(b[i]), old(self).scope());
            }
            tokens
        } else if current == 0x3a {
            vec![self.consume_byte(YamlSyntaxKind::Colon)]
        } else if current == 0x2c {
            vec![self.consume_byte(YamlSyntaxKind::Comma)]
        } else if current == 0x23 {
            let token = self.consume_comment();
            proof {
                lemma_comment_end(b, i + 1);
            }
            vec![token]
        } else if current == 0x27 {
            let token = self.consume_single_quoted_literal();
            proof {
                lemma_single_quoted_end(b, i + 1);
            }
            vec![token]
        } else if current == 0x22 {
            let token = self.consume_double_quoted_literal();
            proof {
                lemma_double_quoted_end(b, i + 1);
            }
            vec![token]
        } else if current == 0x5b || current == 0x5d || current == 0x7b || current == 0x7d {
            self.consume_flow_start(current)
        } else if current == 0x3f {
            self.consume_question()
        } else if current == 0x2d {
            self.consume_dash()
        } else if is_space(current) || is_break(current) {
            let tokens = self.consume_blank();
            proof {
                lemma_blank_scan_progress(b, i, here.column as int, false);
            }
            tokens
        } else {
            vec![self.consume_unexpected_token()]
        }
    }

    /// Lexes a flow indicator. Outside a flow collection, it enters one and
    /// lexes it whole: the collection is a flow node of its own, or the key
    /// of a new block mapping when a mapping indicator follows it.
    fn consume_flow_start(&mut self, current: u8) -> (tokens: Vec<LexToken>)
        requires
            old(self).wf(),
            old(self).byte_at(old(self).coordinate().offset as int) == Some(current),
            current == 0x5b || current == 0x5d || current == 0x7b || current == 0x7d,
        ensures
            final(self).wf(),
            final(self).bytes() == old(self).bytes(),
            final(self).token_seq() == old(self).token_seq(),
            final(self).current_index() == old(self).current_index(),
            (tokens@, final(self).state()) == flow_step(old(self).bytes(), old(self).state()),
            tokens@.len() > 0,
            tokens_between(tokens@, old(self).coordinate().offset as int, final(self).coordinate().offset as int),
            final(self).coordinate().offset > old(self).coordinate().offset,
        decreases old(self).bytes().len() - old(self).coordinate().offset, flow_rank(old(self).scope()), 0int,
    {
        let start = self.current_coordinate;
        let ghost b = self.bytes();
        proof {
            lemma_advance_char(b, start.offset as int);
        }
        let n = self.scopes.len();
        if n > 0 {
            match self.scopes[n - 1] {
                LexScope::FlowCollection { border, num_nested } => {
                    proof {
                        assert(scope_bounded(self.scopes@[n - 1], start.offset as int));
                    }
                    let kind = if current == 0x5b {
                        YamlSyntaxKind::LBrack
                    } else if current == 0x5d {
                        YamlSyntaxKind::RBrack
                    } else if current == 0x7b {
                        YamlSyntaxKind::LCurly
                    } else {
                        YamlSyntaxKind::RCurly
                    };
                    let token = self.consume_byte(kind);
                    let nested = if current == 0x5b || current == 0x7b {
                        num_nested + 1
                    } else {
                        num_nested.saturating_sub(1)
                    };
                    let ghost before = self.scopes@;
                    self.scopes.set(n - 1, LexScope::FlowCollection { border, num_nested: nested });
                    proof {
                        assert forall|k: int| 0 <= k < self.scopes@.len() implies
                            #[trigger] scope_bounded(self.scopes@[k], self.current_coordinate.offset as int) by {
                            if k != n - 1 {
                                assert(self.scopes@[k] == before[k]);
                                assert(scope_bounded(before[k], start.offset as int));
                            }
                        }
                    }
                    return vec![token];
                },
                _ => {},
            }
        }
        let parent = self.current_scope();
        proof {
            assert(!is_flow(parent));
            if self.scopes@.len() > 0 {
                assert(scope_bounded(self.scopes@[self.scopes@.len() - 1], start.offset as int));
            }
        }
        self.enter_scope(LexScope::new_flow_scope(&parent));
        let ghost entered = self.state();
        let mut tokens: Vec<LexToken> = Vec::new();
        let mut first = true;
        proof {
            assert(tokens@ + flow_loop(b, self.state()).0 =~= flow_loop(b, self.state()).0);
        }
        loop
            invariant_except_break
                flow_loop(b, entered) == (tokens@ + flow_loop(b, self.state()).0, flow_loop(b, self.state()).1),
            invariant
                entered == (LexState {
                    scopes: old(self).state().scopes.push(flow_scope_in(scope_of(old(self).state().scopes))),
                    ..old(self).state()
                }),
                self.wf(),
                self.bytes() == b,
                b == old(self).bytes(),
                start == old(self).coordinate(),
                !is_flow(old(self).scope()),
                self.token_seq() == old(self).token_seq(),
                self.current_index() == old(self).current_index(),
                start.offset < b.len(),
                first ==> self.coordinate() == start && is_flow(self.scope()),
                !first ==> self.coordinate().offset > start.offset,
                tokens_between(tokens@, start.offset as int, self.coordinate().offset as int),
            ensures
                flow_loop(b, entered) == (tokens@, self.state()),
                self.wf(),
                self.bytes() == b,
                self.token_seq() == old(self).token_seq(),
                self.current_index() == old(self).current_index(),
                self.coordinate().offset > start.offset,
                tokens_between(tokens@, start.offset as int, self.coordinate().offset as int),
            decreases b.len() - self.coordinate().offset, if first { 1int } else { 0int },
        {
            let ghost s0 = self.state();
            let ghost before_tokens = tokens@;
            let ghost before_offset = self.current_coordinate.offset as int;
            let mut more = self.consume_tokens();
            let ghost more_tokens = more@;
            tokens.append(&mut more);
            proof {
                assert forall|k: int| 0 <= k < tokens@.len() implies start.offset <= (#[trigger] tokens@[k]).start.offset
                    && tokens@[k].start.offset <= tokens@[k].end.offset
                    && tokens@[k].end.offset <= self.current_coordinate.offset by {
                    if k < before_tokens.len() {
                        assert(tokens@[k] == before_tokens[k]);
                    } else {
                        assert(tokens@[k] == more_tokens[k - before_tokens.len()]);
                    }
                }
            }
            first = false;
            proof {
                assert(before_tokens + (more_tokens + flow_loop(b, self.state()).0)
                    =~= tokens@ + flow_loop(b, self.state()).0);
                assert(before_tokens + more_tokens =~= tokens@);
            }
            match self.current_scope() {
                LexScope::FlowCollection { num_nested, .. } => {
                    if num_nested == 0 {
                        break;
                    }
                    proof {
                        assert(self.scopes@.len() > 0);
                        assert(before_offset < b.len());
                    }
                },
                _ => break,
            }
        }
        let end = self.current_coordinate;
        if self.is_at_mapping_indicator() {
            let m = self.scopes.len();
            if m == 0 {
                let ghost inner = tokens@;
                tokens.insert(0, LexToken::new(YamlSyntaxKind::FlowStart, start, start));
                tokens.push(LexToken::new(YamlSyntaxKind::FlowEnd, end, end));
                proof {
                    assert(tokens@ =~= seq![LexToken { kind: YamlSyntaxKind::FlowStart, start, end: start }] + inner
                        + seq![LexToken { kind: YamlSyntaxKind::FlowEnd, start: end, end }]);
                    lemma_framed_between(inner, tokens@, start, end);
                }
                return tokens;
            }
            let ghost before = self.scopes@;
            self.scopes.set(m - 1, LexScope::new_mapping_scope(end));
            proof {
                assert forall|k: int| 0 <= k < self.scopes@.len() implies
                    #[trigger] scope_bounded(self.scopes@[k], self.current_coordinate.offset as int) by {
                    if k != m - 1 {
                        assert(self.scopes@[k] == before[k]);
                    }
                }
            }
            let ghost inner = tokens@;
            tokens.insert(0, LexToken::new(YamlSyntaxKind::MappingStart, start, start));
            proof {
                assert(tokens@ =~= seq![LexToken { kind: YamlSyntaxKind::MappingStart, start, end: start }] + inner);
                assert forall|k: int| 0 <= k < tokens@.len() implies start.offset <= (#[trigger] tokens@[k]).start.offset
                    && tokens@[k].start.offset <= tokens@[k].end.offset
                    && tokens@[k].end.offset <= end.offset by {
                    if k > 0 {
                        assert(tokens@[k] == inner[k - 1]);
                    }
                }
            }
        } else {
            match self.current_scope() {
                LexScope::FlowCollection { .. } => {
                    let ghost before = self.scopes@;
                    self.scopes.pop();
                    proof {
                        assert forall|k: int| 0 <= k < self.scopes@.len() implies
                            #[trigger] scope_bounded(self.scopes@[k], self.current_coordinate.offset as int) by {
                            assert(self.scopes@[k] == before[k]);
                        }
                    }
                },
                _ => {},
            }
            let ghost inner = tokens@;
            tokens.insert(0, LexToken::new(YamlSyntaxKind::FlowStart, start, start));
            tokens.push(LexToken::new(YamlSyntaxKind::FlowEnd, end, end));
            proof {
                assert(tokens@ =~= seq![LexToken { kind: YamlSyntaxKind::FlowStart, start, end: start }] + inner
                    + seq![LexToken { kind: YamlSyntaxKind::FlowEnd, start: end, end }]);
                lemma_framed_between(inner, tokens@, start, end);
            }
        }
        tokens
    }
}

impl<'src> YamlLexer<'src> {
    /// The token at `index` in `tokens`, or the end of the file at
    /// `coordinate` past the last token.
    pub open spec fn token_or_end(tokens: Seq<LexToken>, index: usize, coordinate: TextCoordinate) -> LexToken {
        if index < tokens.len() {
            tokens[index as int]
        } else {
            LexToken { kind: YamlSyntaxKind::Eof, start: coordinate, end: coordinate }
        }
    }

    /// The current token of the lexer.
    pub open spec fn current_token_spec(&self) -> LexToken {
        Self::token_or_end(self.token_seq(), self.current_index(), self.coordinate())
    }

    /// The current token. Past the last token, it is the end of the file, so
    /// that a malformed text does not stop the caller.
    pub fn current_token(&self) -> (t: LexToken)
        ensures
            t == self.current_token_spec(),
    {
        if self.token_index < self.tokens.len() {
            self.tokens[self.token_index]
        } else {
            LexToken { kind: YamlSyntaxKind::Eof, start: self.current_coordinate, end: self.current_coordinate }
        }
    }

    /// The kind of the current token.
    pub fn current(&self) -> (kind: YamlSyntaxKind)
        ensures
            kind == self.current_token_spec().kind,
    {
        self.current_token().kind
    }

    /// The byte range of the current token: its start and end offsets.
    pub fn current_range(&self) -> (range: (usize, usize))
        ensures
            range == (self.current_token_spec().start.offset, self.current_token_spec().end.offset),
    {
        let token = self.current_token();
        (token.start.offset, token.end.offset)
    }

    /// The byte offset where the current token starts.
    pub fn current_start(&self) -> (start: usize)
        ensures
            start == self.current_token_spec().start.offset,
    {
        self.current_token().start.offset
    }

    /// The source text.
    pub fn source(&self) -> (s: &'src str)
        ensures
            s.spec_bytes() == self.bytes(),
    {
        self.source
    }

    /// Moves to the next token and returns its kind. Tokens are lexed when
    /// the lexer runs out of them: at the end of the text, every scope is
    /// closed and the end of the file comes last.
    pub fn next_token(&mut self) -> (kind: YamlSyntaxKind)
        requires
            old(self).wf(),
        ensures
            final(self).wf(),
            final(self).bytes() == old(self).bytes(),
            final(self).current_index() == old(self).current_index() + 1,
            kind == final(self).current_token_spec().kind,
            final(self).current_index() < final(self).token_seq().len(),
            old(self).tokens_tile() ==> final(self).tokens_tile(),
            old(self).current_index() + 1 < old(self).token_seq().len() ==> {
                &&& final(self).token_seq() == old(self).token_seq()
                &&& final(self).coordinate() == old(self).coordinate()
                &&& final(self).scope_stack() == old(self).scope_stack()
                &&& final(self).diagnostic_seq() == old(self).diagnostic_seq()
            },
            old(self).current_index() + 1 >= old(self).token_seq().len() ==> {
                let lexed = final(self).token_seq().subrange(old(self).token_seq().len() as int, final(self).token_seq().len() as int);
                &&& final(self).token_seq().len() > old(self).token_seq().len()
                &&& final(self).token_seq().subrange(0, old(self).token_seq().len() as int) == old(self).token_seq()
                &&& (lexed, final(self).state()) == lex_step(old(self).bytes(), old(self).state())
                &&& tokens_between(lexed, old(self).coordinate().offset as int, final(self).coordinate().offset as int)
                &&& old(self).coordinate().offset < old(self).bytes().len()
                    ==> final(self).coordinate().offset > old(self).coordinate().offset
                &&& old(self).coordinate().offset >= old(self).bytes().len() ==> {
                    &&& final(self).coordinate() == old(self).coordinate()
                    &&& final(self).scope_stack() == Seq::<LexScope>::empty()
                    &&& lexed == closing_tokens(old(self).scope_stack(), old(self).coordinate())
                        .push(LexToken { kind: YamlSyntaxKind::Eof, start: old(self).coordinate(), end: old(self).coordinate() })
                }
            },
    {
        let n = self.tokens.len();
        let index = self.token_index + 1;
        if n <= index {
            let ghost before = self.tokens@;
            let mut more = self.consume_tokens();
            let ghost lexed = more@;
            let ghost from = old(self).coordinate().offset as int;
            self.tokens.append(&mut more);
            proof {
                law_lex_step_tiles(old(self).bytes(), old(self).state());
                if old(self).tokens_tile() {
                    lemma_tiles_concat(before, lexed, 0, from, self.coordinate().offset as int);
                    assert(self.tokens@ =~= before + lexed);
                }
                let len = self.bytes().len() as int;
                assert(self.tokens@.subrange(before.len() as int, self.tokens@.len() as int) =~= lexed);
                assert(self.tokens@.subrange(0, before.len() as int) =~= before);
                assert forall|k: int| 0 <= k < self.tokens@.len() implies 0 <= (#[trigger] self.tokens@[k]).start.offset
                    && self.tokens@[k].start.offset <= self.tokens@[k].end.offset && self.tokens@[k].end.offset <= len by {
                    if k < before.len() {
                        assert(self.tokens@[k] == before[k]);
                    } else {
                        assert(self.tokens@[k] == lexed[k - before.len()]);
                    }
                }
            }
        }
        self.token_index = index;
        self.current_token().kind
    }

    /// Whether a line break precedes the current token: the YAML lexer
    /// keeps line breaks as tokens, so it never reports one.
    pub fn has_preceding_line_break(&self) -> (b: bool)
        ensures
            !b,
    {
        false
    }

    /// Whether the current token holds a unicode escape: the YAML lexer
    /// never reports one.
    pub fn has_unicode_escape(&self) -> (b: bool)
        ensures
            !b,
    {
        false
    }

    /// Ends lexing and hands out the diagnostics.
    pub fn finish(self) -> (diagnostics: Vec<LexDiagnostic>)
        ensures
            diagnostics@ == self.diagnostic_seq(),
    {
        self.diagnostics
    }
}

impl LexToken {
    /// The placeholder token before the first token.
    pub open spec fn spec_tombstone() -> LexToken {
        LexToken {
            kind: YamlSyntaxKind::Tombstone,
            start: TextCoordinate { offset: 0, column: 0 },
            end: TextCoordinate { offset: 0, column: 0 },
        }
    }
}

} // verus!
