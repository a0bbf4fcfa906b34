//! Building blocks of the YAML lexer: token kinds, text coordinates,
//! lexing scopes and the character classes of the YAML specification.

use vstd::prelude::*;

use vstd::utf8::{
    is_char_boundary, is_continuation_byte, is_leading_byte_width_1, is_leading_byte_width_2,
    is_leading_byte_width_3, length_of_first_scalar, pop_first_scalar, valid_first_scalar, valid_utf8,
};

verus! {

/// The kinds of the tokens that the YAML lexer emits.
#[derive(Clone, Copy, Debug, PartialEq, Eq, Structural, Hash)]
pub enum YamlSyntaxKind {
    /// A placeholder before the first token.
    Tombstone,
    /// The end of the file.
    Eof,
    /// `:`
    Colon,
    /// `,`
    Comma,
    /// `-`
    Dash,
    /// `?`
    Question,
    /// `[`
    LBrack,
    /// `]`
    RBrack,
    /// `{`
    LCurly,
    /// `}`
    RCurly,
    /// `# ...` up to the end of the line
    Comment,
    /// `'...'`
    SingleQuotedLiteral,
    /// `"..."`
    DoubleQuotedLiteral,
    /// A plain scalar
    PlainLiteral,
    /// The start of a block sequence
    SequenceStart,
    /// The end of a block sequence
    SequenceEnd,
    /// The start of a block mapping
    MappingStart,
    /// The end of a block mapping
    MappingEnd,
    /// The start of a flow node
    FlowStart,
    /// The end of a flow node
    FlowEnd,
    /// Line breaks, with the blanks around them
    Newline,
    /// Blanks inside a line
    Whitespace,
    /// A character that starts no token
    ErrorToken,
}

/// A position in the source text.
#[derive(Clone, Copy, Debug, Default, PartialEq, Eq, Structural)]
pub struct TextCoordinate {
    /// The byte position in the source text.
    pub offset: usize,
    /// The number of bytes since the last new line.
    pub column: usize,
}

impl TextCoordinate {
    /// Moves `n` bytes forward on the same line.
    pub fn advance(&mut self, n: usize)
        requires
            old(self).offset + n <= usize::MAX,
            old(self).column + n <= usize::MAX,
        ensures
            final(self).offset == old(self).offset + n,
            final(self).column == old(self).column + n,
    {
        self.offset = self.offset + n;
        self.column = self.column + n;
    }

    /// Moves to the start of a new line.
    pub fn enter_new_line(&mut self)
        ensures
            final(self).offset == old(self).offset,
            final(self).column == 0,
    {
        self.column = 0;
    }
}

/// A lexed token: its kind and where it starts and ends.
#[derive(Clone, Copy, Debug, PartialEq, Eq, Structural)]
pub struct LexToken {
    pub start: TextCoordinate,
    pub end: TextCoordinate,
    pub kind: YamlSyntaxKind,
}

impl LexToken {
    /// A token of kind `kind` from `start` to `end`.
    pub fn new(kind: YamlSyntaxKind, start: TextCoordinate, end: TextCoordinate) -> (t: LexToken)
        ensures
            t == (LexToken { start, end, kind }),
    {
        LexToken { start, end, kind }
    }

    /// The placeholder token before the first token.
    pub fn tombstone() -> (t: LexToken)
        ensures
            t.kind == YamlSyntaxKind::Tombstone,
            t.start == (TextCoordinate { offset: 0, column: 0 }),
            t.end == (TextCoordinate { offset: 0, column: 0 }),
    {
        LexToken {
            kind: YamlSyntaxKind::Tombstone,
            start: TextCoordinate { offset: 0, column: 0 },
            end: TextCoordinate { offset: 0, column: 0 },
        }
    }
}

/// The scope in which the lexer is: it decides which tokens open and close
/// block collections.
#[derive(Clone, Copy, Debug, PartialEq, Eq, Structural)]
pub enum LexScope {
    Document,
    BlockSequence(usize),
    BlockMap(usize),
    FlowCollection { border: usize, num_nested: usize },
}

/// The scope of a new flow collection inside `parent`.
pub open spec fn flow_scope_in(parent: LexScope) -> LexScope {
    match parent {
        LexScope::Document => LexScope::FlowCollection { border: 0, num_nested: 0 },
        LexScope::BlockSequence(border) => LexScope::FlowCollection { border: (border + 1) as usize, num_nested: 0 },
        LexScope::BlockMap(border) => LexScope::FlowCollection { border: (border + 1) as usize, num_nested: 0 },
        LexScope::FlowCollection { border, num_nested } => LexScope::FlowCollection {
            border,
            num_nested: (num_nested + 1) as usize,
        },
    }
}

/// Whether the column `column` lies inside `scope`.
pub open spec fn scope_contains(scope: LexScope, column: usize) -> bool {
    match scope {
        LexScope::Document => true,
        LexScope::BlockSequence(border) => column >= border,
        LexScope::BlockMap(border) => column >= border,
        LexScope::FlowCollection { border, .. } => column >= border,
    }
}

/// The token that closes `scope`, if any.
pub open spec fn scope_close_token(scope: LexScope) -> Option<YamlSyntaxKind> {
    match scope {
        LexScope::Document => None,
        LexScope::BlockSequence(_) => Some(YamlSyntaxKind::SequenceEnd),
        LexScope::BlockMap(_) => Some(YamlSyntaxKind::MappingEnd),
        LexScope::FlowCollection { .. } => None,
    }
}

/// Whether `scope` is a flow collection.
pub open spec fn is_flow(scope: LexScope) -> bool {
    scope matches LexScope::FlowCollection { .. }
}

/// Whether a borders bound is respected: every border fits below `usize::MAX`.
pub open spec fn borders_bounded(scope: LexScope) -> bool {
    match scope {
        LexScope::Document => true,
        LexScope::BlockSequence(border) => border < usize::MAX,
        LexScope::BlockMap(border) => border < usize::MAX,
        LexScope::FlowCollection { num_nested, .. } => num_nested < usize::MAX,
    }
}

impl LexScope {
    /// The scope of a new flow collection inside `parent_scope`.
    pub fn new_flow_scope(parent_scope: &LexScope) -> (s: LexScope)
        requires
            borders_bounded(*parent_scope),
        ensures
            s == flow_scope_in(*parent_scope),
    {
        match parent_scope {
            LexScope::Document => LexScope::FlowCollection { border: 0, num_nested: 0 },
            LexScope::BlockSequence(border) => LexScope::FlowCollection { border: *border + 1, num_nested: 0 },
            LexScope::BlockMap(border) => LexScope::FlowCollection { border: *border + 1, num_nested: 0 },
            LexScope::FlowCollection { border, num_nested } => LexScope::FlowCollection {
                border: *border,
                num_nested: *num_nested + 1,
            },
        }
    }

    /// The scope of a block mapping whose keys start at `coordinate`.
    pub fn new_mapping_scope(coordinate: TextCoordinate) -> (s: LexScope)
        ensures
            s == LexScope::BlockMap(coordinate.column),
    {
        LexScope::BlockMap(coordinate.column)
    }

    /// The scope of a block sequence whose entries start at `coordinate`.
    pub fn new_sequence_scope(coordinate: TextCoordinate) -> (s: LexScope)
        ensures
            s == LexScope::BlockSequence(coordinate.column),
    {
        LexScope::BlockSequence(coordinate.column)
    }

    /// Whether `coordinate` lies inside the scope.
    pub fn contain(&self, coordinate: TextCoordinate) -> (b: bool)
        ensures
            b == scope_contains(*self, coordinate.column),
    {
        match self {
            LexScope::Document => true,
            LexScope::BlockSequence(border) => coordinate.column >= *border,
            LexScope::BlockMap(border) => coordinate.column >= *border,
            LexScope::FlowCollection { border, .. } => coordinate.column >= *border,
        }
    }

    /// Whether a mapping key at `position` opens a new block mapping.
    pub fn should_enter_mapping(&self, position: TextCoordinate) -> (b: bool)
        ensures
            b == enters_mapping(*self, position.column),
    {
        match self {
            LexScope::Document => true,
            LexScope::BlockSequence(border) => position.column > *border,
            LexScope::BlockMap(border) => position.column > *border,
            LexScope::FlowCollection { .. } => false,
        }
    }

    /// Whether a plain scalar at `position` is a key of the current block mapping.
    pub fn is_mapping_key(&self, position: TextCoordinate) -> (b: bool)
        ensures
            b == is_key_of(*self, position.column),
    {
        match self {
            LexScope::BlockMap(border) => *border == position.column,
            _ => false,
        }
    }

    /// Whether a `-` at `position` opens a new block sequence.
    pub fn should_enter_sequence(&self, position: TextCoordinate) -> (b: bool)
        ensures
            b == enters_sequence(*self, position.column),
    {
        match self {
            LexScope::BlockSequence(border) => position.column > *border,
            LexScope::BlockMap(border) => position.column >= *border,
            LexScope::FlowCollection { .. } => false,
            LexScope::Document => true,
        }
    }

    /// The token that closes the scope, if any.
    pub fn close_token(&self) -> (t: Option<YamlSyntaxKind>)
        ensures
            t == scope_close_token(*self),
    {
        match self {
            LexScope::Document => None,
            LexScope::BlockSequence(_) => Some(YamlSyntaxKind::SequenceEnd),
            LexScope::BlockMap(_) => Some(YamlSyntaxKind::MappingEnd),
            // Depending on whether this collection is a mapping key, the lexer might not want to
            // emit a FLOW_END token.
            LexScope::FlowCollection { .. } => None,
        }
    }
}

/// `s-white`: a space or a tab.
pub open spec fn space_byte(c: u8) -> bool {
    c == 0x20 || c == 0x09
}

/// `b-char`: a line feed or a carriage return.
pub open spec fn break_byte(c: u8) -> bool {
    c == 0x0a || c == 0x0d
}

/// `ns-char`: neither a space nor a break.
pub open spec fn non_space_byte(c: u8) -> bool {
    !space_byte(c) && !break_byte(c)
}

/// `c-flow-indicator`: `,` `[` `]` `{` `}`.
pub open spec fn flow_indicator_byte(c: u8) -> bool {
    c == 0x2c || c == 0x5b || c == 0x5d || c == 0x7b || c == 0x7d
}

/// `c-indicator`: a character with a special meaning in YAML.
pub open spec fn indicator_byte(c: u8) -> bool {
    c == 0x2d || c == 0x3f || c == 0x3a || c == 0x23 || c == 0x26 || c == 0x2a || c == 0x21
        || c == 0x7c || c == 0x3e || c == 0x27 || c == 0x22 || c == 0x25 || c == 0x40 || c == 0x60
        || flow_indicator_byte(c)
}

/// `ns-plain-safe`: a character that may stand inside a plain scalar in `scope`.
pub open spec fn plain_safe_byte(c: u8, scope: LexScope) -> bool {
    if is_flow(scope) {
        non_space_byte(c) && !flow_indicator_byte(c)
    } else {
        non_space_byte(c)
    }
}

/// Whether `c` is a space or a tab (`s-white`).
pub fn is_space(c: u8) -> (b: bool)
    ensures
        b == space_byte(c),
{
    c == 0x20 || c == 0x09
}

/// Whether `c` is a line feed or a carriage return (`b-char`).
pub fn is_break(c: u8) -> (b: bool)
    ensures
        b == break_byte(c),
{
    c == 0x0a || c == 0x0d
}

/// Whether `c` is neither a space nor a break (`ns-char`).
pub fn is_non_space_char(c: u8) -> (b: bool)
    ensures
        b == non_space_byte(c),
{
    !is_space(c) && !is_break(c)
}

/// Whether `c` is a flow indicator (`c-flow-indicator`).
pub fn is_flow_indicator(c: u8) -> (b: bool)
    ensures
        b == flow_indicator_byte(c),
{
    c == 0x2c || c == 0x5b || c == 0x5d || c == 0x7b || c == 0x7d
}

/// Whether `c` is an indicator (`c-indicator`).
pub fn is_indicator(c: u8) -> (b: bool)
    ensures
        b == indicator_byte(c),
{
    c == 0x2d || c == 0x3f || c == 0x3a || c == 0x23 || c == 0x26 || c == 0x2a || c == 0x21
        || c == 0x7c || c == 0x3e || c == 0x27 || c == 0x22 || c == 0x25 || c == 0x40 || c == 0x60
        || is_flow_indicator(c)
}

/// Whether `c` may stand inside a plain scalar in `scope` (`ns-plain-safe`).
pub fn is_plain_safe(c: u8, scope: &LexScope) -> (b: bool)
    ensures
        b == plain_safe_byte(c, *scope),
{
    match scope {
        LexScope::FlowCollection { .. } => is_non_space_char(c) && !is_flow_indicator(c),
        _ => is_non_space_char(c),
    }
}

/// The number of bytes of the UTF-8 encoding that starts with the byte `b`.
pub open spec fn utf8_width(b: u8) -> usize {
    if is_leading_byte_width_1(b) {
        1
    } else if is_leading_byte_width_2(b) {
        2
    } else if is_leading_byte_width_3(b) {
        3
    } else {
        4
    }
}

/// The number of bytes of the UTF-8 encoding that starts with the byte `b`
/// (`char::len_utf8` of the character that starts there).
pub fn utf8_width_of(b: u8) -> (w: usize)
    ensures
        w == utf8_width(b),
{
    if b <= 0x7f {
        1
    } else if 0xc0 <= b && b <= 0xdf {
        2
    } else if 0xe0 <= b && b <= 0xef {
        3
    } else {
        4
    }
}

/// In valid UTF-8, a position that holds no continuation byte is a
/// character boundary, and so is the end.
pub proof fn lemma_boundary_at(bytes: Seq<u8>, i: int)
    requires
        valid_utf8(bytes),
        0 <= i <= bytes.len(),
        i == bytes.len() || !is_continuation_byte(bytes[i]),
    ensures
        is_char_boundary(bytes, i),
{
    if i == bytes.len() {
        vstd::utf8::is_char_boundary_start_end_of_seq(bytes);
    } else {
        vstd::utf8::is_char_boundary_iff_not_is_continuation_byte(bytes, i);
    }
}

/// In valid UTF-8, the character that starts at a boundary ends inside the
/// bytes, at another boundary.
pub proof fn lemma_advance_char(bytes: Seq<u8>, i: int)
    requires
        valid_utf8(bytes),
        0 <= i < bytes.len(),
        is_char_boundary(bytes, i),
    ensures
        i + utf8_width(bytes[i]) <= bytes.len(),
        is_char_boundary(bytes, i + utf8_width(bytes[i])),
        !is_continuation_byte(bytes[i]),
{
    vstd::utf8::valid_utf8_split(bytes, i);
    let rest = bytes.subrange(i, bytes.len() as int);
    assert(rest.len() > 0);
    assert(rest[0] == bytes[i]);
    assert(valid_first_scalar(rest));
    assert(length_of_first_scalar(rest) == utf8_width(bytes[i]));
    let w = utf8_width(bytes[i]) as int;
    let tail = pop_first_scalar(rest);
    assert(valid_utf8(tail));
    if i + w < bytes.len() {
        assert(tail.len() > 0);
        assert(tail[0] == bytes[i + w]);
        assert(valid_first_scalar(tail));
        lemma_boundary_at(bytes, i + w);
    } else {
        lemma_boundary_at(bytes, i + w);
    }
}

/// In valid UTF-8, the position after an ASCII byte is a character boundary.
pub proof fn lemma_after_ascii_boundary(bytes: Seq<u8>, i: int)
    requires
        valid_utf8(bytes),
        0 <= i < bytes.len(),
        bytes[i] < 0x80,
    ensures
        is_char_boundary(bytes, i + 1),
{
    lemma_boundary_at(bytes, i);
    lemma_advance_char(bytes, i);
}

/// Whether a `-` at `column` opens a new block sequence in `scope`.
pub open spec fn enters_sequence(scope: LexScope, column: usize) -> bool {
    match scope {
        LexScope::BlockSequence(border) => column > border,
        LexScope::BlockMap(border) => column >= border,
        LexScope::FlowCollection { .. } => false,
        LexScope::Document => true,
    }
}

/// Whether a mapping key at `column` opens a new block mapping in `scope`.
pub open spec fn enters_mapping(scope: LexScope, column: usize) -> bool {
    match scope {
        LexScope::Document => true,
        LexScope::BlockSequence(border) => column > border,
        LexScope::BlockMap(border) => column > border,
        LexScope::FlowCollection { .. } => false,
    }
}

/// Whether a plain scalar at `column` is a key of the block mapping `scope`.
pub open spec fn is_key_of(scope: LexScope, column: usize) -> bool {
    scope matches LexScope::BlockMap(border) && border == column
}

/// Whether the byte `c` is a whitespace character for the lexer: a space,
/// a tab, a line feed, a vertical tab, a form feed or a carriage return.
pub open spec fn whitespace_byte(c: u8) -> bool {
    c == 0x09 || c == 0x0a || c == 0x0b || c == 0x0c || c == 0x0d || c == 0x20
}

/// Whether the byte `c` is a whitespace character for the lexer.
pub fn is_whitespace(c: u8) -> (b: bool)
    ensures
        b == whitespace_byte(c),
{
    c == 0x09 || c == 0x0a || c == 0x0b || c == 0x0c || c == 0x0d || c == 0x20
}

/// A UTF-8 encoding has one to four bytes.
pub proof fn lemma_utf8_width_bounds(b: u8)
    ensures
        1 <= utf8_width(b) <= 4,
{
}

} // verus!
