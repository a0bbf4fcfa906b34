//! The syntax of JSON as the parser sees it: the kinds of tokens and nodes,
//! and which tokens start and end values, arrays and objects.

use vstd::prelude::*;

verus! {

/// The kinds of JSON tokens and nodes.
#[derive(Clone, Copy, Debug, PartialEq, Eq, Structural, Hash)]
pub enum JsonSyntaxKind {
    /// The kind of a node that is not complete yet.
    Tombstone,
    Eof,
    UnicodeBom,
    Colon,
    Comma,
    LParen,
    RParen,
    LCurly,
    RCurly,
    LBrack,
    RBrack,
    NullKw,
    TrueKw,
    FalseKw,
    JsonStringLiteral,
    JsonNumberLiteral,
    ErrorToken,
    Ident,
    Newline,
    Whitespace,
    Comment,
    MultilineComment,
    JsonRoot,
    JsonNumberValue,
    JsonStringValue,
    JsonBooleanValue,
    JsonNullValue,
    JsonArrayValue,
    JsonObjectValue,
    JsonMemberList,
    JsonMember,
    JsonMemberName,
    JsonArrayElementList,
    JsonBogus,
    JsonBogusMember,
    JsonBogusValue,
}

/// The tokens that start a value.
pub open spec fn value_start(kind: JsonSyntaxKind) -> bool {
    ||| kind == JsonSyntaxKind::NullKw
    ||| kind == JsonSyntaxKind::TrueKw
    ||| kind == JsonSyntaxKind::FalseKw
    ||| kind == JsonSyntaxKind::JsonStringLiteral
    ||| kind == JsonSyntaxKind::JsonNumberLiteral
    ||| kind == JsonSyntaxKind::LBrack
    ||| kind == JsonSyntaxKind::LCurly
}

/// The tokens at which recovery inside an array stops: those that start a
/// value, and `]`, `}` and `,`.
pub open spec fn value_recovery(kind: JsonSyntaxKind) -> bool {
    ||| value_start(kind)
    ||| kind == JsonSyntaxKind::RBrack
    ||| kind == JsonSyntaxKind::RCurly
    ||| kind == JsonSyntaxKind::Comma
}

/// Whether `kind` starts a value.
pub fn is_value_start(kind: JsonSyntaxKind) -> (b: bool)
    ensures
        b == value_start(kind),
{
    match kind {
        JsonSyntaxKind::NullKw => true,
        JsonSyntaxKind::TrueKw => true,
        JsonSyntaxKind::FalseKw => true,
        JsonSyntaxKind::JsonStringLiteral => true,
        JsonSyntaxKind::JsonNumberLiteral => true,
        JsonSyntaxKind::LBrack => true,
        JsonSyntaxKind::LCurly => true,
        _ => false,
    }
}

/// Whether `kind` stops recovery inside an array.
pub fn is_value_recovery(kind: JsonSyntaxKind) -> (b: bool)
    ensures
        b == value_recovery(kind),
{
    is_value_start(kind) || match kind {
        JsonSyntaxKind::RBrack => true,
        JsonSyntaxKind::RCurly => true,
        JsonSyntaxKind::Comma => true,
        _ => false,
    }
}

/// An array or an object.
#[derive(Clone, Copy, Debug, PartialEq, Eq, Structural)]
pub enum SequenceKind {
    Array,
    Object,
}

impl SequenceKind {
    /// The node of the whole sequence.
    pub open spec fn spec_node_kind(self) -> JsonSyntaxKind {
        match self {
            SequenceKind::Array => JsonSyntaxKind::JsonArrayValue,
            SequenceKind::Object => JsonSyntaxKind::JsonObjectValue,
        }
    }

    /// The node of the list of its items.
    pub open spec fn spec_list_kind(self) -> JsonSyntaxKind {
        match self {
            SequenceKind::Array => JsonSyntaxKind::JsonArrayElementList,
            SequenceKind::Object => JsonSyntaxKind::JsonMemberList,
        }
    }

    /// The token that opens it.
    pub open spec fn spec_open_paren(self) -> JsonSyntaxKind {
        match self {
            SequenceKind::Array => JsonSyntaxKind::LBrack,
            SequenceKind::Object => JsonSyntaxKind::LCurly,
        }
    }

    /// The token that closes it.
    pub open spec fn spec_close_paren(self) -> JsonSyntaxKind {
        match self {
            SequenceKind::Array => JsonSyntaxKind::RBrack,
            SequenceKind::Object => JsonSyntaxKind::RCurly,
        }
    }

    /// The tokens at which recovery inside the sequence stops: in an object, `:` too.
    pub open spec fn spec_recovers_at(self, kind: JsonSyntaxKind) -> bool {
        match self {
            SequenceKind::Array => value_recovery(kind),
            SequenceKind::Object => value_recovery(kind) || kind == JsonSyntaxKind::Colon,
        }
    }

    pub fn node_kind(&self) -> (k: JsonSyntaxKind)
        ensures
            k == self.spec_node_kind(),
    {
        match self {
            SequenceKind::Array => JsonSyntaxKind::JsonArrayValue,
            SequenceKind::Object => JsonSyntaxKind::JsonObjectValue,
        }
    }

    pub fn list_kind(&self) -> (k: JsonSyntaxKind)
        ensures
            k == self.spec_list_kind(),
    {
        match self {
            SequenceKind::Array => JsonSyntaxKind::JsonArrayElementList,
            SequenceKind::Object => JsonSyntaxKind::JsonMemberList,
        }
    }

    pub fn open_paren(&self) -> (k: JsonSyntaxKind)
        ensures
            k == self.spec_open_paren(),
    {
        match self {
            SequenceKind::Array => JsonSyntaxKind::LBrack,
            SequenceKind::Object => JsonSyntaxKind::LCurly,
        }
    }

    pub fn close_paren(&self) -> (k: JsonSyntaxKind)
        ensures
            k == self.spec_close_paren(),
    {
        match self {
            SequenceKind::Array => JsonSyntaxKind::RBrack,
            SequenceKind::Object => JsonSyntaxKind::RCurly,
        }
    }

    /// Whether recovery inside the sequence stops at `kind`.
    pub fn recovers_at(&self, kind: JsonSyntaxKind) -> (b: bool)
        ensures
            b == self.spec_recovers_at(kind),
    {
        match self {
            SequenceKind::Array => is_value_recovery(kind),
            SequenceKind::Object => is_value_recovery(kind) || kind == JsonSyntaxKind::Colon,
        }
    }
}

} // verus!
