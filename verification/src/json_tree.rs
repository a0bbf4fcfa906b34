//! What the JSON parser builds, told step by step over a state: where it is
//! in the tokens, the events of the tree so far, the diagnostics so far, and
//! the kind of the last token it took. The steps follow the grammar of JSON
//! and the way the parser recovers from what does not fit it.

use vstd::prelude::*;

use crate::json_parser::{JsonDiagnostic, JsonDiagnosticKind, JsonEvent, JsonParserOptions, JsonToken, kind_at};
use crate::json_syntax::{is_value_start, value_start, JsonSyntaxKind, SequenceKind};

verus! {

/// Where the parser is in the tokens and what it built so far.
#[verifier::ext_equal]
pub struct ParseState {
    pub pos: int,
    pub events: Seq<JsonEvent>,
    pub diagnostics: Seq<JsonDiagnostic>,
    /// The kind of the last token taken.
    pub last: Option<JsonSyntaxKind>,
}

/// The tokens at which recovery stops.
#[derive(Clone, Copy, Debug, PartialEq, Eq, Structural)]
pub enum RecoverySet {
    /// The tokens that start a value.
    ValueStart,
    /// The tokens at which recovery inside a sequence of the kind stops.
    Sequence(SequenceKind),
}

impl RecoverySet {
    pub open spec fn spec_contains(self, kind: JsonSyntaxKind) -> bool {
        match self {
            RecoverySet::ValueStart => value_start(kind),
            RecoverySet::Sequence(sequence) => sequence.spec_recovers_at(kind),
        }
    }

    pub fn contains(&self, kind: JsonSyntaxKind) -> (b: bool)
        ensures
            b == self.spec_contains(kind),
    {
        match self {
            RecoverySet::ValueStart => is_value_start(kind),
            RecoverySet::Sequence(sequence) => sequence.recovers_at(kind),
        }
    }
}

/// The tokens of the current token: the current one, or none at the end.
pub open spec fn cur_range_of(t: Seq<JsonToken>, st: ParseState) -> (int, int) {
    (st.pos, if st.pos < t.len() { st.pos + 1 } else { st.pos })
}

/// A diagnostic of kind `kind` about the tokens `range` is reported, unless
/// the last one starts at the same token.
pub open spec fn with_error(st: ParseState, kind: JsonDiagnosticKind, range: (int, int)) -> ParseState {
    let n = st.diagnostics.len();
    if n > 0 && st.diagnostics[n - 1].start == range.0 {
        st
    } else {
        ParseState {
            diagnostics: st.diagnostics.push(JsonDiagnostic { kind, start: range.0 as usize, end: range.1 as usize }),
            ..st
        }
    }
}

/// The current token is taken as a token of kind `kind`.
pub open spec fn with_token(st: ParseState, kind: JsonSyntaxKind) -> ParseState {
    ParseState {
        pos: st.pos + 1,
        events: st.events.push(JsonEvent::Token { kind, index: st.pos as usize }),
        last: Some(kind),
        ..st
    }
}

/// A node starts; its kind is known when it is complete.
pub open spec fn with_start(st: ParseState) -> ParseState {
    ParseState { events: st.events.push(JsonEvent::Start { kind: JsonSyntaxKind::Tombstone }), ..st }
}

/// A node starts before the events from `at` on, so that it holds them.
pub open spec fn with_start_before(st: ParseState, at: int) -> ParseState {
    ParseState { events: st.events.insert(at, JsonEvent::Start { kind: JsonSyntaxKind::Tombstone }), ..st }
}

/// The node that starts at the event `at` is complete, of kind `kind`.
pub open spec fn with_complete(st: ParseState, at: int, kind: JsonSyntaxKind) -> ParseState {
    ParseState { events: st.events.update(at, JsonEvent::Start { kind }).push(JsonEvent::Finish), ..st }
}

/// The current token is taken if it is of kind `kind`; otherwise one is
/// reported as expected.
pub open spec fn with_expect(t: Seq<JsonToken>, st: ParseState, kind: JsonSyntaxKind) -> ParseState {
    if kind_at(t, st.pos) == kind {
        with_token(st, kind)
    } else {
        with_error(st, JsonDiagnosticKind::ExpectedToken(kind), cur_range_of(t, st))
    }
}

/// Whether recovery stops at the token `i`: the end of the file, a token of
/// `set`, or a line break before it when `line_break` holds.
pub open spec fn stops_at(t: Seq<JsonToken>, i: int, set: RecoverySet, line_break: bool) -> bool {
    ||| kind_at(t, i) == JsonSyntaxKind::Eof
    ||| set.spec_contains(kind_at(t, i))
    ||| (line_break && 0 <= i < t.len() && t[i].has_preceding_line_break)
}

/// The tokens up to where recovery stops are taken.
pub open spec fn skipped(t: Seq<JsonToken>, st: ParseState, set: RecoverySet, line_break: bool) -> ParseState
    decreases t.len() - st.pos,
{
    if st.pos < 0 || st.pos >= t.len() || stops_at(t, st.pos, set, line_break) {
        st
    } else {
        skipped(t, with_token(st, kind_at(t, st.pos)), set, line_break)
    }
}

/// Recovery: unless it stops at once, the tokens up to where it stops are
/// kept in a node of kind `node_kind`, whose event position and tokens come
/// back.
pub open spec fn recovered(t: Seq<JsonToken>, st: ParseState, node_kind: JsonSyntaxKind, set: RecoverySet, line_break: bool) -> (
    ParseState,
    Option<(int, int, int)>,
) {
    if stops_at(t, st.pos, set, line_break) {
        (st, None)
    } else {
        let m = st.events.len() as int;
        let s1 = with_token(with_start(st), kind_at(t, st.pos));
        let s2 = skipped(t, s1, set, line_break);
        (with_complete(s2, m, node_kind), Some((m, st.pos, s2.pos)))
    }
}

/// Whether a token of kind `kind` is a value on its own.
pub open spec fn single_value(kind: JsonSyntaxKind) -> bool {
    ||| kind == JsonSyntaxKind::NullKw
    ||| kind == JsonSyntaxKind::JsonStringLiteral
    ||| kind == JsonSyntaxKind::TrueKw
    ||| kind == JsonSyntaxKind::FalseKw
    ||| kind == JsonSyntaxKind::JsonNumberLiteral
    ||| kind == JsonSyntaxKind::Ident
    ||| kind == JsonSyntaxKind::ErrorToken
}

/// The node of a value that is a single token of kind `kind`: an unquoted
/// string or an erroneous token is a bogus value.
pub open spec fn single_value_node(kind: JsonSyntaxKind) -> JsonSyntaxKind {
    if kind == JsonSyntaxKind::NullKw {
        JsonSyntaxKind::JsonNullValue
    } else if kind == JsonSyntaxKind::JsonStringLiteral {
        JsonSyntaxKind::JsonStringValue
    } else if kind == JsonSyntaxKind::TrueKw || kind == JsonSyntaxKind::FalseKw {
        JsonSyntaxKind::JsonBooleanValue
    } else if kind == JsonSyntaxKind::JsonNumberLiteral {
        JsonSyntaxKind::JsonNumberValue
    } else {
        JsonSyntaxKind::JsonBogusValue
    }
}

/// The kind of the sequence that the token of kind `kind` opens.
pub open spec fn opened_sequence(kind: JsonSyntaxKind) -> SequenceKind {
    if kind == JsonSyntaxKind::LCurly {
        SequenceKind::Object
    } else {
        SequenceKind::Array
    }
}

/// A value at the current token: a single token, or an array or an object;
/// nothing at any other token. The event position and the tokens of its
/// node come back.
#[verifier::opaque]
pub open spec fn parsed_value(t: Seq<JsonToken>, o: JsonParserOptions, st: ParseState) -> (ParseState, Option<(int, int, int)>)
    decreases t.len() - st.pos, 3int, 0int,
{
    let kind = kind_at(t, st.pos);
    if kind == JsonSyntaxKind::LCurly || kind == JsonSyntaxKind::LBrack {
        let (s, node) = parsed_sequence(t, o, st, opened_sequence(kind));
        (s, Some(node))
    } else if single_value(kind) {
        let m = st.events.len() as int;
        let s1 = with_start(st);
        let s2 = if kind == JsonSyntaxKind::Ident {
            with_error(s1, JsonDiagnosticKind::UnquotedString, cur_range_of(t, s1))
        } else {
            s1
        };
        let s3 = with_token(s2, kind);
        (with_complete(s3, m, single_value_node(kind)), Some((m, st.pos, s3.pos)))
    } else {
        (st, None)
    }
}

/// The list and the node of a sequence of kind `kind` are complete, after
/// its closing token, which is reported if it is missing.
pub open spec fn closed_sequence(t: Seq<JsonToken>, st: ParseState, kind: SequenceKind, node: int, list: int) -> ParseState {
    let s1 = with_complete(st, list, kind.spec_list_kind());
    let s2 = with_expect(t, s1, kind.spec_close_paren());
    with_complete(s2, node, kind.spec_node_kind())
}

/// An array or an object of kind `kind` at its opening token, with its items.
#[verifier::opaque]
pub open spec fn parsed_sequence(t: Seq<JsonToken>, o: JsonParserOptions, st: ParseState, kind: SequenceKind) -> (
    ParseState,
    (int, int, int),
)
    decreases t.len() - st.pos, 2int, 0int,
{
    let node = st.events.len() as int;
    let s1 = with_start(st);
    if kind_at(t, st.pos) == kind.spec_open_paren() {
        let s2 = with_token(s1, kind.spec_open_paren());
        let list = s2.events.len() as int;
        let s3 = with_start(s2);
        let s4 = parsed_items(t, o, s3, kind, true);
        let s5 = closed_sequence(t, s4, kind, node, list);
        (s5, (node, st.pos, s5.pos))
    } else {
        // A sequence starts at its opening token.
        (s1, (node, st.pos, st.pos))
    }
}

/// The items of a sequence of kind `kind` up to its closing token or the end
/// of the file; `first` when none came yet.
#[verifier::opaque]
pub open spec fn parsed_items(t: Seq<JsonToken>, o: JsonParserOptions, st: ParseState, kind: SequenceKind, first: bool) -> ParseState
    decreases t.len() - st.pos, 7int, if first { 1int } else { 0int },
{
    let cur = kind_at(t, st.pos);
    if cur == JsonSyntaxKind::Eof || cur == kind.spec_close_paren() {
        st
    } else {
        let (s, more) = next_item(t, o, st, kind, first);
        // Each item takes a token, but for a missing first one before a comma.
        if more && (st.pos < s.pos <= t.len() || (first && s.pos == st.pos)) {
            parsed_items(t, o, s, kind, false)
        } else {
            s
        }
    }
}

/// The next item of a sequence of kind `kind`, after a comma unless it is
/// the first. What does not parse is recovered from and reported; whether
/// the items go on comes back.
#[verifier::opaque]
pub open spec fn next_item(t: Seq<JsonToken>, o: JsonParserOptions, st: ParseState, kind: SequenceKind, first: bool) -> (
    ParseState,
    bool,
)
    decreases t.len() - st.pos, 6int, 0int,
{
    let s1 = if first {
        st
    } else {
        with_expect(t, st, JsonSyntaxKind::Comma)
    };
    let (s2, present) = parsed_item(t, o, s1, kind);
    if present {
        (s2, true)
    } else if o.allow_trailing_commas && s2.last == Some(JsonSyntaxKind::Comma) {
        (s2, false)
    } else if kind_at(t, s2.pos) == JsonSyntaxKind::Comma {
        (with_error(s2, JsonDiagnosticKind::ExpectedValue, cur_range_of(t, s2)), true)
    } else {
        let (s3, r) = recovered(t, s2, JsonSyntaxKind::JsonBogusValue, RecoverySet::Sequence(kind), true);
        match r {
            Some((_, a, b)) => (with_error(s3, JsonDiagnosticKind::ExpectedValue, (a, b)), true),
            None => (with_error(s3, JsonDiagnosticKind::ExpectedValue, cur_range_of(t, s3)), false),
        }
    }
}

/// An item of a sequence of kind `kind`: a value in an array, a member in an
/// object. Whether one was there comes back.
#[verifier::opaque]
pub open spec fn parsed_item(t: Seq<JsonToken>, o: JsonParserOptions, st: ParseState, kind: SequenceKind) -> (ParseState, bool)
    decreases t.len() - st.pos, 5int, 0int,
{
    match kind {
        SequenceKind::Array => {
            let (s, v) = parsed_value(t, o, st);
            (s, v is Some)
        },
        SequenceKind::Object => parsed_member(t, o, st),
    }
}

/// The name of an object member: a string, or an identifier or a keyword,
/// which is reported and taken as an identifier.
pub open spec fn parsed_member_name(t: Seq<JsonToken>, st: ParseState) -> (ParseState, bool) {
    let cur = kind_at(t, st.pos);
    let m = st.events.len() as int;
    if cur == JsonSyntaxKind::JsonStringLiteral {
        (with_complete(with_token(with_start(st), cur), m, JsonSyntaxKind::JsonMemberName), true)
    } else if cur == JsonSyntaxKind::Ident || cur == JsonSyntaxKind::NullKw || cur == JsonSyntaxKind::TrueKw
        || cur == JsonSyntaxKind::FalseKw {
        let s1 = with_start(st);
        let s2 = with_error(s1, JsonDiagnosticKind::UnquotedPropertyKey, cur_range_of(t, s1));
        (with_complete(with_token(s2, JsonSyntaxKind::Ident), m, JsonSyntaxKind::JsonMemberName), true)
    } else {
        (st, false)
    }
}

/// A member of an object: its name, a colon and a value. Without a name,
/// and neither a colon nor a value after it, there is no member.
#[verifier::opaque]
pub open spec fn parsed_member(t: Seq<JsonToken>, o: JsonParserOptions, st: ParseState) -> (ParseState, bool)
    decreases t.len() - st.pos, 4int, 0int,
{
    let m = st.events.len() as int;
    let (s2, named) = parsed_member_name(t, with_start(st));
    let s3 = if !named && !(o.allow_trailing_commas && s2.last == Some(JsonSyntaxKind::Comma)) {
        with_error(s2, JsonDiagnosticKind::ExpectedProperty, cur_range_of(t, s2))
    } else {
        s2
    };
    let cur = kind_at(t, s3.pos);
    if !named && cur != JsonSyntaxKind::Colon && !value_start(cur) {
        (ParseState { events: s3.events.drop_last(), ..s3 }, false)
    } else {
        let s4 = with_expect(t, s3, JsonSyntaxKind::Colon);
        let (s5, v) = parsed_value(t, o, s4);
        let s6 = if v is None {
            with_error(s5, JsonDiagnosticKind::ExpectedValue, cur_range_of(t, s5))
        } else {
            s5
        };
        (with_complete(s6, m, JsonSyntaxKind::JsonMember), true)
    }
}

/// The values after the first one, up to the end of the file, each reported.
pub open spec fn parsed_rest_values(t: Seq<JsonToken>, o: JsonParserOptions, st: ParseState) -> ParseState
    decreases t.len() - st.pos,
{
    if kind_at(t, st.pos) == JsonSyntaxKind::Eof {
        st
    } else {
        let (s1, v) = parsed_value(t, o, st);
        let (s2, range) = match v {
            Some((_, a, b)) => (s1, (a, b)),
            None => {
                let (s, r) = recovered(t, s1, JsonSyntaxKind::JsonBogusValue, RecoverySet::ValueStart, false);
                match r {
                    Some((_, a, b)) => (s, (a, b)),
                    None => (s, (s.pos, s.pos)),
                }
            },
        };
        let s3 = with_error(s2, JsonDiagnosticKind::EndOfFileExpected, range);
        if st.pos < s3.pos <= t.len() {
            parsed_rest_values(t, o, s3)
        } else {
            s3
        }
    }
}

/// The values after the first one (the node at the event `value`, if any),
/// which are wrapped with it in an array.
pub open spec fn parsed_rest(t: Seq<JsonToken>, o: JsonParserOptions, st: ParseState, value: Option<(int, int, int)>) -> ParseState {
    let (s1, list) = match value {
        Some((p, _, _)) => (with_start_before(st, p), p),
        None => (with_start(st), st.events.len() as int),
    };
    let s2 = parsed_rest_values(t, o, s1);
    let s3 = with_complete(s2, list, JsonSyntaxKind::JsonArrayElementList);
    let s4 = with_start_before(s3, list);
    with_complete(s4, list, JsonSyntaxKind::JsonArrayValue)
}

/// The state when parsing starts: the root is started, nothing is taken.
pub open spec fn initial_state() -> ParseState {
    ParseState {
        pos: 0,
        events: seq![JsonEvent::Start { kind: JsonSyntaxKind::Tombstone }],
        diagnostics: Seq::empty(),
        last: None,
    }
}

/// What the parser builds from the tokens `t`: an optional byte order mark,
/// a value (or what recovery keeps of a missing one, which is reported),
/// then the values after it, if any, all in the root node.
pub open spec fn parsed_json(t: Seq<JsonToken>, o: JsonParserOptions) -> ParseState {
    let s0 = initial_state();
    let s1 = if kind_at(t, 0) == JsonSyntaxKind::UnicodeBom {
        with_token(s0, JsonSyntaxKind::UnicodeBom)
    } else {
        s0
    };
    let (s2, v) = parsed_value(t, o, s1);
    let (s3, value) = if v is Some {
        (s2, v)
    } else {
        recovered(
            t,
            with_error(s2, JsonDiagnosticKind::ExpectedValue, cur_range_of(t, s2)),
            JsonSyntaxKind::JsonBogusValue,
            RecoverySet::ValueStart,
            false,
        )
    };
    let s4 = if kind_at(t, s3.pos) != JsonSyntaxKind::Eof {
        parsed_rest(t, o, s3, value)
    } else {
        s3
    };
    ParseState { events: s4.events.update(0, JsonEvent::Start { kind: JsonSyntaxKind::JsonRoot }).push(JsonEvent::Finish), ..s4 }
}

/// A sequence that is not finished: its kind, the event positions of its
/// node and of the list of its items, the member of an object that holds a
/// nested sequence, and whether no item of it came yet.
pub struct PendingSequence {
    pub kind: SequenceKind,
    pub node: int,
    pub list: int,
    pub member: Option<int>,
    pub first: bool,
}

/// The member that holds a nested sequence, if any, is complete.
pub open spec fn with_member_complete(st: ParseState, member: Option<int>) -> ParseState {
    match member {
        Some(m) => with_complete(st, m, JsonSyntaxKind::JsonMember),
        None => st,
    }
}

/// The pending sequence `f` goes on and is finished.
pub open spec fn resumed_sequence(t: Seq<JsonToken>, o: JsonParserOptions, st: ParseState, f: PendingSequence) -> ParseState {
    let s1 = with_member_complete(st, f.member);
    let s2 = parsed_items(t, o, s1, f.kind, f.first);
    closed_sequence(t, s2, f.kind, f.node, f.list)
}

/// The pending sequences go on and are finished, innermost first.
pub open spec fn finished_sequences(t: Seq<JsonToken>, o: JsonParserOptions, st: ParseState, pending: Seq<PendingSequence>) -> ParseState
    decreases pending.len(),
{
    if pending.len() == 0 {
        st
    } else {
        finished_sequences(t, o, resumed_sequence(t, o, st, pending.last()), pending.drop_last())
    }
}

/// Recovery stays within the tokens and does not go back; it takes a token
/// when it does not stop at once.
pub proof fn lemma_recovered_progress(t: Seq<JsonToken>, st: ParseState, node_kind: JsonSyntaxKind, set: RecoverySet, line_break: bool)
    requires
        0 <= st.pos <= t.len(),
    ensures
        st.pos <= recovered(t, st, node_kind, set, line_break).0.pos <= t.len(),
        recovered(t, st, node_kind, set, line_break).1 is Some ==> st.pos < recovered(t, st, node_kind, set, line_break).0.pos,
        recovered(t, st, node_kind, set, line_break).1 matches Some((_, a, b)) ==> a == st.pos && b == recovered(
            t,
            st,
            node_kind,
            set,
            line_break,
        ).0.pos,
        recovered(t, st, node_kind, set, line_break).0.diagnostics == st.diagnostics,
{
    if !stops_at(t, st.pos, set, line_break) {
        lemma_skipped_progress(t, with_token(with_start(st), kind_at(t, st.pos)), set, line_break);
    }
}

proof fn lemma_skipped_progress(t: Seq<JsonToken>, st: ParseState, set: RecoverySet, line_break: bool)
    requires
        0 <= st.pos <= t.len(),
    ensures
        st.pos <= skipped(t, st, set, line_break).pos <= t.len(),
        skipped(t, st, set, line_break).diagnostics == st.diagnostics,
    decreases t.len() - st.pos,
{
    if !(st.pos >= t.len() || stops_at(t, st.pos, set, line_break)) {
        lemma_skipped_progress(t, with_token(st, kind_at(t, st.pos)), set, line_break);
    }
}

// Each part of the parse stays within the tokens and does not go back; a
// sequence at its opening token takes it.
proof fn lemma_value_progress(t: Seq<JsonToken>, o: JsonParserOptions, st: ParseState)
    requires
        0 <= st.pos <= t.len(),
    ensures
        st.pos <= parsed_value(t, o, st).0.pos <= t.len(),
    decreases t.len() - st.pos, 3int, 0int,
{
    reveal(parsed_value);
    reveal(parsed_sequence);
    reveal(parsed_items);
    reveal(next_item);
    reveal(parsed_item);
    reveal(parsed_member);
    reveal_with_fuel(parsed_value, 1);
    let k = kind_at(t, st.pos);
    if k == JsonSyntaxKind::LCurly || k == JsonSyntaxKind::LBrack {
        lemma_sequence_progress(t, o, st, opened_sequence(k));
    }
}

proof fn lemma_sequence_progress(t: Seq<JsonToken>, o: JsonParserOptions, st: ParseState, kind: SequenceKind)
    requires
        0 <= st.pos <= t.len(),
    ensures
        st.pos <= parsed_sequence(t, o, st, kind).0.pos <= t.len(),
        kind_at(t, st.pos) == kind.spec_open_paren() ==> st.pos < parsed_sequence(t, o, st, kind).0.pos,
    decreases t.len() - st.pos, 2int, 0int,
{
    reveal(parsed_value);
    reveal(parsed_sequence);
    reveal(parsed_items);
    reveal(next_item);
    reveal(parsed_item);
    reveal(parsed_member);
    reveal_with_fuel(parsed_sequence, 1);
    if kind_at(t, st.pos) == kind.spec_open_paren() {
        let s3 = with_start(with_token(with_start(st), kind.spec_open_paren()));
        lemma_items_progress(t, o, s3, kind, true);
    }
}

proof fn lemma_items_progress(t: Seq<JsonToken>, o: JsonParserOptions, st: ParseState, kind: SequenceKind, first: bool)
    requires
        0 <= st.pos <= t.len(),
    ensures
        st.pos <= parsed_items(t, o, st, kind, first).pos <= t.len(),
    decreases t.len() - st.pos, 7int, if first { 1int } else { 0int },
{
    reveal(parsed_value);
    reveal(parsed_sequence);
    reveal(parsed_items);
    reveal(next_item);
    reveal(parsed_item);
    reveal(parsed_member);
    reveal_with_fuel(parsed_items, 1);
    let cur = kind_at(t, st.pos);
    if !(cur == JsonSyntaxKind::Eof || cur == kind.spec_close_paren()) {
        lemma_next_item_progress(t, o, st, kind, first);
        let (s, more) = next_item(t, o, st, kind, first);
        if more && (st.pos < s.pos <= t.len() || (first && s.pos == st.pos)) {
            lemma_items_progress(t, o, s, kind, false);
        }
    }
}

proof fn lemma_next_item_progress(t: Seq<JsonToken>, o: JsonParserOptions, st: ParseState, kind: SequenceKind, first: bool)
    requires
        0 <= st.pos <= t.len(),
    ensures
        st.pos <= next_item(t, o, st, kind, first).0.pos <= t.len(),
    decreases t.len() - st.pos, 6int, 0int,
{
    reveal(parsed_value);
    reveal(parsed_sequence);
    reveal(parsed_items);
    reveal(next_item);
    reveal(parsed_item);
    reveal(parsed_member);
    reveal_with_fuel(next_item, 1);
    let s1 = if first {
        st
    } else {
        with_expect(t, st, JsonSyntaxKind::Comma)
    };
    lemma_item_progress(t, o, s1, kind);
    let (s2, present) = parsed_item(t, o, s1, kind);
    if !present {
        lemma_recovered_progress(t, s2, JsonSyntaxKind::JsonBogusValue, RecoverySet::Sequence(kind), true);
    }
}

proof fn lemma_item_progress(t: Seq<JsonToken>, o: JsonParserOptions, st: ParseState, kind: SequenceKind)
    requires
        0 <= st.pos <= t.len(),
    ensures
        st.pos <= parsed_item(t, o, st, kind).0.pos <= t.len(),
    decreases t.len() - st.pos, 5int, 0int,
{
    reveal(parsed_value);
    reveal(parsed_sequence);
    reveal(parsed_items);
    reveal(next_item);
    reveal(parsed_item);
    reveal(parsed_member);
    reveal_with_fuel(parsed_item, 1);
    match kind {
        SequenceKind::Array => {
            lemma_value_progress(t, o, st);
        },
        SequenceKind::Object => {
            lemma_member_progress(t, o, st);
        },
    }
}

proof fn lemma_member_progress(t: Seq<JsonToken>, o: JsonParserOptions, st: ParseState)
    requires
        0 <= st.pos <= t.len(),
    ensures
        st.pos <= parsed_member(t, o, st).0.pos <= t.len(),
    decreases t.len() - st.pos, 4int, 0int,
{
    reveal(parsed_value);
    reveal(parsed_sequence);
    reveal(parsed_items);
    reveal(next_item);
    reveal(parsed_item);
    reveal(parsed_member);
    reveal_with_fuel(parsed_member, 1);
    let (s2, named) = parsed_member_name(t, with_start(st));
    let s3 = if !named && !(o.allow_trailing_commas && s2.last == Some(JsonSyntaxKind::Comma)) {
        with_error(s2, JsonDiagnosticKind::ExpectedProperty, cur_range_of(t, s2))
    } else {
        s2
    };
    let s4 = with_expect(t, s3, JsonSyntaxKind::Colon);
    lemma_value_progress(t, o, s4);
}

/// Parsing a value, a sequence or items stays within the tokens and does not
/// go back; a sequence at its opening token takes it.
pub proof fn lemma_parse_progress(t: Seq<JsonToken>, o: JsonParserOptions, st: ParseState, kind: SequenceKind, first: bool)
    requires
        0 <= st.pos <= t.len(),
    ensures
        st.pos <= parsed_value(t, o, st).0.pos <= t.len(),
        st.pos <= parsed_sequence(t, o, st, kind).0.pos <= t.len(),
        kind_at(t, st.pos) == kind.spec_open_paren() ==> st.pos < parsed_sequence(t, o, st, kind).0.pos,
        st.pos <= parsed_items(t, o, st, kind, first).pos <= t.len(),
        st.pos <= next_item(t, o, st, kind, first).0.pos <= t.len(),
{
    lemma_value_progress(t, o, st);
    lemma_sequence_progress(t, o, st, kind);
    lemma_items_progress(t, o, st, kind, first);
    lemma_next_item_progress(t, o, st, kind, first);
}

/// Finishing a pending sequence on top of others finishes it first.
pub proof fn lemma_finished_push(t: Seq<JsonToken>, o: JsonParserOptions, st: ParseState, pending: Seq<PendingSequence>, top: PendingSequence)
    ensures
        finished_sequences(t, o, st, pending.push(top)) == finished_sequences(t, o, resumed_sequence(t, o, st, top), pending),
{
    assert(pending.push(top).drop_last() =~= pending);
}

/// A sequence at its opening token: its node and its list start, then come
/// its items, then it is closed.
pub proof fn lemma_sequence_at_open(t: Seq<JsonToken>, o: JsonParserOptions, st: ParseState, kind: SequenceKind)
    requires
        kind_at(t, st.pos) == kind.spec_open_paren(),
    ensures
        parsed_sequence(t, o, st, kind).0 == closed_sequence(
            t,
            parsed_items(t, o, with_start(with_token(with_start(st), kind.spec_open_paren())), kind, true),
            kind,
            st.events.len() as int,
            st.events.len() as int + 2,
        ),
        parsed_sequence(t, o, st, kind).1 == (st.events.len() as int, st.pos, parsed_sequence(t, o, st, kind).0.pos),
{
    reveal(parsed_sequence);
    reveal(parsed_items);
}

/// A pending sequence that resumes completes the member that holds the
/// nested one, if any.
pub proof fn lemma_resume_pending(
    t: Seq<JsonToken>,
    o: JsonParserOptions,
    st: ParseState,
    pending: Seq<PendingSequence>,
    top: PendingSequence,
    resumed: ParseState,
    top_after: PendingSequence,
)
    requires
        resumed == with_member_complete(st, top.member),
        top_after == (PendingSequence { member: None, ..top }),
    ensures
        finished_sequences(t, o, st, pending.push(top)) == finished_sequences(t, o, resumed, pending.push(top_after)),
{
    lemma_finished_push(t, o, st, pending, top);
    lemma_finished_push(t, o, resumed, pending, top_after);
}

/// A pending sequence whose items are done is closed.
pub proof fn lemma_close_pending(
    t: Seq<JsonToken>,
    o: JsonParserOptions,
    st: ParseState,
    pending: Seq<PendingSequence>,
    top: PendingSequence,
    closed: ParseState,
)
    requires
        top.member is None,
        closed == closed_sequence(t, parsed_items(t, o, st, top.kind, top.first), top.kind, top.node, top.list),
    ensures
        finished_sequences(t, o, st, pending.push(top)) == finished_sequences(t, o, closed, pending),
{
    lemma_finished_push(t, o, st, pending, top);
}

/// At an item that is a nested sequence, the pending sequence waits for it,
/// in the member that holds it, if any.
pub proof fn lemma_nest_pending(
    t: Seq<JsonToken>,
    o: JsonParserOptions,
    st: ParseState,
    at_nested: ParseState,
    started: ParseState,
    pending: Seq<PendingSequence>,
    top: PendingSequence,
    suspended: PendingSequence,
    nested: PendingSequence,
)
    requires
        top.member is None,
        kind_at(t, at_nested.pos) == nested.kind.spec_open_paren(),
        started == with_start(with_token(with_start(at_nested), nested.kind.spec_open_paren())),
        nested == (PendingSequence {
            kind: nested.kind,
            node: at_nested.events.len() as int,
            list: at_nested.events.len() as int + 2,
            member: None,
            first: true,
        }),
        suspended == (PendingSequence { member: suspended.member, first: false, ..top }),
        parsed_items(t, o, st, top.kind, top.first) == parsed_items(
            t,
            o,
            with_member_complete(parsed_sequence(t, o, at_nested, nested.kind).0, suspended.member),
            top.kind,
            false,
        ),
    ensures
        finished_sequences(t, o, st, pending.push(top)) == finished_sequences(t, o, started, pending.push(suspended).push(nested)),
{
    lemma_sequence_at_open(t, o, at_nested, nested.kind);
    lemma_finished_push(t, o, st, pending, top);
    lemma_finished_push(t, o, started, pending.push(suspended), nested);
    lemma_finished_push(t, o, resumed_sequence(t, o, started, nested), pending, suspended);
}

/// Where a value that starts at `i` ends, if one does that the parser takes
/// without a diagnostic of its own: a literal, an erroneous token (which the
/// lexer reports), or an array or an object of such items.
pub open spec fn clean_value_end(t: Seq<JsonToken>, i: int) -> Option<int>
    decreases t.len() - i, 0int,
{
    if i < 0 || i >= t.len() {
        None
    } else {
        let kind = t[i].kind;
        if kind == JsonSyntaxKind::NullKw || kind == JsonSyntaxKind::TrueKw || kind == JsonSyntaxKind::FalseKw
            || kind == JsonSyntaxKind::JsonStringLiteral || kind == JsonSyntaxKind::JsonNumberLiteral
            || kind == JsonSyntaxKind::ErrorToken {
            Some(i + 1)
        } else if kind == JsonSyntaxKind::LBrack || kind == JsonSyntaxKind::LCurly {
            match clean_items_end(t, i + 1, opened_sequence(kind), true) {
                Some(q) => Some(q + 1),
                None => None,
            }
        } else {
            None
        }
    }
}

/// Where such items of a sequence of kind `kind` from `i` end, at its
/// closing token: items separated by commas; `first` when none came yet.
pub open spec fn clean_items_end(t: Seq<JsonToken>, i: int, kind: SequenceKind, first: bool) -> Option<int>
    decreases t.len() - i, 3int,
{
    if i < 0 || i > t.len() {
        None
    } else if kind_at(t, i) == kind.spec_close_paren() {
        Some(i)
    } else if first {
        clean_item_then_rest(t, i, kind)
    } else if kind_at(t, i) == JsonSyntaxKind::Comma {
        clean_item_then_rest(t, i + 1, kind)
    } else {
        None
    }
}

/// Where such an item at `i` and the items after it end.
pub open spec fn clean_item_then_rest(t: Seq<JsonToken>, i: int, kind: SequenceKind) -> Option<int>
    decreases t.len() - i, 2int,
{
    if i < 0 || i > t.len() {
        None
    } else {
        match clean_item_end(t, i, kind) {
            Some(j) => if i < j <= t.len() {
                clean_items_end(t, j, kind, false)
            } else {
                None
            },
            None => None,
        }
    }
}

/// Where such an item of a sequence of kind `kind` at `i` ends: a value in
/// an array, a member `"name": value` in an object.
pub open spec fn clean_item_end(t: Seq<JsonToken>, i: int, kind: SequenceKind) -> Option<int>
    decreases t.len() - i, 1int,
{
    if i < 0 || i > t.len() {
        None
    } else {
        match kind {
            SequenceKind::Array => clean_value_end(t, i),
            SequenceKind::Object => if kind_at(t, i) == JsonSyntaxKind::JsonStringLiteral && kind_at(t, i + 1)
                == JsonSyntaxKind::Colon {
                clean_value_end(t, i + 2)
            } else {
                None
            },
        }
    }
}

/// Whether the tokens `t` hold, after an optional byte order mark, such a
/// value and then the end of the file.
pub open spec fn clean_json(t: Seq<JsonToken>) -> bool {
    let i = if kind_at(t, 0) == JsonSyntaxKind::UnicodeBom { 1int } else { 0int };
    clean_value_end(t, i) matches Some(n) && kind_at(t, n) == JsonSyntaxKind::Eof
}

// Diagnostics are only added; when none come, each part of the parse took
// what the grammar of JSON allows there.
proof fn lemma_clean_value(t: Seq<JsonToken>, o: JsonParserOptions, st: ParseState)
    requires
        0 <= st.pos <= t.len(),
        !o.allow_trailing_commas,
    ensures
        parsed_value(t, o, st).0.diagnostics.len() >= st.diagnostics.len(),
        parsed_value(t, o, st).1 is Some ==> st.pos < parsed_value(t, o, st).0.pos,
        parsed_value(t, o, st).0.diagnostics.len() == 0 && parsed_value(t, o, st).1 is Some ==> clean_value_end(t, st.pos)
            == Some(parsed_value(t, o, st).0.pos),
    decreases t.len() - st.pos, 3int, 0int,
{
    reveal(parsed_value);
    reveal(parsed_sequence);
    reveal(parsed_items);
    reveal(next_item);
    reveal(parsed_item);
    reveal(parsed_member);
    let k = kind_at(t, st.pos);
    if k == JsonSyntaxKind::LCurly || k == JsonSyntaxKind::LBrack {
        lemma_clean_sequence(t, o, st, opened_sequence(k));
    }
}

proof fn lemma_clean_sequence(t: Seq<JsonToken>, o: JsonParserOptions, st: ParseState, kind: SequenceKind)
    requires
        0 <= st.pos <= t.len(),
        !o.allow_trailing_commas,
        kind_at(t, st.pos) == kind.spec_open_paren(),
    ensures
        parsed_sequence(t, o, st, kind).0.diagnostics.len() >= st.diagnostics.len(),
        st.pos < parsed_sequence(t, o, st, kind).0.pos,
        parsed_sequence(t, o, st, kind).0.diagnostics.len() == 0 ==> clean_value_end(t, st.pos) == Some(
            parsed_sequence(t, o, st, kind).0.pos,
        ),
    decreases t.len() - st.pos, 2int, 0int,
{
    reveal(parsed_value);
    reveal(parsed_sequence);
    reveal(parsed_items);
    reveal(next_item);
    reveal(parsed_item);
    reveal(parsed_member);
    let s3 = with_start(with_token(with_start(st), kind.spec_open_paren()));
    lemma_clean_items(t, o, s3, kind, true);
    lemma_items_progress(t, o, s3, kind, true);
    assert(opened_sequence(kind_at(t, st.pos)) == kind);
}

proof fn lemma_clean_items(t: Seq<JsonToken>, o: JsonParserOptions, st: ParseState, kind: SequenceKind, first: bool)
    requires
        0 <= st.pos <= t.len(),
        !o.allow_trailing_commas,
    ensures
        parsed_items(t, o, st, kind, first).diagnostics.len() >= st.diagnostics.len(),
        parsed_items(t, o, st, kind, first).diagnostics.len() == 0 && kind_at(t, parsed_items(t, o, st, kind, first).pos)
            == kind.spec_close_paren() ==> clean_items_end(t, st.pos, kind, first) == Some(
            parsed_items(t, o, st, kind, first).pos,
        ),
    decreases t.len() - st.pos, 7int, if first { 1int } else { 0int },
{
    reveal(parsed_value);
    reveal(parsed_sequence);
    reveal(parsed_items);
    reveal(next_item);
    reveal(parsed_item);
    reveal(parsed_member);
    let cur = kind_at(t, st.pos);
    if !(cur == JsonSyntaxKind::Eof || cur == kind.spec_close_paren()) {
        lemma_clean_next_item(t, o, st, kind, first);
        lemma_next_item_progress(t, o, st, kind, first);
        let (s, more) = next_item(t, o, st, kind, first);
        if more && (st.pos < s.pos <= t.len() || (first && s.pos == st.pos)) {
            lemma_clean_items(t, o, s, kind, false);
        }
    }
}

#[verifier::spinoff_prover]
#[verifier::rlimit(40)]
proof fn lemma_clean_next_item(t: Seq<JsonToken>, o: JsonParserOptions, st: ParseState, kind: SequenceKind, first: bool)
    requires
        0 <= st.pos <= t.len(),
        !o.allow_trailing_commas,
    ensures
        next_item(t, o, st, kind, first).0.diagnostics.len() >= st.diagnostics.len(),
        next_item(t, o, st, kind, first).0.diagnostics.len() == 0 ==> {
            let r = next_item(t, o, st, kind, first).0;
            &&& next_item(t, o, st, kind, first).1
            &&& first ==> clean_item_end(t, st.pos, kind) == Some(r.pos) && st.pos < r.pos
            &&& !first ==> kind_at(t, st.pos) == JsonSyntaxKind::Comma && clean_item_end(t, st.pos + 1, kind) == Some(r.pos)
                && st.pos + 1 < r.pos
        },
    decreases t.len() - st.pos, 6int, 0int,
{
    reveal(next_item);
    reveal(parsed_item);
    reveal(parsed_value);
    reveal(parsed_member);
    let s1 = if first {
        st
    } else {
        with_expect(t, st, JsonSyntaxKind::Comma)
    };
    lemma_clean_item(t, o, s1, kind);
    let (s2, present) = parsed_item(t, o, s1, kind);
    lemma_item_progress(t, o, s1, kind);
    if !present {
        lemma_recovered_progress(t, s2, JsonSyntaxKind::JsonBogusValue, RecoverySet::Sequence(kind), true);
    }
}

proof fn lemma_clean_item(t: Seq<JsonToken>, o: JsonParserOptions, st: ParseState, kind: SequenceKind)
    requires
        0 <= st.pos <= t.len(),
        !o.allow_trailing_commas,
    ensures
        parsed_item(t, o, st, kind).0.diagnostics.len() >= st.diagnostics.len(),
        parsed_item(t, o, st, kind).0.diagnostics.len() == 0 && parsed_item(t, o, st, kind).1 ==> clean_item_end(t, st.pos, kind)
            == Some(parsed_item(t, o, st, kind).0.pos) && st.pos < parsed_item(t, o, st, kind).0.pos,
    decreases t.len() - st.pos, 5int, 0int,
{
    reveal(parsed_value);
    reveal(parsed_sequence);
    reveal(parsed_items);
    reveal(next_item);
    reveal(parsed_item);
    reveal(parsed_member);
    match kind {
        SequenceKind::Array => {
            lemma_clean_value(t, o, st);
        },
        SequenceKind::Object => {
            lemma_clean_member(t, o, st);
        },
    }
}

proof fn lemma_clean_member(t: Seq<JsonToken>, o: JsonParserOptions, st: ParseState)
    requires
        0 <= st.pos <= t.len(),
        !o.allow_trailing_commas,
    ensures
        parsed_member(t, o, st).0.diagnostics.len() >= st.diagnostics.len(),
        parsed_member(t, o, st).0.diagnostics.len() == 0 && parsed_member(t, o, st).1 ==> clean_item_end(
            t,
            st.pos,
            SequenceKind::Object,
        ) == Some(parsed_member(t, o, st).0.pos) && st.pos < parsed_member(t, o, st).0.pos,
    decreases t.len() - st.pos, 4int, 0int,
{
    reveal(parsed_value);
    reveal(parsed_sequence);
    reveal(parsed_items);
    reveal(next_item);
    reveal(parsed_item);
    reveal(parsed_member);
    let (s2, named) = parsed_member_name(t, with_start(st));
    let s3 = if !named && !(o.allow_trailing_commas && s2.last == Some(JsonSyntaxKind::Comma)) {
        with_error(s2, JsonDiagnosticKind::ExpectedProperty, cur_range_of(t, s2))
    } else {
        s2
    };
    let s4 = with_expect(t, s3, JsonSyntaxKind::Colon);
    lemma_clean_value(t, o, s4);
}

proof fn lemma_rest_values_diagnostics(t: Seq<JsonToken>, o: JsonParserOptions, st: ParseState)
    requires
        0 <= st.pos <= t.len(),
        !o.allow_trailing_commas,
    ensures
        parsed_rest_values(t, o, st).diagnostics.len() >= st.diagnostics.len(),
        kind_at(t, st.pos) != JsonSyntaxKind::Eof ==> parsed_rest_values(t, o, st).diagnostics.len() > 0,
    decreases t.len() - st.pos,
{
    if kind_at(t, st.pos) != JsonSyntaxKind::Eof {
        lemma_clean_value(t, o, st);
        lemma_value_progress(t, o, st);
        let (s1, v) = parsed_value(t, o, st);
        if v is None {
            lemma_recovered_progress(t, s1, JsonSyntaxKind::JsonBogusValue, RecoverySet::ValueStart, false);
        }
        let (s2, range) = match v {
            Some((_, a, b)) => (s1, (a, b)),
            None => {
                let (s, r) = recovered(t, s1, JsonSyntaxKind::JsonBogusValue, RecoverySet::ValueStart, false);
                match r {
                    Some((_, a, b)) => (s, (a, b)),
                    None => (s, (s.pos, s.pos)),
                }
            },
        };
        let s3 = with_error(s2, JsonDiagnosticKind::EndOfFileExpected, range);
        if st.pos < s3.pos <= t.len() {
            lemma_rest_values_diagnostics(t, o, s3);
        }
    }
}

/// With the default options (no trailing commas), a text parses without a
/// diagnostic only if it is valid JSON, after an optional byte order mark and
/// with the erroneous tokens of the lexer (which the lexer reports) as values.
pub proof fn law_no_diagnostics_only_for_json(t: Seq<JsonToken>, o: JsonParserOptions)
    requires
        !o.allow_trailing_commas,
        parsed_json(t, o).diagnostics.len() == 0,
    ensures
        clean_json(t),
{
    let s0 = initial_state();
    let s1 = if kind_at(t, 0) == JsonSyntaxKind::UnicodeBom {
        with_token(s0, JsonSyntaxKind::UnicodeBom)
    } else {
        s0
    };
    assert(0 <= s1.pos <= t.len());
    lemma_clean_value(t, o, s1);
    lemma_value_progress(t, o, s1);
    let (s2, v) = parsed_value(t, o, s1);
    if v is Some {
        if kind_at(t, s2.pos) != JsonSyntaxKind::Eof {
            let (p, _, _) = v->0;
            let r1 = with_start_before(s2, p);
            lemma_rest_values_diagnostics(t, o, r1);
        }
    } else {
        let e = with_error(s2, JsonDiagnosticKind::ExpectedValue, cur_range_of(t, s2));
        lemma_recovered_progress(t, e, JsonSyntaxKind::JsonBogusValue, RecoverySet::ValueStart, false);
        let (s3, value) = recovered(t, e, JsonSyntaxKind::JsonBogusValue, RecoverySet::ValueStart, false);
        if kind_at(t, s3.pos) != JsonSyntaxKind::Eof {
            let r1 = match value {
                Some((p, _, _)) => with_start_before(s3, p),
                None => with_start(s3),
            };
            lemma_rest_values_diagnostics(t, o, r1);
        }
    }
}

// Along the grammar of JSON, each part of the parse adds no diagnostic and
// ends where the grammar says.
proof fn lemma_json_value(t: Seq<JsonToken>, o: JsonParserOptions, st: ParseState)
    requires
        0 <= st.pos <= t.len(),
        st.diagnostics.len() == 0,
        clean_value_end(t, st.pos) is Some,
    ensures
        parsed_value(t, o, st).0.diagnostics.len() == 0,
        parsed_value(t, o, st).1 is Some,
        Some(parsed_value(t, o, st).0.pos) == clean_value_end(t, st.pos),
    decreases t.len() - st.pos, 3int, 0int,
{
    reveal(parsed_value);
    reveal(parsed_sequence);
    reveal(parsed_items);
    reveal(next_item);
    reveal(parsed_item);
    reveal(parsed_member);
    let k = kind_at(t, st.pos);
    if k == JsonSyntaxKind::LCurly || k == JsonSyntaxKind::LBrack {
        lemma_json_sequence(t, o, st, opened_sequence(k));
    }
}

proof fn lemma_json_sequence(t: Seq<JsonToken>, o: JsonParserOptions, st: ParseState, kind: SequenceKind)
    requires
        0 <= st.pos <= t.len(),
        st.diagnostics.len() == 0,
        kind_at(t, st.pos) == kind.spec_open_paren(),
        clean_items_end(t, st.pos + 1, kind, true) is Some,
    ensures
        parsed_sequence(t, o, st, kind).0.diagnostics.len() == 0,
        parsed_sequence(t, o, st, kind).0.pos == clean_items_end(t, st.pos + 1, kind, true)->0 + 1,
    decreases t.len() - st.pos, 2int, 0int,
{
    reveal(parsed_value);
    reveal(parsed_sequence);
    reveal(parsed_items);
    reveal(next_item);
    reveal(parsed_item);
    reveal(parsed_member);
    let s3 = with_start(with_token(with_start(st), kind.spec_open_paren()));
    lemma_json_items(t, o, s3, kind, true);
}

proof fn lemma_json_items(t: Seq<JsonToken>, o: JsonParserOptions, st: ParseState, kind: SequenceKind, first: bool)
    requires
        0 <= st.pos <= t.len(),
        st.diagnostics.len() == 0,
        clean_items_end(t, st.pos, kind, first) is Some,
    ensures
        parsed_items(t, o, st, kind, first).diagnostics.len() == 0,
        Some(parsed_items(t, o, st, kind, first).pos) == clean_items_end(t, st.pos, kind, first),
        kind_at(t, parsed_items(t, o, st, kind, first).pos) == kind.spec_close_paren(),
    decreases t.len() - st.pos, 7int, if first { 1int } else { 0int },
{
    reveal(parsed_value);
    reveal(parsed_sequence);
    reveal(parsed_items);
    reveal(next_item);
    reveal(parsed_item);
    reveal(parsed_member);
    if kind_at(t, st.pos) != kind.spec_close_paren() {
        lemma_json_next_item(t, o, st, kind, first);
        lemma_next_item_progress(t, o, st, kind, first);
        let (s, more) = next_item(t, o, st, kind, first);
        lemma_json_items(t, o, s, kind, false);
    }
}

proof fn lemma_json_next_item(t: Seq<JsonToken>, o: JsonParserOptions, st: ParseState, kind: SequenceKind, first: bool)
    requires
        0 <= st.pos <= t.len(),
        st.diagnostics.len() == 0,
        clean_items_end(t, st.pos, kind, first) is Some,
        kind_at(t, st.pos) != kind.spec_close_paren(),
    ensures
        next_item(t, o, st, kind, first).1,
        next_item(t, o, st, kind, first).0.diagnostics.len() == 0,
        st.pos < next_item(t, o, st, kind, first).0.pos,
        clean_items_end(t, next_item(t, o, st, kind, first).0.pos, kind, false) == clean_items_end(t, st.pos, kind, first),
    decreases t.len() - st.pos, 6int, 0int,
{
    reveal(next_item);
    reveal(parsed_item);
    reveal(parsed_value);
    reveal(parsed_member);
    let s1 = if first {
        st
    } else {
        with_expect(t, st, JsonSyntaxKind::Comma)
    };
    let i = if first { st.pos } else { st.pos + 1 };
    assert(clean_item_then_rest(t, i, kind) == clean_items_end(t, st.pos, kind, first));
    lemma_json_item(t, o, s1, kind);
}

proof fn lemma_json_item(t: Seq<JsonToken>, o: JsonParserOptions, st: ParseState, kind: SequenceKind)
    requires
        0 <= st.pos <= t.len(),
        st.diagnostics.len() == 0,
        clean_item_end(t, st.pos, kind) is Some,
    ensures
        parsed_item(t, o, st, kind).1,
        parsed_item(t, o, st, kind).0.diagnostics.len() == 0,
        Some(parsed_item(t, o, st, kind).0.pos) == clean_item_end(t, st.pos, kind),
    decreases t.len() - st.pos, 5int, 0int,
{
    reveal(parsed_value);
    reveal(parsed_sequence);
    reveal(parsed_items);
    reveal(next_item);
    reveal(parsed_item);
    reveal(parsed_member);
    match kind {
        SequenceKind::Array => {
            lemma_json_value(t, o, st);
        },
        SequenceKind::Object => {
            lemma_json_member(t, o, st);
        },
    }
}

proof fn lemma_json_member(t: Seq<JsonToken>, o: JsonParserOptions, st: ParseState)
    requires
        0 <= st.pos <= t.len(),
        st.diagnostics.len() == 0,
        clean_item_end(t, st.pos, SequenceKind::Object) is Some,
    ensures
        parsed_member(t, o, st).1,
        parsed_member(t, o, st).0.diagnostics.len() == 0,
        Some(parsed_member(t, o, st).0.pos) == clean_item_end(t, st.pos, SequenceKind::Object),
    decreases t.len() - st.pos, 4int, 0int,
{
    reveal(parsed_value);
    reveal(parsed_sequence);
    reveal(parsed_items);
    reveal(next_item);
    reveal(parsed_item);
    reveal(parsed_member);
    let (s2, named) = parsed_member_name(t, with_start(st));
    let s4 = with_expect(t, s2, JsonSyntaxKind::Colon);
    lemma_json_value(t, o, s4);
}

/// Valid JSON, after an optional byte order mark and with the erroneous
/// tokens of the lexer as values, parses without a diagnostic, whatever the
/// options.
pub proof fn law_json_parses_without_diagnostics(t: Seq<JsonToken>, o: JsonParserOptions)
    requires
        clean_json(t),
    ensures
        parsed_json(t, o).diagnostics.len() == 0,
{
    let s0 = initial_state();
    let s1 = if kind_at(t, 0) == JsonSyntaxKind::UnicodeBom {
        with_token(s0, JsonSyntaxKind::UnicodeBom)
    } else {
        s0
    };
    lemma_json_value(t, o, s1);
}

/// Where a value that starts at `i` ends in JSON extended with trailing
/// commas: as [clean_value_end], but an array or an object may have a comma
/// after its last item.
pub open spec fn trailing_value_end(t: Seq<JsonToken>, i: int) -> Option<int>
    decreases t.len() - i, 0int,
{
    if i < 0 || i >= t.len() {
        None
    } else {
        let kind = t[i].kind;
        if kind == JsonSyntaxKind::NullKw || kind == JsonSyntaxKind::TrueKw || kind == JsonSyntaxKind::FalseKw
            || kind == JsonSyntaxKind::JsonStringLiteral || kind == JsonSyntaxKind::JsonNumberLiteral
            || kind == JsonSyntaxKind::ErrorToken {
            Some(i + 1)
        } else if kind == JsonSyntaxKind::LBrack || kind == JsonSyntaxKind::LCurly {
            match trailing_items_end(t, i + 1, opened_sequence(kind), true) {
                Some(q) => Some(q + 1),
                None => None,
            }
        } else {
            None
        }
    }
}

/// Where the items of a sequence of kind `kind` from `i` end, at its closing
/// token, in JSON extended with trailing commas: items separated by commas,
/// with one more comma allowed after the last item.
pub open spec fn trailing_items_end(t: Seq<JsonToken>, i: int, kind: SequenceKind, first: bool) -> Option<int>
    decreases t.len() - i, 3int,
{
    if i < 0 || i > t.len() {
        None
    } else if kind_at(t, i) == kind.spec_close_paren() {
        Some(i)
    } else if first {
        trailing_item_then_rest(t, i, kind)
    } else if kind_at(t, i) == JsonSyntaxKind::Comma {
        if kind_at(t, i + 1) == kind.spec_close_paren() {
            Some(i + 1)
        } else {
            trailing_item_then_rest(t, i + 1, kind)
        }
    } else {
        None
    }
}

/// Where an item at `i` and the items after it end, with trailing commas.
pub open spec fn trailing_item_then_rest(t: Seq<JsonToken>, i: int, kind: SequenceKind) -> Option<int>
    decreases t.len() - i, 2int,
{
    if i < 0 || i > t.len() {
        None
    } else {
        match trailing_item_end(t, i, kind) {
            Some(j) => if i < j <= t.len() {
                trailing_items_end(t, j, kind, false)
            } else {
                None
            },
            None => None,
        }
    }
}

/// Where an item at `i` ends, with trailing commas: a value in an array, a
/// member `"name": value` in an object.
pub open spec fn trailing_item_end(t: Seq<JsonToken>, i: int, kind: SequenceKind) -> Option<int>
    decreases t.len() - i, 1int,
{
    if i < 0 || i > t.len() {
        None
    } else {
        match kind {
            SequenceKind::Array => trailing_value_end(t, i),
            SequenceKind::Object => if kind_at(t, i) == JsonSyntaxKind::JsonStringLiteral && kind_at(t, i + 1)
                == JsonSyntaxKind::Colon {
                trailing_value_end(t, i + 2)
            } else {
                None
            },
        }
    }
}

/// Whether the tokens `t` hold, after an optional byte order mark, a value
/// of JSON extended with trailing commas, and then the end of the file.
pub open spec fn trailing_json(t: Seq<JsonToken>) -> bool {
    let i = if kind_at(t, 0) == JsonSyntaxKind::UnicodeBom { 1int } else { 0int };
    trailing_value_end(t, i) matches Some(n) && kind_at(t, n) == JsonSyntaxKind::Eof
}

proof fn lemma_trailing_value(t: Seq<JsonToken>, o: JsonParserOptions, st: ParseState)
    requires
        o.allow_trailing_commas,
        0 <= st.pos <= t.len(),
        st.diagnostics.len() == 0,
        trailing_value_end(t, st.pos) is Some,
    ensures
        parsed_value(t, o, st).0.diagnostics.len() == 0,
        parsed_value(t, o, st).1 is Some,
        Some(parsed_value(t, o, st).0.pos) == trailing_value_end(t, st.pos),
    decreases t.len() - st.pos, 3int, 0int,
{
    reveal(parsed_value);
    reveal(parsed_sequence);
    reveal(parsed_items);
    reveal(next_item);
    reveal(parsed_item);
    reveal(parsed_member);
    let k = kind_at(t, st.pos);
    if k == JsonSyntaxKind::LCurly || k == JsonSyntaxKind::LBrack {
        lemma_trailing_sequence(t, o, st, opened_sequence(k));
    }
}

proof fn lemma_trailing_sequence(t: Seq<JsonToken>, o: JsonParserOptions, st: ParseState, kind: SequenceKind)
    requires
        o.allow_trailing_commas,
        0 <= st.pos <= t.len(),
        st.diagnostics.len() == 0,
        kind_at(t, st.pos) == kind.spec_open_paren(),
        trailing_items_end(t, st.pos + 1, kind, true) is Some,
    ensures
        parsed_sequence(t, o, st, kind).0.diagnostics.len() == 0,
        parsed_sequence(t, o, st, kind).0.pos == trailing_items_end(t, st.pos + 1, kind, true)->0 + 1,
    decreases t.len() - st.pos, 2int, 0int,
{
    reveal(parsed_value);
    reveal(parsed_sequence);
    reveal(parsed_items);
    reveal(next_item);
    reveal(parsed_item);
    reveal(parsed_member);
    let s3 = with_start(with_token(with_start(st), kind.spec_open_paren()));
    lemma_trailing_items(t, o, s3, kind, true);
}

proof fn lemma_trailing_items(t: Seq<JsonToken>, o: JsonParserOptions, st: ParseState, kind: SequenceKind, first: bool)
    requires
        o.allow_trailing_commas,
        0 <= st.pos <= t.len(),
        st.diagnostics.len() == 0,
        trailing_items_end(t, st.pos, kind, first) is Some,
    ensures
        parsed_items(t, o, st, kind, first).diagnostics.len() == 0,
        Some(parsed_items(t, o, st, kind, first).pos) == trailing_items_end(t, st.pos, kind, first),
        kind_at(t, parsed_items(t, o, st, kind, first).pos) == kind.spec_close_paren(),
    decreases t.len() - st.pos, 7int, if first { 1int } else { 0int },
{
    reveal(parsed_value);
    reveal(parsed_sequence);
    reveal(parsed_items);
    reveal(next_item);
    reveal(parsed_item);
    reveal(parsed_member);
    if kind_at(t, st.pos) != kind.spec_close_paren() {
        lemma_trailing_next_item(t, o, st, kind, first);
        lemma_next_item_progress(t, o, st, kind, first);
        let (s, more) = next_item(t, o, st, kind, first);
        if more {
            lemma_trailing_items(t, o, s, kind, false);
        }
    }
}

#[verifier::spinoff_prover]
#[verifier::rlimit(40)]
proof fn lemma_trailing_next_item(t: Seq<JsonToken>, o: JsonParserOptions, st: ParseState, kind: SequenceKind, first: bool)
    requires
        o.allow_trailing_commas,
        0 <= st.pos <= t.len(),
        st.diagnostics.len() == 0,
        trailing_items_end(t, st.pos, kind, first) is Some,
        kind_at(t, st.pos) != kind.spec_close_paren(),
    ensures
        next_item(t, o, st, kind, first).0.diagnostics.len() == 0,
        st.pos < next_item(t, o, st, kind, first).0.pos,
        next_item(t, o, st, kind, first).1 ==> trailing_items_end(t, next_item(t, o, st, kind, first).0.pos, kind, false)
            == trailing_items_end(t, st.pos, kind, first),
        !next_item(t, o, st, kind, first).1 ==> Some(next_item(t, o, st, kind, first).0.pos) == trailing_items_end(
            t,
            st.pos,
            kind,
            first,
        ),
        !next_item(t, o, st, kind, first).1 ==> kind_at(t, next_item(t, o, st, kind, first).0.pos) == kind.spec_close_paren(),
    decreases t.len() - st.pos, 6int, 0int,
{
    reveal(next_item);
    reveal(parsed_item);
    reveal(parsed_value);
    reveal(parsed_member);
    let s1 = if first {
        st
    } else {
        with_expect(t, st, JsonSyntaxKind::Comma)
    };
    let i = if first { st.pos } else { st.pos + 1 };
    if !first && kind_at(t, st.pos + 1) == kind.spec_close_paren() {
        assert(s1.last == Some(JsonSyntaxKind::Comma));
        assert(s1.pos == st.pos + 1);
        match kind {
            SequenceKind::Array => {
                assert(parsed_value(t, o, s1).1 is None);
            },
            SequenceKind::Object => {},
        }
    } else {
        assert(trailing_item_then_rest(t, i, kind) == trailing_items_end(t, st.pos, kind, first));
        lemma_trailing_item(t, o, s1, kind);
    }
}

proof fn lemma_trailing_item(t: Seq<JsonToken>, o: JsonParserOptions, st: ParseState, kind: SequenceKind)
    requires
        o.allow_trailing_commas,
        0 <= st.pos <= t.len(),
        st.diagnostics.len() == 0,
        trailing_item_end(t, st.pos, kind) is Some,
    ensures
        parsed_item(t, o, st, kind).1,
        parsed_item(t, o, st, kind).0.diagnostics.len() == 0,
        Some(parsed_item(t, o, st, kind).0.pos) == trailing_item_end(t, st.pos, kind),
    decreases t.len() - st.pos, 5int, 0int,
{
    reveal(parsed_value);
    reveal(parsed_sequence);
    reveal(parsed_items);
    reveal(next_item);
    reveal(parsed_item);
    reveal(parsed_member);
    match kind {
        SequenceKind::Array => {
            lemma_trailing_value(t, o, st);
        },
        SequenceKind::Object => {
            let (s2, named) = parsed_member_name(t, with_start(st));
            let s4 = with_expect(t, s2, JsonSyntaxKind::Colon);
            lemma_trailing_value(t, o, s4);
        },
    }
}

/// With trailing commas allowed, a text that is valid JSON but for one
/// comma after the last item of any of its arrays and objects (after an
/// optional byte order mark, with the erroneous tokens of the lexer as
/// values) parses without a diagnostic.
pub proof fn law_trailing_commas_parse_without_diagnostics(t: Seq<JsonToken>, o: JsonParserOptions)
    requires
        o.allow_trailing_commas,
        trailing_json(t),
    ensures
        parsed_json(t, o).diagnostics.len() == 0,
{
    let s0 = initial_state();
    let s1 = if kind_at(t, 0) == JsonSyntaxKind::UnicodeBom {
        with_token(s0, JsonSyntaxKind::UnicodeBom)
    } else {
        s0
    };
    lemma_trailing_value(t, o, s1);
}

} // verus!
