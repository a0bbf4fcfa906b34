//! A parser for JSON. It reads the tokens of a text and builds its syntax
//! tree as a list of events: the start of a node, a token, the end of the
//! node. Every token before the end of the file is in the tree, in order,
//! so that the text can be rebuilt from the tree; what does not parse is
//! kept in bogus nodes and reported.

use vstd::prelude::*;

use crate::json_syntax::{is_value_start, value_start, JsonSyntaxKind, SequenceKind};
use crate::json_tree::{
    ParseState, PendingSequence, RecoverySet, clean_json, closed_sequence, finished_sequences, initial_state,
    law_json_parses_without_diagnostics, law_no_diagnostics_only_for_json, lemma_close_pending, lemma_finished_push, lemma_nest_pending,
    lemma_parse_progress, lemma_resume_pending, lemma_sequence_at_open, next_item, opened_sequence, parsed_item,
    parsed_items, parsed_json, parsed_member, parsed_member_name, parsed_rest, parsed_rest_values, parsed_sequence,
    parsed_value, recovered, single_value_node, skipped, stops_at, with_complete, with_error, with_expect,
    with_member_complete, with_start, with_start_before, with_token,
};

verus! {

/// A token as the parser sees it.
#[derive(Clone, Copy, Debug, PartialEq, Eq, Structural)]
pub struct JsonToken {
    pub kind: JsonSyntaxKind,
    /// Whether a line break comes between the previous token and this one.
    pub has_preceding_line_break: bool,
}

/// The options of the parser.
#[derive(Clone, Copy, Debug, Default, PartialEq, Eq, Structural)]
pub struct JsonParserOptions {
    /// Whether a `,` may follow the last item of an array or an object.
    pub allow_trailing_commas: bool,
}

/// An event of the syntax tree, in preorder.
#[derive(Clone, Copy, Debug, PartialEq, Eq, Structural)]
pub enum JsonEvent {
    /// The start of a node of kind `kind`.
    Start { kind: JsonSyntaxKind },
    /// The token at `index` in the input, as a token of kind `kind`.
    Token { kind: JsonSyntaxKind, index: usize },
    /// The end of the innermost node that is not finished.
    Finish,
}

/// What a diagnostic of the parser reports.
#[derive(Clone, Copy, Debug, PartialEq, Eq, Structural)]
pub enum JsonDiagnosticKind {
    /// An array, an object or a literal was expected.
    ExpectedValue,
    /// A property was expected.
    ExpectedProperty,
    /// A token of the given kind was expected.
    ExpectedToken(JsonSyntaxKind),
    /// String values must be double quoted.
    UnquotedString,
    /// Property key must be double quoted.
    UnquotedPropertyKey,
    /// End of file expected: use an array for a sequence of values.
    EndOfFileExpected,
}

/// A diagnostic of the parser, about the tokens from `start` up to `end`
/// (excluded).
#[derive(Clone, Copy, Debug, PartialEq, Eq, Structural)]
pub struct JsonDiagnostic {
    pub kind: JsonDiagnosticKind,
    pub start: usize,
    pub end: usize,
}

/// The result of parsing: the events of the tree and the diagnostics.
pub struct JsonParse {
    pub events: Vec<JsonEvent>,
    pub diagnostics: Vec<JsonDiagnostic>,
}

/// How an event changes the number of nodes that are started and not finished.
pub open spec fn delta(e: JsonEvent) -> int {
    match e {
        JsonEvent::Start { .. } => 1,
        JsonEvent::Token { .. } => 0,
        JsonEvent::Finish => -1,
    }
}

/// The number of nodes that `events` start and do not finish.
pub open spec fn depth(events: Seq<JsonEvent>) -> int
    decreases events.len(),
{
    if events.len() == 0 {
        0
    } else {
        depth(events.drop_last()) + delta(events.last())
    }
}

/// Whether `e` starts a node that is not complete yet.
pub open spec fn is_tombstone(e: JsonEvent) -> bool {
    e == (JsonEvent::Start { kind: JsonSyntaxKind::Tombstone })
}

/// The number of nodes of `events` that are not complete yet.
pub open spec fn tombstones(events: Seq<JsonEvent>) -> int
    decreases events.len(),
{
    if events.len() == 0 {
        0
    } else {
        tombstones(events.drop_last()) + if is_tombstone(events.last()) { 1int } else { 0int }
    }
}

/// The indices of the tokens of `events`, in order.
pub open spec fn token_indices(events: Seq<JsonEvent>) -> Seq<usize>
    decreases events.len(),
{
    if events.len() == 0 {
        Seq::empty()
    } else {
        let rest = token_indices(events.drop_last());
        match events.last() {
            JsonEvent::Token { index, .. } => rest.push(index),
            _ => rest,
        }
    }
}

/// The indices `0` up to `n` (excluded).
pub open spec fn first_indices(n: int) -> Seq<usize> {
    Seq::new(n as nat, |i: int| i as usize)
}

/// Whether `a` is a prefix of `b`.
pub open spec fn prefix(a: Seq<JsonEvent>, b: Seq<JsonEvent>) -> bool {
    a.len() <= b.len() && b.subrange(0, a.len() as int) == a
}

proof fn lemma_prefix_trans(a: Seq<JsonEvent>, b: Seq<JsonEvent>, c: Seq<JsonEvent>)
    requires
        prefix(a, b),
        prefix(b, c),
    ensures
        prefix(a, c),
{
    assert forall|i: int| 0 <= i < a.len() implies #[trigger] c.subrange(0, a.len() as int)[i] == a[i] by {
        assert(c.subrange(0, b.len() as int)[i] == c[i]);
        assert(b.subrange(0, a.len() as int)[i] == b[i]);
    }
    assert(c.subrange(0, a.len() as int) =~= a);
}

/// Whether every prefix of `events` leaves at least as many nodes open as it
/// holds nodes that are not complete: an incomplete node is never finished.
pub open spec fn dominated(events: Seq<JsonEvent>) -> bool {
    forall|k: int| 0 <= k <= events.len() ==> #[trigger] depth(events.take(k)) >= tombstones(events.take(k))
}

/// Whether `events` form a single tree: a node that starts first, ends last,
/// and is the only one open in between.
pub open spec fn single_tree(events: Seq<JsonEvent>) -> bool {
    &&& events.len() >= 2
    &&& events[0] is Start
    &&& depth(events) == 0
    &&& forall|k: int| 0 < k < events.len() ==> #[trigger] depth(events.take(k)) >= 1
}

/// The index of the first end of the file in `tokens`, or their number.
pub open spec fn first_eof(tokens: Seq<JsonToken>) -> int
    decreases tokens.len(),
{
    if tokens.len() == 0 {
        0
    } else if tokens[0].kind == JsonSyntaxKind::Eof {
        0
    } else {
        1 + first_eof(tokens.drop_first())
    }
}

/// Whether the token event `e` stands for the token `t` of the input: with
/// its kind, or as an identifier where a keyword or an identifier is a
/// property name.
pub open spec fn stands_for(kind: JsonSyntaxKind, t: JsonToken) -> bool {
    ||| kind == t.kind
    ||| (kind == JsonSyntaxKind::Ident && (t.kind == JsonSyntaxKind::NullKw || t.kind == JsonSyntaxKind::TrueKw
        || t.kind == JsonSyntaxKind::FalseKw))
}

/// Whether every token event of `events` stands for the input token it names.
pub open spec fn faithful(events: Seq<JsonEvent>, tokens: Seq<JsonToken>) -> bool {
    forall|i: int| 0 <= i < events.len() ==> match #[trigger] events[i] {
        JsonEvent::Token { kind, index } => index < tokens.len() && stands_for(kind, tokens[index as int]),
        _ => true,
    }
}

/// The kind of the token at `i`; the end of the file past the last one.
pub open spec fn kind_at(tokens: Seq<JsonToken>, i: int) -> JsonSyntaxKind {
    if 0 <= i < tokens.len() {
        tokens[i].kind
    } else {
        JsonSyntaxKind::Eof
    }
}

/// Where a valid JSON value that starts at `i` ends, if one does: a
/// literal, or an array or an object with valid items.
pub open spec fn value_end(tokens: Seq<JsonToken>, i: int) -> Option<int>
    decreases tokens.len() - i, 0int,
{
    if i < 0 || i >= tokens.len() {
        None
    } else {
        let kind = tokens[i].kind;
        if kind == JsonSyntaxKind::NullKw || kind == JsonSyntaxKind::TrueKw || kind == JsonSyntaxKind::FalseKw
            || kind == JsonSyntaxKind::JsonStringLiteral || kind == JsonSyntaxKind::JsonNumberLiteral {
            Some(i + 1)
        } else if kind == JsonSyntaxKind::LBrack || kind == JsonSyntaxKind::LCurly {
            let sequence = if kind == JsonSyntaxKind::LBrack { SequenceKind::Array } else { SequenceKind::Object };
            match items_end(tokens, i + 1, sequence, true) {
                Some(q) => Some(q + 1),
                None => None,
            }
        } else {
            None
        }
    }
}

/// Where the valid items of a sequence of kind `kind` from `i` end, at its
/// closing token, if they do: items separated by commas; `first` when no
/// item came yet.
pub open spec fn items_end(tokens: Seq<JsonToken>, i: int, kind: SequenceKind, first: bool) -> Option<int>
    decreases tokens.len() - i, 3int,
{
    if i < 0 || i > tokens.len() {
        None
    } else if kind_at(tokens, i) == kind.spec_close_paren() {
        Some(i)
    } else if first {
        item_then_rest(tokens, i, kind)
    } else if kind_at(tokens, i) == JsonSyntaxKind::Comma {
        item_then_rest(tokens, i + 1, kind)
    } else {
        None
    }
}

/// Where an item at `i` and the items after it end.
pub open spec fn item_then_rest(tokens: Seq<JsonToken>, i: int, kind: SequenceKind) -> Option<int>
    decreases tokens.len() - i, 2int,
{
    if i < 0 || i > tokens.len() {
        None
    } else {
        match item_end(tokens, i, kind) {
            Some(j) => if i < j <= tokens.len() {
                items_end(tokens, j, kind, false)
            } else {
                None
            },
            None => None,
        }
    }
}

/// Where a valid item of a sequence of kind `kind` that starts at `i` ends:
/// a value in an array, a member `"name": value` in an object.
pub open spec fn item_end(tokens: Seq<JsonToken>, i: int, kind: SequenceKind) -> Option<int>
    decreases tokens.len() - i, 1int,
{
    if i < 0 || i > tokens.len() {
        None
    } else {
        match kind {
            SequenceKind::Array => value_end(tokens, i),
            SequenceKind::Object => if kind_at(tokens, i) == JsonSyntaxKind::JsonStringLiteral
                && kind_at(tokens, i + 1) == JsonSyntaxKind::Colon {
                value_end(tokens, i + 2)
            } else {
                None
            },
        }
    }
}

/// Whether `tokens` hold a valid JSON text: a value, then the end of the file.
pub open spec fn valid_json(tokens: Seq<JsonToken>) -> bool {
    value_end(tokens, 0) matches Some(n) && kind_at(tokens, n) == JsonSyntaxKind::Eof
}

/// Where the items of the innermost sequence of `kinds` from `i` and then
/// the rest of each enclosing one end; `first` when no item of the innermost
/// one came yet.
pub open spec fn chain_end(tokens: Seq<JsonToken>, i: int, kinds: Seq<SequenceKind>, first: bool) -> Option<int>
    decreases kinds.len(),
{
    if kinds.len() == 0 {
        Some(i)
    } else {
        match items_end(tokens, i, kinds.last(), first) {
            Some(q) => chain_end(tokens, q + 1, kinds.drop_last(), false),
            None => None,
        }
    }
}

/// The node of a literal value.
pub open spec fn literal_node(kind: JsonSyntaxKind) -> JsonSyntaxKind {
    if kind == JsonSyntaxKind::NullKw {
        JsonSyntaxKind::JsonNullValue
    } else if kind == JsonSyntaxKind::TrueKw || kind == JsonSyntaxKind::FalseKw {
        JsonSyntaxKind::JsonBooleanValue
    } else if kind == JsonSyntaxKind::JsonStringLiteral {
        JsonSyntaxKind::JsonStringValue
    } else {
        JsonSyntaxKind::JsonNumberValue
    }
}

/// The events of the valid value that starts at `i`: a literal node, or an
/// array or object node that holds its opening token, the list of its
/// items, and its closing token.
pub open spec fn value_events(tokens: Seq<JsonToken>, i: int) -> Seq<JsonEvent>
    decreases tokens.len() - i, 0int,
{
    if i < 0 || i >= tokens.len() {
        Seq::empty()
    } else {
        let kind = tokens[i].kind;
        if kind == JsonSyntaxKind::NullKw || kind == JsonSyntaxKind::TrueKw || kind == JsonSyntaxKind::FalseKw
            || kind == JsonSyntaxKind::JsonStringLiteral || kind == JsonSyntaxKind::JsonNumberLiteral {
            seq![
                JsonEvent::Start { kind: literal_node(kind) },
                JsonEvent::Token { kind, index: i as usize },
                JsonEvent::Finish,
            ]
        } else if kind == JsonSyntaxKind::LBrack || kind == JsonSyntaxKind::LCurly {
            let sequence = if kind == JsonSyntaxKind::LBrack { SequenceKind::Array } else { SequenceKind::Object };
            match items_end(tokens, i + 1, sequence, true) {
                Some(q) => seq![
                    JsonEvent::Start { kind: sequence.spec_node_kind() },
                    JsonEvent::Token { kind, index: i as usize },
                    JsonEvent::Start { kind: sequence.spec_list_kind() },
                ] + items_events(tokens, i + 1, sequence, true) + seq![
                    JsonEvent::Finish,
                    JsonEvent::Token { kind: sequence.spec_close_paren(), index: q as usize },
                    JsonEvent::Finish,
                ],
                None => Seq::empty(),
            }
        } else {
            Seq::empty()
        }
    }
}

/// The events of the valid items of a sequence of kind `kind` from `i`.
pub open spec fn items_events(tokens: Seq<JsonToken>, i: int, kind: SequenceKind, first: bool) -> Seq<JsonEvent>
    decreases tokens.len() - i, 3int,
{
    if i < 0 || i > tokens.len() {
        Seq::empty()
    } else if kind_at(tokens, i) == kind.spec_close_paren() {
        Seq::empty()
    } else if first {
        item_then_rest_events(tokens, i, kind)
    } else if kind_at(tokens, i) == JsonSyntaxKind::Comma {
        seq![JsonEvent::Token { kind: JsonSyntaxKind::Comma, index: i as usize }] + item_then_rest_events(tokens, i + 1, kind)
    } else {
        Seq::empty()
    }
}

/// The events of an item at `i` and of the items after it.
pub open spec fn item_then_rest_events(tokens: Seq<JsonToken>, i: int, kind: SequenceKind) -> Seq<JsonEvent>
    decreases tokens.len() - i, 2int,
{
    if i < 0 || i > tokens.len() {
        Seq::empty()
    } else {
        match item_end(tokens, i, kind) {
            Some(j) => if i < j <= tokens.len() {
                item_events(tokens, i, kind) + items_events(tokens, j, kind, false)
            } else {
                Seq::empty()
            },
            None => Seq::empty(),
        }
    }
}

/// The events of a valid item at `i`: a value in an array; in an object, a
/// member node with its name node, the colon and the value.
pub open spec fn item_events(tokens: Seq<JsonToken>, i: int, kind: SequenceKind) -> Seq<JsonEvent>
    decreases tokens.len() - i, 1int,
{
    if i < 0 || i > tokens.len() {
        Seq::empty()
    } else {
        match kind {
            SequenceKind::Array => value_events(tokens, i),
            SequenceKind::Object => if kind_at(tokens, i) == JsonSyntaxKind::JsonStringLiteral
                && kind_at(tokens, i + 1) == JsonSyntaxKind::Colon {
                member_head(i) + value_events(tokens, i + 2) + seq![JsonEvent::Finish]
            } else {
                Seq::empty()
            },
        }
    }
}

/// The events of a member at `i` before its value, while the member is not complete.
pub open spec fn open_member_head(i: int) -> Seq<JsonEvent> {
    member_head(i).update(0, JsonEvent::Start { kind: JsonSyntaxKind::Tombstone })
}

/// The events of a member at `i` before its value.
pub open spec fn member_head(i: int) -> Seq<JsonEvent> {
    seq![
        JsonEvent::Start { kind: JsonSyntaxKind::JsonMember },
        JsonEvent::Start { kind: JsonSyntaxKind::JsonMemberName },
        JsonEvent::Token { kind: JsonSyntaxKind::JsonStringLiteral, index: i as usize },
        JsonEvent::Finish,
        JsonEvent::Token { kind: JsonSyntaxKind::Colon, index: (i + 1) as usize },
    ]
}

proof fn lemma_items_end_not_eof(tokens: Seq<JsonToken>, i: int, kind: SequenceKind, first: bool)
    ensures
        items_end(tokens, i, kind, first) is Some ==> kind_at(tokens, i) != JsonSyntaxKind::Eof,
{
    if 0 <= i <= tokens.len() && kind_at(tokens, i) != kind.spec_close_paren() && first {
        if item_then_rest(tokens, i, kind) is Some {
            assert(item_end(tokens, i, kind) is Some);
            if kind == SequenceKind::Array {
                assert(value_end(tokens, i) is Some);
            }
        }
    }
}

proof fn lemma_value_end(tokens: Seq<JsonToken>, i: int)
    ensures
        value_end(tokens, i) matches Some(e) ==> i < e <= tokens.len(),
    decreases tokens.len() - i, 0int,
{
    if 0 <= i < tokens.len() {
        let kind = tokens[i].kind;
        if kind == JsonSyntaxKind::LBrack {
            lemma_items_end(tokens, i + 1, SequenceKind::Array, true);
        } else if kind == JsonSyntaxKind::LCurly {
            lemma_items_end(tokens, i + 1, SequenceKind::Object, true);
        }
    }
}

proof fn lemma_items_end(tokens: Seq<JsonToken>, i: int, kind: SequenceKind, first: bool)
    ensures
        items_end(tokens, i, kind, first) matches Some(q) ==> i <= q < tokens.len()
            && kind_at(tokens, q) == kind.spec_close_paren(),
    decreases tokens.len() - i, 3int,
{
    if 0 <= i <= tokens.len() && kind_at(tokens, i) != kind.spec_close_paren() {
        if first {
            lemma_item_then_rest(tokens, i, kind);
        } else if kind_at(tokens, i) == JsonSyntaxKind::Comma {
            lemma_item_then_rest(tokens, i + 1, kind);
        }
    }
}

proof fn lemma_item_then_rest(tokens: Seq<JsonToken>, i: int, kind: SequenceKind)
    ensures
        item_then_rest(tokens, i, kind) matches Some(q) ==> i <= q < tokens.len()
            && kind_at(tokens, q) == kind.spec_close_paren(),
    decreases tokens.len() - i, 2int,
{
    if 0 <= i <= tokens.len() {
        match item_end(tokens, i, kind) {
            Some(j) => {
                if i < j <= tokens.len() {
                    lemma_items_end(tokens, j, kind, false);
                }
            },
            None => {},
        }
    }
}

proof fn lemma_item_end(tokens: Seq<JsonToken>, i: int, kind: SequenceKind)
    ensures
        item_end(tokens, i, kind) matches Some(j) ==> i < j <= tokens.len(),
    decreases tokens.len() - i, 1int,
{
    if 0 <= i <= tokens.len() {
        match kind {
            SequenceKind::Array => lemma_value_end(tokens, i),
            SequenceKind::Object => {
                if kind_at(tokens, i) == JsonSyntaxKind::JsonStringLiteral && kind_at(tokens, i + 1) == JsonSyntaxKind::Colon {
                    lemma_value_end(tokens, i + 2);
                }
            },
        }
    }
}

proof fn lemma_push(s: Seq<JsonEvent>, e: JsonEvent)
    ensures
        depth(s.push(e)) == depth(s) + delta(e),
        tombstones(s.push(e)) == tombstones(s) + if is_tombstone(e) { 1int } else { 0int },
        token_indices(s.push(e)) == match e {
            JsonEvent::Token { index, .. } => token_indices(s).push(index),
            _ => token_indices(s),
        },
        dominated(s) && depth(s) + delta(e) >= tombstones(s) + (if is_tombstone(e) { 1int } else { 0int })
            ==> dominated(s.push(e)),
{
    assert(s.push(e).drop_last() =~= s);
    if dominated(s) && depth(s) + delta(e) >= tombstones(s) + (if is_tombstone(e) { 1int } else { 0int }) {
        assert forall|k: int| 0 <= k <= s.push(e).len() implies #[trigger] depth(s.push(e).take(k))
            >= tombstones(s.push(e).take(k)) by {
            if k <= s.len() {
                assert(s.push(e).take(k) =~= s.take(k));
            } else {
                assert(s.push(e).take(k) =~= s.push(e));
                assert(s.take(s.len() as int) =~= s);
            }
        }
    }
}

/// Replacing the start of a node by the start of a node keeps depths and
/// tokens, and changes the count of incomplete nodes accordingly.
proof fn lemma_update_start(s: Seq<JsonEvent>, q: int, kind: JsonSyntaxKind)
    requires
        0 <= q < s.len(),
        s[q] is Start,
    ensures
        forall|j: int| 0 <= j <= s.len() ==> #[trigger] depth(s.update(q, JsonEvent::Start { kind }).take(j)) == depth(s.take(j)),
        forall|j: int| 0 <= j <= s.len() ==> #[trigger] tombstones(s.update(q, JsonEvent::Start { kind }).take(j))
            == tombstones(s.take(j)) - (if j > q && is_tombstone(s[q]) { 1int } else { 0int })
                + (if j > q && kind == JsonSyntaxKind::Tombstone { 1int } else { 0int }),
        token_indices(s.update(q, JsonEvent::Start { kind })) == token_indices(s),
        depth(s.update(q, JsonEvent::Start { kind })) == depth(s),
        tombstones(s.update(q, JsonEvent::Start { kind })) == tombstones(s)
            - (if is_tombstone(s[q]) { 1int } else { 0int }) + (if kind == JsonSyntaxKind::Tombstone { 1int } else { 0int }),
    decreases s.len(),
{
    let t = s.update(q, JsonEvent::Start { kind });
    if q < s.len() - 1 {
        lemma_update_start(s.drop_last(), q, kind);
        assert(t.drop_last() =~= s.drop_last().update(q, JsonEvent::Start { kind }));
        assert(t.last() == s.last());
    } else {
        assert(t.drop_last() =~= s.drop_last());
        assert(t.last() == JsonEvent::Start { kind });
    }
    assert(tombstones(t) == tombstones(s) - (if is_tombstone(s[q]) { 1int } else { 0int })
        + (if kind == JsonSyntaxKind::Tombstone { 1int } else { 0int }));
    assert(depth(t) == depth(s));
    assert forall|j: int| #![trigger depth(t.take(j))] #![trigger tombstones(t.take(j))]
        0 <= j <= s.len() implies depth(t.take(j)) == depth(s.take(j))
        && tombstones(t.take(j)) == tombstones(s.take(j)) - (if j > q && is_tombstone(s[q]) { 1int } else { 0int })
            + (if j > q && kind == JsonSyntaxKind::Tombstone { 1int } else { 0int }) by {
        if j <= q {
            assert(t.take(j) =~= s.take(j));
        } else if j == s.len() {
            assert(t.take(j) =~= t);
            assert(s.take(j) =~= s);
        } else {
            assert(t.take(j) =~= t.drop_last().take(j));
            assert(s.take(j) =~= s.drop_last().take(j));
        }
    }
    assert(t.take(s.len() as int) =~= t);
    assert(s.take(s.len() as int) =~= s);
}

/// Inserting the start of an incomplete node keeps the tokens, adds one to
/// the depth of the prefixes that hold it, and keeps domination.
proof fn lemma_insert_tombstone(s: Seq<JsonEvent>, p: int)
    requires
        0 <= p <= s.len(),
    ensures
        ({
            let t = s.insert(p, JsonEvent::Start { kind: JsonSyntaxKind::Tombstone });
            &&& token_indices(t) == token_indices(s)
            &&& depth(t) == depth(s) + 1
            &&& tombstones(t) == tombstones(s) + 1
            &&& forall|j: int| 0 <= j <= p ==> #[trigger] t.take(j) == s.take(j)
            &&& forall|j: int| #![trigger depth(t.take(j))] #![trigger tombstones(t.take(j))]
                p < j <= t.len() ==> depth(t.take(j)) == depth(s.take(j - 1)) + 1
                && tombstones(t.take(j)) == tombstones(s.take(j - 1)) + 1
            &&& dominated(s) ==> dominated(t)
        }),
    decreases s.len(),
{
    let tomb = JsonEvent::Start { kind: JsonSyntaxKind::Tombstone };
    let t = s.insert(p, tomb);
    if p == s.len() {
        assert(t =~= s.push(tomb));
        lemma_push(s, tomb);
        assert forall|j: int| #![trigger depth(t.take(j))] #![trigger tombstones(t.take(j))]
            p < j <= t.len() implies depth(t.take(j)) == depth(s.take(j - 1)) + 1
            && tombstones(t.take(j)) == tombstones(s.take(j - 1)) + 1 by {
            assert(t.take(j) =~= t);
            assert(s.take(j - 1) =~= s);
        }
    } else {
        lemma_insert_tombstone(s.drop_last(), p);
        assert(t.drop_last() =~= s.drop_last().insert(p, tomb));
        assert forall|j: int| #![trigger depth(t.take(j))] #![trigger tombstones(t.take(j))]
            p < j <= t.len() implies depth(t.take(j)) == depth(s.take(j - 1)) + 1
            && tombstones(t.take(j)) == tombstones(s.take(j - 1)) + 1 by {
            if j == t.len() {
                assert(t.take(j) =~= t);
                assert(s.take(j - 1) =~= s);
                assert(s.drop_last().take(s.len() - 1) =~= s.drop_last());
                assert(t.drop_last().take(t.len() - 1) =~= t.drop_last());
            } else {
                assert(t.take(j) =~= t.drop_last().take(j));
                assert(s.take(j - 1) =~= s.drop_last().take(j - 1));
            }
        }
    }
    assert forall|j: int| 0 <= j <= p implies #[trigger] t.take(j) == s.take(j) by {
        assert(t.take(j) =~= s.take(j));
    }
    assert(t.take(t.len() as int) =~= t);
    assert(s.take(s.len() as int) =~= s);
    if dominated(s) {
        assert forall|k: int| 0 <= k <= t.len() implies #[trigger] depth(t.take(k)) >= tombstones(t.take(k)) by {
            if k <= p {
                assert(t.take(k) == s.take(k));
            } else {
                assert(depth(t.take(k)) == depth(s.take(k - 1)) + 1);
            }
        }
    }
}

proof fn lemma_tombstones_prefix(s: Seq<JsonEvent>, j: int, k: int)
    requires
        0 <= j <= k <= s.len(),
    ensures
        tombstones(s.take(j)) <= tombstones(s.take(k)),
    decreases k - j,
{
    if j < k {
        lemma_tombstones_prefix(s, j, k - 1);
        assert(s.take(k).drop_last() =~= s.take(k - 1));
    }
}

proof fn lemma_first_eof(tokens: Seq<JsonToken>, pos: int)
    requires
        0 <= pos <= tokens.len(),
        forall|i: int| 0 <= i < pos ==> #[trigger] tokens[i].kind != JsonSyntaxKind::Eof,
        pos == tokens.len() || tokens[pos].kind == JsonSyntaxKind::Eof,
    ensures
        first_eof(tokens) == pos,
    decreases pos,
{
    if pos > 0 {
        assert(tokens[0].kind != JsonSyntaxKind::Eof);
        let rest = tokens.drop_first();
        assert forall|i: int| 0 <= i < pos - 1 implies #[trigger] rest[i].kind != JsonSyntaxKind::Eof by {
            assert(rest[i] == tokens[i + 1]);
        }
        lemma_first_eof(rest, pos - 1);
    }
}

/// A node that is started and not complete: the position of its start
/// event, and the index of the token at which it starts.
#[derive(Clone, Copy, Debug)]
struct Marker {
    pos: usize,
    token: usize,
}

/// A complete node: the position of its start event, and the tokens it spans.
#[derive(Clone, Copy, Debug)]
struct CompletedMarker {
    pos: usize,
    start: usize,
    end: usize,
}

impl CompletedMarker {
    /// The tokens the node spans.
    fn range(&self) -> (r: (usize, usize))
        ensures
            r == (self.start, self.end),
    {
        (self.start, self.end)
    }
}

/// The event position and the tokens of the node of `c`.
spec fn node_of(c: CompletedMarker) -> (int, int, int) {
    (c.pos as int, c.start as int, c.end as int)
}

/// The event position and the tokens of the node of `c`, if any.
spec fn opt_node(c: Option<CompletedMarker>) -> Option<(int, int, int)> {
    match c {
        Some(c) => Some(node_of(c)),
        None => None,
    }
}

/// Where a sequence is in its parse.
#[derive(Clone, Copy, Debug)]
enum SequenceState {
    Start,
    Processing,
    /// A nested sequence is being parsed; in an object, the member that holds it.
    Suspended(Option<Marker>),
}

/// An array or an object being parsed: its node and the node of its items.
#[derive(Clone, Copy, Debug)]
struct Sequence {
    kind: SequenceKind,
    node: Marker,
    list: Marker,
    state: SequenceState,
}

/// What parsing an item of a sequence gives.
#[derive(Clone, Copy, Debug)]
enum SequenceItem {
    Parsed(Option<CompletedMarker>),
    /// A nested array or object starts here; in an object, inside the given member.
    Recurse(SequenceKind, Option<Marker>),
}

/// What parsing the next item of a sequence gives.
#[derive(Clone, Copy, Debug)]
enum ItemStep {
    /// The item is parsed, or recovered from.
    Next,
    /// The items end here.
    Stop,
    /// A nested array or object starts here; in an object, inside the given member.
    Nested(SequenceKind, Option<Marker>),
}

/// The event position of the node of `marker`, if any.
spec fn marker_pos(marker: Option<Marker>) -> Option<int> {
    match marker {
        Some(m) => Some(m.pos as int),
        None => None,
    }
}

/// The member of an object that holds the nested sequence that `s` waits for, if any.
spec fn suspended_member(s: Sequence) -> Option<int> {
    match s.state {
        SequenceState::Suspended(marker) => marker_pos(marker),
        _ => None,
    }
}

/// The sequence `s`, as it waits to go on.
spec fn pending_of(s: Sequence) -> PendingSequence {
    PendingSequence {
        kind: s.kind,
        node: s.node.pos as int,
        list: s.list.pos as int,
        member: suspended_member(s),
        first: s.state is Start,
    }
}

/// The sequences of `stack`, as they wait to go on.
spec fn pending_stack(stack: Seq<Sequence>) -> Seq<PendingSequence> {
    stack.map_values(|s: Sequence| pending_of(s))
}

proof fn lemma_pending_stack_push(stack: Seq<Sequence>, top: Sequence)
    ensures
        pending_stack(stack.push(top)) == pending_stack(stack).push(pending_of(top)),
{
    assert(pending_stack(stack.push(top)) =~= pending_stack(stack).push(pending_of(top)));
}

/// The open markers of a sequence, in the order they were started.
spec fn sequence_markers(s: Sequence) -> Seq<usize> {
    seq![s.node.pos, s.list.pos] + match s.state {
        SequenceState::Suspended(Some(m)) => seq![m.pos],
        _ => Seq::empty(),
    }
}

/// The open markers of a stack of sequences, outermost first.
spec fn stack_markers(stack: Seq<Sequence>) -> Seq<usize>
    decreases stack.len(),
{
    if stack.len() == 0 {
        Seq::empty()
    } else {
        stack_markers(stack.drop_last()) + sequence_markers(stack.last())
    }
}

/// Whether the kinds of tokens `kind` start a value that `parse_value` parses.
spec fn parses_value(kind: JsonSyntaxKind) -> bool {
    ||| kind == JsonSyntaxKind::NullKw
    ||| kind == JsonSyntaxKind::JsonStringLiteral
    ||| kind == JsonSyntaxKind::TrueKw
    ||| kind == JsonSyntaxKind::FalseKw
    ||| kind == JsonSyntaxKind::JsonNumberLiteral
    ||| kind == JsonSyntaxKind::LCurly
    ||| kind == JsonSyntaxKind::LBrack
    ||| kind == JsonSyntaxKind::Ident
    ||| kind == JsonSyntaxKind::ErrorToken
}

/// The parser: the tokens, where it is in them, and what it built so far.
struct JsonParser<'t> {
    tokens: &'t [JsonToken],
    pos: usize,
    events: Vec<JsonEvent>,
    diagnostics: Vec<JsonDiagnostic>,
    last: Option<JsonSyntaxKind>,
    options: JsonParserOptions,
}

impl<'t> JsonParser<'t> {
    /// The parser is consistent: the tokens before its position are in the
    /// events, in order; every incomplete node is started and not finished;
    /// the root is started first and not complete.
    spec fn wf(&self) -> bool {
        &&& self.tokens@.len() < usize::MAX
        &&& self.pos <= self.tokens@.len()
        &&& forall|i: int| 0 <= i < self.pos ==> #[trigger] self.tokens@[i].kind != JsonSyntaxKind::Eof
        &&& token_indices(self.events@) == first_indices(self.pos as int)
        &&& faithful(self.events@, self.tokens@)
        &&& depth(self.events@) == tombstones(self.events@)
        &&& dominated(self.events@)
        &&& self.events@.len() > 0
        &&& is_tombstone(self.events@[0])
    }

    /// Where the parser is and what it built so far.
    spec fn pstate(&self) -> ParseState {
        ParseState { pos: self.pos as int, events: self.events@, diagnostics: self.diagnostics@, last: self.last }
    }

    /// `self` is `old` with more tokens parsed and more events, the earlier
    /// events kept, and as many incomplete nodes.
    spec fn grows(&self, old: &Self) -> bool {
        &&& self.wf()
        &&& self.tokens == old.tokens
        &&& self.options == old.options
        &&& self.pos >= old.pos
        &&& prefix(old.events@, self.events@)
    }

    /// Whether a node that is not complete starts at `pos`.
    spec fn open_at(&self, pos: usize) -> bool {
        &&& 0 < pos < self.events@.len()
        &&& is_tombstone(self.events@[pos as int])
    }

    spec fn cur_spec(&self) -> JsonSyntaxKind {
        if self.pos < self.tokens@.len() {
            self.tokens@[self.pos as int].kind
        } else {
            JsonSyntaxKind::Eof
        }
    }

    /// The kind of the current token; the end of the file past the last one.
    fn cur(&self) -> (k: JsonSyntaxKind)
        ensures
            k == self.cur_spec(),
    {
        if self.pos < self.tokens.len() {
            self.tokens[self.pos].kind
        } else {
            JsonSyntaxKind::Eof
        }
    }

    fn at(&self, kind: JsonSyntaxKind) -> (b: bool)
        ensures
            b == (self.cur_spec() == kind),
    {
        self.cur() == kind
    }

    /// Whether a line break precedes the current token.
    fn has_preceding_line_break(&self) -> (b: bool)
        ensures
            b == (self.pos < self.tokens@.len() && self.tokens@[self.pos as int].has_preceding_line_break),
    {
        self.pos < self.tokens.len() && self.tokens[self.pos].has_preceding_line_break
    }

    /// The tokens of the current token: the current one, or none at the end.
    fn cur_range(&self) -> (r: (usize, usize))
        requires
            self.wf(),
        ensures
            r.0 == self.pos,
            r.1 == if self.pos < self.tokens@.len() { self.pos + 1 } else { self.pos as int },
    {
        if self.pos < self.tokens.len() {
            (self.pos, self.pos + 1)
        } else {
            (self.pos, self.pos)
        }
    }

    /// Reports a diagnostic, unless the last one starts at the same token.
    fn error(&mut self, kind: JsonDiagnosticKind, range: (usize, usize))
        ensures
            final(self).tokens == old(self).tokens,
            final(self).pos == old(self).pos,
            final(self).events == old(self).events,
            final(self).last == old(self).last,
            final(self).options == old(self).options,
            final(self).pstate() == with_error(old(self).pstate(), kind, (range.0 as int, range.1 as int)),
    {
        let n = self.diagnostics.len();
        if n > 0 && self.diagnostics[n - 1].start == range.0 {
            return;
        }
        self.diagnostics.push(JsonDiagnostic { kind, start: range.0, end: range.1 });
    }

    /// Adds the current token to the tree as a token of kind `kind`.
    fn bump_as(&mut self, kind: JsonSyntaxKind)
        requires
            old(self).wf(),
            old(self).cur_spec() != JsonSyntaxKind::Eof,
            stands_for(kind, old(self).tokens@[old(self).pos as int]),
        ensures
            final(self).grows(old(self)),
            final(self).pos == old(self).pos + 1,
            final(self).events@ == old(self).events@.push(JsonEvent::Token { kind, index: old(self).pos }),
            tombstones(final(self).events@) == tombstones(old(self).events@),
            final(self).diagnostics@ == old(self).diagnostics@,
            final(self).pstate() == with_token(old(self).pstate(), kind),
    {
        let e = JsonEvent::Token { kind, index: self.pos };
        proof {
            lemma_push(self.events@, e);
            assert(first_indices(self.pos as int).push(self.pos) =~= first_indices(self.pos + 1));
        }
        self.events.push(e);
        self.last = Some(kind);
        self.pos = self.pos + 1;
        proof {
            assert forall|i: int| 0 <= i < self.events@.len() implies match #[trigger] self.events@[i] {
                JsonEvent::Token { kind, index } => index < self.tokens@.len() && stands_for(kind, self.tokens@[index as int]),
                _ => true,
            } by {
                if i < old(self).events@.len() {
                    assert(self.events@[i] == old(self).events@[i]);
                }
            }
            assert(self.events@.subrange(0, old(self).events@.len() as int) =~= old(self).events@);
        }
    }

    /// Adds the current token to the tree.
    fn bump_any(&mut self)
        requires
            old(self).wf(),
            old(self).cur_spec() != JsonSyntaxKind::Eof,
        ensures
            final(self).grows(old(self)),
            final(self).pos == old(self).pos + 1,
            final(self).events@ == old(self).events@.push(JsonEvent::Token { kind: old(self).cur_spec(), index: old(self).pos }),
            tombstones(final(self).events@) == tombstones(old(self).events@),
            final(self).diagnostics@ == old(self).diagnostics@,
            final(self).pstate() == with_token(old(self).pstate(), old(self).cur_spec()),
    {
        let kind = self.cur();
        self.bump_as(kind);
    }

    /// Adds the current token to the tree if it is of kind `kind`.
    fn eat(&mut self, kind: JsonSyntaxKind) -> (eaten: bool)
        requires
            old(self).wf(),
            kind != JsonSyntaxKind::Eof,
        ensures
            final(self).grows(old(self)),
            tombstones(final(self).events@) == tombstones(old(self).events@),
            eaten == (old(self).cur_spec() == kind),
            eaten ==> final(self).pos == old(self).pos + 1,
            eaten ==> final(self).events@ == old(self).events@.push(JsonEvent::Token { kind, index: old(self).pos }),
            !eaten ==> final(self).pos == old(self).pos && final(self).events@ == old(self).events@,
            final(self).diagnostics@ == old(self).diagnostics@,
            final(self).pstate() == if old(self).cur_spec() == kind {
                with_token(old(self).pstate(), kind)
            } else {
                old(self).pstate()
            },
    {
        if self.at(kind) {
            self.bump_any();
            true
        } else {
            proof {
                assert(self.events@.subrange(0, self.events@.len() as int) =~= self.events@);
            }
            false
        }
    }

    /// Adds the current token to the tree if it is of kind `kind`, else
    /// reports that one was expected.
    fn expect(&mut self, kind: JsonSyntaxKind) -> (eaten: bool)
        requires
            old(self).wf(),
            kind != JsonSyntaxKind::Eof,
        ensures
            final(self).grows(old(self)),
            tombstones(final(self).events@) == tombstones(old(self).events@),
            eaten == (old(self).cur_spec() == kind),
            eaten ==> final(self).pos == old(self).pos + 1,
            eaten ==> final(self).events@ == old(self).events@.push(JsonEvent::Token { kind, index: old(self).pos }),
            eaten ==> final(self).diagnostics@ == old(self).diagnostics@,
            !eaten ==> final(self).pos == old(self).pos && final(self).events@ == old(self).events@,
            final(self).pstate() == with_expect(old(self).tokens@, old(self).pstate(), kind),
    {
        if self.eat(kind) {
            true
        } else {
            let range = self.cur_range();
            self.error(JsonDiagnosticKind::ExpectedToken(kind), range);
            false
        }
    }

    /// Starts a node.
    fn start(&mut self) -> (m: Marker)
        requires
            old(self).wf(),
        ensures
            final(self).wf(),
            final(self).tokens == old(self).tokens,
            final(self).options == old(self).options,
            final(self).pos == old(self).pos,
            final(self).events@ == old(self).events@.push(JsonEvent::Start { kind: JsonSyntaxKind::Tombstone }),
            prefix(old(self).events@, final(self).events@),
            final(self).diagnostics@ == old(self).diagnostics@,
            tombstones(final(self).events@) == tombstones(old(self).events@) + 1,
            m.pos == old(self).events@.len(),
            m.token == old(self).pos,
            final(self).open_at(m.pos),
            final(self).pstate() == with_start(old(self).pstate()),
    {
        let e = JsonEvent::Start { kind: JsonSyntaxKind::Tombstone };
        proof {
            lemma_push(self.events@, e);
        }
        let m = Marker { pos: self.events.len(), token: self.pos };
        self.events.push(e);
        proof {
            assert forall|i: int| 0 <= i < self.events@.len() implies match #[trigger] self.events@[i] {
                JsonEvent::Token { kind, index } => index < self.tokens@.len() && stands_for(kind, self.tokens@[index as int]),
                _ => true,
            } by {
                if i < old(self).events@.len() {
                    assert(self.events@[i] == old(self).events@[i]);
                }
            }
            assert(self.events@.subrange(0, old(self).events@.len() as int) =~= old(self).events@);
        }
        m
    }

    /// Completes the node of `m` as a node of kind `kind`.
    fn complete(&mut self, m: Marker, kind: JsonSyntaxKind) -> (c: CompletedMarker)
        requires
            old(self).wf(),
            old(self).open_at(m.pos),
            kind != JsonSyntaxKind::Tombstone,
        ensures
            final(self).wf(),
            final(self).tokens == old(self).tokens,
            final(self).options == old(self).options,
            final(self).pos == old(self).pos,
            final(self).events@ == old(self).events@.update(m.pos as int, JsonEvent::Start { kind }).push(JsonEvent::Finish),
            prefix(old(self).events@.subrange(0, m.pos as int), final(self).events@),
            final(self).events@.len() == old(self).events@.len() + 1,
            forall|p: usize| #[trigger] old(self).open_at(p) && p != m.pos ==> final(self).open_at(p),
            final(self).diagnostics@ == old(self).diagnostics@,
            tombstones(final(self).events@) == tombstones(old(self).events@) - 1,
            c == (CompletedMarker { pos: m.pos, start: m.token, end: old(self).pos }),
            final(self).pstate() == with_complete(old(self).pstate(), m.pos as int, kind),
    {
        let ghost s = self.events@;
        proof {
            lemma_update_start(s, m.pos as int, kind);
            let t = s.update(m.pos as int, JsonEvent::Start { kind });
            lemma_push(t, JsonEvent::Finish);
            assert forall|k: int| 0 <= k <= t.len() implies #[trigger] depth(t.take(k)) >= tombstones(t.take(k)) by {
                assert(depth(s.take(k)) >= tombstones(s.take(k)));
            }
        }
        self.events.set(m.pos, JsonEvent::Start { kind });
        self.events.push(JsonEvent::Finish);
        proof {
            assert forall|i: int| 0 <= i < self.events@.len() implies match #[trigger] self.events@[i] {
                JsonEvent::Token { kind, index } => index < self.tokens@.len() && stands_for(kind, self.tokens@[index as int]),
                _ => true,
            } by {
                if i < s.len() && i != m.pos {
                    assert(self.events@[i] == s[i]);
                }
            }
            assert(self.events@.subrange(0, m.pos as int) =~= s.subrange(0, m.pos as int));
        }
        CompletedMarker { pos: m.pos, start: m.token, end: self.pos }
    }

    /// Drops the node of `m`, which holds nothing.
    fn abandon(&mut self, m: Marker)
        requires
            old(self).wf(),
            old(self).open_at(m.pos),
            m.pos == old(self).events@.len() - 1,
        ensures
            final(self).wf(),
            final(self).tokens == old(self).tokens,
            final(self).options == old(self).options,
            final(self).pos == old(self).pos,
            final(self).events@ == old(self).events@.drop_last(),
            final(self).diagnostics@ == old(self).diagnostics@,
            tombstones(final(self).events@) == tombstones(old(self).events@) - 1,
            final(self).pstate() == (ParseState { events: old(self).events@.drop_last(), ..old(self).pstate() }),
    {
        let ghost s = self.events@;
        proof {
            assert(s.drop_last().push(s.last()) =~= s);
            lemma_push(s.drop_last(), s.last());
        }
        self.events.pop();
        proof {
            assert forall|k: int| 0 <= k <= self.events@.len() implies #[trigger] depth(self.events@.take(k))
                >= tombstones(self.events@.take(k)) by {
                assert(self.events@.take(k) =~= s.take(k));
            }
            assert forall|i: int| 0 <= i < self.events@.len() implies match #[trigger] self.events@[i] {
                JsonEvent::Token { kind, index } => index < self.tokens@.len() && stands_for(kind, self.tokens@[index as int]),
                _ => true,
            } by {
                assert(self.events@[i] == s[i]);
            }
        }
    }

    /// Starts a node before the complete node of `c`, so that the new node
    /// holds it.
    fn precede(&mut self, c: CompletedMarker) -> (m: Marker)
        requires
            old(self).wf(),
            0 < c.pos <= old(self).events@.len(),
        ensures
            final(self).wf(),
            final(self).tokens == old(self).tokens,
            final(self).options == old(self).options,
            final(self).pos == old(self).pos,
            final(self).events@ == old(self).events@.insert(c.pos as int, JsonEvent::Start { kind: JsonSyntaxKind::Tombstone }),
            prefix(old(self).events@.subrange(0, c.pos as int), final(self).events@),
            final(self).diagnostics@ == old(self).diagnostics@,
            tombstones(final(self).events@) == tombstones(old(self).events@) + 1,
            m == (Marker { pos: c.pos, token: c.start }),
            final(self).open_at(m.pos),
            final(self).pstate() == with_start_before(old(self).pstate(), c.pos as int),
    {
        let ghost s = self.events@;
        proof {
            lemma_insert_tombstone(s, c.pos as int);
        }
        self.events.insert(c.pos, JsonEvent::Start { kind: JsonSyntaxKind::Tombstone });
        proof {
            assert forall|i: int| 0 <= i < self.events@.len() implies match #[trigger] self.events@[i] {
                JsonEvent::Token { kind, index } => index < self.tokens@.len() && stands_for(kind, self.tokens@[index as int]),
                _ => true,
            } by {
                if i < c.pos {
                    assert(self.events@[i] == s[i]);
                } else if i > c.pos {
                    assert(self.events@[i] == s[i - 1]);
                }
            }
            assert(self.events@.subrange(0, c.pos as int) =~= s.subrange(0, c.pos as int));
        }
        Marker { pos: c.pos, token: c.start }
    }
}

impl<'t> JsonParser<'t> {
    /// Whether `markers` are the positions of nodes that are not complete,
    /// in increasing order, from `from` on.
    spec fn markers_ok(&self, markers: Seq<usize>, from: int) -> bool {
        &&& forall|i: int, j: int| 0 <= i < j < markers.len() ==> markers[i] < markers[j]
        &&& forall|i: int| 0 <= i < markers.len() ==> from <= markers[i] && self.open_at(#[trigger] markers[i])
    }

    proof fn lemma_open_kept(&self, old: &Self, p: usize)
        requires
            old.open_at(p),
            self.wf(),
            prefix(old.events@, self.events@),
        ensures
            self.open_at(p),
    {
        assert(self.events@.subrange(0, old.events@.len() as int)[p as int] == self.events@[p as int]);
    }

    proof fn lemma_markers_kept(&self, old: &Self, markers: Seq<usize>, from: int)
        requires
            old.markers_ok(markers, from),
            self.wf(),
            prefix(old.events@, self.events@),
        ensures
            self.markers_ok(markers, from),
    {
        assert forall|i: int| 0 <= i < markers.len() implies from <= markers[i] && self.open_at(#[trigger] markers[i]) by {
            self.lemma_open_kept(old, markers[i]);
        }
    }

    /// Skips the tokens up to the end of the file, a token of `set`, or a
    /// line break when `line_break` holds, into a node of kind `node_kind`.
    /// Nothing is skipped when the parser is already there.
    #[verifier::spinoff_prover]
    fn recover(&mut self, node_kind: JsonSyntaxKind, set: RecoverySet, line_break: bool) -> (r: Option<CompletedMarker>)
        requires
            old(self).wf(),
            node_kind != JsonSyntaxKind::Tombstone,
        ensures
            final(self).grows(old(self)),
            tombstones(final(self).events@) == tombstones(old(self).events@),
            r is None <==> (old(self).cur_spec() == JsonSyntaxKind::Eof || set.spec_contains(old(self).cur_spec())
                || (line_break && old(self).pos < old(self).tokens@.len()
                    && old(self).tokens@[old(self).pos as int].has_preceding_line_break)),
            r is None ==> final(self).pos == old(self).pos && final(self).events@ == old(self).events@
                && final(self).diagnostics@ == old(self).diagnostics@,
            r matches Some(c) ==> final(self).pos > old(self).pos && c.pos == old(self).events@.len()
                && c.start == old(self).pos && c.end == final(self).pos,
            final(self).pstate() == recovered(old(self).tokens@, old(self).pstate(), node_kind, set, line_break).0,
            opt_node(r) == recovered(old(self).tokens@, old(self).pstate(), node_kind, set, line_break).1,
    {
        let ghost t = self.tokens@;
        if self.at(JsonSyntaxKind::Eof) {
            proof {
                assert(self.events@.subrange(0, self.events@.len() as int) =~= self.events@);
            }
            return None;
        }
        if set.contains(self.cur()) || (line_break && self.has_preceding_line_break()) {
            proof {
                assert(self.events@.subrange(0, self.events@.len() as int) =~= self.events@);
            }
            return None;
        }
        let ghost entry = self.pstate();
        let m = self.start();
        self.bump_any();
        let ghost taken = self.pstate();
        proof {
            assert(!stops_at(t, entry.pos, set, line_break));
            assert(taken == with_token(with_start(entry), kind_at(t, entry.pos)));
        }
        loop
            invariant
                skipped(t, self.pstate(), set, line_break) == skipped(t, taken, set, line_break),
                t == self.tokens@,
                self.wf(),
                self.tokens == old(self).tokens,
                self.options == old(self).options,
                self.pos > old(self).pos,
                prefix(old(self).events@.push(JsonEvent::Start { kind: JsonSyntaxKind::Tombstone }), self.events@),
                m.pos == old(self).events@.len(),
                m.token == old(self).pos,
                self.open_at(m.pos),
                tombstones(self.events@) == tombstones(old(self).events@) + 1,
            ensures
                stops_at(t, self.pos as int, set, line_break),
            decreases self.tokens@.len() - self.pos,
        {
            if self.at(JsonSyntaxKind::Eof) || set.contains(self.cur())
                || (line_break && self.has_preceding_line_break()) {
                break;
            }
            let ghost before = *self;
            self.bump_any();
            proof {
                assert(!stops_at(t, before.pos as int, set, line_break));
                assert(self.pstate() == with_token(before.pstate(), kind_at(t, before.pos as int)));
                lemma_prefix_trans(old(self).events@.push(JsonEvent::Start { kind: JsonSyntaxKind::Tombstone }), before.events@, self.events@);
                self.lemma_open_kept(&before, m.pos);
            }
        }
        proof {
            assert(stops_at(t, self.pos as int, set, line_break));
            assert(skipped(t, self.pstate(), set, line_break) == self.pstate());
        }
        let ghost before = *self;
        let c = self.complete(m, node_kind);
        proof {
            let pushed = old(self).events@.push(JsonEvent::Start { kind: JsonSyntaxKind::Tombstone });
            assert(before.events@.subrange(0, m.pos as int) =~= old(self).events@) by {
                assert forall|i: int| 0 <= i < m.pos implies #[trigger] before.events@.subrange(0, m.pos as int)[i] == old(self).events@[i] by {
                    assert(before.events@.subrange(0, pushed.len() as int)[i] == before.events@[i]);
                    assert(pushed[i] == old(self).events@[i]);
                }
            }
        }
        Some(c)
    }

    /// Parses a value: a literal, an array, an object, or a bogus value for
    /// an unquoted string or an erroneous token. Nothing is parsed at any
    /// other token.
    #[verifier::spinoff_prover]
    fn parse_value(&mut self) -> (r: Option<CompletedMarker>)
        requires
            old(self).wf(),
        ensures
            final(self).grows(old(self)),
            tombstones(final(self).events@) == tombstones(old(self).events@),
            r is None <==> !parses_value(old(self).cur_spec()),
            r is None ==> final(self).pos == old(self).pos && final(self).events@ == old(self).events@
                && final(self).diagnostics@ == old(self).diagnostics@,
            r matches Some(c) ==> final(self).pos > old(self).pos && c.pos == old(self).events@.len()
                && c.start == old(self).pos && c.end == final(self).pos,
            value_end(old(self).tokens@, old(self).pos as int) matches Some(e)
                ==> final(self).pos == e && final(self).diagnostics@ == old(self).diagnostics@
                && final(self).events@ == old(self).events@ + value_events(old(self).tokens@, old(self).pos as int),
            final(self).pstate() == parsed_value(old(self).tokens@, old(self).options, old(self).pstate()).0,
            opt_node(r) == parsed_value(old(self).tokens@, old(self).options, old(self).pstate()).1,
        decreases old(self).tokens@.len() - old(self).pos,
            if old(self).cur_spec() == JsonSyntaxKind::LCurly || old(self).cur_spec() == JsonSyntaxKind::LBrack { 7int } else { 1int },
    {
        let ghost t = self.tokens@;
        let ghost o = self.options;
        let ghost st0 = self.pstate();
        let kind = self.cur();
        let node = match kind {
            JsonSyntaxKind::NullKw => JsonSyntaxKind::JsonNullValue,
            JsonSyntaxKind::JsonStringLiteral => JsonSyntaxKind::JsonStringValue,
            JsonSyntaxKind::TrueKw => JsonSyntaxKind::JsonBooleanValue,
            JsonSyntaxKind::FalseKw => JsonSyntaxKind::JsonBooleanValue,
            JsonSyntaxKind::JsonNumberLiteral => JsonSyntaxKind::JsonNumberValue,
            JsonSyntaxKind::LCurly => {
                let c = self.parse_sequence(SequenceKind::Object);
                proof {
                    assert(parsed_value(t, o, st0) == (parsed_sequence(t, o, st0, SequenceKind::Object).0,
                        Some(parsed_sequence(t, o, st0, SequenceKind::Object).1))) by {
                        reveal(parsed_value);
                        reveal(parsed_sequence);
                    }
                }
                return Some(c);
            },
            JsonSyntaxKind::LBrack => {
                let c = self.parse_sequence(SequenceKind::Array);
                proof {
                    assert(parsed_value(t, o, st0) == (parsed_sequence(t, o, st0, SequenceKind::Array).0,
                        Some(parsed_sequence(t, o, st0, SequenceKind::Array).1))) by {
                        reveal(parsed_value);
                        reveal(parsed_sequence);
                    }
                }
                return Some(c);
            },
            JsonSyntaxKind::Ident => JsonSyntaxKind::JsonBogusValue,
            JsonSyntaxKind::ErrorToken => JsonSyntaxKind::JsonBogusValue,
            _ => {
                proof {
                    assert(self.events@.subrange(0, self.events@.len() as int) =~= self.events@);
                    assert(parsed_value(t, o, st0) == (st0, None::<(int, int, int)>)) by {
                        reveal(parsed_value);
                        reveal(parsed_sequence);
                    }
                }
                return None;
            },
        };
        let ghost e0 = self.events@;
        let m = self.start();
        if kind == JsonSyntaxKind::Ident {
            let range = self.cur_range();
            self.error(JsonDiagnosticKind::UnquotedString, range);
        }
        let ghost e1 = self.events@;
        self.bump_any();
        let ghost e2 = self.events@;
        let ghost s3 = self.pstate();
        let c = self.complete(m, node);
        proof {
            assert(prefix(e0, e1));
            lemma_prefix_trans(e0, e1, e2);
            assert(e2.subrange(0, m.pos as int) =~= e0);
            assert(parsed_value(t, o, st0) == (with_complete(s3, st0.events.len() as int, single_value_node(kind)),
                Some((st0.events.len() as int, st0.pos, s3.pos)))) by {
                reveal(parsed_value);
                reveal(parsed_sequence);
            }
        }
        Some(c)
    }
}

impl<'t> JsonParser<'t> {
    /// Parses the name of an object member: a string, or an identifier or a
    /// keyword, which is reported, as an identifier.
    #[verifier::spinoff_prover]
    fn parse_member_name(&mut self) -> (r: Option<CompletedMarker>)
        requires
            old(self).wf(),
        ensures
            final(self).grows(old(self)),
            tombstones(final(self).events@) == tombstones(old(self).events@),
            r is None <==> !(old(self).cur_spec() == JsonSyntaxKind::JsonStringLiteral || old(self).cur_spec() == JsonSyntaxKind::Ident
                || old(self).cur_spec() == JsonSyntaxKind::NullKw || old(self).cur_spec() == JsonSyntaxKind::TrueKw
                || old(self).cur_spec() == JsonSyntaxKind::FalseKw),
            r is None ==> final(self).pos == old(self).pos && final(self).events@ == old(self).events@
                && final(self).diagnostics@ == old(self).diagnostics@,
            r is Some ==> final(self).pos > old(self).pos,
            old(self).cur_spec() == JsonSyntaxKind::JsonStringLiteral ==> final(self).pos == old(self).pos + 1
                && final(self).diagnostics@ == old(self).diagnostics@
                && final(self).events@ == old(self).events@ + seq![
                    JsonEvent::Start { kind: JsonSyntaxKind::JsonMemberName },
                    JsonEvent::Token { kind: JsonSyntaxKind::JsonStringLiteral, index: old(self).pos },
                    JsonEvent::Finish,
                ],
            final(self).pstate() == parsed_member_name(old(self).tokens@, old(self).pstate()).0,
            (r is Some) == parsed_member_name(old(self).tokens@, old(self).pstate()).1,
    {
        let kind = self.cur();
        let quoted = match kind {
            JsonSyntaxKind::JsonStringLiteral => true,
            JsonSyntaxKind::Ident => false,
            JsonSyntaxKind::NullKw => false,
            JsonSyntaxKind::TrueKw => false,
            JsonSyntaxKind::FalseKw => false,
            _ => {
                proof {
                    assert(self.events@.subrange(0, self.events@.len() as int) =~= self.events@);
                }
                return None;
            },
        };
        let ghost e0 = self.events@;
        let m = self.start();
        if quoted {
            self.bump_any();
        } else {
            let range = self.cur_range();
            self.error(JsonDiagnosticKind::UnquotedPropertyKey, range);
            self.bump_as(JsonSyntaxKind::Ident);
        }
        let ghost e2 = self.events@;
        let c = self.complete(m, JsonSyntaxKind::JsonMemberName);
        proof {
            assert(e2.subrange(0, m.pos as int) =~= e0);
        }
        Some(c)
    }

    /// Parses the value of an item: an array or an object that starts here
    /// is parsed by the caller, as a nested sequence.
    #[verifier::spinoff_prover]
    fn parse_sequence_value(&mut self) -> (r: Result<Option<CompletedMarker>, SequenceKind>)
        requires
            old(self).wf(),
        ensures
            final(self).grows(old(self)),
            tombstones(final(self).events@) == tombstones(old(self).events@),
            r matches Err(kind) ==> old(self).cur_spec() == kind.spec_open_paren() && *final(self) == *old(self),
            r matches Ok(None) ==> final(self).pos == old(self).pos && final(self).events@ == old(self).events@
                && final(self).diagnostics@ == old(self).diagnostics@ && !parses_value(old(self).cur_spec()),
            r matches Ok(Some(c)) ==> final(self).pos > old(self).pos && c.pos == old(self).events@.len(),
            value_end(old(self).tokens@, old(self).pos as int) matches Some(e) ==> final(self).diagnostics@ == old(self).diagnostics@
                && match r {
                    Err(_) => true,
                    Ok(Some(_)) => final(self).pos == e
                        && final(self).events@ == old(self).events@ + value_events(old(self).tokens@, old(self).pos as int),
                    Ok(None) => false,
                },
            r matches Err(kind) ==> kind == opened_sequence(old(self).cur_spec()),
            r matches Ok(v) ==> final(self).pstate() == parsed_value(old(self).tokens@, old(self).options, old(self).pstate()).0
                && opt_node(v) == parsed_value(old(self).tokens@, old(self).options, old(self).pstate()).1,
        decreases old(self).tokens@.len() - old(self).pos, 2int,
    {
        match self.cur() {
            JsonSyntaxKind::LBrack => {
                proof {
                    assert(self.events@.subrange(0, self.events@.len() as int) =~= self.events@);
                }
                Err(SequenceKind::Array)
            },
            JsonSyntaxKind::LCurly => {
                proof {
                    assert(self.events@.subrange(0, self.events@.len() as int) =~= self.events@);
                }
                Err(SequenceKind::Object)
            },
            _ => Ok(self.parse_value()),
        }
    }

    /// Parses an element of an array.
    #[verifier::spinoff_prover]
    fn parse_array_element(&mut self) -> (item: SequenceItem)
        requires
            old(self).wf(),
        ensures
            final(self).grows(old(self)),
            tombstones(final(self).events@) == tombstones(old(self).events@),
            item matches SequenceItem::Parsed(None) ==> final(self).pos == old(self).pos
                && final(self).events@ == old(self).events@ && final(self).diagnostics@ == old(self).diagnostics@,
            item matches SequenceItem::Parsed(Some(_)) ==> final(self).pos > old(self).pos,
            item matches SequenceItem::Recurse(kind, marker) ==> marker is None
                && final(self).cur_spec() == kind.spec_open_paren(),
            item_end(old(self).tokens@, old(self).pos as int, SequenceKind::Array) matches Some(j) ==> final(self).diagnostics@ == old(self).diagnostics@
                && match item {
                    SequenceItem::Parsed(Some(_)) => final(self).pos == j
                        && final(self).events@ == old(self).events@ + item_events(old(self).tokens@, old(self).pos as int, SequenceKind::Array),
                    SequenceItem::Parsed(None) => false,
                    SequenceItem::Recurse(_, marker) => value_end(final(self).tokens@, final(self).pos as int) == Some(j)
                        && match marker {
                            Some(_) => SequenceKind::Array == SequenceKind::Object && final(self).pos == old(self).pos + 2
                                && final(self).events@ == old(self).events@ + open_member_head(old(self).pos as int),
                            None => SequenceKind::Array == SequenceKind::Array && final(self).pos == old(self).pos
                                && final(self).events@ == old(self).events@,
                        },
                },
            item matches SequenceItem::Parsed(v) ==> final(self).pstate() == parsed_item(old(self).tokens@, old(self).options, old(self).pstate(), SequenceKind::Array).0
                && (v is Some) == parsed_item(old(self).tokens@, old(self).options, old(self).pstate(), SequenceKind::Array).1,
            item matches SequenceItem::Recurse(nested, marker) ==> parsed_item(old(self).tokens@, old(self).options, old(self).pstate(), SequenceKind::Array).0
                == with_member_complete(parsed_sequence(final(self).tokens@, final(self).options, final(self).pstate(), nested).0, marker_pos(marker))
                && parsed_item(old(self).tokens@, old(self).options, old(self).pstate(), SequenceKind::Array).1,
        decreases old(self).tokens@.len() - old(self).pos, 3int,
    {
        let ghost t = self.tokens@;
        let ghost o = self.options;
        let ghost st0 = self.pstate();
        proof {
            assert(parsed_item(t, o, st0, SequenceKind::Array) == (parsed_value(t, o, st0).0, parsed_value(t, o, st0).1 is Some)) by {
                reveal(parsed_item);
                reveal(parsed_value);
            }
            let k = kind_at(t, st0.pos);
            if k == JsonSyntaxKind::LCurly || k == JsonSyntaxKind::LBrack {
                assert(parsed_value(t, o, st0) == (parsed_sequence(t, o, st0, opened_sequence(k)).0,
                    Some(parsed_sequence(t, o, st0, opened_sequence(k)).1))) by {
                    reveal(parsed_value);
                    reveal(parsed_sequence);
                }
            }
        }
        match self.parse_sequence_value() {
            Ok(parsed) => SequenceItem::Parsed(parsed),
            Err(kind) => SequenceItem::Recurse(kind, None),
        }
    }

    /// Parses a member of an object. A member whose value is an array or an
    /// object is left open for the caller to parse the value.
    #[verifier::spinoff_prover]
    #[verifier::rlimit(60)]
    fn parse_object_member(&mut self) -> (item: SequenceItem)
        requires
            old(self).wf(),
        ensures
            final(self).grows(old(self)),
            item matches SequenceItem::Parsed(None) ==> final(self).pos == old(self).pos
                && final(self).events@ == old(self).events@,
            item matches SequenceItem::Parsed(Some(_)) ==> final(self).pos > old(self).pos,
            item matches SequenceItem::Parsed(_) ==> tombstones(final(self).events@) == tombstones(old(self).events@),
            item matches SequenceItem::Recurse(kind, marker) ==> {
                &&& final(self).cur_spec() == kind.spec_open_paren()
                &&& marker matches Some(m)
                &&& m.pos == old(self).events@.len()
                &&& final(self).open_at(m.pos)
                &&& tombstones(final(self).events@) == tombstones(old(self).events@) + 1
            },
            item_end(old(self).tokens@, old(self).pos as int, SequenceKind::Object) matches Some(j) ==> final(self).diagnostics@ == old(self).diagnostics@
                && match item {
                    SequenceItem::Parsed(Some(_)) => final(self).pos == j
                        && final(self).events@ == old(self).events@ + item_events(old(self).tokens@, old(self).pos as int, SequenceKind::Object),
                    SequenceItem::Parsed(None) => false,
                    SequenceItem::Recurse(_, marker) => value_end(final(self).tokens@, final(self).pos as int) == Some(j)
                        && match marker {
                            Some(_) => SequenceKind::Object == SequenceKind::Object && final(self).pos == old(self).pos + 2
                                && final(self).events@ == old(self).events@ + open_member_head(old(self).pos as int),
                            None => SequenceKind::Object == SequenceKind::Array && final(self).pos == old(self).pos
                                && final(self).events@ == old(self).events@,
                        },
                },
            item matches SequenceItem::Parsed(v) ==> final(self).pstate() == parsed_item(old(self).tokens@, old(self).options, old(self).pstate(), SequenceKind::Object).0
                && (v is Some) == parsed_item(old(self).tokens@, old(self).options, old(self).pstate(), SequenceKind::Object).1,
            item matches SequenceItem::Recurse(nested, marker) ==> parsed_item(old(self).tokens@, old(self).options, old(self).pstate(), SequenceKind::Object).0
                == with_member_complete(parsed_sequence(final(self).tokens@, final(self).options, final(self).pstate(), nested).0, marker_pos(marker))
                && parsed_item(old(self).tokens@, old(self).options, old(self).pstate(), SequenceKind::Object).1,
        decreases old(self).tokens@.len() - old(self).pos, 3int,
    {
        let ghost t = self.tokens@;
        let ghost o = self.options;
        let ghost st0 = self.pstate();
        proof {
            assert(parsed_item(t, o, st0, SequenceKind::Object) == parsed_member(t, o, st0)) by {
                reveal(parsed_item);
                reveal(parsed_value);
                reveal(parsed_member);
            }
        }
        let ghost e0 = self.events@;
        let m = self.start();
        let ghost s1 = *self;
        let name = self.parse_member_name();
        if name.is_none() {
            let trailing = self.options.allow_trailing_commas && match self.last {
                Some(JsonSyntaxKind::Comma) => true,
                _ => false,
            };
            if !trailing {
                let range = self.cur_range();
                self.error(JsonDiagnosticKind::ExpectedProperty, range);
            }
            if !self.at(JsonSyntaxKind::Colon) && !is_value_start(self.cur()) {
                self.abandon(m);
                proof {
                    assert(self.events@ =~= e0);
                    assert(self.events@.subrange(0, e0.len() as int) =~= e0);
                    assert(parsed_member(t, o, st0) == (self.pstate(), false)) by {
                        reveal(parsed_member);
                        reveal(parsed_value);
                    }
                }
                return SequenceItem::Parsed(None);
            }
        }
        let ghost s2 = *self;
        self.expect(JsonSyntaxKind::Colon);
        let ghost s3 = *self;
        let value = self.parse_sequence_value();
        proof {
            lemma_prefix_trans(s1.events@, s2.events@, s3.events@);
            lemma_prefix_trans(s1.events@, s3.events@, self.events@);
            self.lemma_open_kept(&s1, m.pos);
            lemma_prefix_trans(e0, s1.events@, self.events@);
        }
        match value {
            Ok(parsed) => {
                if parsed.is_none() {
                    let range = self.cur_range();
                    self.error(JsonDiagnosticKind::ExpectedValue, range);
                }
                let ghost s4 = self.events@;
                let c = self.complete(m, JsonSyntaxKind::JsonMember);
                proof {
                    assert(s4.subrange(0, m.pos as int) =~= e0) by {
                        assert forall|i: int| 0 <= i < m.pos implies #[trigger] s4.subrange(0, m.pos as int)[i] == e0[i] by {
                            assert(s4.subrange(0, e0.len() as int)[i] == s4[i]);
                        }
                    }
                }
                proof {
                    assert(parsed_member(t, o, st0) == (self.pstate(), true)) by {
                        reveal(parsed_member);
                        reveal(parsed_value);
                    }
                }
                SequenceItem::Parsed(Some(c))
            },
            Err(kind) => {
                proof {
                    let k = kind_at(t, s3.pos as int);
                    assert(parsed_value(t, o, s3.pstate()) == (parsed_sequence(t, o, s3.pstate(), opened_sequence(k)).0,
                        Some(parsed_sequence(t, o, s3.pstate(), opened_sequence(k)).1))) by {
                        reveal(parsed_value);
                        reveal(parsed_sequence);
                    }
                    assert(parsed_member(t, o, st0) == (with_complete(parsed_value(t, o, s3.pstate()).0, m.pos as int,
                        JsonSyntaxKind::JsonMember), true)) by {
                        reveal(parsed_member);
                        reveal(parsed_value);
                    }
                }
                SequenceItem::Recurse(kind, Some(m))
            },
        }
    }

    /// Parses an item of a sequence of kind `kind`.
    #[verifier::spinoff_prover]
    fn parse_item(&mut self, kind: SequenceKind) -> (item: SequenceItem)
        requires
            old(self).wf(),
        ensures
            final(self).grows(old(self)),
            item matches SequenceItem::Parsed(None) ==> final(self).pos == old(self).pos
                && final(self).events@ == old(self).events@,
            item matches SequenceItem::Parsed(Some(_)) ==> final(self).pos > old(self).pos,
            item matches SequenceItem::Parsed(_) ==> tombstones(final(self).events@) == tombstones(old(self).events@),
            item matches SequenceItem::Recurse(nested, marker) ==> {
                &&& final(self).cur_spec() == nested.spec_open_paren()
                &&& match marker {
                    Some(m) => m.pos == old(self).events@.len() && final(self).open_at(m.pos)
                        && tombstones(final(self).events@) == tombstones(old(self).events@) + 1,
                    None => tombstones(final(self).events@) == tombstones(old(self).events@),
                }
            },
            item_end(old(self).tokens@, old(self).pos as int, kind) matches Some(j) ==> final(self).diagnostics@ == old(self).diagnostics@
                && match item {
                    SequenceItem::Parsed(Some(_)) => final(self).pos == j
                        && final(self).events@ == old(self).events@ + item_events(old(self).tokens@, old(self).pos as int, kind),
                    SequenceItem::Parsed(None) => false,
                    SequenceItem::Recurse(_, marker) => value_end(final(self).tokens@, final(self).pos as int) == Some(j)
                        && match marker {
                            Some(_) => kind == SequenceKind::Object && final(self).pos == old(self).pos + 2
                                && final(self).events@ == old(self).events@ + open_member_head(old(self).pos as int),
                            None => kind == SequenceKind::Array && final(self).pos == old(self).pos
                                && final(self).events@ == old(self).events@,
                        },
                },
            item matches SequenceItem::Parsed(v) ==> final(self).pstate() == parsed_item(old(self).tokens@, old(self).options, old(self).pstate(), kind).0
                && (v is Some) == parsed_item(old(self).tokens@, old(self).options, old(self).pstate(), kind).1,
            item matches SequenceItem::Recurse(nested, marker) ==> parsed_item(old(self).tokens@, old(self).options, old(self).pstate(), kind).0
                == with_member_complete(parsed_sequence(final(self).tokens@, final(self).options, final(self).pstate(), nested).0, marker_pos(marker))
                && parsed_item(old(self).tokens@, old(self).options, old(self).pstate(), kind).1,
        decreases old(self).tokens@.len() - old(self).pos, 4int,
    {
        match kind {
            SequenceKind::Array => self.parse_array_element(),
            SequenceKind::Object => self.parse_object_member(),
        }
    }

    /// Starts a sequence of kind `kind` at its opening token.
    #[verifier::spinoff_prover]
    fn start_sequence(&mut self, kind: SequenceKind) -> (sequence: Sequence)
        requires
            old(self).wf(),
            old(self).cur_spec() == kind.spec_open_paren(),
        ensures
            final(self).wf(),
            final(self).tokens == old(self).tokens,
            final(self).options == old(self).options,
            prefix(old(self).events@, final(self).events@),
            final(self).pos == old(self).pos + 1,
            final(self).diagnostics@ == old(self).diagnostics@,
            tombstones(final(self).events@) == tombstones(old(self).events@) + 2,
            sequence.kind == kind,
            sequence.state is Start,
            sequence.node.pos == old(self).events@.len(),
            sequence.node.token == old(self).pos,
            sequence.list.pos == old(self).events@.len() + 2,
            final(self).open_at(sequence.node.pos),
            final(self).open_at(sequence.list.pos),
            sequence.list.pos == final(self).events@.len() - 1,
            final(self).events@ == old(self).events@ + seq![
                JsonEvent::Start { kind: JsonSyntaxKind::Tombstone },
                JsonEvent::Token { kind: kind.spec_open_paren(), index: old(self).pos },
                JsonEvent::Start { kind: JsonSyntaxKind::Tombstone },
            ],
            final(self).pstate() == with_start(with_token(with_start(old(self).pstate()), kind.spec_open_paren())),
    {
        let ghost e0 = self.events@;
        let node = self.start();
        let ghost s1 = *self;
        self.expect(kind.open_paren());
        let ghost s2 = *self;
        let list = self.start();
        proof {
            lemma_prefix_trans(e0, s1.events@, s2.events@);
            lemma_prefix_trans(e0, s2.events@, self.events@);
            lemma_prefix_trans(s1.events@, s2.events@, self.events@);
            self.lemma_open_kept(&s1, node.pos);
        }
        Sequence { kind, node, list, state: SequenceState::Start }
    }
}

/// Whether `events` are `target`, but for starts of nodes that are not
/// complete yet where `target` starts a node.
spec fn agrees(events: Seq<JsonEvent>, target: Seq<JsonEvent>) -> bool {
    &&& events.len() == target.len()
    &&& forall|i: int| 0 <= i < events.len() ==> #[trigger] events[i] == target[i]
        || (is_tombstone(events[i]) && target[i] is Start)
}

proof fn lemma_agrees_extend(x: Seq<JsonEvent>, y: Seq<JsonEvent>, target: Seq<JsonEvent>, d: int)
    requires
        0 <= d,
        d + y.len() <= target.len(),
        agrees(x, target.take(d)),
        agrees(y, target.subrange(d, d + y.len())),
    ensures
        agrees(x + y, target.take(d + y.len())),
{
    assert forall|i: int| 0 <= i < (x + y).len() implies #[trigger] (x + y)[i] == target.take(d + y.len())[i]
        || (is_tombstone((x + y)[i]) && target.take(d + y.len())[i] is Start) by {
        if i < x.len() {
            assert(x[i] == target.take(d)[i] || (is_tombstone(x[i]) && target.take(d)[i] is Start));
        } else {
            assert(y[i - x.len()] == target.subrange(d, d + y.len())[i - x.len()]
                || (is_tombstone(y[i - x.len()]) && target.subrange(d, d + y.len())[i - x.len()] is Start));
        }
    }
}

proof fn lemma_agrees_update(x: Seq<JsonEvent>, target: Seq<JsonEvent>, a: int, kind: JsonSyntaxKind)
    requires
        agrees(x, target),
        0 <= a < x.len(),
        target[a] == (JsonEvent::Start { kind }),
    ensures
        agrees(x.update(a, JsonEvent::Start { kind }), target),
{
    assert forall|i: int| 0 <= i < x.len() implies #[trigger] x.update(a, JsonEvent::Start { kind })[i] == target[i]
        || (is_tombstone(x.update(a, JsonEvent::Start { kind })[i]) && target[i] is Start) by {
        assert(x[i] == target[i] || (is_tombstone(x[i]) && target[i] is Start));
    }
}

proof fn lemma_exact_agrees(x: Seq<JsonEvent>)
    ensures
        agrees(x, x),
{
}

proof fn lemma_tombstones_concat(a: Seq<JsonEvent>, b: Seq<JsonEvent>)
    ensures
        tombstones(a + b) == tombstones(a) + tombstones(b),
    decreases b.len(),
{
    if b.len() == 0 {
        assert(a + b =~= a);
    } else {
        lemma_tombstones_concat(a, b.drop_last());
        assert((a + b).drop_last() =~= a + b.drop_last());
    }
}

proof fn lemma_no_tombstone(b: Seq<JsonEvent>, i: int)
    requires
        tombstones(b) == 0,
        0 <= i < b.len(),
    ensures
        !is_tombstone(b[i]),
    decreases b.len(),
{
    lemma_tombstones_nonnegative(b.drop_last());
    if i < b.len() - 1 {
        assert(b.drop_last()[i] == b[i]);
        lemma_no_tombstone(b.drop_last(), i);
    }
}

proof fn lemma_tombstones_nonnegative(s: Seq<JsonEvent>)
    ensures
        tombstones(s) >= 0,
    decreases s.len(),
{
    if s.len() > 0 {
        lemma_tombstones_nonnegative(s.drop_last());
    }
}

proof fn lemma_split_value(done: Seq<JsonEvent>, v: Seq<JsonEvent>, rest: Seq<JsonEvent>, all: Seq<JsonEvent>)
    requires
        all == done + v + rest,
    ensures
        agrees(done, all.take(done.len() as int)),
        all.skip(done.len() as int) == v + rest,
{
    assert(all.take(done.len() as int) =~= done);
    assert(all.skip(done.len() as int) =~= v + rest);
}

proof fn lemma_split_member(done: Seq<JsonEvent>, i: int, v: Seq<JsonEvent>, rest: Seq<JsonEvent>, all: Seq<JsonEvent>)
    requires
        all == done + (member_head(i) + v + seq![JsonEvent::Finish]) + rest,
    ensures
        ({
            let opened = done + open_member_head(i);
            &&& agrees(opened, all.take(opened.len() as int))
            &&& all.skip(opened.len() as int) == v + seq![JsonEvent::Finish] + rest
            &&& all[done.len() as int] == (JsonEvent::Start { kind: JsonSyntaxKind::JsonMember })
        }),
{
    let opened = done + open_member_head(i);
    assert(all.skip(opened.len() as int) =~= v + seq![JsonEvent::Finish] + rest);
    assert forall|k: int| 0 <= k < opened.len() implies #[trigger] opened[k] == all.take(opened.len() as int)[k]
        || (is_tombstone(opened[k]) && all.take(opened.len() as int)[k] is Start) by {
        if k >= done.len() {
            assert(all[k] == member_head(i)[k - done.len()]);
        } else {
            assert(all[k] == done[k]);
        }
    }
}

proof fn lemma_cancel(a: Seq<JsonEvent>, x: Seq<JsonEvent>, b: Seq<JsonEvent>)
    requires
        a + x == b,
    ensures
        b.len() >= a.len(),
        x == b.subrange(a.len() as int, b.len() as int),
        b == a + b.subrange(a.len() as int, b.len() as int),
{
    assert(x =~= (a + x).subrange(a.len() as int, (a + x).len() as int));
    assert(b =~= a + b.subrange(a.len() as int, b.len() as int));
}

proof fn lemma_items_close(tokens: Seq<JsonToken>, i: int, kind: SequenceKind, first: bool)
    requires
        0 <= i <= tokens.len(),
        kind_at(tokens, i) == kind.spec_close_paren(),
    ensures
        items_events(tokens, i, kind, first) == Seq::<JsonEvent>::empty(),
{
}

#[verifier::spinoff_prover]
proof fn lemma_compose(
    old_events: Seq<JsonEvent>,
    before: Seq<JsonEvent>,
    now: Seq<JsonEvent>,
    all_items: Seq<JsonEvent>,
    step_items: Seq<JsonEvent>,
    rest: Seq<JsonEvent>,
    member: Option<int>,
)
    requires
        prefix(old_events, before),
        prefix(before, now),
        old_events + all_items == before + step_items,
        ({
            let done = now.subrange(before.len() as int, now.len() as int);
            &&& done.len() <= step_items.len()
            &&& agrees(done, step_items.take(done.len() as int))
            &&& step_items.skip(done.len() as int) == rest
            &&& member matches Some(m) ==> before.len() <= m < now.len()
                && step_items[m - before.len()] == (JsonEvent::Start { kind: JsonSyntaxKind::JsonMember })
        }),
    ensures
        ({
            let done = now.subrange(old_events.len() as int, now.len() as int);
            &&& done.len() <= all_items.len()
            &&& agrees(done, all_items.take(done.len() as int))
            &&& all_items.skip(done.len() as int) == rest
            &&& member matches Some(m) ==> old_events.len() <= m < now.len()
                && all_items[m - old_events.len()] == (JsonEvent::Start { kind: JsonSyntaxKind::JsonMember })
        }),
{
    let d = before.subrange(old_events.len() as int, before.len() as int);
    let step_done = now.subrange(before.len() as int, now.len() as int);
    let done = now.subrange(old_events.len() as int, now.len() as int);
    lemma_cancel(old_events, all_items, before + step_items);
    assert(all_items =~= d + step_items);
    assert(done =~= d + step_done) by {
        assert forall|i: int| 0 <= i < done.len() implies #[trigger] done[i] == (d + step_done)[i] by {
            if i < d.len() {
                assert(before.subrange(0, old_events.len() as int) == old_events);
                assert(now.subrange(0, before.len() as int)[old_events.len() + i] == now[old_events.len() + i]);
            }
        }
    }
    assert forall|i: int| 0 <= i < done.len() implies #[trigger] done[i] == all_items.take(done.len() as int)[i]
        || (is_tombstone(done[i]) && all_items.take(done.len() as int)[i] is Start) by {
        if i >= d.len() {
            assert(step_done[i - d.len()] == step_items.take(step_done.len() as int)[i - d.len()]
                || (is_tombstone(step_done[i - d.len()]) && step_items.take(step_done.len() as int)[i - d.len()] is Start));
        }
    }
    assert(all_items.skip(done.len() as int) =~= step_items.skip(step_done.len() as int));
    match member {
        Some(m) => {
            assert(all_items[m - old_events.len()] == step_items[m - before.len()]);
        },
        None => {},
    }
}

/// The events that end an item sequence: a member waiting for its value
/// ends after it.
spec fn member_tail(f: Sequence) -> Seq<JsonEvent> {
    match f.state {
        SequenceState::Suspended(Some(_)) => seq![JsonEvent::Finish],
        _ => Seq::empty(),
    }
}

/// The events of the rest of the sequence `f` from `i`, and where they end.
spec fn frame_rest(tokens: Seq<JsonToken>, i: int, f: Sequence, first: bool) -> Option<(Seq<JsonEvent>, int)> {
    match items_end(tokens, i, f.kind, first) {
        Some(q) => Some((member_tail(f) + items_events(tokens, i, f.kind, first) + seq![
            JsonEvent::Finish,
            JsonEvent::Token { kind: f.kind.spec_close_paren(), index: q as usize },
            JsonEvent::Finish,
        ], q + 1)),
        None => None,
    }
}

/// The events of the rest of the innermost sequence of `frames` from `i`,
/// then of the rest of each enclosing one.
spec fn chain_events(tokens: Seq<JsonToken>, i: int, frames: Seq<Sequence>, first: bool) -> Seq<JsonEvent>
    decreases frames.len(),
{
    if frames.len() == 0 {
        Seq::empty()
    } else {
        match frame_rest(tokens, i, frames.last(), first) {
            Some((events, next)) => events + chain_events(tokens, next, frames.drop_last(), false),
            None => Seq::empty(),
        }
    }
}

/// Whether the nodes of `f` that are not complete yet start in `target`
/// as the nodes they become, `target` starting at the event `n0`.
spec fn frame_marks(target: Seq<JsonEvent>, f: Sequence, n0: int) -> bool {
    &&& target[f.node.pos - n0] == (JsonEvent::Start { kind: f.kind.spec_node_kind() })
    &&& target[f.list.pos - n0] == (JsonEvent::Start { kind: f.kind.spec_list_kind() })
    &&& f.state matches SequenceState::Suspended(Some(m)) ==> target[m.pos - n0] == (JsonEvent::Start { kind: JsonSyntaxKind::JsonMember })
}

/// Whether `done` are the first events of `target`, but for starts of
/// nodes that are not complete yet, and `rest` the events after them.
spec fn follows(done: Seq<JsonEvent>, target: Seq<JsonEvent>, rest: Seq<JsonEvent>) -> bool {
    &&& done.len() <= target.len()
    &&& agrees(done, target.take(done.len() as int))
    &&& target.skip(done.len() as int) == rest
}

proof fn lemma_track_append_agree(
    done: Seq<JsonEvent>,
    more: Seq<JsonEvent>,
    target: Seq<JsonEvent>,
    items: Seq<JsonEvent>,
    items_rest: Seq<JsonEvent>,
    rest: Seq<JsonEvent>,
)
    requires
        follows(done, target, items + rest),
        more.len() <= items.len(),
        agrees(more, items.take(more.len() as int)),
        items.skip(more.len() as int) == items_rest,
    ensures
        follows(done + more, target, items_rest + rest),
{
    let d = done.len() as int;
    let tail = target.skip(d);
    assert(tail == items + rest);
    assert(tail.len() == items.len() + rest.len());
    assert(target.len() == d + tail.len());
    assert(target.subrange(d, d + more.len()) =~= items.take(more.len() as int)) by {
        assert forall|i: int| 0 <= i < more.len() implies target.subrange(d, d + more.len())[i] == items.take(more.len() as int)[i] by {
            assert(tail[i] == target[d + i]);
            assert((items + rest)[i] == items[i]);
        }
    }
    lemma_agrees_extend(done, more, target, d);
    assert(target.skip(d + more.len()) =~= items_rest + rest) by {
        assert forall|i: int| 0 <= i < target.skip(d + more.len()).len() implies target.skip(d + more.len())[i] == (items_rest + rest)[i] by {
            assert(tail[more.len() + i] == target[d + more.len() + i]);
            assert((items + rest)[more.len() + i] == tail[more.len() + i]);
            if i < items_rest.len() {
                assert(items.skip(more.len() as int)[i] == items[more.len() + i]);
            }
        }
    }
}

proof fn lemma_track_append(done: Seq<JsonEvent>, more: Seq<JsonEvent>, target: Seq<JsonEvent>, rest: Seq<JsonEvent>)
    requires
        follows(done, target, more + rest),
    ensures
        follows(done + more, target, rest),
{
    assert(more.skip(more.len() as int) =~= Seq::<JsonEvent>::empty());
    assert(more.take(more.len() as int) =~= more);
    lemma_exact_agrees(more);
    lemma_track_append_agree(done, more, target, more, Seq::empty(), rest);
    assert(Seq::<JsonEvent>::empty() + rest =~= rest);
}

proof fn lemma_track_update(done: Seq<JsonEvent>, target: Seq<JsonEvent>, rest: Seq<JsonEvent>, a: int, kind: JsonSyntaxKind)
    requires
        follows(done, target, rest),
        0 <= a < done.len(),
        target[a] == (JsonEvent::Start { kind }),
    ensures
        follows(done.update(a, JsonEvent::Start { kind }), target, rest),
{
    lemma_agrees_update(done, target.take(done.len() as int), a, kind);
}

proof fn lemma_chain_unfold(tokens: Seq<JsonToken>, i: int, stack: Seq<Sequence>, f: Sequence, first: bool)
    ensures
        chain_events(tokens, i, stack.push(f), first) == match frame_rest(tokens, i, f, first) {
            Some((events, next)) => events + chain_events(tokens, next, stack, false),
            None => Seq::<JsonEvent>::empty(),
        },
{
    assert(stack.push(f).drop_last() =~= stack);
}

/// While a valid sequence is parsed: its events so far are those of
/// `target` but for the nodes that are not complete yet, and the rest of
/// `target` is what the remaining tokens of the open sequences give.
spec fn on_track(events: Seq<JsonEvent>, tokens: Seq<JsonToken>, pos: int, target: Seq<JsonEvent>, n0: int, stack: Seq<Sequence>, current: Sequence) -> bool {
    &&& 0 <= n0 <= events.len()
    &&& follows(events.subrange(n0, events.len() as int), target, chain_events(tokens, pos, stack.push(current), current.state is Start))
    &&& frame_marks(target, current, n0)
    &&& forall|i: int| 0 <= i < stack.len() ==> frame_marks(target, #[trigger] stack[i], n0)
}

/// The events that close a sequence of kind `kind` at its closing token `q`.
spec fn close_events(kind: SequenceKind, q: int) -> Seq<JsonEvent> {
    seq![JsonEvent::Finish, JsonEvent::Token { kind: kind.spec_close_paren(), index: q as usize }, JsonEvent::Finish]
}

proof fn lemma_sub_push(ev: Seq<JsonEvent>, n0: int, e: JsonEvent)
    requires
        0 <= n0 <= ev.len(),
    ensures
        ev.push(e).subrange(n0, ev.len() as int + 1) == ev.subrange(n0, ev.len() as int) + seq![e],
{
    assert(ev.push(e).subrange(n0, ev.len() as int + 1) =~= ev.subrange(n0, ev.len() as int) + seq![e]);
}

proof fn lemma_sub_append(ev: Seq<JsonEvent>, n0: int, more: Seq<JsonEvent>)
    requires
        0 <= n0 <= ev.len(),
    ensures
        (ev + more).subrange(n0, (ev + more).len() as int) == ev.subrange(n0, ev.len() as int) + more,
{
    assert((ev + more).subrange(n0, (ev + more).len() as int) =~= ev.subrange(n0, ev.len() as int) + more);
}

proof fn lemma_sub_update(ev: Seq<JsonEvent>, n0: int, a: int, e: JsonEvent)
    requires
        0 <= n0 <= a < ev.len(),
    ensures
        ev.update(a, e).subrange(n0, ev.len() as int) == ev.subrange(n0, ev.len() as int).update(a - n0, e),
{
    assert(ev.update(a, e).subrange(n0, ev.len() as int) =~= ev.subrange(n0, ev.len() as int).update(a - n0, e));
}

#[verifier::spinoff_prover]
proof fn lemma_track_init(tokens: Seq<JsonToken>, p0: int, kind: SequenceKind, e0: Seq<JsonEvent>, events: Seq<JsonEvent>, current: Sequence)
    requires
        value_end(tokens, p0) is Some,
        kind_at(tokens, p0) == kind.spec_open_paren(),
        events == e0 + seq![
            JsonEvent::Start { kind: JsonSyntaxKind::Tombstone },
            JsonEvent::Token { kind: kind.spec_open_paren(), index: p0 as usize },
            JsonEvent::Start { kind: JsonSyntaxKind::Tombstone },
        ],
        current.kind == kind,
        current.state is Start,
        current.node.pos == e0.len(),
        current.list.pos == e0.len() + 2,
    ensures
        on_track(events, tokens, p0 + 1, value_events(tokens, p0), e0.len() as int, Seq::empty(), current),
{
    let target = value_events(tokens, p0);
    let q = items_end(tokens, p0 + 1, kind, true)->0;
    let items = items_events(tokens, p0 + 1, kind, true);
    let head = seq![
        JsonEvent::Start { kind: kind.spec_node_kind() },
        JsonEvent::Token { kind: kind.spec_open_paren(), index: p0 as usize },
        JsonEvent::Start { kind: kind.spec_list_kind() },
    ];
    assert(target == head + items + close_events(kind, q));
    lemma_chain_unfold(tokens, p0 + 1, Seq::empty(), current, true);
    assert(Seq::<Sequence>::empty().push(current).drop_last() =~= Seq::<Sequence>::empty());
    assert(chain_events(tokens, p0 + 1, Seq::<Sequence>::empty().push(current), true)
        =~= items + close_events(kind, q));
    let sub = events.subrange(e0.len() as int, events.len() as int);
    assert(sub =~= seq![
        JsonEvent::Start { kind: JsonSyntaxKind::Tombstone },
        JsonEvent::Token { kind: kind.spec_open_paren(), index: p0 as usize },
        JsonEvent::Start { kind: JsonSyntaxKind::Tombstone },
    ]);
    assert(target.take(3) =~= head);
    assert(target.skip(3) =~= items + close_events(kind, q));
    assert(agrees(sub, head));
}

#[verifier::spinoff_prover]
proof fn lemma_track_resume(
    ev: Seq<JsonEvent>,
    ev2: Seq<JsonEvent>,
    tokens: Seq<JsonToken>,
    pos: int,
    target: Seq<JsonEvent>,
    n0: int,
    stack: Seq<Sequence>,
    cur: Sequence,
    cur2: Sequence,
)
    requires
        on_track(ev, tokens, pos, target, n0, stack, cur),
        cur2.kind == cur.kind,
        cur2.node == cur.node,
        cur2.list == cur.list,
        !(cur2.state is Suspended),
        (cur2.state is Start) == (cur.state is Start),
        cur.state matches SequenceState::Suspended(Some(m)) ==> n0 <= m.pos < ev.len(),
        items_end(tokens, pos, cur.kind, cur.state is Start) is Some,
        ev2 == match cur.state {
            SequenceState::Suspended(Some(m)) => ev.update(m.pos as int, JsonEvent::Start { kind: JsonSyntaxKind::JsonMember })
                .push(JsonEvent::Finish),
            _ => ev,
        },
    ensures
        on_track(ev2, tokens, pos, target, n0, stack, cur2),
{
    let first = cur.state is Start;
    lemma_chain_unfold(tokens, pos, stack, cur, first);
    lemma_chain_unfold(tokens, pos, stack, cur2, first);
    let sub = ev.subrange(n0, ev.len() as int);
    match cur.state {
        SequenceState::Suspended(Some(m)) => {
            let rest2 = chain_events(tokens, pos, stack.push(cur2), first);
            let q = items_end(tokens, pos, cur.kind, first)->0;
            let items = items_events(tokens, pos, cur.kind, first);
            let after = chain_events(tokens, q + 1, stack, false);
            assert(rest2 == items + close_events(cur.kind, q) + after);
            assert(chain_events(tokens, pos, stack.push(cur), first)
                == seq![JsonEvent::Finish] + items + close_events(cur.kind, q) + after);
            assert(chain_events(tokens, pos, stack.push(cur), first) =~= seq![JsonEvent::Finish] + rest2);
            lemma_track_update(sub, target, seq![JsonEvent::Finish] + rest2, m.pos - n0, JsonSyntaxKind::JsonMember);
            let sub1 = sub.update(m.pos - n0, JsonEvent::Start { kind: JsonSyntaxKind::JsonMember });
            lemma_track_append(sub1, seq![JsonEvent::Finish], target, rest2);
            let ev1 = ev.update(m.pos as int, JsonEvent::Start { kind: JsonSyntaxKind::JsonMember });
            lemma_sub_update(ev, n0, m.pos as int, JsonEvent::Start { kind: JsonSyntaxKind::JsonMember });
            lemma_sub_push(ev1, n0, JsonEvent::Finish);
        },
        _ => {
            assert(chain_events(tokens, pos, stack.push(cur), first) == chain_events(tokens, pos, stack.push(cur2), first));
        },
    }
}

#[verifier::spinoff_prover]
proof fn lemma_track_items(
    ev: Seq<JsonEvent>,
    ev2: Seq<JsonEvent>,
    tokens: Seq<JsonToken>,
    pos: int,
    q: int,
    target: Seq<JsonEvent>,
    n0: int,
    stack: Seq<Sequence>,
    cur: Sequence,
)
    requires
        on_track(ev, tokens, pos, target, n0, stack, cur),
        !(cur.state is Suspended),
        items_end(tokens, pos, cur.kind, cur.state is Start) == Some(q),
        ev2 == ev + items_events(tokens, pos, cur.kind, cur.state is Start),
    ensures
        follows(ev2.subrange(n0, ev2.len() as int), target, close_events(cur.kind, q) + chain_events(tokens, q + 1, stack, false)),
{
    let first = cur.state is Start;
    let items = items_events(tokens, pos, cur.kind, first);
    lemma_chain_unfold(tokens, pos, stack, cur, first);
    let rest = close_events(cur.kind, q) + chain_events(tokens, q + 1, stack, false);
    assert(chain_events(tokens, pos, stack.push(cur), first) =~= items + rest);
    lemma_track_append(ev.subrange(n0, ev.len() as int), items, target, rest);
    lemma_sub_append(ev, n0, items);
}

#[verifier::spinoff_prover]
proof fn lemma_track_finish(
    ev2: Seq<JsonEvent>,
    ev3: Seq<JsonEvent>,
    pos: int,
    target: Seq<JsonEvent>,
    n0: int,
    cur: Sequence,
    rest: Seq<JsonEvent>,
)
    requires
        0 <= n0 <= cur.node.pos,
        cur.node.pos < ev2.len(),
        n0 <= cur.list.pos < ev2.len(),
        follows(ev2.subrange(n0, ev2.len() as int), target, close_events(cur.kind, pos) + rest),
        frame_marks(target, cur, n0),
        ev3 == ev2.update(cur.list.pos as int, JsonEvent::Start { kind: cur.kind.spec_list_kind() })
            .push(JsonEvent::Finish)
            .push(JsonEvent::Token { kind: cur.kind.spec_close_paren(), index: pos as usize })
            .update(cur.node.pos as int, JsonEvent::Start { kind: cur.kind.spec_node_kind() })
            .push(JsonEvent::Finish),
    ensures
        follows(ev3.subrange(n0, ev3.len() as int), target, rest),
{
    let close_tok = JsonEvent::Token { kind: cur.kind.spec_close_paren(), index: pos as usize };
    let sub = ev2.subrange(n0, ev2.len() as int);
    lemma_track_update(sub, target, close_events(cur.kind, pos) + rest, cur.list.pos - n0, cur.kind.spec_list_kind());
    let sub1 = sub.update(cur.list.pos - n0, JsonEvent::Start { kind: cur.kind.spec_list_kind() });
    assert(close_events(cur.kind, pos) + rest =~= seq![JsonEvent::Finish, close_tok] + (seq![JsonEvent::Finish] + rest));
    lemma_track_append(sub1, seq![JsonEvent::Finish, close_tok], target, seq![JsonEvent::Finish] + rest);
    let sub2 = sub1 + seq![JsonEvent::Finish, close_tok];
    lemma_track_update(sub2, target, seq![JsonEvent::Finish] + rest, cur.node.pos - n0, cur.kind.spec_node_kind());
    let sub3 = sub2.update(cur.node.pos - n0, JsonEvent::Start { kind: cur.kind.spec_node_kind() });
    lemma_track_append(sub3, seq![JsonEvent::Finish], target, rest);
    assert(ev3.subrange(n0, ev3.len() as int) =~= sub3 + seq![JsonEvent::Finish]);
}

#[verifier::spinoff_prover]
proof fn lemma_nest_done(
    ev: Seq<JsonEvent>,
    ev2: Seq<JsonEvent>,
    tokens: Seq<JsonToken>,
    pos: int,
    q: int,
    target: Seq<JsonEvent>,
    n0: int,
    stack: Seq<Sequence>,
    cur: Sequence,
    tail: Seq<JsonEvent>,
)
    requires
        on_track(ev, tokens, pos, target, n0, stack, cur),
        !(cur.state is Suspended),
        items_end(tokens, pos, cur.kind, cur.state is Start) == Some(q),
        prefix(ev, ev2),
        ({
            let done = ev2.subrange(ev.len() as int, ev2.len() as int);
            let items = items_events(tokens, pos, cur.kind, cur.state is Start);
            &&& done.len() <= items.len()
            &&& agrees(done, items.take(done.len() as int))
            &&& items.skip(done.len() as int) == tail
        }),
    ensures
        follows(ev2.subrange(n0, ev2.len() as int), target, tail + (close_events(cur.kind, q) + chain_events(tokens, q + 1, stack, false))),
{
    let first = cur.state is Start;
    let items = items_events(tokens, pos, cur.kind, first);
    let done = ev2.subrange(ev.len() as int, ev2.len() as int);
    let rest_after = close_events(cur.kind, q) + chain_events(tokens, q + 1, stack, false);
    lemma_chain_unfold(tokens, pos, stack, cur, first);
    assert(chain_events(tokens, pos, stack.push(cur), first) =~= items + rest_after);
    lemma_track_append_agree(ev.subrange(n0, ev.len() as int), done, target, items, tail, rest_after);
    assert(ev2 =~= ev + done);
    lemma_sub_append(ev, n0, done);
}

#[verifier::spinoff_prover]
proof fn lemma_nest_open(
    ev2: Seq<JsonEvent>,
    ev3: Seq<JsonEvent>,
    tokens: Seq<JsonToken>,
    pos2: int,
    nested: SequenceKind,
    target: Seq<JsonEvent>,
    n0: int,
    rest: Seq<JsonEvent>,
)
    requires
        0 <= n0 <= ev2.len(),
        value_end(tokens, pos2) is Some,
        kind_at(tokens, pos2) == nested.spec_open_paren(),
        follows(ev2.subrange(n0, ev2.len() as int), target, value_events(tokens, pos2) + rest),
        ev3 == ev2 + seq![
            JsonEvent::Start { kind: JsonSyntaxKind::Tombstone },
            JsonEvent::Token { kind: nested.spec_open_paren(), index: pos2 as usize },
            JsonEvent::Start { kind: JsonSyntaxKind::Tombstone },
        ],
    ensures
        value_end(tokens, pos2) == Some(items_end(tokens, pos2 + 1, nested, true)->0 + 1),
        follows(ev3.subrange(n0, ev3.len() as int), target,
            items_events(tokens, pos2 + 1, nested, true) + close_events(nested, items_end(tokens, pos2 + 1, nested, true)->0) + rest),
        target[ev2.len() - n0] == (JsonEvent::Start { kind: nested.spec_node_kind() }),
        target[ev2.len() - n0 + 2] == (JsonEvent::Start { kind: nested.spec_list_kind() }),
{
    let qn = items_end(tokens, pos2 + 1, nested, true)->0;
    let items_n = items_events(tokens, pos2 + 1, nested, true);
    let head_n = seq![
        JsonEvent::Start { kind: nested.spec_node_kind() },
        JsonEvent::Token { kind: nested.spec_open_paren(), index: pos2 as usize },
        JsonEvent::Start { kind: nested.spec_list_kind() },
    ];
    assert(value_events(tokens, pos2) == head_n + items_n + close_events(nested, qn));
    let rest_n = items_n + close_events(nested, qn) + rest;
    assert(value_events(tokens, pos2) + rest =~= head_n + rest_n);
    let opened = seq![
        JsonEvent::Start { kind: JsonSyntaxKind::Tombstone },
        JsonEvent::Token { kind: nested.spec_open_paren(), index: pos2 as usize },
        JsonEvent::Start { kind: JsonSyntaxKind::Tombstone },
    ];
    assert(head_n.take(3) =~= head_n);
    assert(head_n.skip(3) =~= Seq::<JsonEvent>::empty());
    assert(agrees(opened, head_n));
    let sub2 = ev2.subrange(n0, ev2.len() as int);
    lemma_track_append_agree(sub2, opened, target, head_n, Seq::empty(), rest_n);
    lemma_sub_append(ev2, n0, opened);
    assert(Seq::<JsonEvent>::empty() + rest_n =~= rest_n);
    let d2 = sub2.len() as int;
    assert(target.skip(d2) == head_n + rest_n);
    assert(target[d2] == target.skip(d2)[0]);
    assert(target[d2 + 2] == target.skip(d2)[2]);
}

#[verifier::spinoff_prover]
proof fn lemma_nest_chain(
    tokens: Seq<JsonToken>,
    pos2: int,
    r: int,
    q: int,
    stack: Seq<Sequence>,
    susp: Sequence,
    next: Sequence,
)
    requires
        items_end(tokens, pos2 + 1, next.kind, true) is Some,
        r == items_end(tokens, pos2 + 1, next.kind, true)->0 + 1,
        items_end(tokens, r, susp.kind, false) == Some(q),
        next.state is Start,
        !(next.state is Suspended),
    ensures
        chain_events(tokens, pos2 + 1, stack.push(susp).push(next), true)
            == items_events(tokens, pos2 + 1, next.kind, true) + close_events(next.kind, r - 1)
                + member_tail(susp) + items_events(tokens, r, susp.kind, false)
                + (close_events(susp.kind, q) + chain_events(tokens, q + 1, stack, false)),
{
    lemma_chain_unfold(tokens, pos2 + 1, stack.push(susp), next, true);
    lemma_chain_unfold(tokens, r, stack, susp, false);
    assert(chain_events(tokens, pos2 + 1, stack.push(susp).push(next), true)
        =~= items_events(tokens, pos2 + 1, next.kind, true) + close_events(next.kind, r - 1)
            + member_tail(susp) + items_events(tokens, r, susp.kind, false)
            + (close_events(susp.kind, q) + chain_events(tokens, q + 1, stack, false)));
}

#[verifier::spinoff_prover]
#[verifier::rlimit(60)]
proof fn lemma_track_nest(
    ev: Seq<JsonEvent>,
    ev2: Seq<JsonEvent>,
    ev3: Seq<JsonEvent>,
    tokens: Seq<JsonToken>,
    pos: int,
    pos2: int,
    q: int,
    r: int,
    target: Seq<JsonEvent>,
    n0: int,
    stack: Seq<Sequence>,
    cur: Sequence,
    marker: Option<Marker>,
    nested: SequenceKind,
    susp: Sequence,
    next: Sequence,
)
    requires
        on_track(ev, tokens, pos, target, n0, stack, cur),
        !(cur.state is Suspended),
        items_end(tokens, pos, cur.kind, cur.state is Start) == Some(q),
        prefix(ev, ev2),
        susp == (Sequence { state: SequenceState::Suspended(marker), ..cur }),
        ({
            let done = ev2.subrange(ev.len() as int, ev2.len() as int);
            let items = items_events(tokens, pos, cur.kind, cur.state is Start);
            &&& done.len() <= items.len()
            &&& agrees(done, items.take(done.len() as int))
            &&& items.skip(done.len() as int) == value_events(tokens, pos2) + member_tail(susp) + items_events(tokens, r, cur.kind, false)
            &&& marker matches Some(m) ==> ev.len() <= m.pos < ev2.len()
                && items[m.pos - ev.len()] == (JsonEvent::Start { kind: JsonSyntaxKind::JsonMember })
        }),
        value_end(tokens, pos2) == Some(r),
        items_end(tokens, r, cur.kind, false) == Some(q),
        kind_at(tokens, pos2) == nested.spec_open_paren(),
        ev3 == ev2 + seq![
            JsonEvent::Start { kind: JsonSyntaxKind::Tombstone },
            JsonEvent::Token { kind: nested.spec_open_paren(), index: pos2 as usize },
            JsonEvent::Start { kind: JsonSyntaxKind::Tombstone },
        ],
        next.kind == nested,
        next.state is Start,
        next.node.pos == ev2.len(),
        next.list.pos == ev2.len() + 2,
    ensures
        on_track(ev3, tokens, pos2 + 1, target, n0, stack.push(susp), next),
{
    let tail = value_events(tokens, pos2) + member_tail(susp) + items_events(tokens, r, cur.kind, false);
    let rest_after = close_events(cur.kind, q) + chain_events(tokens, q + 1, stack, false);
    lemma_nest_done(ev, ev2, tokens, pos, q, target, n0, stack, cur, tail);
    let rest = member_tail(susp) + items_events(tokens, r, cur.kind, false) + rest_after;
    assert(tail + rest_after =~= value_events(tokens, pos2) + rest);
    lemma_nest_open(ev2, ev3, tokens, pos2, nested, target, n0, rest);
    lemma_nest_chain(tokens, pos2, r, q, stack, susp, next);
    let items_n = items_events(tokens, pos2 + 1, nested, true);
    assert(items_n + close_events(nested, r - 1) + rest
        =~= items_n + close_events(nested, r - 1) + member_tail(susp) + items_events(tokens, r, susp.kind, false) + rest_after);
    lemma_nest_marks(ev, ev2, tokens, pos, q, target, n0, stack, cur, marker, susp);
}

#[verifier::spinoff_prover]
proof fn lemma_nest_marks(
    ev: Seq<JsonEvent>,
    ev2: Seq<JsonEvent>,
    tokens: Seq<JsonToken>,
    pos: int,
    q: int,
    target: Seq<JsonEvent>,
    n0: int,
    stack: Seq<Sequence>,
    cur: Sequence,
    marker: Option<Marker>,
    susp: Sequence,
)
    requires
        on_track(ev, tokens, pos, target, n0, stack, cur),
        !(cur.state is Suspended),
        items_end(tokens, pos, cur.kind, cur.state is Start) == Some(q),
        susp == (Sequence { state: SequenceState::Suspended(marker), ..cur }),
        marker matches Some(m) ==> ev.len() <= m.pos < ev2.len()
            && items_events(tokens, pos, cur.kind, cur.state is Start)[m.pos - ev.len()]
                == (JsonEvent::Start { kind: JsonSyntaxKind::JsonMember }),
        marker matches Some(m) ==> m.pos - ev.len() < items_events(tokens, pos, cur.kind, cur.state is Start).len(),
    ensures
        frame_marks(target, susp, n0),
        forall|i: int| 0 <= i < stack.push(susp).len() ==> frame_marks(target, #[trigger] stack.push(susp)[i], n0),
{
    match marker {
        Some(m) => {
            let first = cur.state is Start;
            let items = items_events(tokens, pos, cur.kind, first);
            let rest_after = close_events(cur.kind, q) + chain_events(tokens, q + 1, stack, false);
            let d = ev.len() - n0;
            lemma_chain_unfold(tokens, pos, stack, cur, first);
            assert(target.skip(d) == items + rest_after);
            assert(target.skip(d)[m.pos - ev.len()] == items[m.pos - ev.len()]);
            assert(target[m.pos - n0] == target.skip(d)[m.pos - ev.len()]);
        },
        None => {},
    }
    assert forall|i: int| 0 <= i < stack.push(susp).len() implies frame_marks(target, #[trigger] stack.push(susp)[i], n0) by {
        if i < stack.len() {
            assert(stack.push(susp)[i] == stack[i]);
        }
    }
}

proof fn lemma_track_done(sub: Seq<JsonEvent>, target: Seq<JsonEvent>)
    requires
        follows(sub, target, Seq::empty()),
        tombstones(sub) == 0,
    ensures
        sub == target,
{
    assert(target.skip(sub.len() as int).len() == target.len() - sub.len());
    assert(target.len() == sub.len());
    assert(target.take(sub.len() as int) =~= target);
    assert forall|i: int| 0 <= i < sub.len() implies sub[i] == target[i] by {
        lemma_no_tombstone(sub, i);
        assert(sub[i] == target.take(sub.len() as int)[i] || (is_tombstone(sub[i]) && target.take(sub.len() as int)[i] is Start));
    }
    assert(sub =~= target);
}

/// The kinds of a stack of sequences.
spec fn kinds_of(stack: Seq<Sequence>) -> Seq<SequenceKind> {
    stack.map_values(|s: Sequence| s.kind)
}

/// The outermost sequence of a stack of sequences under `current`.
spec fn root_sequence(stack: Seq<Sequence>, current: Sequence) -> Sequence {
    if stack.len() == 0 {
        current
    } else {
        stack[0]
    }
}

proof fn lemma_prefix_through(e0: Seq<JsonEvent>, before: Seq<JsonEvent>, after: Seq<JsonEvent>, q: int)
    requires
        prefix(e0, before),
        e0.len() <= q <= before.len(),
        prefix(before.subrange(0, q), after),
    ensures
        prefix(e0, after),
{
    assert(before.subrange(0, q).subrange(0, e0.len() as int) =~= e0) by {
        assert forall|i: int| 0 <= i < e0.len() implies #[trigger] before.subrange(0, q).subrange(0, e0.len() as int)[i] == e0[i] by {
            assert(before.subrange(0, e0.len() as int)[i] == before[i]);
        }
    }
    lemma_prefix_trans(e0, before.subrange(0, q), after);
}

proof fn lemma_stack_push(stack: Seq<Sequence>, top: Sequence)
    ensures
        stack_markers(stack.push(top)) == stack_markers(stack) + sequence_markers(top),
{
    assert(stack.push(top).drop_last() =~= stack);
}

impl<'t> JsonParser<'t> {
    proof fn lemma_markers_after_complete(&self, before: &Self, markers: Seq<usize>, from: int)
        requires
            before.markers_ok(markers, from),
            markers.len() >= 1,
            self.wf(),
            forall|p: usize| #[trigger] before.open_at(p) && p != markers.last() ==> self.open_at(p),
        ensures
            self.markers_ok(markers.drop_last(), from),
    {
        let rest = markers.drop_last();
        assert forall|i: int| 0 <= i < rest.len() implies from <= rest[i] && self.open_at(#[trigger] rest[i]) by {
            assert(rest[i] == markers[i]);
            assert(before.open_at(markers[i]));
            assert(markers[i] < markers[markers.len() - 1]);
        }
    }

    /// Parses the next item of a sequence of kind `kind`, after a comma unless
    /// it is the first. An item that does not parse is recovered from and
    /// reported; parsing stops where no recovery is possible or at a trailing
    /// comma that the options allow.
    #[verifier::spinoff_prover]
    #[verifier::rlimit(100)]
    fn parse_next_item(
        &mut self,
        kind: SequenceKind,
        first: bool,
        Ghost(all): Ghost<Seq<usize>>,
        Ghost(n0): Ghost<int>,
        Ghost(t0): Ghost<int>,
        Ghost(e0): Ghost<Seq<JsonEvent>>,
    ) -> (step: ItemStep)
        requires
            old(self).wf(),
            prefix(e0, old(self).events@),
            old(self).markers_ok(all, n0),
            all.len() >= 2,
            all[0] == n0,
            tombstones(old(self).events@) == t0 + all.len(),
            old(self).cur_spec() != JsonSyntaxKind::Eof,
            old(self).cur_spec() != kind.spec_close_paren(),
        ensures
            final(self).wf(),
            final(self).tokens == old(self).tokens,
            final(self).options == old(self).options,
            prefix(old(self).events@, final(self).events@),
            prefix(e0, final(self).events@),
            final(self).pos >= old(self).pos,
            final(self).markers_ok(all, n0),
            !(step is Nested) ==> tombstones(final(self).events@) == t0 + all.len(),
            step is Next ==> first || final(self).pos > old(self).pos,
            step matches ItemStep::Nested(nested, marker) ==> {
                &&& final(self).cur_spec() == nested.spec_open_paren()
                &&& match marker {
                    Some(m) => m.pos > all[all.len() - 1] && final(self).open_at(m.pos)
                        && tombstones(final(self).events@) == t0 + all.len() + 1,
                    None => tombstones(final(self).events@) == t0 + all.len(),
                }
            },
            items_end(old(self).tokens@, old(self).pos as int, kind, first) matches Some(q)
                ==> final(self).diagnostics@ == old(self).diagnostics@ && match step {
                    ItemStep::Next => items_end(final(self).tokens@, final(self).pos as int, kind, false) == Some(q)
                        && old(self).events@ + items_events(old(self).tokens@, old(self).pos as int, kind, first)
                            == final(self).events@ + items_events(final(self).tokens@, final(self).pos as int, kind, false),
                    ItemStep::Stop => false,
                    ItemStep::Nested(_, marker) => value_end(final(self).tokens@, final(self).pos as int) matches Some(r)
                        && items_end(final(self).tokens@, r, kind, false) == Some(q)
                        && ({
                            let done = final(self).events@.subrange(old(self).events@.len() as int, final(self).events@.len() as int);
                            let step_items = items_events(old(self).tokens@, old(self).pos as int, kind, first);
                            &&& agrees(done, step_items.take(done.len() as int))
                            &&& done.len() <= step_items.len()
                            &&& step_items.skip(done.len() as int) == value_events(final(self).tokens@, final(self).pos as int)
                                + (if marker is Some { seq![JsonEvent::Finish] } else { Seq::<JsonEvent>::empty() })
                                + items_events(final(self).tokens@, r, kind, false)
                            &&& marker matches Some(m) ==> old(self).events@.len() <= m.pos < final(self).events@.len()
                                && step_items[m.pos - old(self).events@.len()] == (JsonEvent::Start { kind: JsonSyntaxKind::JsonMember })
                        }),
                },
            !(step is Nested) ==> final(self).pstate() == next_item(old(self).tokens@, old(self).options, old(self).pstate(), kind, first).0
                && next_item(old(self).tokens@, old(self).options, old(self).pstate(), kind, first).1 == (step is Next),
            step matches ItemStep::Nested(nested, marker) ==> next_item(old(self).tokens@, old(self).options, old(self).pstate(), kind, first).0
                == with_member_complete(parsed_sequence(final(self).tokens@, final(self).options, final(self).pstate(), nested).0, marker_pos(marker))
                && next_item(old(self).tokens@, old(self).options, old(self).pstate(), kind, first).1,
        decreases old(self).tokens@.len() - old(self).pos, 5int,
    {
        let ghost o = self.options;
        let ghost st0 = self.pstate();
        let ghost before = *self;
        let ghost t = self.tokens@;
        let ghost target = items_end(t, self.pos as int, kind, first);
        if !first {
            self.expect(JsonSyntaxKind::Comma);
        } else {
            proof {
                assert(self.events@.subrange(0, self.events@.len() as int) =~= self.events@);
            }
        }
        let ghost mid = *self;
        proof {
            if target is Some {
                if first {
                    assert(items_events(t, before.pos as int, kind, true) == item_then_rest_events(t, before.pos as int, kind));
                } else {
                    assert(items_events(t, before.pos as int, kind, false)
                        == seq![JsonEvent::Token { kind: JsonSyntaxKind::Comma, index: before.pos }]
                            + item_then_rest_events(t, before.pos + 1, kind));
                    assert(before.events@ + (seq![JsonEvent::Token { kind: JsonSyntaxKind::Comma, index: before.pos }]
                        + item_then_rest_events(t, before.pos + 1, kind))
                        =~= mid.events@ + item_then_rest_events(t, mid.pos as int, kind));
                }
                lemma_item_end(t, mid.pos as int, kind);
            }
        }
        let item = self.parse_item(kind);
        proof {
            lemma_prefix_trans(before.events@, mid.events@, self.events@);
            lemma_prefix_trans(e0, before.events@, self.events@);
            self.lemma_markers_kept(&before, all, n0);
        }
        match item {
            SequenceItem::Parsed(None) => {
                let trailing = self.options.allow_trailing_commas && match self.last {
                    Some(JsonSyntaxKind::Comma) => true,
                    _ => false,
                };
                if trailing {
                    proof {
                        assert(next_item(t, o, st0, kind, first) == (self.pstate(), false)) by {
                            reveal(next_item);
                            reveal(parsed_item);
                        }
                    }
                    return ItemStep::Stop;
                }
                let range = if self.at(JsonSyntaxKind::Comma) {
                    self.cur_range()
                } else {
                    let ghost s1 = *self;
                    match self.recover(JsonSyntaxKind::JsonBogusValue, RecoverySet::Sequence(kind), true) {
                        Some(marker) => {
                            proof {
                                lemma_prefix_trans(e0, s1.events@, self.events@);
                                lemma_prefix_trans(before.events@, s1.events@, self.events@);
                                self.lemma_markers_kept(&s1, all, n0);
                            }
                            marker.range()
                        },
                        None => {
                            let r = self.cur_range();
                            self.error(JsonDiagnosticKind::ExpectedValue, r);
                            proof {
                                assert(next_item(t, o, st0, kind, first) == (self.pstate(), false)) by {
                                    reveal(next_item);
                                    reveal(parsed_item);
                                }
                            }
                            return ItemStep::Stop;
                        },
                    }
                };
                self.error(JsonDiagnosticKind::ExpectedValue, range);
                proof {
                    assert(next_item(t, o, st0, kind, first) == (self.pstate(), true)) by {
                        reveal(next_item);
                        reveal(parsed_item);
                    }
                }
                ItemStep::Next
            },
            SequenceItem::Parsed(Some(_)) => {
                proof {
                    assert(next_item(t, o, st0, kind, first) == (self.pstate(), true)) by {
                        reveal(next_item);
                        reveal(parsed_item);
                    }
                    if target is Some {
                        let rest = items_events(t, self.pos as int, kind, false);
                        assert(item_then_rest_events(t, mid.pos as int, kind) == item_events(t, mid.pos as int, kind) + rest);
                        assert(mid.events@ + (item_events(t, mid.pos as int, kind) + rest) =~= self.events@ + rest);
                    }
                }
                ItemStep::Next
            },
            SequenceItem::Recurse(nested, marker) => {
                proof {
                    assert(next_item(t, o, st0, kind, first) == (parsed_item(t, o, mid.pstate(), kind).0, true)) by {
                        reveal(next_item);
                        reveal(parsed_item);
                    }
                    assert(before.open_at(all[all.len() - 1]));
                    if target is Some {
                        let j = item_end(t, mid.pos as int, kind)->0;
                        let rest = items_events(t, j, kind, false);
                        let step_items = items_events(t, before.pos as int, kind, first);
                        assert(item_then_rest_events(t, mid.pos as int, kind) == item_events(t, mid.pos as int, kind) + rest);
                        lemma_cancel(before.events@, step_items, mid.events@ + (item_events(t, mid.pos as int, kind) + rest));
                        let done_mid = mid.events@.subrange(before.events@.len() as int, mid.events@.len() as int);
                        assert(mid.events@ =~= before.events@ + done_mid);
                        assert(step_items =~= done_mid + item_events(t, mid.pos as int, kind) + rest);
                        match marker {
                            Some(m) => {
                                lemma_split_member(done_mid, mid.pos as int, value_events(t, mid.pos + 2), rest, step_items);
                                assert(self.events@.subrange(before.events@.len() as int, self.events@.len() as int)
                                    =~= done_mid + open_member_head(mid.pos as int));
                            },
                            None => {
                                lemma_split_value(done_mid, value_events(t, mid.pos as int), rest, step_items);
                                assert(self.events@.subrange(before.events@.len() as int, self.events@.len() as int) =~= done_mid);
                                assert(value_events(t, mid.pos as int) + Seq::<JsonEvent>::empty() + rest
                                    =~= value_events(t, mid.pos as int) + rest);
                            },
                        }
                    }
                }
                ItemStep::Nested(nested, marker)
            },
        }
    }

    /// Parses the items of a sequence of kind `kind` up to its closing token
    /// or the end of the file. When an array or an object starts as an item,
    /// returns its kind, and in an object the member that holds it.
    #[verifier::spinoff_prover]
    fn parse_items(
        &mut self,
        kind: SequenceKind,
        first: bool,
        Ghost(all): Ghost<Seq<usize>>,
        Ghost(n0): Ghost<int>,
        Ghost(t0): Ghost<int>,
        Ghost(e0): Ghost<Seq<JsonEvent>>,
    ) -> (recurse: Option<(SequenceKind, Option<Marker>)>)
        requires
            old(self).wf(),
            prefix(e0, old(self).events@),
            old(self).markers_ok(all, n0),
            all.len() >= 2,
            all[0] == n0,
            tombstones(old(self).events@) == t0 + all.len(),
        ensures
            final(self).wf(),
            final(self).tokens == old(self).tokens,
            final(self).options == old(self).options,
            prefix(e0, final(self).events@),
            prefix(old(self).events@, final(self).events@),
            final(self).pos >= old(self).pos,
            final(self).markers_ok(all, n0),
            match recurse {
                Some((nested, marker)) => {
                    &&& final(self).cur_spec() == nested.spec_open_paren()
                    &&& match marker {
                        Some(m) => m.pos > all[all.len() - 1] && final(self).open_at(m.pos)
                            && tombstones(final(self).events@) == t0 + all.len() + 1,
                        None => tombstones(final(self).events@) == t0 + all.len(),
                    }
                },
                None => tombstones(final(self).events@) == t0 + all.len(),
            },
            items_end(old(self).tokens@, old(self).pos as int, kind, first) matches Some(q)
                ==> final(self).diagnostics@ == old(self).diagnostics@ && match recurse {
                    None => final(self).pos == q
                        && final(self).events@ == old(self).events@ + items_events(old(self).tokens@, old(self).pos as int, kind, first),
                    Some((_, marker)) => value_end(final(self).tokens@, final(self).pos as int) matches Some(r)
                        && items_end(final(self).tokens@, r, kind, false) == Some(q)
                        && final(self).events@.len() >= old(self).events@.len()
                        && ({
                            let done = final(self).events@.subrange(old(self).events@.len() as int, final(self).events@.len() as int);
                            let all_items = items_events(old(self).tokens@, old(self).pos as int, kind, first);
                            &&& done.len() <= all_items.len()
                            &&& agrees(done, all_items.take(done.len() as int))
                            &&& all_items.skip(done.len() as int) == value_events(final(self).tokens@, final(self).pos as int)
                                + (if marker is Some { seq![JsonEvent::Finish] } else { Seq::<JsonEvent>::empty() })
                                + items_events(final(self).tokens@, r, kind, false)
                            &&& marker matches Some(m) ==> old(self).events@.len() <= m.pos < final(self).events@.len()
                                && all_items[m.pos - old(self).events@.len()] == (JsonEvent::Start { kind: JsonSyntaxKind::JsonMember })
                        }),
                },
            recurse is None ==> final(self).pstate() == parsed_items(old(self).tokens@, old(self).options, old(self).pstate(), kind, first),
            recurse matches Some((nested, marker)) ==> parsed_items(old(self).tokens@, old(self).options, old(self).pstate(), kind, first)
                == parsed_items(final(self).tokens@, final(self).options, with_member_complete(
                    parsed_sequence(final(self).tokens@, final(self).options, final(self).pstate(), nested).0, marker_pos(marker)), kind, false),
        decreases old(self).tokens@.len() - old(self).pos, 6int,
    {
        let ghost t = self.tokens@;
        let ghost target = items_end(t, self.pos as int, kind, first);
        let ghost all_items = items_events(t, self.pos as int, kind, first);
        let ghost o = self.options;
        let ghost st0 = self.pstate();
        let ghost first0 = first;
        proof {
            lemma_items_end_not_eof(t, self.pos as int, kind, first);
            assert(self.events@.subrange(0, self.events@.len() as int) =~= self.events@);
            if target is Some && kind_at(t, self.pos as int) == kind.spec_close_paren() {
                lemma_items_close(t, self.pos as int, kind, first);
                assert(self.events@ + Seq::<JsonEvent>::empty() =~= self.events@);
            }
        }
        proof {
            assert(kind_at(t, self.pos as int) == JsonSyntaxKind::Eof || kind_at(t, self.pos as int) == kind.spec_close_paren()
                ==> parsed_items(t, o, self.pstate(), kind, first) == self.pstate()) by {
                reveal(parsed_items);
                reveal(next_item);
            }
        }
        let mut first = first;
        let mut recurse: Option<(SequenceKind, Option<Marker>)> = None;
        while !self.at(JsonSyntaxKind::Eof) && !self.at(kind.close_paren())
            invariant_except_break
                recurse is None,
                parsed_items(t, o, st0, kind, first0) == parsed_items(t, o, self.pstate(), kind, first),
                kind_at(t, self.pos as int) == JsonSyntaxKind::Eof || kind_at(t, self.pos as int) == kind.spec_close_paren()
                    ==> parsed_items(t, o, self.pstate(), kind, first) == self.pstate(),
                target matches Some(q) ==> items_end(self.tokens@, self.pos as int, kind, first) == Some(q)
                    && kind_at(self.tokens@, self.pos as int) != JsonSyntaxKind::Eof
                    && old(self).events@ + all_items == self.events@ + items_events(self.tokens@, self.pos as int, kind, first)
                    && (kind_at(self.tokens@, self.pos as int) == kind.spec_close_paren() ==> self.events@ == old(self).events@ + all_items),
            invariant
                t == old(self).tokens@,
                o == self.options,
                self.wf(),
                self.tokens == old(self).tokens,
                self.options == old(self).options,
                prefix(old(self).events@, self.events@),
                prefix(e0, self.events@),
                self.pos >= old(self).pos,
                self.markers_ok(all, n0),
                all.len() >= 2,
                all[0] == n0,
                target matches Some(_) ==> self.diagnostics@ == old(self).diagnostics@,
                recurse is None ==> tombstones(self.events@) == t0 + all.len(),
            ensures
                recurse is None ==> self.pstate() == parsed_items(t, o, st0, kind, first0),
                recurse matches Some((nested, marker)) ==> parsed_items(t, o, st0, kind, first0) == parsed_items(t, o,
                    with_member_complete(parsed_sequence(t, o, self.pstate(), nested).0, marker_pos(marker)), kind, false),
                match recurse {
                    Some((nested, marker)) => {
                        &&& self.cur_spec() == nested.spec_open_paren()
                        &&& match marker {
                            Some(m) => m.pos > all[all.len() - 1] && self.open_at(m.pos)
                                && tombstones(self.events@) == t0 + all.len() + 1,
                            None => tombstones(self.events@) == t0 + all.len(),
                        }
                    },
                    None => tombstones(self.events@) == t0 + all.len(),
                },
                target matches Some(q) ==> match recurse {
                    None => self.pos == q && self.events@ == old(self).events@ + all_items,
                    Some((_, marker)) => value_end(self.tokens@, self.pos as int) matches Some(r)
                        && items_end(self.tokens@, r, kind, false) == Some(q)
                        && ({
                            let done = self.events@.subrange(old(self).events@.len() as int, self.events@.len() as int);
                            &&& done.len() <= all_items.len()
                            &&& agrees(done, all_items.take(done.len() as int))
                            &&& all_items.skip(done.len() as int) == value_events(self.tokens@, self.pos as int)
                                + (if marker is Some { seq![JsonEvent::Finish] } else { Seq::<JsonEvent>::empty() })
                                + items_events(self.tokens@, r, kind, false)
                            &&& marker matches Some(m) ==> old(self).events@.len() <= m.pos < self.events@.len()
                                && all_items[m.pos - old(self).events@.len()] == (JsonEvent::Start { kind: JsonSyntaxKind::JsonMember })
                        }),
                },
            decreases self.tokens@.len() - self.pos, if first { 1int } else { 0int },
        {
            let ghost before = *self;
            let ghost first_before = first;
            proof {
                assert(parsed_items(t, o, before.pstate(), kind, first) == {
                    let (s, more) = next_item(t, o, before.pstate(), kind, first);
                    if more && (before.pos < s.pos <= t.len() || (first && s.pos == before.pos)) {
                        parsed_items(t, o, s, kind, false)
                    } else {
                        s
                    }
                }) by {
                    reveal(parsed_items);
                    reveal(next_item);
                }
            }
            let step = self.parse_next_item(kind, first, Ghost(all), Ghost(n0), Ghost(t0), Ghost(e0));
            proof {
                lemma_prefix_trans(old(self).events@, before.events@, self.events@);
            }
            match step {
                ItemStep::Next => {
                    first = false;
                    proof {
                        assert(parsed_items(t, o, before.pstate(), kind, first_before) == parsed_items(t, o, self.pstate(), kind, false));
                        assert(kind_at(t, self.pos as int) == JsonSyntaxKind::Eof || kind_at(t, self.pos as int) == kind.spec_close_paren()
                            ==> parsed_items(t, o, self.pstate(), kind, false) == self.pstate()) by {
                            reveal(parsed_items);
                            reveal(next_item);
                        }
                        if target is Some {
                            lemma_items_end_not_eof(t, self.pos as int, kind, false);
                            if kind_at(t, self.pos as int) == kind.spec_close_paren() {
                                lemma_items_close(t, self.pos as int, kind, false);
                                assert(self.events@ + Seq::<JsonEvent>::empty() =~= self.events@);
                            }
                        }
                    }
                },
                ItemStep::Stop => {
                    proof {
                        assert(parsed_items(t, o, before.pstate(), kind, first_before) == self.pstate());
                    }
                    break;
                },
                ItemStep::Nested(nested, marker) => {
                    proof {
                        lemma_parse_progress(t, o, self.pstate(), nested, false);
                        if target is Some {
                            let step_items = items_events(t, before.pos as int, kind, first);
                            let r = value_end(t, self.pos as int)->0;
                            let rest = value_events(t, self.pos as int)
                                + (if marker is Some { seq![JsonEvent::Finish] } else { Seq::<JsonEvent>::empty() })
                                + items_events(t, r, kind, false);
                            let member: Option<int> = match marker {
                                Some(m) => Some(m.pos as int),
                                None => None,
                            };
                            lemma_compose(old(self).events@, before.events@, self.events@, all_items, step_items, rest, member);
                        }
                    }
                    proof {
                        assert(with_member_complete(parsed_sequence(t, o, self.pstate(), nested).0, marker_pos(marker)).pos
                            == parsed_sequence(t, o, self.pstate(), nested).0.pos);
                        assert(parsed_items(t, o, before.pstate(), kind, first_before) == parsed_items(t, o,
                            with_member_complete(parsed_sequence(t, o, self.pstate(), nested).0, marker_pos(marker)), kind, false));
                    }
                    recurse = Some((nested, marker));
                    break;
                },
            }
        }
        recurse
    }

    /// Takes up `current` again after a nested sequence: completes the
    /// member that held it. Returns the sequence, and whether no item of it
    /// was parsed yet.
    #[verifier::spinoff_prover]
    fn resume(
        &mut self,
        current: Sequence,
        Ghost(rest): Ghost<Seq<usize>>,
        Ghost(n0): Ghost<int>,
        Ghost(t0): Ghost<int>,
        Ghost(e0): Ghost<Seq<JsonEvent>>,
    ) -> (r: (Sequence, bool))
        requires
            old(self).wf(),
            e0.len() == n0,
            prefix(e0, old(self).events@),
            old(self).markers_ok(rest + sequence_markers(current), n0),
            tombstones(old(self).events@) == t0 + (rest + sequence_markers(current)).len(),
        ensures
            final(self).wf(),
            final(self).tokens == old(self).tokens,
            final(self).options == old(self).options,
            final(self).pos == old(self).pos,
            prefix(e0, final(self).events@),
            r.0.kind == current.kind,
            r.0.node == current.node,
            r.0.list == current.list,
            sequence_markers(r.0) == seq![current.node.pos, current.list.pos],
            r.1 == (current.state is Start),
            r.1 == (r.0.state is Start),
            final(self).diagnostics@ == old(self).diagnostics@,
            final(self).events@ == match current.state {
                SequenceState::Suspended(Some(m)) => old(self).events@.update(m.pos as int,
                    JsonEvent::Start { kind: JsonSyntaxKind::JsonMember }).push(JsonEvent::Finish),
                _ => old(self).events@,
            },
            !(r.0.state is Suspended),
            final(self).markers_ok(rest + sequence_markers(r.0), n0),
            tombstones(final(self).events@) == t0 + rest.len() + 2,
            final(self).pstate() == with_member_complete(old(self).pstate(), suspended_member(current)),
    {
        let ghost entry = rest + sequence_markers(current);
        let mut current = current;
        let first = match current.state {
            SequenceState::Start => true,
            SequenceState::Processing => false,
            SequenceState::Suspended(marker) => {
                match marker {
                    Some(member) => {
                        let ghost before = *self;
                        proof {
                            assert(entry =~= rest + seq![current.node.pos, current.list.pos, member.pos]);
                            assert(entry[entry.len() - 1] == member.pos);
                            assert(self.open_at(entry[entry.len() - 1]));
                        }
                        self.complete(member, JsonSyntaxKind::JsonMember);
                        proof {
                            self.lemma_markers_after_complete(&before, entry, n0);
                            lemma_prefix_through(e0, before.events@, self.events@, member.pos as int);
                            assert(entry.drop_last() =~= rest + seq![current.node.pos, current.list.pos]);
                        }
                    },
                    None => {
                        proof {
                            assert(entry =~= rest + seq![current.node.pos, current.list.pos]);
                        }
                    },
                }
                current.state = SequenceState::Processing;
                false
            },
        };
        proof {
            assert(sequence_markers(current) =~= seq![current.node.pos, current.list.pos]);
            if !(current.state is Processing) || first {
                assert(entry =~= rest + seq![current.node.pos, current.list.pos]);
            }
            if self.events@ == old(self).events@ {
                assert(self.events@.subrange(0, self.events@.len() as int) =~= self.events@);
            }
        }
        (current, first)
    }

    /// Suspends `current` at a nested sequence of kind `nested`, which starts
    /// here, in the member `marker` of an object. Returns the suspended
    /// sequence and the nested one.
    #[verifier::spinoff_prover]
    fn nest(
        &mut self,
        current: Sequence,
        nested: SequenceKind,
        marker: Option<Marker>,
        Ghost(rest): Ghost<Seq<usize>>,
        Ghost(n0): Ghost<int>,
        Ghost(t0): Ghost<int>,
        Ghost(e0): Ghost<Seq<JsonEvent>>,
    ) -> (r: (Sequence, Sequence))
        requires
            old(self).wf(),
            e0.len() == n0,
            prefix(e0, old(self).events@),
            old(self).cur_spec() == nested.spec_open_paren(),
            sequence_markers(current) == seq![current.node.pos, current.list.pos],
            old(self).markers_ok(rest + sequence_markers(current), n0),
            match marker {
                Some(m) => m.pos > current.list.pos && old(self).open_at(m.pos)
                    && tombstones(old(self).events@) == t0 + rest.len() + 3,
                None => tombstones(old(self).events@) == t0 + rest.len() + 2,
            },
        ensures
            final(self).wf(),
            final(self).tokens == old(self).tokens,
            final(self).options == old(self).options,
            final(self).pos == old(self).pos + 1,
            final(self).diagnostics@ == old(self).diagnostics@,
            prefix(e0, final(self).events@),
            r.0 == (Sequence { state: SequenceState::Suspended(marker), ..current }),
            final(self).events@ == old(self).events@ + seq![
                JsonEvent::Start { kind: JsonSyntaxKind::Tombstone },
                JsonEvent::Token { kind: nested.spec_open_paren(), index: old(self).pos },
                JsonEvent::Start { kind: JsonSyntaxKind::Tombstone },
            ],
            r.1.node.pos == old(self).events@.len(),
            r.1.list.pos == old(self).events@.len() + 2,
            r.1.state is Start,
            r.1.kind == nested,
            ({
                let now = rest + sequence_markers(r.0) + sequence_markers(r.1);
                &&& final(self).markers_ok(now, n0)
                &&& tombstones(final(self).events@) == t0 + now.len()
            }),
            final(self).pstate() == with_start(with_token(with_start(old(self).pstate()), nested.spec_open_paren())),
    {
        let all = Ghost(rest + sequence_markers(current));
        let mut suspended = current;
        suspended.state = SequenceState::Suspended(marker);
        let ghost with_member = rest + sequence_markers(suspended);
        let ghost s1 = *self;
        proof {
            let all = rest + sequence_markers(current);
            assert(with_member =~= all + match marker {
                Some(m) => seq![m.pos],
                None => Seq::<usize>::empty(),
            });
            assert(s1.markers_ok(with_member, n0)) by {
                assert forall|i: int, j: int| 0 <= i < j < with_member.len() implies with_member[i] < with_member[j] by {
                    if j >= all.len() {
                        assert(all[i] <= all[all.len() - 1]);
                    }
                }
                assert forall|i: int| 0 <= i < with_member.len() implies n0 <= with_member[i] && s1.open_at(#[trigger] with_member[i]) by {
                    if i >= all.len() {
                        assert(all[0] <= all[all.len() - 1]);
                    }
                }
            }
        }
        let next = self.start_sequence(nested);
        proof {
            lemma_prefix_trans(e0, s1.events@, self.events@);
            self.lemma_markers_kept(&s1, with_member, n0);
            let now = with_member + sequence_markers(next);
            assert(sequence_markers(next) =~= seq![next.node.pos, next.list.pos]);
            assert forall|i: int, j: int| 0 <= i < j < now.len() implies now[i] < now[j] by {
                if i < with_member.len() && j >= with_member.len() {
                    assert(s1.open_at(with_member[i]));
                }
            }
            assert forall|i: int| 0 <= i < now.len() implies n0 <= now[i] && self.open_at(#[trigger] now[i]) by {
                if i >= with_member.len() {
                    assert(s1.open_at(with_member[0]));
                }
            }
        }
        (suspended, next)
    }

    /// Completes the list and the node of `current`, after its closing token.
    #[verifier::spinoff_prover]
    fn finish_sequence(
        &mut self,
        current: Sequence,
        Ghost(rest): Ghost<Seq<usize>>,
        Ghost(n0): Ghost<int>,
        Ghost(t0): Ghost<int>,
        Ghost(e0): Ghost<Seq<JsonEvent>>,
    ) -> (node: CompletedMarker)
        requires
            old(self).wf(),
            e0.len() == n0,
            prefix(e0, old(self).events@),
            sequence_markers(current) == seq![current.node.pos, current.list.pos],
            old(self).markers_ok(rest + sequence_markers(current), n0),
            tombstones(old(self).events@) == t0 + rest.len() + 2,
        ensures
            final(self).wf(),
            final(self).tokens == old(self).tokens,
            final(self).options == old(self).options,
            final(self).pos >= old(self).pos,
            prefix(e0, final(self).events@),
            final(self).markers_ok(rest, n0),
            tombstones(final(self).events@) == t0 + rest.len(),
            node == (CompletedMarker { pos: current.node.pos, start: current.node.token, end: final(self).pos }),
            old(self).cur_spec() == current.kind.spec_close_paren() ==> final(self).pos == old(self).pos + 1
                && final(self).diagnostics@ == old(self).diagnostics@
                && final(self).events@ == old(self).events@
                    .update(current.list.pos as int, JsonEvent::Start { kind: current.kind.spec_list_kind() })
                    .push(JsonEvent::Finish)
                    .push(JsonEvent::Token { kind: current.kind.spec_close_paren(), index: old(self).pos })
                    .update(current.node.pos as int, JsonEvent::Start { kind: current.kind.spec_node_kind() })
                    .push(JsonEvent::Finish),
            final(self).pstate() == closed_sequence(old(self).tokens@, old(self).pstate(), current.kind, current.node.pos as int,
                current.list.pos as int),
    {
        let ghost all = rest + sequence_markers(current);
        let ghost s1 = *self;
        proof {
            assert(all.last() == current.list.pos);
        }
        self.complete(current.list, current.kind.list_kind());
        proof {
            self.lemma_markers_after_complete(&s1, all, n0);
            lemma_prefix_through(e0, s1.events@, self.events@, current.list.pos as int);
        }
        let ghost s2 = *self;
        self.expect(current.kind.close_paren());
        proof {
            lemma_prefix_trans(e0, s2.events@, self.events@);
            self.lemma_markers_kept(&s2, all.drop_last(), n0);
        }
        let ghost s3 = *self;
        proof {
            assert(all.drop_last().last() == current.node.pos);
        }
        let node = self.complete(current.node, current.kind.node_kind());
        proof {
            self.lemma_markers_after_complete(&s3, all.drop_last(), n0);
            lemma_prefix_through(e0, s3.events@, self.events@, current.node.pos as int);
            assert(all.drop_last().drop_last() =~= rest);
        }
        node
    }

    /// Parses an array or an object of kind `root_kind`, with the arrays and
    /// objects nested in it. Nested sequences are kept on a stack rather than
    /// parsed by recursion, so that deep nesting does not exhaust the call stack.
    #[verifier::spinoff_prover]
    #[verifier::rlimit(100)]
    fn parse_sequence(&mut self, root_kind: SequenceKind) -> (c: CompletedMarker)
        requires
            old(self).wf(),
            old(self).cur_spec() == root_kind.spec_open_paren(),
        ensures
            final(self).grows(old(self)),
            tombstones(final(self).events@) == tombstones(old(self).events@),
            final(self).pos > old(self).pos,
            c.pos == old(self).events@.len(),
            c.start == old(self).pos,
            c.end == final(self).pos,
            value_end(old(self).tokens@, old(self).pos as int) matches Some(e)
                ==> final(self).pos == e && final(self).diagnostics@ == old(self).diagnostics@
                && final(self).events@ == old(self).events@ + value_events(old(self).tokens@, old(self).pos as int),
            final(self).pstate() == parsed_sequence(old(self).tokens@, old(self).options, old(self).pstate(), root_kind).0,
            node_of(c) == parsed_sequence(old(self).tokens@, old(self).options, old(self).pstate(), root_kind).1,
        decreases old(self).tokens@.len() - old(self).pos, 6int,
    {
        let ghost e0 = self.events@;
        let ghost target = value_events(self.tokens@, self.pos as int);
        let ghost n0 = e0.len() as int;
        let ghost t0 = tombstones(e0);
        let ghost p0 = self.pos;
        let ghost tk = self.tokens@;
        let ghost o = self.options;
        let ghost st0 = self.pstate();
        let ghost goal = parsed_sequence(tk, o, st0, root_kind).0;
        let mut stack: Vec<Sequence> = Vec::new();
        let mut current = self.start_sequence(root_kind);
        proof {
            lemma_sequence_at_open(tk, o, st0, root_kind);
            assert(pending_stack(stack@) =~= Seq::<PendingSequence>::empty());
            lemma_finished_push(tk, o, self.pstate(), pending_stack(stack@), pending_of(current));
            assert(stack_markers(stack@) + sequence_markers(current) =~= seq![current.node.pos, current.list.pos]);
            let t = self.tokens@;
            let kinds = kinds_of(stack@).push(current.kind);
            assert(kinds.drop_last() =~= Seq::<SequenceKind>::empty());
            assert(kinds.last() == root_kind);
            assert(value_end(t, p0 as int) == match items_end(t, p0 + 1, root_kind, true) {
                Some(q) => Some(q + 1),
                None => None::<int>,
            });
            assert(chain_end(t, p0 + 1, kinds, true) == match items_end(t, p0 + 1, root_kind, true) {
                Some(q) => chain_end(t, q + 1, kinds.drop_last(), false),
                None => None,
            });
            if items_end(t, p0 + 1, root_kind, true) is Some {
                let q = items_end(t, p0 + 1, root_kind, true)->0;
                assert(chain_end(t, q + 1, Seq::<SequenceKind>::empty(), false) == Some(q + 1));
            }
            if value_end(t, p0 as int) is Some {
                assert(stack@ =~= Seq::<Sequence>::empty());
                lemma_track_init(t, p0 as int, root_kind, e0, self.events@, current);
            }
        }
        loop
            invariant
                self.wf(),
                self.tokens == old(self).tokens,
                self.options == old(self).options,
                prefix(e0, self.events@),
                n0 == old(self).events@.len(),
                e0 == old(self).events@,
                t0 == tombstones(e0),
                p0 == old(self).pos,
                self.pos > p0,
                self.markers_ok(stack_markers(stack@) + sequence_markers(current), n0),
                (stack_markers(stack@) + sequence_markers(current))[0] == n0,
                (stack_markers(stack@) + sequence_markers(current)).len() >= 2,
                tombstones(self.events@) == t0 + (stack_markers(stack@) + sequence_markers(current)).len(),
                root_sequence(stack@, current).node.token == p0,
                forall|i: int| 0 <= i < stack@.len() ==> !(#[trigger] stack@[i].state is Start),
                value_end(self.tokens@, p0 as int) matches Some(e) ==> self.diagnostics@ == old(self).diagnostics@
                    && chain_end(self.tokens@, self.pos as int, kinds_of(stack@).push(current.kind), current.state is Start) == Some(e)
                    && on_track(self.events@, self.tokens@, self.pos as int, target, n0, stack@, current),
                target == value_events(self.tokens@, p0 as int),
                tk == self.tokens@,
                o == self.options,
                st0.pos == p0,
                st0.events.len() == n0,
                st0 == old(self).pstate(),
                kind_at(tk, p0 as int) == root_kind.spec_open_paren(),
                goal == parsed_sequence(tk, o, st0, root_kind).0,
                finished_sequences(tk, o, self.pstate(), pending_stack(stack@).push(pending_of(current))) == goal,
            decreases 2 * (self.tokens@.len() - self.pos) + stack@.len(),
        {
            let ghost rest = stack_markers(stack@);
            let ghost pos_entry = self.pos;
            let ghost kinds = kinds_of(stack@);
            let ghost ev_top = self.events@;
            let ghost cur_top = current;
            let ghost ps_top = self.pstate();
            let (resumed, first) = self.resume(current, Ghost(rest), Ghost(n0), Ghost(t0), Ghost(e0));
            current = resumed;
            proof {
                lemma_resume_pending(tk, o, ps_top, pending_stack(stack@), pending_of(cur_top), self.pstate(), pending_of(current));
            }
            let ghost ps_items = self.pstate();
            let ghost top = self.pos as int;
            proof {
                assert(kinds.push(current.kind).drop_last() =~= kinds);
                assert(chain_end(self.tokens@, top, kinds.push(current.kind), first)
                    == match items_end(self.tokens@, top, current.kind, first) {
                        Some(q) => chain_end(self.tokens@, q + 1, kinds, false),
                        None => None,
                    });
                if value_end(self.tokens@, p0 as int) is Some {
                    let entry = rest + sequence_markers(cur_top);
                    match cur_top.state {
                        SequenceState::Suspended(Some(m)) => {
                            assert(entry[entry.len() - 1] == m.pos);
                        },
                        _ => {},
                    }
                    lemma_track_resume(ev_top, self.events@, self.tokens@, top, target, n0, stack@, cur_top, current);
                }
            }
            let ghost all = rest + sequence_markers(current);
            proof {
                assert(all[0] == n0) by {
                    if rest.len() == 0 {
                        assert(all[0] == current.node.pos);
                    } else {
                        assert(all[0] == rest[0]);
                    }
                }
            }
            let ghost ev_items = self.events@;
            let recurse = self.parse_items(current.kind, first, Ghost(all), Ghost(n0), Ghost(t0), Ghost(e0));
            let ghost items_pos = self.pos as int;
            let ghost ev_nest = self.events@;
            let ghost ev_nest_state = self.pstate();
            match recurse {
                Some((nested, marker)) => {
                    let ghost old_stack = stack@;
                    let ghost cur_items = current;
                    let (suspended, next) = self.nest(current, nested, marker, Ghost(rest), Ghost(n0), Ghost(t0), Ghost(e0));
                    stack.push(suspended);
                    current = next;
                    proof {
                        lemma_pending_stack_push(old_stack, suspended);
                        lemma_nest_pending(tk, o, ps_items, ev_nest_state, self.pstate(), pending_stack(old_stack),
                            pending_of(cur_items), pending_of(suspended), pending_of(next));
                        let t = self.tokens@;
                        if value_end(t, p0 as int) is Some {
                            let q = items_end(t, top, cur_items.kind, first)->0;
                            let r = value_end(t, items_pos)->0;
                            assert(member_tail(suspended) == (if marker is Some { seq![JsonEvent::Finish] } else { Seq::<JsonEvent>::empty() }));
                            lemma_track_nest(ev_items, ev_nest, self.events@, t, top, items_pos, q, r, target, n0,
                                old_stack, cur_items, marker, nested, suspended, next);
                        }
                        assert(kinds_of(stack@) =~= kinds.push(suspended.kind));
                        let deeper = kinds_of(stack@).push(current.kind);
                        assert(deeper.drop_last() =~= kinds_of(stack@));
                        assert(kinds_of(stack@).drop_last() =~= kinds);
                        assert(value_end(t, items_pos) == match items_end(t, items_pos + 1, nested, true) {
                            Some(q) => Some(q + 1),
                            None => None::<int>,
                        });
                        assert(chain_end(t, items_pos + 1, deeper, true) == match items_end(t, items_pos + 1, nested, true) {
                            Some(q) => chain_end(t, q + 1, kinds_of(stack@), false),
                            None => None,
                        });
                        if items_end(t, items_pos + 1, nested, true) is Some {
                            let r = items_end(t, items_pos + 1, nested, true)->0 + 1;
                            assert(chain_end(t, r, kinds_of(stack@), false) == match items_end(t, r, suspended.kind, false) {
                                Some(q) => chain_end(t, q + 1, kinds, false),
                                None => None,
                            });
                        }
                        assert forall|i: int| 0 <= i < stack@.len() implies !(#[trigger] stack@[i].state is Start) by {
                            if i < old_stack.len() {
                                assert(stack@[i] == old_stack[i]);
                            }
                        }
                        lemma_stack_push(old_stack, suspended);
                        let now = stack_markers(stack@) + sequence_markers(current);
                        assert(now =~= rest + sequence_markers(suspended) + sequence_markers(next));
                        assert(now[0] == all[0]);
                    }
                    continue;
                },
                None => {},
            }
            proof {
                lemma_items_end(self.tokens@, top, current.kind, first);
                if value_end(self.tokens@, p0 as int) is Some {
                    let q = items_end(self.tokens@, top, current.kind, first)->0;
                    lemma_track_items(ev_items, self.events@, self.tokens@, top, q, target, n0, stack@, current);
                }
            }
            let ghost ev_done = self.events@;
            proof {
                assert(all[all.len() - 2] == current.node.pos);
                assert(all[all.len() - 1] == current.list.pos);
                assert(n0 <= all[all.len() - 2] && self.open_at(all[all.len() - 2]));
                assert(n0 <= all[all.len() - 1] && self.open_at(all[all.len() - 1]));
            }
            let node = self.finish_sequence(current, Ghost(rest), Ghost(n0), Ghost(t0), Ghost(e0));
            let ghost before_stack = stack@;
            proof {
                lemma_close_pending(tk, o, ps_items, pending_stack(stack@), pending_of(current), self.pstate());
            }
            proof {
                if value_end(self.tokens@, p0 as int) is Some {
                    let q = items_end(self.tokens@, top, current.kind, first)->0;
                    lemma_track_finish(ev_done, self.events@, q, target, n0, current, chain_events(self.tokens@, q + 1, stack@, false));
                }
            }
            match stack.pop() {
                None => {
                    proof {
                        assert(kinds =~= Seq::<SequenceKind>::empty());
                        assert(pending_stack(before_stack) =~= Seq::<PendingSequence>::empty());
                        assert(self.pstate() == goal);
                        lemma_sequence_at_open(tk, o, st0, root_kind);
                        if value_end(self.tokens@, p0 as int) is Some {
                            let sub = self.events@.subrange(n0, self.events@.len() as int);
                            assert(self.events@ =~= e0 + sub);
                            lemma_tombstones_concat(e0, sub);
                            assert(before_stack =~= Seq::<Sequence>::empty());
                            lemma_track_done(sub, target);
                        }
                    }
                    return node;
                },
                Some(next) => {
                    proof {
                        assert(stack@.push(next) =~= before_stack);
                        lemma_pending_stack_push(stack@, next);
                        assert(stack_markers(before_stack) == stack_markers(stack@) + sequence_markers(next));
                        if stack@.len() > 0 {
                            assert(stack@[0] == before_stack[0]);
                        }
                        assert(kinds_of(stack@).push(next.kind) =~= kinds_of(before_stack));
                        assert(!(before_stack[before_stack.len() - 1].state is Start));
                        assert forall|i: int| 0 <= i < stack@.len() implies !(#[trigger] stack@[i].state is Start) by {
                            assert(stack@[i] == before_stack[i]);
                        }
                        if value_end(self.tokens@, p0 as int) is Some {
                            assert(stack@.push(next) =~= before_stack);
                            assert(frame_marks(target, before_stack[before_stack.len() - 1], n0));
                            assert forall|i: int| 0 <= i < stack@.len() implies frame_marks(target, #[trigger] stack@[i], n0) by {
                                assert(stack@[i] == before_stack[i]);
                            }
                        }
                    }
                    current = next;
                },
            }
        }
    }
}

impl<'t> JsonParser<'t> {
    /// Parses the values that follow the first one, up to the end of the
    /// file, each reported: they are wrapped with the first one in an array.
    #[verifier::spinoff_prover]
    fn parse_rest(&mut self, value: Option<CompletedMarker>)
        requires
            old(self).wf(),
            tombstones(old(self).events@) == 1,
            value matches Some(c) ==> 0 < c.pos <= old(self).events@.len(),
        ensures
            final(self).wf(),
            final(self).tokens == old(self).tokens,
            tombstones(final(self).events@) == 1,
            final(self).cur_spec() == JsonSyntaxKind::Eof,
            final(self).pstate() == parsed_rest(old(self).tokens@, old(self).options, old(self).pstate(), opt_node(value)),
    {
        let ghost t = self.tokens@;
        let ghost o = self.options;
        let list = match value {
            Some(c) => self.precede(c),
            None => self.start(),
        };
        let ghost s1 = self.pstate();
        while !self.at(JsonSyntaxKind::Eof)
            invariant
                self.wf(),
                t == self.tokens@,
                o == self.options,
                parsed_rest_values(t, o, self.pstate()) == parsed_rest_values(t, o, s1),
                self.tokens == old(self).tokens,
                self.open_at(list.pos),
                tombstones(self.events@) == 2,
            decreases self.tokens@.len() - self.pos,
        {
            let ghost before = *self;
            proof {
                lemma_parse_progress(t, o, before.pstate(), SequenceKind::Array, true);
            }
            let range = match self.parse_value() {
                Some(value) => value.range(),
                None => {
                    match self.recover(JsonSyntaxKind::JsonBogusValue, RecoverySet::ValueStart, false) {
                        Some(bogus) => bogus.range(),
                        None => {
                            proof {
                                // at a token that is neither the end nor a value start,
                                // recovery skips at least that token
                                assert(false);
                            }
                            (self.pos, self.pos)
                        },
                    }
                },
            };
            proof {
                self.lemma_open_kept(&before, list.pos);
            }
            self.error(JsonDiagnosticKind::EndOfFileExpected, range);
            proof {
                assert(self.pos > before.pos);
                assert(parsed_rest_values(t, o, before.pstate()) == parsed_rest_values(t, o, self.pstate()));
            }
        }
        let list = self.complete(list, JsonSyntaxKind::JsonArrayElementList);
        let array = self.precede(list);
        self.complete(array, JsonSyntaxKind::JsonArrayValue);
    }
}

/// Completing the root, the only node that is not complete, gives a single tree.
proof fn lemma_finish_root(s: Seq<JsonEvent>)
    requires
        s.len() > 0,
        is_tombstone(s[0]),
        dominated(s),
        depth(s) == 1,
        tombstones(s) == 1,
    ensures
        ({
            let f = s.update(0, JsonEvent::Start { kind: JsonSyntaxKind::JsonRoot }).push(JsonEvent::Finish);
            &&& single_tree(f)
            &&& tombstones(f) == 0
            &&& token_indices(f) == token_indices(s)
        }),
{
    let t = s.update(0, JsonEvent::Start { kind: JsonSyntaxKind::JsonRoot });
    let f = t.push(JsonEvent::Finish);
    lemma_update_start(s, 0, JsonSyntaxKind::JsonRoot);
    lemma_push(t, JsonEvent::Finish);
    assert(s.take(1).drop_last() =~= Seq::<JsonEvent>::empty());
    assert(s.take(1).last() == s[0]);
    assert(tombstones(Seq::<JsonEvent>::empty()) == 0);
    assert(tombstones(s.take(1).drop_last()) == 0);
    assert(tombstones(s.take(1)) == 1);
    assert forall|k: int| 0 < k < f.len() implies #[trigger] depth(f.take(k)) >= 1 by {
        assert(f.take(k) =~= t.take(k));
        assert(depth(t.take(k)) == depth(s.take(k)));
        lemma_tombstones_prefix(s, 1, k);
        assert(depth(s.take(k)) >= tombstones(s.take(k)));
    }
    assert(f[0] is Start);
}

/// Parses JSON from its tokens. The events and the diagnostics are those
/// that [parsed_json] tells step by step. The events form a single tree whose
/// root is a `JsonRoot` node; every token before the first end of the file is
/// in it, in order, with its kind (a keyword used as a property name is an
/// identifier), and every node is complete. Valid JSON gives the tree of its
/// grammar and no diagnostic; after a byte order mark, and with the erroneous
/// tokens of the lexer (which the lexer reports) as values, it still gives no
/// diagnostic; without trailing commas allowed, nothing else parses without a
/// diagnostic.
#[verifier::spinoff_prover]
pub fn parse_json(tokens: &[JsonToken], options: JsonParserOptions) -> (parse: JsonParse)
    requires
        tokens@.len() < usize::MAX,
    ensures
        single_tree(parse.events@),
        parse.events@[0] == (JsonEvent::Start { kind: JsonSyntaxKind::JsonRoot }),
        tombstones(parse.events@) == 0,
        token_indices(parse.events@) == first_indices(first_eof(tokens@)),
        faithful(parse.events@, tokens@),
        valid_json(tokens@) ==> parse.diagnostics@.len() == 0,
        valid_json(tokens@) ==> parse.events@ == seq![JsonEvent::Start { kind: JsonSyntaxKind::JsonRoot }]
            + value_events(tokens@, 0) + seq![JsonEvent::Finish],
        parse.events@ == parsed_json(tokens@, options).events,
        parse.diagnostics@ == parsed_json(tokens@, options).diagnostics,
        !options.allow_trailing_commas && parse.diagnostics@.len() == 0 ==> clean_json(tokens@),
        clean_json(tokens@) ==> parse.diagnostics@.len() == 0,
{
    let mut events: Vec<JsonEvent> = Vec::new();
    events.push(JsonEvent::Start { kind: JsonSyntaxKind::Tombstone });
    proof {
        let e = events@;
        assert(e =~= Seq::<JsonEvent>::empty().push(JsonEvent::Start { kind: JsonSyntaxKind::Tombstone }));
        lemma_push(Seq::<JsonEvent>::empty(), JsonEvent::Start { kind: JsonSyntaxKind::Tombstone });
        assert(token_indices(Seq::<JsonEvent>::empty()) =~= first_indices(0));
        assert forall|k: int| 0 <= k <= 0 implies #[trigger] depth(Seq::<JsonEvent>::empty().take(k))
            >= tombstones(Seq::<JsonEvent>::empty().take(k)) by {
            assert(Seq::<JsonEvent>::empty().take(k) =~= Seq::<JsonEvent>::empty());
        }
    }
    let mut p = JsonParser { tokens, pos: 0, events, diagnostics: Vec::new(), last: None, options };
    proof {
        assert(p.pstate() == initial_state());
    }
    p.eat(JsonSyntaxKind::UnicodeBom);
    let value = match p.parse_value() {
        Some(value) => Some(value),
        None => {
            let range = p.cur_range();
            p.error(JsonDiagnosticKind::ExpectedValue, range);
            p.recover(JsonSyntaxKind::JsonBogusValue, RecoverySet::ValueStart, false)
        },
    };
    if !p.at(JsonSyntaxKind::Eof) {
        p.parse_rest(value);
    }
    let ghost s = p.events@;
    proof {
        lemma_finish_root(s);
        lemma_first_eof(tokens@, p.pos as int);
    }
    p.events.set(0, JsonEvent::Start { kind: JsonSyntaxKind::JsonRoot });
    p.events.push(JsonEvent::Finish);
    proof {
        if valid_json(tokens@) {
            assert(p.events@ =~= seq![JsonEvent::Start { kind: JsonSyntaxKind::JsonRoot }]
                + value_events(tokens@, 0) + seq![JsonEvent::Finish]);
        }
    }
    proof {
        let f = p.events@;
        assert forall|i: int| 0 <= i < f.len() implies match #[trigger] f[i] {
            JsonEvent::Token { kind, index } => index < tokens@.len() && stands_for(kind, tokens@[index as int]),
            _ => true,
        } by {
            if 0 < i < s.len() {
                assert(f[i] == s[i]);
            }
        }
    }
    proof {
        if !options.allow_trailing_commas && p.diagnostics@.len() == 0 {
            law_no_diagnostics_only_for_json(tokens@, options);
        }
        if clean_json(tokens@) {
            law_json_parses_without_diagnostics(tokens@, options);
        }
    }
    JsonParse { events: p.events, diagnostics: p.diagnostics }
}

} // verus!
