//! The collation is an order. Each byte string has a key, a sequence of
//! integers in which a byte that is not a digit stands for its weight and a
//! run of digits for one number (a slot, its length, its digits); the
//! collation of two byte strings is the lexicographic order of their keys.

use vstd::prelude::*;

use core::cmp::Ordering;

use crate::collate::{
    all_digits, collate_at, collate_letters, collate_number, collation, injective_weights, order_of, then_ordering,
};

verus! {

/// Whether the value of every digit is the byte itself.
pub open spec fn digits_are_bytes(d: spec_fn(u8) -> Option<u8>) -> bool {
    forall|c: u8| (#[trigger] (d)(c)) is Some ==> (d)(c)->0 == c
}

/// Whether no byte that is not a digit weighs between two digits.
pub open spec fn digits_grouped(w: spec_fn(u8) -> u8, d: spec_fn(u8) -> Option<u8>) -> bool {
    forall|c: u8, x: u8, y: u8|
        (d)(c) is None && (d)(x) is Some && (d)(y) is Some ==> ((#[trigger] (w)(c) < #[trigger] (w)(x)) <==> ((w)(c)
            < #[trigger] (w)(y)))
}

/// The order between two integers.
pub open spec fn order_int(a: int, b: int) -> Ordering {
    if a < b {
        Ordering::Less
    } else if a == b {
        Ordering::Equal
    } else {
        Ordering::Greater
    }
}

/// The lexicographic order between two sequences of integers; a proper
/// prefix comes first.
pub open spec fn lex(a: Seq<int>, b: Seq<int>) -> Ordering
    decreases a.len(),
{
    if a.len() == 0 {
        if b.len() == 0 {
            Ordering::Equal
        } else {
            Ordering::Less
        }
    } else if b.len() == 0 {
        Ordering::Greater
    } else if a[0] != b[0] {
        order_int(a[0], b[0])
    } else {
        lex(a.drop_first(), b.drop_first())
    }
}

/// The number of digits of `s` from position `i` on, up to the first byte
/// that is not a digit.
pub open spec fn run_len(d: spec_fn(u8) -> Option<u8>, s: Seq<u8>, i: int) -> nat
    decreases s.len() - i,
{
    if 0 <= i < s.len() && (d)(s[i]) is Some {
        1 + run_len(d, s, i + 1)
    } else {
        0
    }
}

pub proof fn lemma_run_len(d: spec_fn(u8) -> Option<u8>, s: Seq<u8>, i: int)
    requires
        0 <= i <= s.len(),
    ensures
        i + run_len(d, s, i) <= s.len(),
        i < s.len() && (d)(s[i]) is Some ==> run_len(d, s, i) >= 1,
        forall|k: int| i <= k < i + run_len(d, s, i) ==> (d)(#[trigger] s[k]) is Some,
        i + run_len(d, s, i) < s.len() ==> (d)(s[i + run_len(d, s, i)]) is None,
    decreases s.len() - i,
{
    if i < s.len() && (d)(s[i]) is Some {
        lemma_run_len(d, s, i + 1);
    }
}

/// A run of digits from `p` to `i` goes on from `i`.
proof fn lemma_run_len_split(d: spec_fn(u8) -> Option<u8>, s: Seq<u8>, p: int, i: int)
    requires
        0 <= p <= i <= s.len(),
        forall|k: int| p <= k < i ==> (d)(#[trigger] s[k]) is Some,
    ensures
        run_len(d, s, p) == (i - p) + run_len(d, s, i),
    decreases i - p,
{
    if p < i {
        lemma_run_len_split(d, s, p + 1, i);
    }
}

/// The length of the run of digits of `s` from `i`, as an integer.
pub open spec fn run_length(d: spec_fn(u8) -> Option<u8>, s: Seq<u8>, i: int) -> int {
    run_len(d, s, i) as int
}

/// The length of `s`, as an integer.
pub open spec fn length(s: Seq<u8>) -> int {
    s.len() as int
}

/// The weight of `c`, as an integer.
pub open spec fn weight_of(w: spec_fn(u8) -> u8, c: u8) -> int {
    (w)(c) as int
}

/// The bytes of `s` as integers.
pub open spec fn bytes_as_ints(s: Seq<u8>) -> Seq<int> {
    s.map_values(|c: u8| c as int)
}

/// The key of `s` from position `i` on: a byte that is not a digit stands
/// for its weight; a run of digits for `slot`, its length and its digits.
pub open spec fn key_from(w: spec_fn(u8) -> u8, d: spec_fn(u8) -> Option<u8>, slot: int, s: Seq<u8>, i: int) -> Seq<int>
    decreases s.len() - i,
{
    if i < 0 || i >= s.len() {
        Seq::empty()
    } else if (d)(s[i]) is None {
        seq![weight_of(w, s[i])] + key_from(w, d, slot, s, i + 1)
    } else {
        let r = run_len(d, s, i);
        proof {
            lemma_run_len(d, s, i);
        }
        seq![slot, run_length(d, s, i)] + bytes_as_ints(s.subrange(i, i + r)) + key_from(w, d, slot, s, i + r)
    }
}

/// The key of `s`.
pub open spec fn collation_key(w: spec_fn(u8) -> u8, d: spec_fn(u8) -> Option<u8>, slot: int, s: Seq<u8>) -> Seq<int> {
    key_from(w, d, slot, s, 0)
}

/// The weight that a number takes among the bytes that are not digits: that
/// of some digit, if there is one.
pub open spec fn number_slot(w: spec_fn(u8) -> u8, d: spec_fn(u8) -> Option<u8>) -> int {
    if has_digit(d) {
        (w)(choose|z: u8| (#[trigger] (d)(z)) is Some) as int
    } else {
        0
    }
}

proof fn lemma_lex_cons(x: int, a: Seq<int>, y: int, b: Seq<int>)
    ensures
        lex(seq![x] + a, seq![y] + b) == if x != y { order_int(x, y) } else { lex(a, b) },
{
    assert((seq![x] + a).drop_first() =~= a);
    assert((seq![y] + b).drop_first() =~= b);
}

proof fn lemma_lex_common_prefix(p: Seq<int>, a: Seq<int>, b: Seq<int>)
    ensures
        lex(p + a, p + b) == lex(a, b),
    decreases p.len(),
{
    if p.len() > 0 {
        let t = p.drop_first();
        assert(p + a =~= seq![p[0]] + (t + a));
        assert(p + b =~= seq![p[0]] + (t + b));
        lemma_lex_cons(p[0], t + a, p[0], t + b);
        lemma_lex_common_prefix(t, a, b);
    } else {
        assert(p + a =~= a);
        assert(p + b =~= b);
    }
}

proof fn lemma_lex_first_difference(a: Seq<int>, x: Seq<int>, b: Seq<int>, y: Seq<int>, k: int)
    requires
        a.len() == b.len(),
        0 <= k < a.len(),
        forall|m: int| 0 <= m < k ==> a[m] == b[m],
        a[k] != b[k],
    ensures
        lex(a + x, b + y) == order_int(a[k], b[k]),
    decreases k,
{
    if k == 0 {
        assert(a + x =~= seq![a[0]] + (a.drop_first() + x));
        assert(b + y =~= seq![b[0]] + (b.drop_first() + y));
        lemma_lex_cons(a[0], a.drop_first() + x, b[0], b.drop_first() + y);
    } else {
        assert(a + x =~= seq![a[0]] + (a.drop_first() + x));
        assert(b + y =~= seq![b[0]] + (b.drop_first() + y));
        lemma_lex_cons(a[0], a.drop_first() + x, b[0], b.drop_first() + y);
        lemma_lex_first_difference(a.drop_first(), x, b.drop_first(), y, k - 1);
    }
}

proof fn lemma_lex_reflexive(a: Seq<int>)
    ensures
        lex(a, a) == Ordering::Equal,
    decreases a.len(),
{
    if a.len() > 0 {
        lemma_lex_reflexive(a.drop_first());
    }
}

proof fn lemma_lex_equal(a: Seq<int>, b: Seq<int>)
    requires
        lex(a, b) == Ordering::Equal,
    ensures
        a == b,
    decreases a.len(),
{
    if a.len() > 0 && b.len() > 0 {
        lemma_lex_equal(a.drop_first(), b.drop_first());
        assert(a =~= seq![a[0]] + a.drop_first());
        assert(b =~= seq![b[0]] + b.drop_first());
    }
}

proof fn lemma_lex_transitive(a: Seq<int>, b: Seq<int>, c: Seq<int>)
    requires
        lex(a, b) == Ordering::Less,
        lex(b, c) == Ordering::Less,
    ensures
        lex(a, c) == Ordering::Less,
    decreases a.len(),
{
    if a.len() > 0 && b.len() > 0 && c.len() > 0 && a[0] == b[0] && b[0] == c[0] {
        lemma_lex_transitive(a.drop_first(), b.drop_first(), c.drop_first());
    }
}

/// Whether some byte is a digit.
pub open spec fn has_digit(d: spec_fn(u8) -> Option<u8>) -> bool {
    exists|z: u8| (#[trigger] (d)(z)) is Some
}

/// Whether `slot` is the weight of some digit.
pub open spec fn slot_of_digits(w: spec_fn(u8) -> u8, d: spec_fn(u8) -> Option<u8>, slot: int) -> bool {
    exists|z: u8| (#[trigger] (d)(z)) is Some && (w)(z) == slot
}

/// The key of the digits of `s` from `p` to `i`, as a whole run.
spec fn run_key(slot: int, s: Seq<u8>, p: int, i: int) -> Seq<int> {
    if p < i {
        seq![slot, i - p] + bytes_as_ints(s.subrange(p, i))
    } else {
        Seq::empty()
    }
}

/// A run of digits from `p` that ends at `i` comes first in the key.
proof fn lemma_key_split(w: spec_fn(u8) -> u8, d: spec_fn(u8) -> Option<u8>, slot: int, s: Seq<u8>, p: int, i: int)
    requires
        0 <= p <= i <= s.len(),
        forall|k: int| p <= k < i ==> (d)(#[trigger] s[k]) is Some,
        i == s.len() || (d)(s[i]) is None,
    ensures
        key_from(w, d, slot, s, p) == run_key(slot, s, p, i) + key_from(w, d, slot, s, i),
{
    if p < i {
        lemma_run_len_split(d, s, p, i);
        lemma_run_len(d, s, i);
        assert(run_len(d, s, i) == 0);
    } else {
        assert(run_key(slot, s, p, i) + key_from(w, d, slot, s, i) =~= key_from(w, d, slot, s, i));
    }
}

/// The key of a run of digits from `p` and what follows it.
proof fn lemma_key_number(w: spec_fn(u8) -> u8, d: spec_fn(u8) -> Option<u8>, slot: int, s: Seq<u8>, p: int)
    requires
        0 <= p < s.len(),
        (d)(s[p]) is Some,
    ensures
        key_from(w, d, slot, s, p) == seq![slot] + (seq![run_length(d, s, p)] + (bytes_as_ints(
            s.subrange(p, p + run_len(d, s, p)),
        ) + key_from(w, d, slot, s, p + run_len(d, s, p)))),
{
    let r = run_len(d, s, p);
    assert(seq![slot, run_length(d, s, p)] + bytes_as_ints(s.subrange(p, p + r)) + key_from(w, d, slot, s, p + r) =~= seq![slot]
        + (seq![run_length(d, s, p)] + (bytes_as_ints(s.subrange(p, p + r)) + key_from(w, d, slot, s, p + r))));
}

/// Two runs of digits from `p` of different lengths: the shorter comes first.
proof fn lemma_runs_differ(w: spec_fn(u8) -> u8, d: spec_fn(u8) -> Option<u8>, slot: int, s1: Seq<u8>, s2: Seq<u8>, p: int)
    requires
        0 <= p < s1.len(),
        p < s2.len(),
        (d)(s1[p]) is Some,
        (d)(s2[p]) is Some,
        run_len(d, s1, p) != run_len(d, s2, p),
    ensures
        lex(key_from(w, d, slot, s1, p), key_from(w, d, slot, s2, p)) == order_int(
            run_length(d, s1, p),
            run_length(d, s2, p),
        ),
{
    let r1 = run_len(d, s1, p);
    let r2 = run_len(d, s2, p);
    let t1 = bytes_as_ints(s1.subrange(p, p + r1)) + key_from(w, d, slot, s1, p + r1);
    let t2 = bytes_as_ints(s2.subrange(p, p + r2)) + key_from(w, d, slot, s2, p + r2);
    lemma_key_number(w, d, slot, s1, p);
    lemma_key_number(w, d, slot, s2, p);
    lemma_lex_cons(slot, seq![run_length(d, s1, p)] + t1, slot, seq![run_length(d, s2, p)] + t2);
    lemma_lex_cons(run_length(d, s1, p), t1, run_length(d, s2, p), t2);
}

/// Two runs of digits from `p` of the same length that first differ at `i`.
proof fn lemma_runs_same_length(
    w: spec_fn(u8) -> u8,
    d: spec_fn(u8) -> Option<u8>,
    slot: int,
    s1: Seq<u8>,
    s2: Seq<u8>,
    p: int,
    i: int,
    e: int,
)
    requires
        0 <= p <= i < e,
        e <= s1.len(),
        e <= s2.len(),
        forall|k: int| p <= k < e ==> (d)(#[trigger] s1[k]) is Some,
        forall|k: int| p <= k < e ==> (d)(#[trigger] s2[k]) is Some,
        e == s1.len() || (d)(s1[e]) is None,
        e == s2.len() || (d)(s2[e]) is None,
        forall|k: int| p <= k < i ==> s1[k] == s2[k],
        s1[i] != s2[i],
    ensures
        lex(key_from(w, d, slot, s1, p), key_from(w, d, slot, s2, p)) == order_of(s1[i], s2[i]),
{
    lemma_key_split(w, d, slot, s1, p, e);
    lemma_key_split(w, d, slot, s2, p, e);
    let a = bytes_as_ints(s1.subrange(p, e));
    let b = bytes_as_ints(s2.subrange(p, e));
    let x = key_from(w, d, slot, s1, e);
    let y = key_from(w, d, slot, s2, e);
    assert(run_key(slot, s1, p, e) + x =~= seq![slot, e - p] + (a + x));
    assert(run_key(slot, s2, p, e) + y =~= seq![slot, e - p] + (b + y));
    lemma_lex_common_prefix(seq![slot, e - p], a + x, b + y);
    lemma_lex_first_difference(a, x, b, y, i - p);
}

/// What the comparison of the runs of digits from `p` comes to, from
/// position `j` on, where the runs first differ at `i` and `number` is the
/// order of their digits so far.
#[verifier::spinoff_prover]
#[verifier::rlimit(30)]
proof fn lemma_number_key(
    w: spec_fn(u8) -> u8,
    d: spec_fn(u8) -> Option<u8>,
    slot: int,
    s1: Seq<u8>,
    s2: Seq<u8>,
    p: int,
    i: int,
    j: int,
    number: Ordering,
)
    requires
        injective_weights(w),
        digits_are_bytes(d),
        digits_grouped(w, d),
        has_digit(d) ==> slot_of_digits(w, d, slot),
        0 <= p <= i <= j,
        j < s1.len(),
        j < s2.len(),
        forall|k: int| p <= k < i ==> s1[k] == s2[k],
        forall|k: int| p <= k < j ==> (d)(#[trigger] s1[k]) is Some,
        forall|k: int| p <= k < j ==> (d)(#[trigger] s2[k]) is Some,
        s1[i] != s2[i],
        j == i ==> number == Ordering::Equal,
        j > i ==> number == order_of(s1[i], s2[i]),
    ensures
        collate_number(w, d, s1, s2, j, j > p, number) == lex(
            key_from(w, d, slot, s1, p),
            key_from(w, d, slot, s2, p),
        ),
    decreases s1.len() - j,
{
    lemma_run_len(d, s1, p);
    lemma_run_len(d, s2, p);
    lemma_run_len(d, s1, j);
    lemma_run_len(d, s2, j);
    lemma_run_len_split(d, s1, p, j);
    lemma_run_len_split(d, s2, p, j);
    let d1 = (d)(s1[j]);
    let d2 = (d)(s2[j]);
    let k1 = key_from(w, d, slot, s1, p);
    let k2 = key_from(w, d, slot, s2, p);
    if d1 is None && d2 is None {
        if j > i {
            lemma_runs_same_length(w, d, slot, s1, s2, p, i, j);
        } else {
            // Both runs end before `i`: the bytes at `i` decide by their weights.
            lemma_key_split(w, d, slot, s1, p, i);
            lemma_key_split(w, d, slot, s2, p, i);
            assert(run_key(slot, s1, p, i) =~= run_key(slot, s2, p, i));
            lemma_lex_common_prefix(run_key(slot, s1, p, i), key_from(w, d, slot, s1, i), key_from(w, d, slot, s2, i));
            lemma_lex_cons(weight_of(w, s1[i]), key_from(w, d, slot, s1, i + 1), weight_of(w, s2[i]), key_from(w, d, slot, s2, i + 1));
            assert((w)(s1[i]) != (w)(s2[i]));
            assert(key_from(w, d, slot, s1, i) == seq![weight_of(w, s1[i])] + key_from(w, d, slot, s1, i + 1));
            assert(lex(k1, k2) == order_int(weight_of(w, s1[i]), weight_of(w, s2[i])));
            assert(collate_letters(w, d, s1, s2, j) == order_of((w)(s1[i]), (w)(s2[i])));
            assert(collate_number(w, d, s1, s2, j, j > p, number) == collate_letters(w, d, s1, s2, j));
        }
    } else if d1 is None {
        if j > p {
            lemma_runs_differ(w, d, slot, s1, s2, p);
        } else {
            // A byte that is not a digit against a number.
            assert((d)(s2[p]) is Some);
            let z = choose|z: u8| (#[trigger] (d)(z)) is Some && (w)(z) == slot;
            lemma_key_number(w, d, slot, s2, p);
            lemma_lex_cons(weight_of(w, s1[p]), key_from(w, d, slot, s1, p + 1), slot, seq![run_length(d, s2, p)] + (bytes_as_ints(s2.subrange(p, p + run_len(d, s2, p))) + key_from(w, d, slot, s2, p + run_len(d, s2, p))));
            assert((w)(s1[p]) != (w)(z));
            assert((w)(s1[p]) != (w)(s2[p]));
            assert(((w)(s1[p]) < (w)(s2[p])) <==> ((w)(s1[p]) < (w)(z)));
            assert(collate_number(w, d, s1, s2, j, j > p, number) == collate_letters(w, d, s1, s2, j));
        }
    } else if d2 is None {
        if j > p {
            lemma_runs_differ(w, d, slot, s1, s2, p);
        } else {
            assert((d)(s1[p]) is Some);
            let z = choose|z: u8| (#[trigger] (d)(z)) is Some && (w)(z) == slot;
            lemma_key_number(w, d, slot, s1, p);
            lemma_lex_cons(slot, seq![run_length(d, s1, p)] + (bytes_as_ints(s1.subrange(p, p + run_len(d, s1, p))) + key_from(w, d, slot, s1, p + run_len(d, s1, p))), weight_of(w, s2[p]), key_from(w, d, slot, s2, p + 1));
            assert((w)(s2[p]) != (w)(z));
            assert((w)(s2[p]) != (w)(s1[p]));
            assert(((w)(s2[p]) < (w)(s1[p])) <==> ((w)(s2[p]) < (w)(z)));
            assert(collate_number(w, d, s1, s2, j, j > p, number) == collate_letters(w, d, s1, s2, j));
        }
    } else {
        let next = then_ordering(number, order_of(d1->0, d2->0));
        assert(d1->0 == s1[j]);
        assert(d2->0 == s2[j]);
        assert(next == order_of(s1[i], s2[i]));
        if j + 1 >= s1.len() && j + 1 >= s2.len() {
            lemma_runs_same_length(w, d, slot, s1, s2, p, i, j + 1);
        } else if j + 1 >= s1.len() {
            if (d)(s2[j + 1]) is Some {
                lemma_run_len(d, s2, j + 1);
                lemma_runs_differ(w, d, slot, s1, s2, p);
                } else {
                lemma_runs_same_length(w, d, slot, s1, s2, p, i, j + 1);
                }
        } else if j + 1 >= s2.len() {
            if (d)(s1[j + 1]) is Some {
                lemma_run_len(d, s1, j + 1);
                lemma_runs_differ(w, d, slot, s1, s2, p);
                } else {
                lemma_runs_same_length(w, d, slot, s1, s2, p, i, j + 1);
                }
        } else {
            lemma_number_key(w, d, slot, s1, s2, p, i, j + 1, next);
        }
    }
}

/// What the collation from position `i` comes to, where the byte strings
/// agree on digits from `p` to `i`.
#[verifier::spinoff_prover]
#[verifier::rlimit(30)]
proof fn lemma_at_key(
    w: spec_fn(u8) -> u8,
    d: spec_fn(u8) -> Option<u8>,
    slot: int,
    s1: Seq<u8>,
    s2: Seq<u8>,
    p: int,
    i: int,
)
    requires
        injective_weights(w),
        digits_are_bytes(d),
        digits_grouped(w, d),
        has_digit(d) ==> slot_of_digits(w, d, slot),
        0 <= p <= i,
        i <= s1.len(),
        i <= s2.len(),
        forall|k: int| p <= k < i ==> s1[k] == s2[k],
        forall|k: int| p <= k < i ==> (d)(#[trigger] s1[k]) is Some,
    ensures
        collate_at(w, d, s1, s2, i, i > p) == lex(key_from(w, d, slot, s1, p), key_from(w, d, slot, s2, p)),
    decreases s1.len() - i,
{
    assert forall|k: int| p <= k < i implies (d)(#[trigger] s2[k]) is Some by {
        assert(s1[k] == s2[k]);
    }
    let k1 = key_from(w, d, slot, s1, p);
    let k2 = key_from(w, d, slot, s2, p);
    if i >= s1.len() && i >= s2.len() {
        // Both end at `i`, with the same bytes from `p`.
        lemma_key_split(w, d, slot, s1, p, i);
        lemma_key_split(w, d, slot, s2, p, i);
        assert(k1 =~= k2);
        lemma_lex_reflexive(k1);
    } else if i >= s1.len() {
        // `s1` ends at `i`.
        assert(key_from(w, d, slot, s2, i).len() > 0);
        if p == i {
            assert(k1.len() == 0);
        } else if (d)(s2[i]) is Some {
            lemma_run_len(d, s1, p);
            lemma_run_len(d, s2, i);
            lemma_run_len_split(d, s1, p, i);
            lemma_run_len_split(d, s2, p, i);
            lemma_runs_differ(w, d, slot, s1, s2, p);
        } else {
            lemma_key_split(w, d, slot, s1, p, i);
            lemma_key_split(w, d, slot, s2, p, i);
            assert(run_key(slot, s1, p, i) =~= run_key(slot, s2, p, i));
            lemma_lex_common_prefix(run_key(slot, s1, p, i), key_from(w, d, slot, s1, i), key_from(w, d, slot, s2, i));
        }
    } else if i >= s2.len() {
        // `s2` ends at `i`.
        assert(key_from(w, d, slot, s1, i).len() > 0);
        if p == i {
            assert(k2.len() == 0);
        } else if (d)(s1[i]) is Some {
            lemma_run_len(d, s1, i);
            lemma_run_len(d, s2, p);
            lemma_run_len_split(d, s1, p, i);
            lemma_run_len_split(d, s2, p, i);
            lemma_runs_differ(w, d, slot, s1, s2, p);
        } else {
            lemma_key_split(w, d, slot, s1, p, i);
            lemma_key_split(w, d, slot, s2, p, i);
            assert(run_key(slot, s1, p, i) =~= run_key(slot, s2, p, i));
            lemma_lex_common_prefix(run_key(slot, s1, p, i), key_from(w, d, slot, s1, i), key_from(w, d, slot, s2, i));
        }
    } else if s1[i] == s2[i] {
        if (d)(s1[i]) is Some {
            lemma_at_key(w, d, slot, s1, s2, p, i + 1);
        } else {
            // A byte that is not a digit ends the run and stands for itself.
            lemma_at_key(w, d, slot, s1, s2, i + 1, i + 1);
            lemma_key_split(w, d, slot, s1, p, i);
            lemma_key_split(w, d, slot, s2, p, i);
            let prefix = run_key(slot, s1, p, i) + seq![weight_of(w, s1[i])];
            assert(run_key(slot, s1, p, i) =~= run_key(slot, s2, p, i));
            assert(k1 =~= prefix + key_from(w, d, slot, s1, i + 1));
            assert(k2 =~= prefix + key_from(w, d, slot, s2, i + 1));
            lemma_lex_common_prefix(prefix, key_from(w, d, slot, s1, i + 1), key_from(w, d, slot, s2, i + 1));
        }
    } else {
        lemma_number_key(w, d, slot, s1, s2, p, i, i, Ordering::Equal);
    }
}

/// With weights that tell bytes apart, digits that are worth their own byte
/// and no byte that is not a digit weighing between two digits, the
/// collation of two byte strings is the lexicographic order of their keys.
pub proof fn law_collation_is_key_order(w: spec_fn(u8) -> u8, d: spec_fn(u8) -> Option<u8>, s1: Seq<u8>, s2: Seq<u8>)
    requires
        injective_weights(w),
        digits_are_bytes(d),
        digits_grouped(w, d),
    ensures
        collation(w, d, s1, s2) == lex(
            collation_key(w, d, number_slot(w, d), s1),
            collation_key(w, d, number_slot(w, d), s2),
        ),
{
    let slot = number_slot(w, d);
    if has_digit(d) {
        let z = choose|z: u8| (#[trigger] (d)(z)) is Some;
        assert((d)(z) is Some && (w)(z) == slot);
    }
    lemma_at_key(w, d, slot, s1, s2, 0, 0);
}

/// Of two sequences of the same length, each with one integer pushed at its
/// end: the order of the sequences, or of the pushed integers where the
/// sequences are equal.
pub proof fn lemma_lex_push(a: Seq<int>, x: int, b: Seq<int>, y: int)
    requires
        a.len() == b.len(),
    ensures
        lex(a.push(x), b.push(y)) == if lex(a, b) == Ordering::Equal { order_int(x, y) } else { lex(a, b) },
    decreases a.len(),
{
    if a.len() == 0 {
        assert(a.push(x) =~= seq![x] + a);
        assert(b.push(y) =~= seq![y] + b);
        lemma_lex_cons(x, a, y, b);
    } else {
        assert(a.push(x) =~= seq![a[0]] + a.drop_first().push(x));
        assert(b.push(y) =~= seq![b[0]] + b.drop_first().push(y));
        assert(a =~= seq![a[0]] + a.drop_first());
        assert(b =~= seq![b[0]] + b.drop_first());
        lemma_lex_cons(a[0], a.drop_first().push(x), b[0], b.drop_first().push(y));
        lemma_lex_cons(a[0], a.drop_first(), b[0], b.drop_first());
        lemma_lex_push(a.drop_first(), x, b.drop_first(), y);
    }
}

/// Under the conditions of [law_collation_is_key_order], two strings of
/// digits of the same length are in the lexicographic order of their bytes.
pub proof fn law_collation_of_numbers_of_one_length(w: spec_fn(u8) -> u8, d: spec_fn(u8) -> Option<u8>, s1: Seq<u8>, s2: Seq<u8>)
    requires
        injective_weights(w),
        digits_are_bytes(d),
        digits_grouped(w, d),
        all_digits(d, s1),
        all_digits(d, s2),
        s1.len() == s2.len(),
    ensures
        collation(w, d, s1, s2) == lex(bytes_as_ints(s1), bytes_as_ints(s2)),
{
    let slot = number_slot(w, d);
    let n = length(s1);
    law_collation_is_key_order(w, d, s1, s2);
    lemma_key_split(w, d, slot, s1, 0, n);
    lemma_key_split(w, d, slot, s2, 0, n);
    if n > 0 {
        let p = seq![slot, n];
        assert(collation_key(w, d, slot, s1) =~= p + bytes_as_ints(s1));
        assert(collation_key(w, d, slot, s2) =~= p + bytes_as_ints(s2));
        lemma_lex_common_prefix(p, bytes_as_ints(s1), bytes_as_ints(s2));
    } else {
        assert(bytes_as_ints(s1) =~= Seq::<int>::empty());
        assert(bytes_as_ints(s2) =~= Seq::<int>::empty());
    }
}

/// Under the same conditions the collation is transitive: it orders byte
/// strings, as a sort needs.
pub proof fn law_collation_transitive(
    w: spec_fn(u8) -> u8,
    d: spec_fn(u8) -> Option<u8>,
    s1: Seq<u8>,
    s2: Seq<u8>,
    s3: Seq<u8>,
)
    requires
        injective_weights(w),
        digits_are_bytes(d),
        digits_grouped(w, d),
        collation(w, d, s1, s2) == Ordering::Less,
        collation(w, d, s2, s3) == Ordering::Less,
    ensures
        collation(w, d, s1, s3) == Ordering::Less,
{
    let slot = number_slot(w, d);
    law_collation_is_key_order(w, d, s1, s2);
    law_collation_is_key_order(w, d, s2, s3);
    law_collation_is_key_order(w, d, s1, s3);
    lemma_lex_transitive(collation_key(w, d, slot, s1), collation_key(w, d, slot, s2), collation_key(w, d, slot, s3));
}

/// Equal keys from `p` on come from equal bytes from `p` on.
#[verifier::spinoff_prover]
#[verifier::rlimit(30)]
proof fn lemma_key_injective(w: spec_fn(u8) -> u8, d: spec_fn(u8) -> Option<u8>, slot: int, s1: Seq<u8>, s2: Seq<u8>, p: int)
    requires
        injective_weights(w),
        has_digit(d) ==> slot_of_digits(w, d, slot),
        0 <= p <= s1.len(),
        p <= s2.len(),
        key_from(w, d, slot, s1, p) == key_from(w, d, slot, s2, p),
    ensures
        s1.skip(p) == s2.skip(p),
    decreases s1.len() - p,
{
    let k1 = key_from(w, d, slot, s1, p);
    let k2 = key_from(w, d, slot, s2, p);
    if p < s1.len() || p < s2.len() {
        assert(p < s1.len() ==> k1.len() > 0);
        assert(p < s2.len() ==> k2.len() > 0);
        let d1 = (d)(s1[p]);
        let d2 = (d)(s2[p]);
        if d1 is None && d2 is None {
            assert(k1[0] == weight_of(w, s1[p]));
            assert(k2[0] == weight_of(w, s2[p]));
            assert(k1.drop_first() =~= key_from(w, d, slot, s1, p + 1));
            assert(k2.drop_first() =~= key_from(w, d, slot, s2, p + 1));
            lemma_key_injective(w, d, slot, s1, s2, p + 1);
            assert(s1.skip(p) =~= seq![s1[p]] + s1.skip(p + 1));
            assert(s2.skip(p) =~= seq![s2[p]] + s2.skip(p + 1));
        } else if d1 is None {
            assert((d)(s2[p]) is Some);
            let z = choose|z: u8| (#[trigger] (d)(z)) is Some && (w)(z) == slot;
            assert(k1[0] == weight_of(w, s1[p]));
            assert(k2[0] == slot);
            assert((w)(s1[p]) == (w)(z));
        } else if d2 is None {
            assert((d)(s1[p]) is Some);
            let z = choose|z: u8| (#[trigger] (d)(z)) is Some && (w)(z) == slot;
            assert(k2[0] == weight_of(w, s2[p]));
            assert(k1[0] == slot);
            assert((w)(s2[p]) == (w)(z));
        } else {
            let r1: int = run_length(d, s1, p);
            let r2: int = run_length(d, s2, p);
            lemma_run_len(d, s1, p);
            lemma_run_len(d, s2, p);
            let a = bytes_as_ints(s1.subrange(p, p + r1));
            let b = bytes_as_ints(s2.subrange(p, p + r2));
            let x = key_from(w, d, slot, s1, p + r1);
            let y = key_from(w, d, slot, s2, p + r2);
            assert(k1 =~= seq![slot, r1] + a + x);
            assert(k2 =~= seq![slot, r2] + b + y);
            assert(k1[1] == r1);
            assert(k2[1] == r2);
            assert(r1 == r2);
            assert(a =~= k1.subrange(2, 2 + r1));
            assert(b =~= k2.subrange(2, 2 + r1));
            assert(x =~= k1.skip(2 + r1));
            assert(y =~= k2.skip(2 + r1));
            assert(s1.subrange(p, p + r1) =~= s2.subrange(p, p + r1)) by {
                assert forall|m: int| 0 <= m < r1 implies #[trigger] s1.subrange(p, p + r1)[m] == s2.subrange(p, p + r1)[m] by {
                    assert(a[m] == b[m]);
                }
            }
            lemma_key_injective(w, d, slot, s1, s2, p + r1);
            assert(s1.skip(p) =~= s1.subrange(p, p + r1) + s1.skip(p + r1));
            assert(s2.skip(p) =~= s2.subrange(p, p + r1) + s2.skip(p + r1));
        }
    }
}

/// Under the same conditions only a byte string itself is in its place.
pub proof fn law_collation_equal_only_itself(w: spec_fn(u8) -> u8, d: spec_fn(u8) -> Option<u8>, s1: Seq<u8>, s2: Seq<u8>)
    requires
        injective_weights(w),
        digits_are_bytes(d),
        digits_grouped(w, d),
        collation(w, d, s1, s2) == Ordering::Equal,
    ensures
        s1 == s2,
{
    let slot = number_slot(w, d);
    if has_digit(d) {
        let z = choose|z: u8| (#[trigger] (d)(z)) is Some;
        assert((d)(z) is Some && (w)(z) == slot);
    }
    law_collation_is_key_order(w, d, s1, s2);
    lemma_lex_equal(collation_key(w, d, slot, s1), collation_key(w, d, slot, s2));
    lemma_key_injective(w, d, slot, s1, s2, 0);
    assert(s1 =~= s1.skip(0));
    assert(s2 =~= s2.skip(0));
}

} // verus!
