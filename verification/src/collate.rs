//! Collation: an order between byte strings that differs from the binary
//! order, such as a natural order for humans.

use vstd::prelude::*;

use core::cmp::Ordering;

use crate::weights::index;
use vstd::string::StringSliceAdditionalSpecFns;

verus! {

/// `o` with `Less` and `Greater` swapped.
pub open spec fn reversed(o: Ordering) -> Ordering {
    match o {
        Ordering::Less => Ordering::Greater,
        Ordering::Equal => Ordering::Equal,
        Ordering::Greater => Ordering::Less,
    }
}

/// `first.then(second)`: `first`, unless it is `Equal`.
pub open spec fn then_ordering(first: Ordering, second: Ordering) -> Ordering {
    if first == Ordering::Equal {
        second
    } else {
        first
    }
}

/// The order between two bytes.
pub open spec fn order_of(a: u8, b: u8) -> Ordering {
    if a < b {
        Ordering::Less
    } else if a == b {
        Ordering::Equal
    } else {
        Ordering::Greater
    }
}

/// A collator defines an order between bytes.
///
/// This order may differ from their binary order. This is often used to
/// provide a more natural order for humans than the binary order represents.
pub trait Collator: Sized {
    /// The weight of each byte.
    spec fn weight_map(&self) -> spec_fn(u8) -> u8;

    /// The digit value of each byte that is a numeric character.
    spec fn digit_map(&self) -> spec_fn(u8) -> Option<u8>;

    /// Returns the weight of the byte `c`.
    ///
    /// A byte with a smaller weight than another one is placed before in the collation order.
    fn weight(&self, c: &u8) -> (w: u8)
        ensures
            w == (self.weight_map())(*c),
    ;

    /// Returns the digit value if `c` is a numeric character.
    ///
    /// This allows the collator to compare numbers in a human way (e.g. `9` < `10`).
    fn as_digit(&self, c: &u8) -> (d: Option<u8>)
        ensures
            d == (self.digit_map())(*c),
    ;

    /// Compares `s1` and `s2` by their bytes, with `self` as collator.
    fn cmp_str(&self, s1: &str, s2: &str) -> (o: Ordering)
        ensures
            o == collation(self.weight_map(), self.digit_map(), s1.spec_bytes(), s2.spec_bytes()),
    {
        self.cmp(s1.as_bytes(), s2.as_bytes())
    }

    /// Compares `s1` and `s2`, with `self` as collator.
    fn cmp_bytes(&self, s1: &[u8], s2: &[u8]) -> (o: Ordering)
        ensures
            o == collation(self.weight_map(), self.digit_map(), s1@, s2@),
    {
        self.cmp(s1, s2)
    }

    /// Returns an [Ordering] between `s1` and `s2`.
    fn cmp(&self, s1: &[u8], s2: &[u8]) -> (o: Ordering)
        ensures
            o == collation(self.weight_map(), self.digit_map(), s1@, s2@),
    {
        let ghost w = self.weight_map();
        let ghost d = self.digit_map();
        let ghost target = collation(w, d, s1@, s2@);
        let n1 = s1.len();
        let n2 = s2.len();
        let mut i: usize = 0;
        let mut prev: Option<u8> = None;
        loop
            invariant
                n1 == s1@.len(),
                n2 == s2@.len(),
                w == self.weight_map(),
                d == self.digit_map(),
                target == collation(w, d, s1@, s2@),
                collate_at(w, d, s1@, s2@, index(i), digit_before(d, prev)) == target,
            decreases n1 - i,
        {
            if i >= n1 && i >= n2 {
                // All characters of `s1` and `s2` are equal.
                return Ordering::Equal;
            } else if i >= n1 {
                // `s1` is a prefix of `s2`.
                return Ordering::Less;
            } else if i >= n2 {
                // `s2` is a prefix of `s1`.
                return Ordering::Greater;
            }
            if s1[i] == s2[i] {
                prev = Some(s1[i]);
                i = i + 1;
                continue;
            }
            // Compare numbers. Leading zeroes are not skipped.
            let mut number = Ordering::Equal;
            let mut j = i;
            let mut decided: Option<Ordering> = None;
            let ghost run = collate_number(w, d, s1@, s2@, index(i), digit_before(d, prev), Ordering::Equal);
            loop
                invariant_except_break
                    decided is None,
                    collate_number(w, d, s1@, s2@, index(j), digit_before(d, prev), number) == run,
                invariant
                    n1 == s1@.len(),
                    n2 == s2@.len(),
                    w == self.weight_map(),
                    d == self.digit_map(),
                    i <= j < n1,
                    j < n2,
                ensures
                    i <= j < n1,
                    j < n2,
                    decided matches Some(o) ==> o == run,
                    decided is None ==> collate_letters(w, d, s1@, s2@, index(j)) == run,
                decreases n1 - j,
            {
                let prev_digit = match prev {
                    Some(c) => self.as_digit(&c).is_some(),
                    None => false,
                };
                match (self.as_digit(&s1[j]), self.as_digit(&s2[j])) {
                    (None, None) => {
                        match number {
                            // The numbers are equal: compare the bytes that are not digits.
                            Ordering::Equal => {},
                            _ => {
                                decided = Some(number);
                            },
                        }
                        break;
                    },
                    (None, Some(_)) => {
                        if prev_digit {
                            // `s2` has more digits than `s1`.
                            decided = Some(Ordering::Less);
                        }
                        break;
                    },
                    (Some(_), None) => {
                        if prev_digit {
                            // `s1` has more digits than `s2`.
                            decided = Some(Ordering::Greater);
                        }
                        break;
                    },
                    (Some(x1), Some(x2)) => {
                        // Even if `number` is not `Equal`, the number of digits decides first.
                        number = then_exec(number, order_exec(x1, x2));
                    },
                }
                if j + 1 >= n1 && j + 1 >= n2 {
                    // Both have the same number of digits.
                    decided = Some(number);
                    break;
                } else if j + 1 >= n1 {
                    decided = Some(
                        if self.as_digit(&s2[j + 1]).is_some() {
                            Ordering::Less
                        } else {
                            then_exec(number, Ordering::Less)
                        },
                    );
                    break;
                } else if j + 1 >= n2 {
                    decided = Some(
                        if self.as_digit(&s1[j + 1]).is_some() {
                            Ordering::Greater
                        } else {
                            then_exec(number, Ordering::Greater)
                        },
                    );
                    break;
                }
                prev = Some(s1[j]);
                j = j + 1;
            }
            match decided {
                Some(o) => {
                    return o;
                },
                None => {},
            }
            let w1 = self.weight(&s1[j]);
            let w2 = self.weight(&s2[j]);
            if w1 < w2 {
                return Ordering::Less;
            } else if w1 > w2 {
                return Ordering::Greater;
            }
            prev = Some(s1[j]);
            i = j + 1;
        }
    }
}

/// The collation order between `s1` and `s2` for the weights `w` and the
/// digit values `d`.
pub open spec fn collation(w: spec_fn(u8) -> u8, d: spec_fn(u8) -> Option<u8>, s1: Seq<u8>, s2: Seq<u8>) -> Ordering {
    collate_at(w, d, s1, s2, 0, false)
}

/// Collation of `s1` and `s2` from position `i` on, where the bytes before
/// `i` are equal; `prev_digit` tells whether the byte before `i` is a digit.
pub open spec fn collate_at(w: spec_fn(u8) -> u8, d: spec_fn(u8) -> Option<u8>, s1: Seq<u8>, s2: Seq<u8>, i: int, prev_digit: bool) -> Ordering
    decreases s1.len() - i, 2int,
{
    if i < 0 || (i >= s1.len() && i >= s2.len()) {
        // All bytes are equal.
        Ordering::Equal
    } else if i >= s1.len() {
        // `s1` is a prefix of `s2`.
        Ordering::Less
    } else if i >= s2.len() {
        // `s2` is a prefix of `s1`.
        Ordering::Greater
    } else if s1[i] == s2[i] {
        collate_at(w, d, s1, s2, i + 1, (d)(s1[i]) is Some)
    } else {
        collate_number(w, d, s1, s2, i, prev_digit, Ordering::Equal)
    }
}

/// Collation inside a run of digits at position `j`: `number` is the order
/// of the digits read so far in this run. Numbers are compared in a human way:
/// the one with more digits is larger, and with as many digits the first
/// differing digit decides. Leading zeroes are not skipped.
pub open spec fn collate_number(
    w: spec_fn(u8) -> u8,
    d: spec_fn(u8) -> Option<u8>,
    s1: Seq<u8>,
    s2: Seq<u8>,
    j: int,
    prev_digit: bool,
    number: Ordering,
) -> Ordering
    decreases s1.len() - j, 1int,
{
    if j < 0 || j >= s1.len() || j >= s2.len() {
        Ordering::Equal
    } else {
        let d1 = (d)(s1[j]);
        let d2 = (d)(s2[j]);
        if d1 is None && d2 is None {
            if number == Ordering::Equal {
                collate_letters(w, d, s1, s2, j)
            } else {
                number
            }
        } else if d1 is None {
            if prev_digit {
                // `s2` has more digits than `s1`.
                Ordering::Less
            } else {
                collate_letters(w, d, s1, s2, j)
            }
        } else if d2 is None {
            if prev_digit {
                // `s1` has more digits than `s2`.
                Ordering::Greater
            } else {
                collate_letters(w, d, s1, s2, j)
            }
        } else {
            let number = then_ordering(number, order_of(d1->0, d2->0));
            if j + 1 >= s1.len() && j + 1 >= s2.len() {
                number
            } else if j + 1 >= s1.len() {
                if (d)(s2[j + 1]) is Some {
                    Ordering::Less
                } else {
                    then_ordering(number, Ordering::Less)
                }
            } else if j + 1 >= s2.len() {
                if (d)(s1[j + 1]) is Some {
                    Ordering::Greater
                } else {
                    then_ordering(number, Ordering::Greater)
                }
            } else {
                collate_number(w, d, s1, s2, j + 1, true, number)
            }
        }
    }
}

/// Collation at position `j` by the weights of the bytes there, going on
/// after `j` when they weigh the same.
pub open spec fn collate_letters(w: spec_fn(u8) -> u8, d: spec_fn(u8) -> Option<u8>, s1: Seq<u8>, s2: Seq<u8>, j: int) -> Ordering
    decreases s1.len() - j, 0int,
{
    if j < 0 || j >= s1.len() || j >= s2.len() {
        Ordering::Equal
    } else {
        let o = order_of((w)(s1[j]), (w)(s2[j]));
        if o != Ordering::Equal {
            o
        } else {
            collate_at(w, d, s1, s2, j + 1, (d)(s1[j]) is Some)
        }
    }
}

/// Whether the byte `prev` (if any) is a digit.
pub open spec fn digit_before(d: spec_fn(u8) -> Option<u8>, prev: Option<u8>) -> bool {
    match prev {
        Some(c) => (d)(c) is Some,
        None => false,
    }
}

fn then_exec(first: Ordering, second: Ordering) -> (r: Ordering)
    ensures
        r == then_ordering(first, second),
{
    match first {
        Ordering::Equal => second,
        _ => first,
    }
}

fn order_exec(a: u8, b: u8) -> (r: Ordering)
    ensures
        r == order_of(a, b),
{
    if a < b {
        Ordering::Less
    } else if a == b {
        Ordering::Equal
    } else {
        Ordering::Greater
    }
}

proof fn lemma_collate_reflexive(w: spec_fn(u8) -> u8, d: spec_fn(u8) -> Option<u8>, s: Seq<u8>, i: int, prev_digit: bool)
    requires
        0 <= i,
    ensures
        collate_at(w, d, s, s, i, prev_digit) == Ordering::Equal,
    decreases s.len() - i,
{
    if i < s.len() {
        lemma_collate_reflexive(w, d, s, i + 1, (d)(s[i]) is Some);
    }
}

/// Every byte string is in the same place as itself.
pub proof fn law_collation_reflexive(w: spec_fn(u8) -> u8, d: spec_fn(u8) -> Option<u8>, s: Seq<u8>)
    ensures
        collation(w, d, s, s) == Ordering::Equal,
{
    lemma_collate_reflexive(w, d, s, 0, false);
}

/// Whether no two different bytes have the same weight.
pub open spec fn injective_weights(w: spec_fn(u8) -> u8) -> bool {
    forall|a: u8, b: u8| #[trigger] (w)(a) == #[trigger] (w)(b) ==> a == b
}

proof fn lemma_reversed_facts(a: Ordering, b: Ordering, x: u8, y: u8)
    ensures
        reversed(then_ordering(a, b)) == then_ordering(reversed(a), reversed(b)),
        order_of(y, x) == reversed(order_of(x, y)),
        reversed(reversed(a)) == a,
        (reversed(a) == Ordering::Equal) == (a == Ordering::Equal),
{
}

proof fn lemma_collate_antisymmetric(
    w: spec_fn(u8) -> u8,
    d: spec_fn(u8) -> Option<u8>,
    s1: Seq<u8>,
    s2: Seq<u8>,
    i: int,
    prev_digit: bool,
    number: Ordering,
    mode: int,
)
    requires
        injective_weights(w),
        0 <= i,
        0 <= mode <= 2,
    ensures
        mode == 2 ==> collate_at(w, d, s2, s1, i, prev_digit) == reversed(collate_at(w, d, s1, s2, i, prev_digit)),
        mode == 1 ==> collate_number(w, d, s2, s1, i, prev_digit, reversed(number))
            == reversed(collate_number(w, d, s1, s2, i, prev_digit, number)),
        mode == 0 ==> collate_letters(w, d, s2, s1, i) == reversed(collate_letters(w, d, s1, s2, i)),
    decreases s1.len() - i, mode,
{
    lemma_reversed_facts(number, number, 0, 0);
    if i < s1.len() && i < s2.len() {
        let c1 = s1[i];
        let c2 = s2[i];
        if mode == 2 {
            if c1 == c2 {
                lemma_collate_antisymmetric(w, d, s1, s2, i + 1, (d)(c1) is Some, number, 2);
            } else {
                lemma_collate_antisymmetric(w, d, s1, s2, i, prev_digit, Ordering::Equal, 1);
            }
        } else if mode == 1 {
            let d1 = (d)(c1);
            let d2 = (d)(c2);
            if (d1 is None || d2 is None) {
                lemma_collate_antisymmetric(w, d, s1, s2, i, prev_digit, number, 0);
            } else {
                let n = then_ordering(number, order_of(d1->0, d2->0));
                lemma_reversed_facts(number, order_of(d1->0, d2->0), d1->0, d2->0);
                lemma_reversed_facts(n, Ordering::Less, 0, 0);
                lemma_reversed_facts(n, Ordering::Greater, 0, 0);
                if i + 1 < s1.len() && i + 1 < s2.len() {
                    lemma_collate_antisymmetric(w, d, s1, s2, i + 1, true, n, 1);
                }
            }
        } else {
            lemma_reversed_facts(number, number, (w)(c1), (w)(c2));
            if c1 == c2 {
                lemma_collate_antisymmetric(w, d, s1, s2, i + 1, (d)(c1) is Some, number, 2);
            } else {
                assert((w)(c1) != (w)(c2));
            }
        }
    }
}

/// With weights that tell bytes apart, swapping the two byte strings
/// reverses their order.
pub proof fn law_collation_antisymmetric(w: spec_fn(u8) -> u8, d: spec_fn(u8) -> Option<u8>, s1: Seq<u8>, s2: Seq<u8>)
    requires
        injective_weights(w),
    ensures
        collation(w, d, s2, s1) == reversed(collation(w, d, s1, s2)),
{
    lemma_collate_antisymmetric(w, d, s1, s2, 0, false, Ordering::Equal, 2);
}

/// Whether every byte of `s` is a digit.
pub open spec fn all_digits(d: spec_fn(u8) -> Option<u8>, s: Seq<u8>) -> bool {
    forall|i: int| 0 <= i < s.len() ==> (d)(#[trigger] s[i]) is Some
}

proof fn lemma_longer_number(w: spec_fn(u8) -> u8, d: spec_fn(u8) -> Option<u8>, s1: Seq<u8>, s2: Seq<u8>, i: int, prev_digit: bool, number: Ordering, in_number: bool)
    requires
        all_digits(d, s1),
        all_digits(d, s2),
        s1.len() < s2.len(),
        0 <= i <= s1.len(),
        in_number ==> i < s1.len(),
    ensures
        !in_number ==> collate_at(w, d, s1, s2, i, prev_digit) == Ordering::Less,
        in_number ==> collate_number(w, d, s1, s2, i, prev_digit, number) == Ordering::Less,
    decreases s1.len() - i, if in_number { 0int } else { 1int },
{
    if i < s1.len() {
        assert((d)(s1[i]) is Some);
        assert((d)(s2[i]) is Some);
        if in_number {
            if i + 1 < s1.len() {
                let d1 = (d)(s1[i]);
                let d2 = (d)(s2[i]);
                lemma_longer_number(w, d, s1, s2, i + 1, true, then_ordering(number, order_of(d1->0, d2->0)), true);
            } else {
                assert((d)(s2[i + 1]) is Some);
            }
        } else if s1[i] == s2[i] {
            lemma_longer_number(w, d, s1, s2, i + 1, true, number, false);
        } else {
            lemma_longer_number(w, d, s1, s2, i, prev_digit, Ordering::Equal, true);
        }
    }
}

/// Numbers are compared in a human way: of two strings of digits, the one
/// with fewer digits comes first (e.g. `9` < `10`).
pub proof fn law_fewer_digits_first(w: spec_fn(u8) -> u8, d: spec_fn(u8) -> Option<u8>, s1: Seq<u8>, s2: Seq<u8>)
    requires
        all_digits(d, s1),
        all_digits(d, s2),
        s1.len() < s2.len(),
    ensures
        collation(w, d, s1, s2) == Ordering::Less,
{
    lemma_longer_number(w, d, s1, s2, 0, false, Ordering::Equal, false);
}

} // verus!
