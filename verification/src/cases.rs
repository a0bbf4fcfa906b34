//! Sets of cases.

use vstd::prelude::*;

use crate::case::{Case, case_bits};
use vstd::std_specs::convert::FromSpecImpl;
use vstd::std_specs::ops::BitOrSpecImpl;

verus! {

/// `b` is a union of bit patterns of cases: whenever it holds the bit of a
/// case, it holds every case that this case includes.
pub open spec fn closed_bits(b: u16) -> bool {
    &&& b < 0x800
    &&& (b & 0x002 != 0 ==> b & 0x003 == 0x003)
    &&& (b & 0x008 != 0 ==> b & 0x00c == 0x00c)
    &&& (b & 0x010 != 0 ==> b & 0x01c == 0x01c)
    &&& (b & 0x020 != 0 ==> b & 0x024 == 0x024)
    &&& (b & 0x040 != 0 ==> b & 0x041 == 0x041)
    &&& (b & 0x080 != 0 ==> b & 0x0c1 == 0x0c1)
    &&& (b & 0x100 != 0 ==> b & 0x141 == 0x141)
    &&& (b & 0x200 != 0 ==> b & 0x241 == 0x241)
    &&& (b & 0x400 != 0 ==> b == 0x7ff)
}

/// The bit pattern of every case is a union of bit patterns.
pub proof fn lemma_case_bits_closed(case: Case)
    ensures
        closed_bits(case_bits(case)),
{
    assert(closed_bits(0x001u16) && closed_bits(0x003u16) && closed_bits(0x004u16) && closed_bits(0x00cu16)
        && closed_bits(0x01cu16) && closed_bits(0x024u16) && closed_bits(0x041u16) && closed_bits(0x0c1u16)
        && closed_bits(0x141u16) && closed_bits(0x241u16) && closed_bits(0x7ffu16)) by (bit_vector);
}

/// Unions of closed bit sets are closed.
pub proof fn lemma_union_closed(a: u16, b: u16)
    requires
        closed_bits(a),
        closed_bits(b),
    ensures
        closed_bits(a | b),
{
    assert(closed_bits(a) && closed_bits(b) ==> closed_bits(a | b)) by (bit_vector);
}

/// Represents a set of cases.
///
/// Some [Case] are already sets of [Case]: [Case::Unknown] includes every
/// case, so adding [Case::Unknown] to a [Cases] supersedes all other cases.
#[derive(Clone, Copy, Debug, Default, PartialEq, Eq, Structural, Hash, PartialOrd, Ord)]
pub struct Cases(u16);

impl View for Cases {
    type V = u16;

    /// The set of cases, one bit per case (see [case_bits]).
    closed spec fn view(&self) -> u16 {
        self.0
    }
}

/// Two sets of cases with the same view are the same set.
pub proof fn lemma_cases_view_equal(a: Cases, b: Cases)
    requires
        a@ == b@,
    ensures
        a == b,
{
}

impl Cases {
    /// Every value of [Cases] is a union of bit patterns of cases.
    #[verifier::type_invariant]
    closed spec fn inv(self) -> bool {
        closed_bits(self.0)
    }

    /// Create an empty set.
    pub fn empty() -> (r: Cases)
        ensures
            r@ == 0,
            closed_bits(r@),
    {
        proof {
            assert(closed_bits(0u16)) by (bit_vector);
        }
        Cases(0)
    }

    /// Returns `true` if the set is empty.
    pub fn is_empty(self) -> (b: bool)
        ensures
            b == (self@ == 0),
    {
        self.0 == 0
    }
    /// Returns `true` if all cases of `other` are contained in the current set.
    pub fn contains<T: IntoCases>(self, other: T) -> (b: bool)
        ensures
            b == (self@ & other.case_set() == other.case_set()),
    {
        let other = other.into_cases();
        self.0 & other.0 == other.0
    }
}

/// A value that stands for a set of cases: a [Case] or a [Cases].
pub trait IntoCases: Sized {
    /// The set of cases, one bit per case.
    spec fn case_set(self) -> u16;

    /// Converts the value into a [Cases].
    fn into_cases(self) -> (c: Cases)
        ensures
            c@ == self.case_set(),
            closed_bits(self.case_set()),
    ;
}

impl IntoCases for Case {
    open spec fn case_set(self) -> u16 {
        case_bits(self)
    }

    fn into_cases(self) -> (c: Cases)
        ensures
            c@ == self.case_set(),
            closed_bits(self.case_set()),
    {
        proof {
            lemma_case_bits_closed(self);
        }
        Cases(self.bits())
    }
}

impl IntoCases for Cases {
    open spec fn case_set(self) -> u16 {
        self@
    }

    fn into_cases(self) -> (c: Cases)
        ensures
            c@ == self.case_set(),
            closed_bits(self.case_set()),
    {
        proof {
            use_type_invariant(&self);
        }
        self
    }
}

impl From<Case> for Cases {
    fn from(value: Case) -> (r: Cases)
        ensures
            r@ == case_bits(value),
            closed_bits(r@),
    {
        value.into_cases()
    }
}

impl FromSpecImpl<Case> for Cases {
    open spec fn obeys_from_spec() -> bool {
        false
    }

    open spec fn from_spec(v: Case) -> Cases {
        arbitrary()
    }
}

impl<Rhs: IntoCases> core::ops::BitOr<Rhs> for Cases {
    type Output = Cases;

    fn bitor(self, rhs: Rhs) -> (r: Cases)
        ensures
            r@ == self@ | rhs.case_set(),
            closed_bits(r@),
    {
        proof {
            use_type_invariant(&self);
        }
        let rhs = rhs.into_cases();
        proof {
            lemma_union_closed(self.0, rhs.0);
        }
        Cases(self.0 | rhs.0)
    }
}

impl<Rhs: IntoCases> BitOrSpecImpl<Rhs> for Cases {
    open spec fn obeys_bitor_spec() -> bool {
        false
    }

    open spec fn bitor_req(self, rhs: Rhs) -> bool {
        true
    }

    open spec fn bitor_spec(self, rhs: Rhs) -> Cases {
        arbitrary()
    }
}

impl core::ops::BitOr for Case {
    type Output = Cases;

    fn bitor(self, rhs: Case) -> (r: Cases)
        ensures
            r@ == case_bits(self) | case_bits(rhs),
            closed_bits(r@),
    {
        Cases::from(self) | rhs
    }
}

impl BitOrSpecImpl for Case {
    open spec fn obeys_bitor_spec() -> bool {
        false
    }

    open spec fn bitor_req(self, rhs: Case) -> bool {
        true
    }

    open spec fn bitor_spec(self, rhs: Case) -> Cases {
        arbitrary()
    }
}

impl<Rhs: IntoCases> core::ops::BitOrAssign<Rhs> for Cases {
    fn bitor_assign(&mut self, rhs: Rhs)
        ensures
            final(self)@ == old(self)@ | rhs.case_set(),
            closed_bits(final(self)@),
    {
        *self = *self | rhs;
    }
}

impl Cases {
    /// An iterator over the cases of the set (see [CasesIterator]).
    pub fn into_iter(self) -> (it: CasesIterator)
        ensures
            it@ == self@,
    {
        proof {
            use_type_invariant(&self);
        }
        CasesIterator { rest: self.0 }
    }
}

/// The case whose own bit is the highest bit of `b`.
pub open spec fn leading_case(b: u16) -> Case {
    if b >= 0x400 {
        Case::Unknown
    } else if b >= 0x200 {
        Case::Camel
    } else if b >= 0x100 {
        Case::Kebab
    } else if b >= 0x080 {
        Case::Snake
    } else if b >= 0x040 {
        Case::Lower
    } else if b >= 0x020 {
        Case::Pascal
    } else if b >= 0x010 {
        Case::Constant
    } else if b >= 0x008 {
        Case::Upper
    } else if b >= 0x004 {
        Case::NumberableCapital
    } else if b >= 0x002 {
        Case::Uni
    } else {
        Case::Number
    }
}

/// The case whose own bit has the index `i`.
pub const LEADING_BIT_INDEX_TO_CASE: [Case; 11] = [
    Case::Number,
    Case::Uni,
    Case::NumberableCapital,
    Case::Upper,
    Case::Constant,
    Case::Pascal,
    Case::Lower,
    Case::Snake,
    Case::Kebab,
    Case::Camel,
    Case::Unknown,
];

/// What one call of [CasesIterator::next] gives when `b` is left to cover:
/// the case it yields, if any, and what is left after it.
pub open spec fn next_of(b: u16) -> (Option<Case>, u16) {
    if b == 0 {
        (None, 0)
    } else {
        (Some(leading_case(b)), b & !case_bits(leading_case(b)))
    }
}

/// An iterator of [Cases].
///
/// The iterator doesn't yield a [Case] that is covered by another [Case] in the iterated set.
/// For example, if the set includes [Case::Constant] and [Case::Upper],
/// the iterator only yields [Case::Constant] because [Case::Constant] covers [Case::Upper].
#[derive(Clone, Copy, Debug)]
pub struct CasesIterator {
    rest: u16,
}

impl View for CasesIterator {
    type V = u16;

    /// The bits that are left to cover.
    closed spec fn view(&self) -> u16 {
        self.rest
    }
}

/// Two iterators of cases with the same view are the same iterator.
pub proof fn lemma_cases_iterator_view_equal(a: CasesIterator, b: CasesIterator)
    requires
        a@ == b@,
    ensures
        a == b,
{
}

impl CasesIterator {
    #[verifier::type_invariant]
    closed spec fn inv(self) -> bool {
        self.rest < 0x800
    }

    /// The next case: the one whose own bit is the highest bit left. Its bits
    /// are removed from what is left.
    pub fn next(&mut self) -> (r: Option<Case>)
        ensures
            old(self)@ == 0 ==> r is None && final(self)@ == 0,
            old(self)@ != 0 ==> r == Some(leading_case(old(self)@))
                && final(self)@ == old(self)@ & !case_bits(leading_case(old(self)@)),
            old(self)@ != 0 ==> iterate(old(self)@) == seq![r->0] + iterate(final(self)@),
            (r, final(self)@) == next_of(old(self)@),
    {
        proof {
            use_type_invariant(&*self);
        }
        if self.rest == 0 {
            None
        } else {
            let b = self.rest;
            let lz = b.leading_zeros();
            proof {
                vstd::std_specs::bits::axiom_u16_leading_zeros(b);
            }
            let k: u16 = 15u16 - (lz as u16);
            proof {
                assert(b != 0 && b < 0x800 && k < 16 && (b >> k) & 1u16 != 0u16 && b >> ((k + 1) as u16) == 0
                    ==> k <= 10
                    && (k == 10 <==> b >= 0x400)
                    && (k == 9 <==> (0x200 <= b && b < 0x400))
                    && (k == 8 <==> (0x100 <= b && b < 0x200))
                    && (k == 7 <==> (0x080 <= b && b < 0x100))
                    && (k == 6 <==> (0x040 <= b && b < 0x080))
                    && (k == 5 <==> (0x020 <= b && b < 0x040))
                    && (k == 4 <==> (0x010 <= b && b < 0x020))
                    && (k == 3 <==> (0x008 <= b && b < 0x010))
                    && (k == 2 <==> (0x004 <= b && b < 0x008))
                    && (k == 1 <==> (0x002 <= b && b < 0x004))
                    && (k == 0 <==> b == 1)) by (bit_vector);
            }
            let case = LEADING_BIT_INDEX_TO_CASE[k as usize];
            let bits = case.bits();
            proof {
                assert(b < 0x800 ==> b & !bits < 0x800) by (bit_vector);
            }
            self.rest = b & !bits;
            proof {
                assert(iterate(b) == seq![case] + iterate(b & !case_bits(leading_case(b))));
            }
            Some(case)
        }
    }

    /// Bounds on the number of remaining cases: at most six.
    pub fn size_hint(&self) -> (r: (usize, Option<usize>))
        ensures
            r == (0usize, Some(6usize)),
    {
        (0, Some(6))
    }
}

/// The own bit of a case: the one bit that no case below it holds.
pub open spec fn own_bit(case: Case) -> u16 {
    match case {
        Case::Number => 0x001,
        Case::Uni => 0x002,
        Case::NumberableCapital => 0x004,
        Case::Upper => 0x008,
        Case::Constant => 0x010,
        Case::Pascal => 0x020,
        Case::Lower => 0x040,
        Case::Snake => 0x080,
        Case::Kebab => 0x100,
        Case::Camel => 0x200,
        Case::Unknown => 0x400,
    }
}

/// The bit pattern of the leading case of `b`, as a function of `b` alone.
pub open spec fn leading_bits(b: u16) -> u16 {
    if b >= 0x400 {
        0x7ff
    } else if b >= 0x200 {
        0x241
    } else if b >= 0x100 {
        0x141
    } else if b >= 0x080 {
        0x0c1
    } else if b >= 0x040 {
        0x041
    } else if b >= 0x020 {
        0x024
    } else if b >= 0x010 {
        0x01c
    } else if b >= 0x008 {
        0x00c
    } else if b >= 0x004 {
        0x004
    } else if b >= 0x002 {
        0x003
    } else {
        0x001
    }
}

/// The own bit of the leading case of `b`, as a function of `b` alone.
pub open spec fn leading_own(b: u16) -> u16 {
    if b >= 0x400 {
        0x400
    } else if b >= 0x200 {
        0x200
    } else if b >= 0x100 {
        0x100
    } else if b >= 0x080 {
        0x080
    } else if b >= 0x040 {
        0x040
    } else if b >= 0x020 {
        0x020
    } else if b >= 0x010 {
        0x010
    } else if b >= 0x008 {
        0x008
    } else if b >= 0x004 {
        0x004
    } else if b >= 0x002 {
        0x002
    } else {
        0x001
    }
}

/// How many of the six chains of the case diagram have a bit in `b`:
/// Number–Lower–Camel, Kebab, Snake, Uni, NumberableCapital–Upper–Constant and Pascal.
pub open spec fn chain_count(b: u16) -> int {
    (if b & 0x241 != 0 { 1int } else { 0int })
    + (if b & 0x100 != 0 { 1int } else { 0int })
    + (if b & 0x080 != 0 { 1int } else { 0int })
    + (if b & 0x002 != 0 { 1int } else { 0int })
    + (if b & 0x01c != 0 { 1int } else { 0int })
    + (if b & 0x020 != 0 { 1int } else { 0int })
}

pub proof fn lemma_leading_is_case(b: u16)
    ensures
        case_bits(leading_case(b)) == leading_bits(b),
        own_bit(leading_case(b)) == leading_own(b),
{
}

/// Removing the leading case of a non-empty set of bits leaves fewer bits.
pub proof fn lemma_remove_leading(b: u16)
    requires
        b != 0,
        b < 0x800,
    ensures
        b & !leading_bits(b) < b,
        b & !leading_bits(b) < leading_own(b),
        leading_own(b) & b == leading_own(b),
        leading_own(b) & leading_bits(b) == leading_own(b),
        b < 0x400 ==> chain_count(b & !leading_bits(b)) < chain_count(b),
        b >= 0x400 ==> b & !leading_bits(b) == 0,
{
    let r = b & !leading_bits(b);
    assert(b != 0 && b < 0x800 ==> (b & !leading_bits(b)) < b && (b & !leading_bits(b)) < leading_own(b)
        && leading_own(b) & b == leading_own(b) && leading_own(b) & leading_bits(b) == leading_own(b)
        && (b >= 0x400 ==> b & !leading_bits(b) == 0)) by (bit_vector);
    assert(b != 0 && b < 0x400 ==> {
        let r = b & !leading_bits(b);
        &&& (r & 0x241 != 0 ==> b & 0x241 != 0)
        &&& (r & 0x100 != 0 ==> b & 0x100 != 0)
        &&& (r & 0x080 != 0 ==> b & 0x080 != 0)
        &&& (r & 0x002 != 0 ==> b & 0x002 != 0)
        &&& (r & 0x01c != 0 ==> b & 0x01c != 0)
        &&& (r & 0x020 != 0 ==> b & 0x020 != 0)
        &&& ((r & 0x241 == 0 && b & 0x241 != 0) || (r & 0x100 == 0 && b & 0x100 != 0)
            || (r & 0x080 == 0 && b & 0x080 != 0) || (r & 0x002 == 0 && b & 0x002 != 0)
            || (r & 0x01c == 0 && b & 0x01c != 0) || (r & 0x020 == 0 && b & 0x020 != 0))
    }) by (bit_vector);
}

/// The cases that iteration over the bits `b` yields, in order.
pub open spec fn iterate(b: u16) -> Seq<Case>
    decreases b,
{
    if b == 0 || b >= 0x800 {
        Seq::empty()
    } else {
        proof {
            lemma_remove_leading(b);
            lemma_leading_is_case(b);
        }
        seq![leading_case(b)] + iterate(b & !case_bits(leading_case(b)))
    }
}

/// The union of the bit patterns of `cases`.
pub open spec fn union_bits(cases: Seq<Case>) -> u16
    decreases cases.len(),
{
    if cases.len() == 0 {
        0
    } else {
        case_bits(cases[0]) | union_bits(cases.drop_first())
    }
}

/// Shape of the bit patterns: the own bit is the highest bit of the pattern
/// and a power of two.
proof fn lemma_case_shape(case: Case)
    ensures
        own_bit(case) & case_bits(case) == own_bit(case),
        case_bits(case) < 2 * own_bit(case),
        own_bit(case) != 0,
        own_bit(case) & sub_one(own_bit(case)) == 0,
        case_bits(case) < 0x800,
{
    assert(0x001u16 & 0x000u16 == 0 && 0x002u16 & 0x001u16 == 0 && 0x004u16 & 0x003u16 == 0
        && 0x008u16 & 0x007u16 == 0 && 0x010u16 & 0x00fu16 == 0 && 0x020u16 & 0x01fu16 == 0
        && 0x040u16 & 0x03fu16 == 0 && 0x080u16 & 0x07fu16 == 0 && 0x100u16 & 0x0ffu16 == 0
        && 0x200u16 & 0x1ffu16 == 0 && 0x400u16 & 0x3ffu16 == 0
        && 0x001u16 & 0x001u16 == 0x001u16 && 0x002u16 & 0x003u16 == 0x002u16
        && 0x004u16 & 0x004u16 == 0x004u16 && 0x008u16 & 0x00cu16 == 0x008u16
        && 0x010u16 & 0x01cu16 == 0x010u16 && 0x020u16 & 0x024u16 == 0x020u16
        && 0x040u16 & 0x041u16 == 0x040u16 && 0x080u16 & 0x0c1u16 == 0x080u16
        && 0x100u16 & 0x141u16 == 0x100u16 && 0x200u16 & 0x241u16 == 0x200u16
        && 0x400u16 & 0x7ffu16 == 0x400u16) by (bit_vector);
}

/// `x - 1` for a non-zero `x`, as a `u16`.
pub open spec fn sub_one(x: u16) -> u16 {
    if x == 0 { 0 } else { (x - 1) as u16 }
}

/// Properties of iteration from `r`, a part of the closed set `b`.
proof fn lemma_iterate_from(b: u16, r: u16)
    requires
        closed_bits(b),
        r & !b == 0,
    ensures
        forall|k: int| 0 <= k < iterate(r).len() ==> #[trigger] case_bits(iterate(r)[k]) & !b == 0,
        forall|k: int| 0 <= k < iterate(r).len() ==> #[trigger] own_bit(iterate(r)[k]) & r == own_bit(iterate(r)[k]),
        r & !union_bits(iterate(r)) == 0,
        union_bits(iterate(r)) & !b == 0,
        forall|i: int, j: int| #![trigger iterate(r)[i], iterate(r)[j]] 0 <= i < j < iterate(r).len() ==>
            own_bit(iterate(r)[j]) & case_bits(iterate(r)[i]) == 0
            && own_bit(iterate(r)[i]) & case_bits(iterate(r)[j]) == 0,
        r < 0x400 ==> iterate(r).len() <= chain_count(r),
        r >= 0x400 ==> iterate(r).len() <= 1,
    decreases r,
{
    assert(closed_bits(b) ==> b < 0x800);
    assert(r & !b == 0 && b < 0x800 ==> r < 0x800) by (bit_vector);
    if r == 0 {
        assert(iterate(r) =~= Seq::<Case>::empty());
        assert(union_bits(Seq::<Case>::empty()) == 0);
        assert(r == 0 ==> r & !0u16 == 0 && 0u16 & !b == 0) by (bit_vector);
    } else {
        lemma_remove_leading(r);
        lemma_leading_is_case(r);
        let q = leading_case(r);
        let rest = r & !case_bits(q);
        assert(rest == r & !leading_bits(r));
        assert(r & !b == 0 ==> (r & !leading_bits(r)) & !b == 0) by (bit_vector);
        lemma_iterate_from(b, rest);
        let ys = iterate(r);
        let tail = iterate(rest);
        assert(ys == seq![q] + tail);
        assert(ys.drop_first() =~= tail);
        lemma_case_shape(q);
        // The leading case lies inside the closed set.
        assert(closed_bits(b) && r & !b == 0 && r != 0 && r < 0x800 ==> leading_bits(r) & !b == 0)
            by (bit_vector);
        let ub = union_bits(tail);
        assert(rest & !ub == 0 && rest == r & !leading_bits(r) ==> r & !(leading_bits(r) | ub) == 0)
            by (bit_vector);
        assert(ub & !b == 0 && leading_bits(r) & !b == 0 ==> (leading_bits(r) | ub) & !b == 0)
            by (bit_vector);
        assert forall|k: int| 0 <= k < ys.len() implies #[trigger] own_bit(ys[k]) & r == own_bit(ys[k]) by {
            if k > 0 {
                let x = own_bit(tail[k - 1]);
                assert(ys[k] == tail[k - 1]);
                assert(x & rest == x && rest == r & !leading_bits(r) ==> x & r == x) by (bit_vector);
            }
        }
        assert forall|k: int| 0 <= k < ys.len() implies #[trigger] case_bits(ys[k]) & !b == 0 by {
            if k > 0 {
                assert(ys[k] == tail[k - 1]);
            }
        }
        assert forall|i: int, j: int| #![trigger ys[i], ys[j]] 0 <= i < j < ys.len() implies
            own_bit(ys[j]) & case_bits(ys[i]) == 0
            && own_bit(ys[i]) & case_bits(ys[j]) == 0 by {
            assert(ys[j] == tail[j - 1]);
            if i > 0 {
                assert(ys[i] == tail[i - 1]);
            } else {
                let y = tail[j - 1];
                let x = own_bit(y);
                let c = case_bits(y);
                let o = leading_own(r);
                lemma_case_shape(y);
                assert(x & rest == x);
                assert(x & rest == x && rest == r & !leading_bits(r) ==> x & leading_bits(r) == 0)
                    by (bit_vector);
                assert(x & rest == x && rest < o ==> x < o) by (bit_vector);
                assert(x != 0 && x & sub_one(x) == 0 && o & sub_one(o) == 0 && x < o && (c as int) < 2 * (x as int)
                    && o & leading_bits(r) == o ==> o & c == 0) by (bit_vector);
            }
        }
        if r >= 0x400 {
            assert(rest == 0);
            assert(tail.len() == 0);
        }
    }
}

/// Iteration over a set of cases yields each case of the set that no other
/// case of the set covers: every yielded case is in the set, together they
/// make up the whole set, no yielded case covers another, and there are at
/// most six of them.
pub proof fn law_iteration_yields_maximal_cases(cases: Cases)
    requires
        closed_bits(cases@),
    ensures
        forall|k: int| 0 <= k < iterate(cases@).len() ==>
            #[trigger] (cases@ & case_bits(iterate(cases@)[k])) == case_bits(iterate(cases@)[k]),
        union_bits(iterate(cases@)) == cases@,
        forall|i: int, j: int| 0 <= i < iterate(cases@).len() && 0 <= j < iterate(cases@).len() && i != j ==>
            (case_bits(#[trigger] iterate(cases@)[i]) & case_bits(#[trigger] iterate(cases@)[j]))
                != case_bits(iterate(cases@)[j]),
        iterate(cases@).len() <= 6,
{
    let b = cases@;
    assert(b & !b == 0) by (bit_vector);
    lemma_iterate_from(b, b);
    let ys = iterate(b);
    assert forall|k: int| 0 <= k < ys.len() implies #[trigger] (b & case_bits(ys[k])) == case_bits(ys[k]) by {
        let c = case_bits(ys[k]);
        assert(c & !b == 0 ==> b & c == c) by (bit_vector);
    }
    let u = union_bits(ys);
    assert(b & !u == 0 && u & !b == 0 ==> u == b) by (bit_vector);
    assert forall|i: int, j: int| 0 <= i < ys.len() && 0 <= j < ys.len() && i != j implies
        (case_bits(#[trigger] ys[i]) & case_bits(#[trigger] ys[j])) != case_bits(ys[j]) by {
        lemma_case_shape(ys[j]);
        lemma_case_shape(ys[i]);
        let ci = case_bits(ys[i]);
        let cj = case_bits(ys[j]);
        let oj = own_bit(ys[j]);
        let oi = own_bit(ys[i]);
        if i < j {
            assert(oj & ci == 0 && oj & cj == oj && oj != 0 ==> ci & cj != cj) by (bit_vector);
        } else {
            assert(oj & ci == 0 && oj & cj == oj && oj != 0 ==> ci & cj != cj) by (bit_vector);
        }
    }
    assert(b < 0x400 ==> chain_count(b) <= 6);
}

/// Whether the case `outer` includes the case `inner`, following the
/// arrows of the case diagram (see [Case]).
pub open spec fn includes(outer: Case, inner: Case) -> bool {
    outer == inner || match outer {
        Case::Unknown => true,
        Case::Camel | Case::Kebab | Case::Snake => inner == Case::Lower || inner == Case::Number,
        Case::Lower | Case::Uni => inner == Case::Number,
        Case::Constant => inner == Case::Upper || inner == Case::NumberableCapital,
        Case::Upper | Case::Pascal => inner == Case::NumberableCapital,
        _ => false,
    }
}

/// A set made of one case contains exactly the cases that this case
/// includes in the case diagram.
pub proof fn law_contains_follows_diagram(outer: Case, inner: Case)
    ensures
        (case_bits(outer) & case_bits(inner) == case_bits(inner)) <==> includes(outer, inner),
{
    assert(
        (0x001u16 & 0x003u16 != 0x003u16) && (0x001u16 & 0x004u16 != 0x004u16) && (0x001u16 & 0x00cu16 != 0x00cu16)
        && (0x001u16 & 0x01cu16 != 0x01cu16) && (0x001u16 & 0x024u16 != 0x024u16) && (0x001u16 & 0x041u16 != 0x041u16)
        && (0x001u16 & 0x0c1u16 != 0x0c1u16) && (0x001u16 & 0x141u16 != 0x141u16) && (0x001u16 & 0x241u16 != 0x241u16)
        && (0x001u16 & 0x7ffu16 != 0x7ffu16)
        && (0x003u16 & 0x001u16 == 0x001u16) && (0x003u16 & 0x004u16 != 0x004u16) && (0x003u16 & 0x00cu16 != 0x00cu16)
        && (0x003u16 & 0x01cu16 != 0x01cu16) && (0x003u16 & 0x024u16 != 0x024u16) && (0x003u16 & 0x041u16 != 0x041u16)
        && (0x003u16 & 0x0c1u16 != 0x0c1u16) && (0x003u16 & 0x141u16 != 0x141u16) && (0x003u16 & 0x241u16 != 0x241u16)
        && (0x003u16 & 0x7ffu16 != 0x7ffu16)
        && (0x004u16 & 0x001u16 != 0x001u16) && (0x004u16 & 0x003u16 != 0x003u16) && (0x004u16 & 0x00cu16 != 0x00cu16)
        && (0x004u16 & 0x01cu16 != 0x01cu16) && (0x004u16 & 0x024u16 != 0x024u16) && (0x004u16 & 0x041u16 != 0x041u16)
        && (0x004u16 & 0x0c1u16 != 0x0c1u16) && (0x004u16 & 0x141u16 != 0x141u16) && (0x004u16 & 0x241u16 != 0x241u16)
        && (0x004u16 & 0x7ffu16 != 0x7ffu16)
        && (0x00cu16 & 0x001u16 != 0x001u16) && (0x00cu16 & 0x003u16 != 0x003u16) && (0x00cu16 & 0x004u16 == 0x004u16)
        && (0x00cu16 & 0x01cu16 != 0x01cu16) && (0x00cu16 & 0x024u16 != 0x024u16) && (0x00cu16 & 0x041u16 != 0x041u16)
        && (0x00cu16 & 0x0c1u16 != 0x0c1u16) && (0x00cu16 & 0x141u16 != 0x141u16) && (0x00cu16 & 0x241u16 != 0x241u16)
        && (0x00cu16 & 0x7ffu16 != 0x7ffu16)
        && (0x01cu16 & 0x001u16 != 0x001u16) && (0x01cu16 & 0x003u16 != 0x003u16) && (0x01cu16 & 0x004u16 == 0x004u16)
        && (0x01cu16 & 0x00cu16 == 0x00cu16) && (0x01cu16 & 0x024u16 != 0x024u16) && (0x01cu16 & 0x041u16 != 0x041u16)
        && (0x01cu16 & 0x0c1u16 != 0x0c1u16) && (0x01cu16 & 0x141u16 != 0x141u16) && (0x01cu16 & 0x241u16 != 0x241u16)
        && (0x01cu16 & 0x7ffu16 != 0x7ffu16)
        && (0x024u16 & 0x001u16 != 0x001u16) && (0x024u16 & 0x003u16 != 0x003u16) && (0x024u16 & 0x004u16 == 0x004u16)
        && (0x024u16 & 0x00cu16 != 0x00cu16) && (0x024u16 & 0x01cu16 != 0x01cu16) && (0x024u16 & 0x041u16 != 0x041u16)
        && (0x024u16 & 0x0c1u16 != 0x0c1u16) && (0x024u16 & 0x141u16 != 0x141u16) && (0x024u16 & 0x241u16 != 0x241u16)
        && (0x024u16 & 0x7ffu16 != 0x7ffu16)
        && (0x041u16 & 0x001u16 == 0x001u16) && (0x041u16 & 0x003u16 != 0x003u16) && (0x041u16 & 0x004u16 != 0x004u16)
        && (0x041u16 & 0x00cu16 != 0x00cu16) && (0x041u16 & 0x01cu16 != 0x01cu16) && (0x041u16 & 0x024u16 != 0x024u16)
        && (0x041u16 & 0x0c1u16 != 0x0c1u16) && (0x041u16 & 0x141u16 != 0x141u16) && (0x041u16 & 0x241u16 != 0x241u16)
        && (0x041u16 & 0x7ffu16 != 0x7ffu16)
        && (0x0c1u16 & 0x001u16 == 0x001u16) && (0x0c1u16 & 0x003u16 != 0x003u16) && (0x0c1u16 & 0x004u16 != 0x004u16)
        && (0x0c1u16 & 0x00cu16 != 0x00cu16) && (0x0c1u16 & 0x01cu16 != 0x01cu16) && (0x0c1u16 & 0x024u16 != 0x024u16)
        && (0x0c1u16 & 0x041u16 == 0x041u16) && (0x0c1u16 & 0x141u16 != 0x141u16) && (0x0c1u16 & 0x241u16 != 0x241u16)
        && (0x0c1u16 & 0x7ffu16 != 0x7ffu16)
        && (0x141u16 & 0x001u16 == 0x001u16) && (0x141u16 & 0x003u16 != 0x003u16) && (0x141u16 & 0x004u16 != 0x004u16)
        && (0x141u16 & 0x00cu16 != 0x00cu16) && (0x141u16 & 0x01cu16 != 0x01cu16) && (0x141u16 & 0x024u16 != 0x024u16)
        && (0x141u16 & 0x041u16 == 0x041u16) && (0x141u16 & 0x0c1u16 != 0x0c1u16) && (0x141u16 & 0x241u16 != 0x241u16)
        && (0x141u16 & 0x7ffu16 != 0x7ffu16)
        && (0x241u16 & 0x001u16 == 0x001u16) && (0x241u16 & 0x003u16 != 0x003u16) && (0x241u16 & 0x004u16 != 0x004u16)
        && (0x241u16 & 0x00cu16 != 0x00cu16) && (0x241u16 & 0x01cu16 != 0x01cu16) && (0x241u16 & 0x024u16 != 0x024u16)
        && (0x241u16 & 0x041u16 == 0x041u16) && (0x241u16 & 0x0c1u16 != 0x0c1u16) && (0x241u16 & 0x141u16 != 0x141u16)
        && (0x241u16 & 0x7ffu16 != 0x7ffu16)
        && (0x7ffu16 & 0x001u16 == 0x001u16) && (0x7ffu16 & 0x003u16 == 0x003u16) && (0x7ffu16 & 0x004u16 == 0x004u16)
        && (0x7ffu16 & 0x00cu16 == 0x00cu16) && (0x7ffu16 & 0x01cu16 == 0x01cu16) && (0x7ffu16 & 0x024u16 == 0x024u16)
        && (0x7ffu16 & 0x041u16 == 0x041u16) && (0x7ffu16 & 0x0c1u16 == 0x0c1u16) && (0x7ffu16 & 0x141u16 == 0x141u16)
        && (0x7ffu16 & 0x241u16 == 0x241u16)
        && (0x001u16 & 0x001u16 == 0x001u16) && (0x003u16 & 0x003u16 == 0x003u16) && (0x004u16 & 0x004u16 == 0x004u16)
        && (0x00cu16 & 0x00cu16 == 0x00cu16) && (0x01cu16 & 0x01cu16 == 0x01cu16) && (0x024u16 & 0x024u16 == 0x024u16)
        && (0x041u16 & 0x041u16 == 0x041u16) && (0x0c1u16 & 0x0c1u16 == 0x0c1u16) && (0x141u16 & 0x141u16 == 0x141u16)
        && (0x241u16 & 0x241u16 == 0x241u16) && (0x7ffu16 & 0x7ffu16 == 0x7ffu16)
    ) by (bit_vector);
}

/// Adding [Case::Unknown] to a set of cases supersedes every other case.
pub proof fn law_unknown_supersedes(cases: Cases)
    requires
        closed_bits(cases@),
    ensures
        cases@ | case_bits(Case::Unknown) == case_bits(Case::Unknown),
{
    let b = cases@;
    assert(b < 0x800 ==> b | 0x7ff == 0x7ff) by (bit_vector);
}

/// The union of the bit patterns of the first `n` cases of `cases`.
pub open spec fn union_prefix(cases: Seq<Case>, n: int) -> u16
    decreases n,
{
    if n <= 0 {
        0
    } else {
        union_prefix(cases, n - 1) | case_bits(cases[n - 1])
    }
}

impl Cases {
    /// The set of all cases in `cases`.
    pub fn from_cases(cases: &[Case]) -> (r: Cases)
        ensures
            r@ == union_prefix(cases@, cases@.len() as int),
            closed_bits(r@),
    {
        let mut result = Cases::empty();
        let mut i: usize = 0;
        while i < cases.len()
            invariant
                i <= cases@.len(),
                result@ == union_prefix(cases@, i as int),
                closed_bits(result@),
            decreases cases.len() - i,
        {
            result = result | cases[i];
            i = i + 1;
        }
        result
    }
}

/// The union of the first `n` cases of a sequence is the union of the
/// sequence cut after `n` cases.
proof fn lemma_union_prefix(cases: Seq<Case>, n: int)
    requires
        0 <= n <= cases.len(),
    ensures
        union_prefix(cases, n) == union_bits(cases.take(n)),
    decreases n,
{
    if n == 0 {
        assert(cases.take(0) =~= Seq::<Case>::empty());
    } else {
        lemma_union_prefix(cases, n - 1);
        assert(cases.take(n) =~= cases.take(n - 1).push(cases[n - 1]));
        lemma_union_push(cases.take(n - 1), cases[n - 1]);
    }
}

proof fn lemma_union_push(cases: Seq<Case>, case: Case)
    ensures
        union_bits(cases.push(case)) == union_bits(cases) | case_bits(case),
    decreases cases.len(),
{
    if cases.len() == 0 {
        assert(cases.push(case).drop_first() =~= Seq::<Case>::empty());
        assert(cases.push(case)[0] == case);
        assert(union_bits(Seq::<Case>::empty()) == 0);
        let c = case_bits(case);
        assert(c | 0u16 == c && 0u16 | c == c) by (bit_vector);
    } else {
        assert(cases.push(case).drop_first() =~= cases.drop_first().push(case));
        lemma_union_push(cases.drop_first(), case);
        assert(cases.push(case)[0] == cases[0]);
        let a = case_bits(cases[0]);
        let u = union_bits(cases.drop_first());
        let c = case_bits(case);
        assert(a | (u | c) == (a | u) | c) by (bit_vector);
    }
}

/// Collecting the cases that iteration over a set yields gives back the
/// set; collecting no case gives the empty set.
pub proof fn law_collecting_iteration_gives_back_the_set(cases: Cases)
    requires
        closed_bits(cases@),
    ensures
        union_prefix(iterate(cases@), iterate(cases@).len() as int) == cases@,
        union_prefix(Seq::<Case>::empty(), 0) == 0,
{
    let ys = iterate(cases@);
    law_iteration_yields_maximal_cases(cases);
    lemma_union_prefix(ys, ys.len() as int);
    assert(ys.take(ys.len() as int) =~= ys);
}

/// The highest bit of a non-empty set of bits.
proof fn lemma_leading_own_bound(b: u16)
    requires
        b != 0,
    ensures
        leading_own(b) <= b,
{
    assert(b != 0 ==> leading_own(b) <= b) by (bit_vector);
}

/// Iteration yields cases by decreasing own bit, which is the leading bit
/// of their bit patterns; so the bit patterns decrease too.
pub proof fn law_iteration_by_decreasing_leading_bit(b: u16)
    ensures
        forall|k: int| 0 <= k && k + 1 < iterate(b).len() ==> own_bit(#[trigger] iterate(b)[k]) > own_bit(iterate(b)[k + 1]),
        forall|k: int| 0 <= k && k + 1 < iterate(b).len() ==> case_bits(#[trigger] iterate(b)[k]) > case_bits(iterate(b)[k + 1]),
        forall|k: int| 0 <= k < iterate(b).len() ==> own_bit(#[trigger] iterate(b)[k]) <= case_bits(iterate(b)[k])
            && case_bits(iterate(b)[k]) < 2 * own_bit(iterate(b)[k]),
    decreases b,
{
    lemma_own_bits_decreasing(b);
    let ys = iterate(b);
    assert forall|k: int| 0 <= k < ys.len() implies own_bit(#[trigger] ys[k]) <= case_bits(ys[k])
        && case_bits(ys[k]) < 2 * own_bit(ys[k]) by {
        lemma_case_shape(ys[k]);
        let o = own_bit(ys[k]);
        let c = case_bits(ys[k]);
        assert(o & c == o ==> o <= c) by (bit_vector);
    }
    assert forall|k: int| 0 <= k && k + 1 < ys.len() implies case_bits(#[trigger] ys[k]) > case_bits(ys[k + 1]) by {
        lemma_case_shape(ys[k]);
        lemma_case_shape(ys[k + 1]);
        let o1 = own_bit(ys[k]);
        let o2 = own_bit(ys[k + 1]);
        let c2 = case_bits(ys[k + 1]);
        assert(o1 & sub_one(o1) == 0 && o2 & sub_one(o2) == 0 && o2 != 0 && o1 > o2 && (c2 as int) < 2 * (o2 as int)
            ==> c2 < o1) by (bit_vector);
        assert(own_bit(ys[k]) <= case_bits(ys[k]));
    }
}

proof fn lemma_own_bits_decreasing(b: u16)
    ensures
        forall|k: int| 0 <= k && k + 1 < iterate(b).len() ==> own_bit(#[trigger] iterate(b)[k]) > own_bit(iterate(b)[k + 1]),
    decreases b,
{
    if b != 0 && b < 0x800 {
        lemma_remove_leading(b);
        lemma_leading_is_case(b);
        let rest = b & !case_bits(leading_case(b));
        lemma_own_bits_decreasing(rest);
        let ys = iterate(b);
        let tail = iterate(rest);
        assert(ys == seq![leading_case(b)] + tail);
        if tail.len() > 0 {
            assert(rest != 0 && rest < 0x800);
            lemma_leading_is_case(rest);
            lemma_leading_own_bound(rest);
            assert(tail[0] == leading_case(rest));
        }
        assert forall|k: int| 0 <= k && k + 1 < ys.len() implies own_bit(#[trigger] ys[k]) > own_bit(ys[k + 1]) by {
            if k > 0 {
                assert(ys[k] == tail[k - 1]);
                assert(ys[k + 1] == tail[k]);
            } else {
                assert(ys[1] == tail[0]);
            }
        }
    }
}

/// Once [CasesIterator::next] has yielded nothing it yields nothing again;
/// while it yields, the cases it yields are those of [iterate], in order.
pub proof fn law_next_walks_iteration(b: u16)
    requires
        b < 0x800,
    ensures
        next_of(b).0 is None ==> next_of(b).1 == b && next_of(next_of(b).1) == next_of(b),
        next_of(b).0 is None <==> iterate(b).len() == 0,
        next_of(b).0 matches Some(c) ==> iterate(b) == seq![c] + iterate(next_of(b).1),
{
}

} // verus!
