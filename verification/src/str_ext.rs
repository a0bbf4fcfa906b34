//! Lowercase conversions that do not allocate when nothing changes, and the
//! natural ASCII order of strings.

use vstd::prelude::*;

use core::cmp::Ordering;
use std::borrow::Cow;

use crate::collate::{
    Collator, all_digits, collation, law_collation_antisymmetric, law_collation_reflexive,
    law_fewer_digits_first, reversed,
};
use crate::unicode::{
    ascii_lower_byte, bytes_to_ascii_lowercase, lowercase_of_str, str_from_utf8, str_to_lowercase,
};
use crate::collate_order::{bytes_as_ints, law_collation_of_numbers_of_one_length, lemma_lex_push, lex, order_int};
use crate::weights::{CldrAsciiCollator, law_cldr_collation_conditions, law_cldr_weights_bijective};
use vstd::string::StringSliceAdditionalSpecFns;
use vstd::utf8::{decode_utf8, encode_utf8, encode_utf8_decode_utf8, valid_utf8};

verus! {

/// Whether some byte of `s` is an ASCII uppercase letter.
pub open spec fn has_ascii_upper_byte(s: Seq<u8>) -> bool {
    exists|i: int| 0 <= i < s.len() && 0x41 <= #[trigger] s[i] && s[i] <= 0x5a
}

/// The lowercase of a byte string: the UTF-8 encoding of the lowercase of
/// the string it encodes, as `String::to_lowercase` gives it; bytes that are
/// not valid UTF-8 have their ASCII uppercase letters lowered.
pub open spec fn lowercase_of_bytes(b: Seq<u8>) -> Seq<u8> {
    if valid_utf8(b) {
        encode_utf8(lowercase_of_str(decode_utf8(b)))
    } else {
        b.map_values(|x: u8| ascii_lower_byte(x))
    }
}

/// Whether a clone-on-write string is borrowed.
pub open spec fn is_borrowed_str(c: &Cow<str>) -> bool {
    c matches Cow::Borrowed(_)
}

/// Whether a clone-on-write byte string is borrowed.
pub open spec fn is_borrowed_bytes(c: &Cow<[u8]>) -> bool {
    c matches Cow::Borrowed(_)
}

/// The natural ASCII order between the byte strings `s1` and `s2`.
pub open spec fn ascii_nat_order(s1: Seq<u8>, s2: Seq<u8>) -> Ordering {
    collation(CldrAsciiCollator.weight_map(), CldrAsciiCollator.digit_map(), s1, s2)
}

/// Operations shared by strings and byte strings.
pub trait StrLikeExtension: ToOwned {
    /// The bytes of the value.
    spec fn byte_seq(&self) -> Seq<u8>;

    /// Returns the bytes of the value.
    fn as_byte_slice(&self) -> (b: &[u8])
        ensures
            b@ == self.byte_seq(),
    ;

    /// Returns the same value as `String::to_lowercase`. The only difference
    /// is that this function returns `Cow`, borrowed when the string is
    /// already in lowercase.
    fn to_ascii_lowercase_cow(&self) -> Cow<'_, Self>;

    /// Compare two strings using a natural ASCII order.
    ///
    /// Uppercase letters come first (e.g. `A` < `a` < `B` < `b`)
    /// and number are compared in a human way (e.g. `9` < `10`).
    fn ascii_nat_cmp(&self, other: &Self) -> (o: Ordering)
        ensures
            o == ascii_nat_order(self.byte_seq(), other.byte_seq()),
    {
        CldrAsciiCollator.cmp(self.as_byte_slice(), other.as_byte_slice())
    }
}

impl StrLikeExtension for str {
    open spec fn byte_seq(&self) -> Seq<u8> {
        self.spec_bytes()
    }

    fn as_byte_slice(&self) -> (b: &[u8]) {
        self.as_bytes()
    }

    fn to_ascii_lowercase_cow(&self) -> (r: Cow<'_, str>)
        ensures
            r@ == lowercase_of_str(self@),
            is_borrowed_str(&r) <==> lowercase_of_str(self@) == self@,
    {
        lowercase_cow(self)
    }
}

impl StrLikeExtension for [u8] {
    open spec fn byte_seq(&self) -> Seq<u8> {
        self@
    }

    fn as_byte_slice(&self) -> (b: &[u8]) {
        self
    }

    fn to_ascii_lowercase_cow(&self) -> (r: Cow<'_, [u8]>)
        ensures
            r@ == lowercase_of_bytes(self@),
            is_borrowed_bytes(&r) <==> lowercase_of_bytes(self@) == self@,
    {
        match str_from_utf8(self) {
            Some(text) => {
                let lowered = str_to_lowercase(text);
                let lowered_bytes = lowered.as_str().as_bytes();
                proof {
                    encode_utf8_decode_utf8(text@);
                }
                if bytes_equal(lowered_bytes, self) {
                    Cow::Borrowed(self)
                } else {
                    Cow::Owned(vstd::slice::slice_to_vec(lowered_bytes))
                }
            },
            None => {
                let mut i: usize = 0;
                while i < self.len()
                    invariant
                        !valid_utf8(self@),
                        i <= self@.len(),
                        forall|j: int| 0 <= j < i ==> !(0x41 <= #[trigger] self@[j] && self@[j] <= 0x5a),
                    decreases self.len() - i,
                {
                    if 0x41 <= self[i] && self[i] <= 0x5a {
                        let r = bytes_to_ascii_lowercase(self);
                        proof {
                            assert(r@[i as int] != self@[i as int]);
                        }
                        return Cow::Owned(r);
                    }
                    i = i + 1;
                }
                assert(self@.map_values(|b: u8| ascii_lower_byte(b)) =~= self@);
                Cow::Borrowed(self)
            },
        }
    }
}

/// Whether the byte strings `a` and `b` are equal.
fn bytes_equal(a: &[u8], b: &[u8]) -> (e: bool)
    ensures
        e == (a@ == b@),
{
    if a.len() != b.len() {
        return false;
    }
    let mut i: usize = 0;
    while i < a.len()
        invariant
            a@.len() == b@.len(),
            i <= a@.len(),
            forall|j: int| 0 <= j < i ==> a@[j] == b@[j],
        decreases a.len() - i,
    {
        if a[i] != b[i] {
            return false;
        }
        i = i + 1;
    }
    assert(a@ =~= b@);
    true
}

/// The lowercase of `s` as `String::to_lowercase` gives it, borrowed when it
/// is `s` itself.
fn lowercase_cow(s: &str) -> (r: Cow<'_, str>)
    ensures
        r@ == lowercase_of_str(s@),
        is_borrowed_str(&r) <==> lowercase_of_str(s@) == s@,
{
    let lowered = str_to_lowercase(s);
    proof {
        encode_utf8_decode_utf8(lowered@);
        encode_utf8_decode_utf8(s@);
    }
    if bytes_equal(lowered.as_str().as_bytes(), s.as_bytes()) {
        Cow::Borrowed(s)
    } else {
        Cow::Owned(lowered)
    }
}

/// Lowercase conversion of strings.
pub trait StrOnlyExtension: ToOwned {
    /// Returns the same value as `String::to_lowercase`. The only difference
    /// is that this function returns `Cow` and does not allocate
    /// if the string is already in lowercase.
    fn to_lowercase_cow(&self) -> Cow<'_, Self>;
}

impl StrOnlyExtension for str {
    fn to_lowercase_cow(&self) -> (r: Cow<'_, str>)
        ensures
            r@ == lowercase_of_str(self@),
            is_borrowed_str(&r) <==> lowercase_of_str(self@) == self@,
    {
        lowercase_cow(self)
    }
}

/// Both [StrOnlyExtension] and [StrLikeExtension].
pub trait StrExtension: StrOnlyExtension + StrLikeExtension {}

impl<T: StrOnlyExtension + StrLikeExtension + ?Sized> StrExtension for T {}

/// In the natural ASCII order every byte string is in the same place as
/// itself, and swapping two byte strings reverses their order.
pub proof fn law_ascii_nat_order_is_antisymmetric(s1: Seq<u8>, s2: Seq<u8>)
    ensures
        ascii_nat_order(s1, s1) == Ordering::Equal,
        ascii_nat_order(s2, s1) == reversed(ascii_nat_order(s1, s2)),
{
    law_cldr_weights_bijective();
    law_collation_reflexive(CldrAsciiCollator.weight_map(), CldrAsciiCollator.digit_map(), s1);
    law_collation_antisymmetric(CldrAsciiCollator.weight_map(), CldrAsciiCollator.digit_map(), s1, s2);
}

/// In the natural ASCII order, of two strings of ASCII digits the one with
/// fewer digits comes first (e.g. `9` < `10`).
pub proof fn law_ascii_nat_order_fewer_digits_first(s1: Seq<u8>, s2: Seq<u8>)
    requires
        forall|i: int| 0 <= i < s1.len() ==> 0x30 <= #[trigger] s1[i] && s1[i] <= 0x39,
        forall|i: int| 0 <= i < s2.len() ==> 0x30 <= #[trigger] s2[i] && s2[i] <= 0x39,
        s1.len() < s2.len(),
    ensures
        ascii_nat_order(s1, s2) == Ordering::Less,
{
    let d = CldrAsciiCollator.digit_map();
    assert(all_digits(d, s1));
    assert(all_digits(d, s2));
    law_fewer_digits_first(CldrAsciiCollator.weight_map(), d, s1, s2);
}

/// The byte of the last decimal digit of `n`.
pub open spec fn last_digit_byte(n: int) -> u8 {
    (0x30 + n % 10) as u8
}

/// The decimal rendering of `n`, without leading zeros.
pub open spec fn decimal(n: int) -> Seq<u8>
    recommends
        n >= 0,
    decreases n,
{
    if n < 10 {
        seq![last_digit_byte(n)]
    } else {
        decimal(n / 10).push(last_digit_byte(n))
    }
}

proof fn lemma_decimal(n: int)
    requires
        n >= 0,
    ensures
        decimal(n).len() >= 1,
        decimal(n).len() == 1 <==> n < 10,
        forall|i: int| 0 <= i < decimal(n).len() ==> 0x30 <= #[trigger] decimal(n)[i] && decimal(n)[i] <= 0x39,
        n < 10 ==> bytes_as_ints(decimal(n)) == seq![48 + n],
        n >= 10 ==> bytes_as_ints(decimal(n)) == bytes_as_ints(decimal(n / 10)).push(48 + n % 10),
    decreases n,
{
    assert(last_digit_byte(n) as int == 48 + n % 10);
    if n < 10 {
        assert(bytes_as_ints(decimal(n)) =~= seq![48 + n]);
    } else {
        lemma_decimal(n / 10);
        assert(bytes_as_ints(decimal(n)) =~= bytes_as_ints(decimal(n / 10)).push(48 + n % 10));
    }
}

/// A decimal rendering with fewer digits renders a smaller number.
proof fn lemma_decimal_shorter(m: int, n: int)
    requires
        0 <= m,
        0 <= n,
        decimal(m).len() < decimal(n).len(),
    ensures
        m < n,
    decreases n,
{
    lemma_decimal(m);
    lemma_decimal(n);
    if m >= 10 {
        lemma_decimal(m / 10);
        lemma_decimal(n / 10);
        lemma_decimal_shorter(m / 10, n / 10);
    }
}

/// Decimal renderings of one length are in the lexicographic order of the
/// numbers they render.
proof fn lemma_decimal_lex(m: int, n: int)
    requires
        0 <= m,
        0 <= n,
        decimal(m).len() == decimal(n).len(),
    ensures
        lex(bytes_as_ints(decimal(m)), bytes_as_ints(decimal(n))) == order_int(m, n),
    decreases m,
{
    lemma_decimal(m);
    lemma_decimal(n);
    if m < 10 {
        let e = Seq::<int>::empty();
        assert(e.push(48 + m) =~= seq![48 + m]);
        assert(e.push(48 + n) =~= seq![48 + n]);
        lemma_lex_push(e, 48 + m, e, 48 + n);
    } else {
        lemma_decimal_lex(m / 10, n / 10);
        lemma_lex_push(bytes_as_ints(decimal(m / 10)), 48 + m % 10, bytes_as_ints(decimal(n / 10)), 48 + n % 10);
    }
}

/// In the natural ASCII order the decimal renderings of two numbers come in
/// the order of the numbers (e.g. `9` < `10` < `100`).
pub proof fn law_ascii_nat_order_of_decimals(m: int, n: int)
    requires
        0 <= m,
        0 <= n,
    ensures
        ascii_nat_order(decimal(m), decimal(n)) == order_int(m, n),
{
    let dm = decimal(m);
    let dn = decimal(n);
    lemma_decimal(m);
    lemma_decimal(n);
    if dm.len() < dn.len() {
        lemma_decimal_shorter(m, n);
        law_ascii_nat_order_fewer_digits_first(dm, dn);
    } else if dn.len() < dm.len() {
        lemma_decimal_shorter(n, m);
        law_ascii_nat_order_fewer_digits_first(dn, dm);
        law_ascii_nat_order_is_antisymmetric(dn, dm);
    } else {
        law_cldr_collation_conditions();
        let d = CldrAsciiCollator.digit_map();
        assert(all_digits(d, dm));
        assert(all_digits(d, dn));
        law_collation_of_numbers_of_one_length(CldrAsciiCollator.weight_map(), d, dm, dn);
        lemma_decimal_lex(m, n);
    }
}

} // verus!
