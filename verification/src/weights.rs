//! Collation weight tables built from ASCII collation tables, and the
//! collation of the Unicode CLDR root table for ASCII.

use vstd::prelude::*;

use crate::collate::{Collator, collation, injective_weights};
use crate::collate_order::{digits_are_bytes, digits_grouped, law_collation_transitive};

use core::cmp::Ordering;

verus! {

broadcast use vstd::array::group_array_axioms;

/// The position `x` as a mathematical integer.
pub open spec fn index(x: usize) -> int {
    x as int
}

/// The last position before `n` at which `table` holds the byte `c`, if any.
pub open spec fn last_position(table: Seq<u8>, c: int, n: int) -> Option<int>
    decreases n,
{
    if n <= 0 {
        None
    } else if table[n - 1] == c {
        Some(n - 1)
    } else {
        last_position(table, c, n - 1)
    }
}

/// The weight that the first `n` positions of `table` give to the byte `c`:
/// the last position of `c` among them, or `0`.
pub open spec fn weight_in_prefix(table: Seq<u8>, c: int, n: int) -> u8 {
    match last_position(table, c, n) {
        Some(i) => i as u8,
        None => 0,
    }
}

/// The weight of the byte `c` in the weight table built from the ASCII
/// collation table `table`: a byte of the table weighs its position there,
/// and each of the last 128 bytes weighs itself.
pub open spec fn weight_table(table: Seq<u8>, c: int) -> u8 {
    if c >= 128 {
        c as u8
    } else {
        weight_in_prefix(table, c, 128)
    }
}

/// Generate the collation weight table from an ASCII collation table.
/// The last 128 bytes are mapped to themselves.
pub fn ascii_collation_weight_from(collation_table: &[u8; 128]) -> (r: [u8; 256])
    ensures
        forall|c: int| 0 <= c < 256 ==> #[trigger] r@[c] == weight_table(collation_table@, c),
{
    let ghost table = collation_table@;
    let mut result: [u8; 256] = vstd::array::array_fill_for_copy_types(0u8);
    assert(forall|c: int| 0 <= c < 256 ==> result@[c] == 0u8);
    let mut i: usize = 0;
    while i < 128
        invariant
            table == collation_table@,
            table.len() == 128,
            i <= 128,
            result@.len() == 256,
            forall|c: int| 0 <= c < 256 ==> #[trigger] result@[c] == weight_in_prefix(table, c, i as int),
        decreases 128 - i,
    {
        let c = collation_table[i];
        result[c as usize] = i as u8;
        proof {
            assert forall|k: int| 0 <= k < 256 implies #[trigger] result@[k] == weight_in_prefix(table, k, i + 1) by {
                assert(last_position(table, k, i + 1) == if table[i as int] == k { Some(i as int) } else { last_position(table, k, i as int) });
            }
        }
        i = i + 1;
    }
    while i < 256
        invariant
            table == collation_table@,
            128 <= i <= 256,
            result@.len() == 256,
            forall|c: int| 0 <= c < 256 ==> #[trigger] result@[c] == (if 128 <= c < i { c as u8 } else { weight_in_prefix(table, c, 128) }),
        decreases 256 - i,
    {
        result[i] = i as u8;
        i = i + 1;
    }
    result
}

/// The ASCII collation of the Unicode CLDR root table: the ASCII characters
/// in their collation order.
pub const CLDR_COLLATION: [u8; 128] = [
    0x00, 0x01, 0x02, 0x03, 0x04, 0x05, 0x06, 0x07, // control characters
    0x08, 0x0e, 0x0f, 0x10, 0x11, 0x12, 0x13, 0x14, // control characters
    0x15, 0x16, 0x17, 0x18, 0x19, 0x1a, 0x1b, 0x1c, // control characters
    0x1d, 0x1e, 0x1f, 0x7f, 0x09, 0x0a, 0x0b, 0x0c, // . . . DEL TAB LF VT FF
    0x0d, 0x20, 0x5f, 0x2d, 0x2c, 0x3b, 0x3a, 0x21, // CR SPACE _ - , ; : !
    0x3f, 0x2e, 0x27, 0x22, 0x28, 0x29, 0x5b, 0x5d, // ? . ' " ( ) [ ]
    0x7b, 0x7d, 0x40, 0x2a, 0x2f, 0x5c, 0x26, 0x23, // { } @ * / \ & #
    0x25, 0x60, 0x5e, 0x2b, 0x3c, 0x3d, 0x3e, 0x7c, // % ` ^ + < = > |
    0x7e, 0x24, 0x30, 0x31, 0x32, 0x33, 0x34, 0x35, // ~ $ 0 1 2 3 4 5
    0x36, 0x37, 0x38, 0x39, 0x41, 0x61, 0x42, 0x62, // 6 7 8 9 A a B b
    0x43, 0x63, 0x44, 0x64, 0x45, 0x65, 0x46, 0x66, // C c D d E e F f
    0x47, 0x67, 0x48, 0x68, 0x49, 0x69, 0x4a, 0x6a, // G g H h I i J j
    0x4b, 0x6b, 0x4c, 0x6c, 0x4d, 0x6d, 0x4e, 0x6e, // K k L l M m N n
    0x4f, 0x6f, 0x50, 0x70, 0x51, 0x71, 0x52, 0x72, // O o P p Q q R r
    0x53, 0x73, 0x54, 0x74, 0x55, 0x75, 0x56, 0x76, // S s T t U u V v
    0x57, 0x77, 0x58, 0x78, 0x59, 0x79, 0x5a, 0x7a, // W w X x Y y Z z
];

/// Unicode collation for ASCII extracted from the CLDR (Common Locale Data Repository) root table.
pub struct CldrAsciiCollator;

impl CldrAsciiCollator {
    /// The weight of every byte: its position in [CLDR_COLLATION] for an
    /// ASCII character, itself otherwise.
    pub fn weights() -> (r: [u8; 256])
        ensures
            forall|c: int| 0 <= c < 256 ==> #[trigger] r@[c] == weight_table(CLDR_COLLATION@, c),
    {
        ascii_collation_weight_from(&CLDR_COLLATION)
    }
}

impl Collator for CldrAsciiCollator {
    open spec fn weight_map(&self) -> spec_fn(u8) -> u8 {
        |c: u8| weight_table(CLDR_COLLATION@, c as int)
    }

    open spec fn digit_map(&self) -> spec_fn(u8) -> Option<u8> {
        |c: u8| if 0x30 <= c && c <= 0x39 { Some(c) } else { None }
    }

    fn weight(&self, c: &u8) -> (w: u8) {
        proof {
            lemma_cldr_weight(*c as int);
        }
        if *c < 128 {
            CLDR_POSITION[*c as usize]
        } else {
            *c
        }
    }

    fn as_digit(&self, c: &u8) -> (d: Option<u8>) {
        if 0x30 <= *c && *c <= 0x39 {
            Some(*c)
        } else {
            None
        }
    }
}

/// Whether `table` holds each of the 128 ASCII bytes exactly once.
pub open spec fn is_ascii_permutation(table: Seq<u8>) -> bool {
    &&& table.len() == 128
    &&& forall|i: int| 0 <= i < 128 ==> #[trigger] table[i] < 128
    &&& forall|i: int, j: int| 0 <= i < 128 && 0 <= j < 128 && #[trigger] table[i] == #[trigger] table[j] ==> i == j
    &&& forall|c: int| 0 <= c < 128 ==> #[trigger] occurs(table, c)
}

/// Whether some byte has the weight `w` in the weight table built from `table`.
pub open spec fn is_weight_of_some_byte(table: Seq<u8>, w: int) -> bool {
    exists|c: int| 0 <= c < 256 && #[trigger] weight_table(table, c) == w
}

/// Whether the byte `c` occurs among the first 128 positions of `table`.
pub open spec fn occurs(table: Seq<u8>, c: int) -> bool {
    exists|i: int| 0 <= i < 128 && #[trigger] table[i] == c
}

proof fn lemma_last_position(table: Seq<u8>, c: int, n: int)
    requires
        0 <= n <= table.len(),
    ensures
        last_position(table, c, n) matches Some(i) ==> 0 <= i < n && table[i] == c,
        last_position(table, c, n) is None ==> forall|i: int| 0 <= i < n ==> table[i] != c,
    decreases n,
{
    if n > 0 {
        lemma_last_position(table, c, n - 1);
    }
}

/// The weight table of an ASCII collation table that holds every ASCII
/// byte once gives every weight to exactly one byte.
pub proof fn law_weight_table_is_bijective(table: Seq<u8>)
    requires
        is_ascii_permutation(table),
    ensures
        forall|w: int| 0 <= w < 256 ==> #[trigger] is_weight_of_some_byte(table, w),
        forall|a: int, b: int| 0 <= a < 256 && 0 <= b < 256 && #[trigger] weight_table(table, a) == #[trigger] weight_table(table, b) ==> a == b,
{
    assert forall|c: int| 0 <= c < 256 implies (c < 128 ==> weight_table(table, c) < 128 && table[weight_table(table, c) as int] == c)
        && (c >= 128 ==> weight_table(table, c) == c) by {
        if c < 128 {
            lemma_last_position(table, c, 128);
            assert(occurs(table, c));
        }
    }
    assert forall|w: int| 0 <= w < 256 implies #[trigger] is_weight_of_some_byte(table, w) by {
        if w < 128 {
            let c = table[w] as int;
            assert(table[w] < 128);
            assert(table[weight_table(table, c) as int] == c);
            assert(weight_table(table, c) == w);
        } else {
            assert(weight_table(table, w) == w);
        }
    }
}

/// The position of each ASCII byte in [CLDR_COLLATION].
const CLDR_POSITION: [u8; 128] = [
        0, 1, 2, 3, 4, 5, 6, 7, 8, 28, 29, 30, 31, 32, 9, 10,
        11, 12, 13, 14, 15, 16, 17, 18, 19, 20, 21, 22, 23, 24, 25, 26,
        33, 39, 43, 55, 65, 56, 54, 42, 44, 45, 51, 59, 36, 35, 41, 52,
        66, 67, 68, 69, 70, 71, 72, 73, 74, 75, 38, 37, 60, 61, 62, 40,
        50, 76, 78, 80, 82, 84, 86, 88, 90, 92, 94, 96, 98, 100, 102, 104,
        106, 108, 110, 112, 114, 116, 118, 120, 122, 124, 126, 46, 53, 47, 58, 34,
        57, 77, 79, 81, 83, 85, 87, 89, 91, 93, 95, 97, 99, 101, 103, 105,
        107, 109, 111, 113, 115, 117, 119, 121, 123, 125, 127, 48, 63, 49, 64, 27,
];

/// Whether the first `n` positions of `table` hold bytes below 128 that
/// `position` maps back to their positions.
spec fn positions_agree(table: Seq<u8>, position: Seq<u8>, n: int) -> bool
    decreases n,
{
    if n <= 0 {
        true
    } else {
        table[n - 1] < 128 && position[table[n - 1] as int] == n - 1 && positions_agree(table, position, n - 1)
    }
}

/// Whether `position` maps the first `n` bytes to positions below 128 that
/// hold them in `table`.
spec fn bytes_agree(table: Seq<u8>, position: Seq<u8>, n: int) -> bool
    decreases n,
{
    if n <= 0 {
        true
    } else {
        position[n - 1] < 128 && table[position[n - 1] as int] == n - 1 && bytes_agree(table, position, n - 1)
    }
}

proof fn lemma_positions_agree(table: Seq<u8>, position: Seq<u8>, n: int)
    requires
        positions_agree(table, position, n),
    ensures
        forall|i: int| 0 <= i < n ==> #[trigger] table[i] < 128 && position[table[i] as int] == i,
    decreases n,
{
    if n > 0 {
        lemma_positions_agree(table, position, n - 1);
    }
}

proof fn lemma_bytes_agree(table: Seq<u8>, position: Seq<u8>, n: int)
    requires
        bytes_agree(table, position, n),
    ensures
        forall|c: int| 0 <= c < n ==> #[trigger] position[c] < 128 && table[position[c] as int] == c,
    decreases n,
{
    if n > 0 {
        lemma_bytes_agree(table, position, n - 1);
    }
}

/// [CLDR_POSITION] is the inverse of [CLDR_COLLATION].
proof fn lemma_cldr_positions()
    ensures
        forall|i: int| 0 <= i < 128 ==> #[trigger] CLDR_COLLATION@[i] < 128
            && CLDR_POSITION@[CLDR_COLLATION@[i] as int] == i,
        forall|c: int| 0 <= c < 128 ==> #[trigger] CLDR_POSITION@[c] < 128
            && CLDR_COLLATION@[CLDR_POSITION@[c] as int] == c,
{
    let table = CLDR_COLLATION@;
    let position = CLDR_POSITION@;
    // The agreement is checked sixteen positions at a time.
    assert(positions_agree(table, position, 16)) by {
        reveal_with_fuel(positions_agree, 17);
    }
    assert(positions_agree(table, position, 32)) by {
        reveal_with_fuel(positions_agree, 17);
    }
    assert(positions_agree(table, position, 48)) by {
        reveal_with_fuel(positions_agree, 17);
    }
    assert(positions_agree(table, position, 64)) by {
        reveal_with_fuel(positions_agree, 17);
    }
    assert(positions_agree(table, position, 80)) by {
        reveal_with_fuel(positions_agree, 17);
    }
    assert(positions_agree(table, position, 96)) by {
        reveal_with_fuel(positions_agree, 17);
    }
    assert(positions_agree(table, position, 112)) by {
        reveal_with_fuel(positions_agree, 17);
    }
    assert(positions_agree(table, position, 128)) by {
        reveal_with_fuel(positions_agree, 17);
    }
    assert(bytes_agree(table, position, 16)) by {
        reveal_with_fuel(bytes_agree, 17);
    }
    assert(bytes_agree(table, position, 32)) by {
        reveal_with_fuel(bytes_agree, 17);
    }
    assert(bytes_agree(table, position, 48)) by {
        reveal_with_fuel(bytes_agree, 17);
    }
    assert(bytes_agree(table, position, 64)) by {
        reveal_with_fuel(bytes_agree, 17);
    }
    assert(bytes_agree(table, position, 80)) by {
        reveal_with_fuel(bytes_agree, 17);
    }
    assert(bytes_agree(table, position, 96)) by {
        reveal_with_fuel(bytes_agree, 17);
    }
    assert(bytes_agree(table, position, 112)) by {
        reveal_with_fuel(bytes_agree, 17);
    }
    assert(bytes_agree(table, position, 128)) by {
        reveal_with_fuel(bytes_agree, 17);
    }
    lemma_positions_agree(table, position, 128);
    lemma_bytes_agree(table, position, 128);
}

/// The weight of a byte in the CLDR collation: its position in
/// [CLDR_COLLATION] for an ASCII byte, itself otherwise.
proof fn lemma_cldr_weight(c: int)
    requires
        0 <= c < 256,
    ensures
        weight_table(CLDR_COLLATION@, c) == if c < 128 { CLDR_POSITION@[c] } else { c as u8 },
{
    if c < 128 {
        lemma_cldr_positions();
        let table = CLDR_COLLATION@;
        let p = CLDR_POSITION@[c] as int;
        lemma_last_position(table, c, 128);
        match last_position(table, c, 128) {
            Some(i) => {
                assert(CLDR_POSITION@[table[i] as int] == i);
            },
            None => {
                assert(table[p] == c);
            },
        }
    }
}

/// [CLDR_COLLATION] holds each ASCII byte exactly once.
pub proof fn law_cldr_collation_is_permutation()
    ensures
        is_ascii_permutation(CLDR_COLLATION@),
{
    let table = CLDR_COLLATION@;
    let position = CLDR_POSITION@;
    lemma_cldr_positions();
    assert forall|i: int, j: int| 0 <= i < 128 && 0 <= j < 128 && #[trigger] table[i] == #[trigger] table[j] implies i == j by {
        assert(position[table[i] as int] == i);
        assert(position[table[j] as int] == j);
    }
    assert forall|c: int| 0 <= c < 128 implies #[trigger] occurs(table, c) by {
        assert(table[position[c] as int] == c);
    }
}

/// The CLDR collator gives every weight to exactly one byte; in particular
/// no two bytes weigh the same.
pub proof fn law_cldr_weights_bijective()
    ensures
        forall|w: int| 0 <= w < 256 ==> #[trigger] is_weight_of_some_byte(CLDR_COLLATION@, w),
        injective_weights(CldrAsciiCollator.weight_map()),
{
    law_cldr_collation_is_permutation();
    law_weight_table_is_bijective(CLDR_COLLATION@);
    let w = CldrAsciiCollator.weight_map();
    assert forall|a: u8, b: u8| #[trigger] (w)(a) == #[trigger] (w)(b) implies a == b by {
        assert(weight_table(CLDR_COLLATION@, a as int) == weight_table(CLDR_COLLATION@, b as int));
    }
}

/// The digits weigh 66 to 75 in the CLDR collation, in their order; every
/// other byte weighs less or more.
proof fn lemma_cldr_digit_weights(c: u8)
    ensures
        0x30 <= c <= 0x39 ==> weight_table(CLDR_COLLATION@, c as int) == 66 + (c - 0x30),
        !(0x30 <= c <= 0x39) ==> weight_table(CLDR_COLLATION@, c as int) < 66 || weight_table(
            CLDR_COLLATION@,
            c as int,
        ) > 75,
{
    let table = CLDR_COLLATION@;
    assert(table[66] == 0x30);
    assert(table[67] == 0x31);
    assert(table[68] == 0x32);
    assert(table[69] == 0x33);
    assert(table[70] == 0x34);
    assert(table[71] == 0x35);
    assert(table[72] == 0x36);
    assert(table[73] == 0x37);
    assert(table[74] == 0x38);
    assert(table[75] == 0x39);
    assert(forall|k: int| 0 <= k < 10 ==> #[trigger] table[66 + k] == 0x30 + k);
    lemma_cldr_weight(c as int);
    if c < 128 {
        lemma_cldr_positions();
        law_cldr_collation_is_permutation();
        let p = CLDR_POSITION@[c as int] as int;
        assert(table[p] == c);
        if 0x30 <= c <= 0x39 {
            let q = 66 + (c - 0x30);
            assert(table[q] == c);
        }
    }
}

/// The CLDR collator meets the conditions under which its collation is an
/// order: its weights tell bytes apart, its digits are worth their own byte,
/// and no other byte weighs between two digits.
pub proof fn law_cldr_collation_conditions()
    ensures
        injective_weights(CldrAsciiCollator.weight_map()),
        digits_are_bytes(CldrAsciiCollator.digit_map()),
        digits_grouped(CldrAsciiCollator.weight_map(), CldrAsciiCollator.digit_map()),
{
    law_cldr_weights_bijective();
    let w = CldrAsciiCollator.weight_map();
    let d = CldrAsciiCollator.digit_map();
    assert forall|c: u8, x: u8, y: u8| (d)(c) is None && (d)(x) is Some && (d)(y) is Some implies ((#[trigger] (w)(c)
        < #[trigger] (w)(x)) <==> ((w)(c) < #[trigger] (w)(y))) by {
        lemma_cldr_digit_weights(c);
        lemma_cldr_digit_weights(x);
        lemma_cldr_digit_weights(y);
    }
}

/// The CLDR collation orders byte strings: it is transitive.
pub proof fn law_cldr_collation_transitive(s1: Seq<u8>, s2: Seq<u8>, s3: Seq<u8>)
    requires
        collation(CldrAsciiCollator.weight_map(), CldrAsciiCollator.digit_map(), s1, s2) == Ordering::Less,
        collation(CldrAsciiCollator.weight_map(), CldrAsciiCollator.digit_map(), s2, s3) == Ordering::Less,
    ensures
        collation(CldrAsciiCollator.weight_map(), CldrAsciiCollator.digit_map(), s1, s3) == Ordering::Less,
{
    law_cldr_collation_conditions();
    law_collation_transitive(CldrAsciiCollator.weight_map(), CldrAsciiCollator.digit_map(), s1, s2, s3);
}

} // verus!
