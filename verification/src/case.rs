//! The case of an identifier: identification and conversion.

use vstd::prelude::*;

use crate::unicode::{
    char_is_alphanumeric, char_is_lowercase, char_is_uppercase, char_to_lowercase,
    char_to_uppercase, chars_of, alnum_prop, ascii_lower_char, ascii_upper_char, is_ascii_char,
    is_ascii_digit_char, lower_mapping, lower_prop, upper_mapping, upper_prop, lower_map, push_char,
    upper_map,
};
use vstd::string::StringExecFns;

verus! {

/// Represents the case of a string.
///
/// Some cases are supersets of others: a name in [Case::Lower] is also in
/// [Case::Camel], [Case::Kebab] and [Case::Snake], and [Case::Unknown] is a
/// superset of every case. [Case::bits] gives each case as the set of the
/// cases it includes, one bit per case.
///
/// ```text
///                     ┌──► Pascal ────────────┐
/// NumberableCapital ──┤                       │
///                     └──► Upper ─► Constant ─┤
///                                             ├──► Unknown
///                     ┌──► Camel ─────────────┤
///         ┌──► Lower ─┤                       │
///         │           └──► Kebab ─────────────┤
/// Number ─┤           │                       │
///         │           └──► Snake ─────────────┤
///         │                                   │
///         └──► Uni ───────────────────────────┘
/// ```
#[derive(Clone, Copy, Debug, Default, PartialEq, Eq, Structural, Hash, PartialOrd, Ord)]
pub enum Case {
    /// ASCII numbers
    Number,
    /// Alphanumeric characters that cannot be in lowercase or uppercase (numbers and syllabary)
    Uni,
    /// A, B1, C42
    NumberableCapital,
    /// UPPERCASE
    Upper,
    /// CONSTANT_CASE
    Constant,
    /// PascalCase
    Pascal,
    /// lowercase
    Lower,
    /// snake_case
    Snake,
    /// kebab-case
    Kebab,
    /// camelCase
    Camel,
    /// Unknown case
    #[default]
    Unknown,
}

/// The bit pattern of a case: its own bit together with the bits of every
/// case it includes.
pub open spec fn case_bits(case: Case) -> u16 {
    match case {
        Case::Number => 0x001,
        Case::Uni => 0x003,
        Case::NumberableCapital => 0x004,
        Case::Upper => 0x00c,
        Case::Constant => 0x01c,
        Case::Pascal => 0x024,
        Case::Lower => 0x041,
        Case::Snake => 0x0c1,
        Case::Kebab => 0x141,
        Case::Camel => 0x241,
        Case::Unknown => 0x7ff,
    }
}

/// The case to which the first character of an identifier belongs, if any.
pub open spec fn first_char_case(c: char) -> Option<Case> {
    if lower_prop(c) {
        Some(Case::Lower)
    } else if upper_prop(c) {
        Some(Case::NumberableCapital)
    } else if is_ascii_digit_char(c) {
        Some(Case::Number)
    } else if alnum_prop(c) {
        Some(Case::Uni)
    } else {
        None
    }
}

/// One step of case identification: the case reached after reading `c`,
/// when the case so far is `result`, the previous character is `prev` and
/// `consecutive` tells whether two uppercase characters followed each other
/// so far. `None` means that the identifier is in no known case.
pub open spec fn identify_step(result: Case, prev: char, consecutive: bool, c: char, strict: bool) -> Option<(Case, bool)> {
    if c == '-' {
        if (result == Case::Kebab || result == Case::Lower || result == Case::Number) && prev != '-' {
            Some((Case::Kebab, consecutive))
        } else {
            None
        }
    } else if c == '_' {
        if (result == Case::Constant || result == Case::Snake) && prev != '_' {
            Some((result, consecutive))
        } else if result == Case::NumberableCapital || result == Case::Upper {
            Some((Case::Constant, consecutive))
        } else if result == Case::Lower || result == Case::Number {
            Some((Case::Snake, consecutive))
        } else {
            None
        }
    } else if upper_prop(c) {
        let consecutive = consecutive || upper_prop(prev);
        if (result == Case::Camel || result == Case::Pascal) && strict && consecutive {
            None
        } else if result == Case::Camel || result == Case::Constant || result == Case::Pascal {
            Some((result, consecutive))
        } else if result == Case::Lower || result == Case::Number {
            Some((Case::Camel, consecutive))
        } else if result == Case::NumberableCapital || result == Case::Upper {
            Some((Case::Upper, consecutive))
        } else {
            None
        }
    } else if lower_prop(c) {
        if result == Case::Number {
            Some((Case::Lower, consecutive))
        } else if result == Case::Camel || result == Case::Kebab || result == Case::Lower || result == Case::Snake {
            Some((result, consecutive))
        } else if result == Case::Pascal || result == Case::NumberableCapital {
            Some((Case::Pascal, consecutive))
        } else if result == Case::Upper && (!strict || !consecutive) {
            Some((Case::Pascal, consecutive))
        } else {
            None
        }
    } else if is_ascii_digit_char(c) {
        Some((result, consecutive))
    } else if alnum_prop(c) {
        if result == Case::Number || result == Case::Uni {
            Some((Case::Uni, consecutive))
        } else {
            None
        }
    } else {
        None
    }
}

/// Case identification of `s` from position `i` on, in the state given by
/// the other arguments (see [identify_step]).
pub open spec fn identify_from(s: Seq<char>, i: int, result: Case, prev: char, consecutive: bool, strict: bool) -> Case
    decreases s.len() - i,
{
    if i < 0 || i >= s.len() {
        if prev == '-' || prev == '_' {
            Case::Unknown
        } else {
            result
        }
    } else {
        match identify_step(result, prev, consecutive, s[i], strict) {
            None => Case::Unknown,
            Some((next, next_consecutive)) => identify_from(s, i + 1, next, s[i], next_consecutive, strict),
        }
    }
}

/// The name under which a case is displayed.
pub open spec fn display_text(case: Case) -> Seq<char> {
    match case {
        Case::Camel => "camelCase"@,
        Case::Constant => "CONSTANT_CASE"@,
        Case::Kebab => "kebab-case"@,
        Case::Lower => "lowercase"@,
        Case::Number => "number case"@,
        Case::NumberableCapital => "numberable capital case"@,
        Case::Pascal => "PascalCase"@,
        Case::Snake => "snake_case"@,
        Case::Uni => "unicase"@,
        Case::Unknown => "unknown case"@,
        Case::Upper => "UPPERCASE"@,
    }
}

/// The case of the identifier `s`.
pub open spec fn identify_spec(s: Seq<char>, strict: bool) -> Case {
    if s.len() == 0 {
        Case::Unknown
    } else {
        match first_char_case(s[0]) {
            None => Case::Unknown,
            Some(first) => identify_from(s, 1, first, s[0], false, strict),
        }
    }
}

/// Whether conversion to `case` drops the character `c` and starts a new word.
pub open spec fn is_dropped(case: Case, c: char) -> bool {
    !alnum_prop(c) || (case == Case::Uni && (lower_prop(c) || upper_prop(c)))
}

/// The separator that conversion to `case` writes between words.
pub open spec fn word_separator(case: Case) -> Seq<char> {
    match case {
        Case::Constant | Case::Snake => seq!['_'],
        Case::Kebab => seq!['-'],
        _ => Seq::empty(),
    }
}

/// What conversion to `case` writes for the kept character `c`; `starts_word`
/// tells whether `c` starts a word and `first` whether it is the first
/// character of the input.
pub open spec fn converted_char(case: Case, c: char, starts_word: bool, first: bool) -> Seq<char> {
    match case {
        Case::Camel | Case::Pascal => if starts_word { upper_map(c) } else { lower_map(c) },
        Case::Constant | Case::Upper => upper_map(c),
        Case::NumberableCapital => if first { upper_map(c) } else { Seq::empty() },
        Case::Kebab | Case::Snake | Case::Lower => lower_map(c),
        Case::Uni => seq![c],
        Case::Number | Case::Unknown => Seq::empty(),
    }
}

/// Conversion of `s` to `case` from position `i` on; `starts_word` tells
/// whether a new word starts at `i`.
pub open spec fn convert_from(case: Case, s: Seq<char>, i: int, starts_word: bool) -> Seq<char>
    decreases s.len() - i,
{
    if i < 0 || i >= s.len() {
        Seq::empty()
    } else {
        let c = s[i];
        if is_dropped(case, c) {
            convert_from(case, s, i + 1, true)
        } else {
            let has_next = i + 1 < s.len();
            let starts = starts_word || (has_next && i != 0 && upper_prop(c) && lower_prop(s[i + 1]));
            let sep = if starts { word_separator(case) } else { Seq::empty() };
            let next_starts = has_next && lower_prop(c) && upper_prop(s[i + 1]);
            sep + converted_char(case, c, starts, i == 0) + convert_from(case, s, i + 1, next_starts)
        }
    }
}

/// The conversion of `s` to `case`.
pub open spec fn convert_spec(case: Case, s: Seq<char>) -> Seq<char> {
    if s.len() == 0 || case == Case::Unknown || case == Case::Number {
        s
    } else {
        convert_from(case, s, 0, case == Case::Pascal)
    }
}

impl Case {
    /// The name under which the case is displayed, such as `camelCase`.
    pub fn display_name(self) -> (s: &'static str)
        ensures
            s@ == display_text(self),
    {
        match self {
            Case::Camel => "camelCase",
            Case::Constant => "CONSTANT_CASE",
            Case::Kebab => "kebab-case",
            Case::Lower => "lowercase",
            Case::Number => "number case",
            Case::NumberableCapital => "numberable capital case",
            Case::Pascal => "PascalCase",
            Case::Snake => "snake_case",
            Case::Uni => "unicase",
            Case::Unknown => "unknown case",
            Case::Upper => "UPPERCASE",
        }
    }

    /// The case as the set of the cases it includes, one bit per case.
    pub fn bits(self) -> (b: u16)
        ensures
            b == case_bits(self),
    {
        match self {
            Case::Number => 0x001,
            Case::Uni => 0x003,
            Case::NumberableCapital => 0x004,
            Case::Upper => 0x00c,
            Case::Constant => 0x01c,
            Case::Pascal => 0x024,
            Case::Lower => 0x041,
            Case::Snake => 0x0c1,
            Case::Kebab => 0x141,
            Case::Camel => 0x241,
            Case::Unknown => 0x7ff,
        }
    }

    fn first_char(c: char) -> (r: Option<Case>)
        ensures
            r == first_char_case(c),
    {
        if char_is_lowercase(c) {
            Some(Case::Lower)
        } else if char_is_uppercase(c) {
            Some(Case::NumberableCapital)
        } else if '0' <= c && c <= '9' {
            Some(Case::Number)
        } else if char_is_alphanumeric(c) {
            Some(Case::Uni)
        } else {
            None
        }
    }

    fn step(result: Case, prev: char, consecutive: bool, c: char, strict: bool) -> (r: Option<(Case, bool)>)
        ensures
            r == identify_step(result, prev, consecutive, c, strict),
    {
        if c == '-' {
            if (result == Case::Kebab || result == Case::Lower || result == Case::Number) && prev != '-' {
                Some((Case::Kebab, consecutive))
            } else {
                None
            }
        } else if c == '_' {
            if (result == Case::Constant || result == Case::Snake) && prev != '_' {
                Some((result, consecutive))
            } else if result == Case::NumberableCapital || result == Case::Upper {
                Some((Case::Constant, consecutive))
            } else if result == Case::Lower || result == Case::Number {
                Some((Case::Snake, consecutive))
            } else {
                None
            }
        } else if char_is_uppercase(c) {
            let consecutive = consecutive || char_is_uppercase(prev);
            if (result == Case::Camel || result == Case::Pascal) && strict && consecutive {
                None
            } else if result == Case::Camel || result == Case::Constant || result == Case::Pascal {
                Some((result, consecutive))
            } else if result == Case::Lower || result == Case::Number {
                Some((Case::Camel, consecutive))
            } else if result == Case::NumberableCapital || result == Case::Upper {
                Some((Case::Upper, consecutive))
            } else {
                None
            }
        } else if char_is_lowercase(c) {
            if result == Case::Number {
                Some((Case::Lower, consecutive))
            } else if result == Case::Camel || result == Case::Kebab || result == Case::Lower || result == Case::Snake {
                Some((result, consecutive))
            } else if result == Case::Pascal || result == Case::NumberableCapital {
                Some((Case::Pascal, consecutive))
            } else if result == Case::Upper && (!strict || !consecutive) {
                Some((Case::Pascal, consecutive))
            } else {
                None
            }
        } else if '0' <= c && c <= '9' {
            Some((result, consecutive))
        } else if char_is_alphanumeric(c) {
            if result == Case::Number || result == Case::Uni {
                Some((Case::Uni, consecutive))
            } else {
                None
            }
        } else {
            None
        }
}

    /// Returns the [Case] of `value`.
    ///
    /// If `strict` is `true`, then two consecutive uppercase characters are not
    /// allowed in camelCase and PascalCase.
    /// For instance, `HTTPServer` is not considered in _PascalCase_ when `strict` is `true`.
    ///
    /// A figure is considered both uppercase and lowercase.
    /// Thus, `V8_ENGINE` is in _CONSTANT_CASE_ and `V8Engine` is in _PascalCase_.
    pub fn identify(value: &str, strict: bool) -> (r: Case)
        ensures
            r == identify_spec(value@, strict),
    {
        let chars = chars_of(value);
        let n = chars.len();
        if n == 0 {
            return Case::Unknown;
        }
        let first = chars[0];
        let mut result = match Case::first_char(first) {
            Some(case) => case,
            None => return Case::Unknown,
        };
        let mut prev = first;
        let mut consecutive = false;
        let mut i: usize = 1;
        while i < n
            invariant
                n == chars@.len(),
                chars@ == value@,
                1 <= i <= n,
                prev == chars@[i - 1],
                identify_from(chars@, i as int, result, prev, consecutive, strict) == identify_spec(value@, strict),
            decreases n - i,
        {
            let c = chars[i];
            match Case::step(result, prev, consecutive, c, strict) {
                None => return Case::Unknown,
                Some((next, next_consecutive)) => {
                    result = next;
                    consecutive = next_consecutive;
                },
            }
            prev = c;
            i = i + 1;
        }
        // The last char cannot be a delimiter
        if prev == '-' || prev == '_' {
            return Case::Unknown;
        }
        result
    }
    /// Writes the separator (when `starts_word`) and the converted form of the
    /// kept character `current` at the end of `output`.
    fn write_char(self, output: &mut String, current: char, starts_word: bool, first: bool)
        ensures
            final(output)@ == old(output)@ + (if starts_word { word_separator(self) } else { Seq::<char>::empty() })
                + converted_char(self, current, starts_word, first),
    {
        let ghost start = output@;
        if starts_word {
            match self {
                Case::Constant | Case::Snake => push_char(output, '_'),
                Case::Kebab => push_char(output, '-'),
                _ => {},
            }
        }
        let ghost after_sep = output@;
        assert(after_sep =~= start + (if starts_word { word_separator(self) } else { Seq::<char>::empty() }));
        match self {
            Case::Camel | Case::Pascal => {
                if starts_word {
                    output.append(char_to_uppercase(current).as_str());
                } else {
                    output.append(char_to_lowercase(current).as_str());
                }
            },
            Case::Constant | Case::Upper => output.append(char_to_uppercase(current).as_str()),
            Case::NumberableCapital => {
                if first {
                    output.append(char_to_uppercase(current).as_str());
                }
            },
            Case::Kebab | Case::Snake | Case::Lower => output.append(char_to_lowercase(current).as_str()),
            Case::Uni => push_char(output, current),
            Case::Number | Case::Unknown => {},
        }
        assert(output@ =~= after_sep + converted_char(self, current, starts_word, first));
    }

    /// Convert `value` to the `self` [Case].
    ///
    /// Characters that are not alphanumeric are dropped and start a new word;
    /// a new word also starts before an uppercase character that is followed
    /// by a lowercase one, and after a lowercase character that is followed by
    /// an uppercase one.
    pub fn convert(self, value: &str) -> (r: String)
        ensures
            r@ == convert_spec(self, value@),
    {
        if value.is_empty() || self == Case::Unknown || self == Case::Number {
            return String::from_str(value);
        }
        let chars = chars_of(value);
        let n = chars.len();
        let mut starts_word = self == Case::Pascal;
        let mut output = String::new();
        let mut i: usize = 0;
        while i < n
            invariant
                n == chars@.len(),
                chars@ == value@,
                n > 0,
                self != Case::Unknown,
                self != Case::Number,
                i <= n,
                output@ + convert_from(self, chars@, i as int, starts_word) == convert_spec(self, value@),
            decreases n - i,
        {
            let current = chars[i];
            let ghost before = output@;
            let ghost old_starts = starts_word;
            if !char_is_alphanumeric(current) || (self == Case::Uni && (char_is_lowercase(current)
                || char_is_uppercase(current))) {
                starts_word = true;
                i = i + 1;
                continue;
            }
            let has_next = i + 1 < n;
            if has_next && i != 0 && char_is_uppercase(current) && char_is_lowercase(chars[i + 1]) {
                starts_word = true;
            }
            self.write_char(&mut output, current, starts_word, i == 0);
            let next_starts = has_next && char_is_lowercase(current) && char_is_uppercase(chars[i + 1]);
            proof {
                let piece = (if starts_word { word_separator(self) } else { Seq::<char>::empty() })
                    + converted_char(self, current, starts_word, i == 0);
                assert(convert_from(self, chars@, i as int, old_starts) == piece + convert_from(self, chars@, i + 1, next_starts));
                assert(before + (piece + convert_from(self, chars@, i + 1, next_starts))
                    =~= output@ + convert_from(self, chars@, i + 1, next_starts));
            }
            starts_word = next_starts;
            i = i + 1;
        }
        output
    }
}

/// A strict step either agrees with the lenient step or gives up.
proof fn lemma_strict_step(result: Case, prev: char, consecutive: bool, c: char)
    ensures
        identify_step(result, prev, consecutive, c, true) is None
            || identify_step(result, prev, consecutive, c, true) == identify_step(result, prev, consecutive, c, false),
{
}

proof fn lemma_strict_from(s: Seq<char>, i: int, result: Case, prev: char, consecutive: bool)
    ensures
        identify_from(s, i, result, prev, consecutive, true) == Case::Unknown
            || identify_from(s, i, result, prev, consecutive, true) == identify_from(s, i, result, prev, consecutive, false),
    decreases s.len() - i,
{
    if 0 <= i < s.len() {
        lemma_strict_step(result, prev, consecutive, s[i]);
        match identify_step(result, prev, consecutive, s[i], true) {
            None => {},
            Some((next, next_consecutive)) => lemma_strict_from(s, i + 1, next, s[i], next_consecutive),
        }
    }
}

/// Strict identification only ever rejects more names: it gives either the
/// same case as lenient identification or [Case::Unknown].
pub proof fn law_strict_refines_lenient(s: Seq<char>)
    ensures
        identify_spec(s, true) == Case::Unknown || identify_spec(s, true) == identify_spec(s, false),
{
    if s.len() > 0 {
        if let Some(first) = first_char_case(s[0]) {
            lemma_strict_from(s, 1, first, s[0], false);
        }
    }
}

proof fn lemma_known_from(s: Seq<char>, i: int, result: Case, prev: char, consecutive: bool, strict: bool)
    requires
        1 <= i <= s.len(),
        prev == s[i - 1],
    ensures
        identify_from(s, i, result, prev, consecutive, strict) != Case::Unknown ==> s.last() != '-' && s.last() != '_',
    decreases s.len() - i,
{
    if i < s.len() {
        match identify_step(result, prev, consecutive, s[i], strict) {
            None => {},
            Some((next, next_consecutive)) => lemma_known_from(s, i + 1, next, s[i], next_consecutive, strict),
        }
    }
}

/// A name in a known case is not empty, starts with a lowercase, uppercase,
/// digit or other alphanumeric character, and does not end with a delimiter.
pub proof fn law_known_case_shape(s: Seq<char>, strict: bool)
    ensures
        identify_spec(s, strict) != Case::Unknown ==> {
            &&& s.len() > 0
            &&& first_char_case(s[0]) is Some
            &&& s.last() != '-'
            &&& s.last() != '_'
        },
{
    if s.len() > 0 {
        if let Some(first) = first_char_case(s[0]) {
            lemma_known_from(s, 1, first, s[0], false, strict);
        }
    }
}

/// Whether the identifier of a name in `case` may hold the character `c`:
/// digits in every case; lowercase characters in the lowercase cases,
/// uppercase characters in the uppercase cases, both in camelCase and
/// PascalCase; `_` only in snake_case and CONSTANT_CASE, `-` only in
/// kebab-case; other alphanumeric characters only in unicase.
pub open spec fn case_char(case: Case, c: char) -> bool {
    is_ascii_digit_char(c) || match case {
        Case::Number => false,
        Case::Uni => alnum_prop(c) && !lower_prop(c) && !upper_prop(c),
        Case::Lower => lower_prop(c),
        Case::Snake => lower_prop(c) || c == '_',
        Case::Kebab => lower_prop(c) || c == '-',
        Case::NumberableCapital | Case::Upper => upper_prop(c),
        Case::Constant => upper_prop(c) || c == '_',
        Case::Camel | Case::Pascal => lower_prop(c) || upper_prop(c),
        Case::Unknown => true,
    }
}

/// Whether `case` is one of the cases that start with an uppercase character.
pub open spec fn starts_uppercase(case: Case) -> bool {
    case == Case::NumberableCapital || case == Case::Upper || case == Case::Constant || case == Case::Pascal
}

proof fn lemma_step_chars(result: Case, prev: char, consecutive: bool, c: char, strict: bool)
    ensures
        identify_step(result, prev, consecutive, c, strict) matches Some((next, _)) ==> {
            &&& case_char(next, c)
            &&& forall|x: char| case_char(result, x) ==> case_char(next, x)
            &&& (starts_uppercase(next) <==> starts_uppercase(result))
        },
{
}

proof fn lemma_identify_chars(s: Seq<char>, i: int, result: Case, prev: char, consecutive: bool, strict: bool)
    requires
        1 <= i <= s.len(),
        forall|j: int| 0 <= j < i ==> case_char(result, #[trigger] s[j]),
    ensures
        ({
            let r = identify_from(s, i, result, prev, consecutive, strict);
            r != Case::Unknown ==> (forall|j: int| 0 <= j < s.len() ==> case_char(r, #[trigger] s[j]))
                && (starts_uppercase(r) <==> starts_uppercase(result))
        }),
    decreases s.len() - i,
{
    if i < s.len() {
        lemma_step_chars(result, prev, consecutive, s[i], strict);
        match identify_step(result, prev, consecutive, s[i], strict) {
            None => {},
            Some((next, next_consecutive)) => {
                assert forall|j: int| 0 <= j < i + 1 implies case_char(next, #[trigger] s[j]) by {
                    if j < i {
                        assert(case_char(result, s[j]));
                    }
                }
                lemma_identify_chars(s, i + 1, next, s[i], next_consecutive, strict);
            },
        }
    }
}

/// What the case of a name says of its text: every character is one that
/// the case may hold (see [case_char]), and the name starts with an
/// uppercase character that is not also lowercase exactly when its case is
/// NumberableCapital, UPPERCASE, CONSTANT_CASE or PascalCase.
pub proof fn law_identified_case_describes_text(s: Seq<char>, strict: bool)
    ensures
        identify_spec(s, strict) != Case::Unknown ==> forall|j: int|
            0 <= j < s.len() ==> case_char(identify_spec(s, strict), #[trigger] s[j]),
        identify_spec(s, strict) != Case::Unknown ==> (starts_uppercase(identify_spec(s, strict)) <==> (upper_prop(
            s[0],
        ) && !lower_prop(s[0]))),
{
    if s.len() > 0 {
        if let Some(first) = first_char_case(s[0]) {
            assert(case_char(first, s[0]));
            lemma_identify_chars(s, 1, first, s[0], false, strict);
        }
    }
}

proof fn lemma_identify_from_push_digit(s: Seq<char>, d: char, i: int, result: Case, prev: char, consecutive: bool, strict: bool)
    requires
        is_ascii_digit_char(d),
        1 <= i <= s.len(),
        prev == s[i - 1],
        identify_from(s, i, result, prev, consecutive, strict) != Case::Unknown,
    ensures
        identify_from(s.push(d), i, result, prev, consecutive, strict) == identify_from(s, i, result, prev, consecutive, strict),
    decreases s.len() - i,
{
    let t = s.push(d);
    assert(t[i - 1] == s[i - 1]);
    if i < s.len() {
        assert(t[i] == s[i]);
        match identify_step(result, prev, consecutive, s[i], strict) {
            None => {},
            Some((next, next_consecutive)) => {
                lemma_identify_from_push_digit(s, d, i + 1, next, s[i], next_consecutive, strict);
            },
        }
    } else {
        assert(t[i] == d);
        assert(!upper_prop(d) && !lower_prop(d));
        assert(identify_step(result, prev, consecutive, d, strict) == Some((result, consecutive)));
        assert(identify_from(t, i + 1, result, d, consecutive, strict) == result);
    }
}

/// A digit never changes the case reached so far: appending an ASCII digit
/// to a name in a known case leaves its case as it is (digits are allowed
/// in every case).
pub proof fn law_trailing_digit_keeps_case(s: Seq<char>, d: char, strict: bool)
    requires
        is_ascii_digit_char(d),
        identify_spec(s, strict) != Case::Unknown,
    ensures
        identify_spec(s.push(d), strict) == identify_spec(s, strict),
{
    let t = s.push(d);
    assert(t[0] == s[0]);
    if let Some(first) = first_char_case(s[0]) {
        lemma_identify_from_push_digit(s, d, 1, first, s[0], false, strict);
    }
}

proof fn lemma_lower_or_digit_from(s: Seq<char>, i: int, result: Case, prev: char, consecutive: bool, strict: bool)
    requires
        1 <= i <= s.len(),
        result == Case::Lower,
        prev == s[i - 1],
        is_ascii_digit_char(prev) || ('a' <= prev && prev <= 'z'),
        forall|j: int| 0 <= j < s.len() ==> is_ascii_digit_char(#[trigger] s[j]) || ('a' <= s[j] && s[j] <= 'z'),
    ensures
        identify_from(s, i, result, prev, consecutive, strict) == Case::Lower,
    decreases s.len() - i,
{
    if i < s.len() {
        let c = s[i];
        assert(is_ascii_digit_char(c) || ('a' <= c && c <= 'z'));
        assert(identify_step(result, prev, consecutive, c, strict) == Some((Case::Lower, consecutive)));
        lemma_lower_or_digit_from(s, i + 1, result, c, consecutive, strict);
    }
}

/// A name made of the ASCII lowercase letters and digits alone that starts
/// with a letter is in lowercase, strict or not (e.g. `utf8`).
pub proof fn law_lowercase_letters_and_digits_are_lower(s: Seq<char>, strict: bool)
    requires
        s.len() > 0,
        'a' <= s[0] && s[0] <= 'z',
        forall|j: int| 0 <= j < s.len() ==> is_ascii_digit_char(#[trigger] s[j]) || ('a' <= s[j] && s[j] <= 'z'),
    ensures
        identify_spec(s, strict) == Case::Lower,
{
    lemma_lower_or_digit_from(s, 1, Case::Lower, s[0], false, strict);
}

proof fn lemma_strict_lenient_from(s: Seq<char>, i: int, result: Case, prev: char)
    requires
        1 <= i <= s.len(),
        prev == s[i - 1],
        no_consecutive_uppercase(s, 0),
    ensures
        identify_from(s, i, result, prev, false, true) == identify_from(s, i, result, prev, false, false),
    decreases s.len() - i,
{
    if i < s.len() {
        let c = s[i];
        if upper_prop(c) && c != '-' && c != '_' {
            assert(!(read_as_upper(s[i - 1]) && read_as_upper(s[i])));
            assert(!upper_prop(prev));
        }
        assert(identify_step(result, prev, false, c, true) == identify_step(result, prev, false, c, false));
        match identify_step(result, prev, false, c, false) {
            None => {},
            Some((next, next_consecutive)) => {
                assert(!next_consecutive);
                lemma_strict_lenient_from(s, i + 1, next, c);
            },
        }
    }
}

/// Strict identification differs from lenient identification only on names
/// with two uppercase characters in a row: without them both give the same
/// case.
pub proof fn law_strict_is_lenient_without_consecutive_uppercase(s: Seq<char>)
    requires
        no_consecutive_uppercase(s, 0),
    ensures
        identify_spec(s, true) == identify_spec(s, false),
{
    if s.len() > 0 {
        if let Some(first) = first_char_case(s[0]) {
            lemma_strict_lenient_from(s, 1, first, s[0]);
        }
    }
}

/// Whether `c` is an ASCII letter or digit.
pub open spec fn ascii_alnum_char(c: char) -> bool {
    ('a' <= c && c <= 'z') || ('A' <= c && c <= 'Z') || ('0' <= c && c <= '9')
}

/// Whether an ASCII uppercase letter stands in `s` between `from` and `to`.
pub open spec fn upper_between(s: Seq<char>, from: int, to: int) -> bool {
    exists|j: int| from <= j < to && 'A' <= #[trigger] s[j] && s[j] <= 'Z'
}

/// Whether an ASCII lowercase letter stands in `s` between `from` and `to`.
pub open spec fn lower_between(s: Seq<char>, from: int, to: int) -> bool {
    exists|j: int| from <= j < to && 'a' <= #[trigger] s[j] && s[j] <= 'z'
}

/// The case of the first `n` characters of a name made of ASCII letters and
/// digits: from an uppercase first letter, PascalCase with a lowercase
/// letter after it, else UPPERCASE with another uppercase letter, else
/// NumberableCapital; otherwise camelCase with an uppercase letter after the
/// first character, else lowercase with a lowercase letter, else a number.
pub open spec fn ascii_word_case(s: Seq<char>, n: int) -> Case {
    if 'A' <= s[0] && s[0] <= 'Z' {
        if lower_between(s, 1, n) {
            Case::Pascal
        } else if upper_between(s, 1, n) {
            Case::Upper
        } else {
            Case::NumberableCapital
        }
    } else if upper_between(s, 1, n) {
        Case::Camel
    } else if ('a' <= s[0] && s[0] <= 'z') || lower_between(s, 1, n) {
        Case::Lower
    } else {
        Case::Number
    }
}

proof fn lemma_ascii_word_from(s: Seq<char>, i: int, consecutive: bool)
    requires
        1 <= i <= s.len(),
        forall|j: int| 0 <= j < s.len() ==> ascii_alnum_char(#[trigger] s[j]),
    ensures
        identify_from(s, i, ascii_word_case(s, i), s[i - 1], consecutive, false) == ascii_word_case(s, s.len() as int),
    decreases s.len() - i,
{
    if i < s.len() {
        let c = s[i];
        assert(ascii_alnum_char(c));
        assert(upper_between(s, 1, i + 1) == (upper_between(s, 1, i) || ('A' <= c && c <= 'Z'))) by {
            if 'A' <= c && c <= 'Z' {
                assert(1 <= i < i + 1 && 'A' <= s[i] && s[i] <= 'Z');
            }
            if upper_between(s, 1, i + 1) && !('A' <= c && c <= 'Z') {
                let j = choose|j: int| 1 <= j < i + 1 && 'A' <= #[trigger] s[j] && s[j] <= 'Z';
                assert(j < i);
            }
        }
        assert(lower_between(s, 1, i + 1) == (lower_between(s, 1, i) || ('a' <= c && c <= 'z'))) by {
            if 'a' <= c && c <= 'z' {
                assert(1 <= i < i + 1 && 'a' <= s[i] && s[i] <= 'z');
            }
            if lower_between(s, 1, i + 1) && !('a' <= c && c <= 'z') {
                let j = choose|j: int| 1 <= j < i + 1 && 'a' <= #[trigger] s[j] && s[j] <= 'z';
                assert(j < i);
            }
        }
        let r = ascii_word_case(s, i);
        match identify_step(r, s[i - 1], consecutive, c, false) {
            None => {
                assert(false);
            },
            Some((next, next_consecutive)) => {
                assert(next == ascii_word_case(s, i + 1));
                lemma_ascii_word_from(s, i + 1, next_consecutive);
            },
        }
    }
}

/// Lenient identification of a name made of ASCII letters and digits alone
/// gives the case that its letters tell (see [ascii_word_case]): e.g.
/// `fooBar` is camelCase, `FooBar` and `HTTPServer` PascalCase, `FOO1`
/// UPPERCASE, `A1` NumberableCapital, `utf8` lowercase and `42` a number.
pub proof fn law_ascii_word_case(s: Seq<char>)
    requires
        s.len() > 0,
        forall|j: int| 0 <= j < s.len() ==> ascii_alnum_char(#[trigger] s[j]),
    ensures
        identify_spec(s, false) == ascii_word_case(s, s.len() as int),
{
    assert(ascii_alnum_char(s[0]));
    assert(!upper_between(s, 1, 1));
    assert(!lower_between(s, 1, 1));
    assert(first_char_case(s[0]) == Some(ascii_word_case(s, 1)));
    lemma_ascii_word_from(s, 1, false);
}

/// Whether the character `d` stands in `s` between `from` and `to`.
pub open spec fn char_between(s: Seq<char>, from: int, to: int, d: char) -> bool {
    exists|j: int| from <= j < to && #[trigger] s[j] == d
}

/// The delimiter of the delimited case `target`: `_` for snake_case and
/// CONSTANT_CASE, `-` for kebab-case.
pub open spec fn delimiter_of(target: Case) -> char {
    if target == Case::Kebab { '-' } else { '_' }
}

/// Whether `c` may stand in a word of a name in the delimited case
/// `target`: a digit, or an ASCII letter in the case's letter case.
pub open spec fn delimited_word_char(target: Case, c: char) -> bool {
    ('0' <= c && c <= '9') || if target == Case::Constant {
        'A' <= c && c <= 'Z'
    } else {
        'a' <= c && c <= 'z'
    }
}

/// Whether `s` is a name in the delimited case `target` written in ASCII:
/// words of digits and letters in the case's letter case, joined by single
/// delimiters, at least one of them, with a word at each end; a
/// CONSTANT_CASE name starts with a letter.
pub open spec fn delimited_name(target: Case, s: Seq<char>) -> bool {
    let d = delimiter_of(target);
    &&& target == Case::Snake || target == Case::Kebab || target == Case::Constant
    &&& s.len() > 0
    &&& forall|j: int| 0 <= j < s.len() ==> delimited_word_char(target, #[trigger] s[j]) || s[j] == d
    &&& delimited_word_char(target, s[0])
    &&& target == Case::Constant ==> 'A' <= s[0] && s[0] <= 'Z'
    &&& delimited_word_char(target, s.last())
    &&& forall|j: int| 0 <= j && j + 1 < s.len() && #[trigger] s[j] == d ==> s[j + 1] != d
    &&& char_between(s, 0, s.len() as int, d)
}

/// The case reached after the first `i` characters of a delimited name.
pub open spec fn delimited_state(target: Case, s: Seq<char>, i: int) -> Case {
    if char_between(s, 0, i, delimiter_of(target)) {
        target
    } else if target == Case::Constant {
        if upper_between(s, 1, i) { Case::Upper } else { Case::NumberableCapital }
    } else if lower_between(s, 0, i) {
        Case::Lower
    } else {
        Case::Number
    }
}

proof fn lemma_delimited_from(target: Case, s: Seq<char>, i: int, consecutive: bool, strict: bool)
    requires
        delimited_name(target, s),
        1 <= i <= s.len(),
    ensures
        identify_from(s, i, delimited_state(target, s, i), s[i - 1], consecutive, strict) == target,
    decreases s.len() - i,
{
    let d = delimiter_of(target);
    if i < s.len() {
        let c = s[i];
        assert(delimited_word_char(target, c) || c == d);
        assert(char_between(s, 0, i + 1, d) == (char_between(s, 0, i, d) || c == d)) by {
            if c == d {
                assert(0 <= i < i + 1 && s[i] == d);
            }
            if char_between(s, 0, i + 1, d) && c != d {
                let j = choose|j: int| 0 <= j < i + 1 && #[trigger] s[j] == d;
                assert(j < i);
            }
        }
        assert(upper_between(s, 1, i + 1) == (upper_between(s, 1, i) || ('A' <= c && c <= 'Z'))) by {
            if 'A' <= c && c <= 'Z' {
                assert(1 <= i < i + 1 && 'A' <= s[i] && s[i] <= 'Z');
            }
            if upper_between(s, 1, i + 1) && !('A' <= c && c <= 'Z') {
                let j = choose|j: int| 1 <= j < i + 1 && 'A' <= #[trigger] s[j] && s[j] <= 'Z';
                assert(j < i);
            }
        }
        assert(lower_between(s, 0, i + 1) == (lower_between(s, 0, i) || ('a' <= c && c <= 'z'))) by {
            if 'a' <= c && c <= 'z' {
                assert(0 <= i < i + 1 && 'a' <= s[i] && s[i] <= 'z');
            }
            if lower_between(s, 0, i + 1) && !('a' <= c && c <= 'z') {
                let j = choose|j: int| 0 <= j < i + 1 && 'a' <= #[trigger] s[j] && s[j] <= 'z';
                assert(j < i);
            }
        }
        if c == d {
            assert(s[i - 1] != d);
        }
        let r = delimited_state(target, s, i);
        match identify_step(r, s[i - 1], consecutive, c, strict) {
            None => {
                assert(false);
            },
            Some((next, next_consecutive)) => {
                assert(next == delimited_state(target, s, i + 1));
                lemma_delimited_from(target, s, i + 1, next_consecutive, strict);
            },
        }
    } else {
        assert(s[i - 1] == s.last());
        assert(s.last() != '-' && s.last() != '_');
        assert(char_between(s, 0, i, d));
    }
}

/// A name of ASCII words joined by single delimiters is in the delimited
/// case that its letters and delimiter tell, strict or not: lowercase words
/// joined by `_` are snake_case, by `-` kebab-case, and uppercase words
/// (from an uppercase letter on) joined by `_` are CONSTANT_CASE; digits may
/// stand anywhere in the words (e.g. `page2-title`, `item2_name`, `V8_ENGINE`).
pub proof fn law_delimited_names(target: Case, s: Seq<char>, strict: bool)
    requires
        delimited_name(target, s),
    ensures
        identify_spec(s, strict) == target,
{
    let d = delimiter_of(target);
    assert(!char_between(s, 0, 1, d)) by {
        if char_between(s, 0, 1, d) {
            let j = choose|j: int| 0 <= j < 1 && #[trigger] s[j] == d;
            assert(j == 0);
        }
    }
    assert(!upper_between(s, 1, 1));
    assert(lower_between(s, 0, 1) == ('a' <= s[0] && s[0] <= 'z')) by {
        if 'a' <= s[0] && s[0] <= 'z' {
            assert(0 <= 0 < 1 && 'a' <= s[0] && s[0] <= 'z');
        }
    }
    assert(first_char_case(s[0]) == Some(delimited_state(target, s, 1)));
    lemma_delimited_from(target, s, 1, false, strict);
}

/// Whether identification reads `c` as an uppercase character (delimiters
/// are read as delimiters first).
pub open spec fn read_as_upper(c: char) -> bool {
    c != '-' && c != '_' && upper_prop(c)
}

/// No two consecutive characters of `s` from position `from` on are both read
/// as uppercase.
pub open spec fn no_consecutive_uppercase(s: Seq<char>, from: int) -> bool {
    forall|j: int| from <= j && j + 1 < s.len() ==> !(read_as_upper(#[trigger] s[j]) && read_as_upper(s[j + 1]))
}

/// What holds of the identification state while reading under `strict`.
spec fn strict_state_inv(result: Case, prev: char, consecutive: bool) -> bool {
    &&& consecutive ==> result != Case::Camel && result != Case::Pascal && result != Case::Lower
        && result != Case::Number && result != Case::NumberableCapital
    &&& upper_prop(prev) ==> result != Case::Lower && result != Case::Number
}

proof fn lemma_strict_camel_from(s: Seq<char>, i: int, result: Case, prev: char, consecutive: bool)
    requires
        1 <= i <= s.len(),
        prev == s[i - 1],
        strict_state_inv(result, prev, consecutive),
    ensures
        ({
            let r = identify_from(s, i, result, prev, consecutive, true);
            (r == Case::Camel || r == Case::Pascal) ==> !consecutive && no_consecutive_uppercase(s, i - 1)
        }),
    decreases s.len() - i,
{
    let r = identify_from(s, i, result, prev, consecutive, true);
    if i < s.len() {
        match identify_step(result, prev, consecutive, s[i], true) {
            None => {},
            Some((next, next_consecutive)) => {
                assert(consecutive ==> next_consecutive);
                lemma_strict_camel_from(s, i + 1, next, s[i], next_consecutive);
                if r == Case::Camel || r == Case::Pascal {
                    assert forall|j: int| i - 1 <= j && j + 1 < s.len() implies
                        !(read_as_upper(#[trigger] s[j]) && read_as_upper(s[j + 1])) by {
                        if j == i - 1 {
                            if read_as_upper(s[j]) && read_as_upper(s[j + 1]) {
                                assert(next_consecutive);
                            }
                        }
                    }
                }
            }
        }
    }
}

/// With `strict`, a name in camelCase or PascalCase never has two
/// consecutive uppercase characters (unless its first character is a
/// character beyond ASCII that is both lowercase and uppercase, which
/// identification reads as lowercase).
pub proof fn law_strict_camel_pascal_no_consecutive_uppercase(s: Seq<char>)
    requires
        s.len() > 0 && !is_ascii_char(s[0]) ==> !(lower_prop(s[0]) && upper_prop(s[0])),
    ensures
        (identify_spec(s, true) == Case::Camel || identify_spec(s, true) == Case::Pascal) ==> no_consecutive_uppercase(s, 0),
{
    if s.len() > 0 {
        if let Some(first) = first_char_case(s[0]) {
            lemma_strict_camel_from(s, 1, first, s[0], false);
        }
    }
}

/// Whether `case` is one whose conversion maps every letter to one case and
/// joins words with one fixed separator or none.
pub open spec fn is_flat_case(case: Case) -> bool {
    case == Case::Snake || case == Case::Kebab || case == Case::Constant || case == Case::Lower || case == Case::Upper
}

/// Whether conversion to `case` lowers letters (rather than raising them).
pub open spec fn lowers_letters(case: Case) -> bool {
    case == Case::Snake || case == Case::Kebab || case == Case::Lower
}

/// Whether conversion to the flat `case` writes `c` as it is: an ASCII
/// letter already in the case's letter case, or an ASCII digit.
pub open spec fn kept_as_is(case: Case, c: char) -> bool {
    &&& is_ascii_char(c)
    &&& alnum_prop(c)
    &&& if lowers_letters(case) { !upper_prop(c) } else { !lower_prop(c) }
}

/// Whether `t` has the form of a conversion to the flat `case` of ASCII
/// text: characters written as they are, each separator directly followed
/// by such a character.
pub open spec fn in_converted_form(case: Case, t: Seq<char>) -> bool {
    forall|j: int|
        0 <= j < t.len() ==> kept_as_is(case, #[trigger] t[j]) || (word_separator(case).len() == 1 && t[j]
            == word_separator(case)[0] && j + 1 < t.len() && kept_as_is(case, t[j + 1]))
}

/// An ASCII letter or digit, lowered or raised, is an ASCII letter or digit
/// in that letter case.
proof fn lemma_ascii_mapped(case: Case, c: char)
    requires
        is_flat_case(case),
        is_ascii_char(c),
        alnum_prop(c),
    ensures
        converted_char(case, c, true, true) == seq![if lowers_letters(case) { ascii_lower_char(c) } else { ascii_upper_char(c) }],
        converted_char(case, c, true, false) == converted_char(case, c, true, true),
        converted_char(case, c, false, false) == converted_char(case, c, true, true),
        converted_char(case, c, false, true) == converted_char(case, c, true, true),
        kept_as_is(case, if lowers_letters(case) { ascii_lower_char(c) } else { ascii_upper_char(c) }),
        kept_as_is(case, c) ==> (if lowers_letters(case) { ascii_lower_char(c) } else { ascii_upper_char(c) }) == c,
{
}

/// A separator of a flat case is an ASCII character that is no letter or digit.
proof fn lemma_separator(case: Case)
    requires
        is_flat_case(case),
    ensures
        word_separator(case).len() == 1 ==> is_ascii_char(word_separator(case)[0]) && !alnum_prop(
            word_separator(case)[0],
        ),
        word_separator(case).len() == 0 || word_separator(case).len() == 1,
        case == Case::Lower || case == Case::Upper ==> word_separator(case).len() == 0,
{
}

/// Putting a character written as it is, after a separator or not, in
/// front of a text in converted form keeps the form.
proof fn lemma_form_prepend(case: Case, x: char, starts: bool, rest: Seq<char>)
    requires
        is_flat_case(case),
        kept_as_is(case, x),
        in_converted_form(case, rest),
    ensures
        in_converted_form(case, (if starts { word_separator(case) } else { Seq::<char>::empty() }) + seq![x] + rest),
{
    lemma_separator(case);
    let sep = if starts { word_separator(case) } else { Seq::<char>::empty() };
    let t = sep + seq![x] + rest;
    let k = sep.len() + 1;
    assert forall|j: int| 0 <= j < t.len() implies kept_as_is(case, #[trigger] t[j]) || (word_separator(case).len() == 1
        && t[j] == word_separator(case)[0] && j + 1 < t.len() && kept_as_is(case, t[j + 1])) by {
        if j >= k {
            assert(t[j] == rest[j - k]);
            if j + 1 < t.len() {
                assert(t[j + 1] == rest[j + 1 - k]);
            }
        } else if j == k - 1 {
            assert(t[j] == x);
        } else {
            assert(t[j] == word_separator(case)[0]);
            assert(t[j + 1] == x);
        }
    }
}

/// The conversion of ASCII text to a flat case is in converted form.
proof fn lemma_convert_from_form(case: Case, s: Seq<char>, i: int, starts_word: bool)
    requires
        is_flat_case(case),
        forall|j: int| 0 <= j < s.len() ==> is_ascii_char(#[trigger] s[j]),
        0 <= i <= s.len(),
    ensures
        in_converted_form(case, convert_from(case, s, i, starts_word)),
    decreases s.len() - i,
{
    if i < s.len() {
        let c = s[i];
        if is_dropped(case, c) {
            lemma_convert_from_form(case, s, i + 1, true);
        } else {
            let has_next = i + 1 < s.len();
            let starts = starts_word || (has_next && i != 0 && upper_prop(c) && lower_prop(s[i + 1]));
            let next_starts = has_next && lower_prop(c) && upper_prop(s[i + 1]);
            lemma_ascii_mapped(case, c);
            lemma_convert_from_form(case, s, i + 1, next_starts);
            let x = if lowers_letters(case) { ascii_lower_char(c) } else { ascii_upper_char(c) };
            lemma_form_prepend(case, x, starts, convert_from(case, s, i + 1, next_starts));
        }
    } else {
        assert(convert_from(case, s, i, starts_word) =~= Seq::<char>::empty());
    }
}

/// Converting a text in converted form to its case from position `i` on
/// gives it back from `i` on.
proof fn lemma_convert_form_back(case: Case, t: Seq<char>, i: int)
    requires
        is_flat_case(case),
        in_converted_form(case, t),
        0 <= i <= t.len(),
        i < t.len() ==> kept_as_is(case, t[i]) || (word_separator(case).len() == 1 && t[i] == word_separator(case)[0]),
    ensures
        convert_from(case, t, i, false) == t.skip(i),
    decreases t.len() - i,
{
    lemma_separator(case);
    if i < t.len() {
        let c = t[i];
        if kept_as_is(case, c) {
            lemma_ascii_mapped(case, c);
            if i + 1 < t.len() {
                assert(kept_as_is(case, t[i + 1]) || (word_separator(case).len() == 1 && t[i + 1] == word_separator(case)[0]));
            }
            lemma_convert_form_back(case, t, i + 1);
            assert(t.skip(i) =~= seq![c] + t.skip(i + 1));
            assert(convert_from(case, t, i, false) == Seq::<char>::empty() + seq![c] + convert_from(case, t, i + 1, false));
        } else {
            let x = t[i + 1];
            assert(kept_as_is(case, x));
            lemma_ascii_mapped(case, x);
            if i + 2 < t.len() {
                assert(kept_as_is(case, t[i + 2]) || (word_separator(case).len() == 1 && t[i + 2] == word_separator(case)[0]));
            }
            lemma_convert_form_back(case, t, i + 2);
            assert(convert_from(case, t, i, false) == convert_from(case, t, i + 1, true));
            assert(convert_from(case, t, i + 1, true) == word_separator(case) + seq![x] + convert_from(case, t, i + 2, false));
            assert(t.skip(i) =~= word_separator(case) + seq![x] + t.skip(i + 2));
        }
    } else {
        assert(t.skip(i) =~= Seq::<char>::empty());
    }
}

/// Conversion of ASCII text to snake_case, kebab-case, CONSTANT_CASE,
/// lowercase or UPPERCASE writes ASCII letters in the case's letter case and
/// digits, and each separator it writes is followed by one of them: never two
/// separators in a row, nor one at the end.
pub proof fn law_convert_ascii_form(case: Case, s: Seq<char>)
    requires
        is_flat_case(case),
        forall|j: int| 0 <= j < s.len() ==> is_ascii_char(#[trigger] s[j]),
    ensures
        in_converted_form(case, convert_spec(case, s)),
{
    if s.len() > 0 {
        lemma_convert_from_form(case, s, 0, false);
    }
}

/// The characters that conversion of ASCII text writes: lowercase letters,
/// digits and `_` for snake_case; lowercase letters, digits and `-` for
/// kebab-case; uppercase letters, digits and `_` for CONSTANT_CASE;
/// lowercase letters and digits for lowercase; uppercase letters and digits
/// for UPPERCASE.
pub proof fn law_convert_ascii_alphabet(case: Case, s: Seq<char>)
    requires
        is_flat_case(case),
        forall|j: int| 0 <= j < s.len() ==> is_ascii_char(#[trigger] s[j]),
    ensures
        forall|j: int| 0 <= j < convert_spec(case, s).len() ==> {
            let c = #[trigger] convert_spec(case, s)[j];
            let lower_or_digit = ('a' <= c && c <= 'z') || ('0' <= c && c <= '9');
            let upper_or_digit = ('A' <= c && c <= 'Z') || ('0' <= c && c <= '9');
            &&& case == Case::Snake ==> lower_or_digit || c == '_'
            &&& case == Case::Kebab ==> lower_or_digit || c == '-'
            &&& case == Case::Constant ==> upper_or_digit || c == '_'
            &&& case == Case::Lower ==> lower_or_digit
            &&& case == Case::Upper ==> upper_or_digit
        },
{
    law_convert_ascii_form(case, s);
    let t = convert_spec(case, s);
    assert forall|j: int| 0 <= j < t.len() implies {
        let c = #[trigger] t[j];
        let lower_or_digit = ('a' <= c && c <= 'z') || ('0' <= c && c <= '9');
        let upper_or_digit = ('A' <= c && c <= 'Z') || ('0' <= c && c <= '9');
        &&& case == Case::Snake ==> lower_or_digit || c == '_'
        &&& case == Case::Kebab ==> lower_or_digit || c == '-'
        &&& case == Case::Constant ==> upper_or_digit || c == '_'
        &&& case == Case::Lower ==> lower_or_digit
        &&& case == Case::Upper ==> upper_or_digit
    } by {
        assert(kept_as_is(case, t[j]) || (word_separator(case).len() == 1 && t[j] == word_separator(case)[0]
            && j + 1 < t.len() && kept_as_is(case, t[j + 1])));
    }
}

/// Converting ASCII text to snake_case, kebab-case, CONSTANT_CASE, lowercase
/// or UPPERCASE a second time changes nothing.
pub proof fn law_convert_ascii_idempotent(case: Case, s: Seq<char>)
    requires
        is_flat_case(case),
        forall|j: int| 0 <= j < s.len() ==> is_ascii_char(#[trigger] s[j]),
    ensures
        convert_spec(case, convert_spec(case, s)) == convert_spec(case, s),
{
    let t = convert_spec(case, s);
    law_convert_ascii_form(case, s);
    if s.len() > 0 && t.len() > 0 {
        assert(kept_as_is(case, t[0]) || (word_separator(case).len() == 1 && t[0] == word_separator(case)[0]));
        lemma_convert_form_back(case, t, 0);
        assert(t.skip(0) =~= t);
    }
}

/// `t` with every character `from` replaced by the characters `to`.
pub open spec fn replace_char(t: Seq<char>, from: char, to: Seq<char>) -> Seq<char>
    decreases t.len(),
{
    if t.len() == 0 {
        Seq::empty()
    } else {
        (if t[0] == from { to } else { seq![t[0]] }) + replace_char(t.drop_first(), from, to)
    }
}

proof fn lemma_replace_concat(a: Seq<char>, b: Seq<char>, from: char, to: Seq<char>)
    ensures
        replace_char(a + b, from, to) == replace_char(a, from, to) + replace_char(b, from, to),
    decreases a.len(),
{
    if a.len() == 0 {
        assert(a + b =~= b);
        assert(replace_char(a, from, to) + replace_char(b, from, to) =~= replace_char(b, from, to));
    } else {
        assert((a + b).drop_first() =~= a.drop_first() + b);
        lemma_replace_concat(a.drop_first(), b, from, to);
        let h = if a[0] == from { to } else { seq![a[0]] };
        assert(h + (replace_char(a.drop_first(), from, to) + replace_char(b, from, to)) =~= h + replace_char(
            a.drop_first(),
            from,
            to,
        ) + replace_char(b, from, to));
    }
}

proof fn lemma_replace_absent(t: Seq<char>, from: char, to: Seq<char>)
    requires
        !t.contains(from),
    ensures
        replace_char(t, from, to) == t,
    decreases t.len(),
{
    if t.len() > 0 {
        assert(!t.drop_first().contains(from)) by {
            if t.drop_first().contains(from) {
                let k = choose|k: int| 0 <= k < t.drop_first().len() && t.drop_first()[k] == from;
                assert(t[k + 1] == from);
            }
        }
        assert(t[0] != from) by {
            if t[0] == from {
                assert(t.contains(from));
            }
        }
        lemma_replace_absent(t.drop_first(), from, to);
        assert(seq![t[0]] + t.drop_first() =~= t);
    }
}

/// Whether the flat case `target` is the flat case `base` with its
/// separator `_` written as `to`.
pub open spec fn is_respelling(target: Case, base: Case, to: Seq<char>) -> bool {
    ||| target == Case::Kebab && base == Case::Snake && to == seq!['-']
    ||| target == Case::Lower && base == Case::Snake && to == Seq::<char>::empty()
    ||| target == Case::Upper && base == Case::Constant && to == Seq::<char>::empty()
}

/// Whether no character of `s` beyond ASCII lowers or raises to text that
/// holds `_`.
pub open spec fn mappings_without_underscore(s: Seq<char>) -> bool {
    forall|j: int|
        0 <= j < s.len() && !is_ascii_char(#[trigger] s[j]) ==> !lower_mapping(s[j]).contains('_')
            && !upper_mapping(s[j]).contains('_')
}

proof fn lemma_convert_respelled(target: Case, base: Case, to: Seq<char>, s: Seq<char>, i: int, starts_word: bool)
    requires
        is_respelling(target, base, to),
        mappings_without_underscore(s),
        0 <= i <= s.len(),
    ensures
        convert_from(target, s, i, starts_word) == replace_char(convert_from(base, s, i, starts_word), '_', to),
    decreases s.len() - i,
{
    if i < s.len() {
        let c = s[i];
        if is_dropped(base, c) {
            lemma_convert_respelled(target, base, to, s, i + 1, true);
        } else {
            let has_next = i + 1 < s.len();
            let starts = starts_word || (has_next && i != 0 && upper_prop(c) && lower_prop(s[i + 1]));
            let next_starts = has_next && lower_prop(c) && upper_prop(s[i + 1]);
            let cc = converted_char(base, c, starts, i == 0);
            assert(converted_char(target, c, starts, i == 0) == cc);
            assert(!cc.contains('_')) by {
                if is_ascii_char(c) {
                    assert(cc[0] != '_');
                } else {
                    assert(!lower_mapping(c).contains('_') && !upper_mapping(c).contains('_'));
                }
            }
            lemma_replace_absent(cc, '_', to);
            let sep_b = if starts { word_separator(base) } else { Seq::<char>::empty() };
            let sep_t = if starts { word_separator(target) } else { Seq::<char>::empty() };
            assert(replace_char(sep_b, '_', to) == sep_t) by {
                if starts {
                    reveal_with_fuel(replace_char, 2);
                    assert(seq!['_'].drop_first() =~= Seq::<char>::empty());
                    assert(to + Seq::<char>::empty() =~= to);
                }
            }
            let rest_b = convert_from(base, s, i + 1, next_starts);
            lemma_convert_respelled(target, base, to, s, i + 1, next_starts);
            lemma_replace_concat(sep_b + cc, rest_b, '_', to);
            lemma_replace_concat(sep_b, cc, '_', to);
        }
    }
}

/// Conversion to kebab-case is conversion to snake_case with each `_`
/// written `-`; conversion to lowercase is conversion to snake_case without
/// its `_`; conversion to UPPERCASE is conversion to CONSTANT_CASE without
/// its `_` (so long as no character beyond ASCII lowers or raises to text
/// with `_`).
pub proof fn law_kebab_lower_upper_respell_snake_constant(s: Seq<char>)
    requires
        mappings_without_underscore(s),
    ensures
        convert_spec(Case::Kebab, s) == replace_char(convert_spec(Case::Snake, s), '_', seq!['-']),
        convert_spec(Case::Lower, s) == replace_char(convert_spec(Case::Snake, s), '_', Seq::<char>::empty()),
        convert_spec(Case::Upper, s) == replace_char(convert_spec(Case::Constant, s), '_', Seq::<char>::empty()),
{
    if s.len() > 0 {
        lemma_convert_respelled(Case::Kebab, Case::Snake, seq!['-'], s, 0, false);
        lemma_convert_respelled(Case::Lower, Case::Snake, Seq::<char>::empty(), s, 0, false);
        lemma_convert_respelled(Case::Upper, Case::Constant, Seq::<char>::empty(), s, 0, false);
    } else {
        assert(replace_char(s, '_', seq!['-']) =~= s);
        assert(replace_char(s, '_', Seq::<char>::empty()) =~= s);
    }
}

/// A new word starts before a kept uppercase character (not the first)
/// that is followed by a lowercase one, whatever came before it: the
/// conversion from there is the same whether or not a word was already due.
pub proof fn law_word_starts_before_upper_then_lower(case: Case, s: Seq<char>, k: int)
    requires
        0 < k,
        k + 1 < s.len(),
        upper_prop(s[k]),
        lower_prop(s[k + 1]),
        !is_dropped(case, s[k]),
    ensures
        convert_from(case, s, k, false) == convert_from(case, s, k, true),
{
}

/// A new word starts after a kept lowercase character (that is not also
/// uppercase) followed by an uppercase one: the conversion from the
/// lowercase character is that of the text cut after it, then a new word.
pub proof fn law_word_starts_after_lower_then_upper(case: Case, s: Seq<char>, k: int, starts_word: bool)
    requires
        0 <= k,
        k + 1 < s.len(),
        lower_prop(s[k]),
        !upper_prop(s[k]),
        upper_prop(s[k + 1]),
        !is_dropped(case, s[k]),
    ensures
        convert_from(case, s, k, starts_word) == convert_from(case, s.take(k + 1), k, starts_word) + convert_from(
            case,
            s,
            k + 1,
            true,
        ),
{
    let p = s.take(k + 1);
    assert(p[k] == s[k]);
    assert(convert_from(case, p, k + 1, false) == Seq::<char>::empty());
    let starts = starts_word;
    let piece = (if starts { word_separator(case) } else { Seq::<char>::empty() }) + converted_char(case, s[k], starts, k == 0);
    assert(convert_from(case, p, k, starts_word) == piece + Seq::<char>::empty());
    assert(piece + Seq::<char>::empty() =~= piece);
}

/// `t` with the `_` separators of a snake_case text removed and each
/// character that follows one raised to its ASCII uppercase.
pub open spec fn camelize(t: Seq<char>) -> Seq<char>
    decreases t.len(),
{
    if t.len() == 0 {
        Seq::empty()
    } else if t[0] == '_' && t.len() > 1 {
        seq![ascii_upper_char(t[1])] + camelize(t.skip(2))
    } else {
        seq![t[0]] + camelize(t.drop_first())
    }
}

proof fn lemma_camel_from_snake(s: Seq<char>, i: int, starts_word: bool)
    requires
        forall|j: int| 0 <= j < s.len() ==> is_ascii_char(#[trigger] s[j]),
        0 <= i <= s.len(),
    ensures
        convert_from(Case::Camel, s, i, starts_word) == camelize(convert_from(Case::Snake, s, i, starts_word)),
        convert_from(Case::Pascal, s, i, starts_word) == convert_from(Case::Camel, s, i, starts_word),
    decreases s.len() - i,
{
    if i < s.len() {
        let c = s[i];
        if is_dropped(Case::Snake, c) {
            lemma_camel_from_snake(s, i + 1, true);
        } else {
            let has_next = i + 1 < s.len();
            let starts = starts_word || (has_next && i != 0 && upper_prop(c) && lower_prop(s[i + 1]));
            let next_starts = has_next && lower_prop(c) && upper_prop(s[i + 1]);
            lemma_camel_from_snake(s, i + 1, next_starts);
            let rest = convert_from(Case::Snake, s, i + 1, next_starts);
            let x = ascii_lower_char(c);
            assert(x != '_');
            assert(ascii_upper_char(x) == ascii_upper_char(c));
            if starts {
                let t = seq!['_', x] + rest;
                assert(convert_from(Case::Snake, s, i, starts_word) == seq!['_'] + seq![x] + rest);
                assert(seq!['_'] + seq![x] + rest =~= t);
                assert(t.skip(2) =~= rest);
                assert(camelize(t) == seq![ascii_upper_char(x)] + camelize(t.skip(2)));
            } else {
                let t = seq![x] + rest;
                assert(convert_from(Case::Snake, s, i, starts_word) == Seq::<char>::empty() + seq![x] + rest);
                assert(Seq::<char>::empty() + seq![x] + rest =~= t);
                assert(t.drop_first() =~= rest);
            }
        }
    }
}

/// For ASCII text, camelCase is snake_case with each `_` removed and the
/// character after it raised to uppercase, and PascalCase is camelCase
/// with a word starting at the first character: so both start words where
/// snake_case does.
pub proof fn law_camel_pascal_follow_snake_words(s: Seq<char>)
    requires
        forall|j: int| 0 <= j < s.len() ==> is_ascii_char(#[trigger] s[j]),
    ensures
        convert_spec(Case::Camel, s) == camelize(convert_spec(Case::Snake, s)),
        convert_spec(Case::Pascal, s) == convert_from(Case::Camel, s, 0, true),
{
    if s.len() > 0 {
        lemma_camel_from_snake(s, 0, false);
        lemma_camel_from_snake(s, 0, true);
    } else {
        assert(camelize(s) =~= s);
    }
}

/// Conversion to [Case::Unknown] or [Case::Number] gives back the input.
pub proof fn law_convert_unknown_or_number_is_identity(case: Case, s: Seq<char>)
    requires
        case == Case::Unknown || case == Case::Number,
    ensures
        convert_spec(case, s) == s,
{
}

} // verus!
