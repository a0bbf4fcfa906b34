use std::borrow::Cow;
use std::cmp::Ordering;

use biome_text::case::Case;
use biome_text::collate::Collator;
use biome_text::cases::{Cases, LEADING_BIT_INDEX_TO_CASE};
use biome_text::str_ext::{StrLikeExtension, StrOnlyExtension};
use biome_text::weights::CldrAsciiCollator;

#[test]
fn test_case_identify() {
    let no_effect = true;

    assert_eq!(Case::identify("100", no_effect), Case::Number);

    assert_eq!(Case::identify("aHttpServer", no_effect), Case::Camel);
    assert_eq!(Case::identify("aHTTPServer", true), Case::Unknown);
    assert_eq!(Case::identify("aHTTPServer", false), Case::Camel);
    assert_eq!(Case::identify("v8Engine", no_effect), Case::Camel);
    assert_eq!(Case::identify("2024Edition", no_effect), Case::Camel);

    assert_eq!(Case::identify("HTTP_SERVER", no_effect), Case::Constant);
    assert_eq!(Case::identify("V8_ENGINE", no_effect), Case::Constant);
    assert_eq!(Case::identify("2024_EDITION", no_effect), Case::Unknown);

    assert_eq!(Case::identify("http-server", no_effect), Case::Kebab);
    assert_eq!(Case::identify("2024-edition", no_effect), Case::Kebab);

    assert_eq!(Case::identify("httpserver", no_effect), Case::Lower);

    assert_eq!(Case::identify("T", no_effect), Case::NumberableCapital);
    assert_eq!(Case::identify("T1", no_effect), Case::NumberableCapital);

    assert_eq!(Case::identify("HttpServer", no_effect), Case::Pascal);
    assert_eq!(Case::identify("HTTPServer", true), Case::Unknown);
    assert_eq!(Case::identify("HTTPServer", false), Case::Pascal);
    assert_eq!(Case::identify("V8Engine", true), Case::Pascal);

    assert_eq!(Case::identify("http_server", no_effect), Case::Snake);
    assert_eq!(Case::identify("2024_edition", no_effect), Case::Snake);

    assert_eq!(Case::identify("HTTPSERVER", no_effect), Case::Upper);
    assert_eq!(Case::identify("2024EDITION", no_effect), Case::Unknown);

    assert_eq!(Case::identify("100안녕하세요", no_effect), Case::Uni);
    assert_eq!(Case::identify("안녕하세요", no_effect), Case::Uni);

    // Don't allow identifiers that starts/ends with a delimiter
    assert_eq!(Case::identify("-a", no_effect), Case::Unknown);
    assert_eq!(Case::identify("_a", no_effect), Case::Unknown);
    assert_eq!(Case::identify("a-", no_effect), Case::Unknown);
    assert_eq!(Case::identify("a_", no_effect), Case::Unknown);

    // Don't allow identifiers that use consecutive delimiters
    assert_eq!(Case::identify("a--a", no_effect), Case::Unknown);
    assert_eq!(Case::identify("a__a", no_effect), Case::Unknown);

    assert_eq!(Case::identify("", no_effect), Case::Unknown);
    assert_eq!(Case::identify("-", no_effect), Case::Unknown);
    assert_eq!(Case::identify("_", no_effect), Case::Unknown);
    assert_eq!(Case::identify("안녕하세요ABC", no_effect), Case::Unknown);
    assert_eq!(Case::identify("안녕하세요abc", no_effect), Case::Unknown);
    assert_eq!(Case::identify("안녕하세요_ABC", no_effect), Case::Unknown);
    assert_eq!(Case::identify("안녕하세요_abc", no_effect), Case::Unknown);
    assert_eq!(Case::identify("안녕하세요-abc", no_effect), Case::Unknown);
}

#[test]
fn test_cases_contains() {
    // Individual cases
    assert!(Cases::from(Case::Unknown).contains(Case::Unknown));
    assert!(!Cases::from(Case::Camel).contains(Case::Unknown));
    assert!(!Cases::from(Case::Constant).contains(Case::Unknown));
    assert!(!Cases::from(Case::Kebab).contains(Case::Unknown));
    assert!(!Cases::from(Case::Lower).contains(Case::Unknown));
    assert!(!Cases::from(Case::NumberableCapital).contains(Case::Unknown));
    assert!(!Cases::from(Case::Pascal).contains(Case::Unknown));
    assert!(!Cases::from(Case::Snake).contains(Case::Unknown));
    assert!(!Cases::from(Case::Uni).contains(Case::Unknown));
    assert!(!Cases::from(Case::Upper).contains(Case::Unknown));

    assert!(Cases::from(Case::Unknown).contains(Case::Camel));
    assert!(Cases::from(Case::Camel).contains(Case::Camel));
    assert!(!Cases::from(Case::Constant).contains(Case::Camel));
    assert!(!Cases::from(Case::Kebab).contains(Case::Camel));
    assert!(!Cases::from(Case::Lower).contains(Case::Camel));
    assert!(!Cases::from(Case::NumberableCapital).contains(Case::Camel));
    assert!(!Cases::from(Case::Pascal).contains(Case::Camel));
    assert!(!Cases::from(Case::Snake).contains(Case::Camel));
    assert!(!Cases::from(Case::Uni).contains(Case::Camel));
    assert!(!Cases::from(Case::Upper).contains(Case::Camel));

    assert!(Cases::from(Case::Unknown).contains(Case::Constant));
    assert!(!Cases::from(Case::Camel).contains(Case::Constant));
    assert!(Cases::from(Case::Constant).contains(Case::Constant));
    assert!(!Cases::from(Case::Kebab).contains(Case::Constant));
    assert!(!Cases::from(Case::Lower).contains(Case::Constant));
    assert!(!Cases::from(Case::NumberableCapital).contains(Case::Constant));
    assert!(!Cases::from(Case::Pascal).contains(Case::Constant));
    assert!(!Cases::from(Case::Snake).contains(Case::Constant));
    assert!(!Cases::from(Case::Uni).contains(Case::Constant));
    assert!(!Cases::from(Case::Upper).contains(Case::Constant));

    assert!(Cases::from(Case::Unknown).contains(Case::Kebab));
    assert!(!Cases::from(Case::Camel).contains(Case::Kebab));
    assert!(!Cases::from(Case::Constant).contains(Case::Kebab));
    assert!(Cases::from(Case::Kebab).contains(Case::Kebab));
    assert!(!Cases::from(Case::Lower).contains(Case::Kebab));
    assert!(!Cases::from(Case::NumberableCapital).contains(Case::Kebab));
    assert!(!Cases::from(Case::Pascal).contains(Case::Kebab));
    assert!(!Cases::from(Case::Snake).contains(Case::Kebab));
    assert!(!Cases::from(Case::Uni).contains(Case::Kebab));
    assert!(!Cases::from(Case::Upper).contains(Case::Kebab));

    assert!(Cases::from(Case::Unknown).contains(Case::Lower));
    assert!(Cases::from(Case::Camel).contains(Case::Lower));
    assert!(!Cases::from(Case::Constant).contains(Case::Lower));
    assert!(Cases::from(Case::Kebab).contains(Case::Lower));
    assert!(Cases::from(Case::Lower).contains(Case::Lower));
    assert!(!Cases::from(Case::NumberableCapital).contains(Case::Lower));
    assert!(!Cases::from(Case::Pascal).contains(Case::Lower));
    assert!(Cases::from(Case::Snake).contains(Case::Lower));
    assert!(!Cases::from(Case::Uni).contains(Case::Lower));
    assert!(!Cases::from(Case::Upper).contains(Case::Lower));

    assert!(Cases::from(Case::Unknown).contains(Case::NumberableCapital));
    assert!(!Cases::from(Case::Camel).contains(Case::NumberableCapital));
    assert!(Cases::from(Case::Constant).contains(Case::NumberableCapital));
    assert!(!Cases::from(Case::Kebab).contains(Case::NumberableCapital));
    assert!(!Cases::from(Case::Lower).contains(Case::NumberableCapital));
    assert!(Cases::from(Case::NumberableCapital).contains(Case::NumberableCapital));
    assert!(Cases::from(Case::Pascal).contains(Case::NumberableCapital));
    assert!(!Cases::from(Case::Snake).contains(Case::NumberableCapital));
    assert!(!Cases::from(Case::Uni).contains(Case::NumberableCapital));
    assert!(Cases::from(Case::Upper).contains(Case::NumberableCapital));

    assert!(Cases::from(Case::Unknown).contains(Case::Pascal));
    assert!(!Cases::from(Case::Camel).contains(Case::Pascal));
    assert!(!Cases::from(Case::Constant).contains(Case::Pascal));
    assert!(!Cases::from(Case::Kebab).contains(Case::Pascal));
    assert!(!Cases::from(Case::Lower).contains(Case::Pascal));
    assert!(!Cases::from(Case::NumberableCapital).contains(Case::Pascal));
    assert!(Cases::from(Case::Pascal).contains(Case::Pascal));
    assert!(!Cases::from(Case::Snake).contains(Case::Pascal));
    assert!(!Cases::from(Case::Uni).contains(Case::Pascal));
    assert!(!Cases::from(Case::Upper).contains(Case::Pascal));

    assert!(Cases::from(Case::Unknown).contains(Case::Snake));
    assert!(!Cases::from(Case::Camel).contains(Case::Snake));
    assert!(!Cases::from(Case::Constant).contains(Case::Snake));
    assert!(!Cases::from(Case::Kebab).contains(Case::Snake));
    assert!(!Cases::from(Case::Lower).contains(Case::Snake));
    assert!(!Cases::from(Case::NumberableCapital).contains(Case::Snake));
    assert!(!Cases::from(Case::Pascal).contains(Case::Snake));
    assert!(Cases::from(Case::Snake).contains(Case::Snake));
    assert!(!Cases::from(Case::Uni).contains(Case::Snake));
    assert!(!Cases::from(Case::Upper).contains(Case::Snake));

    assert!(Cases::from(Case::Unknown).contains(Case::Uni));
    assert!(!Cases::from(Case::Camel).contains(Case::Uni));
    assert!(!Cases::from(Case::Constant).contains(Case::Uni));
    assert!(!Cases::from(Case::Kebab).contains(Case::Uni));
    assert!(!Cases::from(Case::Lower).contains(Case::Uni));
    assert!(!Cases::from(Case::NumberableCapital).contains(Case::Uni));
    assert!(!Cases::from(Case::Pascal).contains(Case::Uni));
    assert!(!Cases::from(Case::Snake).contains(Case::Uni));
    assert!(Cases::from(Case::Uni).contains(Case::Uni));
    assert!(!Cases::from(Case::Upper).contains(Case::Uni));

    assert!(Cases::from(Case::Unknown).contains(Case::Upper));
    assert!(!Cases::from(Case::Camel).contains(Case::Upper));
    assert!(Cases::from(Case::Constant).contains(Case::Upper));
    assert!(!Cases::from(Case::Kebab).contains(Case::Upper));
    assert!(!Cases::from(Case::Lower).contains(Case::Upper));
    assert!(!Cases::from(Case::NumberableCapital).contains(Case::Upper));
    assert!(!Cases::from(Case::Pascal).contains(Case::Upper));
    assert!(!Cases::from(Case::Snake).contains(Case::Upper));
    assert!(!Cases::from(Case::Uni).contains(Case::Upper));
    assert!(Cases::from(Case::Upper).contains(Case::Upper));

    // Set of cases
    assert!((Case::Camel | Case::Kebab | Case::Snake).contains(Case::Camel));
    assert!((Case::Camel | Case::Kebab | Case::Snake).contains(Case::Kebab));
    assert!((Case::Camel | Case::Kebab | Case::Snake).contains(Case::Snake));
    assert!((Case::Camel | Case::Kebab | Case::Snake).contains(Case::Lower));
    assert!(!(Case::Camel | Case::Kebab | Case::Snake).contains(Case::Unknown));
    assert!(!(Case::Camel | Case::Kebab | Case::Snake).contains(Case::Constant));
    assert!(!(Case::Camel | Case::Kebab | Case::Snake).contains(Case::Upper));
    assert!(!(Case::Camel | Case::Kebab | Case::Snake).contains(Case::NumberableCapital));
    assert!(!(Case::Camel | Case::Kebab | Case::Snake).contains(Case::Uni));

    assert!((Case::Constant | Case::Upper).contains(Case::Constant));
    assert!((Case::Constant | Case::Upper).contains(Case::Upper));
    assert!((Case::Constant | Case::Upper).contains(Case::NumberableCapital));
    assert!(!(Case::Constant | Case::Upper).contains(Case::Unknown));
    assert!(!(Case::Constant | Case::Upper).contains(Case::Camel));
    assert!(!(Case::Constant | Case::Upper).contains(Case::Kebab));
    assert!(!(Case::Constant | Case::Upper).contains(Case::Snake));
    assert!(!(Case::Constant | Case::Upper).contains(Case::Lower));
    assert!(!(Case::Constant | Case::Upper).contains(Case::Uni));
}

#[test]
fn test_case_convert() {
    assert_eq!(Case::Camel.convert("camelCase"), "camelCase");
    assert_eq!(Case::Camel.convert("CONSTANT_CASE"), "constantCase");
    assert_eq!(Case::Camel.convert("kebab-case"), "kebabCase");
    assert_eq!(Case::Camel.convert("PascalCase"), "pascalCase");
    assert_eq!(Case::Camel.convert("snake_case"), "snakeCase");
    assert_eq!(Case::Camel.convert("Unknown_Style"), "unknownStyle");

    assert_eq!(Case::Constant.convert("camelCase"), "CAMEL_CASE");
    assert_eq!(Case::Constant.convert("CONSTANT_CASE"), "CONSTANT_CASE");
    assert_eq!(Case::Constant.convert("kebab-case"), "KEBAB_CASE");
    assert_eq!(Case::Constant.convert("PascalCase"), "PASCAL_CASE");
    assert_eq!(Case::Constant.convert("snake_case"), "SNAKE_CASE");
    assert_eq!(Case::Constant.convert("Unknown_Style"), "UNKNOWN_STYLE");

    assert_eq!(Case::Kebab.convert("camelCase"), "camel-case");
    assert_eq!(Case::Kebab.convert("CONSTANT_CASE"), "constant-case");
    assert_eq!(Case::Kebab.convert("kebab-case"), "kebab-case");
    assert_eq!(Case::Kebab.convert("PascalCase"), "pascal-case");
    assert_eq!(Case::Kebab.convert("snake_case"), "snake-case");
    assert_eq!(Case::Kebab.convert("Unknown_Style"), "unknown-style");

    assert_eq!(Case::Lower.convert("camelCase"), "camelcase");
    assert_eq!(Case::Lower.convert("CONSTANT_CASE"), "constantcase");
    assert_eq!(Case::Lower.convert("kebab-case"), "kebabcase");
    assert_eq!(Case::Lower.convert("PascalCase"), "pascalcase");
    assert_eq!(Case::Lower.convert("snake_case"), "snakecase");
    assert_eq!(Case::Lower.convert("Unknown_Style"), "unknownstyle");

    assert_eq!(Case::NumberableCapital.convert("LONG"), "L");

    assert_eq!(Case::Pascal.convert("camelCase"), "CamelCase");
    assert_eq!(Case::Pascal.convert("CONSTANT_CASE"), "ConstantCase");
    assert_eq!(Case::Pascal.convert("kebab-case"), "KebabCase");
    assert_eq!(Case::Pascal.convert("PascalCase"), "PascalCase");
    assert_eq!(Case::Pascal.convert("V8Engine"), "V8Engine");
    assert_eq!(Case::Pascal.convert("snake_case"), "SnakeCase");
    assert_eq!(Case::Pascal.convert("Unknown_Style"), "UnknownStyle");

    assert_eq!(Case::Snake.convert("camelCase"), "camel_case");
    assert_eq!(Case::Snake.convert("CONSTANT_CASE"), "constant_case");
    assert_eq!(Case::Snake.convert("kebab-case"), "kebab_case");
    assert_eq!(Case::Snake.convert("PascalCase"), "pascal_case");
    assert_eq!(Case::Snake.convert("snake_case"), "snake_case");
    assert_eq!(Case::Snake.convert("Unknown_Style"), "unknown_style");

    assert_eq!(Case::Upper.convert("camelCase"), "CAMELCASE");
    assert_eq!(Case::Upper.convert("CONSTANT_CASE"), "CONSTANTCASE");
    assert_eq!(Case::Upper.convert("kebab-case"), "KEBABCASE");
    assert_eq!(Case::Upper.convert("PascalCase"), "PASCALCASE");
    assert_eq!(Case::Upper.convert("snake_case"), "SNAKECASE");
    assert_eq!(Case::Upper.convert("Unknown_Style"), "UNKNOWNSTYLE");

    assert_eq!(Case::Uni.convert("안녕하세요"), "안녕하세요");
    assert_eq!(Case::Uni.convert("a안b녕c하_세D요E"), "안녕하세요");

    assert_eq!(Case::Unknown.convert("Unknown_Style"), "Unknown_Style");
}

#[test]
fn test_cases_iter() {
    fn vec(value: impl Into<Cases>) -> Vec<Case> {
        let mut iter = value.into().into_iter();
        let mut result = Vec::new();
        while let Some(case) = iter.next() {
            result.push(case);
        }
        result
    }

    assert_eq!(vec(Cases::empty()).as_slice(), &[]);
    assert_eq!(vec(Case::Unknown).as_slice(), &[Case::Unknown]);
    assert_eq!(vec(Case::Camel).as_slice(), &[Case::Camel]);
    assert_eq!(vec(Case::Kebab).as_slice(), &[Case::Kebab]);
    assert_eq!(vec(Case::Snake).as_slice(), &[Case::Snake]);
    assert_eq!(vec(Case::Lower).as_slice(), &[Case::Lower]);
    assert_eq!(vec(Case::Pascal).as_slice(), &[Case::Pascal]);
    assert_eq!(vec(Case::Constant).as_slice(), &[Case::Constant]);
    assert_eq!(vec(Case::Upper).as_slice(), &[Case::Upper]);
    assert_eq!(vec(Case::Uni).as_slice(), &[Case::Uni]);
    assert_eq!(vec(Case::Number).as_slice(), &[Case::Number]);
    assert_eq!(
        vec(Case::NumberableCapital).as_slice(),
        &[Case::NumberableCapital]
    );

    assert_eq!(
        vec(Case::Unknown | Case::Camel).as_slice(),
        &[Case::Unknown]
    );
    assert_eq!(
        vec(Case::Unknown | Case::Kebab).as_slice(),
        &[Case::Unknown]
    );
    assert_eq!(
        vec(Case::Unknown | Case::Snake).as_slice(),
        &[Case::Unknown]
    );
    assert_eq!(
        vec(Case::Unknown | Case::Lower).as_slice(),
        &[Case::Unknown]
    );
    assert_eq!(
        vec(Case::Unknown | Case::Pascal).as_slice(),
        &[Case::Unknown]
    );
    assert_eq!(
        vec(Case::Unknown | Case::Constant).as_slice(),
        &[Case::Unknown]
    );
    assert_eq!(
        vec(Case::Unknown | Case::Upper).as_slice(),
        &[Case::Unknown]
    );
    assert_eq!(
        vec(Case::Unknown | Case::NumberableCapital).as_slice(),
        &[Case::Unknown]
    );
    assert_eq!(vec(Case::Unknown | Case::Uni).as_slice(), &[Case::Unknown]);
    assert_eq!(
        vec(Case::Unknown | Case::Pascal | Case::Camel).as_slice(),
        &[Case::Unknown]
    );

    assert_eq!(vec(Case::Camel | Case::Lower).as_slice(), &[Case::Camel]);
    assert_eq!(vec(Case::Kebab | Case::Lower).as_slice(), &[Case::Kebab]);
    assert_eq!(vec(Case::Snake | Case::Lower).as_slice(), &[Case::Snake]);

    assert_eq!(vec(Case::Lower | Case::Number).as_slice(), &[Case::Lower]);
    assert_eq!(vec(Case::Camel | Case::Number).as_slice(), &[Case::Camel]);
    assert_eq!(vec(Case::Kebab | Case::Number).as_slice(), &[Case::Kebab]);
    assert_eq!(vec(Case::Snake | Case::Number).as_slice(), &[Case::Snake]);

    assert_eq!(
        vec(Case::Constant | Case::Upper).as_slice(),
        &[Case::Constant]
    );

    assert_eq!(
        vec(Case::Pascal | Case::NumberableCapital).as_slice(),
        &[Case::Pascal]
    );
    assert_eq!(
        vec(Case::Constant | Case::NumberableCapital).as_slice(),
        &[Case::Constant]
    );
    assert_eq!(
        vec(Case::Upper | Case::NumberableCapital).as_slice(),
        &[Case::Upper]
    );

    assert_eq!(
        vec(Case::Pascal | Case::Camel).as_slice(),
        &[Case::Camel, Case::Pascal]
    );
    assert_eq!(
        vec(Case::NumberableCapital | Case::Uni).as_slice(),
        &[Case::NumberableCapital, Case::Uni]
    );

    assert_eq!(
        vec(Case::Pascal
            | Case::Constant
            | Case::Camel
            | Case::Kebab
            | Case::Snake
            | Case::Uni)
        .as_slice(),
        &[
            Case::Camel,
            Case::Kebab,
            Case::Snake,
            Case::Pascal,
            Case::Constant,
            Case::Uni
        ]
    );
}

#[test]
fn test_leading_bit_to_case() {
    for (i, case) in LEADING_BIT_INDEX_TO_CASE.iter().enumerate() {
        assert_eq!(i as u16, 15u16 - case.bits().leading_zeros() as u16)
    }
}

fn count(cases: Cases) -> usize {
    let mut iter = cases.into_iter();
    let mut count = 0;
    while iter.next().is_some() {
        count += 1;
    }
    count
}

#[test]
fn test_size_hint_upper_limit() {
    let mut cases = Cases::empty();
    let mut max_count = 0;
    for case in LEADING_BIT_INDEX_TO_CASE {
        let count = count(cases | case);
        if count >= max_count {
            cases |= case;
            max_count = count;
        }
    }
    assert_eq!(cases.into_iter().size_hint().1, Some(max_count));
}

#[test]
fn to_ascii_lowercase_cow() {
    assert_eq!("test", "Test".to_ascii_lowercase_cow());
    assert_eq!(b"test", b"Test".to_ascii_lowercase_cow().as_ref());

    assert_eq!("test", "teSt".to_ascii_lowercase_cow());
    assert_eq!("te😀st", "te😀St".to_ascii_lowercase_cow());
    assert_eq!(b"test", b"teSt".to_ascii_lowercase_cow().as_ref());

    assert!(matches!("test".to_ascii_lowercase_cow(), Cow::Borrowed(_)));
}

#[test]
fn to_lowercase_cow() {
    assert_eq!("test", "Test".to_lowercase_cow());

    assert_eq!("test", "teSt".to_lowercase_cow());
    assert_eq!("te😀st", "te😀St".to_lowercase_cow());

    assert!(matches!("test".to_lowercase_cow(), Cow::Borrowed(_)));

    assert_eq!("ėest", "Ėest".to_lowercase_cow());

    assert_eq!("tešt", "teŠt".to_lowercase_cow());
    assert_eq!("te😀st", "te😀St".to_lowercase_cow());

    assert!(matches!("tešt".to_lowercase_cow(), Cow::Borrowed(_)));
}

#[test]
fn collation_weight_unique() {
    let weights = CldrAsciiCollator::weights();
    for weight in 0..=255 {
        assert!(weights.contains(&weight));
    }
}

#[test]
fn ascii_nat_ord() {
    assert_eq!("".ascii_nat_cmp(""), Ordering::Equal);
    assert_eq!("a".ascii_nat_cmp(""), Ordering::Greater);
    assert_eq!("".ascii_nat_cmp("a"), Ordering::Less);

    assert_eq!("ab".ascii_nat_cmp("ab"), Ordering::Equal);
    assert_eq!("abc".ascii_nat_cmp("ab"), Ordering::Greater);
    assert_eq!("ab".ascii_nat_cmp("abc"), Ordering::Less);

    assert_eq!("A".ascii_nat_cmp("a"), Ordering::Less);
    assert_eq!("a".ascii_nat_cmp("B"), Ordering::Less);

    assert_eq!("9".ascii_nat_cmp("10"), Ordering::Less);
    assert_eq!("10".ascii_nat_cmp("10"), Ordering::Equal);
    assert_eq!("10".ascii_nat_cmp("9"), Ordering::Greater);
    assert_eq!("09".ascii_nat_cmp("10"), Ordering::Less);
    assert_eq!("a00".ascii_nat_cmp("a01"), Ordering::Less);
    assert_eq!("a00b".ascii_nat_cmp("a01b"), Ordering::Less);

    assert_eq!("a10".ascii_nat_cmp("a009"), Ordering::Less);

    assert_eq!("1a".ascii_nat_cmp("9"), Ordering::Less);
    assert_eq!("9".ascii_nat_cmp("1a"), Ordering::Greater);

    assert_eq!("0".ascii_nat_cmp("a"), Ordering::Less);
}

#[test]
fn collation_sorts_numbers_and_letters_transitively() {
    // "9" < "10" < "a", and so "9" < "a": no byte that is not a digit
    // weighs between two digits.
    assert_eq!("9".ascii_nat_cmp("10"), Ordering::Less);
    assert_eq!("10".ascii_nat_cmp("a"), Ordering::Less);
    assert_eq!("9".ascii_nat_cmp("a"), Ordering::Less);
    // "$9" < "$10" < "0" with a symbol before the digits.
    assert_eq!("$9".ascii_nat_cmp("$10"), Ordering::Less);
    assert_eq!("$10".ascii_nat_cmp("0"), Ordering::Less);
    assert_eq!("$9".ascii_nat_cmp("0"), Ordering::Less);
    let mut names = vec!["b10", "a2", "b9", "a10", "A1", "_z"];
    names.sort_by(|a, b| a.ascii_nat_cmp(b));
    assert_eq!(names, vec!["_z", "A1", "a2", "a10", "b9", "b10"]);
}

#[test]
fn collation_is_equal_only_for_the_same_string() {
    assert_eq!("a01".ascii_nat_cmp("a01"), Ordering::Equal);
    assert_ne!("a01".ascii_nat_cmp("a1"), Ordering::Equal);
    assert_ne!("A".ascii_nat_cmp("a"), Ordering::Equal);
}

#[test]
fn identify_documented_examples() {
    assert_eq!(Case::identify("aHttpServer", true), Case::Camel);
    assert_eq!(Case::identify("aHTTPServer", true), Case::Unknown);
    assert_eq!(Case::identify("aHTTPServer", false), Case::Camel);
    assert_eq!(Case::identify("v8Engine", true), Case::Camel);
    assert_eq!(Case::identify("HTTP_SERVER", true), Case::Constant);
    assert_eq!(Case::identify("V8_ENGINE", true), Case::Constant);
    assert_eq!(Case::identify("http-server", true), Case::Kebab);
    assert_eq!(Case::identify("httpserver", true), Case::Lower);
    assert_eq!(Case::identify("T", true), Case::NumberableCapital);
    assert_eq!(Case::identify("T1", true), Case::NumberableCapital);
    assert_eq!(Case::identify("HttpServer", true), Case::Pascal);
    assert_eq!(Case::identify("HTTPServer", true), Case::Unknown);
    assert_eq!(Case::identify("HTTPServer", false), Case::Pascal);
    assert_eq!(Case::identify("V8Engine", true), Case::Pascal);
    assert_eq!(Case::identify("http_server", true), Case::Snake);
    assert_eq!(Case::identify("HTTPSERVER", true), Case::Upper);
    assert_eq!(Case::identify("100", true), Case::Number);
    assert_eq!(Case::identify("안녕하세요", true), Case::Uni);
    assert_eq!(Case::identify("", true), Case::Unknown);
    assert_eq!(Case::identify("_", true), Case::Unknown);
    assert_eq!(Case::identify("안녕하세요abc", true), Case::Unknown);
}

#[test]
fn convert_documented_examples() {
    assert_eq!(Case::Camel.convert("Http_SERVER"), "httpServer");
    assert_eq!(Case::Camel.convert("v8-Engine"), "v8Engine");
    assert_eq!(Case::Constant.convert("HttpServer"), "HTTP_SERVER");
    assert_eq!(Case::Constant.convert("v8-Engine"), "V8_ENGINE");
    assert_eq!(Case::Kebab.convert("Http_SERVER"), "http-server");
    assert_eq!(Case::Kebab.convert("v8Engine"), "v8-engine");
    assert_eq!(Case::Lower.convert("Http_SERVER"), "httpserver");
    assert_eq!(Case::NumberableCapital.convert("LONG"), "L");
    assert_eq!(Case::Pascal.convert("http_SERVER"), "HttpServer");
    assert_eq!(Case::Snake.convert("HttpServer"), "http_server");
    assert_eq!(Case::Upper.convert("Http_SERVER"), "HTTPSERVER");
}

#[test]
fn cases_documented_examples() {
    let camel_or_kebab = Case::Camel | Case::Kebab;
    assert!(camel_or_kebab.contains(Case::Camel));
    assert!(camel_or_kebab.contains(camel_or_kebab));
    let mut iter = camel_or_kebab.into_iter();
    let mut yielded = Vec::new();
    while let Some(case) = iter.next() {
        yielded.push(case);
    }
    assert_eq!(yielded.as_slice(), &[Case::Camel, Case::Kebab]);
    let mut iter = (Case::Camel | Case::Kebab | Case::Lower).into_iter();
    let mut yielded = Vec::new();
    while let Some(case) = iter.next() {
        yielded.push(case);
    }
    assert_eq!(yielded.as_slice(), &[Case::Camel, Case::Kebab]);
}

#[test]
fn lowercase_cow_gives_the_value_of_to_lowercase() {
    for text in ["Ėest", "ǅ", "𝐀", "tešt", "ΣΑΣ", "Test", "te😀St", ""] {
        let lower = text.to_lowercase();
        let by_like = text.to_ascii_lowercase_cow();
        let by_only = text.to_lowercase_cow();
        assert_eq!(by_like, lower);
        assert_eq!(by_only, lower);
        assert_eq!(matches!(by_like, Cow::Borrowed(_)), lower == text);
        assert_eq!(matches!(by_only, Cow::Borrowed(_)), lower == text);
        let bytes = text.as_bytes().to_ascii_lowercase_cow();
        assert_eq!(bytes.as_ref(), lower.as_bytes());
        assert_eq!(matches!(bytes, Cow::Borrowed(_)), lower == text);
    }
    assert_eq!("ėest", "Ėest".to_ascii_lowercase_cow());
    assert_eq!("ǆ", "ǅ".to_lowercase_cow());
    assert!(matches!("𝐀".to_lowercase_cow(), Cow::Borrowed(_)));
}

#[test]
fn lowercase_cow_of_bytes_that_are_not_utf8() {
    let bytes: &[u8] = b"AB\xffc";
    assert_eq!(bytes.to_ascii_lowercase_cow().as_ref(), b"ab\xffc");
    let lower: &[u8] = b"ab\xffc";
    assert!(matches!(lower.to_ascii_lowercase_cow(), Cow::Borrowed(_)));
}

#[test]
fn collator_compares_strings_and_bytes() {
    assert_eq!(CldrAsciiCollator.cmp_str("a9", "a10"), Ordering::Less);
    assert_eq!(CldrAsciiCollator.cmp_str("B", "a"), Ordering::Greater);
    assert_eq!(CldrAsciiCollator.cmp_bytes(b"a10", b"a9"), Ordering::Greater);
    assert_eq!(CldrAsciiCollator.cmp_bytes(b"x", b"x"), Ordering::Equal);
}

#[test]
fn decimal_renderings_are_in_number_order() {
    let numbers: Vec<u64> = (0..150).chain([999, 1000, 1001, 4095, 65536, u64::MAX - 1, u64::MAX]).collect();
    for m in &numbers {
        for n in &numbers {
            assert_eq!(m.to_string().ascii_nat_cmp(&n.to_string()), m.cmp(n), "{m} and {n}");
        }
    }
}

#[test]
fn converting_ascii_to_a_flat_case_twice_changes_nothing() {
    let inputs = ["fooBarBaz", "_leading", "trailing-", "a__b--c", "HTTPServer", "V8_ENGINE", "x1Y2z3", "", "--"];
    for case in [Case::Snake, Case::Kebab, Case::Constant, Case::Lower, Case::Upper] {
        for input in inputs {
            let once = case.convert(input);
            assert_eq!(case.convert(&once), once, "{case:?} of {input}");
        }
    }
}

#[test]
fn kebab_lower_and_upper_respell_snake_and_constant() {
    let inputs = ["fooBarBaz", "_leading", "HTTPServer", "V8_ENGINE", "a-b_c d", "ÉtéÀLaPlage"];
    for input in inputs {
        let snake = Case::Snake.convert(input);
        let constant = Case::Constant.convert(input);
        assert_eq!(Case::Kebab.convert(input), snake.replace('_', "-"));
        assert_eq!(Case::Lower.convert(input), snake.replace('_', ""));
        assert_eq!(Case::Upper.convert(input), constant.replace('_', ""));
    }
    assert_eq!(Case::Snake.convert("fooBar"), "foo_bar");
    assert_eq!(Case::Kebab.convert("fooBar"), "foo-bar");
}

#[test]
fn converting_ascii_never_doubles_or_trails_a_separator() {
    let inputs = ["foo__bar", "foo--bar", "-foo-", "_foo_", "a _-b", "HTTP_Server__x"];
    for (case, sep) in [(Case::Snake, "_"), (Case::Kebab, "-"), (Case::Constant, "_")] {
        for input in inputs {
            let out = case.convert(input);
            assert!(!out.contains(&format!("{sep}{sep}")), "{case:?} of {input}: {out}");
            assert!(!out.ends_with(sep), "{case:?} of {input}: {out}");
        }
    }
    assert_eq!(Case::Snake.convert("_foo_"), "_foo");
    assert_eq!(Case::Kebab.convert("a _-b"), "a-b");
}

#[test]
fn iteration_goes_down_the_leading_bits_and_collects_back() {
    let sets = [
        Cases::empty(),
        Case::Camel | Case::Kebab | Case::Snake | Case::Pascal | Case::Constant | Case::Uni,
        Case::Constant | Case::Upper,
        Cases::from(Case::Unknown),
        Case::Lower | Case::NumberableCapital,
    ];
    for set in sets {
        let mut iter = set.into_iter();
        let mut yielded: Vec<Case> = Vec::new();
        while let Some(case) = iter.next() {
            yielded.push(case);
        }
        for pair in yielded.windows(2) {
            assert!(pair[0].bits() > pair[1].bits());
            assert!(pair[0].bits().leading_zeros() < pair[1].bits().leading_zeros());
        }
        assert_eq!(iter.next(), None);
        assert_eq!(iter.next(), None);
        assert_eq!(Cases::from_cases(&yielded), set);
    }
    assert_eq!(Cases::from_cases(&[]), Cases::empty());
}

#[test]
fn identified_case_tells_which_characters_the_name_holds() {
    let names = ["foo_bar", "foo-bar", "fooBar", "FooBar", "FOO_BAR", "FOO", "A1", "42", "foo", "안녕", "V8_ENGINE"];
    for name in names {
        let case = Case::identify(name, false);
        for c in name.chars() {
            let allowed = c.is_ascii_digit()
                || match case {
                    Case::Number => false,
                    Case::Uni => c.is_alphanumeric() && !c.is_lowercase() && !c.is_uppercase(),
                    Case::Lower => c.is_lowercase(),
                    Case::Snake => c.is_lowercase() || c == '_',
                    Case::Kebab => c.is_lowercase() || c == '-',
                    Case::NumberableCapital | Case::Upper => c.is_uppercase(),
                    Case::Constant => c.is_uppercase() || c == '_',
                    Case::Camel | Case::Pascal => c.is_lowercase() || c.is_uppercase(),
                    Case::Unknown => true,
                };
            assert!(allowed, "{name}: {case:?} holds {c}");
        }
    }
    assert_eq!(Case::identify("fooBar", false), Case::Camel);
    assert_eq!(Case::identify("FooBar", false), Case::Pascal);
}
