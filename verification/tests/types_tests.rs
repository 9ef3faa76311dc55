use csvpeek::number::Decimal;
use csvpeek::text::to_chars;
use csvpeek::types::{is_null, parse_value, promote, DataType, Value};

fn decimal(s: &str) -> Decimal {
    csvpeek::number::parse_decimal(&to_chars(s)).expect("a number")
}

#[test]
fn test_parse_value_integer() {
    let (dtype, val) = parse_value("42");
    assert_eq!(dtype, DataType::Integer);
    assert_eq!(val, Value::Integer(42));

    let (dtype, val) = parse_value("-123");
    assert_eq!(dtype, DataType::Integer);
    assert_eq!(val, Value::Integer(-123));

    let (dtype, val) = parse_value("  100  ");
    assert_eq!(dtype, DataType::Integer);
    assert_eq!(val, Value::Integer(100));
}

#[test]
fn test_parse_value_float() {
    let (dtype, _) = parse_value("3.14");
    assert_eq!(dtype, DataType::Float);

    let (dtype, _) = parse_value("-2.5");
    assert_eq!(dtype, DataType::Float);

    let (dtype, _) = parse_value("1.0");
    assert_eq!(dtype, DataType::Float);
}

#[test]
fn test_parse_value_boolean() {
    let (dtype, val) = parse_value("true");
    assert_eq!(dtype, DataType::Boolean);
    assert_eq!(val, Value::Boolean(true));

    let (dtype, val) = parse_value("false");
    assert_eq!(dtype, DataType::Boolean);
    assert_eq!(val, Value::Boolean(false));

    let (dtype, val) = parse_value("TRUE");
    assert_eq!(dtype, DataType::Boolean);
    assert_eq!(val, Value::Boolean(true));

    let (dtype, val) = parse_value("False");
    assert_eq!(dtype, DataType::Boolean);
    assert_eq!(val, Value::Boolean(false));
}

#[test]
fn test_parse_value_string() {
    let (dtype, val) = parse_value("hello");
    assert_eq!(dtype, DataType::String);
    assert_eq!(val, Value::String);

    let (dtype, val) = parse_value("hello world");
    assert_eq!(dtype, DataType::String);
    assert_eq!(val, Value::String);
}

#[test]
fn test_parse_value_empty() {
    let (dtype, val) = parse_value("");
    assert_eq!(dtype, DataType::String);
    assert_eq!(val, Value::Null);

    let (dtype, val) = parse_value("   ");
    assert_eq!(dtype, DataType::String);
    assert_eq!(val, Value::Null);
}

#[test]
fn test_is_null() {
    assert!(is_null(""));
    assert!(is_null("   "));
    assert!(is_null("null"));
    assert!(is_null("NULL"));
    assert!(is_null("Null"));
    assert!(is_null("na"));
    assert!(is_null("NA"));
    assert!(is_null("n/a"));
    assert!(is_null("N/A"));

    assert!(!is_null("0"));
    assert!(!is_null("false"));
    assert!(!is_null("none"));
    assert!(!is_null("hello"));
}

#[test]
fn test_datatype_display() {
    assert_eq!(DataType::Integer.to_string(), "integer");
    assert_eq!(DataType::Float.to_string(), "float");
    assert_eq!(DataType::Boolean.to_string(), "boolean");
    assert_eq!(DataType::String.to_string(), "string");
}

#[test]
fn null_words_are_null_values() {
    assert_eq!(parse_value("NA"), (DataType::String, Value::Null));
    assert_eq!(parse_value(" n/a "), (DataType::String, Value::Null));
    assert_eq!(parse_value("Null"), (DataType::String, Value::Null));
    assert_eq!(parse_value("none"), (DataType::String, Value::String));
}

#[test]
fn null_is_trimmed_by_unicode_white_space() {
    assert!(is_null("\u{3000}\t\u{a0}"));
    assert!(is_null("\u{2003}null\u{85}"));
    assert!(!is_null("\u{200b}"));
}

#[test]
fn integers_beyond_64_bits_are_floats() {
    assert_eq!(parse_value("9223372036854775807").1, Value::Integer(i64::MAX));
    assert_eq!(parse_value("-9223372036854775808").1, Value::Integer(i64::MIN));
    assert_eq!(parse_value("+7").1, Value::Integer(7));
    assert_eq!(parse_value("9223372036854775808").0, DataType::Float);
    assert_eq!(parse_value("-9223372036854775809").0, DataType::Float);
    assert_eq!(parse_value("9223372036854775808").1, Value::Float(decimal("9223372036854775808")));
}

#[test]
fn float_values_are_kept_exactly() {
    assert_eq!(parse_value("3.14").1, Value::Float(decimal("314e-2")));
    assert_eq!(decimal("3.14").to_string(), "3.14");
    assert_eq!(decimal("-0.00250").to_string(), "-0.0025");
    assert_eq!(decimal("1.5e3").to_string(), "1500");
    assert_eq!(decimal("12e-1").to_string(), "1.2");
    assert_eq!(decimal("000.000").to_string(), "0");
    assert_eq!(decimal("-0").to_string(), "0");
    assert_eq!(decimal(".5").to_string(), "0.5");
    assert_eq!(decimal("5.").to_string(), "5");
    assert_eq!(decimal("1E2").to_string(), "100");
}

#[test]
fn classification_of_floats_agrees_with_double_precision() {
    let limit = "179769313486231580793728971405303415079934132710037826936173778980444968292764750946649017977587207096330286416692887910946555547851940402630657488671505820681908902000708383676273854845817711531764475730270069855571366959622842914819860834936475292719074168444365510704342711559699508093042880177904174497792";
    let below = "179769313486231580793728971405303415079934132710037826936173778980444968292764750946649017977587207096330286416692887910946555547851940402630657488671505820681908902000708383676273854845817711531764475730270069855571366959622842914819860834936475292719074168444365510704342711559699508093042880177904174497791";
    let cases = [
        "1.5", "-1.5", "+1.5", ".5", "5.", ".", "", "-", "+", "e5", "1e5", "1E5", "1e+5", "1e-5",
        "1e", "1e+", "1.e3", ".e3", "1.2.3", "1_000", "0x10", "inf", "-inf", "infinity", "nan",
        "NaN", "1e308", "1e309", "1.7976931348623157e308", "1.7976931348623159e308",
        "0.17976931348623157e309", "17976931348623157e292", "1e-400", "-1e-400", "1e400",
        "1e99999999999999999999", "1e-99999999999999999999", "0e99999999999999999999",
        "0.0000000000000000000000001", "123456789012345678901234567890", "1 2", "1,5", "--1",
        "+-1", "1e5.5", "1f", "١٢٣", limit, below,
    ];
    for text in cases {
        let expected = match text.parse::<f64>() {
            Ok(v) => v.is_finite(),
            Err(_) => false,
        };
        let (dtype, _) = parse_value(text);
        let numeric = dtype == DataType::Float || dtype == DataType::Integer;
        assert_eq!(numeric, expected, "for the text {:?}", text);
    }
}

#[test]
fn numbers_are_ordered_by_value() {
    let ascending = [
        "-1e300", "-1000", "-999.5", "-1", "-0.5", "-1e-300", "0", "1e-300", "0.001", "0.01",
        "0.5", "1", "1.0001", "1.5", "2", "10", "99.99", "100", "1e10", "1e300",
    ];
    for i in 0..ascending.len() {
        for j in 0..ascending.len() {
            let a = decimal(ascending[i]);
            let b = decimal(ascending[j]);
            assert_eq!(a.less_than(&b), i < j, "{} < {}", ascending[i], ascending[j]);
            assert_eq!(a.same_as(&b), i == j);
        }
    }
    assert!(decimal("1.50").same_as(&decimal("15e-1")));
    assert!(decimal("0").same_as(&decimal("-0.0")));
    assert!(decimal("1e-400").same_as(&decimal("0")));
}

#[test]
fn promotion_is_the_least_upper_bound() {
    let (integer, float, boolean, string) =
        (DataType::Integer, DataType::Float, DataType::Boolean, DataType::String);
    assert_eq!(promote(integer, integer), integer);
    assert_eq!(promote(integer, float), float);
    assert_eq!(promote(float, integer), float);
    assert_eq!(promote(boolean, boolean), boolean);
    assert_eq!(promote(boolean, integer), string);
    assert_eq!(promote(integer, boolean), string);
    assert_eq!(promote(float, boolean), string);
    assert_eq!(promote(string, integer), string);
    assert_eq!(promote(float, string), string);
    let all = [integer, float, boolean, string];
    for a in all {
        for b in all {
            assert_eq!(promote(a, b), promote(b, a));
            for c in all {
                assert_eq!(promote(promote(a, b), c), promote(a, promote(b, c)));
            }
        }
    }
}

#[test]
fn null_words_in_every_case() {
    let cases = [
        "", " ", "null", "NULL", "nUlL", "na", "Na", "nA", "n/a", "N/a", "n/A", " null ", "nul",
        "nulls", "n a", "n\\a", "none", "nil", "-", "0", "NUL\u{212A}", "\u{FF2E}\u{FF21}",
        "\u{FF4E}\u{FF41}", "ｎｕｌｌ", "n/a\u{3000}", "\u{feff}", "na\u{0301}",
    ];
    for text in cases {
        let lowered = text.trim().to_lowercase();
        let expected = lowered.is_empty() || lowered == "null" || lowered == "na" || lowered == "n/a";
        assert_eq!(is_null(text), expected, "{:?}", text);
    }
}

#[test]
fn booleans_in_every_case() {
    for text in ["true", "TRUE", "True", "tRuE", " true ", "false", "FALSE", "fAlSe"] {
        let expected = text.trim().to_lowercase() == "true";
        assert_eq!(parse_value(text), (DataType::Boolean, Value::Boolean(expected)), "{:?}", text);
    }
    for text in ["tru", "truee", "yes", "no", "t", "f", "1", "0", "ｔｒｕｅ", "fal\u{17F}e"] {
        assert_ne!(parse_value(text).0, DataType::Boolean, "{:?}", text);
    }
}
