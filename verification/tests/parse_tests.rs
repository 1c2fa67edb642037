use minijson::chars_of;
use minijson::parse_array;
use minijson::parse_bool;
use minijson::parse_json;
use minijson::parse_json_with_limit;
use minijson::parse_null;
use minijson::parse_num;
use minijson::parse_object;
use minijson::parse_string;
use minijson::FloatLit;
use minijson::JsonValue;
use minijson::Num;
use minijson::ParseError;

/// The double-precision value of a numeric result, via the literal's
/// decimal components: the fractional digits are `frac_part` padded
/// with leading zeros to `frac_len` digits.
fn num_to_f64(n: &Num) -> f64 {
    match n {
        Num::Int(i) => *i as f64,
        Num::Float(FloatLit { neg, int_part, frac_part, frac_len, exp }) => {
            let sign = if *neg { "-" } else { "" };
            let width = if *frac_len == 0 { 1 } else { *frac_len };
            format!("{}{}.{:0width$}e{}", sign, int_part, frac_part, exp)
                .parse::<f64>()
                .unwrap()
        }
    }
}

#[test]
fn test_parse_null() {
    let input = chars_of("null");
    let ret = parse_null(&input, 0);
    assert_eq!(ret, Ok(4));
}

#[test]
fn test_parse_bool() {
    let input = chars_of("true");
    let ret = parse_bool(&input, 0).unwrap();
    assert!(ret.0);

    let input = chars_of("false");
    let ret = parse_bool(&input, 0).unwrap();
    assert!(!ret.0);
}

#[test]
fn test_parse_num() {
    let input = chars_of("123");
    let result = parse_num(&input, 0).unwrap().0;
    assert_eq!(result, Num::Int(123));

    let input = chars_of("-123");
    let result = parse_num(&input, 0).unwrap().0;
    assert_eq!(result, Num::Int(-123));

    let input = chars_of("123.456");
    let result = parse_num(&input, 0).unwrap().0;
    assert!(matches!(result, Num::Float(_)));
    assert_eq!(num_to_f64(&result), 123.456);

    let input = chars_of("-123.456");
    let result = parse_num(&input, 0).unwrap().0;
    assert!(matches!(result, Num::Float(_)));
    assert_eq!(num_to_f64(&result), -123.456);
}

#[test]
fn test_parse_string() {
    let input = chars_of("\"hello\"");
    let ret = parse_string(&input, 0).unwrap().0;
    assert_eq!(ret, "hello");
}

#[test]
fn test_parse_array() {
    let input = chars_of("[1, 2, 3]");
    let result = parse_array(&input, 0, 8).unwrap().0;
    assert_eq!(
        result,
        vec![
            JsonValue::Number(Num::Int(1)),
            JsonValue::Number(Num::Int(2)),
            JsonValue::Number(Num::Int(3))
        ]
    );

    let input = chars_of("[\"a\", \"b\", \"c\"]");
    let result = parse_array(&input, 0, 8).unwrap().0;
    assert_eq!(
        result,
        vec![
            JsonValue::String("a".to_string()),
            JsonValue::String("b".to_string()),
            JsonValue::String("c".to_string())
        ]
    );
}

#[test]
fn test_parse_science_notation() {
    let input = chars_of("1.23e4");
    let result = parse_num(&input, 0).unwrap().0;
    assert_eq!(num_to_f64(&result), 1.23e4);

    let input = chars_of("1.23e+4");
    let result = parse_num(&input, 0).unwrap().0;
    assert_eq!(num_to_f64(&result), 1.23e4);

    let input = chars_of("1.23e-4");
    let result = parse_num(&input, 0).unwrap().0;
    assert_eq!(num_to_f64(&result), 1.23e-4);
}

#[test]
fn test_parse_object() {
    let input = chars_of("{\"a\": 1, \"b\": 2}");
    let result = parse_object(&input, 0, 8).unwrap().0;
    let expected = vec![
        ("a".to_string(), JsonValue::Number(Num::Int(1))),
        ("b".to_string(), JsonValue::Number(Num::Int(2))),
    ];
    assert_eq!(result, expected);

    let input = chars_of("{\"a\": 1, \"b\": [1, 2, 3]}");
    let result = parse_object(&input, 0, 8).unwrap().0;
    let expected = vec![
        ("a".to_string(), JsonValue::Number(Num::Int(1))),
        (
            "b".to_string(),
            JsonValue::Array(vec![
                JsonValue::Number(Num::Int(1)),
                JsonValue::Number(Num::Int(2)),
                JsonValue::Number(Num::Int(3)),
            ]),
        ),
    ];
    assert_eq!(result, expected);
}

#[test]
fn test_integer_literals_roundtrip() {
    assert_eq!(parse_json("0"), Ok(JsonValue::Number(Num::Int(0))));
    assert_eq!(parse_json("+7"), Ok(JsonValue::Number(Num::Int(7))));
    assert_eq!(parse_json("-42"), Ok(JsonValue::Number(Num::Int(-42))));
    assert_eq!(
        parse_json("9223372036854775807"),
        Ok(JsonValue::Number(Num::Int(i64::MAX)))
    );
    assert_eq!(
        parse_json("-9223372036854775807"),
        Ok(JsonValue::Number(Num::Int(-i64::MAX)))
    );
    // One past 64 signed bits is malformed, at the start of the digit run.
    assert_eq!(
        parse_json("9223372036854775808"),
        Err(ParseError::MalformedNumber(0))
    );
}

#[test]
fn test_exponent_without_fraction() {
    // The grammar promotes an exponent-bearing literal to a float even
    // with no decimal point.
    let result = parse_num(&chars_of("1e3"), 0).unwrap().0;
    assert_eq!(
        result,
        Num::Float(FloatLit { neg: false, int_part: 1, frac_part: 0, frac_len: 0, exp: 3 })
    );
    assert_eq!(num_to_f64(&result), 1000.0);

    let result = parse_num(&chars_of("-2E-2"), 0).unwrap().0;
    assert_eq!(
        result,
        Num::Float(FloatLit { neg: true, int_part: 2, frac_part: 0, frac_len: 0, exp: -2 })
    );
    assert_eq!(num_to_f64(&result), -0.02);
}

#[test]
fn test_fraction_leading_zeros() {
    // Leading zeros of the fractional run carry their full weight.
    let result = parse_num(&chars_of("1.05"), 0).unwrap().0;
    assert_eq!(
        result,
        Num::Float(FloatLit { neg: false, int_part: 1, frac_part: 5, frac_len: 2, exp: 0 })
    );
    assert_eq!(num_to_f64(&result), 1.05);

    let result = parse_num(&chars_of("1.050"), 0).unwrap().0;
    assert_eq!(
        result,
        Num::Float(FloatLit { neg: false, int_part: 1, frac_part: 50, frac_len: 3, exp: 0 })
    );
    assert_eq!(num_to_f64(&result), 1.05);

    let result = parse_num(&chars_of("-0.005e2"), 0).unwrap().0;
    assert_eq!(
        result,
        Num::Float(FloatLit { neg: true, int_part: 0, frac_part: 5, frac_len: 3, exp: 2 })
    );
    assert_eq!(num_to_f64(&result), -0.5);

    // Distinct literals with distinct values stay distinct.
    let a = parse_num(&chars_of("1.05"), 0).unwrap().0;
    let b = parse_num(&chars_of("1.5"), 0).unwrap().0;
    assert_ne!(a, b);
}

#[test]
fn test_whitespace_insensitivity() {
    let bare = parse_json("[1,2,3]");
    assert_eq!(parse_json("[ 1 , 2 , 3 ]"), bare);
    assert_eq!(parse_json("[\n1\t,\r 2 ,  3\n]"), bare);
    assert_eq!(parse_json("  [1,2,3]"), bare);

    let bare = parse_json("{\"a\":1,\"b\":2}");
    assert_eq!(parse_json("{ \"a\" : 1 , \"b\" : 2 }"), bare);
    assert_eq!(parse_json("\t{\n\"a\"\t:\t1,\n\"b\" :2 }"), bare);
}

#[test]
fn test_failure_cases() {
    assert_eq!(parse_json(""), Err(ParseError::NoMatch(0)));
    assert_eq!(parse_json("{}"), Err(ParseError::NoMatch(1)));
    assert_eq!(parse_json("[1, 2,]"), Err(ParseError::NoMatch(6)));
    assert_eq!(parse_json("tru"), Err(ParseError::NoMatch(0)));
    assert_eq!(
        parse_json("\"unterminated"),
        Err(ParseError::UnterminatedString(0))
    );
}

#[test]
fn test_malformed_numbers() {
    assert_eq!(parse_json("+"), Err(ParseError::MalformedNumber(1)));
    assert_eq!(parse_json("-"), Err(ParseError::MalformedNumber(1)));
    assert_eq!(parse_json("1."), Err(ParseError::MalformedNumber(2)));
    assert_eq!(parse_json("1.e3"), Err(ParseError::MalformedNumber(2)));
    assert_eq!(parse_json("1e"), Err(ParseError::MalformedNumber(2)));
    assert_eq!(parse_json("1e+"), Err(ParseError::MalformedNumber(3)));
}

#[test]
fn test_empty_array_and_string() {
    assert_eq!(parse_json("[]"), Ok(JsonValue::Array(vec![])));
    assert_eq!(parse_json("[ ]"), Ok(JsonValue::Array(vec![])));
    assert_eq!(parse_json("\"\""), Ok(JsonValue::String(String::new())));
}

#[test]
fn test_object_duplicate_key_last_wins() {
    let result = parse_json("{\"a\": 1, \"b\": 2, \"a\": 3}").unwrap();
    let expected = JsonValue::Object(vec![
        ("a".to_string(), JsonValue::Number(Num::Int(3))),
        ("b".to_string(), JsonValue::Number(Num::Int(2))),
    ]);
    assert_eq!(result, expected);
}

#[test]
fn test_depth_budget() {
    assert_eq!(
        parse_json_with_limit("1", 0),
        Err(ParseError::DepthExceeded(0))
    );
    assert!(matches!(
        parse_json_with_limit("[[[[1]]]]", 3),
        Err(ParseError::DepthExceeded(_))
    ));
    assert!(parse_json_with_limit("[[[[1]]]]", 16).is_ok());
    assert!(parse_json("[[[[1]]]]").is_ok());
}

#[test]
fn test_idempotent_parse() {
    let text = "{\"a\": 1, \"b\": [1, 2.5, \"x\", null, true], \"c\": {\"d\": false}}";
    let first = parse_json(text);
    let second = parse_json(text);
    assert!(first.is_ok());
    assert_eq!(first, second);
}

#[test]
fn test_nested_structure() {
    let result = parse_json("{\"a\": 1, \"b\": [1, 2, 3]}").unwrap();
    match result {
        JsonValue::Object(entries) => {
            assert_eq!(entries.len(), 2);
            assert_eq!(entries[0].0, "a");
            assert_eq!(entries[0].1, JsonValue::Number(Num::Int(1)));
            assert_eq!(entries[1].0, "b");
            assert_eq!(
                entries[1].1,
                JsonValue::Array(vec![
                    JsonValue::Number(Num::Int(1)),
                    JsonValue::Number(Num::Int(2)),
                    JsonValue::Number(Num::Int(3)),
                ])
            );
        }
        other => panic!("expected an object, got {:?}", other),
    }
}

#[test]
fn test_keywords_and_trailing_input() {
    assert_eq!(parse_json("null"), Ok(JsonValue::Null));
    assert_eq!(parse_json("true"), Ok(JsonValue::Bool(true)));
    assert_eq!(parse_json("false"), Ok(JsonValue::Bool(false)));
    // The recognized value is a prefix; what follows it is left unread.
    assert_eq!(parse_json("123abc"), Ok(JsonValue::Number(Num::Int(123))));
    // But whitespace before a bare scalar is not discarded.
    assert_eq!(parse_json(" 1"), Err(ParseError::NoMatch(0)));
}
