use pvl::{Error, Value, ValueType};
use regex::Regex;

fn type_of(s: &str) -> ValueType {
    Value::determine_type(s)
}

#[test]
fn quoted_booleans_are_bool() {
    assert_eq!(type_of("\"TRUE\""), ValueType::Bool);
    assert_eq!(type_of("\"FALSE\""), ValueType::Bool);
    assert_eq!(type_of("\"True\""), ValueType::String);
    assert_eq!(type_of("\"TRUE \""), ValueType::String);
    assert_eq!(type_of("TRUE"), ValueType::Flag);
}

#[test]
fn parenthesized_texts_are_arrays() {
    for s in ["()", "(1,2,3)", "(\"a\", b)", "((x))", "(\"TRUE\")", "(3.14)"] {
        assert_eq!(type_of(s), ValueType::Array, "{}", s);
    }
}

#[test]
fn array_elements_keep_their_type_when_reclassified() {
    let v = Value::new("(1,2.5,\"s\",FLAG,2#01#,x y)");
    let elems = v.parse_array().unwrap();
    let types: Vec<ValueType> = elems.iter().map(|e| e.value_type()).collect();
    assert_eq!(
        types,
        vec![
            ValueType::Integer,
            ValueType::Float,
            ValueType::String,
            ValueType::Flag,
            ValueType::BitMask,
            ValueType::Undetermined,
        ]
    );
    for e in &elems {
        assert_eq!(Value::new(e.raw()).value_type(), e.value_type());
    }
}

#[test]
fn array_split_edges() {
    let raws = |s: &str| -> Vec<String> {
        Value::new(s).parse_array().unwrap().iter().map(|e| e.raw().to_string()).collect()
    };
    assert_eq!(raws("()"), vec![""]);
    assert_eq!(raws("(,)"), vec!["", ""]);
    assert_eq!(raws("(a, b)"), vec!["a", " b"]);
    assert_eq!(raws("(\"x,y\")"), vec!["\"x", "y\""]);
    assert!(matches!(Value::new("1,2").parse_array(), Err(Error::InvalidType)));
}

#[test]
fn bit_masks() {
    assert_eq!(type_of("2#0101#"), ValueType::BitMask);
    assert_eq!(type_of("#1#"), ValueType::BitMask);
    assert_eq!(type_of("16#01#"), ValueType::BitMask);
    assert_eq!(type_of("2#0102#"), ValueType::Undetermined);
    assert_eq!(type_of("2##"), ValueType::Undetermined);
    assert_eq!(type_of("9#01#"), ValueType::Undetermined);
    assert_eq!(type_of("5"), ValueType::Integer);
    assert_ne!(type_of("5"), ValueType::BitMask);
}

#[test]
fn numbers() {
    assert_eq!(type_of("3.14"), ValueType::Float);
    assert_eq!(type_of("-0.5 <s>"), ValueType::Float);
    assert_eq!(type_of("3."), ValueType::Integer);
    assert_eq!(type_of(".5"), ValueType::Undetermined);
    assert_eq!(type_of("-12"), ValueType::Integer);
    assert_eq!(type_of("1024 <BYTES>"), ValueType::Integer);
    assert_eq!(type_of("--7"), ValueType::Integer);
    assert_eq!(type_of("+7"), ValueType::Undetermined);
    assert_eq!(type_of("-"), ValueType::Undetermined);
}

#[test]
fn flags_and_the_rest() {
    assert_eq!(type_of("N_A"), ValueType::Flag);
    assert_eq!(type_of("ABC123"), ValueType::Flag);
    assert_eq!(type_of("_X"), ValueType::Flag);
    assert_eq!(type_of("X"), ValueType::Undetermined);
    assert_eq!(type_of("A_"), ValueType::Undetermined);
    assert_eq!(type_of("A1_B"), ValueType::Undetermined);
    assert_eq!(type_of("N/A"), ValueType::Undetermined);
    assert_eq!(type_of(""), ValueType::Undetermined);
    assert_eq!(type_of("\""), ValueType::Undetermined);
    assert_eq!(type_of("\"\""), ValueType::String);
}

/// The classification rules written as regular expressions, tried in order.
fn type_by_patterns(s: &str) -> ValueType {
    let rules = [
        ("^\"(TRUE|FALSE)\"$", ValueType::Bool),
        ("^\".*\"$", ValueType::String),
        ("^\\(.*\\)$", ValueType::Array),
        ("^-*[0-9]+\\.[0-9]", ValueType::Float),
        ("^-*[0-9]+([^#0-9]|$)", ValueType::Integer),
        ("^[a-zA-Z_]+[a-zA-Z0-9]+$", ValueType::Flag),
        ("^[1-8]*#[0-1]+#$", ValueType::BitMask),
    ];
    for (pattern, t) in rules {
        if Regex::new(pattern).unwrap().is_match(s) {
            return t;
        }
    }
    ValueType::Undetermined
}

#[test]
fn classification_agrees_with_patterns() {
    let samples = [
        "", "\"", "\"\"", "\"TRUE\"", "\"FALSE\"", "\"TRUE", "\"abc\"", "\"a\"b\"", "()", "(",
        "(1,2)", "(a", "3.14", "-3.1", "--3.1x", "3.", "3.x", "12", "-12", "1#", "12#", "1a",
        "1 2", "abc", "a", "_a1", "a_1", "a1_", "AB_CD9", "2#0101#", "#01#", "8#1#", "9#1#",
        "2#0101", "2#01#x", "x y", "é", "\"é\"", "(é)", "12é", "-", "-a", "0", "00", "0.0",
        "1.2.3", "#", "##",
    ];
    for s in samples {
        assert_eq!(type_of(s), type_by_patterns(s), "{:?}", s);
        assert_eq!(Value::new(s).value_type(), type_by_patterns(s), "{:?}", s);
    }
}

#[test]
fn integer_accessors() {
    assert_eq!(Value::new("255").parse_u8().unwrap(), 255);
    assert!(matches!(Value::new("256").parse_u8(), Err(Error::ValueTypeParseError)));
    assert!(matches!(Value::new("-1").parse_u8(), Err(Error::ValueTypeParseError)));
    assert_eq!(Value::new("-128").parse_i8().unwrap(), -128);
    assert!(matches!(Value::new("-129").parse_i8(), Err(Error::ValueTypeParseError)));
    assert_eq!(Value::new("65535").parse_u16().unwrap(), 65535);
    assert_eq!(Value::new("-32768").parse_i16().unwrap(), -32768);
    assert_eq!(Value::new("4294967295").parse_u32().unwrap(), u32::MAX);
    assert!(matches!(Value::new("4294967296").parse_u32(), Err(Error::ValueTypeParseError)));
    assert_eq!(Value::new("-2147483648").parse_i32().unwrap(), i32::MIN);
    assert_eq!(Value::new("18446744073709551615").parse_u64().unwrap(), u64::MAX);
    assert!(matches!(
        Value::new("18446744073709551616").parse_u64(),
        Err(Error::ValueTypeParseError)
    ));
    assert!(matches!(
        Value::new("99999999999999999999999999999999999999999").parse_u64(),
        Err(Error::ValueTypeParseError)
    ));
    assert_eq!(Value::new("-9223372036854775808").parse_i64().unwrap(), i64::MIN);
    assert_eq!(Value::new("9223372036854775807").parse_i64().unwrap(), i64::MAX);
    assert_eq!(Value::new("007").parse_u32().unwrap(), 7);
    assert!(matches!(Value::new("12 <BYTES>").parse_u32(), Err(Error::ValueTypeParseError)));
    assert!(matches!(Value::new("--5").parse_i32(), Err(Error::ValueTypeParseError)));
    assert!(matches!(Value::new("3.14").parse_u32(), Err(Error::InvalidType)));
    assert!(matches!(Value::new("ABC").parse_i64(), Err(Error::InvalidType)));
}

#[test]
fn other_accessors() {
    assert!(matches!(Value::new("\"TRUE\"").parse_bool(), Err(Error::ValueTypeParseError)));
    assert!(matches!(Value::new("TRUE").parse_bool(), Err(Error::InvalidType)));
    assert_eq!(Value::new("\"abc\"").parse_string().unwrap(), "\"abc\"");
    assert!(matches!(Value::new("abc").parse_string(), Err(Error::InvalidType)));
    assert_eq!(Value::new("abc").parse_flag().unwrap(), "abc");
    assert!(matches!(Value::new("\"abc\"").parse_flag(), Err(Error::InvalidType)));
}

#[test]
fn raw_text_is_kept() {
    let v = Value::new("  spaced é ");
    assert_eq!(v.raw(), "  spaced é ");
    assert_eq!(v.value_type(), ValueType::Undetermined);
}
