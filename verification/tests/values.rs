use dobby::float_bits::int_to_float_bits;
use dobby::text::{parse_float_bits, parse_i64};
use dobby::types::{DataType, DbError, TypedValue};

fn f(x: f64) -> TypedValue {
    TypedValue::Float(x.to_bits())
}

#[test]
fn read_round_trips_every_kind() {
    let cases = vec![
        TypedValue::Int(42),
        TypedValue::Int(-7),
        TypedValue::Int(i64::MIN),
        f(1.23),
        f(-0.0),
        TypedValue::Char('x'),
        TypedValue::String("héllo, wörld".to_string()),
        TypedValue::String(String::new()),
    ];
    for v in cases {
        let t = v.data_type();
        let bytes = v.clone().into_bytes();
        let (back, end) = TypedValue::read(t, &bytes, 0).unwrap();
        assert_eq!(back, v);
        assert_eq!(end, bytes.len());
    }
}

#[test]
fn read_reports_short_data() {
    let r = TypedValue::read(DataType::Int, &[1, 2, 3], 0);
    assert!(matches!(r, Err(DbError::IoError(_))));
    let r = TypedValue::read(DataType::String, &8u64.to_le_bytes(), 0);
    assert!(matches!(r, Err(DbError::IoError(_))));
}

#[test]
fn read_rejects_invalid_utf8() {
    let mut bytes = 2u64.to_le_bytes().to_vec();
    bytes.push(0xFF);
    bytes.push(0xFE);
    let r = TypedValue::read(DataType::String, &bytes, 0);
    assert!(matches!(r, Err(DbError::IoError(_))));
}

#[test]
fn coerce_is_identity_on_own_type() {
    let cases = vec![
        TypedValue::Int(5),
        f(2.5),
        TypedValue::Char('q'),
        TypedValue::String("abc".to_string()),
    ];
    for v in cases {
        let t = v.data_type();
        assert_eq!(v.clone().coerce(t).unwrap(), v);
    }
}

#[test]
fn coerce_widens_int_to_float() {
    assert_eq!(TypedValue::Int(1).coerce(DataType::Float).unwrap(), f(1.0));
    assert_eq!(TypedValue::Int(-3).coerce(DataType::Float).unwrap(), f(-3.0));
    assert_eq!(
        TypedValue::Int(i64::MAX).coerce(DataType::Float).unwrap(),
        f(i64::MAX as f64)
    );
    assert_eq!(
        TypedValue::Int(i64::MIN).coerce(DataType::Float).unwrap(),
        f(i64::MIN as f64)
    );
    // a value whose magnitude needs rounding to 53 bits
    assert_eq!(
        TypedValue::Int(123456789123456789).coerce(DataType::Float).unwrap(),
        f(123456789123456789i64 as f64)
    );
}

#[test]
fn coerce_parses_strings() {
    let s = |x: &str| TypedValue::String(x.to_string());
    assert_eq!(s("42").coerce(DataType::Int).unwrap(), TypedValue::Int(42));
    assert_eq!(s("-7").coerce(DataType::Int).unwrap(), TypedValue::Int(-7));
    assert_eq!(s("+9").coerce(DataType::Int).unwrap(), TypedValue::Int(9));
    assert_eq!(s("1.23").coerce(DataType::Float).unwrap(), f(1.23));
    assert_eq!(s("0.1").coerce(DataType::Float).unwrap(), f(0.1));
    assert_eq!(s("-2.5").coerce(DataType::Float).unwrap(), f(-2.5));
    assert_eq!(s("3").coerce(DataType::Float).unwrap(), f(3.0));
    assert_eq!(s("1.").coerce(DataType::Float).unwrap(), f(1.0));
    assert_eq!(s(".5").coerce(DataType::Float).unwrap(), f(0.5));
    assert_eq!(s("-0").coerce(DataType::Float).unwrap(), f(-0.0));
    assert_eq!(s("1e5").coerce(DataType::Float).unwrap(), f(1e5));
    assert_eq!(s("inf").coerce(DataType::Float).unwrap(), f(f64::INFINITY));
    assert_eq!(s("x").coerce(DataType::Char).unwrap(), TypedValue::Char('x'));
    assert!(matches!(
        s("abc").coerce(DataType::Char),
        Err(DbError::InvalidValue(_, DataType::Char))
    ));
    // one character, but two bytes: not a single-byte string
    assert!(matches!(
        s("é").coerce(DataType::Char),
        Err(DbError::InvalidValue(_, DataType::Char))
    ));
    assert!(matches!(
        s("zz").coerce(DataType::Int),
        Err(DbError::InvalidValue(_, DataType::Int))
    ));
    assert!(matches!(
        s("").coerce(DataType::Int),
        Err(DbError::InvalidValue(_, DataType::Int))
    ));
    assert!(matches!(
        s("1.2.3").coerce(DataType::Float),
        Err(DbError::InvalidValue(_, DataType::Float))
    ));
}

#[test]
fn coerce_converts_chars() {
    assert_eq!(
        TypedValue::Char('7').coerce(DataType::Int).unwrap(),
        TypedValue::Int(7)
    );
    assert_eq!(TypedValue::Char('4').coerce(DataType::Float).unwrap(), f(4.0));
    assert_eq!(TypedValue::Char('0').coerce(DataType::Float).unwrap(), f(0.0));
    assert_eq!(
        TypedValue::Char('é').coerce(DataType::String).unwrap(),
        TypedValue::String("é".to_string())
    );
    assert!(matches!(
        TypedValue::Char('x').coerce(DataType::Int),
        Err(DbError::InvalidValue(_, DataType::Int))
    ));
}

#[test]
fn coerce_rejects_the_rest_of_the_matrix() {
    assert!(matches!(
        f(1.5).coerce(DataType::Int),
        Err(DbError::InvalidValue(_, DataType::Int))
    ));
    assert!(matches!(
        f(1.5).coerce(DataType::String),
        Err(DbError::InvalidValue(_, DataType::String))
    ));
    assert!(matches!(
        TypedValue::Int(1).coerce(DataType::Char),
        Err(DbError::InvalidValue(_, DataType::Char))
    ));
    assert!(matches!(
        TypedValue::Int(1).coerce(DataType::String),
        Err(DbError::InvalidValue(_, DataType::String))
    ));
}

#[test]
fn parse_i64_matches_the_standard_reading() {
    for s in ["0", "42", "-42", "+17", "9223372036854775807", "-9223372036854775808"] {
        assert_eq!(parse_i64(s), s.parse::<i64>().ok(), "{}", s);
    }
    for s in ["", "-", "+", "1a", "9223372036854775808", "--3", " 1"] {
        assert_eq!(parse_i64(s), None, "{}", s);
    }
}

#[test]
fn parse_float_bits_rounds_exactly() {
    for s in ["1.23", "0.1", "123.45", "18.18", "9.0", "0.5", "2", "1.", ".5",
        "99999999999999999.9", "0.0000000000000000001", "123456789012345678901",
        "3.141592653589793238462643383279502884197169399375105820974944"] {
        assert_eq!(parse_float_bits(s), Some(s.parse::<f64>().unwrap().to_bits()), "{}", s);
    }
    assert_eq!(parse_float_bits("-1.23"), Some((-1.23f64).to_bits()));
    assert_eq!(parse_float_bits("0"), Some(0.0f64.to_bits()));
    assert_eq!(parse_float_bits("-0.00"), Some((-0.0f64).to_bits()));
    for s in ["", ".", "-", "+", "1e", "e5", "1e+", "1e--5", "1.2.3", " 1", "0x3",
        "nan5", "infx"] {
        assert_eq!(parse_float_bits(s), None, "{}", s);
    }
}

#[test]
fn parse_float_bits_reads_exponents_and_words() {
    for s in ["1e5", "1E5", "1e+5", "1e-5", "1.5e300", "-2.5E-7", "9.99e307",
        "2.2250738585072011e-308", "2.2250738585072014e-308", "5e-324", "4.9e-324",
        "2.5e-324", "2.4e-324", "1e-323", "7.29e-315", "1e309", "-1e309", "1e-325",
        "1.7976931348623157e308", "1.7976931348623159e308", "0e999999999999999999999",
        "1e999999999999999999999", "-1e-999999999999999999999",
        "0.000000000000000000000000000000000000000000000000000000000000000001e66"] {
        assert_eq!(parse_float_bits(s), Some(s.parse::<f64>().unwrap().to_bits()), "{}", s);
    }
    for s in ["inf", "INF", "Infinity", "-inf", "-infinity", "nan", "NaN", "-nan", "+nan"] {
        assert_eq!(parse_float_bits(s), Some(s.parse::<f64>().unwrap().to_bits()), "{}", s);
    }
    // grammar corners and long significands
    for s in ["5.e3", ".5e1", "+3", "00000000000000000000001e-5", "0.e0"] {
        assert_eq!(parse_float_bits(s), Some(s.parse::<f64>().unwrap().to_bits()), "{}", s);
    }
    let nines = "9".repeat(300);
    assert_eq!(
        parse_float_bits(&nines),
        Some(nines.parse::<f64>().unwrap().to_bits())
    );
    let tiny = format!("0.{}123e100", "0".repeat(200));
    assert_eq!(
        parse_float_bits(&tiny),
        Some(tiny.parse::<f64>().unwrap().to_bits())
    );
}

#[test]
fn int_float_bits_match_hardware_widening() {
    for i in [0i64, 1, -1, 10, -10, 1 << 52, (1 << 53) + 1, i64::MAX, i64::MIN, 6_543_210_987_654_321] {
        assert_eq!(int_to_float_bits(i), (i as f64).to_bits(), "{}", i);
    }
}

#[test]
fn data_type_text_forms() {
    assert_eq!(DataType::Int.as_str(), "int");
    assert_eq!(DataType::Float.as_str(), "float");
    assert_eq!(DataType::Char.as_str(), "char");
    assert_eq!(DataType::String.as_str(), "string");
    assert_eq!(DataType::Int.to_sql(), "INTEGER");
    assert_eq!(DataType::Float.to_sql(), "REAL");
    assert_eq!(DataType::String.to_sql(), "TEXT");
}

#[test]
fn data_type_valid_checks_payloads() {
    assert!(DataType::Int.valid(&[0; 8]));
    assert!(!DataType::Int.valid(&[0; 7]));
    assert!(DataType::Char.valid(&[65]));
    assert!(!DataType::Char.valid(&[]));
    assert!(DataType::String.valid("ok".as_bytes()));
    assert!(!DataType::String.valid(&[0xFF, 0xFE]));
    assert!(TypedValue::Int(1).validate().is_ok());
}
