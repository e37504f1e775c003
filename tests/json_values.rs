use ts2rs::json::{numbers_match, parse_decimal, type_field, values_equal, Decimal, Json};

fn d(m: i64, s: u8) -> Decimal {
    Decimal { mantissa: m, scale: s }
}

fn obj(members: Vec<(&str, Json)>) -> Json {
    Json::Object(members.into_iter().map(|(k, v)| (k.to_string(), v)).collect())
}

#[test]
fn numbers_compare_by_value() {
    assert!(numbers_match(&d(20, 0), &d(2000, 2)));
    assert!(numbers_match(&d(-15, 1), &d(-150, 2)));
    assert!(!numbers_match(&d(1999, 2), &d(1998, 2)));
    assert!(numbers_match(&d(0, 0), &d(0, 40)));
    assert!(!numbers_match(&d(1, 0), &d(1, 30)));
    assert!(!numbers_match(&d(1, 0), &d(1, 200)));
    assert!(numbers_match(&d(1, 5), &d(2, 200)));
    assert!(!numbers_match(&d(-1, 0), &d(7, 250)));
}

#[test]
fn tolerance_at_any_scale() {
    assert!(numbers_match(&d(95, 2), &d(95005, 5)));
    assert!(numbers_match(&d(123456789, 11), &d(12345678901234567, 19)));
    assert!(numbers_match(&d(0, 0), &d(1, 4)));
    assert!(!numbers_match(&d(0, 0), &d(10001, 8)));
    assert!(!numbers_match(&d(10001, 8), &d(0, 0)));
    assert!(numbers_match(&d(5, 0), &d(49999, 4)));
    assert!(!numbers_match(&d(5, 0), &d(49998, 4)));
    assert!(numbers_match(&d(5, 30), &d(1, 4)));
    assert!(!numbers_match(&d(-5, 30), &d(1, 4)));
    assert!(!numbers_match(&d(-5, 30), &d(10001, 8)));
}

#[test]
fn parse_decimal_reads_exact_values() {
    let x = parse_decimal("19.99").unwrap();
    assert_eq!((x.mantissa, x.scale), (1999, 2));
    let x = parse_decimal("-23.5").unwrap();
    assert_eq!((x.mantissa, x.scale), (-235, 1));
    let x = parse_decimal("30").unwrap();
    assert_eq!((x.mantissa, x.scale), (30, 0));
    assert!(parse_decimal("").is_none());
    assert!(parse_decimal("1.").is_none());
    assert!(parse_decimal(".5").is_none());
    assert!(parse_decimal("e5").is_none());
    assert!(parse_decimal("99999999999999999999").is_none());
}

#[test]
fn objects_equal_regardless_of_member_order() {
    let a = obj(vec![("type", Json::Str("rectangle".to_string())), ("width", Json::Number(d(20, 0))), ("height", Json::Number(d(30, 0)))]);
    let b = obj(vec![("height", Json::Number(d(300, 1))), ("type", Json::Str("rectangle".to_string())), ("width", Json::Number(d(20, 0)))]);
    assert!(values_equal(&a, &b));
}

#[test]
fn different_values_are_not_equal() {
    let a = obj(vec![("id", Json::Null)]);
    let b = obj(vec![("id", Json::Str("x".to_string()))]);
    assert!(!values_equal(&a, &b));
    let c = obj(vec![("id", Json::Null), ("extra", Json::Bool(true))]);
    assert!(!values_equal(&a, &c));
    let arr1 = Json::Array(vec![Json::Str("temperature".to_string()), Json::Number(d(235, 1))]);
    let arr2 = Json::Array(vec![Json::Number(d(235, 1)), Json::Str("temperature".to_string())]);
    assert!(!values_equal(&arr1, &arr2));
    assert!(values_equal(&arr1, &arr1));
    assert!(!values_equal(&Json::Bool(true), &Json::Str("true".to_string())));
}

#[test]
fn type_field_reads_the_marker() {
    let v = obj(vec![("__type", Json::Str("ShoppingCart".to_string())), ("items", Json::Array(vec![]))]);
    assert_eq!(type_field(&v), Some("ShoppingCart".to_string()));
    let w = obj(vec![("__type", Json::Number(d(1, 0)))]);
    assert_eq!(type_field(&w), None);
    assert_eq!(type_field(&Json::Null), None);
}

#[test]
fn close_numbers_within_tolerance() {
    assert!(numbers_match(&d(235, 1), &d(2350005, 5)));
    assert!(numbers_match(&d(95, 2), &d(9500001, 7)));
    assert!(!numbers_match(&d(235, 1), &d(236, 1)));
    assert!(!numbers_match(&d(0, 0), &d(2, 4)));
    assert!(numbers_match(&d(0, 0), &d(1, 4)));
    let a = Json::Array(vec![Json::Str("temperature".to_string()), Json::Number(d(235, 1))]);
    let b = Json::Array(vec![Json::Str("temperature".to_string()), Json::Number(d(23500001, 6))]);
    assert!(values_equal(&a, &b));
    let c = Json::Array(vec![Json::Str("temperature".to_string()), Json::Number(d(2351, 2))]);
    assert!(!values_equal(&a, &c));
    let m1 = obj(vec![("source", Json::Str("sensor".to_string())), ("accuracy", Json::Number(d(95, 2)))]);
    let m2 = obj(vec![("accuracy", Json::Number(d(950001, 6))), ("source", Json::Str("sensor".to_string()))]);
    assert!(values_equal(&m1, &m2));
}

#[test]
fn parse_decimal_reads_exponents() {
    let r = |s: &str| parse_decimal(s).map(|x| (x.mantissa, x.scale));
    assert_eq!(r("1e-7"), Some((1, 7)));
    assert_eq!(r("1.5e3"), Some((1500, 0)));
    assert_eq!(r("2.5E+2"), Some((250, 0)));
    assert_eq!(r("-1.25e-3"), Some((-125, 5)));
    assert_eq!(r("1.2345e2"), Some((12345, 2)));
    assert_eq!(r("0e400"), Some((0, 0)));
    assert_eq!(r("1e400"), None);
    assert_eq!(r("1e-300"), None);
    assert_eq!(r("1e-256"), None);
    assert_eq!(r("12e-255"), Some((12, 255)));
    assert_eq!(r("10e-256"), Some((1, 255)));
    assert_eq!(r("100e-300"), None);
    assert_eq!(r("1000e-258"), Some((1, 255)));
    assert_eq!(r("-5e18"), Some((-5000000000000000000, 0)));
    assert_eq!(r("1e19"), None);
    assert_eq!(r("1e"), None);
    assert_eq!(r("1e+"), None);
    assert_eq!(r("1e5x"), None);
    assert!(numbers_match(&parse_decimal("1.0000001e-7").unwrap(), &d(1, 7)));
}

#[test]
fn equality_is_reflexive_and_symmetric_not_transitive() {
    let a = Json::Number(d(0, 0));
    let b = Json::Number(d(6, 5));
    let c = Json::Number(d(12, 5));
    assert!(values_equal(&a, &a));
    assert!(values_equal(&a, &b) && values_equal(&b, &a));
    assert!(values_equal(&b, &c));
    assert!(!values_equal(&a, &c));
    let o1 = obj(vec![("x", Json::Number(d(1, 0))), ("y", Json::Null)]);
    let o2 = obj(vec![("y", Json::Null), ("x", Json::Number(d(10, 1)))]);
    assert!(values_equal(&o1, &o2) && values_equal(&o2, &o1));
}
