use ts2rs::classify::TargetField;
use ts2rs::codec::{decode_record, DecodeError};
use ts2rs::json::{Decimal, Json};

fn tf(wire: &str, optional: bool) -> TargetField {
    TargetField { wire: wire.to_string(), name: wire.to_string(), optional }
}

fn n(m: i64) -> Json {
    Json::Number(Decimal { mantissa: m, scale: 0 })
}

fn copy(v: &Json) -> Json {
    match v {
        Json::Null => Json::Null,
        Json::Bool(b) => Json::Bool(*b),
        Json::Number(d) => Json::Number(*d),
        Json::Str(s) => Json::Str(s.clone()),
        Json::Array(xs) => Json::Array(xs.iter().map(copy).collect()),
        Json::Object(ms) => Json::Object(ms.iter().map(|(k, v)| (k.clone(), copy(v))).collect()),
    }
}

fn sample() -> Vec<(String, Json)> {
    vec![
        ("extra1".to_string(), Json::Str("x".to_string())),
        ("width".to_string(), n(20)),
        ("height".to_string(), n(30)),
        ("extra2".to_string(), Json::Bool(true)),
    ]
}

#[test]
fn lenient_record_keeps_every_member() {
    let fields = vec![tf("height", false), tf("width", false)];
    let obj = sample();
    let layout = decode_record(&fields, true, &obj).ok().unwrap();
    assert_eq!(layout.present, vec![(0, 2), (1, 1)]);
    assert_eq!(layout.extra, vec![0, 3]);
    let mut order = layout.encoding_order();
    assert_eq!(order, vec![2, 1, 0, 3]);
    order.sort();
    assert_eq!(order, vec![0, 1, 2, 3]);
}

#[test]
fn strict_record_rejects_undeclared_member() {
    let fields = vec![tf("height", false), tf("width", false)];
    match decode_record(&fields, false, &sample()) {
        Err(DecodeError::UnknownField(k)) => assert_eq!(k, "extra1"),
        _ => panic!("expected UnknownField"),
    }
}

#[test]
fn closed_record_accepts_declared_members() {
    let fields = vec![tf("width", false), tf("height", false)];
    let obj = vec![("width".to_string(), n(20)), ("height".to_string(), n(30))];
    let layout = decode_record(&fields, false, &obj).ok().unwrap();
    assert_eq!(layout.present, vec![(0, 0), (1, 1)]);
    assert!(layout.extra.is_empty());
}

#[test]
fn missing_required_member() {
    let fields = vec![tf("width", false), tf("depth", false)];
    let obj = vec![("width".to_string(), n(20))];
    match decode_record(&fields, true, &obj) {
        Err(DecodeError::MissingField(w)) => assert_eq!(w, "depth"),
        _ => panic!("expected MissingField"),
    }
}

#[test]
fn optional_null_counts_as_absent() {
    let fields = vec![tf("discount", true), tf("total", false)];
    let obj = vec![("total".to_string(), n(1999)), ("discount".to_string(), Json::Null)];
    let layout = decode_record(&fields, false, &obj).ok().unwrap();
    assert_eq!(layout.present, vec![(1, 0)]);
    assert_eq!(layout.encoding_order(), vec![0]);
    let obj = vec![("total".to_string(), n(1999))];
    let layout = decode_record(&fields, false, &obj).ok().unwrap();
    assert_eq!(layout.present, vec![(1, 0)]);
}

#[test]
fn open_record_round_trip() {
    let fields = vec![tf("height", false), tf("width", false), tf("note", true)];
    let obj = sample();
    let first = decode_record(&fields, true, &obj).ok().unwrap();
    let encoded: Vec<(String, Json)> = first.encoding_order().iter().map(|&i| (obj[i].0.clone(), copy(&obj[i].1))).collect();
    let keys: Vec<&str> = encoded.iter().map(|(k, _)| k.as_str()).collect();
    assert_eq!(keys, vec!["height", "width", "extra1", "extra2"]);
    let second = decode_record(&fields, true, &encoded).ok().unwrap();
    let values = |layout: &ts2rs::codec::RecordLayout, o: &Vec<(String, Json)>| -> (Vec<(usize, String)>, Vec<String>) {
        (
            layout.present.iter().map(|&(f, m)| (f, o[m].0.clone())).collect(),
            layout.extra.iter().map(|&m| o[m].0.clone()).collect(),
        )
    };
    assert_eq!(values(&first, &obj), values(&second, &encoded));
    assert!(ts2rs::json::values_equal(&encoded[0].1, &obj[2].1));
}
