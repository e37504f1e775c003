use ts2rs::fixture::group_fixtures;
use ts2rs::harness::{
    escape_for_literal, first_step, generate_default_rust_test, next_step, reverse_main_source,
    round_trip_main_source, Step, TestKind,
};

#[test]
fn fixtures_are_grouped_by_type() {
    let stems: Vec<String> = ["Person_1", "Config--fails-strict", "Person_2", "Shape"]
        .iter()
        .map(|s| s.to_string())
        .collect();
    let plan = group_fixtures(&stems);
    assert_eq!(plan.types, vec!["Person", "Config", "Shape"]);
    assert_eq!(plan.group_of, vec![0, 1, 0, 2]);
    assert_eq!(plan.fails_strict, vec![false, true, false, false]);
}

#[test]
fn escaping_doubles_backslashes_and_quotes() {
    assert_eq!(escape_for_literal(r#"{"a":"b\n"}"#), r#"{\"a\":\"b\\n\"}"#);
    assert_eq!(escape_for_literal("plain"), "plain");
}

#[test]
fn default_test_embeds_escaped_json() {
    let src = generate_default_rust_test("Order", r#"{"orderId":"ORD123"}"#);
    assert!(src.contains("fn create_test_instance() -> Order {"));
    assert!(src.contains(r#"let json = "{\"orderId\":\"ORD123\"}";"#));
}

#[test]
fn main_source_names_type_and_output() {
    let src = round_trip_main_source("definitions", "Person", "{}", "/tmp/out.json");
    assert!(src.starts_with("mod definitions;\n\nuse definitions::*;"));
    assert!(src.contains("let value: Person = serde_json::from_str(json_data)"));
    assert!(src.contains("let json_data = r#\"{}\"#;"));
    assert!(src.contains("fs::write(\"/tmp/out.json\", output_json)"));
}

fn run(kind: TestKind, outcomes: &[bool]) -> Step {
    let mut step = first_step(kind);
    for ok in outcomes {
        step = next_step(kind, step, *ok);
    }
    step
}

#[test]
fn round_trip_steps() {
    assert!(run(TestKind::RoundTrip, &[true, true, true, true]) == Step::Passed);
    assert!(run(TestKind::RoundTrip, &[true, true, true, false]) == Step::Failed);
    assert!(run(TestKind::RoundTrip, &[false]) == Step::Failed);
}

#[test]
fn fails_strict_steps() {
    // strict compile and build succeed, the strict run fails, then the lenient round trip
    assert!(run(TestKind::FailsStrict, &[true, true, false, true, true, true, true]) == Step::Passed);
    assert!(run(TestKind::FailsStrict, &[true, true, false]) == Step::CompileLenient);
    // the strict run decoding the fixture fails the test
    assert!(run(TestKind::FailsStrict, &[true, true, true]) == Step::Failed);
    // a strict compilation or build that fails, fails the test
    assert!(run(TestKind::FailsStrict, &[false]) == Step::Failed);
    assert!(run(TestKind::FailsStrict, &[true, false]) == Step::Failed);
    assert!(run(TestKind::FailsStrict, &[true, true, false, true, true, true, false]) == Step::Failed);
}

#[test]
fn reverse_steps_compile_lenient() {
    assert!(first_step(TestKind::Reverse) == Step::CompileLenient);
    assert!(run(TestKind::Reverse, &[true, true, true, true]) == Step::Passed);
}

#[test]
fn reverse_main_wraps_instance_code() {
    let src = reverse_main_source("definitions", "fn create_test_instance() -> u8 { 1 }", "/tmp/o.json");
    assert!(src.starts_with("mod definitions;\nuse definitions::*;\nuse std::fs;\n\nfn create_test_instance() -> u8 { 1 }\n\nfn main() {"));
    assert!(src.contains("fs::write(\"/tmp/o.json\", json)"));
}
