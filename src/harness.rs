//! The round-trip test driver's own logic: the sources it writes and the order of its
//! steps. Running the steps (processes, files) is left to the caller.
use vstd::prelude::*;
use crate::text::{chars_of, string_of};

verus! {

/// `s` escaped for a double-quoted literal: each `\` doubled, each `"` preceded by `\`.
pub open spec fn escaped(s: Seq<char>) -> Seq<char>
    decreases s.len(),
{
    if s.len() == 0 {
        Seq::empty()
    } else {
        let head = escaped(s.drop_last());
        let c = s.last();
        if c == '\\' {
            head + seq!['\\', '\\']
        } else if c == '"' {
            head + seq!['\\', '"']
        } else {
            head.push(c)
        }
    }
}

/// Appends the characters of `s` to `out`.
fn push_str(out: &mut Vec<char>, s: &str)
    ensures
        final(out)@ == old(out)@ + s@,
{
    let cs = chars_of(s);
    let ghost start = out@;
    let mut i: usize = 0;
    while i < cs.len()
        invariant
            i <= cs@.len(),
            cs@ == s@,
            out@ == start + cs@.subrange(0, i as int),
        decreases cs.len() - i,
    {
        out.push(cs[i]);
        assert(out@ =~= start + cs@.subrange(0, i + 1));
        i += 1;
    }
    assert(cs@.subrange(0, i as int) =~= cs@);
}

/// Appends `s`, escaped for a double-quoted literal, to `out`.
fn push_escaped(out: &mut Vec<char>, s: &str)
    ensures
        final(out)@ == old(out)@ + escaped(s@),
{
    let cs = chars_of(s);
    let ghost start = out@;
    let mut i: usize = 0;
    while i < cs.len()
        invariant
            i <= cs@.len(),
            cs@ == s@,
            out@ == start + escaped(cs@.subrange(0, i as int)),
        decreases cs.len() - i,
    {
        let c = cs[i];
        assert(cs@.subrange(0, i + 1).drop_last() =~= cs@.subrange(0, i as int));
        if c == '\\' {
            out.push('\\');
            out.push('\\');
        } else if c == '"' {
            out.push('\\');
            out.push('"');
        } else {
            out.push(c);
        }
        assert(out@ =~= start + escaped(cs@.subrange(0, i + 1)));
        i += 1;
    }
    assert(cs@.subrange(0, i as int) =~= cs@);
}

/// `s` escaped for a double-quoted literal.
pub fn escape_for_literal(s: &str) -> (r: String)
    ensures
        r@ == escaped(s@),
{
    let mut out: Vec<char> = Vec::new();
    push_escaped(&mut out, s);
    string_of(out.as_slice())
}

/// The source of a `create_test_instance` function that decodes `expected_json`, embedded
/// as a string literal, into a value of `ty_name`.
pub open spec fn default_test_source(ty_name: Seq<char>, expected_json: Seq<char>) -> Seq<
    char,
> {
    "\nfn create_test_instance() -> "@ + ty_name
        + " {\n    // Parse the expected JSON and create an instance\n    let json = \""@
        + escaped(expected_json)
        + "\";\n    serde_json::from_str(json).expect(\"Failed to parse test data\")\n}\n"@
}

pub fn generate_default_rust_test(ty_name: &str, expected_json: &str) -> (r: String)
    ensures
        r@ == default_test_source(ty_name@, expected_json@),
{
    let mut out: Vec<char> = Vec::new();
    push_str(&mut out, "\nfn create_test_instance() -> ");
    push_str(&mut out, ty_name);
    push_str(&mut out, " {\n    // Parse the expected JSON and create an instance\n    let json = \"");
    push_escaped(&mut out, expected_json);
    push_str(
        &mut out,
        "\";\n    serde_json::from_str(json).expect(\"Failed to parse test data\")\n}\n",
    );
    string_of(out.as_slice())
}

/// The source of a program that decodes `json_data` (embedded as a raw string literal)
/// into `ty_name`, encodes it again, checks that decoding the encoding gives the same
/// value, and writes the encoding to `output_path`. `module` names the module that holds
/// the compiled definitions.
pub open spec fn round_trip_main(
    module: Seq<char>,
    ty_name: Seq<char>,
    json_data: Seq<char>,
    output_path: Seq<char>,
) -> Seq<char> {
    "mod "@ + module + ";\n\nuse "@ + module + "::*;\nuse std::fs;\n\nfn main() {\n    let json_data = r#\""@
        + json_data + "\"#;\n\n    let value: "@ + ty_name
        + " = serde_json::from_str(json_data)\n        .expect(\"Failed to deserialize JSON\");\n\n    let output_json = serde_json::to_string(&value)\n        .expect(\"Failed to serialize to JSON\");\n\n    let lossless_test: "@
        + ty_name
        + " = serde_json::from_str(&output_json).expect(\"Failed to deserialize JSON again\");\n\n    if lossless_test != value {\n        panic!(\"Serialization is not lossless\\nOriginal: {:?}\\nAfter: {:?}\", value, lossless_test);\n    }\n\n    fs::write(\""@
        + output_path + "\", output_json)\n        .expect(\"Failed to write output JSON\");\n}\n"@
}

pub fn round_trip_main_source(module: &str, ty_name: &str, json_data: &str, output_path: &str) -> (r:
    String)
    ensures
        r@ == round_trip_main(module@, ty_name@, json_data@, output_path@),
{
    let mut out: Vec<char> = Vec::new();
    push_str(&mut out, "mod ");
    push_str(&mut out, module);
    push_str(&mut out, ";\n\nuse ");
    push_str(&mut out, module);
    push_str(&mut out, "::*;\nuse std::fs;\n\nfn main() {\n    let json_data = r#\"");
    push_str(&mut out, json_data);
    push_str(&mut out, "\"#;\n\n    let value: ");
    push_str(&mut out, ty_name);
    push_str(
        &mut out,
        " = serde_json::from_str(json_data)\n        .expect(\"Failed to deserialize JSON\");\n\n    let output_json = serde_json::to_string(&value)\n        .expect(\"Failed to serialize to JSON\");\n\n    let lossless_test: ",
    );
    push_str(&mut out, ty_name);
    push_str(
        &mut out,
        " = serde_json::from_str(&output_json).expect(\"Failed to deserialize JSON again\");\n\n    if lossless_test != value {\n        panic!(\"Serialization is not lossless\\nOriginal: {:?}\\nAfter: {:?}\", value, lossless_test);\n    }\n\n    fs::write(\"",
    );
    push_str(&mut out, output_path);
    push_str(&mut out, "\", output_json)\n        .expect(\"Failed to write output JSON\");\n}\n");
    string_of(out.as_slice())
}

/// The source of a program that builds a value with `instance_code` (which defines
/// `create_test_instance`), encodes it as pretty JSON and writes it to `output_path`.
/// `module` names the module that holds the compiled definitions.
pub open spec fn reverse_main(module: Seq<char>, instance_code: Seq<char>, output_path: Seq<char>) -> Seq<
    char,
> {
    "mod "@ + module + ";\nuse "@ + module + "::*;\nuse std::fs;\n\n"@ + instance_code
        + "\n\nfn main() {\n    let instance = create_test_instance();\n    let json = serde_json::to_string_pretty(&instance).expect(\"Failed to serialize\");\n    fs::write(\""@
        + output_path + "\", json).expect(\"Failed to write JSON\");\n}\n"@
}

pub fn reverse_main_source(module: &str, instance_code: &str, output_path: &str) -> (r: String)
    ensures
        r@ == reverse_main(module@, instance_code@, output_path@),
{
    let mut out: Vec<char> = Vec::new();
    push_str(&mut out, "mod ");
    push_str(&mut out, module);
    push_str(&mut out, ";\nuse ");
    push_str(&mut out, module);
    push_str(&mut out, "::*;\nuse std::fs;\n\n");
    push_str(&mut out, instance_code);
    push_str(
        &mut out,
        "\n\nfn main() {\n    let instance = create_test_instance();\n    let json = serde_json::to_string_pretty(&instance).expect(\"Failed to serialize\");\n    fs::write(\"",
    );
    push_str(&mut out, output_path);
    push_str(&mut out, "\", json).expect(\"Failed to write JSON\");\n}\n");
    string_of(out.as_slice())
}

/// Which kind of round-trip test a fixture runs.
#[derive(PartialEq, Eq, Structural, Clone, Copy)]
pub enum TestKind {
    /// Compiled strict; the fixture must decode, re-encode and compare equal.
    RoundTrip,
    /// Compiled strict, the checking program must build and then fail, its decoding of
    /// the fixture rejected; compiled lenient, the fixture must round-trip.
    FailsStrict,
    /// Definitions compiled lenient; a value built in the target is encoded and compared
    /// with the expected JSON.
    Reverse,
}

/// The step a test is at. Each step other than `Passed` and `Failed` is an action whose
/// success or failure the caller reports back.
#[derive(PartialEq, Eq, Structural, Clone, Copy)]
pub enum Step {
    CompileStrict,
    /// Build the checking program against the strict definitions.
    BuildStrict,
    /// Run it; it must fail.
    ExecuteStrict,
    CompileLenient,
    Build,
    Execute,
    Compare,
    Passed,
    Failed,
}

pub open spec fn first_step_spec(kind: TestKind) -> Step {
    match kind {
        TestKind::Reverse => Step::CompileLenient,
        _ => Step::CompileStrict,
    }
}

/// The step after `step`, given whether its action succeeded.
pub open spec fn next_step_spec(kind: TestKind, step: Step, ok: bool) -> Step {
    match step {
        Step::CompileStrict => if !ok {
            Step::Failed
        } else if kind == TestKind::FailsStrict {
            Step::BuildStrict
        } else {
            Step::Build
        },
        Step::BuildStrict => if ok {
            Step::ExecuteStrict
        } else {
            Step::Failed
        },
        Step::ExecuteStrict => if ok {
            Step::Failed
        } else {
            Step::CompileLenient
        },
        Step::CompileLenient => if ok {
            Step::Build
        } else {
            Step::Failed
        },
        Step::Build => if ok {
            Step::Execute
        } else {
            Step::Failed
        },
        Step::Execute => if ok {
            Step::Compare
        } else {
            Step::Failed
        },
        Step::Compare => if ok {
            Step::Passed
        } else {
            Step::Failed
        },
        Step::Passed => Step::Passed,
        Step::Failed => Step::Failed,
    }
}

/// Where a test of kind `kind` ends up from `step` when its actions report `outcomes`.
pub open spec fn run_from(kind: TestKind, step: Step, outcomes: Seq<bool>) -> Step
    decreases outcomes.len(),
{
    if outcomes.len() == 0 {
        step
    } else {
        run_from(kind, next_step_spec(kind, step, outcomes[0]), outcomes.drop_first())
    }
}

pub fn first_step(kind: TestKind) -> (r: Step)
    ensures
        r == first_step_spec(kind),
{
    match kind {
        TestKind::Reverse => Step::CompileLenient,
        _ => Step::CompileStrict,
    }
}

/// The step after `step`, given whether its action succeeded: the strict run of a fixture
/// marked to fail strict must fail, every other action must succeed.
pub fn next_step(kind: TestKind, step: Step, ok: bool) -> (r: Step)
    ensures
        r == next_step_spec(kind, step, ok),
{
    match step {
        Step::CompileStrict => {
            if !ok {
                Step::Failed
            } else if kind == TestKind::FailsStrict {
                Step::BuildStrict
            } else {
                Step::Build
            }
        },
        Step::BuildStrict => if ok {
            Step::ExecuteStrict
        } else {
            Step::Failed
        },
        Step::ExecuteStrict => if ok {
            Step::Failed
        } else {
            Step::CompileLenient
        },
        Step::CompileLenient => if ok {
            Step::Build
        } else {
            Step::Failed
        },
        Step::Build => if ok {
            Step::Execute
        } else {
            Step::Failed
        },
        Step::Execute => if ok {
            Step::Compare
        } else {
            Step::Failed
        },
        Step::Compare => if ok {
            Step::Passed
        } else {
            Step::Failed
        },
        Step::Passed => Step::Passed,
        Step::Failed => Step::Failed,
    }
}

proof fn lemma_stuck(kind: TestKind, step: Step, outcomes: Seq<bool>)
    requires
        step == Step::Passed || step == Step::Failed,
    ensures
        run_from(kind, step, outcomes) == step,
    decreases outcomes.len(),
{
    if outcomes.len() > 0 {
        lemma_stuck(kind, step, outcomes.drop_first());
    }
}

/// A test that passes from `Build` had its build, execution and comparison succeed.
proof fn lemma_passes_from_build(kind: TestKind, outcomes: Seq<bool>)
    requires
        run_from(kind, Step::Build, outcomes) == Step::Passed,
    ensures
        outcomes.len() >= 3,
        outcomes[0] && outcomes[1] && outcomes[2],
{
    reveal_with_fuel(run_from, 4);
    if outcomes.len() > 0 && !outcomes[0] {
        lemma_stuck(kind, Step::Failed, outcomes.drop_first());
    } else if outcomes.len() > 1 && !outcomes[1] {
        lemma_stuck(kind, Step::Failed, outcomes.drop_first().drop_first());
    } else if outcomes.len() > 2 && !outcomes[2] {
        lemma_stuck(kind, Step::Failed, outcomes.drop_first().drop_first().drop_first());
    }
}

/// A fixture marked to fail strict passes only if its strict compilation and build
/// succeeded and the strict run failed (its decoding rejected), and then its lenient
/// compilation, build, execution and comparison all succeeded.
pub proof fn lemma_fails_strict_pass(outcomes: Seq<bool>)
    requires
        run_from(TestKind::FailsStrict, Step::CompileStrict, outcomes) == Step::Passed,
    ensures
        outcomes.len() >= 7,
        outcomes[0] && outcomes[1],
        !outcomes[2],
        outcomes[3] && outcomes[4] && outcomes[5] && outcomes[6],
{
    reveal_with_fuel(run_from, 5);
    let k = TestKind::FailsStrict;
    let o1 = outcomes.drop_first();
    let o2 = o1.drop_first();
    let o3 = o2.drop_first();
    let o4 = o3.drop_first();
    if outcomes.len() > 0 && !outcomes[0] {
        lemma_stuck(k, Step::Failed, o1);
    } else if outcomes.len() > 1 && !outcomes[1] {
        lemma_stuck(k, Step::Failed, o2);
    } else if outcomes.len() > 2 && outcomes[2] {
        lemma_stuck(k, Step::Failed, o3);
    } else if outcomes.len() > 3 && !outcomes[3] {
        lemma_stuck(k, Step::Failed, o4);
    } else {
        lemma_passes_from_build(k, o4);
    }
}

/// An ordinary round-trip fixture passes only if its strict compilation, build, execution
/// and comparison all succeeded.
pub proof fn lemma_round_trip_pass(outcomes: Seq<bool>)
    requires
        run_from(TestKind::RoundTrip, Step::CompileStrict, outcomes) == Step::Passed,
    ensures
        outcomes.len() >= 4,
        outcomes[0] && outcomes[1] && outcomes[2] && outcomes[3],
{
    reveal_with_fuel(run_from, 2);
    let k = TestKind::RoundTrip;
    if outcomes.len() > 0 && !outcomes[0] {
        lemma_stuck(k, Step::Failed, outcomes.drop_first());
    } else {
        lemma_passes_from_build(k, outcomes.drop_first());
    }
}

} // verus!
