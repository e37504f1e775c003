//! How round-trip fixture files are named: `<Type>[_<n>][--fails-strict].json`.
use vstd::prelude::*;
use crate::text::{
    chars_of, contains_exec, contains_seq, last_index_of, last_index_of_exec, lemma_last_index_of_bounds, remove_all,
    remove_all_exec, string_of,
};

verus! {

/// The marker that flags a fixture as one that must be rejected under strict mode.
pub open spec fn strict_marker() -> Seq<char> {
    seq!['-', '-', 'f', 'a', 'i', 'l', 's', '-', 's', 't', 'r', 'i', 'c', 't']
}

/// Whether `char::is_numeric` holds of `c` (Unicode general categories Nd, Nl and No).
pub uninterp spec fn numeric_char(c: char) -> bool;

/// Relies on `char::is_numeric`: a Unicode property of the character alone, true of the
/// ASCII digits.
#[verifier::external_body]
fn is_numeric(c: char) -> (r: bool)
    ensures
        r == numeric_char(c),
        '0' <= c <= '9' ==> r,
{
    c.is_numeric()
}

fn marker_chars() -> (r: Vec<char>)
    ensures
        r@ == strict_marker(),
{
    vec!['-', '-', 'f', 'a', 'i', 'l', 's', '-', 's', 't', 'r', 'i', 'c', 't']
}

/// Whether `c` counts as numeric: an ASCII digit, or numeric by `char::is_numeric`.
pub open spec fn numeric(c: char) -> bool {
    ('0' <= c <= '9') || numeric_char(c)
}

/// Whether every character of `s` after index `p` is flagged in `flags`.
pub open spec fn flagged_after(flags: Seq<bool>, s: Seq<char>, p: int) -> bool {
    forall|j: int| p < j < s.len() ==> #[trigger] flags[j]
}

/// `name` with a trailing `_` and what follows it cut off, where every character after
/// that last `_` is flagged numeric in `flags`; otherwise `name` as it is.
pub open spec fn without_numeric_suffix(name: Seq<char>, flags: Seq<bool>) -> Seq<char> {
    match last_index_of(name, '_') {
        Some(p) => if flagged_after(flags, name, p) {
            name.subrange(0, p)
        } else {
            name
        },
        None => name,
    }
}

/// Which characters of `s` are numeric.
pub open spec fn numeric_flags(s: Seq<char>) -> Seq<bool> {
    Seq::new(s.len(), |j: int| numeric(s[j]))
}

/// The type a fixture file stem names: the strict marker removed, then a trailing
/// `_<digits>` suffix (possibly with no digits) cut off.
pub open spec fn fixture_type_name(stem: Seq<char>) -> Seq<char> {
    let clean = remove_all(stem, strict_marker());
    without_numeric_suffix(clean, numeric_flags(clean))
}

/// Cuts a numeric `_<n>` suffix off `name`, given for each character whether it is
/// numeric.
pub fn strip_numeric_suffix(name: &str, numeric: &Vec<bool>) -> (r: String)
    requires
        numeric@.len() == name@.len(),
    ensures
        r@ == without_numeric_suffix(name@, numeric@),
{
    let mut cs = chars_of(name);
    proof {
        lemma_last_index_of_bounds(cs@, '_');
    }
    match last_index_of_exec(cs.as_slice(), '_') {
        Some(p) => {
            let n = cs.len();
            let mut j: usize = p + 1;
            while j < cs.len()
                invariant
                    cs@ == name@,
                    numeric@.len() == name@.len(),
                    last_index_of(cs@, '_') == Some(p as int),
                    p < cs@.len(),
                    p + 1 <= j <= cs@.len(),
                    forall|k: int| p < k < j ==> #[trigger] numeric@[k],
                decreases cs.len() - j,
            {
                if !numeric[j] {
                    assert(!flagged_after(numeric@, cs@, p as int));
                    return string_of(cs.as_slice());
                }
                j += 1;
            }
            assert(flagged_after(numeric@, cs@, p as int));
            cs.truncate(p);
            string_of(cs.as_slice())
        },
        None => string_of(cs.as_slice()),
    }
}

/// Whether a fixture file stem carries the strict-failure marker.
pub fn has_fails_strict_marker(file_name: &str) -> (r: bool)
    ensures
        r == contains_seq(file_name@, strict_marker()),
{
    let cs = chars_of(file_name);
    let m = marker_chars();
    contains_exec(cs.as_slice(), m.as_slice())
}

/// The type name a fixture file stem refers to.
pub fn extract_type_name(file_name: &str) -> (r: String)
    ensures
        r@ == fixture_type_name(file_name@),
{
    let cs = chars_of(file_name);
    let m = marker_chars();
    let clean = remove_all_exec(cs.as_slice(), m.as_slice());
    let mut flags: Vec<bool> = Vec::new();
    let mut j: usize = 0;
    while j < clean.len()
        invariant
            j <= clean@.len(),
            flags@ == numeric_flags(clean@).subrange(0, j as int),
        decreases clean.len() - j,
    {
        let c = clean[j];
        flags.push(('0' <= c && c <= '9') || is_numeric(c));
        assert(flags@ =~= numeric_flags(clean@).subrange(0, j + 1));
        j += 1;
    }
    assert(flags@ =~= numeric_flags(clean@));
    let clean_text = string_of(clean.as_slice());
    strip_numeric_suffix(clean_text.as_str(), &flags)
}

/// The fixtures of a directory grouped by the type they exercise: the distinct type
/// names in order of first appearance, and for each fixture its group and whether it
/// carries the strict-failure marker.
pub struct FixturePlan {
    pub types: Vec<String>,
    pub group_of: Vec<usize>,
    pub fails_strict: Vec<bool>,
}

/// `types`, `group_of` and `fails_strict` group the fixture file stems `stems` by type name.
pub open spec fn groups_parts(
    stems: Seq<String>,
    types: Seq<String>,
    group_of: Seq<usize>,
    fails_strict: Seq<bool>,
) -> bool {
    &&& group_of.len() == stems.len()
    &&& fails_strict.len() == stems.len()
    &&& forall|a: int, b: int|
        0 <= a < types.len() && 0 <= b < types.len() && a != b ==> types[a]@ != types[b]@
    &&& forall|i: int|
        0 <= i < stems.len() ==> {
            &&& (#[trigger] group_of[i]) < types.len()
            &&& types[group_of[i] as int]@ == fixture_type_name(stems[i]@)
            &&& fails_strict[i] == contains_seq(stems[i]@, strict_marker())
        }
    &&& forall|g: int| 0 <= g < types.len() ==> #[trigger] group_used(group_of, stems.len() as int, g)
}

/// Whether one of the first `n` fixtures falls in group `g`, and the first such one comes
/// after fixtures of earlier groups only (groups are numbered in order of first
/// appearance).
pub open spec fn group_used(group_of: Seq<usize>, n: int, g: int) -> bool {
    exists|i: int|
        0 <= i < n && group_of[i] as int == g && forall|j: int| 0 <= j < i ==> group_of[j] < g
}

/// `plan` groups the fixture file stems `stems` by type name.
pub open spec fn groups_fixtures(stems: Seq<String>, plan: FixturePlan) -> bool {
    groups_parts(stems, plan.types@, plan.group_of@, plan.fails_strict@)
}

fn index_of_name(names: &Vec<String>, name: &String) -> (r: Option<usize>)
    ensures
        r matches Some(g) ==> g < names@.len() && names@[g as int]@ == name@,
        r is None ==> forall|b: int| 0 <= b < names@.len() ==> (#[trigger] names@[b])@ != name@,
{
    let mut g: usize = 0;
    while g < names.len()
        invariant
            g <= names@.len(),
            forall|b: int| 0 <= b < g ==> (#[trigger] names@[b])@ != name@,
        decreases names.len() - g,
    {
        if names[g].eq(name) {
            return Some(g);
        }
        g += 1;
    }
    None
}

/// Groups fixture file stems by the type they name.
pub fn group_fixtures(stems: &Vec<String>) -> (r: FixturePlan)
    ensures
        groups_fixtures(stems@, r),
{
    let mut types: Vec<String> = Vec::new();
    let mut group_of: Vec<usize> = Vec::new();
    let mut fails_strict: Vec<bool> = Vec::new();
    let mut i: usize = 0;
    while i < stems.len()
        invariant
            i <= stems@.len(),
            group_of@.len() == i,
            fails_strict@.len() == i,
            forall|a: int, b: int|
                0 <= a < types@.len() && 0 <= b < types@.len() && a != b ==> types@[a]@
                    != types@[b]@,
            forall|x: int|
                0 <= x < i ==> {
                    &&& (#[trigger] group_of@[x]) < types@.len()
                    &&& types@[group_of@[x] as int]@ == fixture_type_name(stems@[x]@)
                    &&& fails_strict@[x] == contains_seq(stems@[x]@, strict_marker())
                },
            forall|h: int| 0 <= h < types@.len() ==> #[trigger] group_used(group_of@, i as int, h),
        decreases stems.len() - i,
    {
        let name = extract_type_name(stems[i].as_str());
        let flag = has_fails_strict_marker(stems[i].as_str());
        let g: usize = match index_of_name(&types, &name) {
            Some(g) => g,
            None => types.len(),
        };
        let ghost old_types = types@;
        let ghost old_group = group_of@;
        let ghost name_v = name@;

        if g == types.len() {
            types.push(name);
        }
        group_of.push(g);
        fails_strict.push(flag);
        proof {
            assert(types@[g as int]@ == fixture_type_name(stems@[i as int]@));
            assert forall|a: int, b: int|
                0 <= a < types@.len() && 0 <= b < types@.len() && a != b implies types@[a]@
                != types@[b]@ by {
                if a < old_types.len() && b < old_types.len() {
                    assert(types@[a] == old_types[a] && types@[b] == old_types[b]);
                } else if a < old_types.len() {
                    assert(types@[a] == old_types[a]);
                    assert(types@[b]@ == name_v);
                } else {
                    assert(types@[b] == old_types[b]);
                    assert(types@[a]@ == name_v);
                }
            }
            assert forall|x: int| 0 <= x < i + 1 implies {
                &&& (#[trigger] group_of@[x]) < types@.len()
                &&& types@[group_of@[x] as int]@ == fixture_type_name(stems@[x]@)
                &&& fails_strict@[x] == contains_seq(stems@[x]@, strict_marker())
            } by {
                if x < i {
                    assert(group_of@[x] == old_group[x]);
                    assert(types@[old_group[x] as int] == old_types[old_group[x] as int]);
                }
            }
            assert forall|h: int| 0 <= h < types@.len() implies #[trigger] group_used(
                group_of@,
                i + 1,
                h,
            ) by {
                if h < old_types.len() {
                    assert(group_used(old_group, i as int, h));
                    let x = choose|x: int|
                        0 <= x < i && old_group[x] as int == h && forall|j: int|
                            0 <= j < x ==> old_group[j] < h;
                    assert(group_of@[x] == old_group[x]);
                    assert forall|j: int| 0 <= j < x implies group_of@[j] < h by {
                        assert(group_of@[j] == old_group[j]);
                    }
                } else {
                    assert(group_of@[i as int] as int == h);
                    assert forall|j: int| 0 <= j < i implies group_of@[j] < h by {
                        assert(group_of@[j] == old_group[j]);
                        assert(old_group[j] < old_types.len());
                    }
                }
            }
        }
        i += 1;
    }
    assert(stems@.subrange(0, stems@.len() as int) =~= stems@);
    let r = FixturePlan { types, group_of, fails_strict };
    assert(groups_fixtures(stems@, r));
    r
}

} // verus!
