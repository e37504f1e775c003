//! The shape classifier: what each resolved declaration becomes in the target.
use vstd::prelude::*;
use crate::discriminant::{find_tag, literal_member, member_fields, tag_values, unique_tag};
use crate::schema::{
    clone_literal, literal_eq, literal_key, same_literal, Field, Literal, Primitive, SourceType,
};
use crate::table::{CompileError, Table};
use crate::text::string_of;

verus! {

/// A record member as the target sees it: its wire name, its field name in the target's
/// snake_case convention, and whether it may be absent.
pub struct TargetField {
    pub wire: String,
    pub name: String,
    pub optional: bool,
}

/// What a declaration is emitted as.
pub enum TargetKind {
    /// An aggregate; `open` ones capture undeclared members.
    Struct { fields: Vec<TargetField>, open: bool },
    /// One unit variant per distinct literal.
    Enum { variants: Vec<Literal> },
    /// Variants told apart by the value of the field `tag`: one per member of the union,
    /// in order, with the member's tag value.
    Tagged { tag: String, values: Vec<Literal> },
    /// A fixed-arity ordered sequence, each slot typed on its own.
    Tuple,
    /// String keys, one value type.
    MapLike,
    /// A homogeneous sequence.
    Array,
    /// A primitive type, or a single literal type.
    Primitive,
    /// A value or its absence: a union of one type with `null`.
    Optional,
    /// Any other union of non-record types, decoded by trying each member.
    Untagged,
    /// Another declared type under a second name.
    Alias,
}

/// Whether a union is one type together with `null`.
pub open spec fn optional_union(ms: Seq<SourceType>) -> bool {
    ms.len() == 2 && (ms[0] == SourceType::Prim(Primitive::Null)) != (ms[1] == SourceType::Prim(
        Primitive::Null,
    ))
}

fn is_null(t: &SourceType) -> (r: bool)
    ensures
        r == (*t == SourceType::Prim(Primitive::Null)),
{
    match t {
        SourceType::Prim(Primitive::Null) => true,
        _ => false,
    }
}

/// The target spelling of a source field name: each ASCII capital becomes `_` and its
/// lower-case letter (no `_` at the very start).
pub open spec fn snake_case(s: Seq<char>) -> Seq<char>
    decreases s.len(),
{
    if s.len() == 0 {
        Seq::empty()
    } else {
        let c = s.last();
        let head = snake_case(s.drop_last());
        if 'A' <= c <= 'Z' {
            let lower = (((c as u8) + 32) as u8) as char;
            if s.len() > 1 {
                head + seq!['_', lower]
            } else {
                head + seq![lower]
            }
        } else {
            head.push(c)
        }
    }
}

pub fn snake_case_exec(s: &String) -> (r: String)
    ensures
        r@ == snake_case(s@),
{
    let cs = crate::text::chars_of(s.as_str());
    let mut out: Vec<char> = Vec::new();
    let mut i: usize = 0;
    while i < cs.len()
        invariant
            i <= cs@.len(),
            cs@ == s@,
            out@ == snake_case(cs@.subrange(0, i as int)),
        decreases cs.len() - i,
    {
        let c = cs[i];
        assert(cs@.subrange(0, i + 1).drop_last() =~= cs@.subrange(0, i as int));
        if 'A' <= c && c <= 'Z' {
            let lower = (((c as u8) + 32) as u8) as char;
            if i > 0 {
                out.push('_');
            }
            out.push(lower);
        } else {
            out.push(c);
        }
        assert(out@ =~= snake_case(cs@.subrange(0, i + 1)));
        i += 1;
    }
    assert(cs@.subrange(0, cs@.len() as int) =~= cs@);
    string_of(out.as_slice())
}

/// `fields` renders the members `fs` one for one.
pub open spec fn renders_fields(fs: Seq<Field>, fields: Seq<TargetField>) -> bool {
    &&& fields.len() == fs.len()
    &&& forall|i: int|
        0 <= i < fs.len() ==> {
            &&& (#[trigger] fields[i]).wire@ == fs[i].name@
            &&& fields[i].name@ == snake_case(fs[i].name@)
            &&& fields[i].optional == fs[i].optional
        }
}

fn render_fields(fs: &Vec<Field>) -> (r: Vec<TargetField>)
    ensures
        renders_fields(fs@, r@),
{
    let mut out: Vec<TargetField> = Vec::new();
    let mut i: usize = 0;
    while i < fs.len()
        invariant
            i <= fs@.len(),
            renders_fields(fs@.subrange(0, i as int), out@),
        decreases fs.len() - i,
    {
        let f = TargetField {
            wire: fs[i].name.clone(),
            name: snake_case_exec(&fs[i].name),
            optional: fs[i].optional,
        };
        out.push(f);
        i += 1;
    }
    assert(fs@.subrange(0, fs@.len() as int) =~= fs@);
    out
}

/// Whether every member of a union is a literal type.
pub open spec fn all_literals(ms: Seq<SourceType>) -> bool {
    forall|i: int| 0 <= i < ms.len() ==> (#[trigger] ms[i]) is Lit
}

/// The identifying keys of the members of a union of literal types.
pub open spec fn member_keys(ms: Seq<SourceType>) -> Seq<(bool, Seq<char>)> {
    ms.map_values(|m: SourceType| literal_key(m->Lit_0))
}

/// The identifying keys of a list of literals.
pub open spec fn variant_keys(vs: Seq<Literal>) -> Seq<(bool, Seq<char>)> {
    vs.map_values(|l: Literal| literal_key(l))
}

/// `vs` holds each literal of the members `ms` once, and nothing else.
pub open spec fn enumerates(ms: Seq<SourceType>, vs: Seq<Literal>) -> bool {
    &&& member_keys(ms).to_set() == variant_keys(vs).to_set()
    &&& variant_keys(vs).no_duplicates()
}

fn position_of(vs: &Vec<Literal>, l: &Literal) -> (r: Option<usize>)
    ensures
        r is Some <==> variant_keys(vs@).contains(literal_key(*l)),
{
    let mut j: usize = 0;
    while j < vs.len()
        invariant
            j <= vs@.len(),
            forall|b: int| 0 <= b < j ==> !same_literal(*l, #[trigger] vs@[b]),
        decreases vs.len() - j,
    {
        if literal_eq(l, &vs[j]) {
            assert(variant_keys(vs@)[j as int] == literal_key(*l));
            return Some(j);
        }
        j += 1;
    }
    assert forall|b: int| 0 <= b < vs@.len() implies variant_keys(vs@)[b] != literal_key(*l) by {
        assert(!same_literal(*l, vs@[b]));
    }
    None
}

proof fn lemma_enumerates_step(pre: Seq<SourceType>, vs: Seq<Literal>, m: SourceType)
    requires
        m is Lit,
        enumerates(pre, vs),
    ensures
        variant_keys(vs).contains(literal_key(m->Lit_0)) ==> enumerates(pre.push(m), vs),
        !variant_keys(vs).contains(literal_key(m->Lit_0)) ==> enumerates(
            pre.push(m),
            vs.push(m->Lit_0),
        ),
{
    let k = literal_key(m->Lit_0);
    assert(member_keys(pre.push(m)) =~= member_keys(pre).push(k));
    assert(variant_keys(vs.push(m->Lit_0)) =~= variant_keys(vs).push(k));
    member_keys(pre).lemma_push_to_set_commute(k);
    variant_keys(vs).lemma_push_to_set_commute(k);
    if variant_keys(vs).contains(k) {
        assert(variant_keys(vs).to_set().insert(k) =~= variant_keys(vs).to_set());
    } else {
        let nk = variant_keys(vs).push(k);
        assert forall|a: int, b: int| 0 <= a < nk.len() && 0 <= b < nk.len() && a != b implies nk[a]
            != nk[b] by {
            if a == vs.len() {
                assert(variant_keys(vs)[b] == nk[b]);
            } else if b == vs.len() {
                assert(variant_keys(vs)[a] == nk[a]);
            } else {
                assert(variant_keys(vs)[a] == nk[a]);
                assert(variant_keys(vs)[b] == nk[b]);
            }
        }
    }
}

/// The distinct literals of a union of literal types, each once (kept in order of first
/// appearance).
pub fn literal_variants(ms: &Vec<SourceType>) -> (r: Vec<Literal>)
    requires
        all_literals(ms@),
    ensures
        enumerates(ms@, r@),
{
    let mut vs: Vec<Literal> = Vec::new();
    let mut i: usize = 0;
    assert(member_keys(ms@.subrange(0, 0)).to_set() =~= Set::empty());
    assert(variant_keys(vs@).to_set() =~= Set::empty());
    while i < ms.len()
        invariant
            all_literals(ms@),
            i <= ms@.len(),
            enumerates(ms@.subrange(0, i as int), vs@),
        decreases ms.len() - i,
    {
        assert(ms@.subrange(0, i + 1) =~= ms@.subrange(0, i as int).push(ms@[i as int]));
        assert(ms@[i as int] is Lit);
        match &ms[i] {
            SourceType::Lit(l) => {
                proof {
                    lemma_enumerates_step(ms@.subrange(0, i as int), vs@, ms@[i as int]);
                }
                if position_of(&vs, l).is_none() {
                    vs.push(clone_literal(l));
                }
            },
            _ => {},
        }
        i += 1;
    }
    assert(ms@.subrange(0, ms@.len() as int) =~= ms@);
    vs
}

/// The members of a record, where `m` is a record or names a declared record.
pub open spec fn record_members(t: &Table, m: SourceType) -> Option<Seq<Field>> {
    match m {
        SourceType::Record(fs, _) => Some(fs@),
        SourceType::Ref(n) => if t.has(n@) {
            match t.body_of(n@) {
                SourceType::Record(fs, _) => Some(fs@),
                _ => None,
            }
        } else {
            None
        },
        _ => None,
    }
}

pub open spec fn any_record(t: &Table, ms: Seq<SourceType>) -> bool {
    exists|i: int| 0 <= i < ms.len() && (#[trigger] record_members(t, ms[i])) is Some
}

pub open spec fn all_records(t: &Table, ms: Seq<SourceType>) -> bool {
    forall|i: int| 0 <= i < ms.len() ==> (#[trigger] record_members(t, ms[i])) is Some
}

/// The members of each record of a union.
pub open spec fn union_members(t: &Table, ms: Seq<SourceType>) -> Seq<Seq<Field>> {
    ms.map_values(|m: SourceType| record_members(t, m)->0)
}

/// `values` holds, for each member in order, the value of its tag field `tag`.
pub open spec fn tagged_by(ms: Seq<Seq<Field>>, tag: Seq<char>, values: Seq<Literal>) -> bool {
    &&& values.len() == ms.len()
    &&& forall|i: int| 0 <= i < ms.len() ==> literal_member(ms[i], tag) == Some(#[trigger] values[i])
}

/// A union that holds records but cannot be told apart by one tag field.
pub open spec fn ambiguous(t: &Table, body: SourceType) -> bool {
    match body {
        SourceType::Union(ms) => !all_literals(ms@) && any_record(t, ms@) && (!all_records(t, ms@)
            || forall|n: Seq<char>| !unique_tag(union_members(t, ms@), n)),
        _ => false,
    }
}

/// `k` is what `body` is emitted as.
pub open spec fn classifies(t: &Table, body: SourceType, strict: bool, k: TargetKind) -> bool {
    match body {
        SourceType::Record(fs, index_signature) => match k {
            TargetKind::Struct { fields, open } => renders_fields(fs@, fields@) && open == (
            index_signature && !strict),
            _ => false,
        },
        SourceType::Union(ms) => if all_literals(ms@) {
            match k {
                TargetKind::Enum { variants } => enumerates(ms@, variants@),
                _ => false,
            }
        } else if any_record(t, ms@) {
            match k {
                TargetKind::Tagged { tag, values } => all_records(t, ms@) && unique_tag(
                    union_members(t, ms@),
                    tag@,
                ) && tagged_by(union_members(t, ms@), tag@, values@),
                _ => false,
            }
        } else {
            if optional_union(ms@) {
                k is Optional
            } else {
                k is Untagged
            }
        },
        SourceType::Tuple(_) => k is Tuple,
        SourceType::MapLike(_) => k is MapLike,
        SourceType::Array(_) => k is Array,
        SourceType::Prim(_) => k is Primitive,
        SourceType::Lit(_) => k is Primitive,
        _ => k is Alias,
    }
}

/// Under strict mode every record is emitted closed, whatever its source declares; in
/// lenient mode a record is open exactly when it declares an index signature. (A closed
/// record's decoding rejects undeclared members: see `decode_record`.)
pub proof fn lemma_record_openness(
    t: &Table,
    fields: Vec<Field>,
    index_signature: bool,
    strict: bool,
    k: TargetKind,
)
    requires
        classifies(t, SourceType::Record(fields, index_signature), strict, k),
    ensures
        k is Struct,
        strict ==> !k->open,
        !strict ==> (k->open <==> index_signature),
{
}

fn record_members_exec<'a>(t: &'a Table, m: &'a SourceType) -> (r: Option<&'a Vec<Field>>)
    requires
        t.wf(),
    ensures
        r matches Some(fs) ==> record_members(t, *m) == Some(fs@),
        r is None ==> record_members(t, *m) is None,
{
    match m {
        SourceType::Record(fs, _) => Some(fs),
        SourceType::Ref(n) => match t.lookup(n) {
            Some(i) => match &t.decls[i].body {
                SourceType::Record(fs, _) => Some(fs),
                _ => None,
            },
            None => None,
        },
        _ => None,
    }
}

fn is_all_literals(ms: &Vec<SourceType>) -> (r: bool)
    ensures
        r == all_literals(ms@),
{
    let mut i: usize = 0;
    while i < ms.len()
        invariant
            i <= ms@.len(),
            forall|j: int| 0 <= j < i ==> (#[trigger] ms@[j]) is Lit,
        decreases ms.len() - i,
    {
        match &ms[i] {
            SourceType::Lit(_) => {},
            _ => {
                return false;
            },
        }
        i += 1;
    }
    true
}

fn has_record_member(t: &Table, ms: &Vec<SourceType>) -> (r: bool)
    requires
        t.wf(),
    ensures
        r == any_record(t, ms@),
{
    let mut i: usize = 0;
    while i < ms.len()
        invariant
            t.wf(),
            i <= ms@.len(),
            forall|j: int| 0 <= j < i ==> (#[trigger] record_members(t, ms@[j])) is None,
        decreases ms.len() - i,
    {
        if record_members_exec(t, &ms[i]).is_some() {
            return true;
        }
        i += 1;
    }
    false
}

/// Classifies a union of record types by its tag field.
fn classify_records(t: &Table, name: &String, ms: &Vec<SourceType>) -> (r: Result<
    TargetKind,
    CompileError,
>)
    requires
        t.wf(),
        any_record(t, ms@),
    ensures
        r matches Ok(TargetKind::Tagged { tag, values }) ==> all_records(t, ms@) && unique_tag(
            union_members(t, ms@),
            tag@,
        ) && tagged_by(union_members(t, ms@), tag@, values@),
        r matches Ok(k) ==> k is Tagged,
        r matches Err(e) ==> e == CompileError::AmbiguousDiscriminant(*name) && (!all_records(
            t,
            ms@,
        ) || forall|n: Seq<char>| !unique_tag(union_members(t, ms@), n)),
{
    let mut members: Vec<&Vec<Field>> = Vec::new();
    let mut i: usize = 0;
    while i < ms.len()
        invariant
            t.wf(),
            i <= ms@.len(),
            members@.len() == i,
            forall|j: int|
                0 <= j < i ==> (#[trigger] record_members(t, ms@[j])) == Some(members@[j]@),
        decreases ms.len() - i,
    {
        match record_members_exec(t, &ms[i]) {
            Some(fs) => {
                members.push(fs);
            },
            None => {
                return Err(CompileError::AmbiguousDiscriminant(name.clone()));
            },
        }
        i += 1;
    }
    assert(member_fields(members@) =~= union_members(t, ms@));
    match find_tag(&members) {
        Some(tag) => {
            let values = tag_values(&members, &tag);
            Ok(TargetKind::Tagged { tag, values })
        },
        None => Err(CompileError::AmbiguousDiscriminant(name.clone())),
    }
}

/// What the declaration `name`, with body `body`, is emitted as. Fails with
/// `AmbiguousDiscriminant` exactly when `body` is a union holding records that no single
/// tag field tells apart.
pub fn classify(t: &Table, name: &String, body: &SourceType, strict: bool) -> (r: Result<
    TargetKind,
    CompileError,
>)
    requires
        t.wf(),
    ensures
        r is Err <==> ambiguous(t, *body),
        r matches Ok(k) ==> classifies(t, *body, strict, k),
        r matches Err(e) ==> e == CompileError::AmbiguousDiscriminant(*name),
{
    match body {
        SourceType::Record(fs, index_signature) => Ok(
            TargetKind::Struct { fields: render_fields(fs), open: *index_signature && !strict },
        ),
        SourceType::Union(ms) => {
            if is_all_literals(ms) {
                Ok(TargetKind::Enum { variants: literal_variants(ms) })
            } else {
                let found = has_record_member(t, ms);
                if found {
                    classify_records(t, name, ms)
                } else if ms.len() == 2 && is_null(&ms[0]) != is_null(&ms[1]) {
                    Ok(TargetKind::Optional)
                } else {
                    Ok(TargetKind::Untagged)
                }
            }
        },
        SourceType::Tuple(_) => Ok(TargetKind::Tuple),
        SourceType::MapLike(_) => Ok(TargetKind::MapLike),
        SourceType::Array(_) => Ok(TargetKind::Array),
        SourceType::Prim(_) => Ok(TargetKind::Primitive),
        SourceType::Lit(_) => Ok(TargetKind::Primitive),
        _ => Ok(TargetKind::Alias),
    }
}

} // verus!
