//! Choosing the tag field of a union of records.
use vstd::prelude::*;
use crate::schema::{clone_literal, literal_eq, same_literal, Field, Literal, SourceType};

verus! {

/// Index of the first member of `fs` named `n`.
pub open spec fn first_field(fs: Seq<Field>, n: Seq<char>) -> Option<int>
    decreases fs.len(),
{
    if fs.len() == 0 {
        None
    } else {
        match first_field(fs.drop_last(), n) {
            Some(i) => Some(i),
            None => if fs.last().name@ == n {
                Some(fs.len() - 1)
            } else {
                None
            },
        }
    }
}

/// The literal type of the member named `n`, if that member has a singleton literal type.
pub open spec fn literal_member(fs: Seq<Field>, n: Seq<char>) -> Option<Literal> {
    match first_field(fs, n) {
        Some(i) => match fs[i].ty {
            SourceType::Lit(l) => Some(l),
            _ => None,
        },
        None => None,
    }
}

/// Whether `n` can serve as the tag of a union whose members have the fields `ms`:
/// every member has a literal member named `n`, and no two members share its value.
pub open spec fn tag_qualifies(ms: Seq<Seq<Field>>, n: Seq<char>) -> bool {
    &&& forall|i: int| 0 <= i < ms.len() ==> (#[trigger] literal_member(ms[i], n)) is Some
    &&& forall|i: int, j: int|
        0 <= i < ms.len() && 0 <= j < ms.len() && i != j ==> !same_literal(
            (#[trigger] literal_member(ms[i], n))->0,
            (#[trigger] literal_member(ms[j], n))->0,
        )
}

/// Whether `n` is the one and only name that qualifies as the tag.
pub open spec fn unique_tag(ms: Seq<Seq<Field>>, n: Seq<char>) -> bool {
    tag_qualifies(ms, n) && forall|m: Seq<char>| #[trigger] tag_qualifies(ms, m) ==> m == n
}

pub proof fn lemma_first_field(fs: Seq<Field>, n: Seq<char>)
    ensures
        first_field(fs, n) matches Some(k) ==> 0 <= k < fs.len() && fs[k].name@ == n,
        first_field(fs, n) is None ==> forall|k: int| 0 <= k < fs.len() ==> fs[k].name@ != n,
    decreases fs.len(),
{
    if fs.len() > 0 {
        lemma_first_field(fs.drop_last(), n);
        if first_field(fs, n) is None {
            assert forall|k: int| 0 <= k < fs.len() implies fs[k].name@ != n by {
                if k < fs.len() - 1 {
                    assert(fs.drop_last()[k] == fs[k]);
                }
            }
        }
    }
}

fn first_field_exec(fs: &Vec<Field>, n: &String) -> (r: Option<usize>)
    ensures
        r matches Some(k) ==> first_field(fs@, n@) == Some(k as int),
        r is None ==> first_field(fs@, n@) is None,
{
    let mut k: usize = 0;
    while k < fs.len()
        invariant
            k <= fs@.len(),
            first_field(fs@.subrange(0, k as int), n@) is None,
        decreases fs.len() - k,
    {
        assert(fs@.subrange(0, k + 1).drop_last() =~= fs@.subrange(0, k as int));
        if fs[k].name.eq(n) {
            proof {
                lemma_first_field_prefix(fs@, n@, k as int + 1);
            }
            return Some(k);
        }
        k += 1;
    }
    assert(fs@.subrange(0, k as int) =~= fs@);
    None
}

/// The first occurrence in a prefix is the first occurrence in the whole sequence.
proof fn lemma_first_field_prefix(fs: Seq<Field>, n: Seq<char>, k: int)
    requires
        0 <= k <= fs.len(),
        first_field(fs.subrange(0, k), n) is Some,
    ensures
        first_field(fs, n) == first_field(fs.subrange(0, k), n),
    decreases fs.len() - k,
{
    if k < fs.len() {
        assert(fs.subrange(0, k + 1).drop_last() =~= fs.subrange(0, k));
        lemma_first_field_prefix(fs, n, k + 1);
    } else {
        assert(fs.subrange(0, k) =~= fs);
    }
}

fn literal_member_exec<'a>(fs: &'a Vec<Field>, n: &String) -> (r: Option<&'a Literal>)
    ensures
        r matches Some(l) ==> literal_member(fs@, n@) == Some(*l),
        r is None ==> literal_member(fs@, n@) is None,
{
    match first_field_exec(fs, n) {
        Some(k) => {
            proof {
                lemma_first_field(fs@, n@);
            }
            match &fs[k].ty {
                SourceType::Lit(l) => Some(l),
                _ => None,
            }
        },
        None => None,
    }
}

/// The fields of each member, as a sequence.
pub open spec fn member_fields(ms: Seq<&Vec<Field>>) -> Seq<Seq<Field>> {
    ms.map_values(|m: &Vec<Field>| m@)
}

fn tag_qualifies_exec(ms: &Vec<&Vec<Field>>, n: &String) -> (r: bool)
    ensures
        r == tag_qualifies(member_fields(ms@), n@),
{
    let ghost fs = member_fields(ms@);
    let mut i: usize = 0;
    while i < ms.len()
        invariant
            fs == member_fields(ms@),
            i <= ms@.len(),
            forall|a: int| 0 <= a < i ==> (#[trigger] literal_member(fs[a], n@)) is Some,
            forall|a: int, b: int|
                0 <= a < i && 0 <= b < i && a != b ==> !same_literal(
                    (#[trigger] literal_member(fs[a], n@))->0,
                    (#[trigger] literal_member(fs[b], n@))->0,
                ),
        decreases ms.len() - i,
    {
        let li = literal_member_exec(ms[i], n);
        assert(fs[i as int] == ms@[i as int]@);
        match li {
            None => {
                assert(literal_member(fs[i as int], n@) is None);
                return false;
            },
            Some(x) => {
                let mut j: usize = 0;
                while j < i
                    invariant
                        fs == member_fields(ms@),
                        i < ms@.len(),
                        j <= i,
                        literal_member(fs[i as int], n@) == Some(*x),
                        forall|a: int| 0 <= a < i ==> (#[trigger] literal_member(fs[a], n@)) is Some,
                        forall|b: int|
                            0 <= b < j ==> !same_literal(
                                *x,
                                (#[trigger] literal_member(fs[b], n@))->0,
                            ),
                    decreases i - j,
                {
                    let lj = literal_member_exec(ms[j], n);
                    assert(fs[j as int] == ms@[j as int]@);
                    assert(literal_member(fs[j as int], n@) is Some);
                    match lj {
                        Some(y) => {
                            if literal_eq(x, y) {
                                assert(same_literal(
                                    literal_member(fs[i as int], n@)->0,
                                    literal_member(fs[j as int], n@)->0,
                                ));
                                return false;
                            }
                        },
                        None => {
                            return false;
                        },
                    }
                    j += 1;
                }
            },
        }
        proof {
            assert forall|a: int, b: int|
                0 <= a < i + 1 && 0 <= b < i + 1 && a != b implies !same_literal(
                (#[trigger] literal_member(fs[a], n@))->0,
                (#[trigger] literal_member(fs[b], n@))->0,
            ) by {
                if a == i {
                } else if b == i {
                    lemma_same_literal_symmetric(
                        literal_member(fs[a], n@)->0,
                        literal_member(fs[b], n@)->0,
                    );
                }
            }
        }
        i += 1;
    }
    true
}

proof fn lemma_same_literal_symmetric(a: Literal, b: Literal)
    ensures
        same_literal(a, b) == same_literal(b, a),
{
}

/// The tag field of a union whose members have the fields `ms`: `Some` exactly when one
/// name, and only one, qualifies.
pub fn find_tag(ms: &Vec<&Vec<Field>>) -> (r: Option<String>)
    requires
        ms@.len() > 0,
    ensures
        r matches Some(t) ==> unique_tag(member_fields(ms@), t@),
        r is None ==> forall|n: Seq<char>| !unique_tag(member_fields(ms@), n),
{
    let ghost fs = member_fields(ms@);
    let first: &Vec<Field> = ms[0];
    assert(first@ == fs[0]);
    let mut found: Option<usize> = None;
    let mut k: usize = 0;
    while k < first.len()
        invariant
            fs == member_fields(ms@),
            ms@.len() > 0,
            first@ == fs[0],
            k <= first@.len(),
            found matches Some(f) ==> f < k && tag_qualifies(fs, first@[f as int].name@)
                && first_field(first@, first@[f as int].name@) == Some(f as int),
            forall|q: int|
                0 <= q < k && first_field(first@, first@[q].name@) == Some(q) && tag_qualifies(
                    fs,
                    #[trigger] first@[q].name@,
                ) ==> found == Some(q as usize),
        decreases first.len() - k,
    {
        let name = &first[k].name;
        let is_first = match first_field_exec(first, name) {
            Some(j) => j == k,
            None => false,
        };
        if is_first && tag_qualifies_exec(ms, name) {
            match found {
                Some(f) => {
                    proof {
                        lemma_first_field(first@, first@[f as int].name@);
                        lemma_first_field(first@, name@);
                        assert(first@[f as int].name@ != name@);
                    }
                    return None;
                },
                None => {
                    found = Some(k);
                },
            }
        }
        k += 1;
    }
    match found {
        Some(f) => {
            let t = first[f].name.clone();
            proof {
                assert forall|m: Seq<char>| #[trigger] tag_qualifies(fs, m) implies m == t@ by {
                    assert(literal_member(fs[0], m) is Some);
                    lemma_first_field(first@, m);
                    let q = first_field(first@, m)->0;
                    assert(first@[q].name@ == m);
                }
            }
            Some(t)
        },
        None => {
            proof {
                assert forall|m: Seq<char>| !unique_tag(fs, m) by {
                    if tag_qualifies(fs, m) {
                        assert(literal_member(fs[0], m) is Some);
                        lemma_first_field(first@, m);
                        let q = first_field(first@, m)->0;
                        assert(first@[q].name@ == m);
                    }
                }
            }
            None
        },
    }
}

/// The value of the tag field `tag` in each member, in order.
pub fn tag_values(ms: &Vec<&Vec<Field>>, tag: &String) -> (r: Vec<Literal>)
    requires
        tag_qualifies(member_fields(ms@), tag@),
    ensures
        r@.len() == ms@.len(),
        forall|i: int|
            0 <= i < ms@.len() ==> literal_member(member_fields(ms@)[i], tag@) == Some(
                #[trigger] r@[i],
            ),
{
    let ghost fs = member_fields(ms@);
    let mut r: Vec<Literal> = Vec::new();
    let mut i: usize = 0;
    while i < ms.len()
        invariant
            fs == member_fields(ms@),
            tag_qualifies(fs, tag@),
            i <= ms@.len(),
            r@.len() == i,
            forall|j: int| 0 <= j < i ==> literal_member(fs[j], tag@) == Some(#[trigger] r@[j]),
        decreases ms.len() - i,
    {
        assert(fs[i as int] == ms@[i as int]@);
        assert(literal_member(fs[i as int], tag@) is Some);
        match literal_member_exec(ms[i], tag) {
            Some(l) => {
                r.push(clone_literal(l));
            },
            None => {
                proof {
                    assert(false);
                }
                return r;
            },
        }
        i += 1;
    }
    r
}

} // verus!
