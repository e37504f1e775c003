//! Decoding and encoding of record values under the strict / lenient policy: an open
//! record captures undeclared members, a closed one rejects them.
use vstd::prelude::*;
use crate::classify::TargetField;
use crate::json::{distinct_keys, first_key, first_key_exec, lemma_first_key, Json};

verus! {

/// Where the members of an input object go in a decoded record: each present declared
/// member as (field index, member index), in declaration order, and the member indices of
/// the captured undeclared members, in input order.
pub struct RecordLayout {
    pub present: Vec<(usize, usize)>,
    pub extra: Vec<usize>,
}

pub enum DecodeError {
    /// A member the record does not declare, in a closed record.
    UnknownField(String),
    /// A required member that is absent.
    MissingField(String),
}

/// Whether the record declares a member with wire name `k`.
pub open spec fn declares(fields: Seq<TargetField>, k: Seq<char>) -> bool {
    exists|i: int| 0 <= i < fields.len() && fields[i].wire@ == k
}

/// The member of `obj` that gives the declared field `f` its value, if any: an optional
/// field whose member holds `null` counts as absent.
pub open spec fn member_index(obj: Seq<(String, Json)>, f: TargetField) -> Option<int> {
    match first_key(obj, f.wire@) {
        Some(j) => if f.optional && obj[j].1 is Null {
            None
        } else {
            Some(j)
        },
        None => None,
    }
}

/// The declared fields present in `obj`, in declaration order, with their members.
pub open spec fn present_members(fields: Seq<TargetField>, obj: Seq<(String, Json)>) -> Seq<
    (int, int),
>
    decreases fields.len(),
{
    if fields.len() == 0 {
        Seq::empty()
    } else {
        let head = present_members(fields.drop_last(), obj);
        match member_index(obj, fields.last()) {
            Some(j) => head.push((fields.len() - 1, j)),
            None => head,
        }
    }
}

/// The members of `obj` that the record does not declare, in input order.
pub open spec fn extra_members(fields: Seq<TargetField>, obj: Seq<(String, Json)>) -> Seq<int>
    decreases obj.len(),
{
    if obj.len() == 0 {
        Seq::empty()
    } else {
        let head = extra_members(fields, obj.drop_last());
        if declares(fields, obj.last().0@) {
            head
        } else {
            head.push(obj.len() - 1)
        }
    }
}

/// Whether some required field has no member in `obj`.
pub open spec fn missing_required(fields: Seq<TargetField>, obj: Seq<(String, Json)>) -> bool {
    exists|i: int|
        0 <= i < fields.len() && !fields[i].optional && member_index(obj, fields[i]) is None
}

/// Whether `obj` has a member that the record does not declare.
pub open spec fn has_undeclared(fields: Seq<TargetField>, obj: Seq<(String, Json)>) -> bool {
    exists|j: int| 0 <= j < obj.len() && !declares(fields, obj[j].0@)
}

/// The order in which an encoded record writes the input's members: declared fields
/// first, in declaration order, then the captured ones.
pub open spec fn encoding_order(fields: Seq<TargetField>, obj: Seq<(String, Json)>) -> Seq<int> {
    present_members(fields, obj).map_values(|p: (int, int)| p.1) + extra_members(fields, obj)
}

pub open spec fn as_ints(s: Seq<usize>) -> Seq<int> {
    s.map_values(|j: usize| j as int)
}

pub open spec fn pairs_as_ints(s: Seq<(usize, usize)>) -> Seq<(int, int)> {
    s.map_values(|p: (usize, usize)| (p.0 as int, p.1 as int))
}

/// The member indices of a list of (field, member) placements.
pub open spec fn member_indices(s: Seq<(usize, usize)>) -> Seq<int> {
    s.map_values(|p: (usize, usize)| p.1 as int)
}

fn member_index_exec(obj: &Vec<(String, Json)>, f: &TargetField) -> (r: Option<usize>)
    ensures
        r matches Some(j) ==> member_index(obj@, *f) == Some(j as int),
        r is None ==> member_index(obj@, *f) is None,
{
    match first_key_exec(obj, &f.wire) {
        Some(j) => {
            proof {
                lemma_first_key(obj@, f.wire@);
            }
            let is_null = match &obj[j].1 {
                Json::Null => true,
                _ => false,
            };
            if f.optional && is_null {
                None
            } else {
                Some(j)
            }
        },
        None => None,
    }
}

fn declares_exec(fields: &Vec<TargetField>, k: &String) -> (r: bool)
    ensures
        r == declares(fields@, k@),
{
    let mut i: usize = 0;
    while i < fields.len()
        invariant
            i <= fields@.len(),
            forall|a: int| 0 <= a < i ==> fields@[a].wire@ != k@,
        decreases fields.len() - i,
    {
        if fields[i].wire.eq(k) {
            return true;
        }
        i += 1;
    }
    false
}

/// Decodes the members `obj` of an input object against a record's fields. A closed
/// record (`open` false) rejects any undeclared member; then any absent required field is
/// an error; otherwise the layout places every declared member present and, for an open
/// record, captures every undeclared one.
pub fn decode_record(fields: &Vec<TargetField>, open: bool, obj: &Vec<(String, Json)>) -> (r:
    Result<RecordLayout, DecodeError>)
    ensures
        !open && has_undeclared(fields@, obj@) ==> (r matches Err(DecodeError::UnknownField(k))
            && !declares(fields@, k@) && exists|j: int| 0 <= j < obj@.len() && obj@[j].0@ == k@),
        (open || !has_undeclared(fields@, obj@)) && missing_required(fields@, obj@) ==> (r matches Err(
            DecodeError::MissingField(w),
        ) && exists|i: int|
            0 <= i < fields@.len() && fields@[i].wire@ == w@ && !fields@[i].optional
                && member_index(obj@, fields@[i]) is None),
        (open || !has_undeclared(fields@, obj@)) && !missing_required(fields@, obj@) ==> (r matches Ok(
            layout,
        ) && pairs_as_ints(layout.present@)
            == present_members(fields@, obj@) && as_ints(layout.extra@)
            == extra_members(fields@, obj@)),
{
    let mut extra: Vec<usize> = Vec::new();
    let mut j: usize = 0;
    while j < obj.len()
        invariant
            j <= obj@.len(),
            as_ints(extra@) == extra_members(fields@, obj@.subrange(0, j as int)),
            !open ==> forall|a: int| 0 <= a < j ==> declares(fields@, #[trigger] obj@[a].0@),
        decreases obj.len() - j,
    {
        assert(obj@.subrange(0, j + 1).drop_last() =~= obj@.subrange(0, j as int));
        if declares_exec(fields, &obj[j].0) {
        } else {
            if !open {
                return Err(DecodeError::UnknownField(obj[j].0.clone()));
            }
            extra.push(j);
        }
        assert(as_ints(extra@) =~= extra_members(
            fields@,
            obj@.subrange(0, j + 1),
        ));
        j += 1;
    }
    assert(obj@.subrange(0, obj@.len() as int) =~= obj@);
    assert(!open ==> !has_undeclared(fields@, obj@));
    let mut present: Vec<(usize, usize)> = Vec::new();
    let mut i: usize = 0;
    while i < fields.len()
        invariant
            i <= fields@.len(),
            pairs_as_ints(present@) == present_members(
                fields@.subrange(0, i as int),
                obj@,
            ),
            forall|a: int|
                0 <= a < i && !fields@[a].optional ==> member_index(obj@, #[trigger] fields@[a])
                    is Some,
            !open ==> !has_undeclared(fields@, obj@),
        decreases fields.len() - i,
    {
        assert(fields@.subrange(0, i + 1).drop_last() =~= fields@.subrange(0, i as int));
        match member_index_exec(obj, &fields[i]) {
            Some(m) => {
                present.push((i, m));
            },
            None => {
                if !fields[i].optional {
                    return Err(DecodeError::MissingField(fields[i].wire.clone()));
                }
            },
        }
        assert(pairs_as_ints(present@) =~= present_members(
            fields@.subrange(0, i + 1),
            obj@,
        ));
        i += 1;
    }
    assert(fields@.subrange(0, fields@.len() as int) =~= fields@);
    Ok(RecordLayout { present, extra })
}

impl RecordLayout {
    /// The member indices in the order an encoded record writes them: declared fields
    /// first, then the captured ones.
    pub fn encoding_order(&self) -> (r: Vec<usize>)
        ensures
            as_ints(r@) == member_indices(self.present@) + as_ints(self.extra@),
    {
        let mut r: Vec<usize> = Vec::new();
        let mut i: usize = 0;
        while i < self.present.len()
            invariant
                i <= self.present@.len(),
                as_ints(r@) == member_indices(self.present@.subrange(0, i as int)),
            decreases self.present.len() - i,
        {
            let ghost before = r@;
            r.push(self.present[i].1);
            assert(as_ints(r@) =~= as_ints(before).push(self.present@[i as int].1 as int));
            assert(member_indices(self.present@.subrange(0, i + 1)) =~= member_indices(
                self.present@.subrange(0, i as int),
            ).push(self.present@[i as int].1 as int));
            i += 1;
        }
        assert(self.present@.subrange(0, i as int) =~= self.present@);
        let mut k: usize = 0;
        while k < self.extra.len()
            invariant
                k <= self.extra@.len(),
                as_ints(r@) == member_indices(self.present@) + as_ints(self.extra@.subrange(0, k as int)),
            decreases self.extra.len() - k,
        {
            let ghost before = r@;
            r.push(self.extra[k]);
            assert(as_ints(r@) =~= as_ints(before).push(self.extra@[k as int] as int));
            assert(as_ints(self.extra@.subrange(0, k + 1)) =~= as_ints(
                self.extra@.subrange(0, k as int),
            ).push(self.extra@[k as int] as int));
            assert(member_indices(self.present@) + as_ints(self.extra@.subrange(0, k + 1))
                =~= (member_indices(self.present@) + as_ints(self.extra@.subrange(0, k as int))).push(
                self.extra@[k as int] as int,
            ));
            k += 1;
        }
        assert(self.extra@.subrange(0, k as int) =~= self.extra@);
        r
    }
}

proof fn lemma_present_members(fields: Seq<TargetField>, obj: Seq<(String, Json)>)
    ensures
        forall|x: int|
            0 <= x < present_members(fields, obj).len() ==> {
                let p = #[trigger] present_members(fields, obj)[x];
                &&& 0 <= p.0 < fields.len()
                &&& member_index(obj, fields[p.0]) == Some(p.1)
            },
        forall|x: int, y: int|
            0 <= x < y < present_members(fields, obj).len() ==> (#[trigger] present_members(
                fields,
                obj,
            )[x]).0 < (#[trigger] present_members(fields, obj)[y]).0,
        forall|k: int|
            0 <= k < fields.len() && (#[trigger] member_index(obj, fields[k])) is Some ==> exists|
                x: int,
            |
                0 <= x < present_members(fields, obj).len() && present_members(fields, obj)[x] == (
                    k,
                    member_index(obj, fields[k])->0,
                ),
    decreases fields.len(),
{
    if fields.len() > 0 {
        let init = fields.drop_last();
        lemma_present_members(init, obj);
        assert forall|k: int| 0 <= k < init.len() implies init[k] == fields[k] by {}
        let head = present_members(init, obj);
        let ps = present_members(fields, obj);
        assert forall|x: int| 0 <= x < head.len() implies ps[x] == head[x] by {}
        assert forall|k: int|
            0 <= k < fields.len() && (#[trigger] member_index(obj, fields[k])) is Some implies exists|
            x: int,
        | 0 <= x < ps.len() && ps[x] == (k, member_index(obj, fields[k])->0) by {
            if k < init.len() {
                assert(member_index(obj, init[k]) is Some);
                let x = choose|x: int|
                    0 <= x < head.len() && head[x] == (k, member_index(obj, init[k])->0);
                assert(ps[x] == head[x]);
            } else {
                assert(ps[head.len() as int] == (k, member_index(obj, fields[k])->0));
            }
        }
    }
}

proof fn lemma_extra_members(fields: Seq<TargetField>, obj: Seq<(String, Json)>)
    ensures
        forall|x: int|
            0 <= x < extra_members(fields, obj).len() ==> {
                let j = #[trigger] extra_members(fields, obj)[x];
                &&& 0 <= j < obj.len()
                &&& !declares(fields, obj[j].0@)
            },
        forall|x: int, y: int|
            0 <= x < y < extra_members(fields, obj).len() ==> #[trigger] extra_members(
                fields,
                obj,
            )[x] < #[trigger] extra_members(fields, obj)[y],
        forall|j: int|
            0 <= j < obj.len() && !declares(fields, (#[trigger] obj[j]).0@) ==> extra_members(
                fields,
                obj,
            ).contains(j),
    decreases obj.len(),
{
    if obj.len() > 0 {
        let init = obj.drop_last();
        lemma_extra_members(fields, init);
        assert forall|j: int| 0 <= j < init.len() implies init[j] == obj[j] by {}
        let head = extra_members(fields, init);
        let es = extra_members(fields, obj);
        assert forall|x: int| 0 <= x < head.len() implies es[x] == head[x] by {}
        assert forall|j: int| 0 <= j < obj.len() && !declares(fields, (#[trigger] obj[j]).0@)
            implies es.contains(j) by {
            if j < init.len() {
                assert(!declares(fields, init[j].0@));
                assert(head.contains(j));
                let x = choose|x: int| 0 <= x < head.len() && head[x] == j;
                assert(es[x] == j);
            } else {
                assert(es[head.len() as int] == j);
            }
        }
    }
}

/// In an open record, decoding and then encoding writes every member of the input object
/// exactly once: each member's index appears in the encoding order, only once, and
/// nothing else does. This holds for an object without repeated keys, a record without
/// repeated field names, and no optional field given as `null` (which decodes as absent
/// and is then left out).
pub proof fn lemma_open_record_keeps_every_member(
    fields: Seq<TargetField>,
    obj: Seq<(String, Json)>,
)
    requires
        forall|a: int, b: int|
            0 <= a < obj.len() && 0 <= b < obj.len() && a != b ==> obj[a].0@ != obj[b].0@,
        forall|a: int, b: int|
            0 <= a < fields.len() && 0 <= b < fields.len() && a != b ==> fields[a].wire@
                != fields[b].wire@,
        forall|i: int, j: int|
            0 <= i < fields.len() && 0 <= j < obj.len() && fields[i].optional && fields[i].wire@
                == obj[j].0@ ==> !(obj[j].1 is Null),
    ensures
        forall|j: int| 0 <= j < obj.len() ==> encoding_order(fields, obj).contains(j),
        forall|x: int|
            0 <= x < encoding_order(fields, obj).len() ==> 0 <= #[trigger] encoding_order(
                fields,
                obj,
            )[x] < obj.len(),
        encoding_order(fields, obj).no_duplicates(),
{
    lemma_present_members(fields, obj);
    lemma_extra_members(fields, obj);
    let ps = present_members(fields, obj);
    let pm = ps.map_values(|p: (int, int)| p.1);
    let es = extra_members(fields, obj);
    let order = encoding_order(fields, obj);
    assert(order == pm + es);
    assert forall|x: int| 0 <= x < pm.len() implies {
        &&& 0 <= #[trigger] pm[x] < obj.len()
        &&& declares(fields, obj[pm[x]].0@)
    } by {
        let p = ps[x];
        lemma_first_key(obj, fields[p.0].wire@);
        assert(fields[p.0].wire@ == obj[pm[x]].0@);
    }
    assert forall|j: int| 0 <= j < obj.len() implies order.contains(j) by {
        if declares(fields, obj[j].0@) {
            let k = choose|k: int| 0 <= k < fields.len() && fields[k].wire@ == obj[j].0@;
            lemma_first_key(obj, fields[k].wire@);
            let f = first_key(obj, fields[k].wire@);
            if f is None {
                assert(obj[j].0@ != fields[k].wire@);
            }
            let j2 = f->0;
            if j2 != j {
                assert(obj[j2].0@ == obj[j].0@);
            }
            assert(member_index(obj, fields[k]) == Some(j));
            let x = choose|x: int| 0 <= x < ps.len() && ps[x] == (k, j);
            assert(order[x] == j);
        } else {
            assert(es.contains(j));
            let x = choose|x: int| 0 <= x < es.len() && es[x] == j;
            assert(order[pm.len() + x] == j);
        }
    }
    assert forall|x: int| 0 <= x < order.len() implies 0 <= #[trigger] order[x] < obj.len() by {
        if x < pm.len() {
            assert(order[x] == pm[x]);
        } else {
            assert(order[x] == es[x - pm.len()]);
        }
    }
    assert forall|x: int, y: int| 0 <= x < order.len() && 0 <= y < order.len() && x != y implies order[x]
        != order[y] by {
        if x < pm.len() && y < pm.len() {
            let px = ps[x];
            let py = ps[y];
            assert(px.0 != py.0) by {
                if x < y {
                    assert(ps[x].0 < ps[y].0);
                } else {
                    assert(ps[y].0 < ps[x].0);
                }
            }
            lemma_first_key(obj, fields[px.0].wire@);
            lemma_first_key(obj, fields[py.0].wire@);
            assert(fields[px.0].wire@ != fields[py.0].wire@);
        } else if x >= pm.len() && y >= pm.len() {
            if x < y {
                assert(es[x - pm.len()] < es[y - pm.len()]);
            } else {
                assert(es[y - pm.len()] < es[x - pm.len()]);
            }
        } else if x < pm.len() {
            assert(declares(fields, obj[pm[x]].0@));
            assert(!declares(fields, obj[es[y - pm.len()]].0@));
        } else {
            assert(declares(fields, obj[pm[y]].0@));
            assert(!declares(fields, obj[es[x - pm.len()]].0@));
        }
    }
}

/// The object an encoding writes: the members of `obj` in the order `order`.
pub open spec fn reorder(obj: Seq<(String, Json)>, order: Seq<int>) -> Seq<(String, Json)> {
    order.map_values(|x: int| obj[x])
}

/// The decoded declared values: each present field with its member.
pub open spec fn present_values(fields: Seq<TargetField>, obj: Seq<(String, Json)>) -> Seq<
    (int, (String, Json)),
> {
    present_members(fields, obj).map_values(|p: (int, int)| (p.0, obj[p.1]))
}

/// The captured members, in input order.
pub open spec fn extra_values(fields: Seq<TargetField>, obj: Seq<(String, Json)>) -> Seq<
    (String, Json),
> {
    extra_members(fields, obj).map_values(|x: int| obj[x])
}

/// The members of `s` that the record does not declare.
pub open spec fn undeclared_entries(fields: Seq<TargetField>, s: Seq<(String, Json)>) -> Seq<
    (String, Json),
>
    decreases s.len(),
{
    if s.len() == 0 {
        Seq::empty()
    } else if declares(fields, s.last().0@) {
        undeclared_entries(fields, s.drop_last())
    } else {
        undeclared_entries(fields, s.drop_last()).push(s.last())
    }
}

proof fn lemma_extra_values(fields: Seq<TargetField>, s: Seq<(String, Json)>)
    ensures
        extra_values(fields, s) == undeclared_entries(fields, s),
    decreases s.len(),
{
    if s.len() > 0 {
        let init = s.drop_last();
        lemma_extra_values(fields, init);
        lemma_extra_members(fields, init);
        let ei = extra_members(fields, init);
        assert forall|x: int| 0 <= x < ei.len() implies init[ei[x]] == s[ei[x]] by {}
        if declares(fields, s.last().0@) {
            assert(extra_values(fields, s) =~= extra_values(fields, init));
        } else {
            assert(extra_values(fields, s) =~= extra_values(fields, init).push(s.last()));
        }
    }
}

proof fn lemma_undeclared_concat(
    fields: Seq<TargetField>,
    s1: Seq<(String, Json)>,
    s2: Seq<(String, Json)>,
)
    ensures
        undeclared_entries(fields, s1 + s2) == undeclared_entries(fields, s1) + undeclared_entries(
            fields,
            s2,
        ),
    decreases s2.len(),
{
    if s2.len() == 0 {
        assert(s1 + s2 =~= s1);
        assert(undeclared_entries(fields, s1) + undeclared_entries(fields, s2) =~= undeclared_entries(
            fields,
            s1,
        ));
    } else {
        lemma_undeclared_concat(fields, s1, s2.drop_last());
        assert((s1 + s2).drop_last() =~= s1 + s2.drop_last());
        if !declares(fields, s2.last().0@) {
            assert(undeclared_entries(fields, s1) + undeclared_entries(fields, s2) =~= (
            undeclared_entries(fields, s1) + undeclared_entries(fields, s2.drop_last())).push(
                s2.last(),
            ));
        }
    }
}

proof fn lemma_undeclared_all(fields: Seq<TargetField>, s: Seq<(String, Json)>)
    ensures
        (forall|i: int| 0 <= i < s.len() ==> declares(fields, (#[trigger] s[i]).0@))
            ==> undeclared_entries(fields, s) == Seq::<(String, Json)>::empty(),
        (forall|i: int| 0 <= i < s.len() ==> !declares(fields, (#[trigger] s[i]).0@))
            ==> undeclared_entries(fields, s) == s,
    decreases s.len(),
{
    if s.len() > 0 {
        lemma_undeclared_all(fields, s.drop_last());
        assert forall|i: int| 0 <= i < s.len() - 1 implies s.drop_last()[i] == s[i] by {}
        if forall|i: int| 0 <= i < s.len() ==> !declares(fields, (#[trigger] s[i]).0@) {
            assert(s.drop_last().push(s.last()) =~= s);
        }
    }
}

/// In a sequence without repeated keys, the first member with a key is the one member
/// with it.
proof fn lemma_first_key_distinct(s: Seq<(String, Json)>, j: int)
    requires
        distinct_keys(s),
        0 <= j < s.len(),
    ensures
        first_key(s, s[j].0@) == Some(j),
{
    lemma_first_key(s, s[j].0@);
}

proof fn lemma_present_transfer(
    fields: Seq<TargetField>,
    obj: Seq<(String, Json)>,
    obj2: Seq<(String, Json)>,
)
    requires
        forall|k: int|
            0 <= k < fields.len() ==> {
                &&& ((#[trigger] member_index(obj, fields[k])) is None <==> member_index(
                    obj2,
                    fields[k],
                ) is None)
                &&& member_index(obj, fields[k]) matches Some(j) ==> 0 <= j < obj.len() && 0
                    <= member_index(obj2, fields[k])->0 < obj2.len() && obj2[member_index(
                    obj2,
                    fields[k],
                )->0] == obj[j]
            },
    ensures
        present_values(fields, obj2) == present_values(fields, obj),
    decreases fields.len(),
{
    if fields.len() > 0 {
        let init = fields.drop_last();
        assert forall|k: int| 0 <= k < init.len() implies init[k] == fields[k] by {}
        lemma_present_transfer(init, obj, obj2);
        let k = fields.len() - 1;
        assert(fields.last() == fields[k]);
        match member_index(obj, fields.last()) {
            Some(j) => {
                assert(present_values(fields, obj) =~= present_values(init, obj).push(
                    (k, obj[j]),
                ));
                let j2 = member_index(obj2, fields.last())->0;
                assert(present_values(fields, obj2) =~= present_values(init, obj2).push(
                    (k, obj2[j2]),
                ));
            },
            None => {
                assert(present_values(fields, obj) =~= present_values(init, obj));
                assert(present_values(fields, obj2) =~= present_values(init, obj2));
            },
        }
    }
}

/// Decoding an open record, encoding it, and decoding the encoding again gives the same
/// record: the same declared fields with the same members, and the same captured
/// members in the same order. (Same conditions as for keeping every member.)
pub proof fn lemma_open_record_round_trip(fields: Seq<TargetField>, obj: Seq<(String, Json)>)
    requires
        distinct_keys(obj),
        forall|a: int, b: int|
            0 <= a < fields.len() && 0 <= b < fields.len() && a != b ==> fields[a].wire@
                != fields[b].wire@,
        forall|i: int, j: int|
            0 <= i < fields.len() && 0 <= j < obj.len() && fields[i].optional && fields[i].wire@
                == obj[j].0@ ==> !(obj[j].1 is Null),
    ensures
        present_values(fields, reorder(obj, encoding_order(fields, obj))) == present_values(
            fields,
            obj,
        ),
        extra_values(fields, reorder(obj, encoding_order(fields, obj))) == extra_values(
            fields,
            obj,
        ),
{
    lemma_open_record_keeps_every_member(fields, obj);
    let order = encoding_order(fields, obj);
    let obj2 = reorder(obj, order);
    lemma_present_members(fields, obj);
    lemma_extra_members(fields, obj);
    let ps = present_members(fields, obj);
    let pm = ps.map_values(|p: (int, int)| p.1);
    let es = extra_members(fields, obj);
    assert(order == pm + es);
    assert(distinct_keys(obj2)) by {
        assert forall|a: int, b: int|
            0 <= a < obj2.len() && 0 <= b < obj2.len() && a != b implies obj2[a].0@ != obj2[b].0@ by {
            assert(order[a] != order[b]);
            assert(0 <= order[a] < obj.len());
            assert(0 <= order[b] < obj.len());
        }
    }
    // the declared fields find the same members in both objects
    assert forall|k: int| 0 <= k < fields.len() implies {
        &&& ((#[trigger] member_index(obj, fields[k])) is None <==> member_index(obj2, fields[k])
            is None)
        &&& member_index(obj, fields[k]) matches Some(j) ==> 0 <= j < obj.len() && 0
            <= member_index(obj2, fields[k])->0 < obj2.len() && obj2[member_index(
            obj2,
            fields[k],
        )->0] == obj[j]
    } by {
        let w = fields[k].wire@;
        lemma_first_key(obj, w);
        lemma_first_key(obj2, w);
        match first_key(obj, w) {
            Some(j) => {
                assert(order.contains(j));
                let a = choose|a: int| 0 <= a < order.len() && order[a] == j;
                assert(obj2[a] == obj[j]);
                lemma_first_key_distinct(obj2, a);
            },
            None => {
                if first_key(obj2, w) is Some {
                    let a = first_key(obj2, w)->0;
                    assert(obj2[a] == obj[order[a]]);
                    assert(0 <= order[a] < obj.len());
                }
            },
        }
    }
    lemma_present_transfer(fields, obj, obj2);
    // the captured members: obj2 is the declared members followed by the captured ones
    let p2 = reorder(obj, pm);
    let e2 = reorder(obj, es);
    assert(obj2 =~= p2 + e2);
    assert forall|i: int| 0 <= i < p2.len() implies declares(fields, (#[trigger] p2[i]).0@) by {
        let p = ps[i];
        lemma_first_key(obj, fields[p.0].wire@);
    }
    assert forall|i: int| 0 <= i < e2.len() implies !declares(fields, (#[trigger] e2[i]).0@) by {}
    lemma_undeclared_all(fields, p2);
    lemma_undeclared_all(fields, e2);
    lemma_undeclared_concat(fields, p2, e2);
    lemma_extra_values(fields, obj2);
    lemma_extra_values(fields, obj);
    assert(undeclared_entries(fields, p2) + undeclared_entries(fields, e2) =~= e2);
    assert(extra_values(fields, obj) =~= e2);
}

} // verus!
