//! Reference resolution: the closed set of declarations a root type reaches.
use vstd::prelude::*;
use crate::schema::{has_unsupported, mentions, Field, SourceType};
use crate::table::{CompileError, Table};

verus! {

/// Whether one of the first `k` types of `ts` mentions `m`.
pub open spec fn mentioned_in_some(ts: Seq<SourceType>, k: int, m: Seq<char>) -> bool {
    exists|j: int| 0 <= j < k && mentions(ts[j], m)
}

/// Whether the type of one of the first `k` fields of `fs` mentions `m`.
pub open spec fn mentioned_in_some_field(fs: Seq<Field>, k: int, m: Seq<char>) -> bool {
    exists|j: int| 0 <= j < k && mentions(fs[j].ty, m)
}

/// Every name that `t` mentions.
fn refs_of(t: &SourceType) -> (r: Vec<String>)
    ensures
        forall|m: Seq<char>|
            #[trigger] mentions(*t, m) ==> exists|i: int| 0 <= i < r@.len() && r@[i]@ == m,
        forall|i: int| 0 <= i < r@.len() ==> mentions(*t, #[trigger] r@[i]@),
    decreases t,
{
    match t {
        SourceType::Ref(n) => {
            let r = vec![n.clone()];
            assert(r@[0]@ == n@);
            assert(mentions(*t, n@));
            assert forall|m: Seq<char>| mentions(*t, m) implies exists|i: int|
                0 <= i < r@.len() && r@[i]@ == m by {
                assert(r@[0]@ == m);
            }
            r
        },
        SourceType::Array(e) => {
            let r = refs_of(e);
            assert forall|m: Seq<char>| mentions(*t, m) == mentions(**e, m) by {}
            r
        },
        SourceType::MapLike(e) => {
            let r = refs_of(e);
            assert forall|m: Seq<char>| mentions(*t, m) == mentions(**e, m) by {}
            r
        },
        SourceType::Tuple(ts) => {
            let r = refs_of_each(ts);
            assert forall|m: Seq<char>| mentions(*t, m) == mentioned_in_some(ts@, ts@.len() as int, m) by {}
            r
        },
        SourceType::Union(ts) => {
            let r = refs_of_each(ts);
            assert forall|m: Seq<char>| mentions(*t, m) == mentioned_in_some(ts@, ts@.len() as int, m) by {}
            r
        },
        SourceType::Record(fs, _) => {
            let r = refs_of_fields(fs);
            assert forall|m: Seq<char>| mentions(*t, m) == mentioned_in_some_field(fs@, fs@.len() as int, m) by {}
            r
        },
        _ => {
            let r: Vec<String> = Vec::new();
            assert(forall|m: Seq<char>| !mentions(*t, m));
            r
        },
    }
}

/// Every name that some element of `ts` mentions.
fn refs_of_each(ts: &Vec<SourceType>) -> (r: Vec<String>)
    ensures
        forall|m: Seq<char>|
            #[trigger] mentioned_in_some(ts@, ts@.len() as int, m) ==> exists|i: int|
                0 <= i < r@.len() && r@[i]@ == m,
        forall|i: int| 0 <= i < r@.len() ==> mentioned_in_some(ts@, ts@.len() as int, #[trigger] r@[i]@),
    decreases ts,
{
    let mut r: Vec<String> = Vec::new();
    let mut k: usize = 0;
    while k < ts.len()
        invariant
            k <= ts@.len(),
            forall|m: Seq<char>|
                #[trigger] mentioned_in_some(ts@, k as int, m) ==> exists|i: int|
                    0 <= i < r@.len() && r@[i]@ == m,
            forall|i: int| 0 <= i < r@.len() ==> mentioned_in_some(ts@, k as int, #[trigger] r@[i]@),
        decreases ts.len() - k,
    {
        assert(decreases_to!(ts => ts@));
        assert(decreases_to!(ts@ => ts@[k as int]));
        let mut more = refs_of(&ts[k]);
        let ghost before = r@;
        let ghost added = more@;
        r.append(&mut more);
        assert(r@ == before + added);
        assert forall|m: Seq<char>|
            #[trigger] mentioned_in_some(ts@, k + 1, m) implies exists|i: int|
            0 <= i < r@.len() && r@[i]@ == m by {
            let j = choose|j: int| 0 <= j < k + 1 && mentions(ts@[j], m);
            if j < k {
                assert(mentioned_in_some(ts@, k as int, m));
                let i = choose|i: int| 0 <= i < before.len() && before[i]@ == m;
                assert(r@[i] == before[i]);
            } else {
                assert(mentions(ts@[k as int], m));
                let i = choose|i: int| 0 <= i < added.len() && added[i]@ == m;
                assert(r@[before.len() + i] == added[i]);
            }
        }
        assert forall|i: int| 0 <= i < r@.len() implies mentioned_in_some(ts@, k + 1, #[trigger] r@[i]@) by {
            if i < before.len() {
                assert(r@[i] == before[i]);
                assert(mentioned_in_some(ts@, k as int, before[i]@));
            } else {
                assert(r@[i] == added[i - before.len()]);
                assert(mentions(ts@[k as int], added[i - before.len()]@));
            }
        }
        k += 1;
    }
    r
}

/// Every name that the type of some field of `fs` mentions.
fn refs_of_fields(fs: &Vec<Field>) -> (r: Vec<String>)
    ensures
        forall|m: Seq<char>|
            #[trigger] mentioned_in_some_field(fs@, fs@.len() as int, m) ==> exists|i: int|
                0 <= i < r@.len() && r@[i]@ == m,
        forall|i: int| 0 <= i < r@.len() ==> mentioned_in_some_field(fs@, fs@.len() as int, #[trigger] r@[i]@),
    decreases fs,
{
    let mut r: Vec<String> = Vec::new();
    let mut k: usize = 0;
    while k < fs.len()
        invariant
            k <= fs@.len(),
            forall|m: Seq<char>|
                #[trigger] mentioned_in_some_field(fs@, k as int, m) ==> exists|i: int|
                    0 <= i < r@.len() && r@[i]@ == m,
            forall|i: int| 0 <= i < r@.len() ==> mentioned_in_some_field(fs@, k as int, #[trigger] r@[i]@),
        decreases fs.len() - k,
    {
        assert(decreases_to!(fs => fs@));
        assert(decreases_to!(fs@ => fs@[k as int]));
        assert(decreases_to!(fs@[k as int] => fs@[k as int].ty));
        let mut more = refs_of(&fs[k].ty);
        let ghost before = r@;
        let ghost added = more@;
        r.append(&mut more);
        assert(r@ == before + added);
        assert forall|m: Seq<char>|
            #[trigger] mentioned_in_some_field(fs@, k + 1, m) implies exists|i: int|
            0 <= i < r@.len() && r@[i]@ == m by {
            let j = choose|j: int| 0 <= j < k + 1 && mentions(fs@[j].ty, m);
            if j < k {
                assert(mentioned_in_some_field(fs@, k as int, m));
                let i = choose|i: int| 0 <= i < before.len() && before[i]@ == m;
                assert(r@[i] == before[i]);
            } else {
                assert(mentions(fs@[k as int].ty, m));
                let i = choose|i: int| 0 <= i < added.len() && added[i]@ == m;
                assert(r@[before.len() + i] == added[i]);
            }
        }
        assert forall|i: int| 0 <= i < r@.len() implies mentioned_in_some_field(fs@, k + 1, #[trigger] r@[i]@) by {
            if i < before.len() {
                assert(r@[i] == before[i]);
                assert(mentioned_in_some_field(fs@, k as int, before[i]@));
            } else {
                assert(r@[i] == added[i - before.len()]);
                assert(mentions(fs@[k as int].ty, added[i - before.len()]@));
            }
        }
        k += 1;
    }
    r
}

/// Whether `t` is free of constructs with no target equivalent.
fn is_supported(t: &SourceType) -> (r: bool)
    ensures
        r == !has_unsupported(*t),
    decreases t,
{
    match t {
        SourceType::Unsupported => false,
        SourceType::Array(e) => is_supported(e),
        SourceType::MapLike(e) => is_supported(e),
        SourceType::Tuple(ts) => all_supported(ts),
        SourceType::Union(ts) => all_supported(ts),
        SourceType::Record(fs, _) => all_fields_supported(fs),
        _ => true,
    }
}

fn all_fields_supported(fs: &Vec<Field>) -> (r: bool)
    ensures
        r == forall|j: int| 0 <= j < fs@.len() ==> !has_unsupported(#[trigger] fs@[j].ty),
    decreases fs,
{
    let mut k: usize = 0;
    while k < fs.len()
        invariant
            k <= fs@.len(),
            forall|j: int| 0 <= j < k ==> !has_unsupported(#[trigger] fs@[j].ty),
        decreases fs.len() - k,
    {
        assert(decreases_to!(fs => fs@));
        assert(decreases_to!(fs@ => fs@[k as int]));
        assert(decreases_to!(fs@[k as int] => fs@[k as int].ty));
        if !is_supported(&fs[k].ty) {
            return false;
        }
        k += 1;
    }
    true
}

fn all_supported(ts: &Vec<SourceType>) -> (r: bool)
    ensures
        r == forall|j: int| 0 <= j < ts@.len() ==> !has_unsupported(#[trigger] ts@[j]),
    decreases ts,
{
    let mut k: usize = 0;
    while k < ts.len()
        invariant
            k <= ts@.len(),
            forall|j: int| 0 <= j < k ==> !has_unsupported(#[trigger] ts@[j]),
        decreases ts.len() - k,
    {
        assert(decreases_to!(ts => ts@));
        assert(decreases_to!(ts@ => ts@[k as int]));
        if !is_supported(&ts[k]) {
            return false;
        }
        k += 1;
    }
    true
}

/// The names held by `v`.
pub open spec fn names_of(v: Seq<String>) -> Set<Seq<char>> {
    Set::new(|n: Seq<char>| exists|i: int| 0 <= i < v.len() && v[i]@ == n)
}

/// Every name in `s` is declared, free of unsupported constructs, and everything its
/// declaration mentions is in `s` as well.
pub open spec fn closed_under(t: &Table, s: Set<Seq<char>>) -> bool {
    forall|n: Seq<char>|
        #[trigger] s.contains(n) ==> {
            &&& t.has(n)
            &&& !has_unsupported(t.body_of(n))
            &&& forall|m: Seq<char>| #[trigger] mentions(t.body_of(n), m) ==> s.contains(m)
        }
}

/// Whether `root` lies in some closed set of declarations: it and everything it reaches
/// are declared and supported.
pub open spec fn resolvable(t: &Table, root: Seq<char>) -> bool {
    exists|s: Set<Seq<char>>| closed_under(t, s) && s.contains(root)
}

/// Number of `false` entries.
pub open spec fn count_unmarked(s: Seq<bool>) -> nat
    decreases s.len(),
{
    if s.len() == 0 {
        0
    } else {
        count_unmarked(s.drop_last()) + if s.last() {
            0nat
        } else {
            1nat
        }
    }
}

proof fn lemma_mark(s: Seq<bool>, i: int)
    requires
        0 <= i < s.len(),
        !s[i],
    ensures
        count_unmarked(s.update(i, true)) + 1 == count_unmarked(s),
    decreases s.len(),
{
    if i < s.len() - 1 {
        assert(s.update(i, true).drop_last() =~= s.drop_last().update(i, true));
        lemma_mark(s.drop_last(), i);
    } else {
        assert(s.update(i, true).drop_last() =~= s.drop_last());
    }
}

/// Pushes the names of `more` onto `stack` last first, so that they are popped in the
/// order they were mentioned.
fn push_reversed(stack: &mut Vec<String>, more: &Vec<String>)
    ensures
        final(stack)@.len() == old(stack)@.len() + more@.len(),
        forall|x: int| 0 <= x < old(stack)@.len() ==> final(stack)@[x] == old(stack)@[x],
        forall|x: int|
            old(stack)@.len() <= x < final(stack)@.len() ==> #[trigger] final(stack)@[x]
                == more@[more@.len() - 1 - (x - old(stack)@.len())],
{
    let ghost start = stack@;
    let mut k: usize = more.len();
    while k > 0
        invariant
            k <= more@.len(),
            stack@.len() == start.len() + (more@.len() - k),
            forall|x: int| 0 <= x < start.len() ==> stack@[x] == start[x],
            forall|x: int|
                start.len() <= x < stack@.len() ==> #[trigger] stack@[x] == more@[more@.len() - 1 - (x
                    - start.len())],
        decreases k,
    {
        stack.push(more[k - 1].clone());
        k -= 1;
    }
}

/// Whether one of the first `k` names of `order` has a declaration that mentions `name`.
pub open spec fn mentioned_before(t: &Table, order: Seq<String>, k: int, name: Seq<char>) -> bool {
    exists|j: int| 0 <= j < k && mentions(t.body_of(order[j]@), name)
}

proof fn lemma_mentioned_before_push(
    t: &Table,
    order: Seq<String>,
    n: String,
    k: int,
    k2: int,
    name: Seq<char>,
)
    requires
        mentioned_before(t, order, k, name),
        k <= k2,
        k <= order.len(),
    ensures
        mentioned_before(t, order.push(n), k2, name),
{
    let j = choose|j: int| 0 <= j < k && mentions(t.body_of(order[j]@), name);
    assert(order.push(n)[j] == order[j]);
}

/// Whether no name occurs twice in `v`.
pub open spec fn distinct_names(v: Seq<String>) -> bool {
    forall|a: int, b: int| 0 <= a < v.len() && 0 <= b < v.len() && a != b ==> v[a]@ != v[b]@
}

/// Resolves `root`: the declarations it reaches, each once, `root` first. Fails with
/// `TypeNotFound` when `root` is not declared, and otherwise exactly when some reached
/// name is undeclared (`UnresolvedReference`) or unsupported (`UnsupportedConstruct`).
pub fn resolve(table: &Table, root: &String) -> (r: Result<Vec<String>, CompileError>)
    requires
        table.wf(),
    ensures
        r is Ok <==> resolvable(table, root@),
        !table.has(root@) ==> (r matches Err(CompileError::TypeNotFound(n)) && n@ == root@),
        r matches Ok(order) ==> {
            &&& order@.len() > 0
            &&& order@[0]@ == root@
            &&& distinct_names(order@)
            &&& closed_under(table, names_of(order@))
            &&& forall|s: Set<Seq<char>>|
                #[trigger] closed_under(table, s) && s.contains(root@) ==> names_of(order@) <= s
            &&& forall|i: int|
                0 < i < order@.len() ==> #[trigger] mentioned_before(table, order@, i, order@[i]@)
        },
        r matches Err(e) ==> match e {
            CompileError::TypeNotFound(n) => n@ == root@ && !table.has(root@),
            CompileError::UnresolvedReference(n) => table.has(root@) && !table.has(n@),
            CompileError::UnsupportedConstruct(n) => table.has(root@) && table.has(n@)
                && has_unsupported(table.body_of(n@)),
            _ => false,
        },
{
    if table.lookup(root).is_none() {
        return Err(CompileError::TypeNotFound(root.clone()));
    }
    let mut marked: Vec<bool> = Vec::new();
    while marked.len() < table.decls.len()
        invariant
            marked@.len() <= table.decls@.len(),
            forall|i: int| 0 <= i < marked@.len() ==> !marked@[i],
        decreases table.decls.len() - marked.len(),
    {
        marked.push(false);
    }
    let mut order: Vec<String> = Vec::new();
    let mut stack: Vec<String> = vec![root.clone()];
    assert(names_of(order@) =~= Set::empty());
    while stack.len() > 0
        invariant
            table.wf(),
            table.has(root@),
            marked@.len() == table.decls@.len(),
            forall|i: int|
                0 <= i < marked@.len() ==> (marked@[i] <==> names_of(order@).contains(
                    #[trigger] table.decls@[i].name@,
                )),
            forall|v: int|
                0 <= v < order@.len() ==> table.has(#[trigger] order@[v]@) && !has_unsupported(
                    table.body_of(order@[v]@),
                ),
            forall|v: int, m: Seq<char>|
                0 <= v < order@.len() && #[trigger] mentions(table.body_of(order@[v]@), m)
                    ==> names_of(order@).contains(m) || names_of(stack@).contains(m),
            distinct_names(order@),
            order@.len() == 0 ==> stack@.len() == 1 && stack@[0]@ == root@,
            order@.len() > 0 ==> order@[0]@ == root@,
            forall|s: Set<Seq<char>>|
                #[trigger] closed_under(table, s) && s.contains(root@) ==> names_of(order@)
                    <= s && names_of(stack@) <= s,
            forall|i: int|
                0 < i < order@.len() ==> #[trigger] mentioned_before(table, order@, i, order@[i]@),
            forall|x: int|
                0 <= x < stack@.len() ==> order@.len() == 0 || mentioned_before(
                    table,
                    order@,
                    order@.len() as int,
                    #[trigger] stack@[x]@,
                ),
        decreases count_unmarked(marked@), stack.len(),
    {
        let ghost old_stack = stack@;
        let ghost old_order = order@;
        let n = stack.pop().unwrap();
        assert(old_stack == stack@.push(n));
        assert(old_stack[stack@.len() as int] == n);
        assert(order@.len() == 0 || mentioned_before(
            table,
            order@,
            order@.len() as int,
            old_stack[stack@.len() as int]@,
        ));
        assert forall|x: int| 0 <= x < stack@.len() implies order@.len() == 0 || mentioned_before(
            table,
            order@,
            order@.len() as int,
            #[trigger] stack@[x]@,
        ) by {
            assert(stack@[x] == old_stack[x]);
        }
        assert(names_of(old_stack).contains(n@)) by {
            assert(old_stack[stack@.len() as int] == n);
        }
        assert forall|m: Seq<char>| names_of(stack@).contains(m) implies names_of(
            old_stack,
        ).contains(m) by {
            let i = choose|i: int| 0 <= i < stack@.len() && stack@[i]@ == m;
            assert(old_stack[i] == stack@[i]);
        }
        assert forall|m: Seq<char>| names_of(old_stack).contains(m) implies names_of(
            stack@,
        ).contains(m) || m == n@ by {
            let i = choose|i: int| 0 <= i < old_stack.len() && old_stack[i]@ == m;
            if i < stack@.len() {
                assert(old_stack[i] == stack@[i]);
            }
        }
        match table.lookup(&n) {
            None => {
                proof {
                    assert forall|s: Set<Seq<char>>|
                        !(closed_under(table, s) && s.contains(root@)) by {
                        if closed_under(table, s) && s.contains(root@) {
                            assert(s.contains(n@));
                        }
                    }
                }
                return Err(CompileError::UnresolvedReference(n));
            },
            Some(i) => {
                if marked[i] {
                    assert(names_of(order@).contains(n@));
                } else {
                    if !is_supported(&table.decls[i].body) {
                        proof {
                            assert forall|s: Set<Seq<char>>|
                                !(closed_under(table, s) && s.contains(root@)) by {
                                if closed_under(table, s) && s.contains(root@) {
                                    assert(s.contains(n@));
                                }
                            }
                        }
                        return Err(CompileError::UnsupportedConstruct(n));
                    }
                    proof {
                        lemma_mark(marked@, i as int);
                    }
                    marked.set(i, true);
                    order.push(n);
                    let more = refs_of(&table.decls[i].body);
                    let ghost mid = stack@;
                    let ghost added = more@;
                    push_reversed(&mut stack, &more);
                    assert(order@ == old_order.push(n));
                    proof {
                        let len = old_order.len() as int;
                        assert(table.body_of(order@[len]@) == table.decls@[i as int].body);
                        assert forall|k: int|
                            0 < k < order@.len() implies #[trigger] mentioned_before(
                            table,
                            order@,
                            k,
                            order@[k]@,
                        ) by {
                            if k < len {
                                assert(mentioned_before(table, old_order, k, old_order[k]@));
                                lemma_mentioned_before_push(table, old_order, n, k, k, old_order[k]@);
                            } else {
                                assert(mentioned_before(table, old_order, len, n@));
                                lemma_mentioned_before_push(table, old_order, n, len, len, n@);
                            }
                        }
                        assert forall|x: int|
                            0 <= x < stack@.len() implies order@.len() == 0 || mentioned_before(
                            table,
                            order@,
                            order@.len() as int,
                            #[trigger] stack@[x]@,
                        ) by {
                            if x < mid.len() {
                                assert(stack@[x] == mid[x]);
                                if len > 0 {
                                    assert(mentioned_before(table, old_order, len, mid[x]@));
                                    lemma_mentioned_before_push(table, old_order, n, len, len + 1, mid[x]@);
                                }
                            } else {
                                let a = added.len() - 1 - (x - mid.len());
                                assert(stack@[x] == added[a]);
                                assert(mentions(table.decls@[i as int].body, added[a]@));
                                assert(mentions(table.body_of(order@[len]@), stack@[x]@));
                            }
                        }
                    }
                    assert forall|m: Seq<char>| names_of(order@).contains(m) <==> (names_of(
                        old_order,
                    ).contains(m) || m == n@) by {
                        if names_of(order@).contains(m) {
                            let v = choose|v: int| 0 <= v < order@.len() && order@[v]@ == m;
                            if v < old_order.len() {
                                assert(order@[v] == old_order[v]);
                            }
                        }
                        if names_of(old_order).contains(m) {
                            let v = choose|v: int| 0 <= v < old_order.len() && old_order[v]@ == m;
                            assert(order@[v] == old_order[v]);
                        }
                        if m == n@ {
                            assert(order@[old_order.len() as int] == n);
                        }
                    }
                    assert forall|m: Seq<char>| names_of(stack@).contains(m) <==> (names_of(
                        mid,
                    ).contains(m) || exists|a: int| 0 <= a < added.len() && added[a]@ == m) by {
                        if names_of(stack@).contains(m) {
                            let x = choose|x: int| 0 <= x < stack@.len() && stack@[x]@ == m;
                            if x < mid.len() {
                                assert(stack@[x] == mid[x]);
                            } else {
                                assert(stack@[x] == added[added.len() - 1 - (x - mid.len())]);
                            }
                        }
                        if names_of(mid).contains(m) {
                            let x = choose|x: int| 0 <= x < mid.len() && mid[x]@ == m;
                            assert(stack@[x] == mid[x]);
                        }
                        if exists|a: int| 0 <= a < added.len() && added[a]@ == m {
                            let a = choose|a: int| 0 <= a < added.len() && added[a]@ == m;
                            let x = mid.len() + (added.len() - 1 - a);
                            assert(stack@[x] == added[added.len() - 1 - (x - mid.len())]);
                        }
                    }
                    assert forall|s: Set<Seq<char>>|
                        #[trigger] closed_under(table, s) && s.contains(root@) implies names_of(
                        order@,
                    ) <= s && names_of(stack@) <= s by {
                        assert(s.contains(n@));
                        assert forall|m: Seq<char>| names_of(stack@).contains(m) implies s.contains(
                            m,
                        ) by {
                            if !names_of(mid).contains(m) {
                                let a = choose|a: int| 0 <= a < added.len() && added[a]@ == m;
                                assert(mentions(table.decls@[i as int].body, added[a]@));
                            }
                        }
                    }
                    assert forall|v: int, m: Seq<char>|
                        0 <= v < order@.len() && #[trigger] mentions(
                            table.body_of(order@[v]@),
                            m,
                        ) implies names_of(order@).contains(m) || names_of(stack@).contains(m) by {
                        if v < old_order.len() {
                            assert(order@[v] == old_order[v]);
                        } else {
                            assert(order@[v] == n);
                            let a = choose|a: int| 0 <= a < added.len() && added[a]@ == m;
                            let x = mid.len() + (added.len() - 1 - a);
                            assert(stack@[x] == added[added.len() - 1 - (x - mid.len())]);
                            assert(stack@[x]@ == m);
                        }
                    }
                    assert forall|j: int|
                        0 <= j < marked@.len() implies (marked@[j] <==> names_of(order@).contains(
                        #[trigger] table.decls@[j].name@,
                    )) by {
                        if j != i {
                            assert(table.decls@[j].name@ != n@);
                        }
                    }
                    assert forall|v: int|
                        0 <= v < order@.len() implies table.has(#[trigger] order@[v]@)
                        && !has_unsupported(table.body_of(order@[v]@)) by {
                        if v < old_order.len() {
                            assert(order@[v] == old_order[v]);
                        }
                    }
                }
            },
        }
    }
    proof {
        assert(names_of(stack@) =~= Set::empty());
        assert(names_of(order@).contains(root@)) by {
            assert(order@[0]@ == root@);
        }
        assert forall|x: Seq<char>| #[trigger] names_of(order@).contains(x) implies {
            &&& table.has(x)
            &&& !has_unsupported(table.body_of(x))
            &&& forall|m: Seq<char>| #[trigger] mentions(table.body_of(x), m) ==> names_of(
                order@,
            ).contains(m)
        } by {
            let v = choose|v: int| 0 <= v < order@.len() && order@[v]@ == x;
            assert forall|m: Seq<char>| #[trigger] mentions(table.body_of(x), m) implies names_of(
                order@,
            ).contains(m) by {
                assert(mentions(table.body_of(order@[v]@), m));
            }
        }
        assert(closed_under(table, names_of(order@)));
    }
    Ok(order)
}

} // verus!
