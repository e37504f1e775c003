//! The compile driver: resolve the root, classify every reached declaration once.
use vstd::prelude::*;
use crate::classify::{ambiguous, classifies, classify, TargetKind};
use crate::resolve::{
    closed_under, distinct_names, mentioned_before, names_of, resolvable, resolve,
};
use crate::table::{CompileError, Table};

verus! {

/// One emitted definition.
pub struct TargetDef {
    pub name: String,
    pub kind: TargetKind,
}

/// The names of a list of definitions.
pub open spec fn def_names(defs: Seq<TargetDef>) -> Seq<String> {
    defs.map_values(|d: TargetDef| d.name)
}

/// Whether `n` is reached from `root`: it lies in every closed set that holds `root`.
pub open spec fn reached(t: &Table, root: Seq<char>, n: Seq<char>) -> bool {
    forall|s: Set<Seq<char>>| #[trigger] closed_under(t, s) && s.contains(root) ==> s.contains(n)
}

/// Compiles the root type `root`: one definition for it and for each declaration it
/// reaches, each once, the root first and every later one mentioned by the declaration of
/// an earlier one (depth first, in the order references are discovered). Under `strict` no record is open.
/// Fails when resolution fails, or with `AmbiguousDiscriminant` for a reached union of
/// records that no single tag field tells apart.
pub fn compile(table: &Table, root: &String, strict: bool) -> (r: Result<
    Vec<TargetDef>,
    CompileError,
>)
    requires
        table.wf(),
    ensures
        !table.has(root@) ==> (r matches Err(CompileError::TypeNotFound(n)) && n@ == root@),
        !resolvable(table, root@) ==> r is Err,
        resolvable(table, root@) && (forall|n: Seq<char>|
            #[trigger] reached(table, root@, n) ==> !ambiguous(table, table.body_of(n))) ==> r is Ok,
        r matches Err(e) && !(e is AmbiguousDiscriminant) ==> !resolvable(table, root@),
        r matches Ok(defs) ==> {
            &&& resolvable(table, root@)
            &&& defs@.len() > 0
            &&& defs@[0].name@ == root@
            &&& distinct_names(def_names(defs@))
            &&& closed_under(table, names_of(def_names(defs@)))
            &&& forall|n: Seq<char>|
                names_of(def_names(defs@)).contains(n) <==> reached(table, root@, n)
            &&& forall|i: int|
                0 < i < defs@.len() ==> #[trigger] mentioned_before(
                    table,
                    def_names(defs@),
                    i,
                    defs@[i].name@,
                )
            &&& forall|i: int|
                0 <= i < defs@.len() ==> classifies(
                    table,
                    table.body_of((#[trigger] defs@[i]).name@),
                    strict,
                    defs@[i].kind,
                )
        },
        r matches Err(CompileError::AmbiguousDiscriminant(n)) ==> {
            &&& resolvable(table, root@)
            &&& reached(table, root@, n@)
            &&& table.has(n@)
            &&& ambiguous(table, table.body_of(n@))
        },
{
    let order = match resolve(table, root) {
        Ok(order) => order,
        Err(e) => {
            return Err(e);
        },
    };
    proof {
        assert(names_of(order@).contains(order@[0]@));
    }
    let mut defs: Vec<TargetDef> = Vec::new();
    let mut i: usize = 0;
    while i < order.len()
        invariant
            table.wf(),
            i <= order@.len(),
            order@.len() > 0,
            order@[0]@ == root@,
            closed_under(table, names_of(order@)),
            forall|s: Set<Seq<char>>|
                #[trigger] closed_under(table, s) && s.contains(root@) ==> names_of(order@) <= s,
            names_of(order@).contains(root@),
            defs@.len() == i,
            forall|j: int| 0 <= j < i ==> (#[trigger] defs@[j]).name == order@[j],
            forall|j: int|
                0 <= j < i ==> classifies(
                    table,
                    table.body_of((#[trigger] defs@[j]).name@),
                    strict,
                    defs@[j].kind,
                ),
        decreases order.len() - i,
    {
        assert(names_of(order@).contains(order@[i as int]@));
        let idx = match table.lookup(&order[i]) {
            Some(idx) => idx,
            None => {
                proof {
                    assert(false);
                }
                return Err(CompileError::TypeNotFound(root.clone()));
            },
        };
        match classify(table, &order[i], &table.decls[idx].body, strict) {
            Ok(kind) => {
                defs.push(TargetDef { name: order[i].clone(), kind });
            },
            Err(e) => {
                proof {
                    assert(names_of(order@).contains(order@[i as int]@));
                    assert(closed_under(table, names_of(order@)) && names_of(order@).contains(
                        root@,
                    ));
                    assert forall|s: Set<Seq<char>>|
                        #[trigger] closed_under(table, s) && s.contains(root@) implies s.contains(
                        order@[i as int]@,
                    ) by {
                        assert(names_of(order@) <= s);
                    }
                    assert(reached(table, root@, order@[i as int]@));
                }
                return Err(e);
            },
        }
        i += 1;
    }
    proof {
        assert(def_names(defs@) =~= order@);
        assert forall|k: int| 0 < k < defs@.len() implies #[trigger] mentioned_before(
            table,
            def_names(defs@),
            k,
            defs@[k].name@,
        ) by {
            assert(mentioned_before(table, order@, k, order@[k]@));
        }
        assert forall|n: Seq<char>|
            names_of(def_names(defs@)).contains(n) <==> reached(table, root@, n) by {
            if reached(table, root@, n) {
                assert(closed_under(table, names_of(order@)) && names_of(order@).contains(root@));
            }
        }
    }
    Ok(defs)
}

} // verus!
