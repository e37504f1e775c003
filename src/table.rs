//! The declaration table: every declared type by its unique name.
use vstd::prelude::*;
use crate::schema::SourceType;

verus! {

/// Why a compilation stops. Each carries the name of the offending type or reference.
pub enum CompileError {
    DuplicateDeclaration(String),
    TypeNotFound(String),
    UnresolvedReference(String),
    UnsupportedConstruct(String),
    AmbiguousDiscriminant(String),
}

/// A named declaration.
pub struct Decl {
    pub name: String,
    pub body: SourceType,
}

pub struct Table {
    pub decls: Vec<Decl>,
}

impl Table {
    /// No name is declared twice.
    pub open spec fn wf(&self) -> bool {
        forall|i: int, j: int|
            0 <= i < self.decls@.len() && 0 <= j < self.decls@.len() && i != j
                ==> self.decls@[i].name@ != self.decls@[j].name@
    }

    pub open spec fn has(&self, n: Seq<char>) -> bool {
        exists|i: int| 0 <= i < self.decls@.len() && self.decls@[i].name@ == n
    }

    /// The body declared under `n` (meaningful where `has(n)`).
    pub open spec fn body_of(&self, n: Seq<char>) -> SourceType {
        self.decls@[choose|i: int| 0 <= i < self.decls@.len() && self.decls@[i].name@ == n].body
    }

    pub fn new() -> (r: Table)
        ensures
            r.wf(),
            r.decls@.len() == 0,
    {
        Table { decls: Vec::new() }
    }

    /// Index of the declaration named `name`.
    pub fn lookup(&self, name: &String) -> (r: Option<usize>)
        requires
            self.wf(),
        ensures
            r matches Some(i) ==> i < self.decls@.len() && self.decls@[i as int].name@ == name@
                && self.body_of(name@) == self.decls@[i as int].body,
            r is None ==> !self.has(name@),
    {
        let mut i: usize = 0;
        while i < self.decls.len()
            invariant
                self.wf(),
                i <= self.decls@.len(),
                forall|k: int| 0 <= k < i ==> self.decls@[k].name@ != name@,
            decreases self.decls.len() - i,
        {
            if self.decls[i].name.eq(name) {
                proof {
                    let c = choose|k: int|
                        0 <= k < self.decls@.len() && self.decls@[k].name@ == name@;
                    assert(c == i);
                }
                return Some(i);
            }
            i += 1;
        }
        None
    }

    /// Adds a declaration; a name that is already declared is refused and the table kept.
    pub fn declare(&mut self, name: String, body: SourceType) -> (r: Result<(), CompileError>)
        requires
            old(self).wf(),
        ensures
            final(self).wf(),
            old(self).has(name@) ==> r == Err::<(), CompileError>(
                CompileError::DuplicateDeclaration(name),
            ) && final(self).decls@ == old(self).decls@,
            !old(self).has(name@) ==> r is Ok && final(self).decls@ == old(self).decls@.push(
                Decl { name, body },
            ),
    {
        match self.lookup(&name) {
            Some(_) => Err(CompileError::DuplicateDeclaration(name)),
            None => {
                self.decls.push(Decl { name, body });
                Ok(())
            },
        }
    }
}

} // verus!
