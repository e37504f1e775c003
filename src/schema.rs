//! The source type model: declarations as the front end hands them over.
use vstd::prelude::*;

verus! {

/// A literal type, kept as its exact source text: the string literal `"3"` and the
/// numeric literal `3` are different literals.
pub enum Literal {
    Str(String),
    Num(String),
}

/// What identifies a literal: whether it is a string literal, and its text.
pub open spec fn literal_key(l: Literal) -> (bool, Seq<char>) {
    match l {
        Literal::Str(x) => (true, x@),
        Literal::Num(x) => (false, x@),
    }
}

/// Whether two literals are the same literal: same kind and same text.
pub open spec fn same_literal(a: Literal, b: Literal) -> bool {
    literal_key(a) == literal_key(b)
}

pub fn literal_eq(a: &Literal, b: &Literal) -> (r: bool)
    ensures
        r == same_literal(*a, *b),
{
    match (a, b) {
        (Literal::Str(x), Literal::Str(y)) => x.eq(y),
        (Literal::Num(x), Literal::Num(y)) => x.eq(y),
        _ => false,
    }
}

pub fn clone_literal(l: &Literal) -> (r: Literal)
    ensures
        r == *l,
{
    match l {
        Literal::Str(s) => Literal::Str(s.clone()),
        Literal::Num(s) => Literal::Num(s.clone()),
    }
}

pub enum Primitive {
    Str,
    Num,
    Bool,
    Null,
}

/// A type expression of the source type system.
pub enum SourceType {
    Prim(Primitive),
    Lit(Literal),
    /// A reference to a declared type, by name.
    Ref(String),
    Array(Box<SourceType>),
    Tuple(Vec<SourceType>),
    /// An index-signature-only type: arbitrary string keys, one value type.
    MapLike(Box<SourceType>),
    Union(Vec<SourceType>),
    /// Declared members, and whether an index signature admits further members.
    Record(Vec<Field>, bool),
    /// A construct with no target equivalent (a function type, a free generic parameter).
    Unsupported,
}

/// A member of a record.
pub struct Field {
    pub name: String,
    pub ty: SourceType,
    pub optional: bool,
}

/// Whether `t` mentions the declared name `n` anywhere inside it.
pub open spec fn mentions(t: SourceType, n: Seq<char>) -> bool
    decreases t,
{
    match t {
        SourceType::Ref(r) => r@ == n,
        SourceType::Array(e) => mentions(*e, n),
        SourceType::MapLike(e) => mentions(*e, n),
        SourceType::Tuple(ts) => exists|i: int| 0 <= i < ts@.len() && mentions(ts@[i], n),
        SourceType::Union(ts) => exists|i: int| 0 <= i < ts@.len() && mentions(ts@[i], n),
        SourceType::Record(fs, _) => exists|i: int|
            0 <= i < fs@.len() && mentions(fs@[i].ty, n),
        _ => false,
    }
}

/// Whether `t` holds a construct with no target equivalent.
pub open spec fn has_unsupported(t: SourceType) -> bool
    decreases t,
{
    match t {
        SourceType::Unsupported => true,
        SourceType::Array(e) => has_unsupported(*e),
        SourceType::MapLike(e) => has_unsupported(*e),
        SourceType::Tuple(ts) => exists|i: int| 0 <= i < ts@.len() && has_unsupported(ts@[i]),
        SourceType::Union(ts) => exists|i: int| 0 <= i < ts@.len() && has_unsupported(ts@[i]),
        SourceType::Record(fs, _) => exists|i: int|
            0 <= i < fs@.len() && has_unsupported(fs@[i].ty),
        _ => false,
    }
}

} // verus!
