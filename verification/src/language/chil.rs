//! The chil expression language's typed tree: operators named by strings,
//! typed variables addressed by a letter and a number.  Parsing and the
//! renaming conversion into spartan identifiers belong to the parsing
//! collaborator.

use vstd::prelude::*;

verus! {

/// Marker for the chil language.
#[derive(Clone, Copy, PartialEq, Eq, Structural, Debug)]
pub struct Chil;

/// A chil operator, named by the string the source uses.
#[derive(Clone, PartialEq, Eq, Hash, Debug)]
pub struct Op(pub String);

/// A chil type annotation.
#[derive(Debug, PartialEq, Eq)]
pub enum Type {
    Base(BaseType),
    Generic(GenericType),
    Tuple(TupleType),
    Function(FunctionType),
}

/// A named base type.
#[derive(Clone, PartialEq, Eq, Hash, Debug)]
pub struct BaseType(pub String);

/// A base type applied to type parameters.
#[derive(Debug, PartialEq, Eq)]
pub struct GenericType {
    pub base: BaseType,
    pub params: Vec<Type>,
}

/// A tuple of types.
#[derive(Debug, PartialEq, Eq)]
pub struct TupleType {
    pub types: Vec<Type>,
}

/// A function type from a tuple of arguments to a result.
#[derive(Debug, PartialEq, Eq)]
pub struct FunctionType {
    pub domain: TupleType,
    pub codomain: Box<Type>,
}

/// A chil variable: a bare address, or an identifier with its address.
#[derive(Debug, PartialEq, Eq)]
pub enum Variable {
    Addr(Addr),
    Identifier(Identifier, Addr),
}

/// A chil address: a letter and a number.
#[derive(Clone, Copy, PartialEq, Eq, Structural, Hash, Debug)]
pub struct Addr(pub char, pub usize);

/// A chil identifier.
#[derive(Clone, PartialEq, Eq, Hash, Debug)]
pub struct Identifier(pub String);

impl Variable {
    /// The address a variable carries, whichever form it takes.
    pub fn addr(&self) -> (r: Addr)
        ensures
            self matches Variable::Addr(a) ==> r == a,
            self matches Variable::Identifier(id, a) ==> r == a,
    {
        match self {
            Variable::Addr(a) => *a,
            Variable::Identifier(_, a) => *a,
        }
    }
}

} // verus!
