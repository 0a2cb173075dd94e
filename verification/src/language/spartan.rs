//! The spartan expression language: its operators, variables and the unit
//! address and type markers.  The concrete grammar and parser live with the
//! parsing collaborator; the engine consumes the typed tree.

use vstd::prelude::*;

verus! {

/// Marker for the spartan language.
#[derive(Clone, Copy, PartialEq, Eq, Structural, Debug)]
pub struct Spartan;

/// A spartan operator.
#[derive(Clone, Copy, PartialEq, Eq, Structural, Hash, Debug)]
pub enum Op {
    Plus,
    Minus,
    Times,
    Div,
    Rem,
    And,
    Or,
    Not,
    If,
    Eq,
    Neq,
    Lt,
    Leq,
    Gt,
    Geq,
    App,
    Lambda,
    Atom,
    Deref,
    Assign,
    Bool(bool),
    Number(usize),
}

/// A spartan variable, named by its identifier.
#[derive(Clone, PartialEq, Eq, Hash, Debug)]
pub struct Variable(pub String);

/// Spartan thunks carry no address payload.
#[derive(Clone, Copy, PartialEq, Eq, Structural, Hash, Debug)]
pub struct Addr;

/// Spartan bindings carry no type payload.
#[derive(Clone, Copy, PartialEq, Eq, Structural, Hash, Debug)]
pub struct Type;

} // verus!
