//! Function bodies: definitions of local values ended by one terminal.

use vstd::prelude::*;

use crate::module::{Atom, Reference, TypeDesc, Use};

verus! {

/// Functions take in arguments, run a sequence of [Op]s (mainly [Op::Apply]) to create potential computations,
/// and then branches on an atom, executing the corresponding computation and throwing out all others.
#[derive(Debug, Clone)]
pub struct Function {
    pub args: Vec<Arg>,
    // no need for a return type. it is always a BottomThunk
    pub def: Vec<Def>,
    pub term: Terminal<Use<Atom>>,
}

/// An operation guaranteed to terminate in bounded time (this is why functions do not run when finished applying)
#[derive(Debug, Clone)]
pub enum Op {
    /// Load the function this module uses at the given index.
    LoadFunc(Reference<Use<Function>>),
    /// Load the atom this module uses at the given index.
    LoadAtom { atom_ref: Reference<Use<Atom>> },
    Apply { func: Value, inputs: Vec<Value> },
}

/// A local value of a function.
#[derive(Debug, Clone, Copy, PartialEq, Eq, Structural)]
pub struct Value(pub usize);

#[derive(Debug, Clone)]
pub struct Arg {
    pub val: Value,
    pub type_ref: Synced<TypeDesc>,
}

#[derive(Debug, Clone)]
pub struct Def {
    pub dec: Value,
    pub op: Op,
}

#[derive(Debug, Clone)]
pub enum Terminal<A> {
    /// Execute a thunk
    Exec(Value),
    /// Atom match statement
    MatchAtom(Match<Reference<A>>),
    /// Number match statement
    MatchNum(Match<u32>),
}

#[derive(Debug, Clone)]
pub struct MatchArm<A> {
    pub val: A,
    /// arguments in the atom are passed to this function
    pub branch: Value,
}

#[derive(Debug, Clone)]
pub struct Match<A> {
    pub arms: Vec<MatchArm<A>>,
    pub default: Value,
}

/// A reference to a generic definition with the positions of the generic
/// parameters it is instantiated with.
#[derive(Debug)]
pub struct Synced<T> {
    pub adjusted_generics: Vec<u32>,
    pub desc: Reference<T>,
}

impl<T> Clone for Synced<T> {
    fn clone(&self) -> (r: Self)
        ensures
            r.adjusted_generics@ == self.adjusted_generics@,
            r.desc@ == self.desc@,
    {
        Synced { adjusted_generics: self.adjusted_generics.clone(), desc: self.desc }
    }
}

} // verus!
