//! The environment of a program: the values of its variables.

use crate::ast::{Object, Value};
use vstd::prelude::*;

verus! {

/// An environment: the variables of one scope, and the environment around
/// it. No name is bound twice in one scope.
pub struct Env<'i> {
    /// The environment around this one.
    parent: Option<Box<Env<'i>>>,
    /// The variables of this scope: names and values.
    vars: Vec<(String, Object<'i>)>,
}

impl<'i> Env<'i> {
    /// The names and values of the variables of this scope.
    pub closed spec fn bindings(&self) -> Seq<(Seq<char>, Value)> {
        Seq::new(self.vars@.len(), |i: int| (self.vars@[i].0@, self.vars@[i].1@))
    }

    /// Whether there is an environment around this one.
    pub closed spec fn nested(&self) -> bool {
        self.parent is Some
    }

    /// No name is bound twice.
    pub open spec fn well_formed(&self) -> bool {
        forall|i: int, j: int|
            0 <= i < j < self.bindings().len() ==> self.bindings()[i].0 != self.bindings()[j].0
    }

    /// An empty environment with none around it.
    pub fn new() -> (env: Self)
        ensures
            env.bindings().len() == 0,
            !env.nested(),
            env.well_formed(),
    {
        Env { parent: None, vars: Vec::new() }
    }

    /// Whether this scope has no variables.
    pub fn is_empty(&self) -> (empty: bool)
        ensures
            empty == (self.bindings().len() == 0),
    {
        self.vars.len() == 0
    }

    /// Whether there is an environment around this one.
    pub fn has_parent(&self) -> (nested: bool)
        ensures
            nested == self.nested(),
    {
        self.parent.is_some()
    }
}

} // verus!
