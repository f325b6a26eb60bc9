use vstd::prelude::*;
use crate::model::lang::{IntCst, VarRef};

verus! {

/// Direction of the bound that a literal puts on its variable.
#[derive(Clone, Copy, Debug, PartialEq, Eq, Structural, Hash)]
pub enum Relation {
    /// `var <= value`
    Leq,
    /// `var >= value`
    Geq,
}

/// A literal: a bound on the value of a variable.
#[derive(Clone, Copy, Debug, PartialEq, Eq, Structural, Hash)]
pub struct Lit {
    pub var: VarRef,
    pub relation: Relation,
    pub value: IntCst,
}

/// A bound on a variable, as chosen by a brancher.
pub type Bound = Lit;

impl Lit {
    /// The literal `var <= value`.
    pub fn leq(var: VarRef, value: IntCst) -> (l: Lit)
        ensures
            l.var == var,
            l.relation == Relation::Leq,
            l.value == value,
    {
        Lit { var, relation: Relation::Leq, value }
    }

    /// The literal `var >= value`.
    pub fn geq(var: VarRef, value: IntCst) -> (l: Lit)
        ensures
            l.var == var,
            l.relation == Relation::Geq,
            l.value == value,
    {
        Lit { var, relation: Relation::Geq, value }
    }

    /// Whether the literal holds when its variable takes the value `x`.
    pub open spec fn holds(self, x: int) -> bool {
        match self.relation {
            Relation::Leq => x <= self.value,
            Relation::Geq => x >= self.value,
        }
    }
}

} // verus!
