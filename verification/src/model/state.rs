use vstd::prelude::*;
use crate::model::lang::{IntCst, VarRef};

verus! {

/// Domain of a variable: its bounds and, once known, whether it is present.
#[derive(Clone, Copy, Debug, PartialEq, Eq, Structural)]
pub struct VarDomain {
    pub lb: IntCst,
    pub ub: IntCst,
    /// `Some(false)` for a variable known to be absent, `Some(true)` for one known to be present.
    pub present: Option<bool>,
}

/// Domains of the variables of a model, indexed by variable.
#[derive(Clone, Debug)]
pub struct Domains {
    pub vars: Vec<VarDomain>,
}

impl Domains {
    /// Number of variables.
    pub fn num_variables(&self) -> (n: usize)
        ensures
            n == self.vars.len(),
    {
        self.vars.len()
    }

    /// Whether the variable has a single value left.
    pub fn is_bound(&self, v: VarRef) -> (b: bool)
        requires
            v.0 < self.vars.len(),
        ensures
            b == (self.vars@[v.0 as int].lb == self.vars@[v.0 as int].ub),
    {
        self.vars[v.0 as usize].lb == self.vars[v.0 as usize].ub
    }

    /// Whether the variable is known to be present (`Some(true)`), absent (`Some(false)`), or
    /// neither (`None`).
    pub fn present(&self, v: VarRef) -> (p: Option<bool>)
        requires
            v.0 < self.vars.len(),
        ensures
            p == self.vars@[v.0 as int].present,
    {
        self.vars[v.0 as usize].present
    }

    /// Lower and upper bounds of the variable.
    pub fn bounds(&self, v: VarRef) -> (b: (IntCst, IntCst))
        requires
            v.0 < self.vars.len(),
        ensures
            b.0 == self.vars@[v.0 as int].lb,
            b.1 == self.vars@[v.0 as int].ub,
    {
        (self.vars[v.0 as usize].lb, self.vars[v.0 as usize].ub)
    }
}

} // verus!
