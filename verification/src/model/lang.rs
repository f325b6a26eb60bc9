use vstd::prelude::*;

verus! {

/// Integer constant: a value in the domain of a variable.
pub type IntCst = i32;

/// Reference to a variable of a model, by its position.
#[derive(Clone, Copy, Debug, PartialEq, Eq, Structural, Hash, PartialOrd, Ord)]
pub struct VarRef(pub u32);

impl VarRef {
    /// The position of the variable.
    pub fn to_index(&self) -> (i: usize)
        ensures
            i == self.0,
    {
        self.0 as usize
    }
}

/// Function symbol of a reified expression.
#[derive(Clone, Copy, Debug, PartialEq, Eq, Structural, Hash)]
pub enum Fun {
    Or,
    And,
    Eq,
    Leq,
}

/// An expression whose truth value can be bound to a literal.
#[derive(Clone, Debug, PartialEq, Eq, Hash)]
pub struct Expr {
    pub fun: Fun,
    pub args: Vec<VarRef>,
}

} // verus!
