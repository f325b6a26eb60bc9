use vstd::prelude::*;
use vstd::std_specs::convert::FromSpecImpl;
use crate::model::bounds::Lit;
use crate::model::lang::Expr;

verus! {

/// Identifies an external writer to the model.
#[derive(Ord, PartialOrd, PartialEq, Eq, Structural, Copy, Clone, Hash, Debug)]
pub struct WriterId(pub u8);

/// An inference made by a writer, with a payload that the writer may use to explain it.
#[derive(PartialEq, Eq, Structural, Copy, Clone, Hash, Debug)]
pub struct InferenceCause {
    pub writer: WriterId,
    pub payload: u32,
}

/// Why a change was made to the model.
#[derive(PartialEq, Eq, Structural, Copy, Clone, Hash, Debug)]
pub enum Cause {
    /// A decision of the search.
    Decision,
    /// A constraint of the problem's encoding.
    Encoding,
    /// An inference of a writer.
    Inference(InferenceCause),
}

impl Cause {
    /// The cause of an inference of `writer`, with the given payload.
    pub fn inference(writer: WriterId, payload: u32) -> (c: Cause)
        ensures
            c == Cause::Inference(InferenceCause { writer, payload }),
    {
        Cause::Inference(InferenceCause { writer, payload })
    }
}

impl WriterId {
    pub fn new(num: u8) -> (w: WriterId)
        ensures
            w.0 == num,
    {
        WriterId(num)
    }

    /// The cause of an inference of this writer, with the given payload.
    pub fn cause(&self, cause: u32) -> (c: Cause)
        ensures
            c == Cause::Inference(InferenceCause { writer: *self, payload: cause }),
    {
        Cause::inference(*self, cause)
    }
}

/// Something that can be enforced in a model: a literal, or an expression, borrowed or owned.
pub enum Enforceable<'a> {
    Literal(Lit),
    BorrowedExpr(&'a Expr),
    Expr(Expr),
}

impl<'a> From<Lit> for Enforceable<'a> {
    fn from(l: Lit) -> (e: Self) {
        Enforceable::Literal(l)
    }
}

impl<'a> FromSpecImpl<Lit> for Enforceable<'a> {
    open spec fn obeys_from_spec() -> bool {
        true
    }

    open spec fn from_spec(l: Lit) -> Self {
        Enforceable::Literal(l)
    }
}

impl<'a> From<&'a Lit> for Enforceable<'a> {
    fn from(l: &'a Lit) -> (e: Self) {
        Enforceable::Literal(*l)
    }
}

impl<'a> FromSpecImpl<&'a Lit> for Enforceable<'a> {
    open spec fn obeys_from_spec() -> bool {
        true
    }

    open spec fn from_spec(l: &'a Lit) -> Self {
        Enforceable::Literal(*l)
    }
}

impl<'a> From<&'a Expr> for Enforceable<'a> {
    fn from(e: &'a Expr) -> (r: Self) {
        Enforceable::BorrowedExpr(e)
    }
}

impl<'a> FromSpecImpl<&'a Expr> for Enforceable<'a> {
    open spec fn obeys_from_spec() -> bool {
        true
    }

    open spec fn from_spec(e: &'a Expr) -> Self {
        Enforceable::BorrowedExpr(e)
    }
}

impl<'a> From<Expr> for Enforceable<'a> {
    fn from(e: Expr) -> (r: Self) {
        Enforceable::Expr(e)
    }
}

impl<'a> FromSpecImpl<Expr> for Enforceable<'a> {
    open spec fn obeys_from_spec() -> bool {
        true
    }

    open spec fn from_spec(e: Expr) -> Self {
        Enforceable::Expr(e)
    }
}

} // verus!
