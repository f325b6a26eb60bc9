use vstd::prelude::*;
use vstd::std_specs::ops::NotSpecImpl;

verus! {

/// A boolean variable, identified by a positive integer.
#[derive(Clone, Copy, PartialEq, Eq, Structural, Debug)]
pub struct BVar {
    pub id: u32,
}

/// The largest identifier that a variable may take: both of its literals must fit in a `u32`.
pub const MAX_VAR_ID: u32 = 0x7fff_fffe;

impl BVar {
    /// Builds the variable of the given id. Zero is not a variable, and the id must leave room
    /// for the two literals of the variable.
    pub fn from_bits(id: u32) -> (v: BVar)
        requires
            0 < id <= MAX_VAR_ID,
        ensures
            v.id == id,
    {
        BVar { id }
    }

    /// Position of the variable in a table indexed by variables.
    pub fn to_index(&self) -> (i: usize)
        ensures
            i == self.id,
    {
        self.id as usize
    }

    /// The variable that follows this one.
    pub fn next(&self) -> (v: BVar)
        requires
            self.id < MAX_VAR_ID,
        ensures
            v.id == self.id + 1,
    {
        BVar { id: self.id + 1 }
    }

    /// The literal stating that the variable takes the given value.
    pub open spec fn spec_lit(self, value: bool) -> Lit {
        Lit { id: LitId { value: (2 * self.id + (if value { 1int } else { 0int })) as u32 } }
    }

    /// The literal stating that the variable takes the given value.
    pub fn lit(&self, value: bool) -> (l: Lit)
        requires
            self.id <= MAX_VAR_ID,
        ensures
            l.id.value == 2 * self.id + (if value { 1int } else { 0int }),
            l == self.spec_lit(value),
            l.var_id() == self.id,
            l.positive() == value,
    {
        if value {
            self.true_lit()
        } else {
            self.false_lit()
        }
    }

    /// The literal stating that the variable is true.
    pub fn true_lit(&self) -> (l: Lit)
        requires
            self.id <= MAX_VAR_ID,
        ensures
            l.id.value == 2 * self.id + 1,
            l.var_id() == self.id,
            l.positive(),
    {
        Lit { id: LitId { value: 2 * self.id + 1 } }
    }

    /// The literal stating that the variable is false.
    pub fn false_lit(&self) -> (l: Lit)
        requires
            self.id <= MAX_VAR_ID,
        ensures
            l.id.value == 2 * self.id,
            l.var_id() == self.id,
            !l.positive(),
    {
        Lit { id: LitId { value: 2 * self.id } }
    }
}

/// Numeric identifier of a literal: twice the variable, plus one for the positive literal.
#[derive(Clone, Copy, PartialEq, Eq, Structural, Debug)]
pub struct LitId {
    pub value: u32,
}

impl LitId {
    pub fn get(&self) -> (v: u32)
        ensures
            v == self.value,
    {
        self.value
    }
}

/// A literal: a variable or its negation.
#[derive(Clone, Copy, PartialEq, Eq, Structural, Debug)]
pub struct Lit {
    pub id: LitId,
}

impl Lit {
    /// Identifier of the variable of the literal.
    pub open spec fn var_id(self) -> int {
        self.id.value as int / 2
    }

    /// Whether the literal states that its variable is true.
    pub open spec fn positive(self) -> bool {
        self.id.value % 2 == 1
    }

    /// The negation of the literal.
    pub open spec fn neg(self) -> Lit {
        Lit {
            id: LitId {
                value: if self.id.value % 2 == 1 {
                    (self.id.value - 1) as u32
                } else {
                    (self.id.value + 1) as u32
                },
            },
        }
    }

    /// The index of the literal in a table indexed by literals.
    pub open spec fn index(self) -> int {
        self.id.value as int
    }

    /// A placeholder literal, of the variable zero, that no clause holds.
    pub fn dummy() -> (l: Lit)
        ensures
            l.id.value == 1,
    {
        Lit { id: LitId { value: 1 } }
    }

    pub fn variable(&self) -> (v: BVar)
        ensures
            v.id == self.var_id(),
    {
        BVar { id: self.id.value / 2 }
    }

    pub fn is_positive(&self) -> (b: bool)
        ensures
            b == self.positive(),
    {
        self.id.value % 2 == 1
    }

    pub fn is_negative(&self) -> (b: bool)
        ensures
            b == !self.positive(),
    {
        self.id.value % 2 == 0
    }

    pub fn to_index(&self) -> (i: usize)
        ensures
            i == self.index(),
    {
        self.id.value as usize
    }

    /// The negation of the literal.
    pub fn negate(&self) -> (l: Lit)
        ensures
            l == self.neg(),
    {
        if self.id.value % 2 == 1 {
            Lit { id: LitId { value: self.id.value - 1 } }
        } else {
            Lit { id: LitId { value: self.id.value + 1 } }
        }
    }
}

pub broadcast proof fn lemma_neg_props(l: Lit)
    ensures
        #[trigger] l.neg().var_id() == l.var_id(),
        l.neg().positive() == !l.positive(),
        l.neg().neg() == l,
        l.neg() != l,
{
}

impl core::ops::Not for Lit {
    type Output = Lit;

    fn not(self) -> (l: Lit) {
        self.negate()
    }
}

impl NotSpecImpl for Lit {
    open spec fn obeys_not_spec() -> bool {
        true
    }

    open spec fn not_req(self) -> bool {
        true
    }

    open spec fn not_spec(self) -> Lit {
        self.neg()
    }
}

/// Value of a boolean variable in a partial assignment.
#[derive(Clone, Copy, PartialEq, Eq, Structural, Debug)]
pub enum BVal {
    Undef,
    True,
    False,
}

/// A decision: setting a variable to true or to false.
#[derive(Clone, Copy, PartialEq, Eq, Structural, Debug)]
pub enum Decision {
    True(BVar),
    False(BVar),
}

impl Decision {
    /// The opposite decision, on the same variable.
    pub open spec fn negated(self) -> Decision {
        match self {
            Decision::True(v) => Decision::False(v),
            Decision::False(v) => Decision::True(v),
        }
    }

    pub open spec fn var(self) -> BVar {
        match self {
            Decision::True(v) => v,
            Decision::False(v) => v,
        }
    }
}

impl core::ops::Not for Decision {
    type Output = Decision;

    fn not(self) -> (d: Decision) {
        match self {
            Decision::True(v) => Decision::False(v),
            Decision::False(v) => Decision::True(v),
        }
    }
}

impl NotSpecImpl for Decision {
    open spec fn obeys_not_spec() -> bool {
        true
    }

    open spec fn not_req(self) -> bool {
        true
    }

    open spec fn not_spec(self) -> Decision {
        self.negated()
    }
}

} // verus!
