use vstd::prelude::*;
use vstd::set_lib::{lemma_int_range, lemma_len_subset, set_int_range};
use crate::sat::lits::{lemma_neg_props, BVal, BVar, Decision, Lit, MAX_VAR_ID};

verus! {

broadcast use lemma_neg_props;

/// Decision level: the number of decisions on which an assignment depends.
pub type DecisionLevel = u32;

/// Level of the assignments that depend on no decision.
pub const GROUND_LEVEL: DecisionLevel = 0;

/// Identifier of a clause in the clause database.
pub type ClauseId = usize;

/// A partial assignment of the variables `1..=n`, recorded as a trail of literals in the order in
/// which they were set, cut into decision levels by backtrack points.
pub struct Assignments {
    /// Value of each variable, indexed by variable (index 0 is unused).
    pub values: Vec<BVal>,
    /// Decision level at which each assigned variable was set.
    pub levels: Vec<DecisionLevel>,
    /// Clause that implied each assigned variable, if any.
    pub reasons: Vec<Option<ClauseId>>,
    /// Literals made true, in the order in which they were set.
    pub trail: Vec<Lit>,
    /// Length of the trail when each backtrack point was added.
    pub lims: Vec<usize>,
    /// Decision of each backtrack point.
    pub decisions: Vec<Decision>,
}

impl Assignments {
    /// Number of variables.
    pub open spec fn num_vars(&self) -> nat {
        (self.values.len() - 1) as nat
    }

    pub open spec fn valid_var(&self, v: int) -> bool {
        1 <= v <= self.num_vars()
    }

    pub open spec fn assigned(&self, v: int) -> bool {
        self.values@[v] != BVal::Undef
    }

    /// The literal `l` is true in the assignment.
    pub open spec fn lit_true(&self, l: Lit) -> bool {
        &&& 0 <= l.var_id() < self.values.len()
        &&& if l.positive() {
            self.values@[l.var_id()] == BVal::True
        } else {
            self.values@[l.var_id()] == BVal::False
        }
    }

    /// The literal `l` is false in the assignment.
    pub open spec fn lit_false(&self, l: Lit) -> bool {
        self.lit_true(l.neg())
    }

    pub open spec fn level_of(&self, v: int) -> int {
        self.levels@[v] as int
    }

    pub open spec fn dl(&self) -> int {
        self.lims.len() as int
    }

    /// Variable of the `i`-th literal of the trail.
    pub open spec fn tvar(&self, i: int) -> int {
        self.trail@[i].var_id()
    }

    pub open spec fn wf_sizes(&self) -> bool {
        &&& self.values.len() >= 1
        &&& self.values.len() <= MAX_VAR_ID as nat + 1
        &&& self.levels.len() == self.values.len()
        &&& self.reasons.len() == self.values.len()
        &&& self.values@[0] == BVal::Undef
        &&& self.lims.len() == self.decisions.len()
        &&& self.lims.len() < u32::MAX
    }

    pub open spec fn wf_lims(&self) -> bool {
        &&& forall|k: int| 0 <= k < self.lims.len() ==> #[trigger] self.lims@[k] <= self.trail.len()
        &&& forall|k1: int, k2: int|
            0 <= k1 <= k2 < self.lims.len() ==> self.lims@[k1] <= self.lims@[k2]
    }

    pub open spec fn wf_trail(&self) -> bool {
        &&& forall|i: int|
            0 <= i < self.trail.len() ==> #[trigger] self.valid_var(self.tvar(i))
        &&& forall|i: int| 0 <= i < self.trail.len() ==> #[trigger] self.lit_true(self.trail@[i])
        &&& forall|i: int, j: int|
            0 <= i < j < self.trail.len() ==> self.tvar(i) != self.tvar(j)
        &&& forall|v: int|
            1 <= v < self.values.len() && #[trigger] self.assigned(v) ==> exists|i: int|
                0 <= i < self.trail.len() && self.tvar(i) == v
    }

    pub open spec fn wf_levels(&self) -> bool {
        &&& forall|i: int| 0 <= i < self.trail.len() ==> #[trigger] self.level_of(self.tvar(i)) <= self.dl()
        &&& forall|i: int, k: int|
            0 <= i < self.trail.len() && 0 <= k < self.lims.len() ==> (i < #[trigger] self.lims@[k]
                <==> #[trigger] self.level_of(self.tvar(i)) <= k)
    }

    pub open spec fn wf_decisions(&self) -> bool {
        &&& forall|k: int|
            0 <= k < self.lims.len() ==> 1 <= (#[trigger] self.decisions@[k]).var().id
                <= self.num_vars()
        &&& forall|k: int|
            0 <= k < self.lims.len() ==> if #[trigger] self.lims@[k] < self.trail.len() {
                self.tvar(self.lims@[k] as int) == self.decisions@[k].var().id
            } else {
                !self.assigned(self.decisions@[k].var().id as int)
            }
    }

    pub open spec fn wf(&self) -> bool {
        &&& self.wf_sizes()
        &&& self.wf_lims()
        &&& self.wf_trail()
        &&& self.wf_levels()
        &&& self.wf_decisions()
    }

    /// The set of assigned variables.
    pub open spec fn assigned_set(&self) -> Set<int> {
        Set::new(|v: int| 1 <= v < self.values.len() && self.assigned(v))
    }

    /// Creates an assignment of the variables `1..=num_vars` in which none is set.
    pub fn new(num_vars: u32) -> (a: Assignments)
        requires
            num_vars <= MAX_VAR_ID,
        ensures
            a.wf(),
            a.num_vars() == num_vars,
            a.trail.len() == 0,
            a.dl() == 0,
            forall|v: int| 0 <= v <= num_vars ==> !#[trigger] a.assigned(v),
    {
        let n = num_vars as usize + 1;
        let mut values: Vec<BVal> = Vec::new();
        let mut levels: Vec<DecisionLevel> = Vec::new();
        let mut reasons: Vec<Option<ClauseId>> = Vec::new();
        let mut i: usize = 0;
        while i < n
            invariant
                i <= n,
                values.len() == i,
                levels.len() == i,
                reasons.len() == i,
                forall|j: int| 0 <= j < i ==> values@[j] == BVal::Undef,
            decreases n - i,
        {
            values.push(BVal::Undef);
            levels.push(GROUND_LEVEL);
            reasons.push(None);
            i = i + 1;
        }
        Assignments {
            values,
            levels,
            reasons,
            trail: Vec::new(),
            lims: Vec::new(),
            decisions: Vec::new(),
        }
    }

    /// Value of the variable.
    pub fn get(&self, v: BVar) -> (r: BVal)
        requires
            v.id < self.values.len(),
        ensures
            r == self.values@[v.id as int],
    {
        self.values[v.id as usize]
    }

    pub fn is_set(&self, v: BVar) -> (r: bool)
        requires
            v.id < self.values.len(),
        ensures
            r == self.assigned(v.id as int),
    {
        match self.values[v.id as usize] {
            BVal::Undef => false,
            _ => true,
        }
    }

    pub fn level(&self, v: BVar) -> (r: DecisionLevel)
        requires
            self.wf(),
            v.id < self.values.len(),
        ensures
            r == self.levels@[v.id as int],
    {
        self.levels[v.id as usize]
    }

    pub fn reason(&self, v: BVar) -> (r: Option<ClauseId>)
        requires
            self.wf(),
            v.id < self.values.len(),
        ensures
            r == self.reasons@[v.id as int],
    {
        self.reasons[v.id as usize]
    }

    pub fn decision_level(&self) -> (r: DecisionLevel)
        requires
            self.wf(),
        ensures
            r == self.dl(),
    {
        self.lims.len() as DecisionLevel
    }

    pub fn root_level(&self) -> (r: DecisionLevel)
        ensures
            r == GROUND_LEVEL,
    {
        GROUND_LEVEL
    }

    pub fn num_assigned(&self) -> (r: usize)
        ensures
            r == self.trail.len(),
    {
        self.trail.len()
    }

    /// The literal set `i` assignments before the last one.
    pub fn last_assignment(&self, i: usize) -> (l: Lit)
        requires
            i < self.trail.len(),
        ensures
            l == self.trail@[self.trail.len() - 1 - i],
    {
        self.trail[self.trail.len() - 1 - i]
    }

    /// Sets the variable, at the current decision level.
    pub fn set(&mut self, v: BVar, value: bool, reason: Option<ClauseId>)
        requires
            old(self).wf(),
            old(self).valid_var(v.id as int),
            !old(self).assigned(v.id as int),
            forall|k: int|
                0 <= k < old(self).lims.len() && #[trigger] old(self).lims@[k] == old(self).trail.len()
                    ==> old(self).decisions@[k].var() == v,
        ensures
            final(self).wf(),
            final(self).values@ == old(self).values@.update(
                v.id as int,
                if value { BVal::True } else { BVal::False },
            ),
            final(self).levels@ == old(self).levels@.update(v.id as int, old(self).dl() as u32),
            final(self).reasons@ == old(self).reasons@.update(v.id as int, reason),
            final(self).trail@ == old(self).trail@.push(v.spec_lit(value)),
            final(self).lims@ == old(self).lims@,
            final(self).decisions@ == old(self).decisions@,
    {
        let ghost old_a = *self;
        let idx = v.id as usize;
        let lit = v.lit(value);
        self.values.set(idx, if value { BVal::True } else { BVal::False });
        self.levels.set(idx, self.lims.len() as DecisionLevel);
        self.reasons.set(idx, reason);
        self.trail.push(lit);
        proof {
            let n = self.trail.len() as int;
            assert(self.tvar(n - 1) == v.id);
            assert forall|i: int| 0 <= i < n - 1 implies self.tvar(i) != v.id by {
                assert(old_a.lit_true(old_a.trail@[i]));
            }
            assert forall|i: int| 0 <= i < n implies #[trigger] self.lit_true(self.trail@[i]) by {
                if i < n - 1 {
                    assert(old_a.lit_true(old_a.trail@[i]));
                }
            }
            assert forall|i: int| 0 <= i < n implies #[trigger] self.level_of(self.tvar(i))
                <= self.dl() by {
                if i < n - 1 {
                    assert(old_a.lit_true(old_a.trail@[i]));
                    assert(old_a.tvar(i) != v.id);
                    assert(self.tvar(i) == old_a.tvar(i));
                    assert(old_a.level_of(old_a.tvar(i)) <= old_a.dl());
                }
            }
            assert forall|i: int, k: int|
                0 <= i < n && 0 <= k < self.lims.len() implies (i < #[trigger] self.lims@[k]
                <==> #[trigger] self.level_of(self.tvar(i)) <= k) by {
                if i < n - 1 {
                    assert(old_a.lit_true(old_a.trail@[i]));
                    assert(old_a.tvar(i) != v.id);
                    assert(self.tvar(i) == old_a.tvar(i));
                    assert(old_a.lims@[k] <= old_a.trail.len());
                    assert(i < old_a.lims@[k] <==> old_a.level_of(old_a.tvar(i)) <= k);
                } else {
                    assert(old_a.lims@[k] <= old_a.trail.len());
                }
            }
            assert forall|u: int|
                1 <= u < self.values.len() && #[trigger] self.assigned(u) implies exists|i: int|
                0 <= i < self.trail.len() && self.tvar(i) == u by {
                if u != v.id {
                    assert(old_a.assigned(u));
                    let i = choose|i: int| 0 <= i < old_a.trail.len() && old_a.tvar(i) == u;
                    assert(self.tvar(i) == u);
                } else {
                    assert(self.tvar(n - 1) == u);
                }
            }
            assert forall|i: int| 0 <= i < n implies #[trigger] self.valid_var(self.tvar(i)) by {
                if i < n - 1 {
                    assert(old_a.valid_var(old_a.tvar(i)));
                }
            }
            assert forall|i: int, j: int| 0 <= i < j < n implies self.tvar(i) != self.tvar(j) by {
                if j < n - 1 {
                    assert(old_a.tvar(i) != old_a.tvar(j));
                }
            }
            assert forall|k: int| 0 <= k < self.lims.len() implies if #[trigger] self.lims@[k]
                < self.trail.len() {
                self.tvar(self.lims@[k] as int) == self.decisions@[k].var().id
            } else {
                !self.assigned(self.decisions@[k].var().id as int)
            } by {
                assert(old_a.lims@[k] <= old_a.trail.len());
                if old_a.lims@[k] < old_a.trail.len() {
                } else {
                    assert(!old_a.assigned(old_a.decisions@[k].var().id as int));
                }
            }
        }
    }
}


impl Assignments {
    /// Opens a new decision level for the given decision, whose variable must not be set yet.
    pub fn add_backtrack_point(&mut self, dec: Decision)
        requires
            old(self).wf(),
            old(self).valid_var(dec.var().id as int),
            !old(self).assigned(dec.var().id as int),
            old(self).lims.len() + 1 < u32::MAX,
        ensures
            final(self).wf(),
            final(self).values@ == old(self).values@,
            final(self).levels@ == old(self).levels@,
            final(self).reasons@ == old(self).reasons@,
            final(self).trail@ == old(self).trail@,
            final(self).lims@ == old(self).lims@.push(old(self).trail.len()),
            final(self).decisions@ == old(self).decisions@.push(dec),
    {
        let ghost old_a = *self;
        let len = self.trail.len();
        self.lims.push(len);
        self.decisions.push(dec);
        proof {
            let d = old_a.lims.len() as int;
            assert forall|k: int| 0 <= k < self.lims.len() implies #[trigger] self.lims@[k]
                <= self.trail.len() by {
                if k < d {
                    assert(old_a.lims@[k] <= old_a.trail.len());
                }
            }
            assert forall|k1: int, k2: int|
                0 <= k1 <= k2 < self.lims.len() implies self.lims@[k1] <= self.lims@[k2] by {
                if k2 < d {
                    assert(old_a.lims@[k1] <= old_a.lims@[k2]);
                } else if k1 < d {
                    assert(old_a.lims@[k1] <= old_a.trail.len());
                }
            }
            assert forall|i: int| 0 <= i < self.trail.len() implies #[trigger] self.level_of(
                self.tvar(i),
            ) <= self.dl() by {
                assert(old_a.level_of(old_a.tvar(i)) <= old_a.dl());
            }
            assert forall|i: int, k: int|
                0 <= i < self.trail.len() && 0 <= k < self.lims.len() implies (i
                < #[trigger] self.lims@[k] <==> #[trigger] self.level_of(self.tvar(i)) <= k) by {
                assert(old_a.level_of(old_a.tvar(i)) <= old_a.dl());
                if k < d {
                    assert(i < old_a.lims@[k] <==> old_a.level_of(old_a.tvar(i)) <= k);
                }
            }
            assert forall|k: int| 0 <= k < self.lims.len() implies if #[trigger] self.lims@[k]
                < self.trail.len() {
                self.tvar(self.lims@[k] as int) == self.decisions@[k].var().id
            } else {
                !self.assigned(self.decisions@[k].var().id as int)
            } by {
                if k < d {
                    assert(old_a.lims@[k] <= old_a.trail.len());
                }
            }
            assert forall|k: int| 0 <= k < self.lims.len() implies 1 <= (
            #[trigger] self.decisions@[k]).var().id <= self.num_vars() by {
                if k < d {
                    assert(1 <= old_a.decisions@[k].var().id <= old_a.num_vars());
                }
            }
            assert forall|u: int|
                1 <= u < self.values.len() && #[trigger] self.assigned(u) implies exists|i: int|
                0 <= i < self.trail.len() && self.tvar(i) == u by {
                assert(old_a.assigned(u));
                let i = choose|i: int| 0 <= i < old_a.trail.len() && old_a.tvar(i) == u;
                assert(self.tvar(i) == u);
            }
            lemma_same_trail(old_a, *self);
            assert(self.wf_sizes());
            assert(self.wf_lims());
            assert(self.wf_trail());
            assert(self.wf_levels());
            assert(self.wf_decisions());
        }
    }

    /// Undoes the last assignment, which must belong to the current decision level.
    pub fn pop_assignment(&mut self) -> (l: Lit)
        requires
            old(self).wf(),
            old(self).lims.len() > 0,
            old(self).trail.len() > old(self).lims@.last(),
        ensures
            final(self).wf(),
            l == old(self).trail@.last(),
            old(self).valid_var(l.var_id()),
            old(self).level_of(l.var_id()) == old(self).dl(),
            final(self).values@ == old(self).values@.update(l.var_id(), BVal::Undef),
            final(self).levels@ == old(self).levels@,
            final(self).reasons@ == old(self).reasons@,
            final(self).trail@ == old(self).trail@.drop_last(),
            final(self).lims@ == old(self).lims@,
            final(self).decisions@ == old(self).decisions@,
    {
        let ghost old_a = *self;
        proof {
            let n = old_a.trail.len() as int;
            assert(old_a.valid_var(old_a.tvar(n - 1)));
        }
        let l = self.trail.pop().unwrap();
        let idx = l.variable().to_index();
        self.values.set(idx, BVal::Undef);
        proof {
            let n = old_a.trail.len() as int;
            let d = old_a.dl();
            let x = l.var_id();
            assert(old_a.tvar(n - 1) == x);
            assert(old_a.valid_var(old_a.tvar(n - 1)));
            assert(old_a.lims@[d - 1] <= n - 1);
            assert(old_a.level_of(old_a.tvar(n - 1)) <= d);
            assert(!(n - 1 < old_a.lims@[d - 1]));
            assert(!(old_a.level_of(old_a.tvar(n - 1)) <= d - 1));
            assert forall|i: int| 0 <= i < n - 1 implies self.tvar(i) == old_a.tvar(i)
                && old_a.tvar(i) != x by {
                assert(old_a.tvar(i) != old_a.tvar(n - 1));
            }
            assert forall|i: int| 0 <= i < n - 1 implies #[trigger] self.lit_true(self.trail@[i]) by {
                assert(old_a.lit_true(old_a.trail@[i]));
                assert(old_a.tvar(i) != x);
            }
            assert forall|i: int| 0 <= i < n - 1 implies #[trigger] self.valid_var(self.tvar(i)) by {
                assert(old_a.valid_var(old_a.tvar(i)));
            }
            assert forall|i: int| 0 <= i < n - 1 implies #[trigger] self.level_of(self.tvar(i))
                <= self.dl() by {
                assert(old_a.level_of(old_a.tvar(i)) <= old_a.dl());
            }
            assert forall|i: int, k: int|
                0 <= i < n - 1 && 0 <= k < self.lims.len() implies (i < #[trigger] self.lims@[k]
                <==> #[trigger] self.level_of(self.tvar(i)) <= k) by {
                assert(i < old_a.lims@[k] <==> old_a.level_of(old_a.tvar(i)) <= k);
            }
            assert forall|i: int, j: int| 0 <= i < j < n - 1 implies self.tvar(i) != self.tvar(j) by {
                assert(old_a.tvar(i) != old_a.tvar(j));
            }
            assert forall|u: int|
                1 <= u < self.values.len() && #[trigger] self.assigned(u) implies exists|i: int|
                0 <= i < self.trail.len() && self.tvar(i) == u by {
                assert(u != x);
                assert(old_a.assigned(u));
                let i = choose|i: int| 0 <= i < old_a.trail.len() && old_a.tvar(i) == u;
                assert(i != n - 1);
                assert(self.tvar(i) == u);
            }
            assert forall|k: int| 0 <= k < self.lims.len() implies self.lims@[k] <= self.trail.len() by {
                assert(old_a.lims@[k] <= old_a.lims@[d - 1]);
            }
            assert forall|k: int| 0 <= k < self.lims.len() implies if #[trigger] self.lims@[k]
                < self.trail.len() {
                self.tvar(self.lims@[k] as int) == self.decisions@[k].var().id
            } else {
                !self.assigned(self.decisions@[k].var().id as int)
            } by {
                assert(old_a.lims@[k] <= old_a.lims@[d - 1]);
                assert(old_a.lims@[k] < old_a.trail.len());
                assert(old_a.tvar(old_a.lims@[k] as int) == old_a.decisions@[k].var().id);
                if old_a.lims@[k] < n - 1 {
                } else {
                    assert(old_a.lims@[k] == n - 1);
                }
            }
        }
        l
    }

    /// Removes the last backtrack point, once all the assignments of its level are undone.
    pub fn pop_backtrack_point(&mut self) -> (dec: Decision)
        requires
            old(self).wf(),
            old(self).lims.len() > 0,
            old(self).trail.len() == old(self).lims@.last(),
        ensures
            final(self).wf(),
            dec == old(self).decisions@.last(),
            !final(self).assigned(dec.var().id as int),
            final(self).valid_var(dec.var().id as int),
            final(self).values@ == old(self).values@,
            final(self).levels@ == old(self).levels@,
            final(self).reasons@ == old(self).reasons@,
            final(self).trail@ == old(self).trail@,
            final(self).lims@ == old(self).lims@.drop_last(),
            final(self).decisions@ == old(self).decisions@.drop_last(),
    {
        let ghost old_a = *self;
        self.lims.pop();
        let dec = self.decisions.pop().unwrap();
        proof {
            let d = old_a.dl();
            assert forall|k: int| 0 <= k < self.lims.len() implies #[trigger] self.lims@[k]
                <= self.trail.len() by {
                assert(old_a.lims@[k] <= old_a.trail.len());
            }
            assert forall|k1: int, k2: int|
                0 <= k1 <= k2 < self.lims.len() implies self.lims@[k1] <= self.lims@[k2] by {
                assert(old_a.lims@[k1] <= old_a.lims@[k2]);
            }
            assert(1 <= old_a.decisions@[d - 1].var().id <= old_a.num_vars());
            lemma_same_trail(old_a, *self);
            assert forall|u: int|
                1 <= u < self.values.len() && #[trigger] self.assigned(u) implies exists|i: int|
                0 <= i < self.trail.len() && self.tvar(i) == u by {
                assert(old_a.assigned(u));
                let i = choose|i: int| 0 <= i < old_a.trail.len() && old_a.tvar(i) == u;
                assert(self.tvar(i) == u);
            }

            assert(old_a.lims@[d - 1] == old_a.trail.len());
            assert forall|i: int| 0 <= i < self.trail.len() implies #[trigger] self.level_of(
                self.tvar(i),
            ) <= self.dl() by {
                assert(i < old_a.lims@[d - 1] <==> old_a.level_of(old_a.tvar(i)) <= d - 1);
            }
            assert forall|i: int, k: int|
                0 <= i < self.trail.len() && 0 <= k < self.lims.len() implies (i
                < #[trigger] self.lims@[k] <==> #[trigger] self.level_of(self.tvar(i)) <= k) by {
                assert(i < old_a.lims@[k] <==> old_a.level_of(old_a.tvar(i)) <= k);
            }
            assert forall|k: int| 0 <= k < self.lims.len() implies if #[trigger] self.lims@[k]
                < self.trail.len() {
                self.tvar(self.lims@[k] as int) == self.decisions@[k].var().id
            } else {
                !self.assigned(self.decisions@[k].var().id as int)
            } by {
                assert(old_a.lims@[k] <= old_a.trail.len());
            }
            assert forall|k: int| 0 <= k < self.lims.len() implies 1 <= (
            #[trigger] self.decisions@[k]).var().id <= self.num_vars() by {
                assert(1 <= old_a.decisions@[k].var().id <= old_a.num_vars());
            }
        }
        dec
    }
}

/// Two assignments with the same values and the same trail agree on the trail's invariant.
pub(crate) proof fn lemma_same_trail(a: Assignments, b: Assignments)
    requires
        a.wf_trail(),
        a.values@ == b.values@,
        a.trail@ == b.trail@,
    ensures
        b.wf_trail(),
{
    assert forall|i: int| 0 <= i < b.trail.len() implies #[trigger] b.valid_var(b.tvar(i)) by {
        assert(a.valid_var(a.tvar(i)));
    }
    assert forall|i: int| 0 <= i < b.trail.len() implies #[trigger] b.lit_true(b.trail@[i]) by {
        assert(a.lit_true(a.trail@[i]));
    }
    assert forall|i: int, j: int| 0 <= i < j < b.trail.len() implies b.tvar(i) != b.tvar(j) by {
        assert(a.tvar(i) != a.tvar(j));
    }
    assert forall|u: int|
        1 <= u < b.values.len() && #[trigger] b.assigned(u) implies exists|i: int|
        0 <= i < b.trail.len() && b.tvar(i) == u by {
        assert(a.assigned(u));
        let i = choose|i: int| 0 <= i < a.trail.len() && a.tvar(i) == u;
        assert(b.tvar(i) == u);
    }
}

/// The trail holds at most one literal per variable; while it holds fewer literals than there
/// are variables, some variable is unassigned.
pub(crate) proof fn lemma_trail_bound(a: Assignments)
    requires
        a.wf(),
    ensures
        a.trail.len() <= a.num_vars(),
        a.trail.len() < a.num_vars() ==> exists|v: int| 1 <= v <= a.num_vars() && !#[trigger] a.assigned(v),
        a.trail.len() == a.num_vars() ==> forall|v: int| 1 <= v <= a.num_vars() ==> #[trigger] a.assigned(v),
{
    let s = a.trail@.map_values(|l: Lit| l.var_id());
    assert forall|i: int, j: int| 0 <= i < s.len() && 0 <= j < s.len() && i != j implies s[i] != s[j] by {
        if i < j {
            assert(a.tvar(i) != a.tvar(j));
        } else {
            assert(a.tvar(j) != a.tvar(i));
        }
    }
    assert(s.no_duplicates());
    s.unique_seq_to_set();
    let range = set_int_range(1, a.num_vars() as int + 1);
    lemma_int_range(1, a.num_vars() as int + 1);
    assert forall|v: int| s.to_set().contains(v) implies range.contains(v) by {
        let i = choose|i: int| 0 <= i < s.len() && s[i] == v;
        assert(a.valid_var(a.tvar(i)));
    }
    lemma_len_subset(s.to_set(), range);
    if a.trail.len() < a.num_vars() {
        if forall|v: int| 1 <= v <= a.num_vars() ==> #[trigger] a.assigned(v) {
            assert forall|v: int| range.contains(v) implies s.to_set().contains(v) by {
                assert(a.assigned(v));
                let i = choose|i: int| 0 <= i < a.trail.len() && a.tvar(i) == v;
                assert(s[i] == v);
            }
            lemma_len_subset(range, s.to_set());
        }
    }
    if a.trail.len() == a.num_vars() {
        assert forall|v: int| 1 <= v <= a.num_vars() implies #[trigger] a.assigned(v) by {
            if !a.assigned(v) {
                let smaller = range.remove(v);
                assert forall|u: int| s.to_set().contains(u) implies smaller.contains(u) by {
                    let i = choose|i: int| 0 <= i < s.len() && s[i] == u;
                    assert(a.lit_true(a.trail@[i]));
                    assert(a.assigned(a.tvar(i)));
                }
                assert(range.contains(v));
                lemma_len_subset(s.to_set(), smaller);
            }
        }
    }
}

/// After backtracking to level `lvl`, the literals set at or below `lvl` are still true.
pub(crate) proof fn lemma_backtrack_keeps(a: Assignments, b: Assignments, lvl: int, l: Lit)
    requires
        a.wf(),
        b.wf(),
        0 <= lvl < a.dl(),
        b.trail@ == a.trail@.subrange(0, a.lims@[lvl] as int),
        b.values.len() == a.values.len(),
        a.lit_true(l),
        a.level_of(l.var_id()) <= lvl,
    ensures
        b.lit_true(l),
{
    let v = l.var_id();
    assert(a.assigned(v));
    assert(1 <= v < a.values.len()) by {
        if v == 0 {
            assert(a.values@[0] == BVal::Undef);
        }
    }
    let j = choose|j: int| 0 <= j < a.trail.len() && a.tvar(j) == v;
    assert(a.lit_true(a.trail@[j]));
    assert(a.trail@[j] == l);
    assert(a.lims@[lvl] <= a.trail.len());
    assert(j < a.lims@[lvl] <==> a.level_of(a.tvar(j)) <= lvl);
    assert(b.trail@[j] == l);
    assert(b.lit_true(b.trail@[j]));
}

/// After backtracking to level `lvl`, the variables set above `lvl` are unassigned.
pub(crate) proof fn lemma_backtrack_unassigns(a: Assignments, b: Assignments, lvl: int, v: int)
    requires
        a.wf(),
        b.wf(),
        0 <= lvl < a.dl(),
        b.trail@ == a.trail@.subrange(0, a.lims@[lvl] as int),
        b.values.len() == a.values.len(),
        1 <= v < a.values.len(),
        a.assigned(v),
        a.level_of(v) > lvl,
    ensures
        !b.assigned(v),
{
    let j = choose|j: int| 0 <= j < a.trail.len() && a.tvar(j) == v;
    assert(a.lims@[lvl] <= a.trail.len());
    assert(j < a.lims@[lvl] <==> a.level_of(a.tvar(j)) <= lvl);
    if b.assigned(v) {
        let i = choose|i: int| 0 <= i < b.trail.len() && b.tvar(i) == v;
        assert(a.tvar(i) == v);
        assert(i != j);
        if i < j {
            assert(a.tvar(i) != a.tvar(j));
        } else {
            assert(a.tvar(j) != a.tvar(i));
        }
    }
}

/// The decision level is at most the number of assignments when every level is nonempty.
pub(crate) proof fn lemma_dl_bound(a: Assignments)
    requires
        a.wf(),
        forall|k: int| 0 <= k < a.lims.len() ==> #[trigger] a.lims@[k] < a.trail.len(),
        forall|k1: int, k2: int| 0 <= k1 < k2 < a.lims.len() ==> a.lims@[k1] < a.lims@[k2],
    ensures
        a.dl() <= a.trail.len(),
{
    if a.lims.len() > 0 {
        let d = a.lims.len() as int;
        assert forall|k: int| 0 <= k < d implies #[trigger] a.lims@[k] >= k by {
            lemma_lims_grow(a, k);
        }
        assert(a.lims@[d - 1] >= d - 1);
    }
}

proof fn lemma_lims_grow(a: Assignments, k: int)
    requires
        0 <= k < a.lims.len(),
        forall|k1: int, k2: int| 0 <= k1 < k2 < a.lims.len() ==> a.lims@[k1] < a.lims@[k2],
    ensures
        a.lims@[k] >= k,
    decreases k,
{
    if k > 0 {
        lemma_lims_grow(a, k - 1);
        assert(a.lims@[k - 1] < a.lims@[k]);
    }
}

} // verus!
