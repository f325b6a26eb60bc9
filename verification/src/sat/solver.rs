use vstd::prelude::*;
use crate::sat::assignments::{lemma_backtrack_keeps, lemma_backtrack_unassigns, lemma_dl_bound, lemma_same_trail, lemma_trail_bound, Assignments, ClauseId, DecisionLevel, GROUND_LEVEL};
use crate::sat::clauses::{Clause, ClauseDB};
use crate::sat::entail::{clause_holds, holds, resolvent_holds};
use crate::sat::heuristic::Heur;
use crate::sat::lits::{lemma_neg_props, BVal, BVar, Decision, Lit, MAX_VAR_ID};

verus! {

broadcast use lemma_neg_props;

/// Outcome of adding a clause to the database.
pub enum AddClauseRes {
    /// The clause is empty.
    Inconsistent,
    /// The clause has a single literal, which is returned; it is not stored.
    Unit(Lit),
    /// The clause was stored under the given identifier.
    Complete(ClauseId),
}

/// A CDCL solver over the clauses of a propositional problem in conjunctive normal form.
pub struct Solver {
    pub num_vars: u32,
    pub assignments: Assignments,
    pub clauses: ClauseDB,
    /// For each literal, the clauses that watch it: those that must be visited when it becomes true.
    pub watches: Vec<Vec<ClauseId>>,
    /// Literals made true whose consequences have not been propagated yet.
    pub propagation_queue: Vec<Lit>,
    pub heuristic: Heur,
}

impl Solver {
    /// The literals of the clause `c`.
    pub open spec fn cl(&self, c: int) -> Seq<Lit> {
        self.clauses.clauses@[c].disjuncts@
    }

    pub open spec fn ncl(&self) -> int {
        self.clauses.clauses.len() as int
    }

    pub open spec fn valid_lit(&self, l: Lit) -> bool {
        1 <= l.var_id() <= self.num_vars
    }

    pub open spec fn lit_true(&self, l: Lit) -> bool {
        self.assignments.lit_true(l)
    }

    pub open spec fn lit_false(&self, l: Lit) -> bool {
        self.assignments.lit_false(l)
    }

    /// The clause `c` has all its literals false.
    pub open spec fn violated(&self, c: int) -> bool {
        forall|k: int| 0 <= k < self.cl(c).len() ==> #[trigger] self.lit_false(self.cl(c)[k])
    }

    /// The clause `c` has a true literal.
    pub open spec fn satisfied(&self, c: int) -> bool {
        exists|k: int| 0 <= k < self.cl(c).len() && #[trigger] self.lit_true(self.cl(c)[k])
    }

    /// Every stored clause has a true literal.
    pub open spec fn model_valid(&self) -> bool {
        forall|c: int| 0 <= c < self.ncl() ==> #[trigger] self.satisfied(c)
    }

    /// The variable of the literal is set in the trail before position `i`.
    pub open spec fn set_before(&self, l: Lit, i: int) -> bool {
        exists|j: int| 0 <= j < i && #[trigger] self.assignments.tvar(j) == l.var_id()
    }

    /// The clause `c` may justify that `l`, set at trail position `i`, is true: `l` is its first
    /// literal and all the others are false, set before `i`.
    pub open spec fn justifies(&self, c: int, l: Lit, i: int) -> bool {
        &&& 0 <= c < self.ncl()
        &&& self.cl(c)[0] == l
        &&& forall|k: int|
            1 <= k < self.cl(c).len() ==> #[trigger] self.lit_false(self.cl(c)[k]) && self.set_before(
                self.cl(c)[k],
                i,
            )
    }

    pub open spec fn wf_clauses(&self) -> bool {
        forall|c: int|
            0 <= c < self.ncl() ==> {
                &&& #[trigger] self.cl(c).len() >= 2
                &&& forall|k: int| 0 <= k < self.cl(c).len() ==> self.valid_lit(#[trigger] self.cl(c)[k])
            }
    }

    pub open spec fn wf_watches(&self) -> bool {
        &&& self.watches.len() == 2 * (self.num_vars + 1)
        &&& forall|l: int, k: int|
            0 <= l < self.watches.len() && 0 <= k < self.watches@[l].len() ==> #[trigger] self.watches@[l]@[k]
                < self.ncl()
    }

    pub open spec fn wf_queue(&self) -> bool {
        &&& forall|k: int|
            0 <= k < self.propagation_queue.len() ==> {
                &&& self.valid_lit(#[trigger] self.propagation_queue@[k])
                &&& self.lit_true(self.propagation_queue@[k])
                &&& self.assignments.level_of(self.propagation_queue@[k].var_id()) == self.assignments.dl()
            }
        &&& forall|i: int, j: int|
            0 <= i < j < self.propagation_queue.len() ==> self.propagation_queue@[i].var_id()
                != self.propagation_queue@[j].var_id()
    }

    pub open spec fn wf_reasons(&self) -> bool {
        forall|i: int|
            0 <= i < self.assignments.trail.len() ==> match #[trigger] self.assignments.reasons@[self.assignments.tvar(i)] {
                Some(c) => self.justifies(c as int, self.assignments.trail@[i], i),
                None => true,
            }
    }

    pub open spec fn wf_heuristic(&self) -> bool {
        self.wf_heuristic_x(0)
    }

    /// The pool of the heuristic holds every unassigned variable, but possibly `x`.
    pub open spec fn wf_heuristic_x(&self, x: int) -> bool {
        &&& self.heuristic.wf()
        &&& self.heuristic.num_vars() == self.num_vars
        &&& forall|v: int|
            1 <= v <= self.num_vars && v != x && !#[trigger] self.assignments.assigned(v) ==> self.heuristic.contains(v)
    }

    /// Every decision level holds at least its decision.
    pub open spec fn levels_nonempty(&self) -> bool {
        &&& forall|k: int|
            0 <= k < self.assignments.lims.len() ==> #[trigger] self.assignments.lims@[k]
                < self.assignments.trail.len()
        &&& forall|k1: int, k2: int|
            0 <= k1 < k2 < self.assignments.lims.len() ==> self.assignments.lims@[k1]
                < self.assignments.lims@[k2]
    }

    pub open spec fn wf(&self) -> bool {
        &&& self.wf_core()
        &&& self.levels_nonempty()
    }

    pub open spec fn wf_core(&self) -> bool {
        self.wf_core_x(0)
    }

    /// The core invariant, but that the variable `x` may be missing from the heuristic's pool.
    pub open spec fn wf_core_x(&self, x: int) -> bool {
        &&& self.num_vars <= MAX_VAR_ID
        &&& self.assignments.wf()
        &&& self.assignments.num_vars() == self.num_vars
        &&& self.wf_clauses()
        &&& self.wf_watches()
        &&& self.wf_queue()
        &&& self.wf_reasons()
        &&& self.wf_heuristic_x(x)
    }

    /// Whether the literal is true in the current assignment.
    fn is_set(&self, lit: Lit) -> (r: bool)
        requires
            self.wf(),
            self.valid_lit(lit),
        ensures
            r == self.lit_true(lit),
    {
        match self.assignments.get(lit.variable()) {
            BVal::Undef => false,
            BVal::True => lit.is_positive(),
            BVal::False => lit.is_negative(),
        }
    }
}

impl Solver {
    /// `reason`, if any, is a clause that may justify setting `lit` now.
    pub open spec fn reason_ok(&self, lit: Lit, reason: Option<ClauseId>) -> bool {
        match reason {
            Some(c) => {
                &&& 0 <= c < self.ncl()
                &&& self.cl(c as int)[0] == lit
                &&& forall|k: int|
                    1 <= k < self.cl(c as int).len() ==> #[trigger] self.lit_false(self.cl(c as int)[k])
            },
            None => true,
        }
    }

    /// Sets the variable of `lit` so as to make it true, and schedules its propagation.
    proof fn lemma_set_keeps_wf(old_s: Solver, new_s: Solver, lit: Lit, reason: Option<ClauseId>)
        requires
            old_s.wf_core_x(lit.var_id()),
            forall|k1: int, k2: int|
                0 <= k1 < k2 < old_s.assignments.lims.len() ==> old_s.assignments.lims@[k1]
                    < old_s.assignments.lims@[k2],
            old_s.valid_lit(lit),
            !old_s.assignments.assigned(lit.var_id()),
            old_s.reason_ok(lit, reason),
            new_s.num_vars == old_s.num_vars,
            new_s.assignments.wf(),
            new_s.assignments.values@ == old_s.assignments.values@.update(
                lit.var_id(),
                if lit.positive() { BVal::True } else { BVal::False },
            ),
            new_s.assignments.levels@ == old_s.assignments.levels@.update(
                lit.var_id(),
                old_s.assignments.dl() as u32,
            ),
            new_s.assignments.reasons@ == old_s.assignments.reasons@.update(lit.var_id(), reason),
            new_s.assignments.trail@ == old_s.assignments.trail@.push(lit),
            new_s.assignments.lims@ == old_s.assignments.lims@,
            new_s.clauses.clauses@ == old_s.clauses.clauses@,
            new_s.watches@ == old_s.watches@,
            new_s.propagation_queue@ == old_s.propagation_queue@.push(lit),
            new_s.heuristic == old_s.heuristic,
        ensures
            new_s.wf(),
    {
        let v = lit.var_id();
        let n = old_s.assignments.trail.len() as int;
        assert forall|l: Lit| l.var_id() != v implies (new_s.lit_true(l) == old_s.lit_true(l)
            && new_s.lit_false(l) == old_s.lit_false(l)) by {}
        assert forall|l: Lit| old_s.lit_true(l) || old_s.lit_false(l) implies l.var_id() != v by {}
        assert(new_s.lit_true(lit));
        assert forall|k: int| 0 <= k < new_s.assignments.lims.len() implies #[trigger] new_s.assignments.lims@[k]
            < new_s.assignments.trail.len() by {
            assert(old_s.assignments.lims@[k] <= old_s.assignments.trail.len());
        }
        assert forall|c: int| 0 <= c < new_s.ncl() implies {
            &&& #[trigger] new_s.cl(c).len() >= 2
            &&& forall|k: int| 0 <= k < new_s.cl(c).len() ==> new_s.valid_lit(#[trigger] new_s.cl(c)[k])
        } by {
            assert(old_s.cl(c) == new_s.cl(c));
        }
        assert(new_s.wf_clauses());
        assert(new_s.wf_watches());
        assert forall|k: int| 0 <= k < new_s.propagation_queue.len() implies {
            &&& new_s.valid_lit(#[trigger] new_s.propagation_queue@[k])
            &&& new_s.lit_true(new_s.propagation_queue@[k])
            &&& new_s.assignments.level_of(new_s.propagation_queue@[k].var_id()) == new_s.assignments.dl()
        } by {
            if k < old_s.propagation_queue.len() {
                let q = old_s.propagation_queue@[k];
                assert(old_s.lit_true(q));
                assert(q.var_id() != v);
            }
        }
        assert forall|i: int, j: int|
            0 <= i < j < new_s.propagation_queue.len() implies new_s.propagation_queue@[i].var_id()
            != new_s.propagation_queue@[j].var_id() by {
            if j < old_s.propagation_queue.len() {
            } else {
                assert(old_s.lit_true(old_s.propagation_queue@[i]));
            }
        }
        assert(new_s.wf_queue());
        assert forall|i: int| 0 <= i < new_s.assignments.trail.len() implies match #[trigger] new_s.assignments.reasons@[new_s.assignments.tvar(i)] {
            Some(c) => new_s.justifies(c as int, new_s.assignments.trail@[i], i),
            None => true,
        } by {
            if i < n {
                let u = old_s.assignments.tvar(i);
                assert(old_s.assignments.lit_true(old_s.assignments.trail@[i]));
                assert(u != v);
                assert(new_s.assignments.tvar(i) == u);
                match old_s.assignments.reasons@[u] {
                    Some(c) => {
                        assert(old_s.justifies(c as int, old_s.assignments.trail@[i], i));
                        assert forall|k: int| 1 <= k < new_s.cl(c as int).len() implies #[trigger] new_s.lit_false(
                            new_s.cl(c as int)[k],
                        ) && new_s.set_before(new_s.cl(c as int)[k], i) by {
                            let l = old_s.cl(c as int)[k];
                            assert(old_s.lit_false(l) && old_s.set_before(l, i));
                            let j = choose|j: int| 0 <= j < i && #[trigger] old_s.assignments.tvar(j) == l.var_id();
                            assert(new_s.assignments.tvar(j) == l.var_id());
                        }
                    },
                    None => {},
                }
            } else {
                assert(new_s.assignments.tvar(i) == v);
                match reason {
                    Some(c) => {
                        assert forall|k: int| 1 <= k < new_s.cl(c as int).len() implies #[trigger] new_s.lit_false(
                            new_s.cl(c as int)[k],
                        ) && new_s.set_before(new_s.cl(c as int)[k], i) by {
                            let l = old_s.cl(c as int)[k];
                            assert(old_s.lit_false(l));
                            assert(old_s.assignments.assigned(l.var_id()));
                            let j = choose|j: int|
                                0 <= j < old_s.assignments.trail.len() && old_s.assignments.tvar(j) == l.var_id();
                            assert(new_s.assignments.tvar(j) == l.var_id());
                        }
                    },
                    None => {},
                }
            }
        }
        assert forall|u: int|
            1 <= u <= new_s.num_vars && !#[trigger] new_s.assignments.assigned(u) implies new_s.heuristic.contains(u) by {
            assert(!old_s.assignments.assigned(u));
        }
    }

    /// Makes `lit` true, with the given reason, unless it is already set. Returns false if `lit`
    /// was already false (a contradiction), true otherwise. The reason matters only when `lit` is
    /// unset.
    pub fn enqueue(&mut self, lit: Lit, reason: Option<ClauseId>) -> (r: bool)
        requires
            old(self).wf(),
            old(self).valid_lit(lit),
            !old(self).assignments.assigned(lit.var_id()) ==> old(self).reason_ok(lit, reason),
        ensures
            final(self).wf(),
            r == !old(self).lit_false(lit),
            final(self).lit_true(lit) == r,
            old(self).learning_inv() && (reason is Some || old(self).assignments.dl() == 0) ==> final(self).learning_inv(),
            forall|m: spec_fn(int) -> bool|
                old(self).sound(m) && (reason is Some || (old(self).decs_hold(m, old(self).assignments.trail.len() as int)
                    ==> holds(m, lit))) ==> #[trigger] final(self).sound(m),
            old(self).decs_on_trail() ==> final(self).decs_on_trail(),
            final(self).num_vars == old(self).num_vars,
            final(self).clauses.clauses@ == old(self).clauses.clauses@,
            final(self).watches@ == old(self).watches@,
            final(self).heuristic == old(self).heuristic,
            final(self).assignments.lims@ == old(self).assignments.lims@,
            final(self).assignments.decisions@ == old(self).assignments.decisions@,
            old(self).assignments.trail@.is_prefix_of(final(self).assignments.trail@),
            forall|c: int, w: int, d: int|
                0 <= c < old(self).ncl() && 0 <= w < 2 && old(self).watch_ok(c, w, d) ==> #[trigger] final(self).watch_ok(c, w, d),
            forall|v: int|
                0 <= v <= old(self).num_vars && #[trigger] old(self).assignments.assigned(v) ==> final(self).assignments.levels@[v]
                    == old(self).assignments.levels@[v] && final(self).assignments.values@[v]
                    == old(self).assignments.values@[v],
            if old(self).assignments.assigned(lit.var_id()) {
                &&& final(self).assignments == old(self).assignments
                &&& final(self).propagation_queue@ == old(self).propagation_queue@
            } else {
                &&& final(self).assignments.trail@ == old(self).assignments.trail@.push(lit)
                &&& final(self).assignments.reasons@ == old(self).assignments.reasons@.update(lit.var_id(), reason)
                &&& final(self).propagation_queue@ == old(self).propagation_queue@.push(lit)
            },
    {
        if self.is_set(lit.negate()) {
            false
        } else if self.is_set(lit) {
            true
        } else {
            let ghost old_s = *self;
            let var = lit.variable();
            proof {
                assert(var.spec_lit(lit.positive()) =~= lit);
            }
            self.assignments.set(var, lit.is_positive(), reason);
            self.propagation_queue.push(lit);
            proof {
                Self::lemma_set_keeps_wf(old_s, *self, lit, reason);
                Self::lemma_assign_watch(old_s, *self, lit);
                if old_s.learning_inv() && (reason is Some || old_s.assignments.dl() == 0) {
                    Self::lemma_set_keeps_learning(old_s, *self, lit, reason);
                }
                Self::lemma_set_sound(old_s, *self, lit, reason);
            }
            true
        }
    }
}

impl Solver {
    /// Sets the variable of the decision as it says, with the given reason, and schedules the
    /// propagation of the literal so made true.
    pub fn assume_decision(&mut self, dec: Decision, reason: Option<ClauseId>)
        requires
            old(self).wf(),
            1 <= dec.var().id <= old(self).num_vars,
            !old(self).assignments.assigned(dec.var().id as int),
            old(self).reason_ok(dec_lit(dec), reason),
        ensures
            final(self).wf(),
            forall|m: spec_fn(int) -> bool|
                old(self).sound(m) && (reason is Some || (old(self).decs_hold(m, old(self).assignments.trail.len() as int)
                    ==> holds(m, dec_lit(dec)))) ==> #[trigger] final(self).sound(m),
            old(self).decs_on_trail() ==> final(self).decs_on_trail(),
            final(self).lit_true(dec_lit(dec)),
            final(self).num_vars == old(self).num_vars,
            final(self).clauses.clauses@ == old(self).clauses.clauses@,
            final(self).watches@ == old(self).watches@,
            final(self).heuristic == old(self).heuristic,
            final(self).assignments.lims@ == old(self).assignments.lims@,
            final(self).assignments.decisions@ == old(self).assignments.decisions@,
            final(self).assignments.trail@ == old(self).assignments.trail@.push(dec_lit(dec)),
            final(self).assignments.reasons@ == old(self).assignments.reasons@.update(dec.var().id as int, reason),
            final(self).propagation_queue@ == old(self).propagation_queue@.push(dec_lit(dec)),
            forall|c: int, w: int, d: int|
                0 <= c < old(self).ncl() && 0 <= w < 2 && old(self).watch_ok(c, w, d) ==> #[trigger] final(self).watch_ok(c, w, d),
    {
        let ghost old_s = *self;
        match dec {
            Decision::True(var) => {
                self.assignments.set(var, true, reason);
                self.propagation_queue.push(var.lit(true));
            },
            Decision::False(var) => {
                self.assignments.set(var, false, reason);
                self.propagation_queue.push(var.lit(false));
            },
        }
        proof {
            Self::lemma_set_keeps_wf(old_s, *self, dec_lit(dec), reason);
            Self::lemma_assign_watch(old_s, *self, dec_lit(dec));
            Self::lemma_set_sound(old_s, *self, dec_lit(dec), reason);
        }
    }

    /// Opens a new decision level, on which the decision is assumed.
    pub fn decide(&mut self, dec: Decision)
        requires
            old(self).wf_core_x(dec.var().id as int),
            old(self).levels_nonempty(),
            1 <= dec.var().id <= old(self).num_vars,
            !old(self).assignments.assigned(dec.var().id as int),
            old(self).propagation_queue.len() == 0,
            old(self).assignments.dl() + 2 < u32::MAX,
        ensures
            final(self).wf(),
            final(self).lit_true(dec_lit(dec)),
            final(self).num_vars == old(self).num_vars,
            final(self).clauses.clauses@ == old(self).clauses.clauses@,
            final(self).watches@ == old(self).watches@,
            final(self).heuristic == old(self).heuristic,
            final(self).assignments.lims@ == old(self).assignments.lims@.push(old(self).assignments.trail.len()),
            final(self).assignments.decisions@ == old(self).assignments.decisions@.push(dec),
            final(self).assignments.trail@ == old(self).assignments.trail@.push(dec_lit(dec)),
            final(self).assignments.reasons@ == old(self).assignments.reasons@.update(dec.var().id as int, None),
            final(self).propagation_queue@ == seq![dec_lit(dec)],
            old(self).learning_inv() ==> final(self).learning_inv(),
            forall|m: spec_fn(int) -> bool| old(self).sound(m) ==> #[trigger] final(self).sound(m),
            old(self).decs_on_trail() ==> final(self).decs_on_trail(),
            forall|c: int, w: int, d: int|
                0 <= c < old(self).ncl() && 0 <= w < 2 && old(self).watch_ok(c, w, d) ==> #[trigger] final(self).watch_ok(c, w, d),
    {
        let ghost old_s = *self;
        self.assignments.add_backtrack_point(dec);
        let ghost mid = *self;
        proof {
            Self::lemma_same_assignment(old_s, mid, dec.var().id as int);
            assert forall|k1: int, k2: int|
                0 <= k1 < k2 < mid.assignments.lims.len() implies mid.assignments.lims@[k1]
                    < mid.assignments.lims@[k2] by {
                if k2 < old_s.assignments.lims.len() {
                    assert(old_s.assignments.lims@[k1] < old_s.assignments.lims@[k2]);
                } else {
                    assert(old_s.assignments.lims@[k1] < old_s.assignments.trail.len());
                }
            }
        }
        match dec {
            Decision::True(var) => {
                self.assignments.set(var, true, None);
                self.propagation_queue.push(var.lit(true));
            },
            Decision::False(var) => {
                self.assignments.set(var, false, None);
                self.propagation_queue.push(var.lit(false));
            },
        }
        proof {
            lemma_same_trail(mid.assignments, mid.assignments);
            Self::lemma_set_keeps_wf(mid, *self, dec_lit(dec), None);
            if old_s.learning_inv() {
                assert forall|i: int, k: int|
                    0 <= k < mid.assignments.lims.len() && #[trigger] mid.assignments.lims@[k] < i
                        < mid.assignments.trail.len() && #[trigger] mid.assignments.level_of(mid.assignments.tvar(i)) == k + 1
                        implies mid.assignments.reasons@[mid.assignments.tvar(i)] is Some by {
                    assert(k < old_s.assignments.lims.len());
                    assert(old_s.assignments.lims@[k] == mid.assignments.lims@[k]);
                    assert(mid.assignments.tvar(i) == old_s.assignments.tvar(i));
                    assert(old_s.assignments.level_of(old_s.assignments.tvar(i)) == k + 1);
                }
                Self::lemma_set_keeps_learning(mid, *self, dec_lit(dec), None);
            }
            assert(self.propagation_queue@ =~= seq![dec_lit(dec)]);
            assert(mid.propagation_queue@.push(dec_lit(dec)) =~= self.propagation_queue@);
            let n = old_s.assignments.trail.len() as int;
            assert forall|m: spec_fn(int) -> bool| old_s.sound(m) implies #[trigger] self.sound(m) by {
                if self.decs_hold(m, n) {
                    let k = old_s.assignments.lims.len() as int;
                    assert(self.assignments.lims@[k] == n);
                    assert(holds(m, self.assignments.trail@[self.assignments.lims@[k] as int]));
                }
                Self::lemma_push_sound(old_s, *self, dec_lit(dec), m);
            }
            Self::lemma_push_on_trail(old_s, *self, dec_lit(dec), Some(dec));
            Self::lemma_assign_watch(mid, *self, dec_lit(dec));
            assert forall|c: int, w: int, d: int|
                0 <= c < old_s.ncl() && 0 <= w < 2 && old_s.watch_ok(c, w, d) implies #[trigger] self.watch_ok(c, w, d) by {
                assert(mid.cl(c) == old_s.cl(c));
                assert(mid.in_queue(mid.cl(c)[w].neg()) == old_s.in_queue(old_s.cl(c)[w].neg()));
                assert(mid.watch_ok(c, w, d));
            }
        }
    }
}

/// Number of occurrences of `c` in `s` from position `i` on.
pub open spec fn count_from(s: Seq<ClauseId>, i: int, c: int) -> nat
    decreases s.len() - i,
{
    if i < 0 || i >= s.len() {
        0
    } else {
        (if s[i] == c {
            1nat
        } else {
            0nat
        }) + count_from(s, i + 1, c)
    }
}

/// Pushing an element adds its occurrences.
pub(crate) proof fn lemma_count_push(s: Seq<ClauseId>, e: ClauseId, i: int, c: int)
    requires
        0 <= i <= s.len(),
    ensures
        count_from(s.push(e), i, c) == count_from(s, i, c) + (if e == c {
            1nat
        } else {
            0nat
        }),
    decreases s.len() - i,
{
    if i < s.len() {
        lemma_count_push(s, e, i + 1, c);
        assert(s.push(e)[i] == s[i]);
    } else {
        assert(s.push(e)[i] == e);
        assert(count_from(s.push(e), i + 1, c) == 0);
    }
}

/// An element that occurs from position `i` on is found there.
pub(crate) proof fn lemma_count_found(s: Seq<ClauseId>, i: int, c: int)
    requires
        0 <= i,
        count_from(s, i, c) >= 1,
    ensures
        exists|k: int| i <= k < s.len() && s[k] == c,
    decreases s.len() - i,
{
    if i < s.len() && s[i] != c {
        lemma_count_found(s, i + 1, c);
    }
}

/// The value of the upper bound on levels that no level reaches.
pub open spec fn no_level_bound() -> int {
    0x1_0000_0000
}

impl Solver {
    /// The literal waits in the propagation queue.
    pub open spec fn in_queue(&self, l: Lit) -> bool {
        exists|k: int| 0 <= k < self.propagation_queue.len() && self.propagation_queue@[k] == l
    }

    /// Decision level of the variable of the literal.
    pub open spec fn lvl(&self, l: Lit) -> int {
        self.assignments.level_of(l.var_id())
    }

    /// Occurrences of the clause `c` in the list of the clauses visited when `y` becomes false.
    pub open spec fn wcount(&self, c: int, y: Lit) -> nat {
        count_from(self.watches@[y.neg().index()]@, 0, c)
    }

    /// The clause `c` is in the list of the clauses visited when `y` becomes false.
    pub open spec fn watched(&self, c: int, y: Lit) -> bool {
        self.wcount(c, y) >= 1
    }

    /// When the watched literal at position `w` of the clause `c` is false, at a level below `d`,
    /// and its falsity has been propagated, the other watched literal is true, at a level no
    /// higher.
    pub open spec fn watch_ok(&self, c: int, w: int, d: int) -> bool {
        let x = self.cl(c)[w];
        let o = self.cl(c)[1 - w];
        self.lit_false(x) && !self.in_queue(x.neg()) && self.lvl(x) < d ==> self.lit_true(o) && self.lvl(o) <= self.lvl(x)
    }

    /// The watched literal at position `w` of `c` is watched and meets `watch_ok`.
    pub open spec fn pos_ok(&self, c: int, w: int, d: int) -> bool {
        self.watched(c, self.cl(c)[w]) && self.watch_ok(c, w, d)
    }

    /// A clause whose two watched literals are the same is twice in the list of that literal.
    pub open spec fn dup_ok(&self, c: int) -> bool {
        self.cl(c)[0] == self.cl(c)[1] ==> self.wcount(c, self.cl(c)[0]) >= 2
    }

    /// Every clause is watched by its first two literals, which meet `watch_ok` for the levels
    /// below `d`.
    pub open spec fn watch_inv(&self, d: int) -> bool {
        &&& forall|c: int, w: int| 0 <= c < self.ncl() && 0 <= w < 2 ==> #[trigger] self.pos_ok(c, w, d)
        &&& forall|c: int| 0 <= c < self.ncl() ==> #[trigger] self.dup_ok(c)
    }

    /// The watch invariant for all levels.
    pub open spec fn watch_full(&self) -> bool {
        self.watch_inv(no_level_bound())
    }

    /// Number of watched positions of `c` that hold `x` and do not meet the invariant.
    pub open spec fn need(&self, c: int, x: Lit, d: int) -> nat {
        (if self.cl(c)[0] == x && !self.pos_ok(c, 0, d) {
            1nat
        } else {
            0nat
        }) + (if self.cl(c)[1] == x && !self.pos_ok(c, 1, d) {
            1nat
        } else {
            0nat
        })
    }

    /// The watch invariant while the clauses `todo[i..]` wait to be visited after `x` became
    /// false: the positions that hold `x` may fail it, as many times as the clause waits.
    pub open spec fn watch_prop(&self, d: int, x: Lit, todo: Seq<ClauseId>, i: int) -> bool {
        &&& forall|c: int, w: int|
            0 <= c < self.ncl() && 0 <= w < 2 && self.cl(c)[w] != x ==> #[trigger] self.pos_ok(c, w, d)
        &&& forall|c: int| 0 <= c < self.ncl() && self.cl(c)[0] != x ==> #[trigger] self.dup_ok(c)
        &&& forall|c: int| 0 <= c < self.ncl() ==> #[trigger] self.need(c, x, d) <= count_from(todo, i, c)
    }

    /// Setting an unassigned variable, and queueing the literal so made true, keeps `watch_ok`.
    proof fn lemma_assign_watch_ok(a: Solver, b: Solver, l: Lit, c: int, w: int, d: int)
        requires
            a.assignments.wf(),
            b.assignments.values.len() == a.assignments.values.len(),
            1 <= l.var_id() < a.assignments.values.len(),
            !a.assignments.assigned(l.var_id()),
            b.assignments.values@ == a.assignments.values@.update(
                l.var_id(),
                if l.positive() { BVal::True } else { BVal::False },
            ),
            b.assignments.levels@.len() == a.assignments.levels@.len(),
            forall|v: int| 0 <= v < a.assignments.levels.len() && v != l.var_id() ==> #[trigger] b.assignments.levels@[v] == a.assignments.levels@[v],
            b.propagation_queue@ == a.propagation_queue@.push(l),
            b.cl(c) == a.cl(c),
            a.cl(c).len() >= 2,
            0 <= w < 2,
            a.watch_ok(c, w, d),
        ensures
            b.watch_ok(c, w, d),
    {
        let x = a.cl(c)[w];
        let o = a.cl(c)[1 - w];
        if b.lit_false(x) && !b.in_queue(x.neg()) && b.lvl(x) < d {
            if x.var_id() == l.var_id() {
                assert(b.lit_true(x.neg()));
                assert(x.neg() == l) by {
                    assert(x.neg().var_id() == l.var_id());
                    assert(x.neg().positive() == l.positive());
                }
                assert(b.propagation_queue@[a.propagation_queue.len() as int] == l);
                assert(false);
            } else {
                assert(a.lit_false(x));
                assert(!a.in_queue(x.neg())) by {
                    if a.in_queue(x.neg()) {
                        let k = choose|k: int| 0 <= k < a.propagation_queue.len() && a.propagation_queue@[k] == x.neg();
                        assert(b.propagation_queue@[k] == x.neg());
                    }
                }
                assert(a.lit_true(o));
                assert(o.var_id() != l.var_id());
            }
        }
    }

    /// Setting an unassigned variable, and queueing the literal so made true, keeps `watch_ok`
    /// of every clause.
    proof fn lemma_assign_watch(a: Solver, b: Solver, l: Lit)
        requires
            a.assignments.wf(),
            a.wf_clauses(),
            b.assignments.values.len() == a.assignments.values.len(),
            1 <= l.var_id() < a.assignments.values.len(),
            !a.assignments.assigned(l.var_id()),
            b.assignments.values@ == a.assignments.values@.update(
                l.var_id(),
                if l.positive() { BVal::True } else { BVal::False },
            ),
            b.assignments.levels@.len() == a.assignments.levels@.len(),
            forall|v: int| 0 <= v < a.assignments.levels.len() && v != l.var_id() ==> #[trigger] b.assignments.levels@[v] == a.assignments.levels@[v],
            b.propagation_queue@ == a.propagation_queue@.push(l),
            b.clauses.clauses@ == a.clauses.clauses@,
        ensures
            forall|c: int, w: int, d: int|
                0 <= c < a.ncl() && 0 <= w < 2 && a.watch_ok(c, w, d) ==> #[trigger] b.watch_ok(c, w, d),
    {
        assert forall|c: int, w: int, d: int|
            0 <= c < a.ncl() && 0 <= w < 2 && a.watch_ok(c, w, d) implies #[trigger] b.watch_ok(c, w, d) by {
            assert(b.cl(c) == a.cl(c));
            assert(a.cl(c).len() >= 2);
            Self::lemma_assign_watch_ok(a, b, l, c, w, d);
        }
    }

    /// Keeping the watches and clauses, and `watch_ok` of every position, keeps the invariant.
    proof fn lemma_watch_inv_kept(a: Solver, b: Solver, d: int)
        requires
            b.clauses.clauses@ == a.clauses.clauses@,
            b.watches@ == a.watches@,
            forall|c: int, w: int| 0 <= c < a.ncl() && 0 <= w < 2 && a.watch_ok(c, w, d) ==> #[trigger] b.watch_ok(c, w, d),
            a.watch_inv(d),
        ensures
            b.watch_inv(d),
    {
        assert forall|c: int, w: int| 0 <= c < b.ncl() && 0 <= w < 2 implies #[trigger] b.pos_ok(c, w, d) by {
            assert(a.pos_ok(c, w, d));
            assert(b.cl(c) == a.cl(c));
        }
        assert forall|c: int| 0 <= c < b.ncl() implies #[trigger] b.dup_ok(c) by {
            assert(a.dup_ok(c));
            assert(b.cl(c) == a.cl(c));
        }
    }

    /// The clause `c` has a single literal that is not false, and that literal is unset: it is
    /// left for propagation to set.
    pub open spec fn unit_open(&self, c: int) -> bool {
        exists|k: int|
            0 <= k < self.cl(c).len() && !self.assignments.assigned(#[trigger] self.cl(c)[k].var_id()) && forall|j: int|
                0 <= j < self.cl(c).len() && j != k ==> #[trigger] self.lit_false(self.cl(c)[j])
    }

    /// Once propagation is done, no clause is violated, and none is left unit.
    proof fn lemma_no_violated(s: Solver)
        requires
            s.wf(),
            s.watch_full(),
            s.propagation_queue.len() == 0,
        ensures
            forall|c: int| 0 <= c < s.ncl() ==> !#[trigger] s.violated(c),
            forall|c: int| 0 <= c < s.ncl() ==> !#[trigger] s.unit_open(c),
    {
        assert forall|c: int| 0 <= c < s.ncl() implies !#[trigger] s.unit_open(c) by {
            if s.unit_open(c) {
                let k = choose|k: int|
                    0 <= k < s.cl(c).len() && !s.assignments.assigned(#[trigger] s.cl(c)[k].var_id()) && forall|j: int|
                        0 <= j < s.cl(c).len() && j != k ==> #[trigger] s.lit_false(s.cl(c)[j]);
                assert(s.cl(c).len() >= 2);
                let w: int = if k == 0 { 1 } else { 0 };
                let x = s.cl(c)[w];
                assert(s.lit_false(x));
                assert(s.pos_ok(c, w, no_level_bound()));
                assert(!s.in_queue(x.neg()));
                Self::lemma_level_le_dl(s, x);
                let o = s.cl(c)[1 - w];
                assert(s.lit_true(o));
                if k == 1 - w {
                    assert(s.assignments.assigned(o.var_id())) by {
                        assert(s.valid_lit(o));
                    }
                } else {
                    assert(s.lit_false(o));
                    assert(o.neg().var_id() == o.var_id());
                }
            }
        }
        assert forall|c: int| 0 <= c < s.ncl() implies !#[trigger] s.violated(c) by {
            let x = s.cl(c)[0];
            assert(s.cl(c).len() >= 2);
            if s.lit_false(x) {
                assert(s.pos_ok(c, 0, no_level_bound()));
                assert(!s.in_queue(x.neg()));
                Self::lemma_level_le_dl(s, x);
                assert(s.lit_true(s.cl(c)[1]));
                assert(!s.lit_false(s.cl(c)[1])) by {
                    let y = s.cl(c)[1];
                    if s.lit_false(y) {
                        assert(y.neg().var_id() == y.var_id());
                    }
                }
            }
        }
    }

    /// With every variable set and every assignment propagated, the watch invariant makes every
    /// clause satisfied.
    pub proof fn lemma_model_found(s: Solver)
        requires
            s.wf(),
            s.watch_full(),
            s.assignments.trail.len() == s.num_vars,
            s.propagation_queue.len() == 0,
        ensures
            s.model_valid(),
    {
        lemma_trail_bound(s.assignments);
        assert forall|c: int| 0 <= c < s.ncl() implies #[trigger] s.satisfied(c) by {
            let x = s.cl(c)[0];
            assert(s.cl(c).len() >= 2);
            assert(s.valid_lit(x));
            assert(s.assignments.assigned(x.var_id()));
            if s.lit_true(x) {
                assert(s.lit_true(s.cl(c)[0]));
            } else {
                assert(s.lit_false(x));
                assert(s.pos_ok(c, 0, no_level_bound()));
                assert(!s.in_queue(x.neg()));
                assert(s.lit_true(s.cl(c)[1]));
            }
        }
    }
}

impl Solver {
    /// Every fact of the watch invariant on the clauses other than `cid` carries from `a`.
    pub open spec fn kept_from(&self, a: Solver, d: int, cid: int) -> bool {
        &&& self.ncl() == a.ncl()
        &&& forall|c: int| 0 <= c < a.ncl() && c != cid ==> #[trigger] self.cl(c) == a.cl(c)
        &&& forall|c: int, w: int|
            0 <= c < a.ncl() && c != cid && 0 <= w < 2 && a.pos_ok(c, w, d) ==> #[trigger] self.pos_ok(c, w, d)
        &&& forall|c: int| 0 <= c < a.ncl() && c != cid && a.dup_ok(c) ==> #[trigger] self.dup_ok(c)
    }

    proof fn lemma_kept_trans(a: Solver, b: Solver, e: Solver, d: int, cid: int)
        requires
            b.kept_from(a, d, cid),
            e.kept_from(b, d, cid),
        ensures
            e.kept_from(a, d, cid),
    {
        assert forall|c: int, w: int|
            0 <= c < a.ncl() && c != cid && 0 <= w < 2 && a.pos_ok(c, w, d) implies #[trigger] e.pos_ok(c, w, d) by {
            assert(b.pos_ok(c, w, d));
        }
        assert forall|c: int| 0 <= c < a.ncl() && c != cid && a.dup_ok(c) implies #[trigger] e.dup_ok(c) by {
            assert(b.dup_ok(c));
        }
        assert forall|c: int| 0 <= c < a.ncl() && c != cid implies #[trigger] e.cl(c) == a.cl(c) by {
            assert(b.cl(c) == a.cl(c));
        }
    }

    /// Reordering the clause `cid` and adding watches keeps the facts on the other clauses; the
    /// clause `cid` keeps its watches.
    proof fn lemma_frame_kept(a: Solver, b: Solver, d: int, cid: int)
        requires
            a.wf_clauses(),
            a.wf_watches(),
            b.assignments.values@ == a.assignments.values@,
            b.assignments.levels@ == a.assignments.levels@,
            b.propagation_queue@ == a.propagation_queue@,
            b.ncl() == a.ncl(),
            forall|c: int| 0 <= c < a.ncl() && c != cid ==> #[trigger] b.cl(c) == a.cl(c),
            b.watches.len() == a.watches.len(),
            forall|l: int, c: int|
                0 <= l < a.watches.len() ==> #[trigger] count_from(b.watches@[l]@, 0, c) >= count_from(a.watches@[l]@, 0, c),
        ensures
            b.kept_from(a, d, cid),
            forall|c: int, y: Lit| a.valid_lit(y) && a.watched(c, y) ==> #[trigger] b.watched(c, y),
            forall|c: int, y: Lit| a.valid_lit(y) ==> #[trigger] b.wcount(c, y) >= a.wcount(c, y),
    {
        assert forall|c: int, y: Lit| a.valid_lit(y) implies #[trigger] b.wcount(c, y) >= a.wcount(c, y) by {
            let l = y.neg().index();
            assert(0 <= l < a.watches.len());
            assert(count_from(b.watches@[l]@, 0, c) >= count_from(a.watches@[l]@, 0, c));
        }
        assert forall|c: int, w: int|
            0 <= c < a.ncl() && c != cid && 0 <= w < 2 && a.pos_ok(c, w, d) implies #[trigger] b.pos_ok(c, w, d) by {
            assert(b.cl(c) == a.cl(c));
            assert(a.valid_lit(a.cl(c)[w]));
            assert(b.wcount(c, a.cl(c)[w]) >= a.wcount(c, a.cl(c)[w]));
            assert(b.in_queue(b.cl(c)[w].neg()) == a.in_queue(a.cl(c)[w].neg()));
        }
        assert forall|c: int| 0 <= c < a.ncl() && c != cid && a.dup_ok(c) implies #[trigger] b.dup_ok(c) by {
            assert(b.cl(c) == a.cl(c));
            assert(a.valid_lit(a.cl(c)[0]));
            assert(b.wcount(c, a.cl(c)[0]) >= a.wcount(c, a.cl(c)[0]));
        }
    }

    /// Setting a variable keeps the facts on every clause.
    proof fn lemma_assign_kept(a: Solver, b: Solver, d: int, cid: int)
        requires
            b.clauses.clauses@ == a.clauses.clauses@,
            b.watches@ == a.watches@,
            forall|c: int, w: int, e: int| 0 <= c < a.ncl() && 0 <= w < 2 && a.watch_ok(c, w, e) ==> #[trigger] b.watch_ok(c, w, e),
        ensures
            b.kept_from(a, d, cid),
            forall|c: int, w: int| 0 <= c < a.ncl() && 0 <= w < 2 && a.pos_ok(c, w, d) ==> #[trigger] b.pos_ok(c, w, d),
    {
        assert forall|c: int, w: int| 0 <= c < a.ncl() && 0 <= w < 2 && a.pos_ok(c, w, d) implies #[trigger] b.pos_ok(c, w, d) by {
            assert(b.cl(c) == a.cl(c));
            assert(a.watch_ok(c, w, d));
        }
        assert forall|c: int| 0 <= c < a.ncl() && c != cid && a.dup_ok(c) implies #[trigger] b.dup_ok(c) by {
            assert(b.cl(c) == a.cl(c));
        }
        assert forall|c: int| 0 <= c < a.ncl() && c != cid implies #[trigger] b.cl(c) == a.cl(c) by {}
    }

    /// After the visit of `todo[i]`, the invariant holds for the rest of the list.
    proof fn lemma_prop_step(s0: Solver, f: Solver, d: int, x: Lit, todo: Seq<ClauseId>, i: int, cid: int)
        requires
            s0.watch_prop(d, x, todo, i),
            0 <= i < todo.len(),
            todo[i] == cid,
            0 <= cid < s0.ncl(),
            f.kept_from(s0, d, cid),
            forall|w: int| 0 <= w < 2 && f.cl(cid)[w] != x ==> #[trigger] f.pos_ok(cid, w, d),
            f.cl(cid)[0] != x ==> f.dup_ok(cid),
            f.need(cid, x, d) + 1 <= count_from(todo, i, cid),
        ensures
            f.watch_prop(d, x, todo, i + 1),
    {
        assert forall|c: int, w: int|
            0 <= c < f.ncl() && 0 <= w < 2 && f.cl(c)[w] != x implies #[trigger] f.pos_ok(c, w, d) by {
            if c != cid {
                assert(f.cl(c) == s0.cl(c));
                assert(s0.pos_ok(c, w, d));
            }
        }
        assert forall|c: int| 0 <= c < f.ncl() && f.cl(c)[0] != x implies #[trigger] f.dup_ok(c) by {
            if c != cid {
                assert(f.cl(c) == s0.cl(c));
                assert(s0.dup_ok(c));
            }
        }
        assert forall|c: int| 0 <= c < f.ncl() implies #[trigger] f.need(c, x, d) <= count_from(todo, i + 1, c) by {
            if c != cid {
                assert(f.cl(c) == s0.cl(c));
                assert(s0.need(c, x, d) <= count_from(todo, i, c));
                if s0.pos_ok(c, 0, d) {
                    assert(f.pos_ok(c, 0, d));
                }
                if s0.pos_ok(c, 1, d) {
                    assert(f.pos_ok(c, 1, d));
                }
            }
        }
    }
}

/// Literals with the same index are the same.
pub(crate) proof fn lemma_index_inj(a: Lit, b: Lit)
    ensures
        a.index() == b.index() ==> a == b,
{
    if a.index() == b.index() {
        assert(a.id == b.id);
    }
}

impl Solver {
    /// A literal set in the assignment has a level no higher than the current one.
    proof fn lemma_level_le_dl(s: Solver, l: Lit)
        requires
            s.assignments.wf(),
            s.lit_true(l) || s.lit_false(l),
        ensures
            s.lvl(l) <= s.assignments.dl(),
    {
        let v = l.var_id();
        assert(s.assignments.assigned(v));
        assert(1 <= v < s.assignments.values.len()) by {
            if v == 0 {
                assert(s.assignments.values@[0] == BVal::Undef);
            }
        }
        let j = choose|j: int| 0 <= j < s.assignments.trail.len() && s.assignments.tvar(j) == v;
        assert(s.assignments.level_of(s.assignments.tvar(j)) <= s.assignments.dl());
    }

    /// Adding the clause `e` to the list `l` keeps the facts on every clause and counts it once
    /// more in that list.
    proof fn lemma_push_kept(a: Solver, b: Solver, l: int, e: ClauseId, d: int)
        requires
            a.wf_clauses(),
            a.wf_watches(),
            0 <= l < a.watches.len(),
            b.watches.len() == a.watches.len(),
            b.watches@[l]@ == a.watches@[l]@.push(e),
            forall|l2: int| 0 <= l2 < a.watches.len() && l2 != l ==> #[trigger] b.watches@[l2] == a.watches@[l2],
            b.assignments.values@ == a.assignments.values@,
            b.assignments.levels@ == a.assignments.levels@,
            b.propagation_queue@ == a.propagation_queue@,
            b.clauses.clauses@ == a.clauses.clauses@,
        ensures
            forall|cid: int| #[trigger] b.kept_from(a, d, cid),
            forall|c: int, y: Lit| a.valid_lit(y) ==> #[trigger] b.wcount(c, y) >= a.wcount(c, y),
            forall|y: Lit| a.valid_lit(y) && y.neg().index() == l ==> #[trigger] b.wcount(e as int, y) == a.wcount(e as int, y) + 1,
    {
        assert forall|l2: int, c: int| 0 <= l2 < a.watches.len() implies #[trigger] count_from(b.watches@[l2]@, 0, c)
            >= count_from(a.watches@[l2]@, 0, c) by {
            if l2 == l {
                lemma_count_push(a.watches@[l]@, e, 0, c);
            }
        }
        assert forall|cid: int| #[trigger] b.kept_from(a, d, cid) by {
            Self::lemma_frame_kept(a, b, d, cid);
        }
        Self::lemma_frame_kept(a, b, d, -1);
        assert forall|y: Lit| a.valid_lit(y) && y.neg().index() == l implies #[trigger] b.wcount(e as int, y) == a.wcount(e as int, y) + 1 by {
            lemma_count_push(a.watches@[l]@, e, 0, e as int);
        }
    }

    /// Taking the last literal `p` out of the queue and emptying its list of watches leaves the
    /// clauses of that list waiting to be visited.
    proof fn lemma_pop_clear(a: Solver, b: Solver, p: Lit)
        requires
            a.wf(),
            a.watch_full(),
            a.propagation_queue.len() > 0,
            p == a.propagation_queue@.last(),
            b.propagation_queue@ == a.propagation_queue@.drop_last(),
            b.assignments == a.assignments,
            b.clauses.clauses@ == a.clauses.clauses@,
            b.num_vars == a.num_vars,
            b.watches.len() == a.watches.len(),
            b.watches@[p.index()]@ == Seq::<ClauseId>::empty(),
            forall|l: int| 0 <= l < a.watches.len() && l != p.index() ==> #[trigger] b.watches@[l] == a.watches@[l],
        ensures
            b.watch_prop(no_level_bound(), p.neg(), a.watches@[p.index()]@, 0),
            !b.in_queue(p),
    {
        let dd = no_level_bound();
        let x = p.neg();
        let todo = a.watches@[p.index()]@;
        let n = a.propagation_queue.len() as int;
        assert(a.valid_lit(p));
        assert forall|z: Lit| z != p implies b.in_queue(z) == a.in_queue(z) by {
            if a.in_queue(z) {
                let k = choose|k: int| 0 <= k < a.propagation_queue.len() && a.propagation_queue@[k] == z;
                assert(k != n - 1);
                assert(b.propagation_queue@[k] == z);
            }
            if b.in_queue(z) {
                let k = choose|k: int| 0 <= k < b.propagation_queue.len() && b.propagation_queue@[k] == z;
                assert(a.propagation_queue@[k] == z);
            }
        }
        assert(!b.in_queue(p)) by {
            if b.in_queue(p) {
                let k = choose|k: int| 0 <= k < b.propagation_queue.len() && b.propagation_queue@[k] == p;
                assert(a.propagation_queue@[k].var_id() != a.propagation_queue@[n - 1].var_id());
            }
        }
        assert forall|c: int, w: int|
            0 <= c < b.ncl() && 0 <= w < 2 && b.cl(c)[w] != x implies #[trigger] b.pos_ok(c, w, dd) by {
            let y = b.cl(c)[w];
            assert(b.cl(c) == a.cl(c));
            assert(a.cl(c).len() >= 2);
            assert(a.pos_ok(c, w, dd));
            assert(y.neg() != p);
            lemma_index_inj(y.neg(), p);
            assert(y.neg().index() != p.index());
            assert(a.valid_lit(y));
            assert(0 <= y.neg().index() < a.watches.len());
            assert(b.watches@[y.neg().index()] == a.watches@[y.neg().index()]);
            assert(b.in_queue(y.neg()) == a.in_queue(y.neg()));
        }
        assert forall|c: int| 0 <= c < b.ncl() && b.cl(c)[0] != x implies #[trigger] b.dup_ok(c) by {
            let y = b.cl(c)[0];
            assert(b.cl(c) == a.cl(c));
            assert(a.cl(c).len() >= 2);
            assert(a.dup_ok(c));
            lemma_index_inj(y.neg(), p);
            assert(y.neg().index() != p.index());
            assert(a.valid_lit(y));
            assert(0 <= y.neg().index() < a.watches.len());
            assert(b.watches@[y.neg().index()] == a.watches@[y.neg().index()]);
        }
        assert forall|c: int| 0 <= c < b.ncl() implies #[trigger] b.need(c, x, dd) <= count_from(todo, 0, c) by {
            assert(a.pos_ok(c, 0, dd) && a.pos_ok(c, 1, dd));
            assert(a.dup_ok(c));
            if b.cl(c)[0] == x {
                assert(a.wcount(c, x) == count_from(todo, 0, c));
            }
            if b.cl(c)[1] == x {
                assert(a.wcount(c, x) == count_from(todo, 0, c));
            }
        }
    }

    /// Once every clause of the list is visited, the watch invariant holds again.
    proof fn lemma_prop_done(s: Solver, x: Lit, todo: Seq<ClauseId>)
        requires
            s.watch_prop(no_level_bound(), x, todo, todo.len() as int),
            s.lit_false(x),
            !s.in_queue(x.neg()),
            s.lvl(x) < no_level_bound(),
        ensures
            s.watch_full(),
    {
        let dd = no_level_bound();
        assert forall|c: int, w: int| 0 <= c < s.ncl() && 0 <= w < 2 implies #[trigger] s.pos_ok(c, w, dd) by {
            assert(s.need(c, x, dd) <= count_from(todo, todo.len() as int, c));
            if s.cl(c)[w] != x {
            }
        }
        assert forall|c: int| 0 <= c < s.ncl() implies #[trigger] s.dup_ok(c) by {
            if s.cl(c)[0] == x && s.cl(c)[1] == x {
                assert(s.need(c, x, dd) <= count_from(todo, todo.len() as int, c));
                assert(s.pos_ok(c, 0, dd));
                assert(!s.lit_true(x));
                assert(false);
            }
        }
    }

    /// After a conflict, once the clauses still waiting are back in the list and the queue is
    /// emptied, the watch invariant holds for the levels below the current one.
    proof fn lemma_conflict_done(a: Solver, b: Solver, p: Lit, todo: Seq<ClauseId>, i: int, cid: int)
        requires
            a.wf(),
            a.watch_conflict(no_level_bound(), p.neg(), todo, i, cid),
            0 <= cid < a.ncl(),
            a.valid_lit(p),
            a.lit_true(p),
            !a.in_queue(p),
            a.lvl(p) == a.assignments.dl(),
            b.assignments == a.assignments,
            b.clauses.clauses@ == a.clauses.clauses@,
            b.propagation_queue.len() == 0,
            b.watches.len() == a.watches.len(),
            forall|l: int| 0 <= l < a.watches.len() && l != p.index() ==> #[trigger] b.watches@[l] == a.watches@[l],
            forall|c: int|
                #[trigger] count_from(b.watches@[p.index()]@, 0, c) == count_from(a.watches@[p.index()]@, 0, c) + count_from(
                    todo,
                    i + 1,
                    c,
                ),
        ensures
            b.watch_inv(b.assignments.dl()),
    {
        let dd = no_level_bound();
        let dl = a.assignments.dl();
        let x = p.neg();
        assert(a.lit_false(x));
        assert(a.lvl(x) == dl);
        assert(dl < dd);
        assert forall|c: int, y: Lit| a.valid_lit(y) implies #[trigger] b.wcount(c, y) >= a.wcount(c, y) by {
            if y.neg().index() != p.index() {
                assert(b.watches@[y.neg().index()] == a.watches@[y.neg().index()]);
            }
        }
        assert forall|c: int| #[trigger] b.wcount(c, x) == a.wcount(c, x) + count_from(todo, i + 1, c) by {}
        assert forall|c: int, w: int| 0 <= c < b.ncl() && 0 <= w < 2 implies #[trigger] b.pos_ok(c, w, dl) by {
            let y = a.cl(c)[w];
            assert(b.cl(c) == a.cl(c));
            assert(a.valid_lit(y));
            if y != x {
                assert(a.pos_ok(c, w, dd));
                if a.lit_false(y) && a.lvl(y) < dl {
                    if a.in_queue(y.neg()) {
                        let k = choose|k: int| 0 <= k < a.propagation_queue.len() && a.propagation_queue@[k] == y.neg();
                        assert(a.assignments.level_of(a.propagation_queue@[k].var_id()) == dl);
                        assert(false);
                    }
                }
            } else {
                assert(b.lvl(y) == dl);
                if c != cid {
                    assert(a.need(c, x, dd) <= count_from(todo, i + 1, c));
                    if !a.pos_ok(c, w, dd) {
                        assert(count_from(todo, i + 1, c) >= 1);
                    }
                } else if w == 0 {
                    assert(count_from(todo, i + 1, cid) >= 1);
                }
            }
        }
        assert forall|c: int| 0 <= c < b.ncl() implies #[trigger] b.dup_ok(c) by {
            let y = a.cl(c)[0];
            assert(b.cl(c) == a.cl(c));
            assert(a.valid_lit(y));
            if y != x {
                assert(a.dup_ok(c));
            } else if a.cl(c)[1] == x {
                if c != cid {
                    assert(!a.watch_ok(c, 0, dd));
                    assert(!a.watch_ok(c, 1, dd));
                    assert(a.need(c, x, dd) == 2);
                } else {
                    assert(a.watched(cid, x));
                }
            }
        }
    }
}

/// A literal is determined by its variable and its sign.
pub(crate) proof fn lemma_lit_determined(x: Lit, y: Lit)
    ensures
        x.var_id() == y.var_id() && x.positive() == y.positive() ==> x == y,
{
    if x.var_id() == y.var_id() && x.positive() == y.positive() {
        assert(x.id.value == y.id.value);
        assert(x.id == y.id);
    }
}

impl Solver {
    /// Undoing the decision levels above `lvl`, from a state where the watch invariant holds for
    /// the levels up to `lvl`, gives a state where it holds for all levels.
    proof fn lemma_backtrack_watch(a: Solver, b: Solver, lvl: int)
        requires
            a.wf(),
            b.wf(),
            a.propagation_queue.len() == 0,
            b.propagation_queue.len() == 0,
            b.num_vars == a.num_vars,
            b.clauses.clauses@ == a.clauses.clauses@,
            b.watches@ == a.watches@,
            b.assignments.levels@ == a.assignments.levels@,
            0 <= lvl < a.assignments.dl(),
            b.assignments.trail@ == a.assignments.trail@.subrange(0, a.assignments.lims@[lvl] as int),
            a.watch_inv(lvl + 1),
        ensures
            b.watch_full(),
    {
        let dd = no_level_bound();
        let aa = a.assignments;
        let ba = b.assignments;
        assert(aa.lims@[lvl] <= aa.trail.len());
        assert forall|c: int, w: int| 0 <= c < b.ncl() && 0 <= w < 2 implies #[trigger] b.pos_ok(c, w, dd) by {
            assert(b.cl(c) == a.cl(c));
            assert(a.pos_ok(c, w, lvl + 1));
            let y = a.cl(c)[w];
            let o = a.cl(c)[1 - w];
            assert(a.cl(c).len() >= 2);
            assert(a.valid_lit(y) && a.valid_lit(o));
            if b.lit_false(y) {
                let v = y.var_id();
                assert(ba.assigned(v));
                let j = choose|j: int| 0 <= j < ba.trail.len() && ba.tvar(j) == v;
                assert(ba.lit_true(ba.trail@[j]));
                lemma_lit_determined(ba.trail@[j], y.neg());
                assert(ba.trail@[j] == y.neg());
                assert(aa.trail@[j] == y.neg());
                assert(aa.lit_true(aa.trail@[j]));
                assert(j < aa.lims@[lvl]);
                assert(aa.level_of(aa.tvar(j)) <= lvl);
                assert(a.lit_false(y));
                assert(!a.in_queue(y.neg()));
                assert(a.lit_true(o) && a.lvl(o) <= a.lvl(y));
                lemma_backtrack_keeps(aa, ba, lvl, o);
            }
        }
        assert forall|c: int| 0 <= c < b.ncl() implies #[trigger] b.dup_ok(c) by {
            assert(b.cl(c) == a.cl(c));
            assert(a.dup_ok(c));
        }
    }

    /// The watch invariant for some levels holds for fewer levels.
    proof fn lemma_watch_lower(s: Solver, d1: int, d2: int)
        requires
            s.watch_inv(d1),
            d2 <= d1,
        ensures
            s.watch_inv(d2),
    {
        assert forall|c: int, w: int| 0 <= c < s.ncl() && 0 <= w < 2 implies #[trigger] s.pos_ok(c, w, d2) by {
            assert(s.pos_ok(c, w, d1));
        }
    }
}

/// An element absent from the sequence does not occur in it.
pub(crate) proof fn lemma_count_absent(s: Seq<ClauseId>, i: int, c: int)
    requires
        0 <= i,
        forall|k: int| 0 <= k < s.len() ==> s[k] != c,
    ensures
        count_from(s, i, c) == 0,
    decreases s.len() - i,
{
    if i < s.len() {
        lemma_count_absent(s, i + 1, c);
    }
}

impl Solver {
    /// Adding clauses and watches keeps the facts on the clauses already there.
    proof fn lemma_grow_kept(a: Solver, b: Solver)
        requires
            a.wf_clauses(),
            a.wf_watches(),
            b.assignments.values@ == a.assignments.values@,
            b.assignments.levels@ == a.assignments.levels@,
            b.propagation_queue@ == a.propagation_queue@,
            b.ncl() >= a.ncl(),
            forall|c: int| 0 <= c < a.ncl() ==> #[trigger] b.cl(c) == a.cl(c),
            b.watches.len() == a.watches.len(),
            forall|l: int, c: int|
                0 <= l < a.watches.len() ==> #[trigger] count_from(b.watches@[l]@, 0, c) >= count_from(a.watches@[l]@, 0, c),
        ensures
            forall|c: int, w: int, d: int| 0 <= c < a.ncl() && 0 <= w < 2 && a.pos_ok(c, w, d) ==> #[trigger] b.pos_ok(c, w, d),
            forall|c: int| 0 <= c < a.ncl() && a.dup_ok(c) ==> #[trigger] b.dup_ok(c),
    {
        assert forall|c: int, y: Lit| a.valid_lit(y) implies #[trigger] b.wcount(c, y) >= a.wcount(c, y) by {
            let l = y.neg().index();
            assert(0 <= l < a.watches.len());
            assert(count_from(b.watches@[l]@, 0, c) >= count_from(a.watches@[l]@, 0, c));
        }
        assert forall|c: int, w: int, d: int| 0 <= c < a.ncl() && 0 <= w < 2 && a.pos_ok(c, w, d) implies #[trigger] b.pos_ok(c, w, d) by {
            assert(b.cl(c) == a.cl(c));
            assert(a.cl(c).len() >= 2);
            assert(a.valid_lit(a.cl(c)[w]));
            assert(b.wcount(c, a.cl(c)[w]) >= a.wcount(c, a.cl(c)[w]));
            assert(b.in_queue(b.cl(c)[w].neg()) == a.in_queue(a.cl(c)[w].neg()));
        }
        assert forall|c: int| 0 <= c < a.ncl() && a.dup_ok(c) implies #[trigger] b.dup_ok(c) by {
            assert(b.cl(c) == a.cl(c));
            assert(a.cl(c).len() >= 2);
            assert(a.valid_lit(a.cl(c)[0]));
            assert(b.wcount(c, a.cl(c)[0]) >= a.wcount(c, a.cl(c)[0]));
        }
    }
}

impl Solver {
    /// A learnt clause, stored with its literal of highest level second, and whose first literal
    /// is then set, at that level, meets the watch invariant with the others.
    proof fn lemma_learnt_watch(a: Solver, b: Solver, e: Solver, id: int, learnt: Seq<Lit>, bt: int)
        requires
            a.watch_full(),
            a.wf(),
            b.wf(),
            e.wf(),
            id == a.ncl(),
            b.ncl() == a.ncl() + 1,
            learnt.len() >= 2,
            forall|c: int, w: int, d: int|
                0 <= c < a.ncl() && 0 <= w < 2 && a.pos_ok(c, w, d) ==> #[trigger] b.pos_ok(c, w, d),
            forall|c: int| 0 <= c < a.ncl() && a.dup_ok(c) ==> #[trigger] b.dup_ok(c),
            b.watched(id, b.cl(id)[0]),
            b.watched(id, b.cl(id)[1]),
            b.dup_ok(id),
            b.cl(id)[0] == learnt[0],
            exists|m: int|
                1 <= m < learnt.len() && b.cl(id) == learnt.update(1, learnt[m]).update(m, learnt[1]) && forall|k: int|
                    1 <= k < learnt.len() ==> #[trigger] b.assignments.levels@[learnt[k].var_id()]
                        <= b.assignments.levels@[learnt[m].var_id()],
            bt == b.assignments.dl(),
            exists|k: int| 1 <= k < learnt.len() && #[trigger] b.assignments.level_of(learnt[k].var_id()) == bt,
            forall|k: int| 1 <= k < learnt.len() ==> #[trigger] b.assignments.level_of(learnt[k].var_id()) <= bt,
            e.clauses.clauses@ == b.clauses.clauses@,
            e.watches@ == b.watches@,
            forall|c: int, w: int, d: int| 0 <= c < b.ncl() && 0 <= w < 2 && b.watch_ok(c, w, d) ==> #[trigger] e.watch_ok(c, w, d),
            e.lit_true(learnt[0]),
            e.lvl(learnt[0]) <= e.assignments.dl(),
            e.assignments.dl() == b.assignments.dl(),
            forall|v: int| 0 <= v < b.assignments.levels.len() && b.assignments.assigned(v) ==> #[trigger] e.assignments.levels@[v] == b.assignments.levels@[v],
            forall|k: int| 1 <= k < learnt.len() ==> b.lit_false(#[trigger] learnt[k]),
        ensures
            e.watch_full(),
    {
        let dd = no_level_bound();
        let m = choose|m: int|
            1 <= m < learnt.len() && b.cl(id) == learnt.update(1, learnt[m]).update(m, learnt[1]) && forall|k: int|
                1 <= k < learnt.len() ==> #[trigger] b.assignments.levels@[learnt[k].var_id()]
                    <= b.assignments.levels@[learnt[m].var_id()];
        let k0 = choose|k: int| 1 <= k < learnt.len() && #[trigger] b.assignments.level_of(learnt[k].var_id()) == bt;
        assert(b.cl(id)[1] == learnt[m]);
        assert(b.assignments.levels@[learnt[k0].var_id()] <= b.assignments.levels@[learnt[m].var_id()]);
        assert(b.assignments.level_of(learnt[m].var_id()) == bt);
        let y = learnt[m];
        assert(b.lit_false(y));
        assert(b.assignments.assigned(y.var_id())) by {
            assert(b.lit_true(y.neg()));
        }
        assert(e.lvl(y) == bt);
        assert forall|c: int, w: int| 0 <= c < e.ncl() && 0 <= w < 2 implies #[trigger] e.pos_ok(c, w, dd) by {
            assert(e.cl(c) == b.cl(c));
            if c < a.ncl() {
                assert(a.pos_ok(c, w, dd));
                assert(b.pos_ok(c, w, dd));
                assert(b.watch_ok(c, w, dd));
            } else {
                assert(c == id);
                assert(e.watched(id, e.cl(id)[w]));
                if w == 0 {
                    assert(!e.lit_false(learnt[0]));
                } else {
                    assert(e.lit_true(e.cl(id)[0]));
                }
            }
        }
        assert forall|c: int| 0 <= c < e.ncl() implies #[trigger] e.dup_ok(c) by {
            assert(e.cl(c) == b.cl(c));
            if c < a.ncl() {
                assert(a.dup_ok(c));
                assert(b.dup_ok(c));
            }
        }
    }
}

impl Solver {
    /// The watch invariant only depends on the clauses, the watches, the values and levels of
    /// the assignment and the queue.
    proof fn lemma_watch_fields(a: Solver, b: Solver, d: int)
        requires
            a.watch_inv(d),
            b.clauses.clauses@ == a.clauses.clauses@,
            b.watches@ == a.watches@,
            b.assignments.values@ == a.assignments.values@,
            b.assignments.levels@ == a.assignments.levels@,
            b.propagation_queue@ == a.propagation_queue@,
        ensures
            b.watch_inv(d),
    {
        assert forall|c: int, w: int| 0 <= c < b.ncl() && 0 <= w < 2 implies #[trigger] b.pos_ok(c, w, d) by {
            assert(a.pos_ok(c, w, d));
            assert(b.cl(c) == a.cl(c));
            assert(b.in_queue(b.cl(c)[w].neg()) == a.in_queue(a.cl(c)[w].neg()));
        }
        assert forall|c: int| 0 <= c < b.ncl() implies #[trigger] b.dup_ok(c) by {
            assert(a.dup_ok(c));
            assert(b.cl(c) == a.cl(c));
        }
    }
}

impl Solver {
    /// The core invariant only depends on the values, levels, reasons and trail of the
    /// assignment, besides its own invariant.
    proof fn lemma_same_assignment(a: Solver, b: Solver, x: int)
        requires
            a.wf_core_x(x),
            b.assignments.wf(),
            b.num_vars == a.num_vars,
            b.assignments.values@ == a.assignments.values@,
            b.assignments.levels@ == a.assignments.levels@,
            b.assignments.reasons@ == a.assignments.reasons@,
            b.assignments.trail@ == a.assignments.trail@,
            b.clauses.clauses@ == a.clauses.clauses@,
            b.watches@ == a.watches@,
            b.propagation_queue@ == a.propagation_queue@,
            a.propagation_queue.len() == 0 || b.assignments.dl() == a.assignments.dl(),
            b.heuristic.wf(),
            b.heuristic.num_vars() == a.heuristic.num_vars(),
            forall|u: int|
                1 <= u <= b.num_vars && u != x && !b.assignments.assigned(u) && #[trigger] a.heuristic.contains(u)
                    ==> b.heuristic.contains(u),
        ensures
            b.wf_core_x(x),
    {
        assert forall|c: int| 0 <= c < b.ncl() implies {
            &&& #[trigger] b.cl(c).len() >= 2
            &&& forall|k: int| 0 <= k < b.cl(c).len() ==> b.valid_lit(#[trigger] b.cl(c)[k])
        } by {
            assert(a.cl(c) == b.cl(c));
        }
        assert(b.wf_clauses());
        assert(b.wf_watches());
        assert forall|i: int| 0 <= i < b.assignments.trail.len() implies match #[trigger] b.assignments.reasons@[b.assignments.tvar(i)] {
            Some(c) => b.justifies(c as int, b.assignments.trail@[i], i),
            None => true,
        } by {
            let u = a.assignments.tvar(i);
            assert(a.assignments.valid_var(u));
            let r = a.assignments.reasons@[a.assignments.tvar(i)];
            assert(b.assignments.reasons@[b.assignments.tvar(i)] == r);
            match r {
                Some(c) => {
                    assert(a.justifies(c as int, a.assignments.trail@[i], i));
                    assert(b.cl(c as int) == a.cl(c as int));
                    Self::lemma_justifies_prefix(a, b, c as int, a.assignments.trail@[i], i);
                },
                None => {},
            }
        }
        assert forall|u: int|
            1 <= u <= b.num_vars && u != x && !#[trigger] b.assignments.assigned(u) implies b.heuristic.contains(u) by {
            assert(!a.assignments.assigned(u));
            assert(a.heuristic.contains(u));
        }
    }
}

impl Solver {
    /// The clause of a reason has its first literal true.
    proof fn lemma_reason_first_true(s: Solver, i: int)
        requires
            s.wf_core(),
            0 <= i < s.assignments.trail.len(),
            s.assignments.reasons@[s.assignments.tvar(i)] is Some,
        ensures
            ({
                let c = s.assignments.reasons@[s.assignments.tvar(i)]->0 as int;
                0 <= c < s.ncl() && s.lit_true(s.cl(c)[0])
            }),
    {
        assert(s.assignments.lit_true(s.assignments.trail@[i]));
    }

    /// A clause whose first literal is not true is the reason of no assignment.
    proof fn lemma_not_reason(s: Solver, cid: int)
        requires
            s.wf_core(),
            0 <= cid < s.ncl(),
            !s.lit_true(s.cl(cid)[0]),
        ensures
            forall|i: int|
                0 <= i < s.assignments.trail.len() ==> #[trigger] s.assignments.reasons@[s.assignments.tvar(i)]
                    != Some(cid as ClauseId),
    {
        assert forall|i: int| 0 <= i < s.assignments.trail.len() implies #[trigger] s.assignments.reasons@[s.assignments.tvar(i)]
            != Some(cid as ClauseId) by {
            if s.assignments.reasons@[s.assignments.tvar(i)] == Some(cid as ClauseId) {
                Self::lemma_reason_first_true(s, i);
            }
        }
    }

    /// Justification only depends on the clause and on the assignment.
    proof fn lemma_justifies_transfer(a: Solver, b: Solver, c: int, l: Lit, i: int)
        requires
            a.justifies(c, l, i),
            b.assignments == a.assignments,
            0 <= c < b.ncl(),
            b.cl(c) == a.cl(c),
        ensures
            b.justifies(c, l, i),
    {
        assert forall|k: int| 1 <= k < b.cl(c).len() implies #[trigger] b.lit_false(b.cl(c)[k]) && b.set_before(
            b.cl(c)[k],
            i,
        ) by {
            let x = a.cl(c)[k];
            assert(a.lit_false(a.cl(c)[k]));
            assert(a.set_before(x, i));
            let j = choose|j: int| 0 <= j < i && #[trigger] a.assignments.tvar(j) == x.var_id();
            assert(b.assignments.tvar(j) == x.var_id());
        }
    }

    /// Justification at position `i` only depends on the clause, on the trail before `i` and on the
    /// values of its variables.
    pub(crate) proof fn lemma_justifies_prefix(a: Solver, b: Solver, c: int, l: Lit, i: int)
        requires
            a.justifies(c, l, i),
            0 <= c < b.ncl(),
            b.cl(c) == a.cl(c),
            0 <= i <= b.assignments.trail.len(),
            i <= a.assignments.trail.len(),
            forall|j: int| 0 <= j < i ==> #[trigger] b.assignments.trail@[j] == a.assignments.trail@[j],
            forall|j: int| 0 <= j < i ==> b.assignments.values@[#[trigger] a.assignments.tvar(j)] == a.assignments.values@[a.assignments.tvar(j)],
            b.assignments.values.len() == a.assignments.values.len(),
        ensures
            b.justifies(c, l, i),
    {
        assert forall|k: int| 1 <= k < b.cl(c).len() implies #[trigger] b.lit_false(b.cl(c)[k]) && b.set_before(
            b.cl(c)[k],
            i,
        ) by {
            let x = a.cl(c)[k];
            assert(a.lit_false(a.cl(c)[k]));
            assert(a.set_before(x, i));
            let j = choose|j: int| 0 <= j < i && #[trigger] a.assignments.tvar(j) == x.var_id();
            assert(b.assignments.trail@[j] == a.assignments.trail@[j]);
            assert(b.assignments.tvar(j) == x.var_id());
            assert(b.assignments.values@[a.assignments.tvar(j)] == a.assignments.values@[a.assignments.tvar(j)]);
        }
    }

    /// Reordering the literals of a clause that is no reason, or adding watches to valid clauses,
    /// keeps the core invariant.
    proof fn lemma_reorder_keeps_wf(a: Solver, b: Solver, cid: int)
        requires
            a.wf_core(),
            b.num_vars == a.num_vars,
            b.assignments == a.assignments,
            b.propagation_queue.len() <= a.propagation_queue.len(),
            forall|k: int| 0 <= k < b.propagation_queue.len() ==> #[trigger] b.propagation_queue@[k]
                == a.propagation_queue@[k],
            b.heuristic == a.heuristic,
            b.ncl() == a.ncl(),
            forall|c: int| 0 <= c < a.ncl() && c != cid ==> #[trigger] b.cl(c) == a.cl(c),
            0 <= cid < a.ncl() ==> b.cl(cid).len() == a.cl(cid).len(),
            0 <= cid < a.ncl() ==> b.cl(cid) == a.cl(cid) || {
                &&& forall|k: int|
                    0 <= k < b.cl(cid).len() ==> exists|k2: int| 0 <= k2 < a.cl(cid).len() && #[trigger] b.cl(cid)[k] == a.cl(cid)[k2]
                &&& forall|i: int|
                    0 <= i < a.assignments.trail.len() ==> #[trigger] a.assignments.reasons@[a.assignments.tvar(i)]
                        != Some(cid as ClauseId)
            },
            b.watches.len() == a.watches.len(),
            forall|l: int, k: int|
                0 <= l < b.watches.len() && 0 <= k < b.watches@[l].len() ==> #[trigger] b.watches@[l]@[k]
                    < b.ncl(),
        ensures
            b.wf_core(),
            a.levels_nonempty() ==> b.wf(),
    {
        assert forall|i: int, j: int|
            0 <= i < j < b.propagation_queue.len() implies b.propagation_queue@[i].var_id()
            != b.propagation_queue@[j].var_id() by {
            assert(a.propagation_queue@[i].var_id() != a.propagation_queue@[j].var_id());
        }
        assert forall|c: int| 0 <= c < b.ncl() implies {
            &&& #[trigger] b.cl(c).len() >= 2
            &&& forall|k: int| 0 <= k < b.cl(c).len() ==> b.valid_lit(#[trigger] b.cl(c)[k])
        } by {
            if c != cid || b.cl(cid) == a.cl(cid) {
                assert(a.cl(c) == b.cl(c));
            } else {
                assert forall|k: int| 0 <= k < b.cl(c).len() implies b.valid_lit(#[trigger] b.cl(c)[k]) by {
                    let k2 = choose|k2: int| 0 <= k2 < a.cl(cid).len() && #[trigger] b.cl(cid)[k] == a.cl(cid)[k2];
                    assert(a.valid_lit(a.cl(cid)[k2]));
                }
            }
        }
        assert(b.wf_clauses());
        assert(b.wf_watches());
        assert forall|i: int| 0 <= i < b.assignments.trail.len() implies match #[trigger] b.assignments.reasons@[b.assignments.tvar(i)] {
            Some(c) => b.justifies(c as int, b.assignments.trail@[i], i),
            None => true,
        } by {
            assert(a.assignments.valid_var(a.assignments.tvar(i)));
            let r = a.assignments.reasons@[a.assignments.tvar(i)];
            assert(b.assignments.reasons@[b.assignments.tvar(i)] == r);
            match r {
                Some(c) => {
                    assert(a.justifies(c as int, a.assignments.trail@[i], i));
                    if c as int == cid {
                        assert(0 <= cid < a.ncl());
                        assert(c == cid as ClauseId);
                        if b.cl(cid) != a.cl(cid) {
                            assert(a.assignments.reasons@[a.assignments.tvar(i)] != Some(cid as ClauseId));
                            assert(false);
                        }
                    }
assert(b.cl(c as int) == a.cl(c as int));
                    Self::lemma_justifies_transfer(a, b, c as int, a.assignments.trail@[i], i);
                },
                None => {},
            }
        }
        assert forall|u: int|
            1 <= u <= b.num_vars && !#[trigger] b.assignments.assigned(u) implies b.heuristic.contains(u) by {
            assert(!a.assignments.assigned(u));
        }
        assert(b.wf_queue());
        assert(a.levels_nonempty() ==> b.levels_nonempty());
    }
}

impl Solver {
    /// The watch invariant after the visit of `todo[i]`, the clause `cid`, found it violated:
    /// the positions that hold `x` may fail it as many times as the clause waits after `i`, but
    /// `cid` watches `x` at position 1 and waits after `i` if it also holds `x` at position 0.
    pub open spec fn watch_conflict(&self, d: int, x: Lit, todo: Seq<ClauseId>, i: int, cid: int) -> bool {
        &&& forall|c: int, w: int|
            0 <= c < self.ncl() && 0 <= w < 2 && self.cl(c)[w] != x ==> #[trigger] self.pos_ok(c, w, d)
        &&& forall|c: int| 0 <= c < self.ncl() && self.cl(c)[0] != x ==> #[trigger] self.dup_ok(c)
        &&& forall|c: int| 0 <= c < self.ncl() && c != cid ==> #[trigger] self.need(c, x, d) <= count_from(todo, i + 1, c)
        &&& self.watched(cid, x)
        &&& self.cl(cid)[1] == x
        &&& self.cl(cid)[0] == x ==> count_from(todo, i + 1, cid) >= 1
    }

    /// Visits the clause `clause_id` after `p` became true. If the clause watches `!p`, either it is
    /// satisfied by its other watched literal, or it gets a new literal to watch that is not false,
    /// or it is unit and its first literal is enqueued. Returns false when the clause is violated.
    #[verifier::rlimit(100)]
    #[verifier::spinoff_prover]
    fn propagate_clause(&mut self, clause_id: ClauseId, p: Lit, Ghost(todo): Ghost<Seq<ClauseId>>, Ghost(ti): Ghost<int>) -> (r: bool)
        requires
            old(self).wf(),
            clause_id < old(self).ncl(),
            old(self).valid_lit(p),
            old(self).lit_true(p),
            !old(self).in_queue(p),
            old(self).lvl(p) == old(self).assignments.dl(),
            0 <= ti < todo.len(),
            todo[ti] == clause_id,
            old(self).watch_prop(no_level_bound(), p.neg(), todo, ti),
        ensures
            final(self).wf(),
            !r ==> final(self).violated(clause_id as int) && final(self).cl(clause_id as int)[1] == p.neg(),
            old(self).learning_inv() ==> final(self).learning_inv(),
            forall|m: spec_fn(int) -> bool| old(self).sound(m) ==> #[trigger] final(self).sound(m),
            old(self).decs_on_trail() ==> final(self).decs_on_trail(),
            final(self).keeps_clauses(*old(self)),
            final(self).num_vars == old(self).num_vars,
            final(self).ncl() == old(self).ncl(),
            final(self).heuristic == old(self).heuristic,
            final(self).assignments.lims@ == old(self).assignments.lims@,
            final(self).assignments.decisions@ == old(self).assignments.decisions@,
            final(self).watches.len() == old(self).watches.len(),
            forall|v: int|
                0 <= v <= old(self).num_vars && #[trigger] old(self).assignments.assigned(v) ==> final(self).assignments.levels@[v]
                    == old(self).assignments.levels@[v] && final(self).assignments.values@[v]
                    == old(self).assignments.values@[v],
            ({
                ||| final(self).assignments == old(self).assignments
                    && final(self).propagation_queue@ == old(self).propagation_queue@
                ||| exists|l: Lit|
                    final(self).assignments.trail@ == old(self).assignments.trail@.push(l)
                        && final(self).propagation_queue@ == old(self).propagation_queue@.push(l)
                        && l == final(self).cl(clause_id as int)[0]
                        && final(self).assignments.reasons@[l.var_id()] == Some(clause_id)
            }),
            old(self).cl(clause_id as int)[0] == p.neg() || old(self).cl(clause_id as int)[1] == p.neg() ==> (r
                == !final(self).violated(clause_id as int)),
            !final(self).in_queue(p),
            r ==> final(self).watch_prop(no_level_bound(), p.neg(), todo, ti + 1),
            !r ==> final(self).watch_conflict(no_level_bound(), p.neg(), todo, ti, clause_id as int),
            old(self).exact_pending(p.index(), todo, ti) ==> final(self).exact_pending(p.index(), todo, ti + 1),
    {
        let ghost s0 = *self;
        let ghost dd = no_level_bound();
        let pi = p.to_index();
        let np = p.negate();
        let cid = clause_id;
        let ghost ci = cid as int;
        proof {
            assert(self.cl(ci).len() >= 2);
            assert(np.neg() == p);
            assert(self.lit_false(np));
            assert(self.assignments.dl() < dd);
            lemma_count_found(todo, ti, ci);
            assert(count_from(todo, ti, ci) >= 1);
            // positions of `cid` that do not hold `!p` meet the invariant
            assert(s0.cl(ci)[0] != np ==> s0.pos_ok(ci, 0, dd));
            assert(s0.cl(ci)[1] != np ==> s0.pos_ok(ci, 1, dd));
            // both positions holding `!p` fail it
            if s0.cl(ci)[0] == np && s0.cl(ci)[1] == np {
                assert(!s0.in_queue(np.neg()));
                assert(!s0.watch_ok(ci, 0, dd));
                assert(!s0.watch_ok(ci, 1, dd));
                assert(s0.need(ci, np, dd) == 2);
                assert(s0.need(ci, np, dd) <= count_from(todo, ti, ci));
            }
        }
        if self.clauses.clauses[cid].disjuncts[0] == np {
            proof {
                Self::lemma_not_reason(*self, cid as int);
            }
            let ghost s1 = *self;
            self.clauses.swap_lits(cid, 0, 1);
            proof {
                assert forall|k: int| 0 <= k < self.cl(cid as int).len() implies exists|k2: int|
                    0 <= k2 < s1.cl(cid as int).len() && #[trigger] self.cl(cid as int)[k] == s1.cl(cid as int)[k2] by {
                    if k == 0 {
                        assert(self.cl(cid as int)[k] == s1.cl(cid as int)[1]);
                    } else if k == 1 {
                        assert(self.cl(cid as int)[k] == s1.cl(cid as int)[0]);
                    } else {
                        assert(self.cl(cid as int)[k] == s1.cl(cid as int)[k]);
                    }
                }
                Self::lemma_reorder_keeps_wf(s1, *self, cid as int);
                Self::lemma_swap_sound(s1, *self, cid as int, 0, 1);
            }
        }
        let ghost sw = *self;
        proof {
            assert(forall|m: spec_fn(int) -> bool| s0.sound(m) ==> #[trigger] sw.sound(m));
            assert(s0.decs_on_trail() ==> sw.decs_on_trail());
            if sw.clauses.clauses@ == s0.clauses.clauses@ {
                Self::lemma_keeps_same(s0, sw);
            }
            assert(sw.keeps_clauses(s0));
            Self::lemma_frame_kept(s0, sw, dd, ci);
            // after the optional swap, the first literal is the one of `s0` at the other position
            // when `s0` had `!p` first
            assert(sw.cl(ci)[0] == (if s0.cl(ci)[0] == np {
                s0.cl(ci)[1]
            } else {
                s0.cl(ci)[0]
            }));
            assert(sw.cl(ci)[1] == (if s0.cl(ci)[0] == np {
                s0.cl(ci)[0]
            } else {
                s0.cl(ci)[1]
            }));
        }
        if self.clauses.clauses[cid].disjuncts[1] != np {
            // the clause no longer watches `!p`: it leaves the list of `p`
            proof {
                assert(s0.cl(ci)[0] != np);
                assert(*self == s0);
                assert(self.need(ci, np, dd) == 0);
                Self::lemma_prop_step(s0, *self, dd, np, todo, ti, ci);
                Self::lemma_keeps_same(s0, *self);
                if s0.exact_pending(p.index(), todo, ti) {
                    // a clause of the list of `p` watches `!p`: this case does not arise
                    assert(count_from(s0.watches@[p.index()]@, 0, ci) + count_from(todo, ti, ci)
                        == s0.expected_watches(ci, p.index()));
                    if s0.cl(ci)[0].neg().index() == p.index() {
                        assert(s0.cl(ci)[0].neg() == p);
                    }
                    if s0.cl(ci)[1].neg().index() == p.index() {
                        assert(s0.cl(ci)[1].neg() == p);
                    }
                }
            }
            return true;
        }
        let l0 = self.clauses.clauses[cid].disjuncts[0];
        proof {
            // the first literal, if it is not `!p`, was at a position of `s0` that meets the
            // invariant, and the other position of `s0` holds `!p`
            if l0 != np {
                if s0.cl(ci)[0] == np {
                    assert(s0.pos_ok(ci, 1, dd));
                    assert(s0.watched(ci, l0));
                    assert(s0.watch_ok(ci, 1, dd));
                } else {
                    assert(s0.pos_ok(ci, 0, dd));
                    assert(s0.watched(ci, l0));
                    assert(s0.watch_ok(ci, 0, dd));
                }
                // `l0` is not both false and propagated, as `!p` is false
                assert(!(s0.lit_false(l0) && !s0.in_queue(l0.neg())));
                assert(sw.watched(ci, l0));
            }
        }
        if self.is_set(l0) {
            // clause satisfied, restore the watch and exit
            let ghost s2 = *self;
            self.watches[pi].push(cid);
            proof {
                Self::lemma_same_sound(s2, *self);
                Self::lemma_keeps_same(s2, *self);
                Self::lemma_keeps_trans(s0, s2, *self);
                Self::lemma_reorder_keeps_wf(s2, *self, cid as int);
                assert(l0 != np);
                Self::lemma_push_kept(s2, *self, pi as int, cid, dd);
                Self::lemma_kept_trans(s0, s2, *self, dd, ci);
                assert(self.cl(ci) == s2.cl(ci));
                assert(self.watched(ci, np));
                assert(self.watched(ci, l0));
                Self::lemma_level_le_dl(*self, l0);
                assert(self.pos_ok(ci, 1, dd));
                assert(self.pos_ok(ci, 0, dd));
                assert(self.need(ci, np, dd) == 0);
                Self::lemma_prop_step(s0, *self, dd, np, todo, ti, ci);
                assert(!self.lit_false(self.cl(ci)[0]));
                if s0.exact_pending(p.index(), todo, ti) {
                    Self::lemma_exact_step(s0, *self, pi as int, todo, ti, pi as int);
                }
            }
            return true;
        }
        let len = self.clauses.clauses[cid].disjuncts.len();
        let mut i: usize = 2;
        while i < len
            invariant
                self.wf(),
                2 <= i <= len,
                cid < self.ncl(),
                ci == cid,
                cid == clause_id,
                len == self.cl(cid as int).len(),
                self.cl(cid as int)[0] == l0,
                self.cl(cid as int)[1] == np,
                !self.lit_true(l0),
                np == p.neg(),
                pi == p.index(),
                forall|k: int| 2 <= k < i ==> #[trigger] self.lit_false(self.cl(cid as int)[k]),
                self.assignments == s0.assignments,
                self.propagation_queue@ == s0.propagation_queue@,
                self.num_vars == s0.num_vars,
                self.ncl() == s0.ncl(),
                self.heuristic == s0.heuristic,
                self.watches.len() == s0.watches.len(),
                s0 == *old(self),
                s0.learning_inv() ==> self.learning_inv(),
                *self == sw,
                sw.watches == s0.watches,
                dd == no_level_bound(),
                self.lit_true(p),
                !self.in_queue(p),
                self.lvl(p) == self.assignments.dl(),
                self.assignments.dl() < dd,
                0 <= ti < todo.len(),
                todo[ti] == clause_id,
                count_from(todo, ti, ci) >= 1,
                s0.watch_prop(dd, np, todo, ti),
                self.kept_from(s0, dd, ci),
                l0 != np ==> self.watched(ci, l0) && !(self.lit_false(l0) && !self.in_queue(l0.neg())),
                l0 == np ==> s0.cl(ci)[0] == np && s0.cl(ci)[1] == np && s0.need(ci, np, dd) == 2,
                forall|m: spec_fn(int) -> bool| s0.sound(m) ==> #[trigger] sw.sound(m),
                s0.decs_on_trail() ==> sw.decs_on_trail(),
                sw.keeps_clauses(s0),
            decreases len - i,
        {
            let li = self.clauses.clauses[cid].disjuncts[i];
            let nli = li.negate();
            if !self.is_set(nli) {
                proof {
                    Self::lemma_not_reason(*self, cid as int);
                }
                let ghost s3 = *self;
                self.clauses.swap_lits(cid, 1, i);
                proof {
                    assert forall|k: int| 0 <= k < self.cl(cid as int).len() implies exists|k2: int|
                        0 <= k2 < s3.cl(cid as int).len() && #[trigger] self.cl(cid as int)[k] == s3.cl(cid as int)[k2] by {
                        if k == 1 {
                            assert(self.cl(cid as int)[k] == s3.cl(cid as int)[i as int]);
                        } else if k == i {
                            assert(self.cl(cid as int)[k] == s3.cl(cid as int)[1]);
                        } else {
                            assert(self.cl(cid as int)[k] == s3.cl(cid as int)[k]);
                        }
                    }
                    Self::lemma_reorder_keeps_wf(s3, *self, cid as int);
                    Self::lemma_swap_sound(s3, *self, cid as int, 1, i as int);
                }
                let ghost s4 = *self;
                self.watches[nli.to_index()].push(cid);
                proof {
                    Self::lemma_same_sound(s4, *self);
                    Self::lemma_keeps_same(s4, *self);
                    Self::lemma_keeps_trans(s0, s3, s4);
                    Self::lemma_keeps_trans(s0, s4, *self);
                    Self::lemma_reorder_keeps_wf(s4, *self, cid as int);
                    Self::lemma_frame_kept(s3, s4, dd, ci);
                    Self::lemma_push_kept(s4, *self, nli.index(), cid, dd);
                    Self::lemma_kept_trans(s3, s4, *self, dd, ci);
                    Self::lemma_kept_trans(s0, s3, *self, dd, ci);
                    assert(self.cl(ci)[1] == li);
                    assert(self.cl(ci)[0] == l0);
                    assert(li.neg() == nli);
                    assert(!self.lit_false(li));
                    assert(li != np);
                    assert(self.watched(ci, li));
                    assert(self.pos_ok(ci, 1, dd));
                    if l0 != np {
                        assert(s4.watched(ci, l0));
                        assert(self.watched(ci, l0));
                        assert(self.pos_ok(ci, 0, dd));
                        if l0 == li {
                            assert(s4.wcount(ci, l0) >= 1);
                            assert(self.wcount(ci, l0) >= 2);
                        }
                        assert(self.dup_ok(ci));
                        assert(self.need(ci, np, dd) == 0);
                    } else {
                        assert(s0.cl(ci)[0] == np && s0.cl(ci)[1] == np);
                        assert(self.cl(ci)[1] != np);
                        assert(self.need(ci, np, dd) <= 1);
                    }
                    assert(todo[ti] == ci);
                    Self::lemma_prop_step(s0, *self, dd, np, todo, ti, ci);
                    assert(!self.lit_false(self.cl(ci)[1]));
                    if s0.exact_pending(p.index(), todo, ti) {
                        Self::lemma_exact_step(s0, *self, pi as int, todo, ti, nli.index());
                    }
                }
                return true;
            }
            i = i + 1;
        }
        // no replacement found, clause is unit
        let ghost s5 = *self;
        self.watches[pi].push(cid);
        proof {
            Self::lemma_same_sound(s5, *self);
            Self::lemma_reorder_keeps_wf(s5, *self, cid as int);
            Self::lemma_push_kept(s5, *self, pi as int, cid, dd);
            Self::lemma_kept_trans(s0, s5, *self, dd, ci);
            assert forall|k: int| 1 <= k < self.cl(cid as int).len() implies #[trigger] self.lit_false(
                self.cl(cid as int)[k],
            ) by {
                if k == 1 {
                    assert(self.lit_true(p));
                } else {
                    assert(s5.lit_false(s5.cl(cid as int)[k]));
                }
            }
            assert(self.watched(ci, np));
            assert(s5.valid_lit(l0));
            if l0 != np {
                assert(self.wcount(ci, l0) >= s5.wcount(ci, l0));
                assert(self.watched(ci, l0));
            }
        }
        let ghost s6 = *self;
        let r = self.enqueue(l0, Some(cid));
        proof {
            Self::lemma_keeps_same(s5, *self);
            Self::lemma_keeps_trans(s0, s5, *self);
            Self::lemma_assign_kept(s6, *self, dd, ci);
            Self::lemma_kept_trans(s0, s6, *self, dd, ci);
            assert(self.cl(ci) == s6.cl(ci));
            assert(self.watched(ci, np));
            if self.in_queue(p) {
                let k = choose|k: int| 0 <= k < self.propagation_queue.len() && self.propagation_queue@[k] == p;
                if k < s6.propagation_queue.len() {
                    assert(s6.in_queue(p));
                } else {
                    assert(s6.lit_true(p));
                }
            }
            if !r {
                assert forall|k: int| 0 <= k < self.cl(cid as int).len() implies #[trigger] self.lit_false(
                    self.cl(cid as int)[k],
                ) by {
                    if k == 1 {
                        assert(s5.lit_true(p));
                    } else if k >= 2 {
                        assert(s5.lit_false(s5.cl(cid as int)[k]));
                    }
                }
                assert(self.assignments == s6.assignments);
                assert(self.propagation_queue@ == s6.propagation_queue@);
                assert(self.wcount(ci, l0) == s6.wcount(ci, l0));
                if l0 != np {
                    assert(self.watched(ci, l0));
                    assert(self.watch_ok(ci, 0, dd));
                    assert(self.pos_ok(ci, 0, dd));
                    assert(self.dup_ok(ci));
                } else {
                    assert(s0.cl(ci)[0] == np && s0.cl(ci)[1] == np);
                    assert(count_from(todo, ti + 1, ci) >= 1);
                }
                assert forall|c: int| 0 <= c < self.ncl() && c != ci implies #[trigger] self.need(c, np, dd) <= count_from(todo, ti + 1, c) by {
                    assert(self.cl(c) == s0.cl(c));
                    assert(s0.need(c, np, dd) <= count_from(todo, ti, c));
                    if s0.pos_ok(c, 0, dd) {
                        assert(self.pos_ok(c, 0, dd));
                    }
                    if s0.pos_ok(c, 1, dd) {
                        assert(self.pos_ok(c, 1, dd));
                    }
                }
                assert forall|c: int, w: int|
                    0 <= c < self.ncl() && 0 <= w < 2 && self.cl(c)[w] != np implies #[trigger] self.pos_ok(c, w, dd) by {
                    if c != ci {
                        assert(self.cl(c) == s0.cl(c));
                        assert(s0.pos_ok(c, w, dd));
                    }
                }
                assert forall|c: int| 0 <= c < self.ncl() && self.cl(c)[0] != np implies #[trigger] self.dup_ok(c) by {
                    if c != ci {
                        assert(self.cl(c) == s0.cl(c));
                        assert(s0.dup_ok(c));
                    }
                }
            } else {
                assert(l0 != np);
                assert(self.lit_true(l0));
                Self::lemma_level_le_dl(*self, l0);
                assert(s6.assignments.assigned(p.var_id()));
                assert(self.lvl(p) == s6.lvl(p));
                assert(self.lvl(np) == self.lvl(p));
                assert(self.wcount(ci, l0) == s6.wcount(ci, l0));
                assert(self.watched(ci, l0));
                assert(self.pos_ok(ci, 1, dd));
                assert(self.pos_ok(ci, 0, dd));
                assert(self.need(ci, np, dd) == 0);
                Self::lemma_prop_step(s0, *self, dd, np, todo, ti, ci);
                assert(!self.lit_false(self.cl(ci)[0]));
            }
            if s0.exact_pending(p.index(), todo, ti) {
                Self::lemma_exact_step(s0, *self, pi as int, todo, ti, pi as int);
            }
        }
        r
    }
}

impl Solver {
    /// Measure of the work left to propagation: each assignment still possible counts twice, each
    /// pending literal once.
    pub open spec fn propagation_measure(&self) -> int {
        2 * (self.num_vars - self.assignments.trail.len()) + self.propagation_queue.len()
    }

    /// Propagates the consequences of the literals in the queue, until the queue is empty or a
    /// clause is violated. When every clause was in exactly the watch lists of its first two
    /// literals, it still is, whatever the outcome.
    ///
    /// Returns:
    ///   Some(i): in case of a conflict where i is the id of the violated clause
    ///   None if no conflict was detected during propagation
    pub fn propagate(&mut self) -> (r: Option<ClauseId>)
        requires
            old(self).wf(),
            old(self).watch_full(),
        ensures
            final(self).wf(),
            final(self).propagation_queue.len() == 0,
            match r {
                None => {
                    &&& final(self).watch_full()
                    &&& forall|c: int| 0 <= c < final(self).ncl() ==> !#[trigger] final(self).violated(c)
                    &&& forall|c: int| 0 <= c < final(self).ncl() ==> !#[trigger] final(self).unit_open(c)
                },
                Some(_) => final(self).watch_inv(final(self).assignments.dl()),
            },
            old(self).watch_exact() ==> final(self).watch_exact(),
            old(self).learning_inv() ==> final(self).learning_inv(),
            forall|m: spec_fn(int) -> bool| old(self).sound(m) ==> #[trigger] final(self).sound(m),
            old(self).decs_on_trail() ==> final(self).decs_on_trail(),
            final(self).keeps_clauses(*old(self)),
            final(self).num_vars == old(self).num_vars,
            final(self).ncl() == old(self).ncl(),
            final(self).heuristic == old(self).heuristic,
            final(self).assignments.lims@ == old(self).assignments.lims@,
            final(self).assignments.decisions@ == old(self).assignments.decisions@,
            old(self).assignments.trail@.is_prefix_of(final(self).assignments.trail@),
            match r {
                Some(c) => {
                    &&& c < final(self).ncl()
                    &&& final(self).violated(c as int)
                    &&& final(self).assignments.level_of(final(self).cl(c as int)[1].var_id())
                        == final(self).assignments.dl()
                },
                None => true,
            },
    {
        let ghost s0 = *self;
        while self.propagation_queue.len() > 0
            invariant
                self.wf(),
                self.num_vars == s0.num_vars,
                self.ncl() == s0.ncl(),
                self.heuristic == s0.heuristic,
                self.assignments.lims@ == s0.assignments.lims@,
                self.assignments.decisions@ == s0.assignments.decisions@,
                s0.assignments.trail@.is_prefix_of(self.assignments.trail@),
                s0 == *old(self),
                s0.learning_inv() ==> self.learning_inv(),
                forall|m: spec_fn(int) -> bool| s0.sound(m) ==> #[trigger] self.sound(m),
                s0.decs_on_trail() ==> self.decs_on_trail(),
                self.keeps_clauses(s0),
                self.watch_full(),
                self.watches.len() == s0.watches.len(),
                s0.watch_exact() ==> self.watch_exact(),
            decreases self.propagation_measure(),
        {
            proof {
                lemma_trail_bound(self.assignments);
            }
            let ghost before = self.propagation_measure();
            let ghost s_loop = *self;
            let p = self.propagation_queue.pop().unwrap();
            proof {
                let q = self.propagation_queue@;
                assert(self.valid_lit(p) && self.lit_true(p));
                assert(self.assignments.level_of(p.var_id()) == self.assignments.dl());
            }
            let pi = p.to_index();
            let ghost sp = *self;
            let todo = self.watches[pi].clone();
            self.watches[pi].clear();
            proof {
                assert(todo@ == s_loop.watches@[p.index()]@);
                assert(self.watches@[p.index()]@ =~= Seq::<ClauseId>::empty());
                Self::lemma_pop_clear(s_loop, *self, p);
                assert(self.watch_prop(no_level_bound(), p.neg(), s_loop.watches@[p.index()]@, 0));
                assert forall|k: int| 0 <= k < todo.len() implies todo@[k] < self.ncl() by {
                    assert(sp.watches@[pi as int]@[k] < sp.ncl());
                    assert(todo@[k] == sp.watches@[pi as int]@[k]);
                }
                Self::lemma_reorder_keeps_wf(s_loop, *self, 0);
                Self::lemma_same_sound(s_loop, *self);
                Self::lemma_keeps_same(s_loop, *self);
                Self::lemma_keeps_trans(s0, s_loop, *self);
                if s0.watch_exact() {
                    assert forall|c: int, l: int| 0 <= c < self.ncl() && 0 <= l < self.watches.len() implies #[trigger] count_from(
                        self.watches@[l]@,
                        0,
                        c,
                    ) + (if l == pi as int {
                        count_from(todo@, 0, c)
                    } else {
                        0nat
                    }) == self.expected_watches(c, l) by {
                        assert(count_from(s_loop.watches@[l]@, 0, c) == s_loop.expected_watches(c, l));
                        assert(self.cl(c) == s_loop.cl(c));
                        if l == pi as int {
                            assert(count_from(self.watches@[l]@, 0, c) == 0);
                        } else {
                            assert(self.watches@[l] == s_loop.watches@[l]);
                        }
                    }
                }
            }
            let n = todo.len();
            let mut i: usize = 0;
            proof {
                assert(!self.in_queue(p));
                assert(self.lvl(p) == self.assignments.dl());
                assert(self.watches.len() == s0.watches.len());
                assert(todo@ == s_loop.watches@[p.index()]@);
                assert(self.watch_prop(no_level_bound(), p.neg(), s_loop.watches@[p.index()]@, 0));
                assert(self.watch_prop(no_level_bound(), p.neg(), todo@, 0));
            }
            while i < n
                invariant
                    self.wf(),
                    0 <= i <= n,
                    n == todo.len(),
                    forall|k: int| 0 <= k < todo.len() ==> todo@[k] < self.ncl(),
                    self.valid_lit(p),
                    self.lit_true(p),
                    self.assignments.level_of(p.var_id()) == self.assignments.dl(),
                    pi == p.index(),
                    self.num_vars == s0.num_vars,
                    self.ncl() == s0.ncl(),
                    self.heuristic == s0.heuristic,
                    self.assignments.lims@ == s0.assignments.lims@,
                    self.assignments.decisions@ == s0.assignments.decisions@,
                    s0.assignments.trail@.is_prefix_of(self.assignments.trail@),
                    self.propagation_measure() < before,
                    s0 == *old(self),
                    s0.learning_inv() ==> self.learning_inv(),
                    forall|m: spec_fn(int) -> bool| s0.sound(m) ==> #[trigger] self.sound(m),
                    s0.decs_on_trail() ==> self.decs_on_trail(),
                    self.keeps_clauses(s0),
                    !self.in_queue(p),
                    self.lvl(p) == self.assignments.dl(),
                    self.watches.len() == s0.watches.len(),
                    self.watch_prop(no_level_bound(), p.neg(), todo@, i as int),
                    s0.watch_exact() ==> self.exact_pending(pi as int, todo@, i as int),
                decreases n - i,
            {
                let ghost mid = *self;
                let ok = self.propagate_clause(todo[i], p, Ghost(todo@), Ghost(i as int));
                proof {
                    Self::lemma_keeps_trans(s0, mid, *self);
                    lemma_trail_bound(self.assignments);
                    if self.assignments.trail@ != mid.assignments.trail@ {
                        let l = choose|l: Lit|
                            self.assignments.trail@ == mid.assignments.trail@.push(l)
                                && self.propagation_queue@ == mid.propagation_queue@.push(l);
                        assert(mid.assignments.trail@.is_prefix_of(self.assignments.trail@));
                    }
                    assert(mid.assignments.assigned(p.var_id()));
                    assert(self.lit_true(p));
                }
                if !ok {
                    // clause violated: restore the remaining watches
                    let ghost s8 = *self;
                    let mut j: usize = i + 1;
                    while j < n
                        invariant
                            self.wf(),
                            i + 1 <= j <= n,
                            n == todo.len(),
                            forall|k: int| 0 <= k < todo.len() ==> todo@[k] < self.ncl(),
                            pi == p.index(),
                            self.valid_lit(p),
                            self.num_vars == s0.num_vars,
                            self.ncl() == s0.ncl(),
                            self.assignments == s8.assignments,
                            self.clauses.clauses@ == s8.clauses.clauses@,
                            self.propagation_queue@ == s8.propagation_queue@,
                            self.heuristic == s0.heuristic,
                            self.assignments.lims@ == s0.assignments.lims@,
                            self.assignments.decisions@ == s0.assignments.decisions@,
                            s0.assignments.trail@.is_prefix_of(self.assignments.trail@),
                            s0 == *old(self),
                            s0.learning_inv() ==> self.learning_inv(),
                            self.watches.len() == s8.watches.len(),
                            forall|l: int| 0 <= l < s8.watches.len() && l != pi ==> #[trigger] self.watches@[l] == s8.watches@[l],
                            forall|c: int|
                                #[trigger] count_from(self.watches@[pi as int]@, 0, c) + count_from(todo@, j as int, c)
                                    == count_from(s8.watches@[pi as int]@, 0, c) + count_from(todo@, i as int + 1, c),
                        decreases n - j,
                    {
                        let ghost s6 = *self;
                        self.watches[pi].push(todo[j]);
                        proof {
                            Self::lemma_reorder_keeps_wf(s6, *self, 0);
                            assert forall|c: int|
                                #[trigger] count_from(self.watches@[pi as int]@, 0, c) + count_from(todo@, j as int + 1, c)
                                    == count_from(s8.watches@[pi as int]@, 0, c) + count_from(todo@, i as int + 1, c) by {
                                lemma_count_push(s6.watches@[pi as int]@, todo@[j as int], 0, c);
                                assert(count_from(s6.watches@[pi as int]@, 0, c) + count_from(todo@, j as int, c)
                                    == count_from(s8.watches@[pi as int]@, 0, c) + count_from(todo@, i as int + 1, c));
                            }
                        }
                        j = j + 1;
                    }
                    let ghost s7 = *self;
                    self.propagation_queue.clear();
                    proof {
                        Self::lemma_reorder_keeps_wf(s7, *self, 0);
                        assert forall|c: int|
                            #[trigger] count_from(self.watches@[p.index()]@, 0, c) == count_from(s8.watches@[p.index()]@, 0, c)
                                + count_from(todo@, i as int + 1, c) by {
                            assert(count_from(todo@, n as int, c) == 0);
                        }
                        Self::lemma_conflict_done(s8, *self, p, todo@, i as int, todo@[i as int] as int);
                        Self::lemma_same_sound(s8, *self);
                        Self::lemma_keeps_same(s8, *self);
                        Self::lemma_keeps_trans(s0, s8, *self);
                        let c = todo@[i as int] as int;
                        assert(self.cl(c) == s8.cl(c));
                        assert(s8.violated(c));
                        assert forall|k: int| 0 <= k < self.cl(c).len() implies #[trigger] self.lit_false(self.cl(c)[k]) by {
                            assert(s8.lit_false(s8.cl(c)[k]));
                        }
                        assert(s8.assignments.level_of(s8.cl(c)[1].var_id()) == s8.assignments.dl());
                        if s0.watch_exact() {
                            assert forall|c: int, l: int| 0 <= c < self.ncl() && 0 <= l < self.watches.len() implies #[trigger] count_from(
                                self.watches@[l]@,
                                0,
                                c,
                            ) == self.expected_watches(c, l) by {
                                assert(count_from(s8.watches@[l]@, 0, c) + (if l == pi as int {
                                    count_from(todo@, i as int + 1, c)
                                } else {
                                    0nat
                                }) == s8.expected_watches(c, l));
                                assert(self.cl(c) == s8.cl(c));
                                if l != pi as int {
                                    assert(self.watches@[l] == s8.watches@[l]);
                                }
                            }
                        }
                    }
                    return Some(todo[i]);
                }
                i = i + 1;
            }
            proof {
                lemma_trail_bound(self.assignments);
                assert(p.neg().neg() == p);
                Self::lemma_prop_done(*self, p.neg(), todo@);
                if s0.watch_exact() {
                    assert forall|c: int, l: int| 0 <= c < self.ncl() && 0 <= l < self.watches.len() implies #[trigger] count_from(
                        self.watches@[l]@,
                        0,
                        c,
                    ) == self.expected_watches(c, l) by {
                        assert(count_from(self.watches@[l]@, 0, c) + (if l == pi as int {
                            count_from(todo@, n as int, c)
                        } else {
                            0nat
                        }) == self.expected_watches(c, l));
                    }
                }
            }
        }
        proof {
            Self::lemma_no_violated(*self);
        }
        None
    }
}

impl Solver {
    /// Invariant while the assignments of the last decision level are being undone: the last
    /// level may be empty.
    pub open spec fn wf_undoing(&self) -> bool {
        &&& self.wf_core()
        &&& self.propagation_queue.len() == 0
        &&& self.assignments.lims.len() > 0
        &&& forall|k: int|
            0 <= k < self.assignments.lims.len() - 1 ==> #[trigger] self.assignments.lims@[k]
                < self.assignments.lims@.last()
        &&& self.assignments.lims@.last() <= self.assignments.trail.len()
    }

    proof fn lemma_pop_keeps_wf(a: Solver, b: Solver, l: Lit)
        requires
            a.wf_undoing(),
            a.assignments.trail.len() > a.assignments.lims@.last(),
            l == a.assignments.trail@.last(),
            b.assignments.wf(),
            b.num_vars == a.num_vars,
            b.assignments.values@ == a.assignments.values@.update(l.var_id(), BVal::Undef),
            b.assignments.levels@ == a.assignments.levels@,
            b.assignments.reasons@ == a.assignments.reasons@,
            b.assignments.trail@ == a.assignments.trail@.drop_last(),
            b.assignments.lims@ == a.assignments.lims@,
            b.assignments.decisions@ == a.assignments.decisions@,
            b.clauses.clauses@ == a.clauses.clauses@,
            b.watches@ == a.watches@,
            b.propagation_queue@ == a.propagation_queue@,
            b.heuristic.wf(),
            b.heuristic.num_vars() == a.heuristic.num_vars(),
            forall|v: int| 0 <= v <= a.num_vars && #[trigger] a.heuristic.contains(v) ==> b.heuristic.contains(v),
            b.heuristic.contains(l.var_id()),
        ensures
            b.wf_undoing(),
    {
        let n = a.assignments.trail.len() as int;
        let x = l.var_id();
        assert(a.assignments.lit_true(a.assignments.trail@[n - 1]));
        assert forall|i: int| 0 <= i < n - 1 implies a.assignments.tvar(i) != x by {
            assert(a.assignments.tvar(i) != a.assignments.tvar(n - 1));
        }
        assert forall|y: Lit| y.var_id() != x implies (b.lit_true(y) == a.lit_true(y)
            && b.lit_false(y) == a.lit_false(y)) by {}
        assert forall|c: int| 0 <= c < b.ncl() implies {
            &&& #[trigger] b.cl(c).len() >= 2
            &&& forall|k: int| 0 <= k < b.cl(c).len() ==> b.valid_lit(#[trigger] b.cl(c)[k])
        } by {
            assert(a.cl(c) == b.cl(c));
        }
        assert(b.wf_clauses());
        assert(b.wf_watches());
        assert(b.wf_queue());
        assert forall|i: int| 0 <= i < b.assignments.trail.len() implies match #[trigger] b.assignments.reasons@[b.assignments.tvar(i)] {
            Some(c) => b.justifies(c as int, b.assignments.trail@[i], i),
            None => true,
        } by {
            assert(a.assignments.valid_var(a.assignments.tvar(i)));
            let r = a.assignments.reasons@[a.assignments.tvar(i)];
            assert(b.assignments.reasons@[b.assignments.tvar(i)] == r);
            match r {
                Some(c) => {
                    assert(a.justifies(c as int, a.assignments.trail@[i], i));
                    assert(b.cl(c as int) == a.cl(c as int));
                    assert forall|j: int| 0 <= j < i implies b.assignments.values@[#[trigger] a.assignments.tvar(j)]
                        == a.assignments.values@[a.assignments.tvar(j)] by {
                        assert(a.assignments.tvar(j) != x);
                    }
                    Self::lemma_justifies_prefix(a, b, c as int, a.assignments.trail@[i], i);
                },
                None => {},
            }
        }
        assert forall|u: int|
            1 <= u <= b.num_vars && !#[trigger] b.assignments.assigned(u) implies b.heuristic.contains(u) by {
            if u != x {
                assert(!a.assignments.assigned(u));
            }
        }
        assert(b.wf_heuristic());
    }

    /// Undoes the last decision level, putting its variables back in the heuristic's pool, and
    /// returns its decision; `None` at the root level.
    fn backtrack(&mut self) -> (r: Option<Decision>)
        requires
            old(self).wf(),
            old(self).propagation_queue.len() == 0,
        ensures
            final(self).wf(),
            final(self).propagation_queue.len() == 0,
            final(self).num_vars == old(self).num_vars,
            final(self).clauses.clauses@ == old(self).clauses.clauses@,
            final(self).watches@ == old(self).watches@,
            final(self).heuristic.activity@ == old(self).heuristic.activity@,
            match r {
                None => {
                    &&& old(self).assignments.dl() == 0
                    &&& final(self).assignments == old(self).assignments
                },
                Some(dec) => {
                    &&& old(self).assignments.dl() > 0
                    &&& dec == old(self).assignments.decisions@.last()
                    &&& final(self).assignments.lims@ == old(self).assignments.lims@.drop_last()
                    &&& final(self).assignments.decisions@ == old(self).assignments.decisions@.drop_last()
                    &&& final(self).assignments.trail@ == old(self).assignments.trail@.subrange(
                        0,
                        old(self).assignments.lims@.last() as int,
                    )
                    &&& !final(self).assignments.assigned(dec.var().id as int)
                    &&& 1 <= dec.var().id <= final(self).num_vars
                },
            },
            old(self).learning_inv() ==> final(self).learning_inv(),
            final(self).assignments.levels@ == old(self).assignments.levels@,
            forall|m: spec_fn(int) -> bool| old(self).sound(m) ==> #[trigger] final(self).sound(m),
            old(self).decs_on_trail() ==> final(self).decs_on_trail(),
    {
        if self.assignments.lims.len() == 0 {
            return None;
        }
        let lim = self.assignments.lims[self.assignments.lims.len() - 1];
        let ghost s0 = *self;
        while self.assignments.trail.len() > lim
            invariant
                self.wf_undoing(),
                lim == self.assignments.lims@.last(),
                self.num_vars == s0.num_vars,
                self.clauses.clauses@ == s0.clauses.clauses@,
                self.watches@ == s0.watches@,
                self.heuristic.activity@ == s0.heuristic.activity@,
                self.assignments.lims@ == s0.assignments.lims@,
                self.assignments.decisions@ == s0.assignments.decisions@,
                self.assignments.trail.len() <= s0.assignments.trail.len(),
                self.assignments.trail@ == s0.assignments.trail@.subrange(0, self.assignments.trail.len() as int),
                self.assignments.levels@ == s0.assignments.levels@,
                self.assignments.reasons@ == s0.assignments.reasons@,
                s0 == *old(self),
            decreases self.assignments.trail.len(),
        {
            let ghost a = *self;
            let l = self.assignments.pop_assignment();
            self.heuristic.var_insert(l.variable());
            proof {
                Self::lemma_pop_keeps_wf(a, *self, l);
                assert(self.assignments.trail@ =~= s0.assignments.trail@.subrange(0, self.assignments.trail.len() as int));
            }
        }
        let ghost a = *self;
        let dec = self.assignments.pop_backtrack_point();
        proof {
            Self::lemma_same_assignment(a, *self, 0);
            if s0.learning_inv() {
                assert forall|i: int, k: int|
                    0 <= k < self.assignments.lims.len() && #[trigger] self.assignments.lims@[k] < i
                        < self.assignments.trail.len() && #[trigger] self.assignments.level_of(self.assignments.tvar(i)) == k + 1
                        implies self.assignments.reasons@[self.assignments.tvar(i)] is Some by {
                    assert(s0.assignments.lims@[k] == self.assignments.lims@[k]);
                    assert(s0.assignments.tvar(i) == self.assignments.tvar(i));
                    assert(s0.assignments.level_of(s0.assignments.tvar(i)) == k + 1);
                }
            }
            assert(self.assignments.trail@ =~= s0.assignments.trail@.subrange(0, lim as int));
            assert(self.assignments.lims@ =~= s0.assignments.lims@.subrange(0, self.assignments.lims.len() as int));
            assert(self.assignments.decisions@ =~= s0.assignments.decisions@.subrange(
                0,
                self.assignments.lims.len() as int,
            ));
            Self::lemma_prefix_sound(s0, *self);
        }
        Some(dec)
    }
}

impl Solver {
    /// When clauses are learnt, every assignment of a decision level, but its decision, is implied
    /// by a clause.
    pub open spec fn learning_inv(&self) -> bool {
        forall|i: int, k: int|
            0 <= k < self.assignments.lims.len() && #[trigger] self.assignments.lims@[k] < i
                < self.assignments.trail.len() && #[trigger] self.assignments.level_of(self.assignments.tvar(i)) == k + 1
                ==> self.assignments.reasons@[self.assignments.tvar(i)] is Some
    }

    /// Undoes decision levels down to `lvl`. Returns the decision of level `lvl + 1`, the last one
    /// undone, or `None` if the current level is not above `lvl`.
    #[verifier::rlimit(100)]
    fn backtrack_to(&mut self, lvl: DecisionLevel) -> (r: Option<Decision>)
        requires
            old(self).wf(),
            old(self).propagation_queue.len() == 0,
        ensures
            final(self).wf(),
            final(self).propagation_queue.len() == 0,
            final(self).num_vars == old(self).num_vars,
            final(self).clauses.clauses@ == old(self).clauses.clauses@,
            final(self).watches@ == old(self).watches@,
            final(self).heuristic.activity@ == old(self).heuristic.activity@,
            old(self).learning_inv() ==> final(self).learning_inv(),
            final(self).assignments.levels@ == old(self).assignments.levels@,
            forall|m: spec_fn(int) -> bool| old(self).sound(m) ==> #[trigger] final(self).sound(m),
            old(self).decs_on_trail() ==> final(self).decs_on_trail(),
            if old(self).assignments.dl() <= lvl {
                &&& r is None
                &&& final(self).assignments == old(self).assignments
            } else {
                &&& r == Some(old(self).assignments.decisions@[lvl as int])
                &&& final(self).assignments.dl() == lvl
                &&& final(self).assignments.lims@ == old(self).assignments.lims@.subrange(0, lvl as int)
                &&& final(self).assignments.decisions@ == old(self).assignments.decisions@.subrange(0, lvl as int)
                &&& final(self).assignments.trail@ == old(self).assignments.trail@.subrange(
                    0,
                    old(self).assignments.lims@[lvl as int] as int,
                )
            },
    {
        let ghost s0 = *self;
        let mut last: Option<Decision> = None;
        while self.assignments.decision_level() > lvl
            invariant
                self.wf(),
                self.propagation_queue.len() == 0,
                self.num_vars == s0.num_vars,
                self.clauses.clauses@ == s0.clauses.clauses@,
                self.watches@ == s0.watches@,
                self.heuristic.activity@ == s0.heuristic.activity@,
                s0.learning_inv() ==> self.learning_inv(),
                self.assignments.dl() <= s0.assignments.dl(),
                self.assignments.levels@ == s0.assignments.levels@,
                s0.wf(),
                self.assignments.dl() == s0.assignments.dl() || self.assignments.dl() >= lvl,
                self.assignments.lims@ == s0.assignments.lims@.subrange(0, self.assignments.dl()),
                self.assignments.decisions@ == s0.assignments.decisions@.subrange(0, self.assignments.dl()),
                if self.assignments.dl() == s0.assignments.dl() {
                    &&& last is None
                    &&& self.assignments == s0.assignments
                } else {
                    &&& last == Some(s0.assignments.decisions@[self.assignments.dl()])
                    &&& self.assignments.trail@ == s0.assignments.trail@.subrange(
                        0,
                        s0.assignments.lims@[self.assignments.dl()] as int,
                    )
                },
            decreases self.assignments.dl(),
        {
            let ghost before = *self;
            last = self.backtrack();
            proof {
                let d = before.assignments.dl();
                assert(self.assignments.dl() == d - 1);
                assert(self.assignments.lims@ =~= s0.assignments.lims@.subrange(0, self.assignments.dl()));
                assert(self.assignments.decisions@ =~= s0.assignments.decisions@.subrange(0, self.assignments.dl()));
                assert(before.assignments.lims@.last() == s0.assignments.lims@[d - 1]);
                if d < s0.assignments.dl() {
                    assert(s0.assignments.lims@[d - 1] <= s0.assignments.lims@[d]);
                }
                assert(self.assignments.trail@ =~= s0.assignments.trail@.subrange(
                    0,
                    s0.assignments.lims@[self.assignments.dl()] as int,
                ));
            }
        }
        proof {
            if self.assignments.dl() == s0.assignments.dl() {
                Self::lemma_same_sound(s0, *self);
            } else {
                assert forall|k: int|
                    self.assignments.lims.len() <= k < s0.assignments.lims.len() implies #[trigger] s0.assignments.lims@[k]
                        >= self.assignments.trail.len() by {
                    assert(s0.assignments.lims@[self.assignments.dl()] <= s0.assignments.lims@[k]);
                }
                Self::lemma_prefix_sound(s0, *self);
            }
        }
        last
    }
}

impl Solver {
    /// Storing a new clause of valid literals, with watches on valid clauses, keeps the invariant.
    proof fn lemma_new_clause_keeps_wf(a: Solver, b: Solver)
        requires
            a.wf(),
            b.num_vars == a.num_vars,
            b.assignments == a.assignments,
            b.propagation_queue@ == a.propagation_queue@,
            b.heuristic.wf(),
            b.heuristic.num_vars() == a.heuristic.num_vars(),
            b.heuristic.in_heap@ == a.heuristic.in_heap@,
            b.ncl() == a.ncl() + 1,
            forall|c: int| 0 <= c < a.ncl() ==> #[trigger] b.cl(c) == a.cl(c),
            b.cl(a.ncl()).len() >= 2,
            forall|k: int| 0 <= k < b.cl(a.ncl()).len() ==> b.valid_lit(#[trigger] b.cl(a.ncl())[k]),
            b.watches.len() == a.watches.len(),
            forall|l: int, k: int|
                0 <= l < b.watches.len() && 0 <= k < b.watches@[l].len() ==> #[trigger] b.watches@[l]@[k]
                    < b.ncl(),
        ensures
            b.wf(),
            a.learning_inv() ==> b.learning_inv(),
    {
        assert forall|c: int| 0 <= c < b.ncl() implies {
            &&& #[trigger] b.cl(c).len() >= 2
            &&& forall|k: int| 0 <= k < b.cl(c).len() ==> b.valid_lit(#[trigger] b.cl(c)[k])
        } by {
            if c < a.ncl() {
                assert(a.cl(c) == b.cl(c));
            }
        }
        assert(b.wf_clauses());
        assert(b.wf_watches());
        assert forall|i: int| 0 <= i < b.assignments.trail.len() implies match #[trigger] b.assignments.reasons@[b.assignments.tvar(i)] {
            Some(c) => b.justifies(c as int, b.assignments.trail@[i], i),
            None => true,
        } by {
            assert(a.assignments.valid_var(a.assignments.tvar(i)));
            let r = a.assignments.reasons@[a.assignments.tvar(i)];
            match r {
                Some(c) => {
                    assert(a.justifies(c as int, a.assignments.trail@[i], i));
                    assert(b.cl(c as int) == a.cl(c as int));
                    Self::lemma_justifies_transfer(a, b, c as int, a.assignments.trail@[i], i);
                },
                None => {},
            }
        }
        assert(b.wf_queue());
        assert forall|u: int|
            1 <= u <= b.num_vars && !#[trigger] b.assignments.assigned(u) implies b.heuristic.contains(u) by {
            assert(!a.assignments.assigned(u));
            assert(a.heuristic.contains(u));
        }
    }

    /// Adds the clause to the database, unless it has fewer than two literals. A learnt clause has
    /// its literal of highest decision level among all but the first moved to the second
    /// position, and the activities of its variables are bumped.
    fn add_clause(&mut self, lits: &[Lit], learnt: bool) -> (r: AddClauseRes)
        requires
            old(self).wf(),
            forall|k: int| 0 <= k < lits.len() ==> old(self).valid_lit(#[trigger] lits@[k]),
        ensures
            final(self).wf(),
            old(self).learning_inv() ==> final(self).learning_inv(),
            final(self).num_vars == old(self).num_vars,
            final(self).assignments == old(self).assignments,
            final(self).propagation_queue@ == old(self).propagation_queue@,
            final(self).heuristic.in_heap@ == old(self).heuristic.in_heap@,
            forall|c: int| 0 <= c < old(self).ncl() ==> #[trigger] final(self).cl(c) == old(self).cl(c),
            forall|m: spec_fn(int) -> bool| old(self).sound(m) && clause_holds(m, lits@) ==> #[trigger] final(self).sound(m),
            old(self).decs_on_trail() ==> final(self).decs_on_trail(),
            final(self).keeps_clauses(*old(self)),
            match r {
                AddClauseRes::Inconsistent => lits.len() == 0 && *final(self) == *old(self),
                AddClauseRes::Unit(l) => lits.len() == 1 && l == lits@[0] && *final(self) == *old(self),
                AddClauseRes::Complete(id) => {
                    &&& lits.len() >= 2
                    &&& id == old(self).ncl()
                    &&& final(self).ncl() == old(self).ncl() + 1
                    &&& final(self).watches.len() == old(self).watches.len()
                    &&& forall|c: int, w: int, d: int|
                        0 <= c < old(self).ncl() && 0 <= w < 2 && old(self).pos_ok(c, w, d) ==> #[trigger] final(self).pos_ok(c, w, d)
                    &&& forall|c: int| 0 <= c < old(self).ncl() && old(self).dup_ok(c) ==> #[trigger] final(self).dup_ok(c)
                    &&& final(self).watched(id as int, final(self).cl(id as int)[0])
                    &&& final(self).watched(id as int, final(self).cl(id as int)[1])
                    &&& final(self).dup_ok(id as int)
                    &&& ({
                        let i0 = final(self).cl(id as int)[0].neg().index();
                        let i1 = final(self).cl(id as int)[1].neg().index();
                        &&& forall|l: int|
                            0 <= l < old(self).watches.len() && l != i0 && l != i1 ==> #[trigger] final(self).watches@[l]
                                == old(self).watches@[l]
                        &&& i0 != i1 ==> final(self).watches@[i0]@ == old(self).watches@[i0]@.push(id)
                            && final(self).watches@[i1]@ == old(self).watches@[i1]@.push(id)
                        &&& i0 == i1 ==> final(self).watches@[i0]@ == old(self).watches@[i0]@.push(id).push(id)
                    })
                    &&& final(self).heuristic.activity@ == if learnt {
                        bumped(old(self).heuristic.activity@, final(self).cl(id as int))
                    } else {
                        old(self).heuristic.activity@
                    }
                    &&& !learnt ==> final(self).cl(id as int) == lits@
                    &&& learnt ==> exists|m: int|
                        1 <= m < lits.len() && final(self).cl(id as int) == lits@.update(1, lits@[m]).update(
                            m,
                            lits@[1],
                        ) && forall|k: int|
                            1 <= k < lits.len() ==> #[trigger] final(self).assignments.levels@[lits@[k].var_id()]
                                <= final(self).assignments.levels@[lits@[m].var_id()]
                },
            },
    {
        if lits.len() == 0 {
            proof {
                Self::lemma_keeps_same(*self, *self);
            }
            return AddClauseRes::Inconsistent;
        }
        if lits.len() == 1 {
            proof {
                Self::lemma_keeps_same(*self, *self);
            }
            return AddClauseRes::Unit(lits[0]);
        }
        let mut cl = Clause::new(lits, learnt);
        let ghost s0 = *self;
        let len = lits.len();
        let ghost mut sw_i: int = 1;
        if learnt {
            // the first literal is the first to watch; the second to watch is the one with the
            // highest decision level, moved to the second position
            let mut max_i: usize = 1;
            let mut max_lvl = self.assignments.level(cl.disjuncts[1].variable());
            let mut i: usize = 1;
            while i < len
                invariant
                    self.wf(),
                    1 <= max_i < len,
                    1 <= i <= len,
                    len == lits.len(),
                    cl.disjuncts@ == lits@,
                    forall|k: int| 0 <= k < lits.len() ==> self.valid_lit(#[trigger] lits@[k]),
                    max_lvl == self.assignments.levels@[lits@[max_i as int].var_id()],
                    forall|k: int| 1 <= k < i ==> #[trigger] self.assignments.levels@[lits@[k].var_id()] <= max_lvl,
                decreases len - i,
            {
                let lvl_i = self.assignments.level(cl.disjuncts[i].variable());
                if lvl_i > max_lvl {
                    max_i = i;
                    max_lvl = lvl_i;
                }
                i = i + 1;
            }
            let a = cl.disjuncts[1];
            let b = cl.disjuncts[max_i];
            cl.disjuncts.set(1, b);
            cl.disjuncts.set(max_i, a);
            proof {
                sw_i = max_i as int;
            }
            // adding a learnt clause, we must bump the activity of all its variables
            let mut j: usize = 0;
            while j < len
                invariant
                    self.wf_core(),
                    self.levels_nonempty(),
                    0 <= j <= len,
                    len == cl.disjuncts.len(),
                    forall|k: int| 0 <= k < len ==> self.valid_lit(#[trigger] cl.disjuncts@[k]),
                    self.heuristic.activity@ == bumped(s0.heuristic.activity@, cl.disjuncts@.take(j as int)),
                    self.num_vars == s0.num_vars,
                    self.assignments == s0.assignments,
                    self.propagation_queue@ == s0.propagation_queue@,
                    self.clauses.clauses@ == s0.clauses.clauses@,
                    self.watches@ == s0.watches@,
                    self.heuristic.in_heap@ == s0.heuristic.in_heap@,
                    self.heuristic.wf(),
                    self.heuristic.num_vars() == s0.heuristic.num_vars(),
                    s0.wf(),
                decreases len - j,
            {
                let ghost sb = *self;
                self.heuristic.var_bump_activity(cl.disjuncts[j].variable());
                proof {
                    Self::lemma_same_assignment(sb, *self, 0);
                    assert(cl.disjuncts@.take(j as int + 1).drop_last() =~= cl.disjuncts@.take(j as int));
                }
                j = j + 1;
            }
            proof {
                assert forall|k: int|
                    1 <= k < lits.len() implies #[trigger] self.assignments.levels@[lits@[k].var_id()]
                        <= self.assignments.levels@[lits@[max_i as int].var_id()] by {}
                assert(cl.disjuncts@.take(len as int) =~= cl.disjuncts@);
            }
        }
        // the two literals to watch
        let lit0 = cl.disjuncts[0];
        let lit1 = cl.disjuncts[1];
        let ghost new_lits = cl.disjuncts@;
        let ghost s1 = *self;
        let cl_id = self.clauses.add_clause(cl);
        let ghost s2 = *self;
        let i0 = lit0.negate().to_index();
        self.watches[i0].push(cl_id);
        let ghost s3 = *self;
        let i1 = lit1.negate().to_index();
        self.watches[i1].push(cl_id);
        proof {
            let id = cl_id as int;
            assert(s0.valid_lit(lit0) && s0.valid_lit(lit1));
            assert(0 <= i0 < s1.watches.len() && 0 <= i1 < s1.watches.len());
            assert forall|l: int, c: int| 0 <= l < s1.watches.len() implies #[trigger] count_from(self.watches@[l]@, 0, c)
                >= count_from(s1.watches@[l]@, 0, c) by {
                if l == i0 {
                    lemma_count_push(s2.watches@[l]@, cl_id, 0, c);
                }
                if l == i1 {
                    lemma_count_push(s3.watches@[l]@, cl_id, 0, c);
                }
            }
            Self::lemma_grow_kept(s1, *self);
            assert forall|k: int| 0 <= k < s1.watches@[i0 as int].len() implies s1.watches@[i0 as int]@[k] != cl_id by {
                assert(s1.watches@[i0 as int]@[k] < s1.ncl());
            }
            assert forall|k: int| 0 <= k < s1.watches@[i1 as int].len() implies s1.watches@[i1 as int]@[k] != cl_id by {
                assert(s1.watches@[i1 as int]@[k] < s1.ncl());
            }
            lemma_count_absent(s1.watches@[i0 as int]@, 0, id);
            lemma_count_absent(s1.watches@[i1 as int]@, 0, id);
            lemma_count_push(s2.watches@[i0 as int]@, cl_id, 0, id);
            lemma_count_push(s3.watches@[i1 as int]@, cl_id, 0, id);
            if i0 != i1 {
                assert(s3.watches@[i1 as int] == s1.watches@[i1 as int]);
            }
            assert(self.cl(id)[0] == lit0 && self.cl(id)[1] == lit1);
            assert(lit0.neg().index() == i0 && lit1.neg().index() == i1);
            assert(self.wcount(id, lit0) >= 1);
            assert(self.wcount(id, lit1) >= 1);
            if lit0 == lit1 {
                assert(self.wcount(id, lit0) >= 2);
            }
            assert(self.cl(cl_id as int) == new_lits);
            assert forall|c: int| 0 <= c < s1.ncl() implies #[trigger] self.cl(c) == s1.cl(c) by {}
            Self::lemma_new_clause_keeps_wf(s0, *self);
            assert(new_lits =~= lits@.update(1, lits@[sw_i]).update(sw_i, lits@[1]));
            Self::lemma_add_sound(s0, *self, lits@, sw_i);
        }
        AddClauseRes::Complete(cl_id)
    }
}

/// Number of positions `j` of the trail, `lo <= j < hi`, whose variable is marked in `seen`.
pub open spec fn count_seen(a: Assignments, seen: Seq<bool>, lo: int, hi: int) -> nat
    decreases hi - lo,
{
    if hi <= lo {
        0
    } else {
        count_seen(a, seen, lo, hi - 1) + (if seen[a.tvar(hi - 1)] { 1nat } else { 0nat })
    }
}

/// Marking the variable at trail position `j0` adds one to the count of the ranges holding `j0`.
pub(crate) proof fn lemma_count_update(a: Assignments, seen: Seq<bool>, v: int, j0: int, lo: int, hi: int)
    requires
        a.wf(),
        0 <= j0 < a.trail.len(),
        a.tvar(j0) == v,
        seen.len() == a.values.len(),
        !seen[v],
        0 <= lo,
        hi <= a.trail.len(),
    ensures
        count_seen(a, seen.update(v, true), lo, hi) == count_seen(a, seen, lo, hi) + (if lo <= j0 < hi {
            1nat
        } else {
            0nat
        }),
    decreases hi - lo,
{
    if hi > lo {
        lemma_count_update(a, seen, v, j0, lo, hi - 1);
        let s2 = seen.update(v, true);
        let x = a.tvar(hi - 1);
        assert(a.valid_var(a.tvar(j0)));
        assert(a.valid_var(x));
        if hi - 1 != j0 {
            assert(x != a.tvar(j0));
            assert(s2[x] == seen[x]);
        } else {
            assert(s2[x]);
        }
        assert(count_seen(a, s2, lo, hi) == count_seen(a, s2, lo, hi - 1) + (if s2[x] { 1nat } else { 0nat }));
        assert(count_seen(a, seen, lo, hi) == count_seen(a, seen, lo, hi - 1) + (if seen[x] { 1nat } else { 0nat }));
    }
}

/// A marked position in the range makes its count positive.
pub(crate) proof fn lemma_count_pos(a: Assignments, seen: Seq<bool>, j: int, lo: int, hi: int)
    requires
        lo <= j < hi,
        seen[a.tvar(j)],
    ensures
        count_seen(a, seen, lo, hi) >= 1,
    decreases hi - lo,
{
    if hi - 1 != j {
        lemma_count_pos(a, seen, j, lo, hi - 1);
    }
}

/// The count of a range is at most its length.
pub(crate) proof fn lemma_count_bound(a: Assignments, seen: Seq<bool>, lo: int, hi: int)
    requires
        lo <= hi,
    ensures
        count_seen(a, seen, lo, hi) <= hi - lo,
    decreases hi - lo,
{
    if hi > lo {
        lemma_count_bound(a, seen, lo, hi - 1);
    }
}

impl Solver {
    /// Appends to `out_reason` the negations of the literals of `clause`, but the first one when
    /// `op` names it: the true literals that imply the first literal, or that the clause
    /// contradicts.
    fn calc_reason(&self, clause: ClauseId, op: Option<Lit>, out_reason: &mut Vec<Lit>)
        requires
            self.wf(),
            clause < self.ncl(),
            old(out_reason).len() == 0,
            match op {
                Some(p) => self.cl(clause as int)[0] == p,
                None => true,
            },
        ensures
            ({
                let first: int = if op is Some { 1 } else { 0 };
                &&& final(out_reason).len() == self.cl(clause as int).len() - first
                &&& forall|k: int|
                    0 <= k < final(out_reason).len() ==> #[trigger] final(out_reason)@[k] == self.cl(
                        clause as int,
                    )[k + first].neg()
            }),
    {
        let first: usize = match op {
            Some(_) => 1,
            None => 0,
        };
        proof {
            assert(self.cl(clause as int).len() >= 2);
        }
        let len = self.clauses.clauses[clause].disjuncts.len();
        let mut i = first;
        while i < len
            invariant
                clause < self.ncl(),
                first <= i <= len,
                first <= 1,
                len == self.cl(clause as int).len(),
                out_reason.len() == i - first,
                forall|k: int| 0 <= k < out_reason.len() ==> #[trigger] out_reason@[k] == self.cl(clause as int)[k + first].neg(),
            decreases len - i,
        {
            let l = self.clauses.clauses[clause].disjuncts[i];
            out_reason.push(l.negate());
            i = i + 1;
        }
    }
}

impl Solver {
    /// The literals of `learnt`, but the first, are false, of distinct variables, set at positive
    /// decision levels below `d`, of which `bt` is the highest (zero if there are none).
    pub open spec fn learnt_tail_ok(&self, learnt: Seq<Lit>, bt: int, d: int) -> bool {
        &&& forall|k: int|
            1 <= k < learnt.len() ==> {
                &&& self.valid_lit(#[trigger] learnt[k])
                &&& self.lit_false(learnt[k])
                &&& 0 < self.assignments.level_of(learnt[k].var_id()) < d
                &&& self.assignments.level_of(learnt[k].var_id()) <= bt
            }
        &&& forall|k1: int, k2: int|
            1 <= k1 < k2 < learnt.len() ==> learnt[k1].var_id() != learnt[k2].var_id()
        &&& bt == 0 || exists|k: int| 1 <= k < learnt.len() && #[trigger] self.assignments.level_of(learnt[k].var_id()) == bt
    }

    /// Conflict analysis: from a violated clause, computes the first-UIP learnt clause and the
    /// level to backtrack to. The first literal of the learnt clause is the negation of the last
    /// literal of the current decision level that every implication path to the conflict goes
    /// through; the others are the false literals of lower levels on which the conflict depends.
    #[verifier::rlimit(100)]
    #[verifier::spinoff_prover]
    fn analyze(&self, original_clause: ClauseId) -> (res: (Vec<Lit>, DecisionLevel))
        requires
            self.wf(),
            self.learning_inv(),
            self.assignments.dl() > 0,
            original_clause < self.ncl(),
            self.violated(original_clause as int),
            self.assignments.level_of(self.cl(original_clause as int)[1].var_id()) == self.assignments.dl(),
        ensures
            res.0.len() >= 1,
            self.valid_lit(res.0@[0]),
            self.lit_false(res.0@[0]),
            self.assignments.level_of(res.0@[0].var_id()) == self.assignments.dl(),
            self.learnt_tail_ok(res.0@, res.1 as int, self.assignments.dl()),
            res.0.len() == 1 ==> res.1 == 0,
            res.1 < self.assignments.dl(),
            forall|m: spec_fn(int) -> bool| self.sound(m) ==> #[trigger] clause_holds(m, res.0@),
    {
        let ghost a = self.assignments;
        let ghost d = a.dl();
        let ghost n = a.trail.len() as int;
        let ghost lo = a.lims@[d - 1] as int;
        proof {
            assert(a.lims@[d - 1] < a.trail.len());
        }
        let nv = self.num_vars as usize + 1;
        let mut seen: Vec<bool> = Vec::new();
        while seen.len() < nv
            invariant
                nv == self.num_vars + 1,
                seen.len() <= nv,
                forall|v: int| 0 <= v < seen.len() ==> !seen@[v],
            decreases nv - seen.len(),
        {
            seen.push(false);
        }
        let mut counter: usize = 0;
        let mut p: Option<Lit> = None;
        let mut p_reason: Vec<Lit> = Vec::new();
        let mut out_learnt: Vec<Lit> = Vec::new();
        let mut out_btlevel: DecisionLevel = GROUND_LEVEL;
        let mut clause: Option<ClauseId> = Some(original_clause);
        let mut simulated_undone: usize = 0;
        out_learnt.push(Lit::dummy());
        let mut first = true;
        while first || counter > 0
            invariant
                self.wf(),
                self.learning_inv(),
                a == self.assignments,
                d == a.dl(),
                d > 0,
                n == a.trail.len(),
                lo == a.lims@[d - 1],
                0 <= lo < n,
                original_clause < self.ncl(),
                self.violated(original_clause as int),
                self.assignments.level_of(self.cl(original_clause as int)[1].var_id()) == d,
                seen.len() == self.num_vars + 1,
                forall|v: int| 0 <= v < seen.len() && #[trigger] seen@[v] ==> 1 <= v && a.assigned(v),
                simulated_undone <= n,
                first ==> {
                    &&& simulated_undone == 0
                    &&& counter == 0
                    &&& clause == Some(original_clause)
                    &&& p is None
                    &&& forall|v: int| 0 <= v < seen.len() ==> !#[trigger] seen@[v]
                    &&& out_learnt.len() == 1
                    &&& out_btlevel == 0
                },
                !first ==> {
                    let e = n - simulated_undone;
                    &&& simulated_undone >= 1
                    &&& lo <= e
                    &&& p == Some(a.trail@[e])
                    &&& seen@[a.tvar(e)]
                    &&& clause == a.reasons@[a.tvar(e)]
                    &&& counter == count_seen(a, seen@, lo, e)
                    &&& counter > 0 ==> clause is Some && self.justifies(clause->0 as int, a.trail@[e], e)
                },
                out_learnt.len() >= 1,
                self.learnt_tail_ok(out_learnt@, out_btlevel as int, d),
                forall|k: int| 1 <= k < out_learnt.len() ==> #[trigger] seen@[out_learnt@[k].var_id()],
                forall|v: int|
                    0 <= v < seen.len() && #[trigger] seen@[v] && 0 < a.level_of(v) < d ==> exists|k: int|
                        1 <= k < out_learnt.len() && #[trigger] out_learnt@[k].var_id() == v,
                !first ==> forall|m: spec_fn(int) -> bool|
                    self.sound(m) ==> #[trigger] resolvent_holds(a, m, seen@, out_learnt@, lo, n - simulated_undone + 1),
            decreases n - simulated_undone + (if first { 1int } else { 0int }),
        {
            let ghost was_first = first;
            let ghost su0 = simulated_undone;
            let ghost hi: int = if first { n } else { n - simulated_undone };
            first = false;
            p_reason.clear();
            let cid = clause.unwrap();
            self.calc_reason(cid, p, &mut p_reason);
            proof {
                // every literal of the reason is true, and set before `hi`
                assert forall|k: int| 0 <= k < p_reason.len() implies {
                    &&& self.valid_lit(#[trigger] p_reason@[k])
                    &&& self.lit_true(p_reason@[k])
                    &&& exists|j: int| 0 <= j < hi && a.tvar(j) == p_reason@[k].var_id()
                } by {
                    assert(self.cl(cid as int).len() >= 2);
                    if was_first {
                        let x = self.cl(cid as int)[k];
                        assert(self.lit_false(self.cl(cid as int)[k]));
                        assert(self.valid_lit(self.cl(cid as int)[k]));
                        assert(a.assigned(x.var_id()));
                        let j = choose|j: int| 0 <= j < a.trail.len() && a.tvar(j) == x.var_id();
                    } else {
                        let e = n - simulated_undone;
                        let x = self.cl(cid as int)[k + 1];
                        assert(self.justifies(cid as int, a.trail@[e], e));
                        assert(self.lit_false(self.cl(cid as int)[k + 1]));
                        assert(self.valid_lit(self.cl(cid as int)[k + 1]));
                        assert(self.set_before(x, e));
                    }
                }
                lemma_count_bound(a, seen@, lo, hi);
                if was_first {
                    assert(count_seen(a, seen@, lo, hi) == 0) by {
                        lemma_count_zero(a, seen@, lo, hi);
                    }
                }
            }
            let nr = p_reason.len();
            let mut r: usize = 0;
            let ghost c0 = counter;
            let ghost seen0 = seen@;
            let ghost learnt0 = out_learnt@;
            while r < nr
                invariant
                    self.wf(),
                    a == self.assignments,
                    d == a.dl(),
                    d > 0,
                    counter >= c0,
                    !was_first ==> c0 > 0,
                    n == a.trail.len(),
                    lo == a.lims@[d - 1],
                    0 <= lo <= hi <= n,
                    nr == p_reason.len(),
                    0 <= r <= nr,
                    forall|k: int| 0 <= k < p_reason.len() ==> {
                        &&& self.valid_lit(#[trigger] p_reason@[k])
                        &&& self.lit_true(p_reason@[k])
                        &&& exists|j: int| 0 <= j < hi && a.tvar(j) == p_reason@[k].var_id()
                    },
                    forall|k: int| 0 <= k < r ==> #[trigger] seen@[p_reason@[k].var_id()],
                    seen.len() == self.num_vars + 1,
                    forall|v: int| 0 <= v < seen.len() && #[trigger] seen@[v] ==> 1 <= v && a.assigned(v),
                    counter == count_seen(a, seen@, lo, hi),
                    out_learnt.len() >= 1,
                    self.learnt_tail_ok(out_learnt@, out_btlevel as int, d),
                    forall|k: int| 1 <= k < out_learnt.len() ==> #[trigger] seen@[out_learnt@[k].var_id()],
                    forall|v: int|
                        0 <= v < seen.len() && #[trigger] seen@[v] && 0 < a.level_of(v) < d ==> exists|k: int|
                            1 <= k < out_learnt.len() && #[trigger] out_learnt@[k].var_id() == v,
                    seen0.len() == seen.len(),
                    forall|v: int| 0 <= v < seen.len() && #[trigger] seen0[v] ==> seen@[v],
                    learnt0.len() <= out_learnt.len(),
                    forall|k: int| 0 <= k < learnt0.len() ==> #[trigger] out_learnt@[k] == learnt0[k],
                decreases nr - r,
            {
                let q = p_reason[r];
                let qvar = q.variable();
                let qi = qvar.to_index();
                if !seen[qi] {
                    let ghost old_seen = seen@;
                    let ghost ol = out_learnt@;
                    let ghost j0 = choose|j: int| 0 <= j < hi && a.tvar(j) == q.var_id();
                    seen.set(qi, true);
                    proof {
                        lemma_count_update(a, old_seen, q.var_id(), j0, lo, hi);
                        assert(a.valid_var(a.tvar(j0)));
                        assert(a.level_of(a.tvar(j0)) <= d);
                        assert(j0 < lo <==> a.level_of(a.tvar(j0)) <= d - 1);
                        lemma_count_bound(a, seen@, lo, hi);
                    }
                    let lvl = self.assignments.level(qvar);
                    if lvl == self.assignments.decision_level() {
                        counter = counter + 1;
                    } else if lvl > GROUND_LEVEL {
                        let ghost old_learnt = out_learnt@;
                        out_learnt.push(q.negate());
                        if lvl > out_btlevel {
                            out_btlevel = lvl;
                        }
                        proof {
                            assert(q.neg().neg() == q);
                            assert forall|k1: int, k2: int|
                                1 <= k1 < k2 < out_learnt.len() implies out_learnt@[k1].var_id() != out_learnt@[k2].var_id() by {
                                if k2 == out_learnt.len() - 1 {
                                    assert(old_seen[out_learnt@[k1].var_id()]);
                                }
                            }
                            if out_btlevel != 0 {
                                if out_btlevel == lvl {
                                    assert(self.assignments.level_of(out_learnt@[out_learnt.len() - 1].var_id()) == out_btlevel);
                                } else {
                                    let k = choose|k: int| 1 <= k < old_learnt.len() && #[trigger] self.assignments.level_of(old_learnt[k].var_id()) == out_btlevel;
                                    assert(self.assignments.level_of(out_learnt@[k].var_id()) == out_btlevel);
                                }
                            }
                        }
                    }
                    proof {
                        assert forall|v: int|
                            0 <= v < seen.len() && #[trigger] seen@[v] && 0 < a.level_of(v) < d implies exists|k: int|
                                1 <= k < out_learnt.len() && #[trigger] out_learnt@[k].var_id() == v by {
                            if v == qi {
                                let k = out_learnt.len() - 1;
                                assert(out_learnt@[k].var_id() == v);
                            } else {
                                assert(old_seen[v]);
                                let k = choose|k: int| 1 <= k < ol.len() && #[trigger] ol[k].var_id() == v;
                                assert(out_learnt@[k] == ol[k]);
                            }
                        }
                    }
                }
                r = r + 1;
            }
            proof {
                if was_first {
                    // the conflict clause has a literal of the current level
                    let x = self.cl(cid as int)[1];
                    assert(p_reason@[1] == x.neg());
                    assert(seen@[p_reason@[1].var_id()]);
                    let j = choose|j: int| 0 <= j < hi && a.tvar(j) == p_reason@[1].var_id();
                    assert(a.valid_var(a.tvar(j)));
                    assert(j < lo <==> a.level_of(a.tvar(j)) <= d - 1);
                    lemma_count_pos(a, seen@, j, lo, hi);
                }
                assert(counter > 0);
                assert(hi > lo);
                // the resolvent still holds under every sound model, with position `hi` resolved
                if !was_first {
                    assert(hi == n - su0);
                    assert(self.justifies(cid as int, a.trail@[hi], hi));
                }
                Self::lemma_resolve_all(
                    *self,
                    seen0,
                    learnt0,
                    seen@,
                    out_learnt@,
                    lo,
                    hi,
                    cid as int,
                    if was_first { 0 } else { 1 },
                    p_reason@,
                );
            }
            // walk back the trail to the last marked assignment
            proof {
                assert(su0 == simulated_undone);
            }
            let mut l = self.assignments.last_assignment(simulated_undone);
            simulated_undone = simulated_undone + 1;
            proof {
                assert(a.valid_var(a.tvar(n - simulated_undone)));
            }
            while !seen[l.variable().to_index()]
                invariant
                    self.wf(),
                    a == self.assignments,
                    n == a.trail.len(),
                    d == a.dl(),
                    d > 0,
                    lo == a.lims@[d - 1],
                    0 <= lo,
                    1 <= simulated_undone <= n,
                    simulated_undone > su0,
                    1 <= l.var_id() <= self.num_vars,
                    lo <= n - simulated_undone,
                    l == a.trail@[n - simulated_undone],
                    counter == count_seen(a, seen@, lo, n - simulated_undone + 1),
                    counter > 0,
                    seen.len() == self.num_vars + 1,
                    forall|x: int| n - simulated_undone < x < n - su0 ==> !#[trigger] seen@[a.tvar(x)],
                decreases n - simulated_undone,
            {
                proof {
                    let e = n - simulated_undone;
                    assert(a.valid_var(a.tvar(e)));
                    assert(count_seen(a, seen@, lo, e) == counter);
                }
                let ghost prev = n - simulated_undone;
                proof {
                    assert(!seen@[a.tvar(prev)]);
                }
                l = self.assignments.last_assignment(simulated_undone);
                simulated_undone = simulated_undone + 1;
                proof {
                    assert(a.valid_var(a.tvar(n - simulated_undone)));
                }
            }
            proof {
                let e = n - simulated_undone;
                Self::lemma_shrink_all(*self, seen@, out_learnt@, lo, hi, e + 1);
                assert(a.valid_var(a.tvar(e)));
                assert(count_seen(a, seen@, lo, e) == counter - 1);
                assert(a.level_of(a.tvar(e)) <= d);
                assert(!(e < lo));
                assert(a.level_of(a.tvar(e)) == d);
                if counter - 1 > 0 {
                    assert(e > lo);
                    assert(a.lims@[d - 1] < e < n && a.level_of(a.tvar(e)) == (d - 1) + 1);
                    assert(a.reasons@[a.tvar(e)] is Some);
                    assert(self.wf_reasons());
                }
            }
            p = Some(l);
            clause = self.assignments.reason(l.variable());
            counter = counter - 1;
        }
        let pl = p.unwrap();
        let ghost before_set = out_learnt@;
        out_learnt.set(0, pl.negate());
        proof {
            assert forall|k: int| 1 <= k < out_learnt.len() implies #[trigger] out_learnt@[k] == before_set[k] by {}
            assert forall|k: int| 1 <= k < out_learnt.len() implies #[trigger] self.valid_lit(out_learnt@[k]) by {
                assert(self.valid_lit(before_set[k]));
            }
            if out_btlevel != 0 {
                let k = choose|k: int| 1 <= k < before_set.len() && #[trigger] self.assignments.level_of(before_set[k].var_id()) == out_btlevel;
                assert(self.assignments.level_of(out_learnt@[k].var_id()) == out_btlevel);
            }
            let e = n - simulated_undone;
            assert(a.lit_true(a.trail@[e]));
            assert(a.valid_var(a.tvar(e)));
            assert(pl.neg().neg() == pl);
            assert forall|k: int| 1 <= k < out_learnt.len() implies #[trigger] out_learnt@[k] == out_learnt@[k] by {}
            assert(self.learnt_tail_ok(out_learnt@, out_btlevel as int, d)) by {
                assert forall|k: int| 1 <= k < out_learnt.len() implies {
                    &&& self.valid_lit(#[trigger] out_learnt@[k])
                    &&& self.lit_false(out_learnt@[k])
                    &&& 0 < self.assignments.level_of(out_learnt@[k].var_id()) < d
                    &&& self.assignments.level_of(out_learnt@[k].var_id()) <= out_btlevel
                } by {
                    assert(self.lit_false(before_set[k]));
                }
                assert forall|k1: int, k2: int|
                    1 <= k1 < k2 < out_learnt.len() implies out_learnt@[k1].var_id() != out_learnt@[k2].var_id() by {
                    assert(before_set[k1].var_id() != before_set[k2].var_id());
                }
            }
            if out_learnt.len() == 1 {
                assert(out_btlevel == 0);
            }
            // the learnt clause holds under every sound model
            Self::lemma_learnt_holds(*self, seen@, before_set, out_learnt@, lo, e);
        }
        (out_learnt, out_btlevel)
    }
}

/// A range whose positions are all unmarked counts zero.
pub(crate) proof fn lemma_count_zero(a: Assignments, seen: Seq<bool>, lo: int, hi: int)
    requires
        a.wf(),
        0 <= lo,
        hi <= a.trail.len(),
        forall|v: int| 0 <= v < seen.len() ==> !#[trigger] seen[v],
        seen.len() == a.values.len(),
    ensures
        count_seen(a, seen, lo, hi) == 0,
    decreases hi - lo,
{
    if hi > lo {
        lemma_count_zero(a, seen, lo, hi - 1);
        assert(a.valid_var(a.tvar(hi - 1)));
    }
}

impl Solver {
    /// Setting a literal with a reason, or at the root level, keeps the learning invariant; so does
    /// setting the decision of a new level.
    proof fn lemma_set_keeps_learning(old_s: Solver, new_s: Solver, lit: Lit, reason: Option<ClauseId>)
        requires
            old_s.assignments.wf(),
            old_s.learning_inv(),
            new_s.assignments.reasons@ == old_s.assignments.reasons@.update(lit.var_id(), reason),
            new_s.assignments.levels@ == old_s.assignments.levels@.update(lit.var_id(), old_s.assignments.dl() as u32),
            new_s.assignments.trail@ == old_s.assignments.trail@.push(lit),
            new_s.assignments.lims@ == old_s.assignments.lims@,
            !old_s.assignments.assigned(lit.var_id()),
            1 <= lit.var_id() < old_s.assignments.values.len(),
            reason is Some || old_s.assignments.dl() == 0 || (old_s.assignments.lims.len() > 0
                && old_s.assignments.lims@.last() == old_s.assignments.trail.len()),
        ensures
            new_s.learning_inv(),
    {
        let n = old_s.assignments.trail.len() as int;
        let v = lit.var_id();
        assert forall|i: int, k: int|
            0 <= k < new_s.assignments.lims.len() && #[trigger] new_s.assignments.lims@[k] < i
                < new_s.assignments.trail.len() && #[trigger] new_s.assignments.level_of(new_s.assignments.tvar(i)) == k + 1
                implies new_s.assignments.reasons@[new_s.assignments.tvar(i)] is Some by {
            if i < n {
                assert(old_s.assignments.lit_true(old_s.assignments.trail@[i]));
                assert(old_s.assignments.tvar(i) != v);
                assert(new_s.assignments.tvar(i) == old_s.assignments.tvar(i));
                assert(new_s.assignments.lims@[k] == old_s.assignments.lims@[k]);
                assert(old_s.assignments.level_of(old_s.assignments.tvar(i)) == k + 1);
                assert(old_s.assignments.reasons@[old_s.assignments.tvar(i)] is Some);
            } else {
                assert(new_s.assignments.tvar(i) == v);
                assert(new_s.assignments.level_of(v) == old_s.assignments.dl());
                if reason is None {
                    assert(old_s.assignments.dl() > 0);
                    assert(k == old_s.assignments.dl() - 1);
                    assert(old_s.assignments.lims@[k] == n);
                }
            }
        }
    }
}

/// Counters of the search.
pub struct Stats {
    pub conflicts: u64,
    pub decisions: u64,
    pub restarts: u64,
}

impl Default for Stats {
    fn default() -> (s: Stats)
        ensures
            s.conflicts == 0,
            s.decisions == 0,
            s.restarts == 0,
    {
        Stats { conflicts: 0, decisions: 0, restarts: 0 }
    }
}

/// Parameters of the search.
pub struct SearchParams {
    /// Number of conflicts allowed before the first restart.
    pub init_nof_conflict: usize,
    /// Whether conflicts are analysed to learn clauses; otherwise the last decision is flipped.
    pub use_learning: bool,
}

impl Default for SearchParams {
    fn default() -> (p: SearchParams)
        ensures
            p.init_nof_conflict == 100,
            p.use_learning,
    {
        SearchParams { init_nof_conflict: 100, use_learning: true }
    }
}

/// Measure of the search: first the conflicts still allowed, then either the assignments still
/// possible or, once the conflicts are exhausted, the decision level.
pub open spec fn search_measure_a(conflict_count: int, nof_conflicts: int) -> int {
    if conflict_count <= nof_conflicts {
        nof_conflicts + 1 - conflict_count
    } else {
        0
    }
}

impl Solver {
    pub open spec fn search_measure_b(&self, conflict_count: int, nof_conflicts: int) -> int {
        if conflict_count > nof_conflicts {
            self.assignments.dl()
        } else {
            self.num_vars - self.assignments.trail.len()
        }
    }

    /// Removing an assigned variable from the heuristic's pool keeps the invariant.
    proof fn lemma_heur_pop(a: Solver, b: Solver, v: int)
        requires
            a.wf(),
            b.num_vars == a.num_vars,
            b.assignments == a.assignments,
            b.clauses.clauses@ == a.clauses.clauses@,
            b.watches@ == a.watches@,
            b.propagation_queue@ == a.propagation_queue@,
            b.heuristic.wf(),
            b.heuristic.num_vars() == a.heuristic.num_vars(),
            b.heuristic.in_heap@ == a.heuristic.in_heap@.update(v, false),
            1 <= v <= a.num_vars,
            a.assignments.assigned(v),
        ensures
            b.wf(),
            a.learning_inv() ==> b.learning_inv(),
    {
        Self::lemma_same_assignment(a, b, 0);
    }

    /// A state in which the search from `a` met a conflict: well formed, keeping the clauses of
    /// `a`, its trail implied by its decisions under every model consistent with `a`, and a stored
    /// clause violated.
    pub open spec fn conflict_from(&self, a: Solver) -> bool {
        &&& self.wf()
        &&& self.keeps_clauses(a)
        &&& forall|m: spec_fn(int) -> bool| a.consistent(m) ==> #[trigger] self.sound(m)
        &&& exists|c: int| 0 <= c < self.ncl() && #[trigger] self.violated(c)
    }

    /// Searches for a model, from the root level, until `nof_conflicts` conflicts are exceeded.
    ///
    /// Returns `Some(true)` when every variable is set without conflict, `Some(false)` when a
    /// clause is violated at the root level, `None` if no answer was found within the conflict
    /// limit (back at the root level), which comes only after more than `nof_conflicts`
    /// conflicts. Models of the stored clauses and root literals stay models; after
    /// `Some(false)` there is none. Also returns the states in which the conflicts were met, each
    /// with a stored clause violated; `stats.conflicts` grows by their number (saturating).
    fn search(&mut self, nof_conflicts: usize, params: &SearchParams, stats: &mut Stats) -> (res: (
        Option<bool>,
        Ghost<Seq<Solver>>,
    ))
        requires
            old(self).wf(),
            old(self).assignments.dl() == 0,
            old(self).watch_full(),
        ensures
            final(self).wf(),
            final(self).num_vars == old(self).num_vars,
            final(stats).restarts == old(stats).restarts,
            final(stats).conflicts == if old(stats).conflicts + res.1@.len() <= u64::MAX {
                old(stats).conflicts + res.1@.len()
            } else {
                u64::MAX as int
            },
            forall|k: int| 0 <= k < res.1@.len() ==> #[trigger] res.1@[k].conflict_from(*old(self)),
            final(stats).decisions >= old(stats).decisions,
            res.0 is None ==> res.1@.len() > nof_conflicts,
            params.use_learning ==> final(self).learning_inv(),
            forall|m: spec_fn(int) -> bool| old(self).consistent(m) ==> #[trigger] final(self).consistent(m),
            res.0 == Some(false) ==> forall|m: spec_fn(int) -> bool| !#[trigger] old(self).consistent(m),
            final(self).keeps_clauses(*old(self)),
            old(self).watch_exact() ==> final(self).watch_exact(),
            match res.0 {
                Some(true) => {
                    &&& final(self).assignments.trail.len() == final(self).num_vars
                    &&& final(self).propagation_queue.len() == 0
                    &&& final(self).watch_full()
                },
                Some(false) => {
                    &&& final(self).assignments.dl() == 0
                    &&& exists|c: int| 0 <= c < final(self).ncl() && #[trigger] final(self).violated(c)
                },
                None => {
                    &&& final(self).assignments.dl() == 0
                    &&& final(self).propagation_queue.len() == 0
                    &&& final(self).watch_full()
                },
            },
    {
        let nof: u128 = nof_conflicts as u128;
        let mut conflict_count: u128 = 0;
        let ghost mut met: Seq<Solver> = Seq::empty();
        proof {
            assert forall|m: spec_fn(int) -> bool| old(self).consistent(m) implies #[trigger] self.sound(m) by {
                Self::lemma_sound_consistent(*self, m);
            }
            Self::lemma_keeps_same(*self, *self);
        }
        loop
            invariant
                self.wf(),
                forall|m: spec_fn(int) -> bool| old(self).consistent(m) ==> #[trigger] self.sound(m),
                self.decs_on_trail(),
                self.keeps_clauses(*old(self)),
                self.num_vars == old(self).num_vars,
                stats.restarts == old(stats).restarts,
                stats.conflicts == if old(stats).conflicts + conflict_count <= u64::MAX {
                    old(stats).conflicts + conflict_count
                } else {
                    u64::MAX as int
                },
                stats.decisions >= old(stats).decisions,
                params.use_learning ==> self.learning_inv(),
                nof == nof_conflicts,
                conflict_count <= nof + 1 + (self.num_vars - self.assignments.dl()),
                self.watch_full(),
                old(self).watch_exact() ==> self.watch_exact(),
                met.len() == conflict_count,
                forall|k: int| 0 <= k < met.len() ==> #[trigger] met[k].conflict_from(*old(self)),
            decreases search_measure_a(conflict_count as int, nof as int),
                self.search_measure_b(conflict_count as int, nof as int),
        {
            proof {
                lemma_trail_bound(self.assignments);
                lemma_dl_bound(self.assignments);
            }
            let ghost top = *self;
            let propagated = self.propagate();
            proof {
                Self::lemma_keeps_trans(*old(self), top, *self);
            }
            match propagated {
                Some(conflict) => {
                    stats.conflicts = stats.conflicts.saturating_add(1);
                    conflict_count = conflict_count + 1;
                    proof {
                        assert forall|m: spec_fn(int) -> bool| old(self).consistent(m) implies #[trigger] self.sound(m) by {
                            assert(top.sound(m));
                        }
                        assert(self.violated(conflict as int));
                        assert(self.conflict_from(*old(self)));
                        met = met.push(*self);
                        lemma_trail_bound(self.assignments);
                        lemma_dl_bound(self.assignments);
                    }
                    if self.assignments.decision_level() == self.assignments.root_level() {
                        proof {
                            assert forall|m: spec_fn(int) -> bool| !#[trigger] old(self).consistent(m) by {
                                if old(self).consistent(m) {
                                    assert(self.sound(m));
                                    assert(self.decs_hold(m, self.assignments.trail.len() as int));
                                    Self::lemma_all_trail_holds(*self, m);
                                    Self::lemma_refute(*self, m, conflict as int);
                                }
                            }
                        }
                        return (Some(false), Ghost(met));
                    }
                    if params.use_learning {
                        let (learnt_clause, backtrack_level) = self.analyze(conflict);
                        let ghost before_bt = *self;
                        match self.backtrack_to(backtrack_level) {
                            Some(_dec) => {},
                            None => {
                                // no decision left to undo
                                return (Some(false), Ghost(met));
                            },
                        }
                        proof {
                            Self::lemma_watch_lower(before_bt, before_bt.assignments.dl(), backtrack_level as int + 1);
                            Self::lemma_backtrack_watch(before_bt, *self, backtrack_level as int);
                            let a = before_bt.assignments;
                            let b = self.assignments;
                            assert forall|k: int| 0 <= k < learnt_clause.len() implies self.valid_lit(#[trigger] learnt_clause@[k]) by {}
                            assert forall|k: int| 1 <= k < learnt_clause.len() implies #[trigger] self.lit_false(learnt_clause@[k]) by {
                                let x = learnt_clause@[k];
                                assert(before_bt.lit_false(x));
                                lemma_backtrack_keeps(a, b, backtrack_level as int, x.neg());
                            }
                            lemma_backtrack_unassigns(a, b, backtrack_level as int, learnt_clause@[0].var_id());
                        }
                        let ghost before_add = *self;
                        proof {
                            Self::lemma_keeps_same(before_bt, before_add);
                            Self::lemma_keeps_trans(*old(self), before_bt, before_add);
                        }
                        let added_clause = self.add_clause(learnt_clause.as_slice(), true);
                        proof {
                            Self::lemma_keeps_trans(*old(self), before_add, *self);
                            if before_bt.watch_exact() {
                                Self::lemma_exact_same(before_bt, before_add);
                            }
                            if let AddClauseRes::Complete(id) = added_clause {
                                if before_add.watch_exact() {
                                    assert(self.valid_lit(self.cl(id as int)[0]) && self.valid_lit(self.cl(id as int)[1]));
                                    Self::lemma_add_keeps_exact(before_add, *self, id);
                                }
                            }
                        }
                        let ghost after_add = *self;
                        match added_clause {
                            AddClauseRes::Inconsistent => {
                                return (Some(false), Ghost(met));
                            },
                            AddClauseRes::Unit(l) => {
                                let ghost su = *self;
                                self.enqueue(l, None);
                                proof {
                                    if su.watch_exact() {
                                        Self::lemma_exact_same(su, *self);
                                    }
                                    Self::lemma_watch_inv_kept(su, *self, no_level_bound());
                                    Self::lemma_keeps_same(after_add, *self);
                                    Self::lemma_keeps_trans(*old(self), after_add, *self);
                                    assert forall|m: spec_fn(int) -> bool| old(self).consistent(m) implies #[trigger] self.sound(m) by {
                                        assert(before_bt.sound(m));
                                        assert(clause_holds(m, learnt_clause@));
                                        assert(before_add.sound(m));
                                        assert(su.sound(m));
                                        let k = choose|k: int| 0 <= k < learnt_clause@.len() && #[trigger] holds(m, learnt_clause@[k]);
                                        assert(holds(m, l));
                                    }
                                }
                            },
                            AddClauseRes::Complete(cl_id) => {
                                proof {
                                    let m = choose|m: int|
                                        1 <= m < learnt_clause.len() && self.cl(cl_id as int) == learnt_clause@.update(1, learnt_clause@[m]).update(
                                            m,
                                            learnt_clause@[1],
                                        ) && forall|k: int|
                                            1 <= k < learnt_clause.len() ==> #[trigger] self.assignments.levels@[learnt_clause@[k].var_id()]
                                                <= self.assignments.levels@[learnt_clause@[m].var_id()];
                                    assert forall|k: int| 1 <= k < self.cl(cl_id as int).len() implies #[trigger] self.lit_false(
                                        self.cl(cl_id as int)[k],
                                    ) by {
                                        if k == 1 {
                                            assert(before_add.lit_false(learnt_clause@[m]));
                                        } else if k == m {
                                            assert(before_add.lit_false(learnt_clause@[1]));
                                        } else {
                                            assert(before_add.lit_false(learnt_clause@[k]));
                                        }
                                    }
                                }
                                let ghost sc = *self;
                                self.enqueue(learnt_clause[0], Some(cl_id));
                                proof {
                                    if sc.watch_exact() {
                                        Self::lemma_exact_same(sc, *self);
                                    }
                                    let bt = backtrack_level as int;
                                    assert(before_bt.learnt_tail_ok(learnt_clause@, bt, before_bt.assignments.dl()));
                                    assert(bt > 0) by {
                                        assert(0 < before_bt.assignments.level_of(learnt_clause@[1].var_id()) <= bt);
                                    }
                                    let k0 = choose|k: int|
                                        1 <= k < learnt_clause.len() && #[trigger] before_bt.assignments.level_of(learnt_clause@[k].var_id()) == bt;
                                    assert(sc.assignments.level_of(learnt_clause@[k0].var_id()) == bt);
                                    assert forall|k: int| 1 <= k < learnt_clause.len() implies #[trigger] sc.assignments.level_of(
                                        learnt_clause@[k].var_id(),
                                    ) <= bt by {
                                        assert(before_bt.assignments.level_of(learnt_clause@[k].var_id()) <= bt);
                                    }
                                    assert forall|k: int| 1 <= k < learnt_clause.len() implies sc.lit_false(#[trigger] learnt_clause@[k]) by {
                                        assert(before_add.lit_false(learnt_clause@[k]));
                                    }
                                    Self::lemma_level_le_dl(*self, learnt_clause@[0]);
                                    assert forall|v: int| 0 <= v < sc.assignments.levels.len() && sc.assignments.assigned(v) implies #[trigger] self.assignments.levels@[v]
                                        == sc.assignments.levels@[v] by {
                                        assert(sc.assignments.assigned(v));
                                    }
                                    Self::lemma_learnt_watch(before_add, sc, *self, cl_id as int, learnt_clause@, bt);
                                    Self::lemma_keeps_same(after_add, *self);
                                    Self::lemma_keeps_trans(*old(self), after_add, *self);
                                    assert forall|m: spec_fn(int) -> bool| old(self).consistent(m) implies #[trigger] self.sound(m) by {
                                        assert(before_bt.sound(m));
                                        assert(clause_holds(m, learnt_clause@));
                                        assert(before_add.sound(m));
                                        assert(sc.sound(m));
                                    }
                                }
                            },
                        }
                    } else {
                        let ghost before_bt = *self;
                        match self.backtrack() {
                            Some(dec) => {
                                proof {
                                    Self::lemma_backtrack_watch(before_bt, *self, before_bt.assignments.dl() - 1);
                                }
                                let ghost sd = *self;
                                self.assume_decision(core::ops::Not::not(dec), None);
                                proof {
                                    if before_bt.watch_exact() {
                                        Self::lemma_exact_same(before_bt, *self);
                                    }
                                    Self::lemma_watch_inv_kept(sd, *self, no_level_bound());
                                    Self::lemma_keeps_same(before_bt, *self);
                                    Self::lemma_keeps_trans(*old(self), before_bt, *self);
                                    assert forall|m: spec_fn(int) -> bool| old(self).consistent(m) implies #[trigger] self.sound(m) by {
                                        assert(before_bt.sound(m));
                                        assert(sd.sound(m));
                                        Self::lemma_flip(before_bt, sd, conflict as int, dec, m);
                                    }
                                }
                            },
                            None => {
                                // no decision left to undo
                                return (Some(false), Ghost(met));
                            },
                        }
                    }
                    proof {
                        lemma_trail_bound(self.assignments);
                        lemma_dl_bound(self.assignments);
                    }
                },
                None => {
                    if self.num_vars as usize == self.assignments.num_assigned() {
                        // model found
                        proof {
                            assert forall|m: spec_fn(int) -> bool| old(self).consistent(m) implies #[trigger] self.consistent(m) by {
                                Self::lemma_sound_consistent(*self, m);
                            }
                        }
                        return (Some(true), Ghost(met));
                    } else if conflict_count > nof {
                        // reached bound on number of conflicts: cancel until root level
                        let ghost before_bt = *self;
                        self.backtrack_to(self.assignments.root_level());
                        proof {
                            if before_bt.assignments.dl() > 0 {
                                Self::lemma_watch_lower(before_bt, no_level_bound(), 1);
                                Self::lemma_backtrack_watch(before_bt, *self, 0);
                            } else {
                                assert(self.propagation_queue@ =~= before_bt.propagation_queue@);
                                Self::lemma_watch_fields(before_bt, *self, no_level_bound());
                            }
                            assert forall|m: spec_fn(int) -> bool| old(self).consistent(m) implies #[trigger] self.consistent(m) by {
                                assert(before_bt.sound(m));
                                Self::lemma_sound_consistent(*self, m);
                            }
                            Self::lemma_keeps_same(before_bt, *self);
                            Self::lemma_keeps_trans(*old(self), before_bt, *self);
                        }
                        return (None, Ghost(met));
                    } else {
                        proof {
                            lemma_trail_bound(self.assignments);
                        }
                        let mut next: Option<BVar> = None;
                        let ghost old_a = self.assignments;
                        while next.is_none()
                            invariant
                                next is None ==> self.wf(),
                                next is Some ==> self.wf_core_x(next->0.id as int) && self.levels_nonempty(),
                                self.watch_full(),
                                self.num_vars == old(self).num_vars,
                                params.use_learning ==> self.learning_inv(),
                                self.propagation_queue.len() == 0,
                                self.assignments == old_a,
                                forall|m: spec_fn(int) -> bool| old(self).consistent(m) ==> #[trigger] self.sound(m),
                                self.decs_on_trail(),
                                self.keeps_clauses(*old(self)),
                                old(self).watch_exact() ==> self.watch_exact(),
                                match next {
                                    Some(v) => 1 <= v.id <= self.num_vars && !self.assignments.assigned(v.id as int),
                                    None => exists|u: int| 1 <= u <= self.num_vars && !#[trigger] self.assignments.assigned(u),
                                },
                            decreases self.heuristic.heap.len() + (if next is None { 1int } else { 0int }),
                        {
                            let ghost hb = *self;
                            let nv = self.heuristic.next_var();
                            proof {
                                if hb.watch_exact() {
                                    Self::lemma_exact_same(hb, *self);
                                }
                                Self::lemma_watch_fields(hb, *self, no_level_bound());
                                Self::lemma_same_sound(hb, *self);
                                Self::lemma_keeps_same(hb, *self);
                                Self::lemma_keeps_trans(*old(self), hb, *self);
                            }
                            match nv {
                                Some(v) => {
                                    if !self.assignments.is_set(v) {
                                        next = Some(v);
                                        proof {
                                            Self::lemma_same_assignment(hb, *self, v.id as int);
                                        }
                                    } else {
                                        proof {
                                            Self::lemma_heur_pop(hb, *self, v.id as int);
                                        }
                                    }
                                },
                                None => {
                                    proof {
                                        let u = choose|u: int| 1 <= u <= self.num_vars && !#[trigger] self.assignments.assigned(u);
                                        assert(hb.heuristic.contains(u));
                                    }
                                },
                            }
                        }
                        let next = next.unwrap();
                        let ghost sd = *self;
                        self.decide(Decision::True(next));
                        proof {
                            if sd.watch_exact() {
                                Self::lemma_exact_same(sd, *self);
                            }
                            Self::lemma_watch_inv_kept(sd, *self, no_level_bound());
                            Self::lemma_keeps_same(sd, *self);
                            Self::lemma_keeps_trans(*old(self), sd, *self);
                        }
                        stats.decisions = stats.decisions.saturating_add(1);
                    }
                },
            }
        }
    }
}


/// The literals of each of the given clauses.
pub open spec fn clauses_view(cls: Seq<Box<[Lit]>>) -> Seq<Seq<Lit>> {
    Seq::new(cls.len(), |i: int| cls[i]@)
}

/// The largest variable identifier among the literals, 0 if there is none.
pub open spec fn max_var_lits(lits: Seq<Lit>) -> int
    decreases lits.len(),
{
    if lits.len() == 0 {
        0
    } else {
        let m = max_var_lits(lits.drop_last());
        if lits.last().var_id() > m {
            lits.last().var_id()
        } else {
            m
        }
    }
}

/// The largest variable identifier in the clauses, 0 if there is none.
pub open spec fn max_var(cls: Seq<Seq<Lit>>) -> int
    decreases cls.len(),
{
    if cls.len() == 0 {
        0
    } else {
        let m = max_var(cls.drop_last());
        let n = max_var_lits(cls.last());
        if n > m {
            n
        } else {
            m
        }
    }
}

/// The clauses that have at least two literals, in their order.
pub open spec fn long_clauses(cls: Seq<Seq<Lit>>) -> Seq<Seq<Lit>>
    decreases cls.len(),
{
    if cls.len() == 0 {
        Seq::empty()
    } else if cls.last().len() >= 2 {
        long_clauses(cls.drop_last()).push(cls.last())
    } else {
        long_clauses(cls.drop_last())
    }
}

/// The largest variable identifier of literals is zero or that of one of them.
proof fn lemma_max_var_lits_attained(lits: Seq<Lit>)
    ensures
        max_var_lits(lits) == 0 || exists|k: int| 0 <= k < lits.len() && #[trigger] lits[k].var_id() == max_var_lits(lits),
    decreases lits.len(),
{
    if lits.len() > 0 {
        lemma_max_var_lits_attained(lits.drop_last());
        if max_var_lits(lits) != 0 && max_var_lits(lits) == max_var_lits(lits.drop_last()) {
            let k = choose|k: int| 0 <= k < lits.drop_last().len() && #[trigger] lits.drop_last()[k].var_id()
                == max_var_lits(lits.drop_last());
            assert(lits[k] == lits.drop_last()[k]);
        } else if max_var_lits(lits) != 0 {
            assert(lits[lits.len() - 1].var_id() == max_var_lits(lits));
        }
    }
}

/// The largest variable identifier of clauses is zero or that of one of their literals.
proof fn lemma_max_var_attained(cls: Seq<Seq<Lit>>)
    ensures
        max_var(cls) == 0 || exists|i: int, k: int|
            0 <= i < cls.len() && 0 <= k < cls[i].len() && #[trigger] cls[i][k].var_id() == max_var(cls),
    decreases cls.len(),
{
    if cls.len() > 0 {
        let init = cls.drop_last();
        lemma_max_var_attained(init);
        lemma_max_var_lits_attained(cls.last());
        if max_var(cls) != 0 && max_var(cls) == max_var(init) {
            let (i, k) = choose|i: int, k: int|
                0 <= i < init.len() && 0 <= k < init[i].len() && #[trigger] init[i][k].var_id() == max_var(init);
            assert(cls[i] == init[i]);
        } else if max_var(cls) != 0 {
            let k = choose|k: int| 0 <= k < cls.last().len() && #[trigger] cls.last()[k].var_id() == max_var_lits(cls.last());
            assert(cls[cls.len() - 1][k].var_id() == max_var(cls));
        }
    }
}

/// The clauses of at least two literals are each kept, and nothing else is.
pub(crate) proof fn lemma_long_clauses_members(cls: Seq<Seq<Lit>>)
    ensures
        forall|i: int| #![trigger cls[i]] 0 <= i < cls.len() && cls[i].len() >= 2 ==> exists|j: int|
            0 <= j < long_clauses(cls).len() && #[trigger] long_clauses(cls)[j] == cls[i],
        forall|j: int| #![trigger long_clauses(cls)[j]] 0 <= j < long_clauses(cls).len() ==> exists|i: int|
            0 <= i < cls.len() && #[trigger] cls[i] == long_clauses(cls)[j] && cls[i].len() >= 2,
    decreases cls.len(),
{
    if cls.len() > 0 {
        let init = cls.drop_last();
        lemma_long_clauses_members(init);
        let l = long_clauses(cls);
        let li = long_clauses(init);
        if cls.last().len() >= 2 {
            assert(l == li.push(cls.last()));
        } else {
            assert(l == li);
        }
        assert forall|i: int| #![trigger cls[i]] 0 <= i < cls.len() && cls[i].len() >= 2 implies exists|j: int|
            0 <= j < l.len() && #[trigger] l[j] == cls[i] by {
            if i < cls.len() - 1 {
                assert(init[i] == cls[i]);
                let j = choose|j: int| 0 <= j < li.len() && #[trigger] li[j] == init[i];
                assert(l[j] == li[j]);
            } else {
                assert(l[l.len() - 1] == cls[i]);
            }
        }
        assert forall|j: int| #![trigger l[j]] 0 <= j < l.len() implies exists|i: int|
            0 <= i < cls.len() && #[trigger] cls[i] == l[j] && cls[i].len() >= 2 by {
            if j < li.len() {
                assert(l[j] == li[j]);
                let i = choose|i: int| 0 <= i < init.len() && #[trigger] init[i] == li[j] && init[i].len() >= 2;
                assert(cls[i] == init[i]);
            } else {
                assert(cls.last().len() >= 2);
                assert(l[j] == cls.last());
                assert(cls[cls.len() - 1] == l[j]);
            }
        }
    }
}

/// Every literal has a variable no larger than the maximum.
pub(crate) proof fn lemma_max_var_lits(lits: Seq<Lit>)
    ensures
        max_var_lits(lits) >= 0,
        forall|k: int| 0 <= k < lits.len() ==> #[trigger] lits[k].var_id() <= max_var_lits(lits),
        lits.len() > 0 && (forall|k: int| 0 <= k < lits.len() ==> 1 <= #[trigger] lits[k].var_id())
            ==> max_var_lits(lits) >= 1,
        (forall|k: int| 0 <= k < lits.len() ==> #[trigger] lits[k].var_id() <= MAX_VAR_ID)
            ==> max_var_lits(lits) <= MAX_VAR_ID,
    decreases lits.len(),
{
    if lits.len() > 0 {
        lemma_max_var_lits(lits.drop_last());
        assert forall|k: int| 0 <= k < lits.len() implies #[trigger] lits[k].var_id() <= max_var_lits(lits) by {
            if k < lits.len() - 1 {
                assert(lits.drop_last()[k] == lits[k]);
            }
        }
        if forall|k: int| 0 <= k < lits.len() ==> #[trigger] lits[k].var_id() <= MAX_VAR_ID {
            assert forall|k: int| 0 <= k < lits.drop_last().len() implies #[trigger] lits.drop_last()[k].var_id() <= MAX_VAR_ID by {
                assert(lits.drop_last()[k] == lits[k]);
            }
        }
        assert(lits[lits.len() - 1].var_id() == lits.last().var_id());
    }
}

/// Every literal of every clause has a variable no larger than the maximum.
pub(crate) proof fn lemma_max_var(cls: Seq<Seq<Lit>>)
    ensures
        max_var(cls) >= 0,
        forall|i: int, k: int|
            0 <= i < cls.len() && 0 <= k < cls[i].len() ==> #[trigger] cls[i][k].var_id() <= max_var(cls),
        (forall|i: int, k: int|
            0 <= i < cls.len() && 0 <= k < cls[i].len() ==> #[trigger] cls[i][k].var_id() <= MAX_VAR_ID)
            ==> max_var(cls) <= MAX_VAR_ID,
    decreases cls.len(),
{
    if cls.len() > 0 {
        let init = cls.drop_last();
        lemma_max_var(init);
        lemma_max_var_lits(cls.last());
        assert forall|i: int, k: int|
            0 <= i < cls.len() && 0 <= k < cls[i].len() implies #[trigger] cls[i][k].var_id() <= max_var(cls) by {
            if i < cls.len() - 1 {
                assert(init[i] == cls[i]);
                assert(init[i][k].var_id() <= max_var(init));
            } else {
                assert(cls.last()[k] == cls[i][k]);
            }
        }
        if forall|i: int, k: int|
            0 <= i < cls.len() && 0 <= k < cls[i].len() ==> #[trigger] cls[i][k].var_id() <= MAX_VAR_ID {
            assert forall|i: int, k: int|
                0 <= i < init.len() && 0 <= k < init[i].len() implies #[trigger] init[i][k].var_id() <= MAX_VAR_ID by {
                assert(init[i] == cls[i]);
                assert(cls[i][k].var_id() <= MAX_VAR_ID);
            }
            assert forall|k: int| 0 <= k < cls.last().len() implies #[trigger] cls.last()[k].var_id() <= MAX_VAR_ID by {
                assert(cls[cls.len() - 1][k].var_id() <= MAX_VAR_ID);
            }
        }
    }
}

impl Solver {
    /// Every clause is in exactly the watch lists of its first two literals: once in each, or
    /// twice in one when they are the same.
    pub open spec fn watch_exact(&self) -> bool {
        forall|c: int, l: int|
            0 <= c < self.ncl() && 0 <= l < self.watches.len() ==> #[trigger] count_from(self.watches@[l]@, 0, c)
                == (if l == self.cl(c)[0].neg().index() {
                1nat
            } else {
                0nat
            }) + (if l == self.cl(c)[1].neg().index() {
                1nat
            } else {
                0nat
            })
    }

    /// Number of times the clause `c` is expected in the watch list `l`: once for each of its
    /// first two literals whose negation has index `l`.
    pub open spec fn expected_watches(&self, c: int, l: int) -> nat {
        (if l == self.cl(c)[0].neg().index() {
            1nat
        } else {
            0nat
        }) + (if l == self.cl(c)[1].neg().index() {
            1nat
        } else {
            0nat
        })
    }

    /// `watch_exact` while the clauses `todo[i..]`, taken out of the list `pi`, wait to be
    /// visited: counted with that list, they complete it.
    pub open spec fn exact_pending(&self, pi: int, todo: Seq<ClauseId>, i: int) -> bool {
        forall|c: int, l: int|
            0 <= c < self.ncl() && 0 <= l < self.watches.len() ==> #[trigger] count_from(self.watches@[l]@, 0, c)
                + (if l == pi {
                count_from(todo, i, c)
            } else {
                0nat
            }) == self.expected_watches(c, l)
    }

    /// States with the same clauses and watch lists agree on `watch_exact`.
    proof fn lemma_exact_same(a: Solver, b: Solver)
        requires
            a.watch_exact(),
            b.clauses.clauses@ == a.clauses.clauses@,
            b.watches@ == a.watches@,
        ensures
            b.watch_exact(),
    {
        assert forall|c: int, l: int| 0 <= c < b.ncl() && 0 <= l < b.watches.len() implies #[trigger] count_from(
            b.watches@[l]@,
            0,
            c,
        ) == b.expected_watches(c, l) by {
            assert(b.cl(c) == a.cl(c));
            assert(b.watches@[l] == a.watches@[l]);
            assert(count_from(a.watches@[l]@, 0, c) == a.expected_watches(c, l));
        }
    }

    /// Visiting the clause `todo[i]` and putting it back in a single list, `dst`, keeps the
    /// count exact when its expected lists move from `pi` to `dst`.
    proof fn lemma_exact_step(a: Solver, b: Solver, pi: int, todo: Seq<ClauseId>, i: int, dst: int)
        requires
            a.exact_pending(pi, todo, i),
            0 <= i < todo.len(),
            0 <= todo[i] < a.ncl(),
            0 <= pi < a.watches.len(),
            0 <= dst < a.watches.len(),
            b.ncl() == a.ncl(),
            b.watches.len() == a.watches.len(),
            forall|c: int| 0 <= c < a.ncl() && c != todo[i] ==> #[trigger] b.cl(c) == a.cl(c),
            b.watches@[dst]@ == a.watches@[dst]@.push(todo[i]),
            forall|l: int| 0 <= l < a.watches.len() && l != dst ==> #[trigger] b.watches@[l] == a.watches@[l],
            forall|l: int|
                0 <= l < a.watches.len() ==> #[trigger] b.expected_watches(todo[i] as int, l) + (if l == pi {
                    1nat
                } else {
                    0nat
                }) == a.expected_watches(todo[i] as int, l) + (if l == dst {
                    1nat
                } else {
                    0nat
                }),
        ensures
            b.exact_pending(pi, todo, i + 1),
    {
        let cid = todo[i] as int;
        assert forall|c: int, l: int| 0 <= c < b.ncl() && 0 <= l < b.watches.len() implies #[trigger] count_from(
            b.watches@[l]@,
            0,
            c,
        ) + (if l == pi {
            count_from(todo, i + 1, c)
        } else {
            0nat
        }) == b.expected_watches(c, l) by {
            assert(count_from(a.watches@[l]@, 0, c) + (if l == pi {
                count_from(todo, i, c)
            } else {
                0nat
            }) == a.expected_watches(c, l));
            assert(count_from(todo, i, c) == (if todo[i] == c {
                1nat
            } else {
                0nat
            }) + count_from(todo, i + 1, c));
            if l == dst {
                lemma_count_push(a.watches@[dst]@, todo[i], 0, c);
            }
            if c != cid {
                assert(b.cl(c) == a.cl(c));
            } else {
                assert(b.expected_watches(cid, l) + (if l == pi {
                    1nat
                } else {
                    0nat
                }) == a.expected_watches(cid, l) + (if l == dst {
                    1nat
                } else {
                    0nat
                }));
            }
        }
    }

    /// Storing a clause, under the next identifier, in the watch lists of its first two literals
    /// keeps every clause in exactly those of its first two literals.
    proof fn lemma_add_keeps_exact(a: Solver, b: Solver, id: ClauseId)
        requires
            a.watch_exact(),
            a.wf_watches(),
            id == a.ncl(),
            b.ncl() == a.ncl() + 1,
            forall|c: int| 0 <= c < a.ncl() ==> #[trigger] b.cl(c) == a.cl(c),
            b.watches.len() == a.watches.len(),
            ({
                let i0 = b.cl(id as int)[0].neg().index();
                let i1 = b.cl(id as int)[1].neg().index();
                &&& 0 <= i0 < a.watches.len()
                &&& 0 <= i1 < a.watches.len()
                &&& forall|l: int|
                    0 <= l < a.watches.len() && l != i0 && l != i1 ==> #[trigger] b.watches@[l] == a.watches@[l]
                &&& i0 != i1 ==> b.watches@[i0]@ == a.watches@[i0]@.push(id) && b.watches@[i1]@ == a.watches@[i1]@.push(id)
                &&& i0 == i1 ==> b.watches@[i0]@ == a.watches@[i0]@.push(id).push(id)
            }),
        ensures
            b.watch_exact(),
    {
        let i0 = b.cl(id as int)[0].neg().index();
        let i1 = b.cl(id as int)[1].neg().index();
        assert forall|c: int, l: int| 0 <= c < b.ncl() && 0 <= l < b.watches.len() implies #[trigger] count_from(
            b.watches@[l]@,
            0,
            c,
        ) == (if l == b.cl(c)[0].neg().index() {
            1nat
        } else {
            0nat
        }) + (if l == b.cl(c)[1].neg().index() {
            1nat
        } else {
            0nat
        }) by {
            let s = a.watches@[l]@;
            assert forall|k: int| 0 <= k < s.len() implies s[k] != id by {
                assert(a.watches@[l]@[k] < a.ncl());
            }
            if l == i0 || l == i1 {
                if i0 == i1 {
                    lemma_count_push(s, id, 0, c);
                    lemma_count_push(s.push(id), id, 0, c);
                } else {
                    lemma_count_push(s, id, 0, c);
                }
            }
            if c == id as int {
                lemma_count_absent(s, 0, c);
            } else {
                assert(b.cl(c) == a.cl(c));
            }
        }
    }

    /// The literals of the stored clauses, in the order of their identifiers.
    pub open spec fn clause_seqs(&self) -> Seq<Seq<Lit>> {
        Seq::new(self.ncl() as nat, |c: int| self.cl(c))
    }

    /// Number of variables of the problem.
    pub fn num_vars(&self) -> (n: u32)
        ensures
            n == self.num_vars,
    {
        self.num_vars
    }

    /// Builds a solver for the given clauses, over the variables `1..=m` where `m` is the largest
    /// variable that occurs in them. Clauses with fewer than two literals are not stored.
    pub fn init(clauses: Vec<Box<[Lit]>>) -> (s: Solver)
        requires
            forall|i: int, k: int|
                0 <= i < clauses.len() && 0 <= k < clauses@[i]@.len() ==> 1 <= #[trigger] clauses@[i]@[k].var_id()
                    <= MAX_VAR_ID,
        ensures
            s.wf(),
            s.num_vars == max_var(clauses_view(clauses@)),
            s.clause_seqs() == long_clauses(clauses_view(clauses@)),
            forall|i: int|
                #![trigger clauses@[i]]
                0 <= i < clauses.len() && clauses@[i]@.len() >= 2 ==> exists|c: int|
                    0 <= c < s.ncl() && #[trigger] s.cl(c) == clauses@[i]@,
            forall|c: int|
                #![trigger s.cl(c)]
                0 <= c < s.ncl() ==> exists|i: int|
                    0 <= i < clauses.len() && #[trigger] clauses@[i]@ == s.cl(c),
            forall|i: int, k: int|
                0 <= i < clauses.len() && 0 <= k < clauses@[i]@.len() ==> #[trigger] clauses@[i]@[k].var_id() <= s.num_vars,
            s.num_vars == 0 || exists|i: int, k: int|
                0 <= i < clauses.len() && 0 <= k < clauses@[i]@.len() && #[trigger] clauses@[i]@[k].var_id() == s.num_vars,
            s.assignments.trail.len() == 0,
            s.assignments.dl() == 0,
            s.propagation_queue.len() == 0,
            s.learning_inv(),
            s.watch_full(),
            s.watch_exact(),
    {
        let ghost cv = clauses_view(clauses@);
        let mut biggest_var: u32 = 0;
        let mut i: usize = 0;
        while i < clauses.len()
            invariant
                i <= clauses.len(),
                cv == clauses_view(clauses@),
                biggest_var == max_var(cv.take(i as int)),
        decreases clauses.len() - i,
        {
            let cl: &[Lit] = &clauses[i];
            assert(cl@ == cv[i as int]);
            let mut j: usize = 0;
            while j < cl.len()
                invariant
                    i < clauses.len(),
                    j <= cl.len(),
                    cl@ == cv[i as int],
                    cv == clauses_view(clauses@),
                    biggest_var == (if max_var_lits(cl@.take(j as int)) > max_var(cv.take(i as int)) {
                        max_var_lits(cl@.take(j as int))
                    } else {
                        max_var(cv.take(i as int))
                    }),
                decreases cl.len() - j,
            {
                assert(cl@.take(j as int + 1).drop_last() =~= cl@.take(j as int));
                proof {
                    lemma_max_var(cv.take(i as int));
                    lemma_max_var_lits(cl@.take(j as int));
                }
                let id = cl[j].variable().id;
                if id > biggest_var {
                    biggest_var = id;
                }
                j = j + 1;
            }
            assert(cl@.take(j as int) =~= cl@);
            assert(cv.take(i as int + 1).drop_last() =~= cv.take(i as int));
            i = i + 1;
        }
        proof {
            assert(cv.take(i as int) =~= cv);
            lemma_max_var(cv);
            assert forall|a: int, k: int| 0 <= a < cv.len() && 0 <= k < cv[a].len() implies #[trigger] cv[a][k].var_id()
                <= MAX_VAR_ID by {
                assert(clauses@[a]@[k].var_id() <= MAX_VAR_ID);
            }
        }
        let n: usize = (biggest_var as usize + 1) * 2;
        let mut watches: Vec<Vec<ClauseId>> = Vec::new();
        while watches.len() < n
            invariant
                watches.len() <= n,
                forall|l: int| 0 <= l < watches.len() ==> #[trigger] watches@[l].len() == 0,
            decreases n - watches.len(),
        {
            watches.push(Vec::new());
        }
        let mut solver = Solver {
            num_vars: biggest_var,
            assignments: Assignments::new(biggest_var),
            clauses: ClauseDB::new(),
            watches,
            propagation_queue: Vec::new(),
            heuristic: Heur::init(biggest_var),
        };
        assert(solver.clause_seqs() =~= long_clauses(cv.take(0)));
        assert(solver.watch_full());
        let mut i: usize = 0;
        while i < clauses.len()
            invariant
                i <= clauses.len(),
                cv == clauses_view(clauses@),
                solver.wf(),
                solver.num_vars == biggest_var,
                biggest_var == max_var(cv),
                solver.assignments.trail.len() == 0,
                solver.assignments.dl() == 0,
                solver.propagation_queue.len() == 0,
                solver.clause_seqs() == long_clauses(cv.take(i as int)),
                solver.watch_full(),
                solver.watch_exact(),
                forall|a: int, k: int|
                    0 <= a < cv.len() && 0 <= k < cv[a].len() ==> 1 <= #[trigger] cv[a][k].var_id() <= biggest_var,
            decreases clauses.len() - i,
        {
            let ghost before = solver;
            let cl: &[Lit] = &clauses[i];
            assert(cl@ == cv[i as int]);
            assert forall|k: int| 0 <= k < cl.len() implies solver.valid_lit(#[trigger] cl@[k]) by {
                assert(1 <= cv[i as int][k].var_id() <= biggest_var);
            }
            let added = solver.add_clause(cl, false);
            proof {
                let dd = no_level_bound();
                if let AddClauseRes::Complete(id) = added {
                    assert forall|c: int, w: int| 0 <= c < solver.ncl() && 0 <= w < 2 implies #[trigger] solver.pos_ok(c, w, dd) by {
                        if c < before.ncl() {
                            assert(before.pos_ok(c, w, dd));
                        } else {
                            assert(c == id);
                            assert(!solver.assignments.assigned(solver.cl(c)[w].var_id())) by {
                                lemma_trail_bound(solver.assignments);
                                if solver.assignments.assigned(solver.cl(c)[w].var_id()) {
                                    let v = solver.cl(c)[w].var_id();
                                    assert(1 <= v < solver.assignments.values.len()) by {
                                        if v == 0 {
                                            assert(solver.assignments.values@[0] == BVal::Undef);
                                        }
                                    }
                                }
                            }
                        }
                    }
                    assert forall|c: int| 0 <= c < solver.ncl() implies #[trigger] solver.dup_ok(c) by {
                        if c < before.ncl() {
                            assert(before.dup_ok(c));
                        }
                    }
                }
                if let AddClauseRes::Complete(id) = added {
                    assert(solver.cl(id as int)[0] == cl@[0] && solver.cl(id as int)[1] == cl@[1]);
                    assert(solver.valid_lit(solver.cl(id as int)[0]) && solver.valid_lit(solver.cl(id as int)[1]));
                    Self::lemma_add_keeps_exact(before, solver, id);
                }
                assert(cv.take(i as int + 1).drop_last() =~= cv.take(i as int));
                assert(cv.take(i as int + 1).last() == cv[i as int]);
                assert(solver.clause_seqs() =~= long_clauses(cv.take(i as int + 1)));
            }
            i = i + 1;
        }
        assert(cv.take(i as int) =~= cv);
        proof {
            lemma_max_var(cv);
            lemma_max_var_attained(cv);
            assert forall|i: int, k: int|
                0 <= i < clauses.len() && 0 <= k < clauses@[i]@.len() implies #[trigger] clauses@[i]@[k].var_id()
                <= solver.num_vars by {
                assert(cv[i] == clauses@[i]@);
                assert(cv[i][k].var_id() <= max_var(cv));
            }
            if solver.num_vars != 0 {
                let (i, k) = choose|i: int, k: int|
                    0 <= i < cv.len() && 0 <= k < cv[i].len() && #[trigger] cv[i][k].var_id() == max_var(cv);
                assert(cv[i] == clauses@[i]@);
                assert(clauses@[i]@[k].var_id() == solver.num_vars);
            }
            lemma_long_clauses_members(cv);
            assert forall|i: int| #![trigger clauses@[i]] 0 <= i < clauses.len() && clauses@[i]@.len() >= 2 implies exists|c: int|
                0 <= c < solver.ncl() && #[trigger] solver.cl(c) == clauses@[i]@ by {
                assert(cv[i] == clauses@[i]@);
                let j = choose|j: int| 0 <= j < long_clauses(cv).len() && long_clauses(cv)[j] == cv[i];
                assert(solver.clause_seqs()[j] == solver.cl(j));
            }
            assert forall|c: int| #![trigger solver.cl(c)] 0 <= c < solver.ncl() implies exists|i: int|
                0 <= i < clauses.len() && #[trigger] clauses@[i]@ == solver.cl(c) by {
                assert(solver.clause_seqs()[c] == solver.cl(c));
                let i = choose|i: int| 0 <= i < cv.len() && cv[i] == long_clauses(cv)[c];
                assert(cv[i] == clauses@[i]@);
            }
        }
        solver
    }

    /// The range of the variables of the problem, from the first to the last.
    pub fn variables(&self) -> (r: core::ops::RangeInclusive<BVar>)
        requires
            1 <= self.num_vars <= MAX_VAR_ID,
        ensures
            r@.start.id == 1,
            r@.end.id == self.num_vars,
            !r@.exhausted,
    {
        core::ops::RangeInclusive::new(BVar::from_bits(1), BVar::from_bits(self.num_vars))
    }

    /// Whether every stored clause has a true literal in the current assignment.
    pub fn is_model_valid(&self) -> (r: bool)
        requires
            self.wf(),
        ensures
            r == self.model_valid(),
    {
        let mut c: usize = 0;
        while c < self.clauses.clauses.len()
            invariant
                self.wf(),
                c <= self.ncl(),
                forall|d: int| 0 <= d < c ==> #[trigger] self.satisfied(d),
            decreases self.ncl() - c,
        {
            let mut is_sat = false;
            let mut k: usize = 0;
            while k < self.clauses.clauses[c].disjuncts.len()
                invariant
                    self.wf(),
                    c < self.ncl(),
                    k <= self.cl(c as int).len(),
                    is_sat == exists|j: int| 0 <= j < k && #[trigger] self.lit_true(self.cl(c as int)[j]),
                decreases self.cl(c as int).len() - k,
            {
                if self.is_set(self.clauses.clauses[c].disjuncts[k]) {
                    is_sat = true;
                }
                k = k + 1;
            }
            if !is_sat {
                assert(!self.satisfied(c as int));
                return false;
            }
            c = c + 1;
        }
        true
    }
}

/// `b` to the power `e`.
pub open spec fn pow_nat(b: nat, e: nat) -> nat
    decreases e,
{
    if e == 0 {
        1
    } else {
        b * pow_nat(b, (e - 1) as nat)
    }
}

/// Conflict budget of the search that follows `k` restarts: the initial budget times `1.5^k`,
/// rounded down.
pub open spec fn restart_budget(init: nat, k: nat) -> nat {
    (init * pow_nat(3, k)) / pow_nat(2, k)
}

/// Conflict budget of the search that follows `k` restarts, as handed to it: capped to the
/// machine word.
pub open spec fn capped_budget(init: nat, k: nat) -> nat {
    if restart_budget(init, k) > usize::MAX {
        usize::MAX as nat
    } else {
        restart_budget(init, k)
    }
}

/// Least number of conflicts met by the searches after `0..k` restarts: each gave up only after
/// meeting more conflicts than its budget.
pub open spec fn spent_budgets(init: nat, k: nat) -> nat
    decreases k,
{
    if k == 0 {
        0
    } else {
        spent_budgets(init, (k - 1) as nat) + capped_budget(init, (k - 1) as nat) + 1
    }
}

/// From `a` to `b`, `k` searches gave up and were restarted: the restart counter grew by `k`
/// (saturating), and the conflict counter by at least the conflicts those searches met.
pub open spec fn restarts_after(a: Stats, b: Stats, init: nat, k: nat) -> bool {
    &&& b.restarts == (if a.restarts + k <= u64::MAX {
        a.restarts + k
    } else {
        u64::MAX as int
    })
    &&& (b.conflicts == u64::MAX || b.conflicts >= a.conflicts + spent_budgets(init, k))
}

proof fn lemma_pow_pos(b: nat, e: nat)
    requires
        b >= 1,
    ensures
        pow_nat(b, e) >= 1,
    decreases e,
{
    if e > 0 {
        lemma_pow_pos(b, (e - 1) as nat);
        assert(b * pow_nat(b, (e - 1) as nat) >= 1) by (nonlinear_arith)
            requires
                b >= 1,
                pow_nat(b, (e - 1) as nat) >= 1,
        ;
    }
}

impl Solver {
    /// Searches for a model, restarting after each search that exhausts its conflict budget;
    /// the budget starts at `params.init_nof_conflict` and grows by half at each restart.
    ///
    /// Returns `Some(true)` when a total assignment without conflict is found, `Some(false)` when
    /// a clause is violated at the root level. Once the budget can no longer grow and the last
    /// search exhausted it, the question is settled by trying, in order, every assignment of the
    /// variables; so an answer always comes. Whatever the answer, the clauses it started with stay
    /// stored, each with the same literals, and every model of them and of the root literals stays
    /// one; each clause that was in exactly the watch lists of its first two literals still is.
    /// `Some(true)` comes with an assignment that satisfies every clause it started with;
    /// `Some(false)` means there is no model: the clauses learnt on the way, and the literals set
    /// at the root level, follow from those the search started with. `stats.restarts` grows by the
    /// number of searches that gave up, and `stats.conflicts` by at least the conflicts they met,
    /// each more than its budget.
    pub fn solve(&mut self, params: &SearchParams, stats: &mut Stats) -> (r: Option<bool>)
        requires
            old(self).wf(),
            old(self).assignments.dl() == 0,
            old(self).watch_full(),
        ensures
            final(self).wf(),
            final(self).num_vars == old(self).num_vars,
            params.use_learning ==> final(self).learning_inv(),
            forall|m: spec_fn(int) -> bool| old(self).consistent(m) ==> #[trigger] final(self).consistent(m),
            r == Some(false) ==> forall|m: spec_fn(int) -> bool| !#[trigger] old(self).consistent(m),
            final(self).keeps_clauses(*old(self)),
            r == Some(true) ==> final(self).satisfies_clauses_of(*old(self)),
            final(stats).conflicts >= old(stats).conflicts,
            final(stats).decisions >= old(stats).decisions,
            exists|k: nat| #[trigger] restarts_after(*old(stats), *final(stats), params.init_nof_conflict as nat, k),
            r is Some,
            old(self).watch_exact() ==> final(self).watch_exact(),
            r == Some(true) ==> {
                &&& final(self).assignments.trail.len() == final(self).num_vars
                &&& final(self).propagation_queue.len() == 0
                &&& final(self).model_valid()
            },
            r == Some(false) ==> final(self).assignments.dl() == 0,
    {
        let ghost init = params.init_nof_conflict as nat;
        let mut num: u128 = params.init_nof_conflict as u128;
        let mut den: u128 = 1;
        let ghost mut k: nat = 0;
        assert(pow_nat(3, 0) == 1 && pow_nat(2, 0) == 1);
        assert(num == init * pow_nat(3, 0));
        proof {
            Self::lemma_keeps_same(*self, *self);
        }
        loop
            invariant
                self.wf(),
                self.assignments.dl() == 0,
                self.num_vars == old(self).num_vars,
                self.watch_full(),
                forall|m: spec_fn(int) -> bool| old(self).consistent(m) ==> #[trigger] self.consistent(m),
                self.keeps_clauses(*old(self)),
                stats.conflicts >= old(stats).conflicts,
                stats.conflicts == u64::MAX || stats.conflicts >= old(stats).conflicts + spent_budgets(init, k),
                stats.decisions >= old(stats).decisions,
                init == params.init_nof_conflict,
                num == init * pow_nat(3, k),
                den == pow_nat(2, k),
                old(self).watch_exact() ==> self.watch_exact(),
                stats.restarts == if old(stats).restarts + k <= u64::MAX {
                    old(stats).restarts + k
                } else {
                    u64::MAX as int
                },
            decreases u128::MAX - den,
        {
            proof {
                lemma_pow_pos(2, k);
            }
            let budget: u128 = num / den;
            assert(budget == restart_budget(init, k));
            let nof: usize = if budget > usize::MAX as u128 {
                usize::MAX
            } else {
                budget as usize
            };
            assert(nof == capped_budget(init, k));
            let ghost before = *self;
            let ghost c0 = stats.conflicts;
            let (answer, Ghost(met)) = self.search(nof, params, stats);
            proof {
                Self::lemma_keeps_trans(*old(self), before, *self);
            }
            match answer {
                Some(is_sat) => {
                    proof {
                        if is_sat {
                            Self::lemma_model_found(*self);
                            Self::lemma_model_keeps(*old(self), *self);
                        } else {
                            assert forall|m: spec_fn(int) -> bool| !#[trigger] old(self).consistent(m) by {
                                if old(self).consistent(m) {
                                    assert(before.consistent(m));
                                }
                            }
                        }
                        assert forall|m: spec_fn(int) -> bool| old(self).consistent(m) implies #[trigger] self.consistent(m) by {
                            assert(before.consistent(m));
                        }
                        assert(stats.conflicts >= c0);
                        assert(stats.conflicts == u64::MAX || stats.conflicts >= old(stats).conflicts + spent_budgets(init, k));
                        assert(restarts_after(*old(stats), *stats, params.init_nof_conflict as nat, k));
                    }
                    return Some(is_sat);
                },
                None => {
                    // no answer within the budget: restart with a larger one
                    stats.restarts = stats.restarts.saturating_add(1);
                    proof {
                        assert(spent_budgets(init, k + 1) == spent_budgets(init, k) + capped_budget(init, k) + 1);
                        assert(met.len() > nof);
                        assert(pow_nat(3, k + 1) == 3 * pow_nat(3, k));
                        assert(pow_nat(2, k + 1) == 2 * pow_nat(2, k));
                        assert(init * pow_nat(3, k + 1) == init * pow_nat(3, k) * 3) by (nonlinear_arith)
                            requires
                                pow_nat(3, k + 1) == 3 * pow_nat(3, k),
                        ;
                    }
                    if num > u128::MAX / 3 || den > u128::MAX / 2 {
                        // the budget can no longer grow: settle the question by enumeration
                        let ghost last = *self;
                        let found = self.settle_by_enumeration();
                        proof {
                            if last.watch_exact() {
                                Self::lemma_exact_same(last, *self);
                            }
                            Self::lemma_keeps_same(last, *self);
                            Self::lemma_keeps_trans(*old(self), last, *self);
                            if found {
                                Self::lemma_model_keeps(*old(self), *self);
                            } else {
                                assert forall|m: spec_fn(int) -> bool| !#[trigger] old(self).consistent(m) by {
                                    if old(self).consistent(m) {
                                        assert(last.consistent(m));
                                    }
                                }
                            }
                            assert forall|m: spec_fn(int) -> bool| old(self).consistent(m) implies #[trigger] self.consistent(m) by {
                                assert(last.consistent(m));
                            }
                        }
                        assert(restarts_after(*old(stats), *stats, params.init_nof_conflict as nat, k + 1));
                        return Some(found);
                    }
                    num = num * 3;
                    den = den * 2;
                    proof {
                        k = k + 1;
                    }
                },
            }
        }
    }
}

/// Undoing a decision level gives back the trail, the levels and the decisions as they were
/// before the level was opened, whatever was propagated within it; the decision undone is the one
/// that opened it. `b` is a state reached from `a` by `decide(dec)` and propagation at the new
/// level, and `c`, with `r`, what `backtrack` gives from `b`.
pub proof fn lemma_backtrack_undoes_decide(a: Solver, b: Solver, c: Solver, dec: Decision, r: Option<Decision>)
    requires
        a.wf(),
        b.assignments.lims@ == a.assignments.lims@.push(a.assignments.trail.len() as usize),
        b.assignments.decisions@ == a.assignments.decisions@.push(dec),
        a.assignments.trail@.push(dec_lit(dec)).is_prefix_of(b.assignments.trail@),
        r is Some,
        r->0 == b.assignments.decisions@.last(),
        c.assignments.lims@ == b.assignments.lims@.drop_last(),
        c.assignments.decisions@ == b.assignments.decisions@.drop_last(),
        c.assignments.trail@ == b.assignments.trail@.subrange(0, b.assignments.lims@.last() as int),
    ensures
        r == Some(dec),
        c.assignments.trail@ == a.assignments.trail@,
        c.assignments.lims@ == a.assignments.lims@,
        c.assignments.decisions@ == a.assignments.decisions@,
{
    assert(c.assignments.lims@ =~= a.assignments.lims@);
    assert(c.assignments.decisions@ =~= a.assignments.decisions@);
    assert(c.assignments.trail@ =~= a.assignments.trail@);
}

/// The activities after bumping, in order, the variable of each literal of `lits`: each bump adds
/// one, saturating.
pub open spec fn bumped(act: Seq<u64>, lits: Seq<Lit>) -> Seq<u64>
    decreases lits.len(),
{
    if lits.len() == 0 {
        act
    } else {
        let a = bumped(act, lits.drop_last());
        let v = lits.last().var_id();
        a.update(v, if a[v] < u64::MAX { (a[v] + 1) as u64 } else { u64::MAX })
    }
}

/// The literal that a decision makes true.
pub open spec fn dec_lit(dec: Decision) -> Lit {
    match dec {
        Decision::True(v) => v.spec_lit(true),
        Decision::False(v) => v.spec_lit(false),
    }
}

} // verus!
