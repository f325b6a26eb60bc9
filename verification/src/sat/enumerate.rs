use vstd::prelude::*;
use crate::sat::assignments::lemma_trail_bound;
use crate::sat::entail::{clause_holds, holds};
use crate::sat::lits::{lemma_neg_props, BVal, BVar, Decision, Lit, MAX_VAR_ID};
use crate::sat::solver::{dec_lit, Solver};

verus! {

broadcast use lemma_neg_props;

/// The total assignment that gives each variable `v` below `vals.len()` the value `vals[v]`, and
/// false to the others.
pub open spec fn model_of(vals: Seq<bool>) -> spec_fn(int) -> bool {
    |v: int| 0 <= v < vals.len() && vals[v]
}

/// The two assignments give the same value to each of the variables `1..=n`.
pub open spec fn agree_upto(m1: spec_fn(int) -> bool, m2: spec_fn(int) -> bool, n: int) -> bool {
    forall|v: int| 1 <= v <= n ==> #[trigger] m1(v) == m2(v)
}

impl Solver {
    /// Whether an assignment is consistent with a state depends only on the values it gives to
    /// the variables of the state.
    pub(crate) proof fn lemma_consistent_local(s: Solver, m1: spec_fn(int) -> bool, m2: spec_fn(int) -> bool)
        requires
            s.wf(),
            agree_upto(m1, m2, s.num_vars as int),
        ensures
            s.consistent(m1) == s.consistent(m2),
    {
        assert forall|c: int| 0 <= c < s.ncl() implies #[trigger] clause_holds(m1, s.cl(c)) == clause_holds(m2, s.cl(c)) by {
            assert forall|k: int| 0 <= k < s.cl(c).len() implies #[trigger] holds(m1, s.cl(c)[k]) == holds(m2, s.cl(c)[k]) by {
                assert(s.valid_lit(s.cl(c)[k]));
                assert(m1(s.cl(c)[k].var_id()) == m2(s.cl(c)[k].var_id()));
            }
            if clause_holds(m1, s.cl(c)) {
                let k = choose|k: int| 0 <= k < s.cl(c).len() && #[trigger] holds(m1, s.cl(c)[k]);
                assert(holds(m2, s.cl(c)[k]));
            }
            if clause_holds(m2, s.cl(c)) {
                let k = choose|k: int| 0 <= k < s.cl(c).len() && #[trigger] holds(m2, s.cl(c)[k]);
                assert(holds(m1, s.cl(c)[k]));
            }
        }
        assert forall|i: int| 0 <= i < s.assignments.trail.len() implies #[trigger] holds(m1, s.assignments.trail@[i])
            == holds(m2, s.assignments.trail@[i]) by {
            assert(s.assignments.valid_var(s.assignments.tvar(i)));
            assert(m1(s.assignments.tvar(i)) == m2(s.assignments.tvar(i)));
        }
        if s.db_holds(m1) {
            assert forall|c: int| 0 <= c < s.ncl() implies #[trigger] clause_holds(m2, s.cl(c)) by {
                assert(clause_holds(m1, s.cl(c)));
            }
        }
        if s.db_holds(m2) {
            assert forall|c: int| 0 <= c < s.ncl() implies #[trigger] clause_holds(m1, s.cl(c)) by {
                assert(clause_holds(m2, s.cl(c)));
            }
        }
        if s.root_holds(m1) {
            assert forall|i: int|
                0 <= i < s.assignments.trail.len() && (s.assignments.lims.len() == 0 || i
                    < s.assignments.lims@[0]) implies #[trigger] holds(m2, s.assignments.trail@[i]) by {
                assert(holds(m1, s.assignments.trail@[i]));
            }
        }
        if s.root_holds(m2) {
            assert forall|i: int|
                0 <= i < s.assignments.trail.len() && (s.assignments.lims.len() == 0 || i
                    < s.assignments.lims@[0]) implies #[trigger] holds(m1, s.assignments.trail@[i]) by {
                assert(holds(m2, s.assignments.trail@[i]));
            }
        }
    }

    /// Emptying the propagation queue keeps a state well formed.
    proof fn lemma_empty_queue_wf(a: Solver, b: Solver)
        requires
            a.wf(),
            b.propagation_queue.len() == 0,
            b.num_vars == a.num_vars,
            b.assignments == a.assignments,
            b.clauses == a.clauses,
            b.watches == a.watches,
            b.heuristic == a.heuristic,
        ensures
            b.wf(),
    {
        assert(b.wf_queue());
        assert(b.assignments.wf());
        assert forall|c: int| #[trigger] b.cl(c) == a.cl(c) by {}
        assert forall|i: int| 0 <= i < b.assignments.trail.len() implies match #[trigger] b.assignments.reasons@[b.assignments.tvar(i)] {
            Some(c) => b.justifies(c as int, b.assignments.trail@[i], i),
            None => true,
        } by {
            let u = a.assignments.tvar(i);
            assert(a.assignments.valid_var(u));
            match a.assignments.reasons@[u] {
                Some(c) => {
                    assert(a.justifies(c as int, a.assignments.trail@[i], i));
                    assert(b.cl(c as int) == a.cl(c as int));
                    Self::lemma_justifies_prefix(a, b, c as int, a.assignments.trail@[i], i);
                },
                None => {},
            }
        }
        assert(b.wf_clauses());
        assert(b.wf_watches());
        assert(b.wf_reasons());
        assert(b.wf_heuristic_x(0));
        assert(b.wf_core_x(0));
        assert(b.levels_nonempty());
    }

    /// Whether the state is consistent with the assignment that gives each variable `v` the value
    /// `vals[v]`: every stored clause and every literal of the trail holds under it.
    pub(crate) fn consistent_with(&self, vals: &Vec<bool>) -> (r: bool)
        requires
            self.wf(),
            self.assignments.dl() == 0,
            vals.len() == self.num_vars + 1,
        ensures
            r == self.consistent(model_of(vals@)),
    {
        let ghost m = model_of(vals@);
        let mut all = true;
        let mut c: usize = 0;
        while c < self.clauses.clauses.len()
            invariant
                self.wf(),
                vals.len() == self.num_vars + 1,
                m == model_of(vals@),
                0 <= c <= self.ncl(),
                all == forall|j: int| 0 <= j < c ==> #[trigger] clause_holds(m, self.cl(j)),
            decreases self.ncl() - c,
        {
            let lits = &self.clauses.clauses[c].disjuncts;
            let mut found = false;
            let mut k: usize = 0;
            while k < lits.len()
                invariant
                    self.wf(),
                    vals.len() == self.num_vars + 1,
                    m == model_of(vals@),
                    0 <= c < self.ncl(),
                    lits@ == self.cl(c as int),
                    0 <= k <= lits.len(),
                    found == exists|j: int| 0 <= j < k && #[trigger] holds(m, self.cl(c as int)[j]),
                decreases lits.len() - k,
            {
                let l = lits[k];
                proof {
                    assert(self.valid_lit(self.cl(c as int)[k as int]));
                }
                let v = l.variable().to_index();
                if vals[v] == l.is_positive() {
                    assert(holds(m, self.cl(c as int)[k as int]));
                    found = true;
                } else {
                    assert(!holds(m, self.cl(c as int)[k as int]));
                }
                k += 1;
            }
            proof {
                assert(found == clause_holds(m, self.cl(c as int)));
                assert(all && found <==> forall|j: int| 0 <= j < c + 1 ==> #[trigger] clause_holds(m, self.cl(j))) by {
                    if !found {
                        assert(!clause_holds(m, self.cl(c as int)));
                    }
                }
            }
            all = all && found;
            c += 1;
        }
        let mut i: usize = 0;
        while i < self.assignments.trail.len()
            invariant
                self.wf(),
                self.assignments.dl() == 0,
                vals.len() == self.num_vars + 1,
                m == model_of(vals@),
                0 <= i <= self.assignments.trail.len(),
                all == (self.db_holds(m) && forall|j: int| 0 <= j < i ==> #[trigger] holds(m, self.assignments.trail@[j])),
            decreases self.assignments.trail.len() - i,
        {
            let l = self.assignments.trail[i];
            proof {
                assert(self.assignments.valid_var(self.assignments.tvar(i as int)));
            }
            let v = l.variable().to_index();
            let h = vals[v] == l.is_positive();
            assert(h == holds(m, self.assignments.trail@[i as int]));
            proof {
                assert(all && h <==> (self.db_holds(m) && forall|j: int| 0 <= j < i + 1 ==> #[trigger] holds(m, self.assignments.trail@[j]))) by {
                    if !h {
                        assert(!holds(m, self.assignments.trail@[i as int]));
                    }
                }
            }
            all = all && h;
            i += 1;
        }
        all
    }

    /// Searches, in order, the assignments of the variables `v..=n` that keep the values of
    /// `vals` below `v`, for one under which the state is consistent, and leaves the first found
    /// in `vals`. Returns false if there is none.
    pub(crate) fn extend_model(&self, vals: &mut Vec<bool>, v: usize) -> (r: bool)
        requires
            self.wf(),
            self.assignments.dl() == 0,
            old(vals).len() == self.num_vars + 1,
            1 <= v <= self.num_vars + 1,
        ensures
            final(vals).len() == old(vals).len(),
            forall|u: int| 0 <= u < v ==> #[trigger] final(vals)@[u] == old(vals)@[u],
            r ==> self.consistent(model_of(final(vals)@)),
            !r ==> forall|m: spec_fn(int) -> bool|
                (forall|u: int| 1 <= u < v ==> #[trigger] m(u) == old(vals)@[u]) ==> !#[trigger] self.consistent(m),
        decreases self.num_vars + 1 - v,
    {
        if v > self.num_vars as usize {
            let r = self.consistent_with(vals);
            proof {
                if !r {
                    assert forall|m: spec_fn(int) -> bool|
                        (forall|u: int| 1 <= u < v ==> #[trigger] m(u) == old(vals)@[u]) implies !#[trigger] self.consistent(m) by {
                        assert forall|u: int| 1 <= u <= self.num_vars implies #[trigger] m(u) == model_of(vals@)(u) by {
                            assert(m(u) == old(vals)@[u]);
                        }
                        Self::lemma_consistent_local(*self, m, model_of(vals@));
                    }
                }
            }
            return r;
        }
        let ghost v0 = old(vals)@;
        vals.set(v, true);
        let ghost v1 = vals@;
        if self.extend_model(vals, v + 1) {
            return true;
        }
        vals.set(v, false);
        let ghost v2 = vals@;
        let r = self.extend_model(vals, v + 1);
        proof {
            if !r {
                assert forall|m: spec_fn(int) -> bool|
                    (forall|u: int| 1 <= u < v ==> #[trigger] m(u) == v0[u]) implies !#[trigger] self.consistent(m) by {
                    if m(v as int) {
                        assert forall|u: int| 1 <= u < v + 1 implies #[trigger] m(u) == v1[u] by {
                            if u < v {
                                assert(m(u) == v0[u]);
                            }
                        }
                    } else {
                        assert forall|u: int| 1 <= u < v + 1 implies #[trigger] m(u) == v2[u] by {
                            if u < v {
                                assert(m(u) == v0[u]);
                            }
                        }
                    }
                }
            }
        }
        r
    }

    /// Sets each variable left unset to the value `vals` gives it, each by a decision of its own,
    /// and empties the propagation queue. `vals` must agree with the state.
    pub(crate) fn install_model(&mut self, vals: &Vec<bool>)
        requires
            old(self).wf(),
            old(self).assignments.dl() == 0,
            old(self).propagation_queue.len() == 0,
            vals.len() == old(self).num_vars + 1,
            old(self).consistent(model_of(vals@)),
        ensures
            final(self).wf(),
            final(self).num_vars == old(self).num_vars,
            final(self).clauses.clauses@ == old(self).clauses.clauses@,
            final(self).watches@ == old(self).watches@,
            final(self).assignments.trail.len() == final(self).num_vars,
            final(self).propagation_queue.len() == 0,
            final(self).model_valid(),
            old(self).learning_inv() ==> final(self).learning_inv(),
            forall|m: spec_fn(int) -> bool| #[trigger] old(self).consistent(m) ==> final(self).consistent(m),
    {
        let ghost m = model_of(vals@);
        let ghost s0 = *self;
        let ghost t0 = self.assignments.trail.len() as int;
        let n = self.num_vars;
        let mut v: u32 = 1;
        while v <= n
            invariant
                self.wf(),
                self.propagation_queue.len() == 0,
                self.num_vars == n,
                n == s0.num_vars,
                vals.len() == n + 1,
                m == model_of(vals@),
                self.clauses.clauses@ == s0.clauses.clauses@,
                self.watches@ == s0.watches@,
                s0.assignments.trail@.is_prefix_of(self.assignments.trail@),
                t0 == s0.assignments.trail.len(),
                self.assignments.lims.len() + t0 == self.assignments.trail.len(),
                self.assignments.lims.len() > 0 ==> self.assignments.lims@[0] == t0,
                forall|i: int| 0 <= i < self.assignments.trail.len() ==> #[trigger] holds(m, self.assignments.trail@[i]),
                forall|u: int| 1 <= u < v ==> #[trigger] self.assignments.assigned(u),
                1 <= v <= n + 1,
                s0.learning_inv() ==> self.learning_inv(),
            decreases n + 1 - v,
        {
            let var = BVar::from_bits(v);
            match self.assignments.get(var) {
                BVal::Undef => {
                    let dec = if vals[v as usize] {
                        Decision::True(var)
                    } else {
                        Decision::False(var)
                    };
                    proof {
                        lemma_trail_bound(self.assignments);
                    }
                    let ghost before = *self;
                    self.decide(dec);
                    let ghost mid = *self;
                    self.propagation_queue = Vec::new();
                    proof {
                        Self::lemma_empty_queue_wf(mid, *self);
                        assert(holds(m, dec_lit(dec)));
                        assert forall|i: int| 0 <= i < self.assignments.trail.len() implies #[trigger] holds(
                            m,
                            self.assignments.trail@[i],
                        ) by {
                            if i < before.assignments.trail.len() {
                                assert(self.assignments.trail@[i] == before.assignments.trail@[i]);
                            }
                        }
                        assert forall|u: int| 1 <= u < v + 1 implies #[trigger] self.assignments.assigned(u) by {
                            if u < v {
                                assert(before.assignments.assigned(u));
                                let i = choose|i: int|
                                    0 <= i < before.assignments.trail.len() && before.assignments.tvar(i) == u;
                                assert(self.assignments.trail@[i] == before.assignments.trail@[i]);
                                assert(self.assignments.lit_true(self.assignments.trail@[i]));
                            } else {
                                assert(self.lit_true(dec_lit(dec)));
                            }
                        }
                        assert(s0.assignments.trail@.is_prefix_of(self.assignments.trail@)) by {
                            assert forall|i: int| 0 <= i < t0 implies s0.assignments.trail@[i]
                                == self.assignments.trail@[i] by {
                                assert(s0.assignments.trail@[i] == before.assignments.trail@[i]);
                            }
                        }
                    }
                },
                _ => {},
            }
            v += 1;
        }
        proof {
            lemma_trail_bound(self.assignments);
            assert forall|c: int| 0 <= c < self.ncl() implies #[trigger] self.satisfied(c) by {
                assert(s0.cl(c) == self.cl(c));
                assert(clause_holds(m, s0.cl(c)));
                let k = choose|k: int| 0 <= k < self.cl(c).len() && #[trigger] holds(m, self.cl(c)[k]);
                let l = self.cl(c)[k];
                assert(self.valid_lit(l));
                assert(self.assignments.assigned(l.var_id()));
                let i = choose|i: int| 0 <= i < self.assignments.trail.len() && self.assignments.tvar(i) == l.var_id();
                assert(holds(m, self.assignments.trail@[i]));
                assert(self.assignments.lit_true(self.assignments.trail@[i]));
                assert(self.lit_true(self.cl(c)[k]));
            }
            assert forall|mm: spec_fn(int) -> bool| #[trigger] s0.consistent(mm) implies self.consistent(mm) by {
                assert forall|c: int| 0 <= c < self.ncl() implies #[trigger] clause_holds(mm, self.cl(c)) by {
                    assert(s0.cl(c) == self.cl(c));
                }
                assert forall|i: int|
                    0 <= i < self.assignments.trail.len() && (self.assignments.lims.len() == 0 || i
                        < self.assignments.lims@[0]) implies #[trigger] holds(mm, self.assignments.trail@[i]) by {
                    assert(i < t0);
                    assert(self.assignments.trail@[i] == s0.assignments.trail@[i]);
                }
            }
        }
    }

    /// Tries, in order, every assignment of the variables for one consistent with the state.
    /// If there is one, sets the variables left unset to the first found, each by a decision of
    /// its own, and returns true; otherwise changes nothing and returns false.
    pub(crate) fn settle_by_enumeration(&mut self) -> (r: bool)
        requires
            old(self).wf(),
            old(self).assignments.dl() == 0,
            old(self).propagation_queue.len() == 0,
        ensures
            final(self).wf(),
            final(self).num_vars == old(self).num_vars,
            final(self).clauses.clauses@ == old(self).clauses.clauses@,
            final(self).watches@ == old(self).watches@,
            old(self).learning_inv() ==> final(self).learning_inv(),
            forall|m: spec_fn(int) -> bool| #[trigger] old(self).consistent(m) ==> final(self).consistent(m),
            r ==> {
                &&& final(self).assignments.trail.len() == final(self).num_vars
                &&& final(self).propagation_queue.len() == 0
                &&& final(self).model_valid()
            },
            !r ==> *final(self) == *old(self),
            !r ==> forall|m: spec_fn(int) -> bool| !#[trigger] old(self).consistent(m),
    {
        let mut vals: Vec<bool> = Vec::new();
        let mut i: u32 = 0;
        while i <= self.num_vars
            invariant
                vals.len() == i,
                i <= self.num_vars + 1,
                self.num_vars <= MAX_VAR_ID,
            decreases self.num_vars + 1 - i,
        {
            vals.push(false);
            i += 1;
        }
        if self.extend_model(&mut vals, 1) {
            self.install_model(&vals);
            true
        } else {
            proof {
                assert forall|m: spec_fn(int) -> bool| !#[trigger] self.consistent(m) by {
                    assert(forall|u: int| 1 <= u < 1 ==> #[trigger] m(u) == vals@[u]);
                }
            }
            false
        }
    }
}

} // verus!
