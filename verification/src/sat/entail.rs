use vstd::prelude::*;
use crate::sat::assignments::{Assignments, ClauseId};
use crate::sat::lits::{lemma_neg_props, BVal, Decision, Lit, MAX_VAR_ID};
use crate::sat::solver::{count_seen, dec_lit, lemma_count_pos, lemma_lit_determined, long_clauses, Solver};

verus! {

broadcast use lemma_neg_props;

/// The literal is true under `m`, a total assignment that gives a value to every variable
/// identifier.
pub open spec fn holds(m: spec_fn(int) -> bool, l: Lit) -> bool {
    m(l.var_id()) == l.positive()
}

/// Some literal of the clause is true under `m`.
pub open spec fn clause_holds(m: spec_fn(int) -> bool, c: Seq<Lit>) -> bool {
    exists|k: int| 0 <= k < c.len() && #[trigger] holds(m, c[k])
}

/// Exchanging two literals of a clause does not change whether it holds.
pub(crate) proof fn lemma_swap_holds(m: spec_fn(int) -> bool, c: Seq<Lit>, i: int, j: int)
    requires
        0 <= i < c.len(),
        0 <= j < c.len(),
    ensures
        clause_holds(m, c.update(i, c[j]).update(j, c[i])) == clause_holds(m, c),
{
    let d = c.update(i, c[j]).update(j, c[i]);
    if clause_holds(m, c) {
        let k = choose|k: int| 0 <= k < c.len() && #[trigger] holds(m, c[k]);
        let k2 = if k == i { j } else if k == j { i } else { k };
        assert(d[k2] == c[k]);
        assert(holds(m, d[k2]));
    }
    if clause_holds(m, d) {
        let k = choose|k: int| 0 <= k < d.len() && #[trigger] holds(m, d[k]);
        let k2 = if k == i { j } else if k == j { i } else { k };
        assert(c[k2] == d[k]);
        assert(holds(m, c[k2]));
    }
}

/// Exchanging two literals of a clause keeps its set of literals.
pub(crate) proof fn lemma_swap_to_set(c: Seq<Lit>, i: int, j: int)
    requires
        0 <= i < c.len(),
        0 <= j < c.len(),
    ensures
        c.update(i, c[j]).update(j, c[i]).to_set() == c.to_set(),
{
    let d = c.update(i, c[j]).update(j, c[i]);
    assert forall|x: Lit| d.contains(x) == c.contains(x) by {
        if d.contains(x) {
            let k = choose|k: int| 0 <= k < d.len() && d[k] == x;
            let k2 = if k == i { j } else if k == j { i } else { k };
            assert(c[k2] == x);
        }
        if c.contains(x) {
            let k = choose|k: int| 0 <= k < c.len() && c[k] == x;
            let k2 = if k == i { j } else if k == j { i } else { k };
            assert(d[k2] == x);
        }
    }
    assert(d.to_set() =~= c.to_set());
}

/// The literal made true by the decision opposite to `dec` is the negation of the one `dec`
/// makes true.
pub(crate) proof fn lemma_dec_lit_negated(dec: Decision)
    requires
        dec.var().id <= MAX_VAR_ID,
    ensures
        dec_lit(dec.negated()) == dec_lit(dec).neg(),
{
    let v = dec.var().id as int;
    let t = dec.var().spec_lit(true);
    let f = dec.var().spec_lit(false);
    assert(t.id.value == 2 * v + 1);
    assert(f.id.value == 2 * v);
    assert(t.neg().id.value == f.id.value);
    assert(f.neg().id.value == t.id.value);
}

/// A false literal has its negation on the trail.
pub(crate) proof fn lemma_false_on_trail(a: Assignments, x: Lit) -> (j: int)
    requires
        a.wf(),
        a.lit_false(x),
    ensures
        0 <= j < a.trail.len(),
        a.trail@[j] == x.neg(),
{
    let v = x.var_id();
    assert(a.values@[v] != BVal::Undef);
    assert(1 <= v < a.values.len()) by {
        if v == 0 {
            assert(a.values@[0] == BVal::Undef);
        }
    }
    assert(a.assigned(v));
    let j = choose|j: int| 0 <= j < a.trail.len() && a.tvar(j) == v;
    let t = a.trail@[j];
    assert(a.lit_true(t));
    assert(t.positive() == x.neg().positive());
    lemma_lit_determined(t, x.neg());
    j
}

/// Under `m`, some literal of `learnt` but the first holds, or the literal of some trail
/// position of `[lo, hi)` whose variable is marked in `seen` does not.
pub open spec fn resolvent_holds(
    a: Assignments,
    m: spec_fn(int) -> bool,
    seen: Seq<bool>,
    learnt: Seq<Lit>,
    lo: int,
    hi: int,
) -> bool {
    ||| exists|k: int| 1 <= k < learnt.len() && #[trigger] holds(m, learnt[k])
    ||| exists|e: int| lo <= e < hi && seen[a.tvar(e)] && !#[trigger] holds(m, a.trail@[e])
}

/// Unmarked positions at the end of the range may be left out of it.
pub(crate) proof fn lemma_resolvent_shrink(
    a: Assignments,
    m: spec_fn(int) -> bool,
    seen: Seq<bool>,
    learnt: Seq<Lit>,
    lo: int,
    hi: int,
    hi2: int,
)
    requires
        resolvent_holds(a, m, seen, learnt, lo, hi),
        hi2 <= hi,
        forall|x: int| hi2 <= x < hi ==> !#[trigger] seen[a.tvar(x)],
    ensures
        resolvent_holds(a, m, seen, learnt, lo, hi2),
{
    if !(exists|k: int| 1 <= k < learnt.len() && #[trigger] holds(m, learnt[k])) {
        let e = choose|e: int| lo <= e < hi && seen[a.tvar(e)] && !#[trigger] holds(m, a.trail@[e]);
        assert(e < hi2);
    }
}

/// The resolvent over `[lo, e]` holds through a position before `e`, or through `e` itself.
pub(crate) proof fn lemma_resolvent_split(
    a: Assignments,
    m: spec_fn(int) -> bool,
    seen: Seq<bool>,
    learnt: Seq<Lit>,
    lo: int,
    e: int,
)
    requires
        resolvent_holds(a, m, seen, learnt, lo, e + 1),
    ensures
        resolvent_holds(a, m, seen, learnt, lo, e) || !holds(m, a.trail@[e]),
{
    if !(exists|k: int| 1 <= k < learnt.len() && #[trigger] holds(m, learnt[k])) {
        let x = choose|x: int| lo <= x < e + 1 && seen[a.tvar(x)] && !#[trigger] holds(m, a.trail@[x]);
        if x < e {
            assert(resolvent_holds(a, m, seen, learnt, lo, e));
        }
    }
}

impl Solver {
    /// The first clauses of `self` are those of `a`, each with the same literals, possibly in
    /// another order.
    pub open spec fn keeps_clauses(&self, a: Solver) -> bool {
        &&& a.ncl() <= self.ncl()
        &&& forall|c: int| 0 <= c < a.ncl() ==> (#[trigger] self.cl(c)).to_set() == a.cl(c).to_set()
    }

    /// Keeping the clauses is transitive.
    pub(crate) proof fn lemma_keeps_trans(a: Solver, b: Solver, c: Solver)
        requires
            b.keeps_clauses(a),
            c.keeps_clauses(b),
        ensures
            c.keeps_clauses(a),
    {
        assert forall|x: int| 0 <= x < a.ncl() implies (#[trigger] c.cl(x)).to_set() == a.cl(x).to_set() by {
            assert(b.cl(x).to_set() == a.cl(x).to_set());
            assert(c.cl(x).to_set() == b.cl(x).to_set());
        }
    }

    /// The current assignment makes a literal of the clause true.
    pub open spec fn clause_true(&self, cl: Seq<Lit>) -> bool {
        exists|k: int| 0 <= k < cl.len() && #[trigger] self.lit_true(cl[k])
    }

    /// The current assignment makes a literal of every clause of `a` true.
    pub open spec fn satisfies_clauses_of(&self, a: Solver) -> bool {
        forall|c: int| 0 <= c < a.ncl() ==> #[trigger] self.clause_true(a.cl(c))
    }

    /// An assignment that satisfies every stored clause satisfies every clause kept from `a`.
    pub(crate) proof fn lemma_model_keeps(a: Solver, b: Solver)
        requires
            b.keeps_clauses(a),
            b.model_valid(),
        ensures
            b.satisfies_clauses_of(a),
    {
        assert forall|c: int| 0 <= c < a.ncl() implies #[trigger] b.clause_true(a.cl(c)) by {
            assert(b.satisfied(c));
            let k = choose|k: int| 0 <= k < b.cl(c).len() && #[trigger] b.lit_true(b.cl(c)[k]);
            let x = b.cl(c)[k];
            assert(b.cl(c).to_set().contains(x));
            assert(b.cl(c).to_set() == a.cl(c).to_set());
            assert(a.cl(c).contains(x));
            let j = choose|j: int| 0 <= j < a.cl(c).len() && a.cl(c)[j] == x;
            assert(b.lit_true(a.cl(c)[j]));
        }
    }

    /// A state keeps the clauses of another with the same clauses.
    pub(crate) proof fn lemma_keeps_same(a: Solver, b: Solver)
        requires
            b.clauses.clauses@ == a.clauses.clauses@,
        ensures
            b.keeps_clauses(a),
    {
        assert forall|x: int| 0 <= x < a.ncl() implies (#[trigger] b.cl(x)).to_set() == a.cl(x).to_set() by {
            assert(b.cl(x) == a.cl(x));
        }
    }

    /// Every stored clause holds under `m`.
    pub open spec fn db_holds(&self, m: spec_fn(int) -> bool) -> bool {
        forall|c: int| 0 <= c < self.ncl() ==> #[trigger] clause_holds(m, self.cl(c))
    }

    /// The decisions of the levels opened at trail positions up to `i` hold under `m`.
    pub open spec fn decs_hold(&self, m: spec_fn(int) -> bool, i: int) -> bool {
        forall|k: int|
            0 <= k < self.assignments.lims.len() && self.assignments.lims@[k] <= i ==> #[trigger] holds(
                m,
                self.assignments.trail@[self.assignments.lims@[k] as int],
            )
    }

    /// Each literal of the trail holds under `m` when the decisions made up to it do.
    pub open spec fn trail_holds(&self, m: spec_fn(int) -> bool) -> bool {
        forall|i: int|
            0 <= i < self.assignments.trail.len() && #[trigger] self.decs_hold(m, i) ==> holds(
                m,
                self.assignments.trail@[i],
            )
    }

    /// `m` satisfies the stored clauses, and with them the decisions imply the trail.
    pub open spec fn sound(&self, m: spec_fn(int) -> bool) -> bool {
        self.db_holds(m) && self.trail_holds(m)
    }

    /// The literals set at the root level, before any decision, hold under `m`.
    pub open spec fn root_holds(&self, m: spec_fn(int) -> bool) -> bool {
        forall|i: int|
            0 <= i < self.assignments.trail.len() && (self.assignments.lims.len() == 0 || i
                < self.assignments.lims@[0]) ==> #[trigger] holds(m, self.assignments.trail@[i])
    }

    /// `m` satisfies the stored clauses and the literals set at the root level.
    pub open spec fn consistent(&self, m: spec_fn(int) -> bool) -> bool {
        self.db_holds(m) && self.root_holds(m)
    }

    /// The first literal of each decision level is the one its decision makes true.
    pub open spec fn decs_on_trail(&self) -> bool {
        forall|k: int|
            0 <= k < self.assignments.lims.len() && self.assignments.lims@[k] < self.assignments.trail.len()
                ==> #[trigger] self.assignments.trail@[self.assignments.lims@[k] as int] == dec_lit(
                self.assignments.decisions@[k],
            )
    }

    /// States with the same clauses and assignments agree on every model.
    pub(crate) proof fn lemma_same_sound(a: Solver, b: Solver)
        requires
            b.clauses.clauses@ == a.clauses.clauses@,
            b.assignments == a.assignments,
        ensures
            forall|m: spec_fn(int) -> bool| #[trigger] b.sound(m) == a.sound(m),
            forall|m: spec_fn(int) -> bool| #[trigger] b.consistent(m) == a.consistent(m),
            b.decs_on_trail() == a.decs_on_trail(),
    {
        assert forall|m: spec_fn(int) -> bool| #[trigger] b.db_holds(m) == a.db_holds(m) by {
            Self::lemma_same_db(a, b, m);
        }
        assert forall|m: spec_fn(int) -> bool| #[trigger] b.trail_holds(m) == a.trail_holds(m) by {
            assert forall|i: int| #[trigger] b.decs_hold(m, i) == a.decs_hold(m, i) by {}
            if a.trail_holds(m) {
                assert forall|i: int|
                    0 <= i < b.assignments.trail.len() && #[trigger] b.decs_hold(m, i) implies holds(
                    m,
                    b.assignments.trail@[i],
                ) by {
                    assert(a.decs_hold(m, i));
                }
            }
            if b.trail_holds(m) {
                assert forall|i: int|
                    0 <= i < a.assignments.trail.len() && #[trigger] a.decs_hold(m, i) implies holds(
                    m,
                    a.assignments.trail@[i],
                ) by {
                    assert(b.decs_hold(m, i));
                }
            }
        }
    }

    /// What holds of the whole trail holds of its root part; at the root level, the two agree.
    pub(crate) proof fn lemma_sound_consistent(s: Solver, m: spec_fn(int) -> bool)
        requires
            s.assignments.wf(),
        ensures
            s.sound(m) ==> s.consistent(m),
            s.assignments.dl() == 0 ==> (s.consistent(m) ==> s.sound(m)),
    {
        let a = s.assignments;
        if s.sound(m) {
            assert forall|i: int|
                0 <= i < a.trail.len() && (a.lims.len() == 0 || i < a.lims@[0]) implies #[trigger] holds(
                m,
                a.trail@[i],
            ) by {
                assert forall|k: int| 0 <= k < a.lims.len() && a.lims@[k] <= i implies #[trigger] holds(
                    m,
                    a.trail@[a.lims@[k] as int],
                ) by {
                    assert(a.lims@[0] <= a.lims@[k]);
                }
                assert(s.decs_hold(m, i));
            }
        }
        if a.dl() == 0 && s.consistent(m) {
            assert forall|i: int| 0 <= i < a.trail.len() && #[trigger] s.decs_hold(m, i) implies holds(
                m,
                a.trail@[i],
            ) by {}
        }
    }

    /// When the decisions up to the end of the trail hold, so does every literal of the trail.
    pub(crate) proof fn lemma_all_trail_holds(s: Solver, m: spec_fn(int) -> bool)
        requires
            s.assignments.wf(),
            s.trail_holds(m),
            s.decs_hold(m, s.assignments.trail.len() as int),
        ensures
            forall|i: int| 0 <= i < s.assignments.trail.len() ==> #[trigger] holds(m, s.assignments.trail@[i]),
    {
        let a = s.assignments;
        assert forall|i: int| 0 <= i < a.trail.len() implies #[trigger] holds(m, a.trail@[i]) by {
            assert forall|k: int| 0 <= k < a.lims.len() && a.lims@[k] <= i implies #[trigger] holds(
                m,
                a.trail@[a.lims@[k] as int],
            ) by {}
            assert(s.decs_hold(m, i));
        }
    }

    /// While a clause is violated, no model that makes every literal of the trail true satisfies
    /// the stored clauses.
    pub(crate) proof fn lemma_refute(s: Solver, m: spec_fn(int) -> bool, c: int)
        requires
            s.assignments.wf(),
            0 <= c < s.ncl(),
            s.violated(c),
            forall|i: int| 0 <= i < s.assignments.trail.len() ==> #[trigger] holds(m, s.assignments.trail@[i]),
        ensures
            !s.db_holds(m),
    {
        if s.db_holds(m) {
            assert(clause_holds(m, s.cl(c)));
            let k = choose|k: int| 0 <= k < s.cl(c).len() && #[trigger] holds(m, s.cl(c)[k]);
            let x = s.cl(c)[k];
            assert(s.lit_false(x));
            let j = lemma_false_on_trail(s.assignments, x);
            assert(holds(m, s.assignments.trail@[j]));
        }
    }

    /// A literal whose other literals in a stored clause are false holds whenever the decisions
    /// made so far do.
    pub(crate) proof fn lemma_reason_holds(s: Solver, m: spec_fn(int) -> bool, c: int, lit: Lit)
        requires
            s.assignments.wf(),
            s.sound(m),
            0 <= c < s.ncl(),
            s.cl(c)[0] == lit,
            forall|k: int| 1 <= k < s.cl(c).len() ==> #[trigger] s.lit_false(s.cl(c)[k]),
        ensures
            s.decs_hold(m, s.assignments.trail.len() as int) ==> holds(m, lit),
    {
        let a = s.assignments;
        if s.decs_hold(m, a.trail.len() as int) && !holds(m, lit) {
            assert(clause_holds(m, s.cl(c)));
            let k = choose|k: int| 0 <= k < s.cl(c).len() && #[trigger] holds(m, s.cl(c)[k]);
            let x = s.cl(c)[k];
            assert(k != 0);
            assert(s.lit_false(x));
            let j = lemma_false_on_trail(a, x);
            assert forall|k2: int| 0 <= k2 < a.lims.len() && a.lims@[k2] <= j implies #[trigger] holds(
                m,
                a.trail@[a.lims@[k2] as int],
            ) by {}
            assert(s.decs_hold(m, j));
            assert(holds(m, a.trail@[j]));
        }
    }

    /// Pushing a literal on the trail, possibly as the decision of a new level, keeps a model
    /// sound when the literal holds under it as soon as the decisions up to it do.
    pub(crate) proof fn lemma_push_sound(a: Solver, b: Solver, lit: Lit, m: spec_fn(int) -> bool)
        requires
            a.sound(m),
            b.clauses.clauses@ == a.clauses.clauses@,
            b.assignments.trail@ == a.assignments.trail@.push(lit),
            forall|k: int| 0 <= k < a.assignments.lims.len() ==> #[trigger] a.assignments.lims@[k]
                < a.assignments.trail.len(),
            b.assignments.lims@ == a.assignments.lims@ || b.assignments.lims@
                == a.assignments.lims@.push(a.assignments.trail.len() as usize),
            b.decs_hold(m, a.assignments.trail.len() as int) ==> holds(m, lit),
        ensures
            b.sound(m),
    {
        let n = a.assignments.trail.len() as int;
        Self::lemma_same_db(a, b, m);
        assert forall|i: int| 0 <= i < b.assignments.trail.len() && #[trigger] b.decs_hold(m, i) implies holds(
            m,
            b.assignments.trail@[i],
        ) by {
            if i < n {
                assert forall|k: int| 0 <= k < a.assignments.lims.len() && a.assignments.lims@[k] <= i implies #[trigger] holds(
                    m,
                    a.assignments.trail@[a.assignments.lims@[k] as int],
                ) by {
                    assert(b.assignments.lims@[k] == a.assignments.lims@[k]);
                    assert(holds(m, b.assignments.trail@[b.assignments.lims@[k] as int]));
                }
                assert(a.decs_hold(m, i));
                assert(holds(m, a.assignments.trail@[i]));
            }
        }
    }

    /// The same clauses hold under a model.
    pub(crate) proof fn lemma_same_db(a: Solver, b: Solver, m: spec_fn(int) -> bool)
        requires
            b.clauses.clauses@ == a.clauses.clauses@,
        ensures
            b.db_holds(m) == a.db_holds(m),
    {
        if a.db_holds(m) {
            assert forall|c: int| 0 <= c < b.ncl() implies #[trigger] clause_holds(m, b.cl(c)) by {
                assert(b.cl(c) == a.cl(c));
                assert(clause_holds(m, a.cl(c)));
            }
        }
        if b.db_holds(m) {
            assert forall|c: int| 0 <= c < a.ncl() implies #[trigger] clause_holds(m, a.cl(c)) by {
                assert(b.cl(c) == a.cl(c));
                assert(clause_holds(m, b.cl(c)));
            }
        }
    }

    /// Pushing a literal on the trail without a new level leaves the decisions up to its position
    /// as they were up to the end of the trail.
    pub(crate) proof fn lemma_push_decs(a: Solver, b: Solver, lit: Lit, m: spec_fn(int) -> bool)
        requires
            b.assignments.trail@ == a.assignments.trail@.push(lit),
            b.assignments.lims@ == a.assignments.lims@,
            forall|k: int| 0 <= k < a.assignments.lims.len() ==> #[trigger] a.assignments.lims@[k]
                < a.assignments.trail.len(),
        ensures
            b.decs_hold(m, a.assignments.trail.len() as int) == a.decs_hold(
                m,
                a.assignments.trail.len() as int,
            ),
    {
        let n = a.assignments.trail.len() as int;
        assert forall|k: int| 0 <= k < a.assignments.lims.len() implies #[trigger] b.assignments.trail@[b.assignments.lims@[k] as int]
            == a.assignments.trail@[a.assignments.lims@[k] as int] by {
            assert(a.assignments.lims@[k] < n);
        }
        if b.decs_hold(m, n) {
            assert forall|k: int| 0 <= k < a.assignments.lims.len() && a.assignments.lims@[k] <= n implies #[trigger] holds(
                m,
                a.assignments.trail@[a.assignments.lims@[k] as int],
            ) by {
                assert(holds(m, b.assignments.trail@[b.assignments.lims@[k] as int]));
            }
        }
        if a.decs_hold(m, n) {
            assert forall|k: int| 0 <= k < b.assignments.lims.len() && b.assignments.lims@[k] <= n implies #[trigger] holds(
                m,
                b.assignments.trail@[b.assignments.lims@[k] as int],
            ) by {
                assert(holds(m, a.assignments.trail@[a.assignments.lims@[k] as int]));
            }
        }
    }

    /// Cutting the trail back to a prefix, with the decision levels opened within it, keeps every
    /// model sound, and keeps each level's decision first.
    pub(crate) proof fn lemma_prefix_sound(a: Solver, b: Solver)
        requires
            b.clauses.clauses@ == a.clauses.clauses@,
            b.assignments.trail.len() <= a.assignments.trail.len(),
            b.assignments.trail@ == a.assignments.trail@.subrange(0, b.assignments.trail.len() as int),
            b.assignments.lims.len() <= a.assignments.lims.len(),
            b.assignments.lims@ == a.assignments.lims@.subrange(0, b.assignments.lims.len() as int),
            b.assignments.decisions@ == a.assignments.decisions@.subrange(
                0,
                b.assignments.lims.len() as int,
            ),
            a.assignments.decisions.len() == a.assignments.lims.len(),
            forall|k: int|
                b.assignments.lims.len() <= k < a.assignments.lims.len() ==> #[trigger] a.assignments.lims@[k]
                    >= b.assignments.trail.len(),
        ensures
            forall|m: spec_fn(int) -> bool| a.sound(m) ==> #[trigger] b.sound(m),
            a.decs_on_trail() ==> b.decs_on_trail(),
    {
        let bl = b.assignments.trail.len() as int;
        assert forall|m: spec_fn(int) -> bool| a.sound(m) implies #[trigger] b.sound(m) by {
            Self::lemma_same_db(a, b, m);
            assert forall|i: int| 0 <= i < bl && #[trigger] b.decs_hold(m, i) implies holds(
                m,
                b.assignments.trail@[i],
            ) by {
                assert forall|k: int| 0 <= k < a.assignments.lims.len() && a.assignments.lims@[k] <= i implies #[trigger] holds(
                    m,
                    a.assignments.trail@[a.assignments.lims@[k] as int],
                ) by {
                    assert(k < b.assignments.lims.len());
                    assert(b.assignments.lims@[k] == a.assignments.lims@[k]);
                    assert(holds(m, b.assignments.trail@[b.assignments.lims@[k] as int]));
                }
                assert(a.decs_hold(m, i));
                assert(holds(m, a.assignments.trail@[i]));
            }
        }
        if a.decs_on_trail() {
            assert forall|k: int|
                0 <= k < b.assignments.lims.len() && b.assignments.lims@[k] < bl implies #[trigger] b.assignments.trail@[b.assignments.lims@[k] as int]
                == dec_lit(b.assignments.decisions@[k]) by {
                assert(a.assignments.lims@[k] == b.assignments.lims@[k]);
                assert(a.assignments.trail@[a.assignments.lims@[k] as int] == dec_lit(a.assignments.decisions@[k]));
            }
        }
    }

    /// Exchanging two literals of a stored clause keeps every model sound.
    pub(crate) proof fn lemma_swap_sound(a: Solver, b: Solver, cid: int, i: int, j: int)
        requires
            b.assignments == a.assignments,
            b.ncl() == a.ncl(),
            0 <= cid < a.ncl(),
            0 <= i < a.cl(cid).len(),
            0 <= j < a.cl(cid).len(),
            b.cl(cid) == a.cl(cid).update(i, a.cl(cid)[j]).update(j, a.cl(cid)[i]),
            forall|c: int| 0 <= c < a.ncl() && c != cid ==> #[trigger] b.cl(c) == a.cl(c),
        ensures
            forall|m: spec_fn(int) -> bool| a.sound(m) ==> #[trigger] b.sound(m),
            b.decs_on_trail() == a.decs_on_trail(),
            b.keeps_clauses(a),
    {
        assert forall|x: int| 0 <= x < a.ncl() implies (#[trigger] b.cl(x)).to_set() == a.cl(x).to_set() by {
            if x == cid {
                lemma_swap_to_set(a.cl(cid), i, j);
            } else {
                assert(b.cl(x) == a.cl(x));
            }
        }
        assert forall|m: spec_fn(int) -> bool| a.sound(m) implies #[trigger] b.sound(m) by {
            assert forall|c: int| 0 <= c < b.ncl() implies #[trigger] clause_holds(m, b.cl(c)) by {
                assert(clause_holds(m, a.cl(c)));
                if c == cid {
                    lemma_swap_holds(m, a.cl(cid), i, j);
                }
            }
            assert forall|x: int|
                0 <= x < b.assignments.trail.len() && #[trigger] b.decs_hold(m, x) implies holds(
                m,
                b.assignments.trail@[x],
            ) by {
                assert(a.decs_hold(m, x));
            }
        }
    }

    /// Pushing a literal on the trail, either within the current level or as the decision `d` of
    /// a new one, keeps each level's decision first.
    pub(crate) proof fn lemma_push_on_trail(a: Solver, b: Solver, lit: Lit, d: Option<Decision>)
        requires
            b.assignments.trail@ == a.assignments.trail@.push(lit),
            forall|k: int| 0 <= k < a.assignments.lims.len() ==> #[trigger] a.assignments.lims@[k]
                < a.assignments.trail.len(),
            a.assignments.decisions.len() == a.assignments.lims.len(),
            match d {
                None => b.assignments.lims@ == a.assignments.lims@ && b.assignments.decisions@
                    == a.assignments.decisions@,
                Some(dd) => {
                    &&& b.assignments.lims@ == a.assignments.lims@.push(a.assignments.trail.len() as usize)
                    &&& b.assignments.decisions@ == a.assignments.decisions@.push(dd)
                    &&& lit == dec_lit(dd)
                },
            },
        ensures
            a.decs_on_trail() ==> b.decs_on_trail(),
    {
        if a.decs_on_trail() {
            assert forall|k: int|
                0 <= k < b.assignments.lims.len() && b.assignments.lims@[k] < b.assignments.trail.len() implies #[trigger] b.assignments.trail@[b.assignments.lims@[k] as int]
                == dec_lit(b.assignments.decisions@[k]) by {
                if k < a.assignments.lims.len() {
                    assert(a.assignments.lims@[k] == b.assignments.lims@[k]);
                    assert(a.assignments.lims@[k] < a.assignments.trail.len());
                    assert(a.assignments.trail@[a.assignments.lims@[k] as int] == dec_lit(a.assignments.decisions@[k]));
                }
            }
        }
    }

    /// After a conflict at a positive level, the opposite of that level's decision holds under a
    /// sound model whenever the decisions of the levels below do.
    pub(crate) proof fn lemma_flip(c: Solver, b: Solver, cid: int, dec: Decision, m: spec_fn(int) -> bool)
        requires
            c.wf(),
            c.decs_on_trail(),
            c.sound(m),
            c.assignments.dl() > 0,
            0 <= cid < c.ncl(),
            c.violated(cid),
            b.assignments.trail@ == c.assignments.trail@.subrange(0, c.assignments.lims@.last() as int),
            b.assignments.lims@ == c.assignments.lims@.drop_last(),
            dec == c.assignments.decisions@.last(),
        ensures
            b.decs_hold(m, b.assignments.trail.len() as int) ==> holds(m, dec_lit(dec.negated())),
    {
        let ca = c.assignments;
        let d = ca.dl();
        let nb = b.assignments.trail.len() as int;
        assert(1 <= ca.decisions@[d - 1].var().id <= ca.num_vars());
        lemma_dec_lit_negated(dec);
        if b.decs_hold(m, nb) && !holds(m, dec_lit(dec.negated())) {
            assert(ca.lims@[d - 1] < ca.trail.len());
            assert(nb == ca.lims@[d - 1]);
            assert forall|k: int| 0 <= k < ca.lims.len() && ca.lims@[k] <= ca.trail.len() implies #[trigger] holds(
                m,
                ca.trail@[ca.lims@[k] as int],
            ) by {
                if k < d - 1 {
                    assert(ca.lims@[k] < ca.lims@[d - 1]);
                    assert(b.assignments.lims@[k] == ca.lims@[k]);
                    assert(holds(m, b.assignments.trail@[b.assignments.lims@[k] as int]));
                } else {
                    assert(ca.trail@[ca.lims@[k] as int] == dec_lit(ca.decisions@[k]));
                }
            }
            assert(c.decs_hold(m, ca.trail.len() as int));
            Self::lemma_all_trail_holds(c, m);
            Self::lemma_refute(c, m, cid);
        }
    }

    /// A false literal that holds under a sound model, whose variable is marked and was set
    /// before `hi`, makes the resolvent hold: it is in the learnt clause if set at a level below the
    /// current one, and its negation is a marked trail literal of the current level otherwise (the
    /// root level is excluded, as its literals hold under the model).
    pub(crate) proof fn lemma_resolve_lit(
        s: Solver,
        m: spec_fn(int) -> bool,
        seen: Seq<bool>,
        learnt: Seq<Lit>,
        lo: int,
        hi: int,
        x: Lit,
    )
        requires
            s.assignments.wf(),
            s.trail_holds(m),
            s.assignments.dl() > 0,
            lo == s.assignments.lims@[s.assignments.dl() - 1],
            0 <= lo <= hi <= s.assignments.trail.len(),
            holds(m, x),
            s.lit_false(x),
            seen.len() == s.assignments.values.len(),
            seen[x.var_id()],
            exists|j: int| 0 <= j < hi && s.assignments.tvar(j) == x.var_id(),
            forall|v: int|
                0 <= v < seen.len() && #[trigger] seen[v] && 0 < s.assignments.level_of(v)
                    < s.assignments.dl() ==> exists|k: int| 1 <= k < learnt.len() && #[trigger] learnt[k].var_id() == v,
            forall|k: int| 1 <= k < learnt.len() ==> #[trigger] s.lit_false(learnt[k]),
        ensures
            resolvent_holds(s.assignments, m, seen, learnt, lo, hi),
    {
        let a = s.assignments;
        let d = a.dl();
        let q = x.neg();
        let j = choose|j: int| 0 <= j < hi && a.tvar(j) == x.var_id();
        assert(a.lit_true(a.trail@[j]));
        lemma_lit_determined(a.trail@[j], q);
        assert(a.trail@[j] == q);
        assert(!holds(m, a.trail@[j]));
        let v = x.var_id();
        assert(a.level_of(a.tvar(j)) <= d);
        if a.level_of(v) == 0 {
            Self::lemma_sound_consistent(s, m);
            assert(s.decs_hold(m, j)) by {
                assert forall|k: int| 0 <= k < a.lims.len() && a.lims@[k] <= j implies #[trigger] holds(
                    m,
                    a.trail@[a.lims@[k] as int],
                ) by {
                    assert(j < a.lims@[k] <==> a.level_of(a.tvar(j)) <= k);
                }
            }
            assert(holds(m, a.trail@[j]));
        } else if a.level_of(v) == d {
            assert(!(j < a.lims@[d - 1])) by {
                assert(j < a.lims@[d - 1] <==> a.level_of(a.tvar(j)) <= d - 1);
            }
            assert(lo <= j < hi && seen[a.tvar(j)] && !holds(m, a.trail@[j]));
        } else {
            let kk = choose|kk: int| 1 <= kk < learnt.len() && #[trigger] learnt[kk].var_id() == v;
            let y = learnt[kk];
            assert(s.lit_false(y));
            assert(a.lit_true(y.neg()));
            lemma_lit_determined(y.neg(), q);
            assert(y == x);
            assert(holds(m, learnt[kk]));
        }
    }

    /// A stored clause that holds under a sound model, but not through its first literal when
    /// `off == 1`, makes the resolvent hold once its other literals' variables are marked.
    pub(crate) proof fn lemma_resolve_clause(
        s: Solver,
        m: spec_fn(int) -> bool,
        seen: Seq<bool>,
        learnt: Seq<Lit>,
        lo: int,
        hi: int,
        cid: int,
        off: int,
        reason: Seq<Lit>,
    )
        requires
            s.assignments.wf(),
            s.sound(m),
            s.assignments.dl() > 0,
            lo == s.assignments.lims@[s.assignments.dl() - 1],
            0 <= lo <= hi <= s.assignments.trail.len(),
            off == 0 || off == 1,
            0 <= cid < s.ncl(),
            off == 1 ==> !holds(m, s.cl(cid)[0]),
            seen.len() == s.assignments.values.len(),
            reason.len() == s.cl(cid).len() - off,
            forall|k: int| 0 <= k < reason.len() ==> #[trigger] reason[k] == s.cl(cid)[k + off].neg(),
            forall|k: int| 0 <= k < reason.len() ==> {
                &&& #[trigger] s.lit_true(reason[k])
                &&& exists|j: int| 0 <= j < hi && s.assignments.tvar(j) == reason[k].var_id()
            },
            forall|k: int| 0 <= k < reason.len() ==> #[trigger] seen[reason[k].var_id()],
            forall|v: int|
                0 <= v < seen.len() && #[trigger] seen[v] && 0 < s.assignments.level_of(v)
                    < s.assignments.dl() ==> exists|k: int| 1 <= k < learnt.len() && #[trigger] learnt[k].var_id() == v,
            forall|k: int| 1 <= k < learnt.len() ==> #[trigger] s.lit_false(learnt[k]),
        ensures
            resolvent_holds(s.assignments, m, seen, learnt, lo, hi),
    {
        assert(clause_holds(m, s.cl(cid)));
        let k0 = choose|k0: int| 0 <= k0 < s.cl(cid).len() && #[trigger] holds(m, s.cl(cid)[k0]);
        assert(k0 >= off);
        let x = s.cl(cid)[k0];
        assert(reason[k0 - off] == x.neg());
        assert(s.lit_true(x.neg()));
        assert(seen[x.var_id()]);
        assert(exists|j: int| 0 <= j < hi && s.assignments.tvar(j) == x.var_id());
        Self::lemma_resolve_lit(s, m, seen, learnt, lo, hi, x);
    }

    /// A resolvent over more marks and a longer learnt clause holds when the smaller one does.
    pub(crate) proof fn lemma_resolvent_grow(
        a: Assignments,
        m: spec_fn(int) -> bool,
        seen0: Seq<bool>,
        learnt0: Seq<Lit>,
        seen: Seq<bool>,
        learnt: Seq<Lit>,
        lo: int,
        hi: int,
    )
        requires
            a.wf(),
            0 <= lo,
            hi <= a.trail.len(),
            resolvent_holds(a, m, seen0, learnt0, lo, hi),
            seen.len() == a.values.len(),
            seen0.len() == seen.len(),
            forall|v: int| 0 <= v < seen.len() && #[trigger] seen0[v] ==> seen[v],
            learnt0.len() <= learnt.len(),
            forall|k: int| 0 <= k < learnt0.len() ==> #[trigger] learnt[k] == learnt0[k],
        ensures
            resolvent_holds(a, m, seen, learnt, lo, hi),
    {
        if exists|k: int| 1 <= k < learnt0.len() && #[trigger] holds(m, learnt0[k]) {
            let k = choose|k: int| 1 <= k < learnt0.len() && #[trigger] holds(m, learnt0[k]);
            assert(learnt[k] == learnt0[k]);
            assert(holds(m, learnt[k]));
        } else {
            let e = choose|e: int| lo <= e < hi && seen0[a.tvar(e)] && !#[trigger] holds(m, a.trail@[e]);
            assert(a.valid_var(a.tvar(e)));
            assert(seen[a.tvar(e)]);
        }
    }

    /// One resolution step of conflict analysis keeps the resolvent true under every sound model:
    /// the literal at trail position `hi` (unless `off == 0`, for the conflict clause itself) is
    /// resolved away with the clause `cid`, whose other literals are false and now marked.
    pub(crate) proof fn lemma_resolve_all(
        s: Solver,
        seen0: Seq<bool>,
        learnt0: Seq<Lit>,
        seen: Seq<bool>,
        learnt: Seq<Lit>,
        lo: int,
        hi: int,
        cid: int,
        off: int,
        reason: Seq<Lit>,
    )
        requires
            s.assignments.wf(),
            s.assignments.dl() > 0,
            lo == s.assignments.lims@[s.assignments.dl() - 1],
            0 <= lo <= hi <= s.assignments.trail.len(),
            0 <= cid < s.ncl(),
            off == 0 || off == 1,
            off == 1 ==> {
                &&& hi < s.assignments.trail.len()
                &&& s.cl(cid)[0] == s.assignments.trail@[hi]
                &&& forall|m: spec_fn(int) -> bool|
                    s.sound(m) ==> #[trigger] resolvent_holds(s.assignments, m, seen0, learnt0, lo, hi + 1)
            },
            seen.len() == s.assignments.values.len(),
            seen0.len() == seen.len(),
            forall|v: int| 0 <= v < seen.len() && #[trigger] seen0[v] ==> seen[v],
            learnt0.len() <= learnt.len(),
            forall|k: int| 0 <= k < learnt0.len() ==> #[trigger] learnt[k] == learnt0[k],
            reason.len() == s.cl(cid).len() - off,
            forall|k: int| 0 <= k < reason.len() ==> #[trigger] reason[k] == s.cl(cid)[k + off].neg(),
            forall|k: int| 0 <= k < reason.len() ==> {
                &&& #[trigger] s.lit_true(reason[k])
                &&& exists|j: int| 0 <= j < hi && s.assignments.tvar(j) == reason[k].var_id()
            },
            forall|k: int| 0 <= k < reason.len() ==> #[trigger] seen[reason[k].var_id()],
            forall|v: int|
                0 <= v < seen.len() && #[trigger] seen[v] && 0 < s.assignments.level_of(v)
                    < s.assignments.dl() ==> exists|k: int| 1 <= k < learnt.len() && #[trigger] learnt[k].var_id() == v,
            forall|k: int| 1 <= k < learnt.len() ==> #[trigger] s.lit_false(learnt[k]),
        ensures
            forall|m: spec_fn(int) -> bool| s.sound(m) ==> #[trigger] resolvent_holds(s.assignments, m, seen, learnt, lo, hi),
    {
        let a = s.assignments;
        assert forall|m: spec_fn(int) -> bool| s.sound(m) implies #[trigger] resolvent_holds(a, m, seen, learnt, lo, hi) by {
            if off == 0 {
                Self::lemma_resolve_clause(s, m, seen, learnt, lo, hi, cid, 0, reason);
            } else {
                Self::lemma_resolve_one(s, m, seen0, learnt0, seen, learnt, lo, hi, cid, reason);
            }
        }
    }

    /// The resolution step for one sound model, past the conflict clause.
    pub(crate) proof fn lemma_resolve_one(
        s: Solver,
        m: spec_fn(int) -> bool,
        seen0: Seq<bool>,
        learnt0: Seq<Lit>,
        seen: Seq<bool>,
        learnt: Seq<Lit>,
        lo: int,
        hi: int,
        cid: int,
        reason: Seq<Lit>,
    )
        requires
            s.assignments.wf(),
            s.sound(m),
            s.assignments.dl() > 0,
            lo == s.assignments.lims@[s.assignments.dl() - 1],
            0 <= lo <= hi < s.assignments.trail.len(),
            0 <= cid < s.ncl(),
            s.cl(cid)[0] == s.assignments.trail@[hi],
            resolvent_holds(s.assignments, m, seen0, learnt0, lo, hi + 1),
            seen.len() == s.assignments.values.len(),
            seen0.len() == seen.len(),
            forall|v: int| 0 <= v < seen.len() && #[trigger] seen0[v] ==> seen[v],
            learnt0.len() <= learnt.len(),
            forall|k: int| 0 <= k < learnt0.len() ==> #[trigger] learnt[k] == learnt0[k],
            reason.len() == s.cl(cid).len() - 1,
            forall|k: int| 0 <= k < reason.len() ==> #[trigger] reason[k] == s.cl(cid)[k + 1].neg(),
            forall|k: int| 0 <= k < reason.len() ==> {
                &&& #[trigger] s.lit_true(reason[k])
                &&& exists|j: int| 0 <= j < hi && s.assignments.tvar(j) == reason[k].var_id()
            },
            forall|k: int| 0 <= k < reason.len() ==> #[trigger] seen[reason[k].var_id()],
            forall|v: int|
                0 <= v < seen.len() && #[trigger] seen[v] && 0 < s.assignments.level_of(v)
                    < s.assignments.dl() ==> exists|k: int| 1 <= k < learnt.len() && #[trigger] learnt[k].var_id() == v,
            forall|k: int| 1 <= k < learnt.len() ==> #[trigger] s.lit_false(learnt[k]),
        ensures
            resolvent_holds(s.assignments, m, seen, learnt, lo, hi),
    {
        let a = s.assignments;
        lemma_resolvent_split(a, m, seen0, learnt0, lo, hi);
        if resolvent_holds(a, m, seen0, learnt0, lo, hi) {
            Self::lemma_resolvent_grow(a, m, seen0, learnt0, seen, learnt, lo, hi);
        } else {
            Self::lemma_resolve_clause(s, m, seen, learnt, lo, hi, cid, 1, reason);
        }
    }

    /// Leaving unmarked positions out of the range keeps the resolvent true under every sound model.
    pub(crate) proof fn lemma_shrink_all(s: Solver, seen: Seq<bool>, learnt: Seq<Lit>, lo: int, hi: int, hi2: int)
        requires
            forall|m: spec_fn(int) -> bool| s.sound(m) ==> #[trigger] resolvent_holds(s.assignments, m, seen, learnt, lo, hi),
            hi2 <= hi,
            forall|x: int| hi2 <= x < hi ==> !#[trigger] seen[s.assignments.tvar(x)],
        ensures
            forall|m: spec_fn(int) -> bool| s.sound(m) ==> #[trigger] resolvent_holds(s.assignments, m, seen, learnt, lo, hi2),
    {
        assert forall|m: spec_fn(int) -> bool| s.sound(m) implies #[trigger] resolvent_holds(s.assignments, m, seen, learnt, lo, hi2) by {
            assert(resolvent_holds(s.assignments, m, seen, learnt, lo, hi));
            lemma_resolvent_shrink(s.assignments, m, seen, learnt, lo, hi, hi2);
        }
    }

    /// Once no marked position of the current level is left before `e`, the learnt clause, whose
    /// first literal is the negation of the one at `e`, holds under every sound model.
    pub(crate) proof fn lemma_learnt_holds(s: Solver, seen: Seq<bool>, learnt0: Seq<Lit>, learnt: Seq<Lit>, lo: int, e: int)
        requires
            forall|m: spec_fn(int) -> bool| s.sound(m) ==> #[trigger] resolvent_holds(s.assignments, m, seen, learnt0, lo, e + 1),
            0 <= lo <= e < s.assignments.trail.len(),
            count_seen(s.assignments, seen, lo, e) == 0,
            learnt.len() == learnt0.len(),
            learnt.len() >= 1,
            learnt[0] == s.assignments.trail@[e].neg(),
            forall|k: int| 1 <= k < learnt.len() ==> #[trigger] learnt[k] == learnt0[k],
        ensures
            forall|m: spec_fn(int) -> bool| s.sound(m) ==> #[trigger] clause_holds(m, learnt),
    {
        let a = s.assignments;
        assert forall|m: spec_fn(int) -> bool| s.sound(m) implies #[trigger] clause_holds(m, learnt) by {
            assert(resolvent_holds(a, m, seen, learnt0, lo, e + 1));
            lemma_resolvent_split(a, m, seen, learnt0, lo, e);
            if resolvent_holds(a, m, seen, learnt0, lo, e) {
                if exists|k: int| 1 <= k < learnt0.len() && #[trigger] holds(m, learnt0[k]) {
                    let k = choose|k: int| 1 <= k < learnt0.len() && #[trigger] holds(m, learnt0[k]);
                    assert(learnt[k] == learnt0[k]);
                    assert(holds(m, learnt[k]));
                } else {
                    let x = choose|x: int| lo <= x < e && seen[a.tvar(x)] && !#[trigger] holds(m, a.trail@[x]);
                    lemma_count_pos(a, seen, x, lo, e);
                }
            } else {
                assert(holds(m, learnt[0]));
            }
        }
    }

    /// Setting the literal, with the given reason, keeps sound every model under which it
    /// holds as soon as the decisions do, which is every sound model when there is a reason.
    pub(crate) proof fn lemma_set_sound(a: Solver, b: Solver, lit: Lit, reason: Option<ClauseId>)
        requires
            a.wf(),
            a.reason_ok(lit, reason),
            b.clauses.clauses@ == a.clauses.clauses@,
            b.assignments.trail@ == a.assignments.trail@.push(lit),
            b.assignments.lims@ == a.assignments.lims@,
            b.assignments.decisions@ == a.assignments.decisions@,
        ensures
            forall|m: spec_fn(int) -> bool|
                a.sound(m) && (reason is Some || (a.decs_hold(m, a.assignments.trail.len() as int) ==> holds(m, lit)))
                    ==> #[trigger] b.sound(m),
            a.decs_on_trail() ==> b.decs_on_trail(),
    {
        assert forall|m: spec_fn(int) -> bool|
            a.sound(m) && (reason is Some || (a.decs_hold(m, a.assignments.trail.len() as int) ==> holds(m, lit)))
                implies #[trigger] b.sound(m) by {
            if let Some(c) = reason {
                Self::lemma_reason_holds(a, m, c as int, lit);
            }
            Self::lemma_push_decs(a, b, lit, m);
            Self::lemma_push_sound(a, b, lit, m);
        }
        Self::lemma_push_on_trail(a, b, lit, None);
    }

    /// Storing a clause that holds under a model, with two of its literals exchanged, keeps the
    /// model sound.
    pub(crate) proof fn lemma_add_sound(a: Solver, b: Solver, lits: Seq<Lit>, i: int)
        requires
            b.assignments == a.assignments,
            b.ncl() == a.ncl() + 1,
            forall|c: int| 0 <= c < a.ncl() ==> #[trigger] b.cl(c) == a.cl(c),
            1 < lits.len(),
            1 <= i < lits.len(),
            b.cl(a.ncl()) == lits.update(1, lits[i]).update(i, lits[1]),
        ensures
            forall|m: spec_fn(int) -> bool| a.sound(m) && clause_holds(m, lits) ==> #[trigger] b.sound(m),
            b.decs_on_trail() == a.decs_on_trail(),
            b.keeps_clauses(a),
    {
        assert forall|x: int| 0 <= x < a.ncl() implies (#[trigger] b.cl(x)).to_set() == a.cl(x).to_set() by {
            assert(b.cl(x) == a.cl(x));
        }
        assert forall|m: spec_fn(int) -> bool| a.sound(m) && clause_holds(m, lits) implies #[trigger] b.sound(m) by {
            assert forall|c: int| 0 <= c < b.ncl() implies #[trigger] clause_holds(m, b.cl(c)) by {
                if c < a.ncl() {
                    assert(clause_holds(m, a.cl(c)));
                } else {
                    lemma_swap_holds(m, lits, 1, i);
                }
            }
            assert forall|x: int|
                0 <= x < b.assignments.trail.len() && #[trigger] b.decs_hold(m, x) implies holds(
                m,
                b.assignments.trail@[x],
            ) by {
                assert(a.decs_hold(m, x));
            }
        }
    }
}

/// A model answer concerns the stored clauses the solver started from: an assignment that
/// satisfies every clause of a solver built from `cls` makes a literal of every clause of `cls`
/// with at least two literals true.
pub proof fn lemma_sat_clauses(s: Solver, t: Solver, cls: Seq<Seq<Lit>>)
    requires
        s.clause_seqs() == long_clauses(cls),
        t.satisfies_clauses_of(s),
    ensures
        forall|c: int| 0 <= c < long_clauses(cls).len() ==> #[trigger] t.clause_true(long_clauses(cls)[c]),
{
    assert forall|c: int| 0 <= c < long_clauses(cls).len() implies #[trigger] t.clause_true(long_clauses(cls)[c]) by {
        assert(s.clause_seqs()[c] == s.cl(c));
        assert(t.clause_true(s.cl(c)));
    }
}

/// Every clause of `cls` holds under `m`.
pub open spec fn satisfies_all(m: spec_fn(int) -> bool, cls: Seq<Seq<Lit>>) -> bool {
    forall|c: int| 0 <= c < cls.len() ==> #[trigger] clause_holds(m, cls[c])
}

/// An answer of unsatisfiability from a state that has set nothing concerns its stored clauses
/// alone: when no model is consistent with such a solver, no total assignment satisfies all its
/// stored clauses, which for a solver built from `cls` are the clauses of `cls` with at least two
/// literals.
pub proof fn lemma_unsat_clauses(s: Solver, cls: Seq<Seq<Lit>>)
    requires
        s.assignments.trail.len() == 0,
        s.clause_seqs() == long_clauses(cls),
        forall|m: spec_fn(int) -> bool| !#[trigger] s.consistent(m),
    ensures
        forall|m: spec_fn(int) -> bool| !#[trigger] satisfies_all(m, long_clauses(cls)),
{
    assert forall|m: spec_fn(int) -> bool| !#[trigger] satisfies_all(m, long_clauses(cls)) by {
        assert(!s.consistent(m));
        assert(s.root_holds(m));
        let c = choose|c: int| 0 <= c < s.ncl() && !#[trigger] clause_holds(m, s.cl(c));
        assert(s.clause_seqs()[c] == s.cl(c));
        assert(!clause_holds(m, long_clauses(cls)[c]));
    }
}

/// `m` satisfies each clause of `cls` that has at least two literals.
pub open spec fn satisfies_each_long(m: spec_fn(int) -> bool, cls: Seq<Seq<Lit>>) -> bool {
    forall|i: int| 0 <= i < cls.len() && cls[i].len() >= 2 ==> #[trigger] clause_holds(m, cls[i])
}

/// The answer of `solve` on a solver built from `cls` is whether some total assignment satisfies
/// every clause of `cls` with at least two literals: a model answer exhibits one, and an answer of
/// unsatisfiability rules them all out.
pub proof fn lemma_answer_is_satisfiability(s: Solver, t: Solver, cls: Seq<Seq<Lit>>, r: Option<bool>)
    requires
        s.assignments.trail.len() == 0,
        s.clause_seqs() == long_clauses(cls),
        r is Some,
        r == Some(true) ==> t.satisfies_clauses_of(s),
        r == Some(false) ==> forall|m: spec_fn(int) -> bool| !#[trigger] s.consistent(m),
    ensures
        r == Some(exists|m: spec_fn(int) -> bool| #[trigger] satisfies_all(m, long_clauses(cls))),
        r == Some(exists|m: spec_fn(int) -> bool| #[trigger] satisfies_each_long(m, cls)),
{
    crate::sat::solver::lemma_long_clauses_members(cls);
    assert forall|m: spec_fn(int) -> bool|
        #![trigger satisfies_all(m, long_clauses(cls))]
        #![trigger satisfies_each_long(m, cls)]
        satisfies_all(m, long_clauses(cls)) == satisfies_each_long(m, cls) by {
        if satisfies_all(m, long_clauses(cls)) {
            assert forall|i: int| 0 <= i < cls.len() && cls[i].len() >= 2 implies #[trigger] clause_holds(m, cls[i]) by {
                let j = choose|j: int| 0 <= j < long_clauses(cls).len() && #[trigger] long_clauses(cls)[j] == cls[i];
                assert(clause_holds(m, long_clauses(cls)[j]));
            }
        }
        if satisfies_each_long(m, cls) {
            assert forall|j: int| 0 <= j < long_clauses(cls).len() implies #[trigger] clause_holds(m, long_clauses(cls)[j]) by {
                let i = choose|i: int| 0 <= i < cls.len() && #[trigger] cls[i] == long_clauses(cls)[j] && cls[i].len() >= 2;
                assert(clause_holds(m, cls[i]));
            }
        }
    }
    if r == Some(true) {
        lemma_sat_clauses(s, t, cls);
        let m = |v: int| 0 <= v < t.assignments.values.len() && t.assignments.values@[v] == BVal::True;
        assert forall|c: int| 0 <= c < long_clauses(cls).len() implies #[trigger] clause_holds(m, long_clauses(cls)[c]) by {
            assert(t.clause_true(long_clauses(cls)[c]));
            let k = choose|k: int| 0 <= k < long_clauses(cls)[c].len() && #[trigger] t.lit_true(long_clauses(cls)[c][k]);
            assert(holds(m, long_clauses(cls)[c][k]));
        }
        assert(satisfies_all(m, long_clauses(cls)));
        assert(satisfies_each_long(m, cls));
    } else {
        assert(r == Some(false));
        lemma_unsat_clauses(s, cls);
    }
}

/// A model answer from a solver that stores each clause of `cls` with at least two literals (as
/// `init` does) makes a literal of each such clause true.
pub proof fn lemma_model_satisfies_inputs(s: Solver, t: Solver, cls: Seq<Seq<Lit>>)
    requires
        forall|i: int|
            #![trigger cls[i]]
            0 <= i < cls.len() && cls[i].len() >= 2 ==> exists|c: int| 0 <= c < s.ncl() && #[trigger] s.cl(c) == cls[i],
        t.satisfies_clauses_of(s),
    ensures
        forall|i: int| 0 <= i < cls.len() && cls[i].len() >= 2 ==> #[trigger] t.clause_true(cls[i]),
{
    assert forall|i: int| 0 <= i < cls.len() && cls[i].len() >= 2 implies #[trigger] t.clause_true(cls[i]) by {
        let c = choose|c: int| 0 <= c < s.ncl() && #[trigger] s.cl(c) == cls[i];
        assert(t.clause_true(s.cl(c)));
    }
}

} // verus!
