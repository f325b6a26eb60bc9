use vstd::prelude::*;
use rand::Rng;
use rand::SeedableRng;
use crate::model::bounds::{Bound, Lit};
use crate::model::lang::{IntCst, VarRef};
use crate::model::state::Domains;
use crate::solver::stats::Stats;
use crate::solver::theory_solver::DecLvl;

verus! {

/// Activities are fixed-point numbers: this many units make an activity of one.
pub const ACTIVITY_UNIT: u128 = 1_000_000;

/// Activity, in units, above which all activities are scaled down.
pub const ACTIVITY_LIMIT: u128 = 1_000_000_000_000_000_000_000_000_000_000_000_000;

/// Factor by which activities are scaled down.
pub const RESCALE_FACTOR: u128 = 1_000_000_000_000_000_000_000_000_000_000;

/// Parameters of the activity heuristic.
#[derive(Clone, Copy, Debug)]
pub struct BoolHeuristicParams {
    /// Amount, in units, added to the activity of a bumped variable.
    pub var_inc: u128,
    /// Percentage by which the increment is divided at each decay: a decay multiplies it by
    /// `100 / var_decay_percent`.
    pub var_decay_percent: u128,
}

impl Default for BoolHeuristicParams {
    fn default() -> (p: BoolHeuristicParams)
        ensures
            p.var_inc == ACTIVITY_UNIT,
            p.var_decay_percent == 95,
    {
        BoolHeuristicParams { var_inc: ACTIVITY_UNIT, var_decay_percent: 95 }
    }
}

/// Changes that need to be undone: removals from the queue, with the stage of the variable.
#[derive(Clone, Copy, Debug, PartialEq, Eq, Structural)]
pub enum HeapEvent {
    Removal(VarRef, u8),
}

/// Queue of the variables to branch on, in stages: variables of a lower stage come first, and
/// among the variables of a stage the most active come first.
pub struct VarSelect {
    pub params: BoolHeuristicParams,
    /// The queued variables of each stage.
    pub heaps: Vec<Vec<VarRef>>,
    /// Stage of each variable, `None` for a variable not declared; indexed by variable.
    pub stages: Vec<Option<u8>>,
    /// Activity of each variable, in units; indexed by variable.
    pub activity: Vec<u128>,
    /// Whether each variable is queued; indexed by variable.
    pub queued: Vec<bool>,
    /// Removals from the queue since the first saved state.
    pub trail: Vec<HeapEvent>,
    /// Length of the trail at each saved state.
    pub saved: Vec<usize>,
}

impl VarSelect {
    pub open spec fn declared(&self, v: int) -> bool {
        0 <= v < self.stages.len() && self.stages@[v] is Some
    }

    pub open spec fn stage(&self, v: int) -> int {
        self.stages@[v]->0 as int
    }

    pub open spec fn is_queued(&self, v: int) -> bool {
        0 <= v < self.queued.len() && self.queued@[v]
    }

    /// No variable of stage `s` is queued.
    pub open spec fn stage_empty(&self, s: int) -> bool {
        s >= self.heaps.len() || self.heaps@[s].len() == 0
    }

    /// `v` is a queued variable of stage `s` and no queued variable of that stage is more active.
    pub open spec fn is_best_of(&self, v: int, s: int) -> bool {
        &&& self.is_queued(v)
        &&& self.stage(v) == s
        &&& forall|u: int| #[trigger] self.is_queued(u) && self.stage(u) == s ==> self.activity@[u] <= self.activity@[v]
    }

    /// The activity of the variable at position `i` of the queue of stage `s`.
    pub open spec fn act_at(&self, s: int, i: int) -> u128 {
        self.activity@[self.heaps@[s]@[i].0 as int]
    }

    /// Position `i` of the queue of stage `s` holds its first variable of highest activity.
    pub open spec fn is_first_best(&self, s: int, i: int) -> bool {
        &&& 0 <= s < self.heaps.len()
        &&& 0 <= i < self.heaps@[s].len()
        &&& forall|k: int| 0 <= k < self.heaps@[s].len() ==> #[trigger] self.act_at(s, k) <= self.act_at(s, i)
        &&& forall|k: int| 0 <= k < i ==> #[trigger] self.act_at(s, k) < self.act_at(s, i)
    }

    pub open spec fn wf(&self) -> bool {
        &&& self.activity.len() == self.stages.len()
        &&& self.queued.len() == self.stages.len()
        &&& self.stages.len() <= u32::MAX + 1
        &&& self.heaps.len() <= 256
        &&& 1 <= self.params.var_decay_percent <= 100
        &&& forall|v: int| 0 <= v < self.stages.len() && #[trigger] self.stages@[v] is Some ==> self.stages@[v]->0 < self.heaps.len()
        &&& forall|v: int| 0 <= v < self.queued.len() && #[trigger] self.queued@[v] ==> self.stages@[v] is Some
        &&& forall|s: int, i: int|
            0 <= s < self.heaps.len() && 0 <= i < self.heaps@[s].len() ==> {
                &&& (#[trigger] self.heaps@[s]@[i]).0 < self.stages.len()
                &&& self.stages@[self.heaps@[s]@[i].0 as int] == Some(s as u8)
                &&& self.queued@[self.heaps@[s]@[i].0 as int]
            }
        &&& forall|s: int, i: int, j: int|
            0 <= s < self.heaps.len() && 0 <= i < j < self.heaps@[s].len() ==> self.heaps@[s]@[i] != self.heaps@[s]@[j]
        &&& forall|v: int| 0 <= v < self.queued.len() && #[trigger] self.queued@[v] ==> exists|i: int|
            0 <= i < self.heaps@[self.stage(v)].len() && self.heaps@[self.stage(v)]@[i].0 == v
        &&& forall|k: int| 0 <= k < self.trail.len() ==> match #[trigger] self.trail@[k] {
            HeapEvent::Removal(var, p) => self.declared(var.0 as int) && self.stages@[var.0 as int] == Some(p),
        }
        &&& self.saved.len() <= u32::MAX
        &&& forall|k: int| 0 <= k < self.saved.len() ==> #[trigger] self.saved@[k] <= self.trail.len()
        &&& forall|k1: int, k2: int| 0 <= k1 < k2 < self.saved.len() ==> self.saved@[k1] <= self.saved@[k2]
    }

    pub fn new(params: BoolHeuristicParams) -> (h: VarSelect)
        requires
            1 <= params.var_decay_percent <= 100,
        ensures
            h.wf(),
            h.params == params,
            h.stages.len() == 0,
            h.heaps.len() == 0,
            h.saved.len() == 0,
            h.trail.len() == 0,
    {
        VarSelect {
            params,
            heaps: Vec::new(),
            stages: Vec::new(),
            activity: Vec::new(),
            queued: Vec::new(),
            trail: Vec::new(),
            saved: Vec::new(),
        }
    }

    pub fn is_declared(&self, v: VarRef) -> (b: bool)
        requires
            self.wf(),
        ensures
            b == self.declared(v.0 as int),
    {
        (v.0 as usize) < self.stages.len() && self.stages[v.0 as usize].is_some()
    }

    /// Puts the variable in the queue of its stage, if it is not there already.
    fn heap_enqueue(&mut self, v: VarRef)
        requires
            old(self).wf(),
            old(self).declared(v.0 as int),
        ensures
            final(self).wf(),
            final(self).stages@ == old(self).stages@,
            final(self).activity@ == old(self).activity@,
            final(self).params == old(self).params,
            final(self).trail@ == old(self).trail@,
            final(self).saved@ == old(self).saved@,
            final(self).heaps.len() == old(self).heaps.len(),
            final(self).queued@ == old(self).queued@.update(v.0 as int, true),
            old(self).queued@[v.0 as int] ==> final(self).heaps@ == old(self).heaps@,
            !old(self).queued@[v.0 as int] ==> {
                &&& forall|t: int|
                    0 <= t < old(self).heaps.len() && t != old(self).stage(v.0 as int) ==> #[trigger] final(self).heaps@[t]
                        == old(self).heaps@[t]
                &&& final(self).heaps@[old(self).stage(v.0 as int)]@ == old(self).heaps@[old(self).stage(v.0 as int)]@.push(v)
            },
    {
        let idx = v.0 as usize;
        if !self.queued[idx] {
            let s = self.stages[idx].unwrap() as usize;
            let ghost old_h = *self;
            let mut pool: Vec<VarRef> = Vec::new();
            std::mem::swap(&mut pool, &mut self.heaps[s]);
            pool.push(v);
            self.heaps.set(s, pool);
            self.queued.set(idx, true);
            proof {
                assert forall|t: int, i: int|
                    0 <= t < self.heaps.len() && 0 <= i < self.heaps@[t].len() implies {
                        &&& (#[trigger] self.heaps@[t]@[i]).0 < self.stages.len()
                        &&& self.stages@[self.heaps@[t]@[i].0 as int] == Some(t as u8)
                        &&& self.queued@[self.heaps@[t]@[i].0 as int]
                    } by {
                    if t == s && i == old_h.heaps@[s as int].len() {
                    } else {
                        assert(self.heaps@[t]@[i] == old_h.heaps@[t]@[i]);
                    }
                }
                assert forall|t: int, i: int, j: int|
                    0 <= t < self.heaps.len() && 0 <= i < j < self.heaps@[t].len() implies self.heaps@[t]@[i]
                    != self.heaps@[t]@[j] by {
                    if t == s && j == old_h.heaps@[s as int].len() {
                        assert(old_h.queued@[old_h.heaps@[s as int]@[i].0 as int]);
                    } else {
                        assert(self.heaps@[t]@[i] == old_h.heaps@[t]@[i]);
                        assert(self.heaps@[t]@[j] == old_h.heaps@[t]@[j]);
                    }
                }
                assert forall|u: int| 0 <= u < self.queued.len() && #[trigger] self.queued@[u] implies exists|i: int|
                    0 <= i < self.heaps@[self.stage(u)].len() && self.heaps@[self.stage(u)]@[i].0 == u by {
                    if u == idx {
                        assert(self.stage(u) == s as int);
                        assert(self.heaps@[s as int].len() == old_h.heaps@[s as int].len() + 1);
                        assert(self.heaps@[s as int]@[old_h.heaps@[s as int].len() as int].0 == u);
                    } else {
                        assert(old_h.queued@[u]);
                        let i = choose|i: int|
                            0 <= i < old_h.heaps@[old_h.stage(u)].len() && old_h.heaps@[old_h.stage(u)]@[i].0 == u;
                        assert(self.heaps@[self.stage(u)]@[i].0 == u);
                    }
                }
            }
        } else {
            assert(self.queued@ =~= self.queued@.update(v.0 as int, true));
        }
    }
}

impl VarSelect {
    /// Position, in the queue of stage `s`, of a variable of highest activity.
    fn best_in(&self, s: usize) -> (i: usize)
        requires
            self.wf(),
            s < self.heaps.len(),
            self.heaps@[s as int].len() > 0,
        ensures
            i < self.heaps@[s as int].len(),
            self.is_best_of(self.heaps@[s as int]@[i as int].0 as int, s as int),
            self.is_first_best(s as int, i as int),
    {
        let pool = &self.heaps[s];
        let mut best: usize = 0;
        let mut i: usize = 1;
        while i < pool.len()
            invariant
                self.wf(),
                s < self.heaps.len(),
                pool@ == self.heaps@[s as int]@,
                0 <= best < i <= pool.len(),
                forall|k: int|
                    0 <= k < i ==> self.activity@[pool@[k].0 as int] <= self.activity@[pool@[best as int].0 as int],
                forall|k: int|
                    0 <= k < best ==> self.activity@[pool@[k].0 as int] < self.activity@[pool@[best as int].0 as int],
            decreases pool.len() - i,
        {
            if self.activity[pool[i].0 as usize] > self.activity[pool[best].0 as usize] {
                best = i;
            }
            i = i + 1;
        }
        proof {
            let v = pool@[best as int].0 as int;
            assert(self.heaps@[s as int]@[best as int] == pool@[best as int]);
            assert forall|u: int| #[trigger] self.is_queued(u) && self.stage(u) == s implies self.activity@[u]
                <= self.activity@[v] by {
                let k = choose|k: int| 0 <= k < self.heaps@[self.stage(u)].len() && self.heaps@[self.stage(u)]@[k].0 == u;
                assert(pool@[k].0 == u);
            }
        }
        best
    }

    /// Removes the variable at position `i` of the queue of stage `s` and records the removal.
    fn remove_at(&mut self, s: usize, i: usize) -> (v: VarRef)
        requires
            old(self).wf(),
            s < old(self).heaps.len(),
            i < old(self).heaps@[s as int].len(),
        ensures
            final(self).wf(),
            v == old(self).heaps@[s as int]@[i as int],
            final(self).stages@ == old(self).stages@,
            final(self).activity@ == old(self).activity@,
            final(self).params == old(self).params,
            final(self).heaps.len() == old(self).heaps.len(),
            final(self).queued@ == old(self).queued@.update(v.0 as int, false),
            final(self).trail@ == old(self).trail@.push(HeapEvent::Removal(v, s as u8)),
            final(self).saved@ == old(self).saved@,
            final(self).heaps@[s as int].len() == old(self).heaps@[s as int].len() - 1,
            forall|t: int| 0 <= t < old(self).heaps.len() && t != s ==> #[trigger] final(self).heaps@[t] == old(self).heaps@[t],
    {
        let ghost old_h = *self;
        let ghost si = s as int;
        let mut pool: Vec<VarRef> = Vec::new();
        std::mem::swap(&mut pool, &mut self.heaps[s]);
        let ghost p0 = pool@;
        let v = pool.swap_remove(i);
        self.heaps.set(s, pool);
        self.queued.set(v.0 as usize, false);
        self.trail.push(HeapEvent::Removal(v, s as u8));
        proof {
            let m = p0.len() as int;
            assert(old_h.heaps@[si]@ == p0);
            assert forall|t: int, k: int|
                0 <= t < self.heaps.len() && 0 <= k < self.heaps@[t].len() implies {
                    &&& (#[trigger] self.heaps@[t]@[k]).0 < self.stages.len()
                    &&& self.stages@[self.heaps@[t]@[k].0 as int] == Some(t as u8)
                    &&& self.queued@[self.heaps@[t]@[k].0 as int]
                } by {
                if t == si {
                    if k == i {
                        assert(p0[m - 1] != p0[i as int]);
                        assert(self.heaps@[t]@[k] == p0[m - 1]);
                    } else {
                        assert(p0[k] != p0[i as int]);
                        assert(self.heaps@[t]@[k] == p0[k]);
                    }
                } else {
                    assert(self.heaps@[t] == old_h.heaps@[t]);
                    assert(old_h.stages@[old_h.heaps@[t]@[k].0 as int] == Some(t as u8));
                }
            }
            assert forall|t: int, a: int, b: int|
                0 <= t < self.heaps.len() && 0 <= a < b < self.heaps@[t].len() implies self.heaps@[t]@[a]
                != self.heaps@[t]@[b] by {
                if t == si {
                    if a == i {
                        assert(p0[m - 1] != p0[b]);
                    } else if b == i {
                        assert(p0[a] != p0[m - 1]);
                    } else {
                        assert(p0[a] != p0[b]);
                    }
                } else {
                    assert(self.heaps@[t] == old_h.heaps@[t]);
                }
            }
            assert forall|u: int| 0 <= u < self.queued.len() && #[trigger] self.queued@[u] implies exists|k: int|
                0 <= k < self.heaps@[self.stage(u)].len() && self.heaps@[self.stage(u)]@[k].0 == u by {
                assert(old_h.queued@[u]);
                let k = choose|k: int|
                    0 <= k < old_h.heaps@[old_h.stage(u)].len() && old_h.heaps@[old_h.stage(u)]@[k].0 == u;
                assert(u != v.0);
                assert(self.stage(u) == old_h.stage(u));
                if old_h.stage(u) == si {
                    assert(p0[k].0 == u);
                    if k == m - 1 {
                        assert(k != i);
                        assert(self.heaps@[si]@[i as int] == p0[k]);
                        assert(self.heaps@[si]@[i as int].0 == u);
                    } else {
                        assert(k != i);
                        assert(self.heaps@[si]@[k] == p0[k]);
                        assert(self.heaps@[si]@[k].0 == u);
                    }
                } else {
                    assert(self.heaps@[self.stage(u)] == old_h.heaps@[self.stage(u)]);
                    assert(self.heaps@[self.stage(u)]@[k].0 == u);
                }
            }
            assert forall|k: int| 0 <= k < self.trail.len() implies match #[trigger] self.trail@[k] {
                HeapEvent::Removal(var, p) => self.declared(var.0 as int) && self.stages@[var.0 as int] == Some(p),
            } by {
                if k < old_h.trail.len() {
                    assert(self.trail@[k] == old_h.trail@[k]);
                }
            }
        }
        v
    }

    /// Declares a new variable; the variable is not put in the queue. The stage parameter defines
    /// at which stage of the search the variable will be selected: variables with the lowest stage
    /// are considered first. Without initial activity, the variable gets the current increment.
    pub fn add_variable(&mut self, v: VarRef, stage: u8, initial_activity: Option<u128>)
        requires
            old(self).wf(),
            !old(self).declared(v.0 as int),
        ensures
            final(self).wf(),
            final(self).params == old(self).params,
            final(self).trail@ == old(self).trail@,
            final(self).saved@ == old(self).saved@,
            final(self).heaps.len() >= old(self).heaps.len(),
            final(self).heaps.len() > stage,
            final(self).stages.len() == if old(self).stages.len() > v.0 {
                old(self).stages.len() as int
            } else {
                v.0 + 1
            },
            forall|u: int| 0 <= u < old(self).stages.len() && u != v.0 ==> {
                &&& final(self).stages@[u] == #[trigger] old(self).stages@[u]
                &&& final(self).activity@[u] == old(self).activity@[u]
                &&& final(self).queued@[u] == old(self).queued@[u]
            },
            forall|u: int| old(self).stages.len() <= u < final(self).stages.len() && u != v.0 ==> !#[trigger] final(self).declared(u),
            final(self).stages@[v.0 as int] == Some(stage),
            final(self).activity@[v.0 as int] == match initial_activity {
                Some(a) => a,
                None => old(self).params.var_inc,
            },
            !final(self).queued@[v.0 as int],
            forall|s: int| 0 <= s < old(self).heaps.len() ==> #[trigger] final(self).heaps@[s] == old(self).heaps@[s],
            forall|s: int| old(self).heaps.len() <= s < final(self).heaps.len() ==> #[trigger] final(self).heaps@[s].len() == 0,
    {
        let priority = stage as usize;
        while priority >= self.heaps.len()
            invariant
                self.wf(),
                priority < 256,
                self.params == old(self).params,
                self.stages@ == old(self).stages@,
                self.activity@ == old(self).activity@,
                self.queued@ == old(self).queued@,
                self.trail@ == old(self).trail@,
                self.saved@ == old(self).saved@,
                self.heaps.len() >= old(self).heaps.len(),
                self.heaps.len() <= 256,
                forall|s: int| 0 <= s < old(self).heaps.len() ==> #[trigger] self.heaps@[s] == old(self).heaps@[s],
                forall|s: int| old(self).heaps.len() <= s < self.heaps.len() ==> #[trigger] self.heaps@[s].len() == 0,
            decreases priority + 1 - self.heaps.len(),
        {
            let ghost before = *self;
            self.heaps.push(Vec::new());
            proof {
                assert forall|t: int, i: int|
                    0 <= t < self.heaps.len() && 0 <= i < self.heaps@[t].len() implies {
                        &&& (#[trigger] self.heaps@[t]@[i]).0 < self.stages.len()
                        &&& self.stages@[self.heaps@[t]@[i].0 as int] == Some(t as u8)
                        &&& self.queued@[self.heaps@[t]@[i].0 as int]
                    } by {
                    assert(self.heaps@[t] == before.heaps@[t]);
                }
                assert forall|u: int| 0 <= u < self.queued.len() && #[trigger] self.queued@[u] implies exists|i: int|
                    0 <= i < self.heaps@[self.stage(u)].len() && self.heaps@[self.stage(u)]@[i].0 == u by {
                    assert(self.heaps@[self.stage(u)] == before.heaps@[self.stage(u)]);
                }
            }
        }
        let idx = v.0 as usize;
        while self.stages.len() <= idx
            invariant
                self.wf(),
                !self.declared(idx as int),
                idx == v.0,
                priority < self.heaps.len(),
                self.params == old(self).params,
                self.trail@ == old(self).trail@,
                self.saved@ == old(self).saved@,
                self.heaps.len() >= old(self).heaps.len(),
                self.heaps.len() > stage,
                forall|s: int| 0 <= s < old(self).heaps.len() ==> #[trigger] self.heaps@[s] == old(self).heaps@[s],
                forall|s: int| old(self).heaps.len() <= s < self.heaps.len() ==> #[trigger] self.heaps@[s].len() == 0,
                self.stages.len() >= old(self).stages.len(),
                self.stages.len() <= if old(self).stages.len() > idx {
                    old(self).stages.len() as int
                } else {
                    idx + 1
                },
                forall|u: int| 0 <= u < old(self).stages.len() ==> {
                    &&& self.stages@[u] == #[trigger] old(self).stages@[u]
                    &&& self.activity@[u] == old(self).activity@[u]
                    &&& self.queued@[u] == old(self).queued@[u]
                },
                forall|u: int| old(self).stages.len() <= u < self.stages.len() ==> #[trigger] self.stages@[u] is None && !self.queued@[u],
            decreases idx + 1 - self.stages.len(),
        {
            let ghost before = *self;
            self.stages.push(None);
            self.activity.push(0);
            self.queued.push(false);
            proof {
                assert forall|u: int| 0 <= u < self.queued.len() && #[trigger] self.queued@[u] implies exists|i: int|
                    0 <= i < self.heaps@[self.stage(u)].len() && self.heaps@[self.stage(u)]@[i].0 == u by {
                    assert(before.queued@[u]);
                    let i = choose|i: int|
                        0 <= i < before.heaps@[before.stage(u)].len() && before.heaps@[before.stage(u)]@[i].0 == u;
                    assert(self.stage(u) == before.stage(u));
                    assert(self.heaps@[self.stage(u)]@[i].0 == u);
                }
            }
        }
        let a = match initial_activity {
            Some(a) => a,
            None => self.params.var_inc,
        };
        let ghost before = *self;
        self.activity.set(idx, a);
        self.stages.set(idx, Some(stage));
        proof {
            assert forall|t: int, i: int|
                0 <= t < self.heaps.len() && 0 <= i < self.heaps@[t].len() implies {
                    &&& (#[trigger] self.heaps@[t]@[i]).0 < self.stages.len()
                    &&& self.stages@[self.heaps@[t]@[i].0 as int] == Some(t as u8)
                    &&& self.queued@[self.heaps@[t]@[i].0 as int]
                } by {
                assert(before.queued@[before.heaps@[t]@[i].0 as int]);
            }
            assert forall|u: int| 0 <= u < self.queued.len() && #[trigger] self.queued@[u] implies exists|i: int|
                0 <= i < self.heaps@[self.stage(u)].len() && self.heaps@[self.stage(u)]@[i].0 == u by {
                assert(before.queued@[u]);
                let i = choose|i: int|
                    0 <= i < before.heaps@[before.stage(u)].len() && before.heaps@[before.stage(u)]@[i].0 == u;
                assert(u != idx);
                assert(self.stage(u) == before.stage(u));
                assert(self.heaps@[self.stage(u)]@[i].0 == u);
            }
            assert forall|k: int| 0 <= k < self.trail.len() implies match #[trigger] self.trail@[k] {
                HeapEvent::Removal(var, p) => self.declared(var.0 as int) && self.stages@[var.0 as int] == Some(p),
            } by {
                assert(before.trail@[k] == self.trail@[k]);
            }
        }
        assert forall|u: int| 0 <= u < old(self).stages.len() && u != v.0 implies {
            &&& self.stages@[u] == #[trigger] old(self).stages@[u]
            &&& self.activity@[u] == old(self).activity@[u]
            &&& self.queued@[u] == old(self).queued@[u]
        } by {
            assert(before.stages@[u] == old(self).stages@[u]);
        }
    }

    /// Puts the variable back in the queue; it must have been declared.
    pub fn enqueue_variable(&mut self, var: VarRef)
        requires
            old(self).wf(),
            old(self).declared(var.0 as int),
        ensures
            final(self).wf(),
            final(self).stages@ == old(self).stages@,
            final(self).activity@ == old(self).activity@,
            final(self).params == old(self).params,
            final(self).trail@ == old(self).trail@,
            final(self).saved@ == old(self).saved@,
            final(self).heaps.len() == old(self).heaps.len(),
            final(self).queued@ == old(self).queued@.update(var.0 as int, true),
            old(self).queued@[var.0 as int] ==> final(self).heaps@ == old(self).heaps@,
            !old(self).queued@[var.0 as int] ==> {
                &&& forall|t: int|
                    0 <= t < old(self).heaps.len() && t != old(self).stage(var.0 as int) ==> #[trigger] final(self).heaps@[t]
                        == old(self).heaps@[t]
                &&& final(self).heaps@[old(self).stage(var.0 as int)]@ == old(self).heaps@[old(self).stage(
                    var.0 as int,
                )]@.push(var)
            },
    {
        self.heap_enqueue(var)
    }

    /// An extractor of the queued variables, from the first stage.
    pub fn extractor(&self) -> (p: Popper)
        ensures
            p.stage == 0,
    {
        Popper { stage: 0 }
    }
}

impl VarSelect {
    /// A queue has a single first variable of highest activity.
    pub(crate) proof fn lemma_first_best_unique(&self, s: int, i: int, j: int)
        requires
            self.is_first_best(s, i),
            self.is_first_best(s, j),
        ensures
            i == j,
    {
        if i < j {
            assert(self.act_at(s, i) < self.act_at(s, j));
            assert(self.act_at(s, j) <= self.act_at(s, i));
        } else if j < i {
            assert(self.act_at(s, j) < self.act_at(s, i));
            assert(self.act_at(s, i) <= self.act_at(s, j));
        }
    }
}

/// The variable of a queue event.
pub open spec fn event_var(e: HeapEvent) -> int {
    match e {
        HeapEvent::Removal(var, _) => var.0 as int,
    }
}

/// `v` was removed from the queue since `a`: the trail of `b` records it after the end of the
/// trail of `a`.
pub open spec fn removed_since(a: VarSelect, b: VarSelect, v: int) -> bool {
    exists|k: int| a.trail.len() <= k < b.trail.len() && event_var(#[trigger] b.trail@[k]) == v
}

/// Whether `v` is queued once the variables of a model are imported into `b`: the variables
/// imported then are queued, the others as they were.
pub open spec fn queued_after_import(b: Brancher, v: int) -> bool {
    if v < b.num_processed_var {
        b.heap.queued@[v]
    } else {
        true
    }
}

/// From `a` to `b`, variables were only taken out of the queue, each recorded in the trail: what
/// `pop` calls do.
pub open spec fn pops_since(a: VarSelect, b: VarSelect) -> bool {
    &&& b.saved@ == a.saved@
    &&& a.trail.len() <= b.trail.len()
    &&& b.trail@.subrange(0, a.trail.len() as int) == a.trail@
    &&& b.queued.len() == a.queued.len()
    &&& forall|k: int|
        a.trail.len() <= k < b.trail.len() ==> a.is_queued(event_var(#[trigger] b.trail@[k]))
    &&& forall|v: int|
        0 <= v < b.queued.len() ==> #[trigger] b.queued@[v] == (a.queued@[v] && !removed_since(a, b, v))
}

/// Nothing was taken out of the queue of a state since itself.
pub proof fn lemma_pops_start(a: VarSelect)
    ensures
        pops_since(a, a),
{
    assert(a.trail@.subrange(0, a.trail.len() as int) =~= a.trail@);
}

/// A successful `pop` from `b`, which took `v` out of the queue, keeps the removals since `a`
/// recorded.
pub proof fn lemma_pop_recorded(a: VarSelect, b: VarSelect, c: VarSelect, v: VarRef, stage: u8)
    requires
        pops_since(a, b),
        b.is_queued(v.0 as int),
        c.saved@ == b.saved@,
        c.queued@ == b.queued@.update(v.0 as int, false),
        c.trail@ == b.trail@.push(HeapEvent::Removal(v, stage)),
    ensures
        pops_since(a, c),
{
    let n = b.trail.len() as int;
    assert(c.trail@.subrange(0, a.trail.len() as int) =~= b.trail@.subrange(0, a.trail.len() as int));
    assert forall|k: int| a.trail.len() <= k < c.trail.len() implies a.is_queued(event_var(#[trigger] c.trail@[k])) by {
        if k < n {
            assert(c.trail@[k] == b.trail@[k]);
        } else {
            assert(event_var(c.trail@[k]) == v.0 as int);
            assert(!removed_since(a, b, v.0 as int));
        }
    }
    assert forall|u: int| 0 <= u < c.queued.len() implies #[trigger] c.queued@[u] == (a.queued@[u] && !removed_since(a, c, u)) by {
        if removed_since(a, b, u) {
            let k = choose|k: int| a.trail.len() <= k < b.trail.len() && event_var(#[trigger] b.trail@[k]) == u;
            assert(c.trail@[k] == b.trail@[k]);
        }
        if u == v.0 as int {
            assert(event_var(c.trail@[n]) == u);
        } else if removed_since(a, c, u) {
            let k = choose|k: int| a.trail.len() <= k < c.trail.len() && event_var(#[trigger] c.trail@[k]) == u;
            assert(k < n);
            assert(b.trail@[k] == c.trail@[k]);
        }
    }
}

/// Restoring the last saved state undoes the removals made since it was saved: from `b`, reached
/// by `pop` calls from a state `a` just saved, `restore_last` gives `c` with the queue of `a`.
pub proof fn lemma_restore_undoes_pops(a: VarSelect, b: VarSelect, c: VarSelect)
    requires
        a.saved.len() > 0,
        a.saved@.last() == a.trail.len(),
        pops_since(a, b),
        c.queued.len() == b.queued.len(),
        forall|v: int| 0 <= v < b.queued.len() ==> #[trigger] c.queued@[v] == (b.queued@[v] || exists|k: int|
            b.saved@.last() <= k < b.trail.len() && event_var(#[trigger] b.trail@[k]) == v),
    ensures
        c.queued@ == a.queued@,
{
    assert forall|v: int| 0 <= v < a.queued.len() implies #[trigger] c.queued@[v] == a.queued@[v] by {
        assert(b.queued@[v] == (a.queued@[v] && !removed_since(a, b, v)));
        if removed_since(a, b, v) {
            let k = choose|k: int| a.trail.len() <= k < b.trail.len() && event_var(#[trigger] b.trail@[k]) == v;
            assert(a.is_queued(event_var(b.trail@[k])));
        }
    }
    assert(c.queued@ =~= a.queued@);
}

/// From `b` to `c`, what a call of `pop` does: nothing, or a queued variable taken out of the
/// queue, its removal recorded on the trail.
pub open spec fn popped(b: VarSelect, c: VarSelect) -> bool {
    ||| c.saved@ == b.saved@ && c.queued@ == b.queued@ && c.trail@ == b.trail@
    ||| exists|v: VarRef, stage: u8|
        b.is_queued(v.0 as int) && c.saved@ == b.saved@ && c.queued@ == b.queued@.update(v.0 as int, false)
            && #[trigger] c.trail@ == b.trail@.push(HeapEvent::Removal(v, stage))
}

/// The pops of a run, from its first state, keep the removals recorded.
proof fn lemma_pops_run(states: Seq<VarSelect>, j: int)
    requires
        0 <= j < states.len(),
        forall|i: int| 0 <= i < states.len() - 1 ==> #[trigger] popped(states[i], states[i + 1]),
    ensures
        pops_since(states[0], states[j]),
    decreases j,
{
    if j == 0 {
        lemma_pops_start(states[0]);
    } else {
        lemma_pops_run(states, j - 1);
        assert(popped(states[j - 1], states[(j - 1) + 1]));
        let b = states[j - 1];
        let c = states[j];
        assert(popped(b, c));
        if c.saved@ == b.saved@ && c.queued@ == b.queued@ && c.trail@ == b.trail@ {
            let a = states[0];
            assert forall|v: int| 0 <= v < c.queued.len() implies #[trigger] c.queued@[v] == (a.queued@[v]
                && !removed_since(a, c, v)) by {
                assert(b.queued@[v] == (a.queued@[v] && !removed_since(a, b, v)));
                if removed_since(a, b, v) {
                    let k = choose|k: int| a.trail.len() <= k < b.trail.len() && event_var(#[trigger] b.trail@[k]) == v;
                    assert(c.trail@[k] == b.trail@[k]);
                }
                if removed_since(a, c, v) {
                    let k = choose|k: int| a.trail.len() <= k < c.trail.len() && event_var(#[trigger] c.trail@[k]) == v;
                    assert(c.trail@[k] == b.trail@[k]);
                }
            }
            assert forall|k: int| a.trail.len() <= k < c.trail.len() implies a.is_queued(event_var(#[trigger] c.trail@[k])) by {
                assert(c.trail@[k] == b.trail@[k]);
            }
        } else {
            let (v, stage) = choose|v: VarRef, stage: u8|
                b.is_queued(v.0 as int) && c.saved@ == b.saved@ && c.queued@ == b.queued@.update(v.0 as int, false)
                    && #[trigger] c.trail@ == b.trail@.push(HeapEvent::Removal(v, stage));
            lemma_pop_recorded(states[0], b, c, v, stage);
        }
    }
}

/// Restoring the last saved state after any number of pops gives back the queue as it was
/// saved: from `states[0]`, just saved, through `pop` calls (each step is `popped`), to the last
/// state, from which `restore_last` gives `c`. The variables queued in `c` are those queued in
/// `states[0]`, and the saved states and the trail are those before the save.
pub proof fn lemma_restore_after_pops(states: Seq<VarSelect>, c: VarSelect)
    requires
        states.len() >= 1,
        states[0].saved.len() > 0,
        states[0].saved@.last() == states[0].trail.len(),
        forall|i: int| 0 <= i < states.len() - 1 ==> #[trigger] popped(states[i], states[i + 1]),
        c.saved@ == states.last().saved@.drop_last(),
        c.trail@ == states.last().trail@.subrange(0, states.last().saved@.last() as int),
        c.queued.len() == states.last().queued.len(),
        forall|v: int|
            0 <= v < states.last().queued.len() ==> #[trigger] c.queued@[v] == (states.last().queued@[v] || exists|k: int|
                states.last().saved@.last() <= k < states.last().trail.len() && event_var(
                    #[trigger] states.last().trail@[k],
                ) == v),
    ensures
        c.queued@ == states[0].queued@,
        c.saved@ == states[0].saved@.drop_last(),
        c.trail@ == states[0].trail@,
{
    let a = states[0];
    let b = states.last();
    lemma_pops_run(states, states.len() - 1);
    assert(pops_since(a, b));
    lemma_restore_undoes_pops(a, b, c);
    assert(c.trail@ =~= a.trail@);
}

/// Every activity divided by the rescaling factor.
pub open spec fn rescaled(s: Seq<u128>) -> Seq<u128> {
    Seq::new(s.len(), |i: int| (s[i] / RESCALE_FACTOR) as u128)
}

/// `a + b`, or `u128::MAX` when that overflows.
pub open spec fn sat_add(a: u128, b: u128) -> u128 {
    if a + b <= u128::MAX {
        (a + b) as u128
    } else {
        u128::MAX
    }
}

impl VarSelect {
    /// The invariant does not depend on the activities nor on the increment.
    proof fn lemma_wf_frame(a: VarSelect, b: VarSelect)
        requires
            a.wf(),
            b.heaps@ == a.heaps@,
            b.stages@ == a.stages@,
            b.queued@ == a.queued@,
            b.trail@ == a.trail@,
            b.saved@ == a.saved@,
            b.activity.len() == a.activity.len(),
            b.params.var_decay_percent == a.params.var_decay_percent,
        ensures
            b.wf(),
    {
        assert forall|k: int| 0 <= k < b.trail.len() implies match #[trigger] b.trail@[k] {
            HeapEvent::Removal(var, p) => b.declared(var.0 as int) && b.stages@[var.0 as int] == Some(p),
        } by {
            assert(a.trail@[k] == b.trail@[k]);
        }
        Self::lemma_wf_queue_frame(a, b);
    }

    /// The invariant holds of a queue with the same variables, stages and queued variables as a
    /// well-formed one, and a trail and saved states that meet their part of it.
    proof fn lemma_wf_queue_frame(a: VarSelect, b: VarSelect)
        requires
            a.wf(),
            b.heaps@ == a.heaps@,
            b.stages@ == a.stages@,
            b.queued@ == a.queued@,
            b.activity.len() == a.activity.len(),
            b.params.var_decay_percent == a.params.var_decay_percent,
            forall|k: int| 0 <= k < b.trail.len() ==> match #[trigger] b.trail@[k] {
                HeapEvent::Removal(var, p) => b.declared(var.0 as int) && b.stages@[var.0 as int] == Some(p),
            },
            b.saved.len() <= u32::MAX,
            forall|k: int| 0 <= k < b.saved.len() ==> #[trigger] b.saved@[k] <= b.trail.len(),
            forall|k1: int, k2: int| 0 <= k1 < k2 < b.saved.len() ==> b.saved@[k1] <= b.saved@[k2],
        ensures
            b.wf(),
    {
        assert forall|s: int, i: int|
            0 <= s < b.heaps.len() && 0 <= i < b.heaps@[s].len() implies {
                &&& (#[trigger] b.heaps@[s]@[i]).0 < b.stages.len()
                &&& b.stages@[b.heaps@[s]@[i].0 as int] == Some(s as u8)
                &&& b.queued@[b.heaps@[s]@[i].0 as int]
            } by {
            assert(b.heaps@[s] == a.heaps@[s]);
            assert(a.heaps@[s]@[i] == b.heaps@[s]@[i]);
        }
        assert forall|s: int, i: int, j: int|
            0 <= s < b.heaps.len() && 0 <= i < j < b.heaps@[s].len() implies b.heaps@[s]@[i] != b.heaps@[s]@[j] by {
            assert(b.heaps@[s] == a.heaps@[s]);
        }
        assert forall|v: int| 0 <= v < b.queued.len() && #[trigger] b.queued@[v] implies exists|i: int|
            0 <= i < b.heaps@[b.stage(v)].len() && b.heaps@[b.stage(v)]@[i].0 == v by {
            assert(a.queued@[v]);
            let i = choose|i: int| 0 <= i < a.heaps@[a.stage(v)].len() && a.heaps@[a.stage(v)]@[i].0 == v;
            assert(b.heaps@[b.stage(v)] == a.heaps@[a.stage(v)]);
            assert(b.heaps@[b.stage(v)]@[i].0 == v);
        }
    }
}

impl VarSelect {
    /// Adds the increment to the activity of the variable; when the result exceeds the limit,
    /// all activities and the increment are scaled down, which keeps their order.
    pub fn var_bump_activity(&mut self, var: VarRef)
        requires
            old(self).wf(),
            old(self).declared(var.0 as int),
        ensures
            final(self).wf(),
            final(self).stages@ == old(self).stages@,
            final(self).queued@ == old(self).queued@,
            final(self).heaps@ == old(self).heaps@,
            final(self).trail@ == old(self).trail@,
            final(self).saved@ == old(self).saved@,
            final(self).params.var_decay_percent == old(self).params.var_decay_percent,
            ({
                let a = sat_add(old(self).activity@[var.0 as int], old(self).params.var_inc);
                let bumped = old(self).activity@.update(var.0 as int, a);
                if a > ACTIVITY_LIMIT {
                    &&& final(self).activity@ == rescaled(bumped)
                    &&& final(self).params.var_inc == old(self).params.var_inc / RESCALE_FACTOR
                } else {
                    &&& final(self).activity@ == bumped
                    &&& final(self).params.var_inc == old(self).params.var_inc
                }
            }),
    {
        let idx = var.0 as usize;
        let a = self.activity[idx].saturating_add(self.params.var_inc);
        self.activity.set(idx, a);
        proof {
            Self::lemma_wf_frame(*old(self), *self);
        }
        if a > ACTIVITY_LIMIT {
            self.var_rescale_activity();
        }
    }

    /// Divides the increment by the decay factor, which favours the variables bumped from now on;
    /// the increment saturates at `u128::MAX`.
    pub fn decay_activities(&mut self)
        requires
            old(self).wf(),
        ensures
            final(self).wf(),
            final(self).stages@ == old(self).stages@,
            final(self).queued@ == old(self).queued@,
            final(self).heaps@ == old(self).heaps@,
            final(self).activity@ == old(self).activity@,
            final(self).trail@ == old(self).trail@,
            final(self).saved@ == old(self).saved@,
            final(self).params.var_decay_percent == old(self).params.var_decay_percent,
            final(self).params.var_inc == if old(self).params.var_inc * 100 <= u128::MAX {
                ((old(self).params.var_inc * 100) as int / (old(self).params.var_decay_percent as int)) as u128
            } else {
                u128::MAX
            },
    {
        if self.params.var_inc <= u128::MAX / 100 {
            self.params.var_inc = self.params.var_inc * 100 / self.params.var_decay_percent;
        } else {
            self.params.var_inc = u128::MAX;
        }
        proof {
            Self::lemma_wf_frame(*old(self), *self);
        }
    }

    /// Scales down all activities and the increment, keeping their order.
    fn var_rescale_activity(&mut self)
        requires
            old(self).wf(),
        ensures
            final(self).wf(),
            final(self).stages@ == old(self).stages@,
            final(self).queued@ == old(self).queued@,
            final(self).heaps@ == old(self).heaps@,
            final(self).trail@ == old(self).trail@,
            final(self).saved@ == old(self).saved@,
            final(self).activity@ == rescaled(old(self).activity@),
            final(self).params.var_inc == old(self).params.var_inc / RESCALE_FACTOR,
            final(self).params.var_decay_percent == old(self).params.var_decay_percent,
    {
        let mut i: usize = 0;
        while i < self.activity.len()
            invariant
                old(self).wf(),
                self.wf(),
                i <= self.activity.len(),
                self.stages@ == old(self).stages@,
                self.queued@ == old(self).queued@,
                self.heaps@ == old(self).heaps@,
                self.trail@ == old(self).trail@,
                self.saved@ == old(self).saved@,
                self.params == old(self).params,
                self.activity.len() == old(self).activity.len(),
                forall|k: int| 0 <= k < i ==> self.activity@[k] == old(self).activity@[k] / RESCALE_FACTOR,
                forall|k: int| i <= k < self.activity.len() ==> self.activity@[k] == old(self).activity@[k],
            decreases self.activity.len() - i,
        {
            let a = self.activity[i] / RESCALE_FACTOR;
            self.activity.set(i, a);
            proof {
                Self::lemma_wf_frame(*old(self), *self);
            }
            i = i + 1;
        }
        assert(self.activity@ =~= rescaled(old(self).activity@));
        self.params.var_inc = self.params.var_inc / RESCALE_FACTOR;
        proof {
            Self::lemma_wf_frame(*old(self), *self);
        }
    }

    /// Saves the state of the queue; returns the number of saved states.
    pub fn save_state(&mut self) -> (l: DecLvl)
        requires
            old(self).wf(),
            old(self).saved.len() < u32::MAX,
        ensures
            final(self).wf(),
            final(self).saved@ == old(self).saved@.push(old(self).trail.len()),
            l == final(self).saved.len(),
            final(self).stages@ == old(self).stages@,
            final(self).queued@ == old(self).queued@,
            final(self).heaps@ == old(self).heaps@,
            final(self).activity@ == old(self).activity@,
            final(self).trail@ == old(self).trail@,
            final(self).params == old(self).params,
    {
        self.saved.push(self.trail.len());
        proof {
            assert forall|k: int| 0 <= k < self.saved.len() implies #[trigger] self.saved@[k] <= self.trail.len() by {
                if k < old(self).saved.len() {
                    assert(old(self).saved@[k] <= old(self).trail.len());
                }
            }
            assert forall|k1: int, k2: int| 0 <= k1 < k2 < self.saved.len() implies self.saved@[k1] <= self.saved@[k2] by {
                assert(old(self).saved@[k1] <= old(self).trail.len());
            }
            assert forall|k: int| 0 <= k < self.trail.len() implies match #[trigger] self.trail@[k] {
                HeapEvent::Removal(var, p) => self.declared(var.0 as int) && self.stages@[var.0 as int] == Some(p),
            } by {
                assert(old(self).trail@[k] == self.trail@[k]);
            }
            Self::lemma_wf_queue_frame(*old(self), *self);
        }
        self.saved.len() as DecLvl
    }

    /// Number of saved states.
    pub fn num_saved(&self) -> (n: u32)
        requires
            self.wf(),
        ensures
            n == self.saved.len(),
    {
        self.saved.len() as u32
    }

    /// Restores the last saved state: the variables removed from the queue since then are put
    /// back.
    pub fn restore_last(&mut self)
        requires
            old(self).wf(),
            old(self).saved.len() > 0,
        ensures
            final(self).wf(),
            final(self).saved@ == old(self).saved@.drop_last(),
            final(self).trail@ == old(self).trail@.subrange(0, old(self).saved@.last() as int),
            final(self).stages@ == old(self).stages@,
            final(self).activity@ == old(self).activity@,
            final(self).params == old(self).params,
            final(self).heaps.len() == old(self).heaps.len(),
            final(self).queued.len() == old(self).queued.len(),
            forall|v: int| 0 <= v < old(self).queued.len() ==> #[trigger] final(self).queued@[v] == (old(self).queued@[v]
                || exists|k: int|
                old(self).saved@.last() <= k < old(self).trail.len() && event_var(#[trigger] old(self).trail@[k]) == v),
    {
        let target = self.saved.pop().unwrap();
        proof {
            let n = old(self).saved.len() as int;
            assert forall|k: int| 0 <= k < self.saved.len() implies #[trigger] self.saved@[k] <= target by {
                assert(old(self).saved@[k] <= old(self).saved@[n - 1]);
            }
            assert(target <= self.trail.len());
            assert forall|k: int| 0 <= k < self.trail.len() implies match #[trigger] self.trail@[k] {
                HeapEvent::Removal(var, p) => self.declared(var.0 as int) && self.stages@[var.0 as int] == Some(p),
            } by {
                assert(old(self).trail@[k] == self.trail@[k]);
            }
            assert forall|k1: int, k2: int| 0 <= k1 < k2 < self.saved.len() implies self.saved@[k1] <= self.saved@[k2] by {
                assert(old(self).saved@[k1] <= old(self).saved@[k2]);
            }
            Self::lemma_wf_queue_frame(*old(self), *self);
            assert(self.trail@ =~= old(self).trail@.subrange(0, self.trail.len() as int));
        }
        while self.trail.len() > target
            invariant
                self.wf(),
                old(self).saved.len() > 0,
                forall|k: int| 0 <= k < self.saved.len() ==> #[trigger] self.saved@[k] <= target,
                target == old(self).saved@.last(),
                self.saved@ == old(self).saved@.drop_last(),
                target <= self.trail.len() <= old(self).trail.len(),
                self.trail@ == old(self).trail@.subrange(0, self.trail.len() as int),
                self.stages@ == old(self).stages@,
                self.activity@ == old(self).activity@,
                self.params == old(self).params,
                self.heaps.len() == old(self).heaps.len(),
                self.queued.len() == old(self).queued.len(),
                forall|v: int| 0 <= v < old(self).queued.len() ==> #[trigger] self.queued@[v] == (old(self).queued@[v]
                    || exists|k: int|
                    self.trail.len() <= k < old(self).trail.len() && event_var(#[trigger] old(self).trail@[k]) == v),
            decreases self.trail.len(),
        {
            let ghost before = *self;
            let ev = self.trail.pop().unwrap();
            proof {
                assert(ev == old(self).trail@[self.trail.len() as int]);
                assert(self.trail@ =~= old(self).trail@.subrange(0, self.trail.len() as int));
                assert forall|k: int| 0 <= k < self.trail.len() implies match #[trigger] self.trail@[k] {
                    HeapEvent::Removal(v, p) => self.declared(v.0 as int) && self.stages@[v.0 as int] == Some(p),
                } by {
                    assert(self.trail@[k] == before.trail@[k]);
                }
                assert(match before.trail@[before.trail.len() - 1] {
                    HeapEvent::Removal(v, p) => before.declared(v.0 as int) && before.stages@[v.0 as int] == Some(p),
                });
                assert forall|k1: int, k2: int| 0 <= k1 < k2 < self.saved.len() implies self.saved@[k1] <= self.saved@[k2] by {
                    assert(before.saved@[k1] <= before.saved@[k2]);
                }
                Self::lemma_wf_queue_frame(before, *self);
            }
            match ev {
                HeapEvent::Removal(var, _prio) => {
                    self.heap_enqueue(var);
                    proof {
                        let n = self.trail.len() as int;
                        assert forall|v: int| 0 <= v < old(self).queued.len() implies #[trigger] self.queued@[v] == (old(self).queued@[v]
                            || exists|k: int| n <= k < old(self).trail.len() && event_var(#[trigger] old(self).trail@[k]) == v) by {
                            if v == var.0 {
                                assert(event_var(old(self).trail@[n]) == v);
                            } else {
                                if exists|k: int| n <= k < old(self).trail.len() && event_var(#[trigger] old(self).trail@[k]) == v {
                                    let k = choose|k: int| n <= k < old(self).trail.len() && event_var(#[trigger] old(self).trail@[k]) == v;
                                    assert(k != n);
                                }
                            }
                        }
                    }
                },
            }
        }
    }
}

/// Extracts the queued variables of a `VarSelect` by stage: first those of the lowest stage,
/// then the next, and so on.
pub struct Popper {
    /// The stage being extracted.
    pub stage: usize,
}

impl Popper {
    /// The next variable to extract, left in the queue: a most active variable of the first
    /// stage, from the current one, that has queued variables. `None` when no such stage is left.
    pub fn peek(&mut self, sel: &VarSelect) -> (r: Option<VarRef>)
        requires
            sel.wf(),
        ensures
            final(self).stage >= old(self).stage,
            forall|s: int| old(self).stage <= s < final(self).stage ==> #[trigger] sel.stage_empty(s),
            match r {
                Some(v) => {
                    &&& final(self).stage < sel.heaps.len()
                    &&& sel.is_best_of(v.0 as int, final(self).stage as int)
                    &&& exists|i: int| sel.is_first_best(final(self).stage as int, i) && sel.heaps@[final(self).stage as int]@[i] == v
                },
                None => final(self).stage >= sel.heaps.len(),
            },
    {
        while self.stage < sel.heaps.len()
            invariant
                sel.wf(),
                self.stage >= old(self).stage,
                forall|s: int| old(self).stage <= s < self.stage ==> #[trigger] sel.stage_empty(s),
            decreases sel.heaps.len() - self.stage,
        {
            if sel.heaps[self.stage].len() > 0 {
                let i = sel.best_in(self.stage);
                return Some(sel.heaps[self.stage][i]);
            }
            self.stage = self.stage + 1;
        }
        None
    }

    /// Removes from the queue, and returns, the variable that `peek` would return; the removal
    /// is recorded to be undone on backtracking.
    pub fn pop(&mut self, sel: &mut VarSelect) -> (r: Option<VarRef>)
        requires
            old(sel).wf(),
        ensures
            final(sel).wf(),
            final(self).stage >= old(self).stage,
            forall|s: int| old(self).stage <= s < final(self).stage ==> #[trigger] old(sel).stage_empty(s),
            final(sel).stages@ == old(sel).stages@,
            final(sel).activity@ == old(sel).activity@,
            final(sel).params == old(sel).params,
            final(sel).heaps.len() == old(sel).heaps.len(),
            final(sel).saved@ == old(sel).saved@,
            popped(*old(sel), *final(sel)),
            match r {
                Some(v) => {
                    &&& final(self).stage < old(sel).heaps.len()
                    &&& old(sel).is_best_of(v.0 as int, final(self).stage as int)
                    &&& exists|i: int| old(sel).is_first_best(final(self).stage as int, i) && old(sel).heaps@[final(self).stage as int]@[i] == v
                    &&& final(sel).queued@ == old(sel).queued@.update(v.0 as int, false)
                    &&& final(sel).trail@ == old(sel).trail@.push(HeapEvent::Removal(v, final(self).stage as u8))
                    &&& final(sel).heaps@[final(self).stage as int].len() == old(sel).heaps@[final(self).stage as int].len() - 1
                    &&& forall|t: int| 0 <= t < old(sel).heaps.len() && t != final(self).stage ==> #[trigger] final(sel).heaps@[t] == old(sel).heaps@[t]
                },
                None => {
                    &&& final(self).stage >= old(sel).heaps.len()
                    &&& final(sel).queued@ == old(sel).queued@
                    &&& final(sel).trail@ == old(sel).trail@
                },
            },
    {
        while self.stage < sel.heaps.len()
            invariant
                sel.wf(),
                *sel == *old(sel),
                self.stage >= old(self).stage,
                forall|s: int| old(self).stage <= s < self.stage ==> #[trigger] sel.stage_empty(s),
            decreases sel.heaps.len() - self.stage,
        {
            if sel.heaps[self.stage].len() > 0 {
                let i = sel.best_in(self.stage);
                let ghost before = *sel;
                let v = sel.remove_at(self.stage, i);
                proof {
                    assert(before.is_queued(v.0 as int));
                    assert(sel.trail@ == before.trail@.push(HeapEvent::Removal(v, self.stage as u8)));
                }
                return Some(v);
            }
            self.stage = self.stage + 1;
        }
        None
    }
}

/*******************************************************************/

/// `rand::rngs::StdRng`: the generator of the initial activities.
#[verifier::external_type_specification]
#[verifier::external_body]
pub struct ExStdRng(rand::rngs::StdRng);

/// `StdRng::seed_from_u64`: the generator seeded with `seed`. The source derives it from the
/// seed alone, but a `StdRng` has no plain value to state that over, so nothing is claimed of it.
#[verifier::external_body]
fn seeded_rng(seed: u64) -> (r: rand::rngs::StdRng) {
    rand::rngs::StdRng::seed_from_u64(seed)
}

/// `Rng::gen_range` on the range `lo..hi`: claims only that the result lies in the range, which
/// the documentation promises; which value comes depends on the state of the generator.
#[verifier::external_body]
fn random_in(rng: &mut rand::rngs::StdRng, lo: u128, hi: u128) -> (r: u128)
    requires
        lo < hi,
    ensures
        lo <= r < hi,
{
    rng.gen_range(lo..hi)
}

/// Lowest initial activity of a variable, in units.
pub const INITIAL_ACTIVITY_MIN: u128 = 980_000;

/// Bound, excluded, on the initial activity of a variable, in units.
pub const INITIAL_ACTIVITY_MAX: u128 = 1_020_000;

/// Parameters of branching.
#[derive(Clone, Copy, Debug)]
pub struct BranchingParams {
    /// Whether a decision prefers the lower values of a domain.
    pub prefer_min_value: bool,
    /// Number of conflicts allowed before the next restart.
    pub allowed_conflicts: u64,
    /// The allowed conflicts are multiplied by `increase_ratio_num / increase_ratio_den` at
    /// each restart.
    pub increase_ratio_num: u64,
    pub increase_ratio_den: u64,
}

impl Default for BranchingParams {
    fn default() -> (p: BranchingParams)
        ensures
            p.prefer_min_value,
            p.allowed_conflicts == 100,
            p.increase_ratio_num == 3,
            p.increase_ratio_den == 2,
    {
        BranchingParams { prefer_min_value: true, allowed_conflicts: 100, increase_ratio_num: 3, increase_ratio_den: 2 }
    }
}

/// Preferred values of variables, indexed by variable.
#[derive(Clone, Debug)]
pub struct DefaultValues {
    pub bools: Vec<Option<IntCst>>,
}

impl DefaultValues {
    /// The preferred value of the variable, if any.
    pub fn lookup(&self, v: VarRef) -> (r: Option<IntCst>)
        ensures
            r == self.get(v.0 as int),
    {
        if (v.0 as usize) < self.bools.len() {
            self.bools[v.0 as usize]
        } else {
            None
        }
    }

    /// The preferred value of the variable, if any.
    pub open spec fn get(&self, v: int) -> Option<IntCst> {
        if 0 <= v < self.bools.len() {
            self.bools@[v]
        } else {
            None
        }
    }
}

/// A decision of the brancher.
#[derive(Clone, Copy, Debug, PartialEq, Eq, Structural)]
pub enum Decision {
    /// Branch on this literal.
    SetLiteral(Bound),
    /// Restart the search.
    Restart,
}

/// The number of allowed conflicts after a restart: multiplied by the ratio, rounded down, and
/// capped at `u64::MAX`.
pub open spec fn grown_allowed(allowed: u64, num: u64, den: u64) -> u64 {
    if (allowed * num) as int / (den as int) <= u64::MAX {
        ((allowed * num) as int / (den as int)) as u64
    } else {
        u64::MAX
    }
}

/// The literal chosen to branch on `v`, of bounds `lb` and `ub`: the preferred value if it is in
/// the domain, else the lower bound (or the upper one, when larger values are preferred), is
/// split off from the rest of the domain.
pub open spec fn decision_literal(v: VarRef, lb: int, ub: int, default: Option<IntCst>, prefer_min: bool) -> Lit {
    let value: int = match default {
        Some(x) => x as int,
        None => if prefer_min {
            lb
        } else {
            ub
        },
    };
    if value < lb || value > ub {
        if prefer_min {
            Lit { var: v, relation: crate::model::bounds::Relation::Leq, value: lb as IntCst }
        } else {
            Lit { var: v, relation: crate::model::bounds::Relation::Geq, value: ub as IntCst }
        }
    } else if ub > value && prefer_min {
        Lit { var: v, relation: crate::model::bounds::Relation::Leq, value: value as IntCst }
    } else if lb < value {
        Lit { var: v, relation: crate::model::bounds::Relation::Geq, value: value as IntCst }
    } else {
        Lit { var: v, relation: crate::model::bounds::Relation::Leq, value: value as IntCst }
    }
}

/// A decision on a variable with more than one value splits its domain: the chosen literal holds
/// for some value of the domain and fails for another.
pub proof fn lemma_decision_splits(v: VarRef, lb: IntCst, ub: IntCst, default: Option<IntCst>, prefer_min: bool)
    requires
        lb < ub,
    ensures
        ({
            let l = decision_literal(v, lb as int, ub as int, default, prefer_min);
            &&& l.var == v
            &&& exists|x: int| lb <= x <= ub && l.holds(x)
            &&& exists|x: int| lb <= x <= ub && !l.holds(x)
        }),
{
    let l = decision_literal(v, lb as int, ub as int, default, prefer_min);
    let value: int = match default {
        Some(x) => x as int,
        None => if prefer_min {
            lb as int
        } else {
            ub as int
        },
    };
    if value < lb || value > ub {
        assert(l.holds(lb as int) != l.holds(ub as int));
    } else if ub > value && prefer_min {
        assert(l.holds(value) && !l.holds(ub as int));
    } else if lb < value {
        assert(l.holds(value) && !l.holds(lb as int));
    } else {
        assert(l.holds(lb as int) && !l.holds(ub as int));
    }
}

/// Chooses the variable to branch on and the literal to set on it.
pub struct Brancher {
    pub params: BranchingParams,
    pub heap: VarSelect,
    pub default_assignment: DefaultValues,
    /// Number of conflicts of the search at the last restart.
    pub conflicts_at_last_restart: u64,
    /// Number of variables of the model already declared in the queue.
    pub num_processed_var: usize,
    pub rng: rand::rngs::StdRng,
}

/// The stage in which a variable of the model is imported: 0 when its domain has at most one
/// value, 1 otherwise.
pub open spec fn import_stage(model: Domains, v: int) -> int {
    if model.vars@[v].ub - model.vars@[v].lb + 1 <= 1 {
        0
    } else {
        1
    }
}

/// The variables `lo..hi` of the model imported in stage `s`, in order.
pub open spec fn imported_in_stage(model: Domains, lo: int, hi: int, s: int) -> Seq<VarRef>
    decreases hi - lo,
{
    if hi <= lo {
        Seq::empty()
    } else {
        imported_in_stage(model, lo, hi - 1, s) + (if import_stage(model, hi - 1) == s {
            seq![VarRef((hi - 1) as u32)]
        } else {
            Seq::empty()
        })
    }
}

/// Whether the variable of the model has a single value left or is known to be absent.
pub open spec fn bound_or_absent(model: Domains, v: int) -> bool {
    model.vars@[v].lb == model.vars@[v].ub || model.vars@[v].present == Some(false)
}

impl Brancher {
    pub open spec fn wf(&self) -> bool {
        &&& self.heap.wf()
        &&& self.heap.stages.len() == self.num_processed_var
        &&& forall|v: int| 0 <= v < self.num_processed_var ==> #[trigger] self.heap.declared(v)
        &&& self.params.increase_ratio_den > 0
    }

    /// Every declared variable that may still take more than one value, and is not known to be
    /// absent, is queued.
    pub open spec fn queue_complete(&self, model: Domains) -> bool {
        forall|v: int|
            0 <= v < self.num_processed_var && v < model.vars.len() && !bound_or_absent(model, v)
                ==> #[trigger] self.heap.is_queued(v)
    }

    pub fn new() -> (b: Brancher)
        ensures
            b.wf(),
            b.num_processed_var == 0,
            b.conflicts_at_last_restart == 0,
            b.params.prefer_min_value,
            b.params.allowed_conflicts == 100,
            b.params.increase_ratio_num == 3,
            b.params.increase_ratio_den == 2,
            b.default_assignment.bools.len() == 0,
            b.heap.saved.len() == 0,
            b.heap.trail.len() == 0,
            b.heap.heaps.len() == 0,
            b.heap.params.var_inc == ACTIVITY_UNIT,
            b.heap.params.var_decay_percent == 95,
    {
        Brancher {
            params: BranchingParams::default(),
            heap: VarSelect::new(BoolHeuristicParams::default()),
            default_assignment: DefaultValues { bools: Vec::new() },
            conflicts_at_last_restart: 0,
            num_processed_var: 0,
            rng: seeded_rng(0),
        }
    }

    /// Seeds the generator of initial activities anew.
    pub fn set_seed(&mut self, seed: u64)
        requires
            old(self).wf(),
        ensures
            final(self).wf(),
            final(self).params == old(self).params,
            final(self).heap == old(self).heap,
            final(self).default_assignment == old(self).default_assignment,
            final(self).conflicts_at_last_restart == old(self).conflicts_at_last_restart,
            final(self).num_processed_var == old(self).num_processed_var,
    {
        self.rng = seeded_rng(seed);
    }

    /// Declares and queues the variables of the model not declared yet: those with at most one
    /// value in stage 0, the others in stage 1, each with a random initial activity. They join
    /// the end of the queue of their stage, in order.
    pub fn import_vars(&mut self, model: &Domains)
        requires
            old(self).wf(),
            model.vars.len() <= u32::MAX + 1,
        ensures
            final(self).wf(),
            final(self).params == old(self).params,
            final(self).default_assignment == old(self).default_assignment,
            final(self).conflicts_at_last_restart == old(self).conflicts_at_last_restart,
            final(self).num_processed_var == if model.vars.len() > old(self).num_processed_var {
                model.vars.len()
            } else {
                old(self).num_processed_var
            },
            final(self).heap.trail@ == old(self).heap.trail@,
            final(self).heap.saved@ == old(self).heap.saved@,
            final(self).heap.params == old(self).heap.params,
            forall|v: int| 0 <= v < old(self).num_processed_var ==> {
                &&& final(self).heap.stages@[v] == #[trigger] old(self).heap.stages@[v]
                &&& final(self).heap.activity@[v] == old(self).heap.activity@[v]
                &&& final(self).heap.queued@[v] == old(self).heap.queued@[v]
            },
            forall|v: int| old(self).num_processed_var <= v < final(self).num_processed_var ==> {
                &&& #[trigger] final(self).heap.queued@[v]
                &&& final(self).heap.stages@[v] == Some(
                    if model.vars@[v].ub - model.vars@[v].lb + 1 <= 1 {
                        0u8
                    } else {
                        1u8
                    },
                )
                &&& INITIAL_ACTIVITY_MIN <= final(self).heap.activity@[v] < INITIAL_ACTIVITY_MAX
            },
            model.vars.len() <= old(self).num_processed_var ==> *final(self) == *old(self),
            final(self).heap.heaps.len() >= old(self).heap.heaps.len(),
            forall|s: int|
                0 <= s < final(self).heap.heaps.len() ==> #[trigger] final(self).heap.heaps@[s]@ == (if s
                    < old(self).heap.heaps.len() {
                    old(self).heap.heaps@[s]@
                } else {
                    Seq::empty()
                }) + imported_in_stage(*model, old(self).num_processed_var as int, final(self).num_processed_var as int, s),
    {
        let n = model.num_variables();
        let mut count: usize = 0;
        while self.num_processed_var + count < n
            invariant
                self.heap.wf(),
                old(self).wf(),
                n == model.vars.len(),
                n <= u32::MAX + 1,
                self.num_processed_var == old(self).num_processed_var,
                self.params == old(self).params,
                self.default_assignment == old(self).default_assignment,
                self.conflicts_at_last_restart == old(self).conflicts_at_last_restart,
                self.heap.stages.len() == self.num_processed_var + count,
                self.num_processed_var + count <= if n > self.num_processed_var {
                    n as int
                } else {
                    self.num_processed_var as int
                },
                forall|v: int| 0 <= v < self.num_processed_var + count ==> #[trigger] self.heap.declared(v),
                self.heap.trail@ == old(self).heap.trail@,
                self.heap.saved@ == old(self).heap.saved@,
                self.heap.params == old(self).heap.params,
                forall|v: int| 0 <= v < old(self).num_processed_var ==> {
                    &&& self.heap.stages@[v] == #[trigger] old(self).heap.stages@[v]
                    &&& self.heap.activity@[v] == old(self).heap.activity@[v]
                    &&& self.heap.queued@[v] == old(self).heap.queued@[v]
                },
                forall|v: int| old(self).num_processed_var <= v < self.num_processed_var + count ==> #[trigger] self.heap.queued@[v],
                forall|v: int| old(self).num_processed_var <= v < self.num_processed_var + count ==> #[trigger] self.heap.stages@[v] == Some(
                        if model.vars@[v].ub - model.vars@[v].lb + 1 <= 1 {
                            0u8
                        } else {
                            1u8
                        },
                    ),
                forall|v: int| old(self).num_processed_var <= v < self.num_processed_var + count ==> INITIAL_ACTIVITY_MIN <= #[trigger] self.heap.activity@[v] < INITIAL_ACTIVITY_MAX,
                count == 0 ==> *self == *old(self),
                self.heap.heaps.len() >= old(self).heap.heaps.len(),
                forall|s: int|
                    0 <= s < self.heap.heaps.len() ==> #[trigger] self.heap.heaps@[s]@ == (if s
                        < old(self).heap.heaps.len() {
                        old(self).heap.heaps@[s]@
                    } else {
                        Seq::empty()
                    }) + imported_in_stage(*model, old(self).num_processed_var as int, self.num_processed_var + count, s),
                forall|s: int|
                    self.heap.heaps.len() <= s ==> #[trigger] imported_in_stage(
                        *model,
                        old(self).num_processed_var as int,
                        self.num_processed_var + count,
                        s,
                    ) == Seq::<VarRef>::empty(),
            decreases n - (self.num_processed_var + count),
        {
            let idx = self.num_processed_var + count;
            let var = VarRef(idx as u32);
            let lb = model.vars[idx].lb;
            let ub = model.vars[idx].ub;
            let priority: u8 = if (ub as i64) - (lb as i64) + 1 <= 1 {
                0
            } else {
                1
            };
            let activity = random_in(&mut self.rng, INITIAL_ACTIVITY_MIN, INITIAL_ACTIVITY_MAX);
            let ghost before = self.heap;
            self.heap.add_variable(var, priority, Some(activity));
            let ghost added = self.heap;
            self.heap.enqueue_variable(var);
            proof {
                let lo = old(self).num_processed_var as int;
                assert(import_stage(*model, idx as int) == priority);
                assert forall|s: int| 0 <= s < self.heap.heaps.len() implies #[trigger] self.heap.heaps@[s]@ == (if s
                    < old(self).heap.heaps.len() {
                    old(self).heap.heaps@[s]@
                } else {
                    Seq::empty()
                }) + imported_in_stage(*model, lo, idx + 1, s) by {
                    let prev = (if s < old(self).heap.heaps.len() {
                        old(self).heap.heaps@[s]@
                    } else {
                        Seq::<VarRef>::empty()
                    });
                    assert(added.heaps@[s]@ == prev + imported_in_stage(*model, lo, idx as int, s)) by {
                        if s < before.heaps.len() {
                            assert(added.heaps@[s] == before.heaps@[s]);
                        } else {
                            assert(added.heaps@[s].len() == 0);
                            assert(imported_in_stage(*model, lo, idx as int, s) == Seq::<VarRef>::empty());
                            assert(added.heaps@[s]@ =~= prev + imported_in_stage(*model, lo, idx as int, s));
                        }
                    }
                    if s == priority as int {
                        assert(self.heap.heaps@[s]@ =~= prev + imported_in_stage(*model, lo, idx + 1, s));
                    } else {
                        assert(self.heap.heaps@[s] == added.heaps@[s]);
                        assert(self.heap.heaps@[s]@ =~= prev + imported_in_stage(*model, lo, idx + 1, s));
                    }
                }
                assert forall|s: int| self.heap.heaps.len() <= s implies #[trigger] imported_in_stage(*model, lo, idx + 1, s)
                    == Seq::<VarRef>::empty() by {
                    assert(imported_in_stage(*model, lo, idx as int, s) == Seq::<VarRef>::empty());
                    assert(imported_in_stage(*model, lo, idx + 1, s) =~= Seq::<VarRef>::empty());
                }
                assert forall|v: int| 0 <= v < idx + 1 implies #[trigger] self.heap.declared(v) by {
                    if v < idx {
                        assert(before.declared(v));
                        assert(self.heap.stages@[v] == before.stages@[v]);
                    }
                }
                assert forall|v: int| 0 <= v < old(self).num_processed_var implies {
                    &&& self.heap.stages@[v] == #[trigger] old(self).heap.stages@[v]
                    &&& self.heap.activity@[v] == old(self).heap.activity@[v]
                    &&& self.heap.queued@[v] == old(self).heap.queued@[v]
                } by {
                    assert(before.stages@[v] == old(self).heap.stages@[v]);
                }
                assert forall|v: int| old(self).num_processed_var <= v < idx + 1 implies #[trigger] self.heap.queued@[v] by {
                    if v < idx {
                        assert(before.queued@[v]);
                        assert(before.stages@[v] == self.heap.stages@[v]);
                    }
                }
                assert forall|v: int| old(self).num_processed_var <= v < idx + 1 implies #[trigger] self.heap.stages@[v] == Some(
                        if model.vars@[v].ub - model.vars@[v].lb + 1 <= 1 {
                            0u8
                        } else {
                            1u8
                        },
                    ) by {
                    if v == idx {
                        assert(self.heap.stages@[idx as int] == Some(priority));
                        assert(lb == model.vars@[v].lb && ub == model.vars@[v].ub);
                    } else {
                        assert(before.stages@[v] == self.heap.stages@[v]);
                    }
                }
                assert forall|v: int| old(self).num_processed_var <= v < idx + 1 implies INITIAL_ACTIVITY_MIN <= #[trigger] self.heap.activity@[v] < INITIAL_ACTIVITY_MAX by {
                    if v < idx {
                        assert(before.stages@[v] == self.heap.stages@[v]);
                        assert(before.activity@[v] == self.heap.activity@[v]);
                    }
                }
            }
            count = count + 1;
        }
        self.num_processed_var = self.num_processed_var + count;
    }

    /// Selects the next decision to make while maintaining the invariant that every non bound
    /// variable remains in the queue.
    ///
    /// The queued variables that are bound or absent are removed from the queue, in the order of
    /// extraction, until an unbound one comes first. If the conflicts since the last restart
    /// reach the allowed number, the decision is a restart, and the allowed number grows;
    /// otherwise it sets a literal on that variable (see `decision_literal`).
    ///
    /// Each removal is recorded in the trail of the queue, so that restoring the last saved state
    /// puts the removed variables back.
    ///
    /// Returns `None` if no decision is left to be made.
    pub fn next_decision(&mut self, stats: &Stats, model: &Domains) -> (r: Option<Decision>)
        requires
            old(self).wf(),
            model.vars.len() <= u32::MAX + 1,
            old(self).num_processed_var <= model.vars.len(),
            stats.num_conflicts >= old(self).conflicts_at_last_restart,
        ensures
            final(self).wf(),
            final(self).num_processed_var == model.vars.len(),
            final(self).default_assignment == old(self).default_assignment,
            final(self).heap.stages@.subrange(0, old(self).num_processed_var as int) == old(self).heap.stages@,
            old(self).queue_complete(*model) ==> final(self).queue_complete(*model),
            forall|v: int|
                0 <= v < old(self).num_processed_var && old(self).heap.is_queued(v) && !#[trigger] final(self).heap.is_queued(v)
                    ==> bound_or_absent(*model, v),
            final(self).heap.saved@ == old(self).heap.saved@,
            old(self).heap.trail.len() <= final(self).heap.trail.len(),
            final(self).heap.trail@.subrange(0, old(self).heap.trail.len() as int) == old(self).heap.trail@,
            forall|k: int|
                old(self).heap.trail.len() <= k < final(self).heap.trail.len() ==> {
                    &&& bound_or_absent(*model, event_var(#[trigger] final(self).heap.trail@[k]))
                    &&& queued_after_import(*old(self), event_var(final(self).heap.trail@[k]))
                },
            forall|v: int|
                0 <= v < final(self).num_processed_var ==> #[trigger] final(self).heap.queued@[v] == (queued_after_import(
                    *old(self),
                    v,
                ) && !removed_since(old(self).heap, final(self).heap, v)),
            match r {
                None => {
                    &&& forall|v: int| 0 <= v < final(self).num_processed_var ==> !#[trigger] final(self).heap.is_queued(v)
                    &&& final(self).params == old(self).params
                    &&& final(self).conflicts_at_last_restart == old(self).conflicts_at_last_restart
                },
                Some(d) => {
                    &&& exists|v: int| {
                        &&& #[trigger] final(self).heap.is_queued(v)
                        &&& !bound_or_absent(*model, v)
                        &&& final(self).heap.is_best_of(v, final(self).heap.stage(v))
                        &&& forall|s: int| 0 <= s < final(self).heap.stage(v) ==> #[trigger] final(self).heap.stage_empty(s)
                        &&& (d matches Decision::SetLiteral(l) ==> l == decision_literal(
                            VarRef(v as u32),
                            model.vars@[v].lb as int,
                            model.vars@[v].ub as int,
                            old(self).default_assignment.get(v),
                            old(self).params.prefer_min_value,
                        ))
                        &&& (d matches Decision::SetLiteral(l) ==> {
                            &&& l.var == VarRef(v as u32)
                            &&& old(self).default_assignment.get(v) is None && old(self).params.prefer_min_value
                                ==> forall|x: int| #[trigger] l.holds(x) == (x <= model.vars@[v].lb)
                            &&& old(self).default_assignment.get(v) is None && !old(self).params.prefer_min_value
                                ==> forall|x: int| #[trigger] l.holds(x) == (x >= model.vars@[v].ub)
                            &&& old(self).default_assignment.get(v) is Some && model.vars@[v].lb
                                <= old(self).default_assignment.get(v)->0 && old(self).default_assignment.get(v)->0
                                <= model.vars@[v].ub ==> l.holds(old(self).default_assignment.get(v)->0 as int)
                            &&& old(self).default_assignment.get(v) is Some ==> ({
                                let p = old(self).default_assignment.get(v)->0 as int;
                                let lb = model.vars@[v].lb as int;
                                let ub = model.vars@[v].ub as int;
                                let pm = old(self).params.prefer_min_value;
                                &&& (p < lb || p > ub) && pm ==> forall|x: int| #[trigger] l.holds(x) == (x <= lb)
                                &&& (p < lb || p > ub) && !pm ==> forall|x: int| #[trigger] l.holds(x) == (x >= ub)
                                &&& lb <= p <= ub && ((pm && p < ub) || (!pm && p == lb)) ==> forall|x: int|
                                    #[trigger] l.holds(x) == (x <= p)
                                &&& lb <= p <= ub && ((!pm && p > lb) || (pm && p == ub)) ==> forall|x: int|
                                    #[trigger] l.holds(x) == (x >= p)
                            })
                        })
                    }
                    &&& (d is Restart) == (stats.num_conflicts - old(self).conflicts_at_last_restart
                        >= old(self).params.allowed_conflicts)
                    &&& d is Restart ==> {
                        &&& final(self).conflicts_at_last_restart == stats.num_conflicts
                        &&& final(self).params.allowed_conflicts == grown_allowed(
                            old(self).params.allowed_conflicts,
                            old(self).params.increase_ratio_num,
                            old(self).params.increase_ratio_den,
                        )
                        &&& final(self).params.prefer_min_value == old(self).params.prefer_min_value
                        &&& final(self).params.increase_ratio_num == old(self).params.increase_ratio_num
                        &&& final(self).params.increase_ratio_den == old(self).params.increase_ratio_den
                    }
                    &&& d is SetLiteral ==> {
                        &&& final(self).params == old(self).params
                        &&& final(self).conflicts_at_last_restart == old(self).conflicts_at_last_restart
                    }
                },
            },
    {
        self.import_vars(model);
        let ghost imported = *self;
        proof {
            assert(self.heap.stages@.subrange(0, old(self).num_processed_var as int) =~= old(self).heap.stages@);
        }
        proof {
            lemma_pops_start(imported.heap);
        }
        let mut popper = self.heap.extractor();
        // extract the highest priority variable that is not set yet.
        let mut next_unset: Option<VarRef> = None;
        loop
            invariant_except_break
                next_unset is None,
            invariant
                self.wf(),
                self.num_processed_var == model.vars.len(),
                model.vars.len() <= u32::MAX + 1,
                self.params == old(self).params,
                self.default_assignment == old(self).default_assignment,
                self.conflicts_at_last_restart == old(self).conflicts_at_last_restart,
                self.heap.stages@ == imported.heap.stages@,
                self.heap.queued.len() == imported.heap.queued.len(),
                forall|v: int|
                    0 <= v < self.heap.queued.len() && imported.heap.is_queued(v) && !#[trigger] self.heap.is_queued(v)
                        ==> bound_or_absent(*model, v),
                forall|v: int| 0 <= v < self.heap.queued.len() && #[trigger] self.heap.is_queued(v) ==> imported.heap.is_queued(v),
                forall|s: int| 0 <= s < popper.stage ==> #[trigger] self.heap.stage_empty(s),
                pops_since(imported.heap, self.heap),
                forall|k: int|
                    imported.heap.trail.len() <= k < self.heap.trail.len() ==> bound_or_absent(
                        *model,
                        event_var(#[trigger] self.heap.trail@[k]),
                    ),
            ensures
                pops_since(imported.heap, self.heap),
                forall|k: int|
                    imported.heap.trail.len() <= k < self.heap.trail.len() ==> bound_or_absent(
                        *model,
                        event_var(#[trigger] self.heap.trail@[k]),
                    ),
                self.wf(),
                self.num_processed_var == model.vars.len(),
                self.params == old(self).params,
                self.default_assignment == old(self).default_assignment,
                self.conflicts_at_last_restart == old(self).conflicts_at_last_restart,
                self.heap.stages@ == imported.heap.stages@,
                self.heap.queued.len() == imported.heap.queued.len(),
                forall|v: int|
                    0 <= v < self.heap.queued.len() && imported.heap.is_queued(v) && !#[trigger] self.heap.is_queued(v)
                        ==> bound_or_absent(*model, v),
                match next_unset {
                    Some(v) => {
                        &&& self.heap.is_queued(v.0 as int)
                        &&& !bound_or_absent(*model, v.0 as int)
                        &&& self.heap.is_best_of(v.0 as int, self.heap.stage(v.0 as int))
                        &&& forall|s: int| 0 <= s < self.heap.stage(v.0 as int) ==> #[trigger] self.heap.stage_empty(s)
                    },
                    None => forall|v: int| 0 <= v < self.num_processed_var ==> !#[trigger] self.heap.is_queued(v),
                },
            decreases self.heap.heaps.len() - popper.stage, self.heap.heaps@[popper.stage as int].len(),
        {
            let ghost before = *self;
            let peeked = popper.peek(&self.heap);
            let ghost sp = popper.stage;
            match peeked {
                Some(v) => {
                    if model.is_bound(v) || model.present(v) == Some(false) {
                        // already bound or absent, drop the peeked variable before proceeding to next
                        let popped = popper.pop(&mut self.heap);
                        proof {
                            let s1 = popper.stage as int;
                            let i = choose|i: int| before.heap.is_first_best(sp as int, i) && before.heap.heaps@[sp as int]@[i] == v;
                            if s1 > sp {
                                assert(before.heap.stage_empty(sp as int));
                            }
                            assert(s1 == sp);
                            assert forall|u: int| 0 <= u < self.num_processed_var implies #[trigger] self.heap.declared(u) by {
                                assert(before.heap.declared(u));
                            }
                            assert(bound_or_absent(*model, v.0 as int));
                            assert forall|t: int| 0 <= t < popper.stage implies #[trigger] self.heap.stage_empty(t) by {
                                assert(before.heap.stage_empty(t));
                                assert(self.heap.heaps@[t] == before.heap.heaps@[t]);
                            }
                            assert forall|u: int|
                                0 <= u < self.heap.queued.len() && imported.heap.is_queued(u) && !#[trigger] self.heap.is_queued(u)
                                    implies bound_or_absent(*model, u) by {
                                if u != v.0 {
                                    assert(self.heap.queued@[u] == before.heap.queued@[u]);
                                    assert(!before.heap.is_queued(u));
                                }
                            }
                            assert forall|u: int| 0 <= u < self.heap.queued.len() && #[trigger] self.heap.is_queued(u) implies imported.heap.is_queued(u) by {
                                assert(self.heap.queued@[u] ==> before.heap.queued@[u]);
                                assert(before.heap.is_queued(u));
                            }
                            let p = popped->0;
                            let j = choose|j: int| before.heap.is_first_best(s1, j) && before.heap.heaps@[s1]@[j] == p;
                            before.heap.lemma_first_best_unique(s1, i, j);
                            assert(p == v);
                            lemma_pop_recorded(imported.heap, before.heap, self.heap, v, popper.stage as u8);
                            assert forall|k: int|
                                imported.heap.trail.len() <= k < self.heap.trail.len() implies bound_or_absent(
                                    *model,
                                    event_var(#[trigger] self.heap.trail@[k]),
                                ) by {
                                if k < before.heap.trail.len() {
                                    assert(self.heap.trail@[k] == before.heap.trail@[k]);
                                }
                            }
                        }
                    } else {
                        // not set, select for decision
                        next_unset = Some(v);
                        break;
                    }
                },
                None => {
                    // no variables left in queue
                    proof {
                        assert forall|v: int| 0 <= v < self.num_processed_var implies !#[trigger] self.heap.is_queued(v) by {
                            if self.heap.is_queued(v) {
                                let s = self.heap.stage(v);
                                let i = choose|i: int| 0 <= i < self.heap.heaps@[s].len() && self.heap.heaps@[s]@[i].0 == v;
                                assert(self.heap.stage_empty(s));
                            }
                        }
                    }
                    break;
                },
            }
        }
        proof {
            assert forall|v: int|
                0 <= v < old(self).num_processed_var && old(self).heap.is_queued(v) && !#[trigger] self.heap.is_queued(v)
                    implies bound_or_absent(*model, v) by {
                assert(imported.heap.stages@[v] == old(self).heap.stages@[v]);
                assert(imported.heap.queued@[v] == old(self).heap.queued@[v]);
            }
            assert forall|k: int|
                old(self).heap.trail.len() <= k < self.heap.trail.len() implies {
                    &&& bound_or_absent(*model, event_var(#[trigger] self.heap.trail@[k]))
                    &&& queued_after_import(*old(self), event_var(self.heap.trail@[k]))
                } by {
                let u = event_var(self.heap.trail@[k]);
                assert(imported.heap.is_queued(u));
                if u < old(self).num_processed_var {
                    assert(imported.heap.stages@[u] == old(self).heap.stages@[u]);
                    assert(imported.heap.queued@[u] == old(self).heap.queued@[u]);
                }
            }
            assert forall|v: int|
                0 <= v < self.num_processed_var implies #[trigger] self.heap.queued@[v] == (queued_after_import(
                    *old(self),
                    v,
                ) && !removed_since(old(self).heap, self.heap, v)) by {
                assert(self.heap.queued@[v] == (imported.heap.queued@[v] && !removed_since(imported.heap, self.heap, v)));
                if v < old(self).num_processed_var {
                    assert(imported.heap.stages@[v] == old(self).heap.stages@[v]);
                    assert(imported.heap.queued@[v] == old(self).heap.queued@[v]);
                } else {
                    assert(imported.heap.queued@[v]);
                }
            }
            if old(self).queue_complete(*model) {
                assert forall|v: int|
                    0 <= v < self.num_processed_var && v < model.vars.len() && !bound_or_absent(*model, v)
                        implies #[trigger] self.heap.is_queued(v) by {
                    if v < old(self).num_processed_var {
                        assert(old(self).heap.is_queued(v));
                        assert(imported.heap.stages@[v] == old(self).heap.stages@[v]);
                        assert(imported.heap.queued@[v] == old(self).heap.queued@[v]);
                    }
                    assert(imported.heap.is_queued(v));
                }
            }
        }
        if let Some(v) = next_unset {
            if stats.num_conflicts - self.conflicts_at_last_restart >= self.params.allowed_conflicts {
                // we have exceeded the number of allowed conflict, time for a restart
                self.conflicts_at_last_restart = stats.num_conflicts;
                // increase the number of allowed conflicts
                proof {
                    let a = self.params.allowed_conflicts;
                    let b = self.params.increase_ratio_num;
                    assert((a as u128) * (b as u128) <= u128::MAX) by (nonlinear_arith)
                        requires
                            a <= u64::MAX,
                            b <= u64::MAX,
                    ;
                }
                let grown: u128 = (self.params.allowed_conflicts as u128) * (self.params.increase_ratio_num as u128)
                    / (self.params.increase_ratio_den as u128);
                self.params.allowed_conflicts = if grown > u64::MAX as u128 {
                    u64::MAX
                } else {
                    grown as u64
                };
                proof {
                    assert((self.heap.is_queued(v.0 as int)));
                }
                Some(Decision::Restart)
            } else {
                // determine value for literal:
                // - first from per-variable preferred assignments
                // - otherwise from the preferred value for boolean variables
                let (lb, ub) = model.bounds(v);
                let idx = v.0 as usize;
                let value = match self.default_assignment.lookup(v) {
                    Some(x) => x,
                    None => if self.params.prefer_min_value {
                        lb
                    } else {
                        ub
                    },
                };
                let literal = if value < lb || value > ub {
                    if self.params.prefer_min_value {
                        Lit::leq(v, lb)
                    } else {
                        Lit::geq(v, ub)
                    }
                } else if ub > value && self.params.prefer_min_value {
                    Lit::leq(v, value)
                } else if lb < value {
                    Lit::geq(v, value)
                } else {
                    Lit::leq(v, value)
                };
                proof {
                    assert(VarRef(v.0 as int as u32) == v);
                    assert((self.heap.is_queued(v.0 as int)));
                    assert(!bound_or_absent(*model, v.0 as int));
                    assert(lb != ub);
                    assert(literal.var == v);
                }
                Some(Decision::SetLiteral(literal))
            }
        } else {
            // all variables are set, no decision left
            None
        }
    }
}

impl Brancher {
    /// Records the value preferred for the variable.
    pub fn set_default_value(&mut self, var: VarRef, val: IntCst)
        requires
            old(self).wf(),
        ensures
            final(self).wf(),
            final(self).params == old(self).params,
            final(self).heap == old(self).heap,
            final(self).conflicts_at_last_restart == old(self).conflicts_at_last_restart,
            final(self).num_processed_var == old(self).num_processed_var,
            final(self).default_assignment.get(var.0 as int) == Some(val),
            forall|u: int| u != var.0 ==> #[trigger] final(self).default_assignment.get(u) == old(self).default_assignment.get(u),
    {
        let idx = var.0 as usize;
        while self.default_assignment.bools.len() <= idx
            invariant
                self.wf(),
                self.params == old(self).params,
                self.heap == old(self).heap,
                self.conflicts_at_last_restart == old(self).conflicts_at_last_restart,
                self.num_processed_var == old(self).num_processed_var,
                forall|u: int| #[trigger] self.default_assignment.get(u) == old(self).default_assignment.get(u),
            decreases idx + 1 - self.default_assignment.bools.len(),
        {
            let ghost before = self.default_assignment;
            self.default_assignment.bools.push(None);
            assert forall|u: int| #[trigger] self.default_assignment.get(u) == before.get(u) by {}
        }
        let ghost before = self.default_assignment;
        self.default_assignment.bools.set(idx, Some(val));
        assert forall|u: int| u != var.0 implies #[trigger] self.default_assignment.get(u) == before.get(u) by {}
    }

    /// Declares the variables of the model, then records as preferred value of each bound one
    /// its value.
    pub fn set_default_values_from(&mut self, assignment: &Domains)
        requires
            old(self).wf(),
            assignment.vars.len() <= u32::MAX + 1,
        ensures
            final(self).wf(),
            final(self).params == old(self).params,
            final(self).conflicts_at_last_restart == old(self).conflicts_at_last_restart,
            final(self).num_processed_var == if assignment.vars.len() > old(self).num_processed_var {
                assignment.vars.len()
            } else {
                old(self).num_processed_var
            },
            forall|u: int| 0 <= u < assignment.vars.len() ==> #[trigger] final(self).default_assignment.get(u) == if assignment.vars@[u].lb == assignment.vars@[u].ub {
                Some(assignment.vars@[u].lb)
            } else {
                old(self).default_assignment.get(u)
            },
            forall|u: int| u >= assignment.vars.len() ==> #[trigger] final(self).default_assignment.get(u) == old(self).default_assignment.get(u),
    {
        self.import_vars(assignment);
        let n = assignment.num_variables();
        let mut i: usize = 0;
        while i < n
            invariant
                self.wf(),
                n == assignment.vars.len(),
                n <= u32::MAX + 1,
                i <= n,
                self.params == old(self).params,
                self.conflicts_at_last_restart == old(self).conflicts_at_last_restart,
                self.num_processed_var == if assignment.vars.len() > old(self).num_processed_var {
                    assignment.vars.len()
                } else {
                    old(self).num_processed_var
                },
                forall|u: int| 0 <= u < i ==> #[trigger] self.default_assignment.get(u) == if assignment.vars@[u].lb == assignment.vars@[u].ub {
                    Some(assignment.vars@[u].lb)
                } else {
                    old(self).default_assignment.get(u)
                },
                forall|u: int| u >= i ==> #[trigger] self.default_assignment.get(u) == old(self).default_assignment.get(u),
            decreases n - i,
        {
            let var = VarRef(i as u32);
            if assignment.is_bound(var) {
                let (lb, _ub) = assignment.bounds(var);
                self.set_default_value(var, lb);
            }
            i = i + 1;
        }
    }

    /// Increases the activity of the variable (see `VarSelect::var_bump_activity`). The activity
    /// is then used to select the next variable.
    pub fn bump_activity(&mut self, bvar: VarRef)
        requires
            old(self).wf(),
            old(self).heap.declared(bvar.0 as int),
        ensures
            final(self).wf(),
            final(self).params == old(self).params,
            final(self).default_assignment == old(self).default_assignment,
            final(self).conflicts_at_last_restart == old(self).conflicts_at_last_restart,
            final(self).num_processed_var == old(self).num_processed_var,
            final(self).heap.stages@ == old(self).heap.stages@,
            final(self).heap.queued@ == old(self).heap.queued@,
            ({
                let a = sat_add(old(self).heap.activity@[bvar.0 as int], old(self).heap.params.var_inc);
                let bumped = old(self).heap.activity@.update(bvar.0 as int, a);
                if a > ACTIVITY_LIMIT {
                    final(self).heap.activity@ == rescaled(bumped)
                } else {
                    final(self).heap.activity@ == bumped
                }
            }),
    {
        self.heap.var_bump_activity(bvar);
        proof {
            assert forall|v: int| 0 <= v < self.num_processed_var implies #[trigger] self.heap.declared(v) by {
                assert(old(self).heap.declared(v));
            }
        }
    }

    /// Saves the state of the queue; returns the number of saved states.
    pub fn save_state(&mut self) -> (l: DecLvl)
        requires
            old(self).wf(),
            old(self).heap.saved.len() < u32::MAX,
        ensures
            final(self).wf(),
            l == final(self).heap.saved.len(),
            final(self).heap.saved@ == old(self).heap.saved@.push(old(self).heap.trail.len()),
            final(self).heap.queued@ == old(self).heap.queued@,
            final(self).num_processed_var == old(self).num_processed_var,
            final(self).params == old(self).params,
    {
        let l = self.heap.save_state();
        proof {
            assert forall|v: int| 0 <= v < self.num_processed_var implies #[trigger] self.heap.declared(v) by {
                assert(old(self).heap.declared(v));
            }
        }
        l
    }

    /// Number of saved states.
    pub fn num_saved(&self) -> (n: u32)
        requires
            self.wf(),
        ensures
            n == self.heap.saved.len(),
    {
        self.heap.num_saved()
    }

    /// Restores the last saved state: the variables removed from the queue since then are queued
    /// again.
    pub fn restore_last(&mut self)
        requires
            old(self).wf(),
            old(self).heap.saved.len() > 0,
        ensures
            final(self).wf(),
            final(self).heap.saved@ == old(self).heap.saved@.drop_last(),
            final(self).num_processed_var == old(self).num_processed_var,
            final(self).params == old(self).params,
            forall|v: int| 0 <= v < old(self).num_processed_var ==> #[trigger] final(self).heap.queued@[v] == (
            old(self).heap.queued@[v] || exists|k: int|
                old(self).heap.saved@.last() <= k < old(self).heap.trail.len() && event_var(
                    #[trigger] old(self).heap.trail@[k],
                ) == v),
    {
        self.heap.restore_last();
        proof {
            assert forall|v: int| 0 <= v < self.num_processed_var implies #[trigger] self.heap.declared(v) by {
                assert(old(self).heap.declared(v));
            }
        }
    }
}

impl Default for Brancher {
    fn default() -> (b: Brancher)
        ensures
            b.wf(),
            b.num_processed_var == 0,
    {
        Self::new()
    }
}

} // verus!
