use vstd::prelude::*;
use crate::sat::lits::{BVar, MAX_VAR_ID};

verus! {

/// Variable-selection heuristic: a pool of candidate variables, each with an activity; the next
/// variable offered is a most active one of the pool.
pub struct Heur {
    /// Activity of each variable, indexed by variable.
    pub activity: Vec<u64>,
    /// Whether each variable is in the pool.
    pub in_heap: Vec<bool>,
    /// The variables of the pool.
    pub heap: Vec<BVar>,
}

impl Heur {
    pub open spec fn contains(&self, v: int) -> bool {
        self.in_heap@[v]
    }

    pub open spec fn num_vars(&self) -> nat {
        (self.in_heap.len() - 1) as nat
    }

    pub open spec fn wf(&self) -> bool {
        let n = self.num_vars();
        &&& self.in_heap.len() >= 1
        &&& self.activity.len() == self.in_heap.len()
        &&& !self.in_heap@[0]
        &&& forall|i: int| 0 <= i < self.heap.len() ==> 1 <= #[trigger] self.heap@[i].id <= n
        &&& forall|i: int| 0 <= i < self.heap.len() ==> self.in_heap@[#[trigger] self.heap@[i].id as int]
        &&& forall|i: int, j: int|
            0 <= i < j < self.heap.len() ==> self.heap@[i].id != self.heap@[j].id
        &&& forall|v: int| 0 <= v <= n && #[trigger] self.in_heap@[v] ==> exists|i: int|
            0 <= i < self.heap.len() && self.heap@[i].id == v
    }

    /// A pool holding the variables `1..=num_vars`, all with a null activity.
    pub fn init(num_vars: u32) -> (h: Heur)
        requires
            num_vars <= MAX_VAR_ID,
        ensures
            h.wf(),
            h.num_vars() == num_vars,
            forall|v: int| 1 <= v <= num_vars ==> #[trigger] h.contains(v),
            forall|v: int| 0 <= v <= num_vars ==> #[trigger] h.activity@[v] == 0,
    {
        let n = num_vars as usize + 1;
        let mut activity: Vec<u64> = Vec::new();
        let mut in_heap: Vec<bool> = Vec::new();
        let mut heap: Vec<BVar> = Vec::new();
        let mut i: usize = 0;
        while i < n
            invariant
                i <= n,
                n == num_vars + 1,
                activity.len() == i,
                in_heap.len() == i,
                heap.len() == if i == 0 { 0 } else { i - 1 },
                forall|v: int| 0 <= v < i ==> activity@[v] == 0,
                forall|v: int| 0 <= v < i ==> in_heap@[v] == (v != 0),
                forall|k: int| 0 <= k < heap.len() ==> #[trigger] heap@[k].id == k + 1,
            decreases n - i,
        {
            activity.push(0);
            in_heap.push(i != 0);
            if i != 0 {
                heap.push(BVar { id: i as u32 });
            }
            i = i + 1;
        }
        let h = Heur { activity, in_heap, heap };
        assert forall|v: int| 0 <= v <= num_vars && #[trigger] h.in_heap@[v] implies exists|k: int|
            0 <= k < h.heap.len() && h.heap@[k].id == v by {
            assert(h.heap@[v - 1].id == v);
        }
        h
    }

    /// Puts the variable back in the pool.
    pub fn var_insert(&mut self, v: BVar)
        requires
            old(self).wf(),
            1 <= v.id <= old(self).num_vars(),
        ensures
            final(self).wf(),
            final(self).in_heap@ == old(self).in_heap@.update(v.id as int, true),
            final(self).activity@ == old(self).activity@,
    {
        let ghost n = self.num_vars();
        if !self.in_heap[v.id as usize] {
            let ghost old_h = *self;
            self.in_heap.set(v.id as usize, true);
            self.heap.push(v);
            proof {
                assert forall|i: int| 0 <= i < self.heap.len() implies self.in_heap@[#[trigger] self.heap@[i].id as int] by {
                    if i < old_h.heap.len() {
                        assert(old_h.in_heap@[old_h.heap@[i].id as int]);
                    }
                }
                assert forall|i: int, j: int|
                    0 <= i < j < self.heap.len() implies self.heap@[i].id != self.heap@[j].id by {
                    if j < old_h.heap.len() {
                    } else {
                        assert(old_h.in_heap@[old_h.heap@[i].id as int]);
                    }
                }
                assert forall|u: int| 0 <= u <= n && #[trigger] self.in_heap@[u] implies exists|i: int|
                    0 <= i < self.heap.len() && self.heap@[i].id == u by {
                    if u != v.id {
                        assert(old_h.in_heap@[u]);
                        let i = choose|i: int| 0 <= i < old_h.heap.len() && old_h.heap@[i].id == u;
                        assert(self.heap@[i].id == u);
                    } else {
                        assert(self.heap@[self.heap.len() - 1].id == u);
                    }
                }
            }
        } else {
            assert(self.in_heap@ =~= self.in_heap@.update(v.id as int, true));
        }
    }
}

impl Heur {
    /// Removes from the pool, and returns, a variable of highest activity; `None` when the pool
    /// is empty.
    pub fn next_var(&mut self) -> (r: Option<BVar>)
        requires
            old(self).wf(),
        ensures
            final(self).wf(),
            final(self).activity@ == old(self).activity@,
            match r {
                None => {
                    &&& final(self).in_heap@ == old(self).in_heap@
                    &&& final(self).heap.len() == old(self).heap.len()
                    &&& forall|v: int| 0 <= v <= old(self).num_vars() ==> !#[trigger] old(self).contains(v)
                },
                Some(v) => {
                    &&& 1 <= v.id <= old(self).num_vars()
                    &&& old(self).contains(v.id as int)
                    &&& final(self).in_heap@ == old(self).in_heap@.update(v.id as int, false)
                    &&& final(self).heap.len() + 1 == old(self).heap.len()
                    &&& forall|u: int|
                        0 <= u <= old(self).num_vars() && #[trigger] old(self).contains(u)
                            ==> old(self).activity@[u] <= old(self).activity@[v.id as int]
                },
            },
    {
        let ghost n = self.num_vars();
        if self.heap.len() == 0 {
            proof {
                assert forall|v: int| 0 <= v <= n implies !#[trigger] self.contains(v) by {
                    if self.in_heap@[v] {
                        let i = choose|i: int| 0 <= i < self.heap.len() && self.heap@[i].id == v;
                    }
                }
            }
            return None;
        }
        let mut best: usize = 0;
        let mut i: usize = 1;
        while i < self.heap.len()
            invariant
                self.wf(),
                0 <= best < i <= self.heap.len(),
                forall|k: int|
                    0 <= k < i ==> self.activity@[self.heap@[k].id as int]
                        <= self.activity@[self.heap@[best as int].id as int],
            decreases self.heap.len() - i,
        {
            if self.activity[self.heap[i].id as usize] > self.activity[self.heap[best].id as usize] {
                best = i;
            }
            i = i + 1;
        }
        let ghost old_h = *self;
        let v = self.heap.swap_remove(best);
        self.in_heap.set(v.id as usize, false);
        proof {
            let m = old_h.heap.len() as int;
            assert forall|u: int|
                0 <= u <= n && #[trigger] old_h.contains(u) implies old_h.activity@[u]
                <= old_h.activity@[v.id as int] by {
                let k = choose|k: int| 0 <= k < old_h.heap.len() && old_h.heap@[k].id == u;
            }
            assert forall|k: int| 0 <= k < self.heap.len() implies 1 <= #[trigger] self.heap@[k].id
                <= n && self.heap@[k].id != v.id && self.in_heap@[self.heap@[k].id as int] by {
                if k == best {
                    assert(old_h.heap@[m - 1].id != old_h.heap@[best as int].id);
                    assert(old_h.in_heap@[old_h.heap@[m - 1].id as int]);
                } else {
                    assert(old_h.heap@[k].id != old_h.heap@[best as int].id);
                    assert(old_h.in_heap@[old_h.heap@[k].id as int]);
                }
            }
            assert forall|a: int, b: int|
                0 <= a < b < self.heap.len() implies self.heap@[a].id != self.heap@[b].id by {
                if a == best {
                    assert(old_h.heap@[m - 1].id != old_h.heap@[b].id);
                } else if b == best {
                    assert(old_h.heap@[a].id != old_h.heap@[m - 1].id);
                } else {
                    assert(old_h.heap@[a].id != old_h.heap@[b].id);
                }
            }
            assert forall|u: int| 0 <= u <= n && #[trigger] self.in_heap@[u] implies exists|k: int|
                0 <= k < self.heap.len() && self.heap@[k].id == u by {
                assert(old_h.in_heap@[u]);
                let k = choose|k: int| 0 <= k < old_h.heap.len() && old_h.heap@[k].id == u;
                if k == m - 1 {
                    assert(self.heap@[best as int].id == u);
                } else {
                    assert(k != best);
                    assert(self.heap@[k].id == u);
                }
            }
        }
        Some(v)
    }

    /// Increases the activity of the variable.
    pub fn var_bump_activity(&mut self, v: BVar)
        requires
            old(self).wf(),
            v.id <= old(self).num_vars(),
        ensures
            final(self).wf(),
            final(self).in_heap@ == old(self).in_heap@,
            final(self).activity@ == old(self).activity@.update(
                v.id as int,
                if old(self).activity@[v.id as int] < u64::MAX {
                    (old(self).activity@[v.id as int] + 1) as u64
                } else {
                    u64::MAX
                },
            ),
    {
        let a = self.activity[v.id as usize].saturating_add(1);
        self.activity.set(v.id as usize, a);
    }
}

} // verus!
