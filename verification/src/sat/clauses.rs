use vstd::prelude::*;
use crate::sat::assignments::ClauseId;
use crate::sat::lits::Lit;

verus! {

/// A disjunction of literals.
pub struct Clause {
    pub disjuncts: Vec<Lit>,
    /// Whether the clause was learnt during search rather than given.
    pub learnt: bool,
}

impl Clause {
    pub fn new(lits: &[Lit], learnt: bool) -> (c: Clause)
        ensures
            c.disjuncts@ == lits@,
            c.learnt == learnt,
    {
        let mut disjuncts: Vec<Lit> = Vec::new();
        let mut i: usize = 0;
        while i < lits.len()
            invariant
                i <= lits.len(),
                disjuncts@ == lits@.subrange(0, i as int),
            decreases lits.len() - i,
        {
            disjuncts.push(lits[i]);
            i = i + 1;
            assert(disjuncts@ =~= lits@.subrange(0, i as int));
        }
        assert(disjuncts@ =~= lits@);
        Clause { disjuncts, learnt }
    }
}

/// The clauses of a problem, identified by their position.
pub struct ClauseDB {
    pub clauses: Vec<Clause>,
}

impl ClauseDB {
    pub fn new() -> (db: ClauseDB)
        ensures
            db.clauses.len() == 0,
    {
        ClauseDB { clauses: Vec::new() }
    }

    /// Stores the clause and returns its identifier.
    pub fn add_clause(&mut self, cl: Clause) -> (id: ClauseId)
        ensures
            id == old(self).clauses.len(),
            final(self).clauses@ == old(self).clauses@.push(cl),
    {
        self.clauses.push(cl);
        self.clauses.len() - 1
    }

    /// Exchanges the literals at positions `i` and `j` of the clause `cid`.
    pub fn swap_lits(&mut self, cid: ClauseId, i: usize, j: usize)
        requires
            cid < old(self).clauses.len(),
            i < old(self).clauses@[cid as int].disjuncts.len(),
            j < old(self).clauses@[cid as int].disjuncts.len(),
        ensures
            final(self).clauses.len() == old(self).clauses.len(),
            final(self).clauses@[cid as int].disjuncts@ == old(self).clauses@[cid as int].disjuncts@.update(
                i as int,
                old(self).clauses@[cid as int].disjuncts@[j as int],
            ).update(j as int, old(self).clauses@[cid as int].disjuncts@[i as int]),
            final(self).clauses@[cid as int].learnt == old(self).clauses@[cid as int].learnt,
            forall|c: int|
                0 <= c < old(self).clauses.len() && c != cid ==> #[trigger] final(self).clauses@[c]
                    == old(self).clauses@[c],
    {
        let a = self.clauses[cid].disjuncts[i];
        let b = self.clauses[cid].disjuncts[j];
        self.clauses[cid].disjuncts.set(i, b);
        self.clauses[cid].disjuncts.set(j, a);
    }

    pub fn num_clauses(&self) -> (n: usize)
        ensures
            n == self.clauses.len(),
    {
        self.clauses.len()
    }
}

} // verus!
