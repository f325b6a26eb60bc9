use vstd::prelude::*;

verus! {

/// Decision level reached by a backtrackable component.
pub type DecLvl = u32;

/// A theory that the solver consults, written by users of the library.
pub trait Theory {
    /// Prints statistics on the work of the theory.
    fn print_stats(&self);

    /// Saves the current state and returns the level it can be restored to.
    fn save_state(&mut self) -> DecLvl;

    /// Number of saved states.
    fn num_saved(&self) -> u32;

    /// Restores the last saved state.
    fn restore_last(&mut self);

    /// Restores the state saved at the given level.
    fn restore(&mut self, saved_id: DecLvl);
}

/// Gives the solver access to a theory.
pub struct TheorySolver {
    pub theory: Box<dyn Theory>,
}

impl TheorySolver {
    pub fn new(theory: Box<dyn Theory>) -> (s: TheorySolver)
        ensures
            s.theory === theory,
    {
        TheorySolver { theory }
    }

    /// Prints the statistics of the theory.
    pub fn print_stats(&self) {
        self.theory.print_stats()
    }

    pub fn save_state(&mut self) -> DecLvl {
        self.theory.save_state()
    }

    pub fn num_saved(&self) -> u32 {
        self.theory.num_saved()
    }

    pub fn restore_last(&mut self) {
        self.theory.restore_last()
    }

    pub fn restore(&mut self, saved_id: DecLvl) {
        self.theory.restore(saved_id)
    }
}

} // verus!
