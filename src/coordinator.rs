//! The convergence coordinator: a two-state machine run once per iteration,
//! after every partition's changes have been folded in.

use vstd::prelude::*;

verus! {

/// Whether the iteration loop goes on.
#[derive(Debug, Clone, Copy, PartialEq, Eq, Structural)]
pub enum Phase {
    Running,
    Stopped,
}

/// The changed flag, the iteration counter and the iteration budget.
#[derive(Debug, Clone, Copy, PartialEq, Eq, Structural)]
pub struct Coordinator {
    pub phase: Phase,
    /// Whether a fold of the current iteration altered the state. Once
    /// stopped, whether the last iteration did.
    pub changed: bool,
    /// The number of iterations run so far.
    pub iteration_count: usize,
    /// The largest number of iterations that may run.
    pub budget: usize,
}

impl Coordinator {
    /// The counter never passes the budget, and a running loop has an
    /// iteration left.
    pub open spec fn wf(&self) -> bool {
        &&& self.iteration_count <= self.budget
        &&& self.phase == Phase::Running ==> self.iteration_count < self.budget
    }

    /// Stopped on a fixpoint: the last iteration changed nothing.
    pub open spec fn spec_converged(&self) -> bool {
        self.phase == Phase::Stopped && !self.changed
    }

    /// The coordinator after an iteration whose folds changed the state or
    /// not: counted, and still running only when something changed and
    /// budget is left.
    pub open spec fn advanced(self, changed: bool) -> Coordinator {
        let any = self.changed || changed;
        let k = (self.iteration_count + 1) as usize;
        if any && k < self.budget {
            Coordinator { phase: Phase::Running, changed: false, iteration_count: k, budget: self.budget }
        } else {
            Coordinator { phase: Phase::Stopped, changed: any, iteration_count: k, budget: self.budget }
        }
    }

    /// Starts in `Running` with a clear flag; a budget of zero allows no
    /// iteration at all, so it starts in `Stopped`.
    pub fn new(budget: usize) -> (r: Coordinator)
        ensures
            r.wf(),
            r.budget == budget,
            r.iteration_count == 0,
            !r.changed,
            r.phase == (if budget == 0 { Phase::Stopped } else { Phase::Running }),
    {
        Coordinator {
            phase: if budget == 0 { Phase::Stopped } else { Phase::Running },
            changed: false,
            iteration_count: 0,
            budget,
        }
    }

    pub fn is_running(&self) -> (r: bool)
        ensures
            r == (self.phase == Phase::Running),
    {
        match self.phase {
            Phase::Running => true,
            Phase::Stopped => false,
        }
    }

    /// True once stopped on a fixpoint rather than on the budget.
    pub fn converged(&self) -> (r: bool)
        ensures
            r == self.spec_converged(),
    {
        !self.is_running() && !self.changed
    }

    /// Ors one partition's changed flag into the iteration's flag.
    pub fn note_changes(&mut self, changed: bool)
        ensures
            final(self).changed == (old(self).changed || changed),
            final(self).phase == old(self).phase,
            final(self).iteration_count == old(self).iteration_count,
            final(self).budget == old(self).budget,
    {
        self.changed = self.changed || changed;
    }

    /// Closes an iteration: counts it, then goes on (clearing the flag) when
    /// something changed and budget is left, and stops otherwise, keeping
    /// the flag so that a stop on the budget can be told from a fixpoint.
    pub fn end_iteration(&mut self) -> (go_on: bool)
        requires
            old(self).wf(),
            old(self).phase == Phase::Running,
        ensures
            final(self).wf(),
            final(self).budget == old(self).budget,
            final(self).iteration_count == old(self).iteration_count + 1,
            go_on == (old(self).changed && old(self).iteration_count + 1 < old(self).budget),
            final(self).phase == (if go_on { Phase::Running } else { Phase::Stopped }),
            final(self).changed == (if go_on { false } else { old(self).changed }),
    {
        self.iteration_count = self.iteration_count + 1;
        if self.changed && self.iteration_count < self.budget {
            self.changed = false;
            true
        } else {
            self.phase = Phase::Stopped;
            false
        }
    }
}

} // verus!
