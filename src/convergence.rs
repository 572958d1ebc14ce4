//! The stopping rule of a run: stop once neither the best nor the average
//! fitness has improved for a number of epochs, or at a ceiling on epochs.

use vstd::prelude::*;

use crate::generation::{better, is_better, FitnessOrder};

verus! {

/// `new` improves on `old`, the best seen so far, if any.
pub open spec fn improves(order: FitnessOrder, new: u64, old: Option<u64>) -> bool {
    match old {
        None => true,
        Some(o) => better(order, new, o),
    }
}

/// Whether the sum `new` improves on `old` under `order`.
pub open spec fn sum_improves(order: FitnessOrder, new: u128, old: Option<u128>) -> bool {
    match old {
        None => true,
        Some(o) => match order {
            FitnessOrder::Max => new > o,
            FitnessOrder::Min => new < o,
        },
    }
}

/// Progress of one run, epoch by epoch.
#[derive(Debug, Clone, Copy, PartialEq, Eq, Structural)]
pub struct Convergence {
    pub order: FitnessOrder,
    /// Epochs without improvement after which the run stops.
    pub patience: usize,
    /// The most epochs a run may take.
    pub ceiling: usize,
    pub generations: usize,
    pub since_improvement: usize,
    /// The best fitness seen so far.
    pub best: Option<u64>,
    /// The best sum of scores seen so far; the population size is fixed,
    /// so sums compare as averages do.
    pub best_average_sum: Option<u128>,
}

impl Convergence {
    /// A run that has not started.
    pub fn new(order: FitnessOrder, patience: usize, ceiling: usize) -> (r: Convergence)
        ensures
            r == (Convergence {
                order,
                patience,
                ceiling,
                generations: 0,
                since_improvement: 0,
                best: None,
                best_average_sum: None,
            }),
    {
        Convergence {
            order,
            patience,
            ceiling,
            generations: 0,
            since_improvement: 0,
            best: None,
            best_average_sum: None,
        }
    }

    /// Whether another epoch should run.
    pub fn should_continue(&self) -> (r: bool)
        ensures
            r == (self.since_improvement < self.patience && self.generations < self.ceiling),
    {
        self.since_improvement < self.patience && self.generations < self.ceiling
    }

    /// Records the best fitness and the sum of scores after one more epoch.
    /// Returns whether the best fitness improved.
    pub fn record(&mut self, best: u64, average_sum: u128) -> (improved: bool)
        requires
            old(self).generations < old(self).ceiling,
            old(self).since_improvement <= old(self).generations,
        ensures
            improved == improves(old(self).order, best, old(self).best),
            final(self).order == old(self).order,
            final(self).patience == old(self).patience,
            final(self).ceiling == old(self).ceiling,
            final(self).generations == old(self).generations + 1,
            final(self).best == if improved {
                Some(best)
            } else {
                old(self).best
            },
            final(self).best_average_sum == if sum_improves(
                old(self).order,
                average_sum,
                old(self).best_average_sum,
            ) {
                Some(average_sum)
            } else {
                old(self).best_average_sum
            },
            final(self).since_improvement == if improved || sum_improves(
                old(self).order,
                average_sum,
                old(self).best_average_sum,
            ) {
                0
            } else {
                old(self).since_improvement + 1
            },
            final(self).since_improvement <= final(self).generations,
    {
        self.generations = self.generations + 1;
        self.since_improvement = self.since_improvement + 1;
        let improved = match self.best {
            None => true,
            Some(b) => is_better(self.order, best, b),
        };
        if improved {
            self.best = Some(best);
            self.since_improvement = 0;
        }
        let average_improved = match self.best_average_sum {
            None => true,
            Some(a) => match self.order {
                FitnessOrder::Max => average_sum > a,
                FitnessOrder::Min => average_sum < a,
            },
        };
        if average_improved {
            self.best_average_sum = Some(average_sum);
            self.since_improvement = 0;
        }
        improved
    }
}

} // verus!
