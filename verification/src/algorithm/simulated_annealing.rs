use vstd::prelude::*;

verus! {

/// A state that simulated annealing improves: a move is prepared, scored, and then either kept or
/// undone.
pub trait AnnealingState<T> {
    /// Prepares a candidate move, such as choosing what to change, before it is scored.
    fn pre_process(&mut self);

    /// The score the candidate move would give, without changing anything; `None` where the move
    /// cannot be made.
    fn eval(&self) -> Option<T>;

    /// Undoes the candidate move (it was rejected).
    fn rollback(&mut self);

    /// Keeps the candidate move (it was accepted), whose score is `new_score`.
    fn post_process(&mut self, new_score: T);

    /// The score of the current state.
    fn current_score(&self) -> T;
}

} // verus!
