use vstd::prelude::*;
use vstd::laws_eq::obeys_concrete_eq;

verus! {

/// One edge of an automaton: in `state`, on `symbol`, move to `next_state`.
/// A `symbol` of `None` is an empty move, which consumes no input.
#[derive(Debug, PartialEq, Eq, Hash)]
pub struct Rule<S, T> {
    pub state: S,
    pub symbol: Option<T>,
    pub next_state: S,
}

impl<S, T> Rule<S, T> {
    /// Whether the rule fires in `state` on `symbol`. An empty `symbol`
    /// matches empty-move rules only.
    pub open spec fn applies(self, state: S, symbol: Option<T>) -> bool {
        self.state == state && self.symbol == symbol
    }
}

impl<S: PartialEq, T: PartialEq> Rule<S, T> {
    /// Decides whether the rule fires in `state` on `symbol`.
    pub fn apply_to(&self, state: &S, symbol: &Option<T>) -> (r: bool)
        requires
            obeys_concrete_eq::<S>(),
            obeys_concrete_eq::<T>(),
        ensures
            r == self.applies(*state, *symbol),
    {
        proof {
            reveal(obeys_concrete_eq);
        }
        self.state == *state && self.symbol == *symbol
    }
}

} // verus!
