//! Deterministic and nondeterministic finite automata over arbitrary state
//! and symbol types.
//!
//! States and symbols are compared with `==`, and the contracts hold where
//! `==` is equality: each function that compares asks for
//! `vstd::laws_eq::obeys_concrete_eq` of the types it compares. vstd proves
//! it of the integer types and `bool`, and of tuples and `Option`s of such
//! types, by the lemmas of `vstd::laws_eq::group_laws_eq`.
//!
//! Sets of states are kept in vectors. What a vector stands for is the set
//! of its elements, `v@.to_set()`; the vectors that the library hands out
//! hold each state once.

pub mod rule;
pub mod state_set;
pub mod dfa;
pub mod nfa;
pub mod nfa_model;

pub use rule::Rule;
pub use dfa::{AutomatonError, DFAModel, DFATransitions, DFA};
pub use nfa::NFATransitions;
pub use nfa_model::{NFAModel, NFA};
