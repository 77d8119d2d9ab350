//! A nondeterministic automaton and its runs, and what acceptance means in
//! terms of paths through the rules.

use vstd::prelude::*;
use vstd::laws_eq::obeys_concrete_eq;
use crate::finite_automata::rule::Rule;
use crate::finite_automata::nfa::{labels, NFATransitions};
use crate::finite_automata::state_set::contains;

verus! {

impl<S, T> NFATransitions<S, T> {
    /// Whatever a run ends in was reached from one of the states it began
    /// in, by a path that consumes the input.
    pub proof fn lemma_run_sound(self, states: Set<S>, input: Seq<T>, to: S)
        requires
            self.run(states, input).contains(to),
        ensures
            exists|from: S| states.contains(from) && #[trigger] self.reaches(from, input, to),
        decreases input.len(),
    {
        let nothing = Seq::<T>::empty();
        if input.len() == 0 {
            self.lemma_reaches_self(to);
            assert(input =~= nothing);
        } else {
            let word = input.drop_last();
            let symbol = input.last();
            let before = self.run(states, word);
            let closed = self.epsilon_closure(before);
            let moved = self.successors(closed, Some(symbol));
            let landed = choose|landed: S|
                moved.contains(landed) && #[trigger] self.reaches(landed, nothing, to);
            let i = choose|i: int|
                0 <= i < self.rules@.len() && closed.contains((#[trigger] self.rules@[i]).state)
                    && self.rules@[i].symbol == Some(symbol) && self.rules@[i].next_state == landed;
            let rule = self.rules@[i];
            let left = choose|left: S|
                before.contains(left) && #[trigger] self.reaches(left, nothing, rule.state);
            self.lemma_run_sound(states, word, left);
            let from = choose|from: S|
                states.contains(from) && #[trigger] self.reaches(from, word, left);
            assert(word + nothing =~= word);
            self.lemma_reaches_concat(from, word, left, nothing, rule.state);
            self.lemma_reaches_by_rule(rule);
            assert(word + seq![symbol] =~= input);
            self.lemma_reaches_concat(from, word, rule.state, seq![symbol], landed);
            assert(input + nothing =~= input);
            self.lemma_reaches_concat(from, input, landed, nothing, to);
        }
    }

    /// Whatever a path reaches from one of the states a run began in, the
    /// run over the symbols of the path holds after closing it.
    pub proof fn lemma_run_complete(self, states: Set<S>, from: S, path: Seq<Rule<S, T>>, to: S)
        requires
            states.contains(from),
            self.is_path(from, path, to),
        ensures
            self.epsilon_closure(self.run(states, labels(path))).contains(to),
        decreases path.len(),
    {
        if path.len() == 0 {
            self.lemma_closure_extensive(states);
        } else {
            let rule = path.last();
            let word = labels(path.drop_last());
            self.lemma_run_complete(states, from, path.drop_last(), rule.state);
            let closed = self.epsilon_closure(self.run(states, word));
            let i = choose|i: int| 0 <= i < self.rules@.len() && self.rules@[i] == rule;
            assert(closed.contains(self.rules@[i].state));
            match rule.symbol {
                None => {
                    self.lemma_closure_closed(self.run(states, word));
                    assert(self.successors(closed, None).contains(to));
                },
                Some(symbol) => {
                    assert(word.push(symbol).drop_last() =~= word);
                    let moved = self.successors(closed, Some(symbol));
                    assert(moved.contains(to));
                    self.lemma_closure_extensive(moved);
                    self.lemma_closure_extensive(self.run(states, word.push(symbol)));
                },
            }
        }
    }

    /// After at least one symbol the states of a run are closed under empty
    /// moves.
    pub proof fn lemma_run_closed(self, states: Set<S>, input: Seq<T>)
        requires
            input.len() > 0,
        ensures
            self.epsilon_closure(self.run(states, input)) == self.run(states, input),
    {
        let closed = self.epsilon_closure(self.run(states, input.drop_last()));
        self.lemma_closure_idempotent(self.successors(closed, Some(input.last())));
    }

    /// After at least one symbol a run holds exactly the states that some
    /// path reaches from where it began, consuming the input, with empty
    /// moves wherever the path wants them.
    pub proof fn lemma_run_is_reach(self, states: Set<S>, input: Seq<T>, to: S)
        requires
            input.len() > 0,
        ensures
            self.run(states, input).contains(to) <==> exists|from: S|
                states.contains(from) && #[trigger] self.reaches(from, input, to),
    {
        if self.run(states, input).contains(to) {
            self.lemma_run_sound(states, input, to);
        }
        if exists|from: S| states.contains(from) && #[trigger] self.reaches(from, input, to) {
            let from = choose|from: S|
                states.contains(from) && #[trigger] self.reaches(from, input, to);
            let path = choose|path: Seq<Rule<S, T>>|
                #[trigger] self.is_path(from, path, to) && labels(path) == input;
            self.lemma_run_complete(states, from, path, to);
            self.lemma_run_closed(states, input);
        }
    }
}

/// A running nondeterministic automaton: the states it may be in, with the
/// accept states and the rules of the model it was made from.
pub struct NFA<'a, S, T> {
    pub states: Vec<S>,
    pub accept_states: &'a Vec<S>,
    pub transitions: &'a NFATransitions<S, T>,
}

impl<'a, S: Eq + Copy, T: Eq + Copy> NFA<'a, S, T> {
    /// Reads one symbol: takes the empty moves, then every rule on
    /// `symbol`, then the empty moves again. Where no rule fires no state
    /// is left, and none comes back.
    pub fn read_symbol(&mut self, symbol: T)
        requires
            obeys_concrete_eq::<S>(),
            obeys_concrete_eq::<T>(),
        ensures
            final(self).accept_states == old(self).accept_states,
            final(self).transitions == old(self).transitions,
            final(self).states@.to_set() == old(self).transitions.step(
                old(self).states@.to_set(),
                symbol,
            ),
            final(self).states@.no_duplicates(),
    {
        let closed = self.transitions.empty_move(&self.states);
        let moved = self.transitions.next_states(&closed, &Some(symbol));
        self.states = self.transitions.empty_move(&moved);
    }

    /// Whether one of the current states is an accept state.
    pub fn accepted(&self) -> (r: bool)
        requires
            obeys_concrete_eq::<S>(),
        ensures
            r == !self.states@.to_set().disjoint(self.accept_states@.to_set()),
    {
        let mut i: usize = 0;
        while i < self.states.len()
            invariant
                i <= self.states.len(),
                obeys_concrete_eq::<S>(),
                forall|k: int| 0 <= k < i ==> !self.accept_states@.contains(#[trigger] self.states@[k]),
            decreases self.states.len() - i,
        {
            if contains(self.accept_states, &self.states[i]) {
                assert(self.states@.to_set().contains(self.states@[i as int]));
                assert(self.accept_states@.to_set().contains(self.states@[i as int]));
                return true;
            }
            i += 1;
        }
        assert forall|s: S| self.states@.to_set().contains(s) implies !self.accept_states@.to_set().contains(
            s,
        ) by {
            let k = choose|k: int| 0 <= k < self.states@.len() && self.states@[k] == s;
            assert(!self.accept_states@.contains(self.states@[k]));
        }
        false
    }
}

/// A nondeterministic automaton: where it starts, which states accept, and
/// its rules. A model is never changed; each run works on an `NFA` of its
/// own.
pub struct NFAModel<S, T> {
    pub start_state: S,
    pub accept_states: Vec<S>,
    pub transitions: NFATransitions<S, T>,
}

impl<S, T> NFAModel<S, T> {
    /// Whether the run over `input` from the start state ends with an
    /// accept state among its states.
    pub open spec fn accepts(self, input: Seq<T>) -> bool {
        !self.transitions.run(set![self.start_state], input).disjoint(self.accept_states@.to_set())
    }

    /// Some path through the rules leads from the start state to an accept
    /// state and consumes exactly `input`.
    pub open spec fn has_accepting_path(self, input: Seq<T>) -> bool {
        exists|to: S|
            self.accept_states@.contains(to) && #[trigger] self.transitions.reaches(
                self.start_state,
                input,
                to,
            )
    }

    /// An input of at least one symbol is accepted exactly when some path
    /// through the rules, empty moves included, leads from the start state
    /// to an accept state and consumes the input. For the empty input the
    /// same holds unless only empty moves lead from the start state to an
    /// accept state: no symbol is read then, so no empty move is taken.
    pub proof fn lemma_accepts_iff_path(self, input: Seq<T>)
        requires
            input.len() > 0 || self.accept_states@.contains(self.start_state)
                || !self.has_accepting_path(input),
        ensures
            self.accepts(input) <==> self.has_accepting_path(input),
    {
        let begin = set![self.start_state];
        let end = self.transitions.run(begin, input);
        let accept = self.accept_states@.to_set();
        if self.accepts(input) {
            let to = choose|to: S| end.contains(to) && accept.contains(to);
            self.transitions.lemma_run_sound(begin, input, to);
            assert(self.transitions.reaches(self.start_state, input, to));
        }
        if self.has_accepting_path(input) {
            let to = choose|to: S|
                self.accept_states@.contains(to) && #[trigger] self.transitions.reaches(
                    self.start_state,
                    input,
                    to,
                );
            assert(accept.contains(to));
            if input.len() > 0 {
                assert(begin.contains(self.start_state));
                self.transitions.lemma_run_is_reach(begin, input, to);
                assert(end.contains(to));
            } else {
                assert(end.contains(self.start_state));
                assert(accept.contains(self.start_state));
            }
        }
    }
}

impl<S: Eq + Copy, T: Eq + Copy> NFAModel<S, T> {
    /// Runs the automaton over `input` from the start state and says
    /// whether it ends in an accept state.
    pub fn accept(&self, input: &[T]) -> (r: bool)
        requires
            obeys_concrete_eq::<S>(),
            obeys_concrete_eq::<T>(),
        ensures
            r == self.accepts(input@),
            input@.len() > 0 ==> r == self.has_accepting_path(input@),
    {
        let mut nfa = self.gen_nfa();
        let mut i: usize = 0;
        proof {
            assert(nfa.states@[0] == self.start_state);
            assert(nfa.states@.to_set() =~= set![self.start_state]);
        }
        while i < input.len()
            invariant
                i <= input.len(),
                obeys_concrete_eq::<S>(),
                obeys_concrete_eq::<T>(),
                *nfa.accept_states == self.accept_states,
                *nfa.transitions == self.transitions,
                nfa.states@.to_set() == self.transitions.run(
                    set![self.start_state],
                    input@.take(i as int),
                ),
            decreases input.len() - i,
        {
            assert(input@.take(i + 1).drop_last() =~= input@.take(i as int));
            nfa.read_symbol(input[i]);
            i += 1;
        }
        proof {
            assert(input@.take(i as int) =~= input@);
            if input@.len() > 0 {
                self.lemma_accepts_iff_path(input@);
            }
        }
        nfa.accepted()
    }

    /// A fresh run of the automaton, with the start state as its only
    /// state.
    pub fn gen_nfa(&self) -> (nfa: NFA<'_, S, T>)
        ensures
            nfa.states@ == seq![self.start_state],
            *nfa.accept_states == self.accept_states,
            *nfa.transitions == self.transitions,
    {
        let mut start_states: Vec<S> = Vec::new();
        start_states.push(self.start_state);
        assert(start_states@ =~= seq![self.start_state]);
        NFA {
            states: start_states,
            accept_states: &self.accept_states,
            transitions: &self.transitions,
        }
    }
}

} // verus!
