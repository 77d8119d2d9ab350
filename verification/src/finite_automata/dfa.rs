//! Deterministic automata: one current state, advanced by the first rule
//! that fires.

use vstd::prelude::*;
use vstd::laws_eq::obeys_concrete_eq;
use crate::finite_automata::rule::Rule;
use crate::finite_automata::state_set::contains;

verus! {

/// Why a deterministic automaton could not go on.
#[derive(Clone, Copy, Debug, PartialEq, Eq)]
pub enum AutomatonError {
    /// No rule fires in the current state on the symbol read. The automaton
    /// leaves this case open; the input is neither accepted nor rejected.
    UnknownTransition,
}

/// The first rule of `rules` that fires in `state` on `symbol`.
pub open spec fn first_rule<S, T>(rules: Seq<Rule<S, T>>, state: S, symbol: Option<T>) -> Option<
    Rule<S, T>,
>
    decreases rules.len(),
{
    if rules.len() == 0 {
        None
    } else if rules[0].applies(state, symbol) {
        Some(rules[0])
    } else {
        first_rule(rules.drop_first(), state, symbol)
    }
}

/// `first_rule` finds a rule of the sequence that fires, the earliest one,
/// and finds none only where none fires.
pub proof fn lemma_first_rule<S, T>(rules: Seq<Rule<S, T>>, state: S, symbol: Option<T>)
    ensures
        match first_rule(rules, state, symbol) {
            Some(rule) => exists|i: int|
                0 <= i < rules.len() && #[trigger] rules[i] == rule && rule.applies(state, symbol)
                    && forall|j: int| 0 <= j < i ==> !(#[trigger] rules[j]).applies(state, symbol),
            None => forall|i: int|
                0 <= i < rules.len() ==> !(#[trigger] rules[i]).applies(state, symbol),
        },
    decreases rules.len(),
{
    if rules.len() == 0 {
    } else if rules[0].applies(state, symbol) {
        assert(rules[0] == rules[0]);
    } else {
        let rest = rules.drop_first();
        lemma_first_rule(rest, state, symbol);
        match first_rule(rest, state, symbol) {
            Some(rule) => {
                let i = choose|i: int|
                    0 <= i < rest.len() && #[trigger] rest[i] == rule && rule.applies(state, symbol)
                        && forall|j: int|
                        0 <= j < i ==> !(#[trigger] rest[j]).applies(state, symbol);
                assert(rules[i + 1] == rule);
                assert forall|j: int| 0 <= j < i + 1 implies !(#[trigger] rules[j]).applies(
                    state,
                    symbol,
                ) by {
                    if j > 0 {
                        assert(rules[j] == rest[j - 1]);
                    }
                }
            },
            None => {
                assert forall|i: int| 0 <= i < rules.len() implies !(#[trigger] rules[i]).applies(
                    state,
                    symbol,
                ) by {
                    if i > 0 {
                        assert(rules[i] == rest[i - 1]);
                    }
                }
            },
        }
    }
}

/// The transition relation of a deterministic automaton. Nothing forces the
/// rules to be deterministic: where several fire, the first one is taken.
/// Where none compete the rules are read as a set, and their order does not
/// count.
pub struct DFATransitions<S, T> {
    pub rules: Vec<Rule<S, T>>,
}

impl<S, T> DFATransitions<S, T> {
    /// The state that follows `state` on `symbol`: the target of the first
    /// rule that fires, if one does.
    pub open spec fn lookup(self, state: S, symbol: Option<T>) -> Option<S> {
        match first_rule(self.rules@, state, symbol) {
            Some(rule) => Some(rule.next_state),
            None => None,
        }
    }

    /// The state reached from `state` by reading all of `input`, or `None`
    /// where some symbol on the way finds no rule.
    pub open spec fn run(self, state: S, input: Seq<T>) -> Option<S>
        decreases input.len(),
    {
        if input.len() == 0 {
            Some(state)
        } else {
            match self.run(state, input.drop_last()) {
                Some(s) => self.lookup(s, Some(input.last())),
                None => None,
            }
        }
    }

    /// No two rules fire together and lead to different states.
    pub open spec fn is_functional(self) -> bool {
        forall|i: int, j: int|
            #![trigger self.rules@[i], self.rules@[j]]
            0 <= i < self.rules@.len() && 0 <= j < self.rules@.len() && self.rules@[i].state
                == self.rules@[j].state && self.rules@[i].symbol == self.rules@[j].symbol
                ==> self.rules@[i].next_state == self.rules@[j].next_state
    }

    /// From `start`, every word over `alphabet` finds a rule for each of its
    /// symbols.
    pub open spec fn is_full(self, start: S, alphabet: Set<T>) -> bool {
        forall|word: Seq<T>, symbol: T|
            #![trigger self.run(start, word.push(symbol))]
            word.to_set().subset_of(alphabet) && alphabet.contains(symbol) && self.run(
                start,
                word,
            ) is Some ==> self.run(start, word.push(symbol)) is Some
    }
}

impl<S: Eq, T: Eq> DFATransitions<S, T> {
    /// The first rule that fires in `state` on `symbol`.
    pub fn rule_for(&self, state: &S, symbol: &Option<T>) -> (r: Option<&Rule<S, T>>)
        requires
            obeys_concrete_eq::<S>(),
            obeys_concrete_eq::<T>(),
        ensures
            match r {
                Some(rule) => first_rule(self.rules@, *state, *symbol) == Some(*rule),
                None => first_rule(self.rules@, *state, *symbol) is None,
            },
    {
        let mut i: usize = 0;
        assert(self.rules@.skip(0) =~= self.rules@);
        while i < self.rules.len()
            invariant
                i <= self.rules.len(),
                obeys_concrete_eq::<S>(),
                obeys_concrete_eq::<T>(),
                first_rule(self.rules@, *state, *symbol) == first_rule(
                    self.rules@.skip(i as int),
                    *state,
                    *symbol,
                ),
            decreases self.rules.len() - i,
        {
            if self.rules[i].apply_to(state, symbol) {
                return Some(&self.rules[i]);
            }
            assert(self.rules@.skip(i as int).drop_first() =~= self.rules@.skip(i + 1));
            i += 1;
        }
        None
    }

    /// Whether the relation is deterministic: no two rules fire together
    /// and lead to different states.
    pub fn is_deterministic(&self) -> (r: bool)
        requires
            obeys_concrete_eq::<S>(),
            obeys_concrete_eq::<T>(),
        ensures
            r == self.is_functional(),
    {
        let mut i: usize = 0;
        while i < self.rules.len()
            invariant
                i <= self.rules.len(),
                obeys_concrete_eq::<S>(),
                obeys_concrete_eq::<T>(),
                forall|a: int, b: int|
                    #![trigger self.rules@[a], self.rules@[b]]
                    0 <= a < i && 0 <= b < self.rules@.len() && self.rules@[a].state
                        == self.rules@[b].state && self.rules@[a].symbol == self.rules@[b].symbol
                        ==> self.rules@[a].next_state == self.rules@[b].next_state,
            decreases self.rules.len() - i,
        {
            let mut j: usize = 0;
            while j < self.rules.len()
                invariant
                    j <= self.rules.len(),
                    i < self.rules.len(),
                    obeys_concrete_eq::<S>(),
                    obeys_concrete_eq::<T>(),
                    forall|b: int|
                        0 <= b < j && self.rules@[i as int].state == (#[trigger] self.rules@[b]).state
                            && self.rules@[i as int].symbol == self.rules@[b].symbol
                            ==> self.rules@[i as int].next_state == self.rules@[b].next_state,
                decreases self.rules.len() - j,
            {
                proof {
                    reveal(obeys_concrete_eq);
                }
                if self.rules[j].apply_to(&self.rules[i].state, &self.rules[i].symbol)
                    && self.rules[j].next_state != self.rules[i].next_state {
                    return false;
                }
                j += 1;
            }
            i += 1;
        }
        true
    }

    /// The state that follows `state` on `symbol`, by the first rule that
    /// fires; `None` where no rule does.
    pub fn next_state(&self, state: &S, symbol: &Option<T>) -> (r: Option<&S>)
        requires
            obeys_concrete_eq::<S>(),
            obeys_concrete_eq::<T>(),
        ensures
            match r {
                Some(next) => self.lookup(*state, *symbol) == Some(*next),
                None => self.lookup(*state, *symbol) is None,
            },
    {
        match self.rule_for(state, symbol) {
            Some(rule) => Some(&rule.next_state),
            None => None,
        }
    }
}

/// A running deterministic automaton: the current state, with the accept
/// states and the rules of the model it was made from.
pub struct DFA<'a, S, T> {
    pub state: S,
    pub accept_states: &'a Vec<S>,
    pub transitions: &'a DFATransitions<S, T>,
}

impl<'a, S: Eq + Copy, T: Eq + Copy> DFA<'a, S, T> {
    /// Whether the current state is an accept state.
    pub fn accepted(&self) -> (r: bool)
        requires
            obeys_concrete_eq::<S>(),
        ensures
            r == self.accept_states@.contains(self.state),
    {
        contains(self.accept_states, &self.state)
    }

    /// Reads one symbol. Where a rule fires the automaton moves on; where
    /// none does it stays where it is and reports the gap.
    pub fn read_symbol(&mut self, sym: T) -> (r: Result<(), AutomatonError>)
        requires
            obeys_concrete_eq::<S>(),
            obeys_concrete_eq::<T>(),
        ensures
            final(self).accept_states == old(self).accept_states,
            final(self).transitions == old(self).transitions,
            match old(self).transitions.lookup(old(self).state, Some(sym)) {
                Some(next) => r is Ok && final(self).state == next,
                None => r == Err::<(), AutomatonError>(AutomatonError::UnknownTransition)
                    && final(self).state == old(self).state,
            },
    {
        let symbol = Some(sym);
        match self.transitions.next_state(&self.state, &symbol) {
            Some(next) => {
                self.state = *next;
                Ok(())
            },
            None => Err(AutomatonError::UnknownTransition),
        }
    }

    /// Reads the symbols of `seq` in order and stops at the first one that
    /// finds no rule, in the state reached before it.
    pub fn read_sequence(&mut self, seq: &[T]) -> (r: Result<(), AutomatonError>)
        requires
            obeys_concrete_eq::<S>(),
            obeys_concrete_eq::<T>(),
        ensures
            final(self).accept_states == old(self).accept_states,
            final(self).transitions == old(self).transitions,
            match old(self).transitions.run(old(self).state, seq@) {
                Some(end) => r is Ok && final(self).state == end,
                None => r == Err::<(), AutomatonError>(AutomatonError::UnknownTransition)
                    && exists|k: int|
                    0 <= k < seq@.len() && #[trigger] old(self).transitions.run(
                        old(self).state,
                        seq@.take(k),
                    ) == Some(final(self).state) && old(self).transitions.lookup(
                        final(self).state,
                        Some(seq@[k]),
                    ) is None,
            },
    {
        let mut i: usize = 0;
        while i < seq.len()
            invariant
                i <= seq.len(),
                obeys_concrete_eq::<S>(),
                obeys_concrete_eq::<T>(),
                self.accept_states == old(self).accept_states,
                self.transitions == old(self).transitions,
                old(self).transitions.run(old(self).state, seq@.take(i as int)) == Some(
                    self.state,
                ),
            decreases seq.len() - i,
        {
            assert(seq@.take(i + 1).drop_last() =~= seq@.take(i as int));
            match self.read_symbol(seq[i]) {
                Ok(()) => {},
                Err(e) => {
                    proof {
                        old(self).transitions.lemma_run_stuck(old(self).state, seq@, i + 1);
                    }
                    return Err(e);
                },
            }
            i += 1;
        }
        assert(seq@.take(i as int) =~= seq@);
        Ok(())
    }
}

impl<S, T> DFATransitions<S, T> {
    /// Once a prefix of the input has found no rule, the whole input finds
    /// none either.
    pub proof fn lemma_run_stuck(self, state: S, input: Seq<T>, k: int)
        requires
            0 <= k <= input.len(),
            self.run(state, input.take(k)) is None,
        ensures
            self.run(state, input) is None,
        decreases input.len() - k,
    {
        if k < input.len() {
            assert(input.take(k + 1).drop_last() =~= input.take(k));
            self.lemma_run_stuck(state, input, k + 1);
        } else {
            assert(input.take(k) =~= input);
        }
    }
}

/// A deterministic automaton: where it starts, which states accept, and its
/// rules. A model is never changed; each run works on a `DFA` of its own.
pub struct DFAModel<S, T> {
    pub start_state: S,
    pub accept_states: Vec<S>,
    pub transitions: DFATransitions<S, T>,
}

impl<S, T> DFAModel<S, T> {
    /// What the automaton says of `input`: whether the state it ends in
    /// accepts, or that the rules gave out on the way.
    pub open spec fn outcome(self, input: Seq<T>) -> Result<bool, AutomatonError> {
        match self.transitions.run(self.start_state, input) {
            Some(end) => Ok(self.accept_states@.contains(end)),
            None => Err(AutomatonError::UnknownTransition),
        }
    }
}

impl<S: Eq + Copy, T: Eq + Copy> DFAModel<S, T> {
    /// Runs the automaton over `input` from the start state.
    pub fn accept(&self, input: &[T]) -> (r: Result<bool, AutomatonError>)
        requires
            obeys_concrete_eq::<S>(),
            obeys_concrete_eq::<T>(),
        ensures
            r == self.outcome(input@),
    {
        let mut dfa = self.gen_dfa();
        match dfa.read_sequence(input) {
            Ok(()) => Ok(dfa.accepted()),
            Err(e) => Err(e),
        }
    }

    /// A fresh run of the automaton, in the start state.
    pub fn gen_dfa(&self) -> (dfa: DFA<'_, S, T>)
        ensures
            dfa.state == self.start_state,
            *dfa.accept_states == self.accept_states,
            *dfa.transitions == self.transitions,
    {
        DFA {
            state: self.start_state,
            accept_states: &self.accept_states,
            transitions: &self.transitions,
        }
    }
}

impl<S, T> DFATransitions<S, T> {
    /// Where no two rules compete, `lookup` goes to `next` exactly when the
    /// rule from `state` on `symbol` to `next` is among the rules.
    pub proof fn lemma_lookup_functional(self, state: S, symbol: Option<T>, next: S)
        requires
            self.is_functional(),
        ensures
            self.lookup(state, symbol) == Some(next) <==> self.rules@.contains(
                Rule { state, symbol, next_state: next },
            ),
    {
        let wanted = Rule { state, symbol, next_state: next };
        lemma_first_rule(self.rules@, state, symbol);
        if self.rules@.contains(wanted) {
            let j = choose|j: int| 0 <= j < self.rules@.len() && self.rules@[j] == wanted;
            assert(self.rules@[j].applies(state, symbol));
            let found = first_rule(self.rules@, state, symbol)->Some_0;
            let i = choose|i: int|
                0 <= i < self.rules@.len() && #[trigger] self.rules@[i] == found && found.applies(
                    state,
                    symbol,
                );
            assert(self.rules@[i].next_state == self.rules@[j].next_state);
        }
        if self.lookup(state, symbol) == Some(next) {
            let found = first_rule(self.rules@, state, symbol)->Some_0;
            assert(found == wanted);
        }
    }

    /// Where no two rules compete, the order in which the rules are kept
    /// does not matter to `lookup`.
    pub proof fn lemma_lookup_order_free(self, other: Self, state: S, symbol: Option<T>)
        requires
            self.is_functional(),
            self.rules@.to_set() == other.rules@.to_set(),
        ensures
            other.is_functional(),
            self.lookup(state, symbol) == other.lookup(state, symbol),
    {
        assert forall|i: int, j: int|
            #![trigger other.rules@[i], other.rules@[j]]
            0 <= i < other.rules@.len() && 0 <= j < other.rules@.len() && other.rules@[i].state
                == other.rules@[j].state && other.rules@[i].symbol
                == other.rules@[j].symbol implies other.rules@[i].next_state
            == other.rules@[j].next_state by {
            assert(other.rules@.to_set().contains(other.rules@[i]));
            assert(other.rules@.to_set().contains(other.rules@[j]));
            let a = choose|a: int| 0 <= a < self.rules@.len() && self.rules@[a] == other.rules@[i];
            let b = choose|b: int| 0 <= b < self.rules@.len() && self.rules@[b] == other.rules@[j];
            assert(self.rules@[a].next_state == self.rules@[b].next_state);
        }
        match self.lookup(state, symbol) {
            Some(next) => {
                self.lemma_lookup_functional(state, symbol, next);
                other.lemma_lookup_functional(state, symbol, next);
                assert(self.rules@.to_set().contains(Rule { state, symbol, next_state: next }));
            },
            None => {
                if other.lookup(state, symbol) is Some {
                    let next = other.lookup(state, symbol)->Some_0;
                    self.lemma_lookup_functional(state, symbol, next);
                    other.lemma_lookup_functional(state, symbol, next);
                    assert(other.rules@.to_set().contains(
                        Rule { state, symbol, next_state: next },
                    ));
                }
            },
        }
    }

    /// Where no two rules compete, the order in which the rules are kept
    /// does not matter to a run.
    pub proof fn lemma_run_order_free(self, other: Self, state: S, input: Seq<T>)
        requires
            self.is_functional(),
            self.rules@.to_set() == other.rules@.to_set(),
        ensures
            self.run(state, input) == other.run(state, input),
        decreases input.len(),
    {
        if input.len() > 0 {
            self.lemma_run_order_free(other, state, input.drop_last());
            match self.run(state, input.drop_last()) {
                Some(s) => {
                    self.lemma_lookup_order_free(other, s, Some(input.last()));
                },
                None => {},
            }
        }
    }
}

impl<S, T> DFAModel<S, T> {
    /// The outcome is a function of the automaton and the input, and of the
    /// automaton no more than this counts: the start state, the accept
    /// states as a set and, where no two rules compete, the rules as a set.
    /// Two automata that agree in these give every input the same outcome.
    pub proof fn lemma_outcome_deterministic(self, other: Self, input: Seq<T>)
        requires
            self.transitions.is_functional(),
            self.start_state == other.start_state,
            self.accept_states@.to_set() == other.accept_states@.to_set(),
            self.transitions.rules@.to_set() == other.transitions.rules@.to_set(),
        ensures
            self.outcome(input) == other.outcome(input),
    {
        self.transitions.lemma_run_order_free(other.transitions, self.start_state, input);
        match self.transitions.run(self.start_state, input) {
            Some(end) => {
                assert(self.accept_states@.contains(end) == self.accept_states@.to_set().contains(
                    end,
                ));
                assert(other.accept_states@.contains(end)
                    == other.accept_states@.to_set().contains(end));
            },
            None => {},
        }
    }

    /// Over a full transition relation no word of the alphabet finds a rule
    /// missing: every such input is either accepted or rejected.
    pub proof fn lemma_full_never_fails(self, alphabet: Set<T>, input: Seq<T>)
        requires
            self.transitions.is_full(self.start_state, alphabet),
            input.to_set().subset_of(alphabet),
        ensures
            self.outcome(input) is Ok,
        decreases input.len(),
    {
        if input.len() > 0 {
            let word = input.drop_last();
            assert forall|a: T| word.to_set().contains(a) implies alphabet.contains(a) by {
                let k = choose|k: int| 0 <= k < word.len() && word[k] == a;
                assert(input[k] == a);
                assert(input.to_set().contains(a));
            }
            self.lemma_full_never_fails(alphabet, word);
            assert(input.to_set().contains(input.last()));
            assert(word.push(input.last()) =~= input);
        }
    }
}

} // verus!
