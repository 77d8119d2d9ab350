//! Nondeterministic automata: a set of current states, advanced by every
//! rule that fires, with empty moves taken for free.

use vstd::prelude::*;
use vstd::laws_eq::obeys_concrete_eq;
use crate::finite_automata::rule::Rule;
use crate::finite_automata::state_set::{contains, insert, lemma_len_bounded};

verus! {

/// The symbols that the rules of `path` consume, in order. Empty moves
/// consume none.
pub open spec fn labels<S, T>(path: Seq<Rule<S, T>>) -> Seq<T>
    decreases path.len(),
{
    if path.len() == 0 {
        Seq::empty()
    } else {
        match path.last().symbol {
            Some(symbol) => labels(path.drop_last()).push(symbol),
            None => labels(path.drop_last()),
        }
    }
}

/// The transition relation of a nondeterministic automaton. The rules are
/// read as a set: their order does not count, and a rule that stands twice
/// counts once.
pub struct NFATransitions<S, T> {
    pub rules: Vec<Rule<S, T>>,
}

impl<S, T> NFATransitions<S, T> {
    /// `path` is a chain of rules of the relation that leads from `from` to
    /// `to`: each rule starts where the one before it ended.
    pub open spec fn is_path(self, from: S, path: Seq<Rule<S, T>>, to: S) -> bool
        decreases path.len(),
    {
        if path.len() == 0 {
            from == to
        } else {
            &&& self.rules@.contains(path.last())
            &&& path.last().next_state == to
            &&& self.is_path(from, path.drop_last(), path.last().state)
        }
    }

    /// Some chain of rules leads from `from` to `to` and consumes exactly
    /// `word`, with any number of empty moves on the way.
    pub open spec fn reaches(self, from: S, word: Seq<T>, to: S) -> bool {
        exists|path: Seq<Rule<S, T>>| #[trigger] self.is_path(from, path, to) && labels(path) == word
    }

    /// The states that follow a state of `states` by one rule on `symbol`.
    pub open spec fn successors(self, states: Set<S>, symbol: Option<T>) -> Set<S> {
        Set::new(
            |next: S|
                exists|i: int|
                    0 <= i < self.rules@.len() && states.contains(
                        (#[trigger] self.rules@[i]).state,
                    ) && self.rules@[i].symbol == symbol && self.rules@[i].next_state == next,
        )
    }

    /// The states reached from a state of `states` by empty moves alone,
    /// the states of `states` among them.
    pub open spec fn epsilon_closure(self, states: Set<S>) -> Set<S> {
        Set::new(
            |to: S|
                exists|from: S|
                    states.contains(from) && #[trigger] self.reaches(from, Seq::empty(), to),
        )
    }

    /// The states after reading `symbol` in `states`: close under empty
    /// moves, take every rule on `symbol`, close again.
    pub open spec fn step(self, states: Set<S>, symbol: T) -> Set<S> {
        self.epsilon_closure(self.successors(self.epsilon_closure(states), Some(symbol)))
    }

    /// The states after reading all of `input` from `states`, symbol by
    /// symbol. With nothing read these are `states` themselves.
    pub open spec fn run(self, states: Set<S>, input: Seq<T>) -> Set<S>
        decreases input.len(),
    {
        if input.len() == 0 {
            states
        } else {
            self.step(self.run(states, input.drop_last()), input.last())
        }
    }

    /// The states that some rule leads to.
    pub open spec fn targets(self) -> Set<S> {
        self.rules@.map_values(|rule: Rule<S, T>| rule.next_state).to_set()
    }

    /// A path can be extended by a rule that starts where it ends.
    pub proof fn lemma_path_push(self, from: S, path: Seq<Rule<S, T>>, rule: Rule<S, T>)
        requires
            self.is_path(from, path, rule.state),
            self.rules@.contains(rule),
        ensures
            self.is_path(from, path.push(rule), rule.next_state),
            labels(path.push(rule)) == match rule.symbol {
                Some(symbol) => labels(path).push(symbol),
                None => labels(path),
            },
    {
        assert(path.push(rule).drop_last() =~= path);
    }

    /// Two paths that meet make one, which consumes what the first does and
    /// then what the second does.
    pub proof fn lemma_path_concat(
        self,
        from: S,
        first: Seq<Rule<S, T>>,
        mid: S,
        second: Seq<Rule<S, T>>,
        to: S,
    )
        requires
            self.is_path(from, first, mid),
            self.is_path(mid, second, to),
        ensures
            self.is_path(from, first + second, to),
            labels(first + second) == labels(first) + labels(second),
        decreases second.len(),
    {
        if second.len() == 0 {
            assert(first + second =~= first);
            assert(labels(first) + labels(second) =~= labels(first));
        } else {
            let rule = second.last();
            self.lemma_path_concat(from, first, mid, second.drop_last(), rule.state);
            assert((first + second).drop_last() =~= first + second.drop_last());
            assert((first + second).last() == rule);
            match rule.symbol {
                Some(symbol) => {
                    assert((labels(first) + labels(second.drop_last())).push(symbol) =~= labels(
                        first,
                    ) + labels(second.drop_last()).push(symbol));
                },
                None => {},
            }
        }
    }

    /// What is reached from a reached state is reached.
    pub proof fn lemma_reaches_concat(self, from: S, first: Seq<T>, mid: S, second: Seq<T>, to: S)
        requires
            self.reaches(from, first, mid),
            self.reaches(mid, second, to),
        ensures
            self.reaches(from, first + second, to),
    {
        let p = choose|p: Seq<Rule<S, T>>| #[trigger] self.is_path(from, p, mid) && labels(p) == first;
        let q = choose|q: Seq<Rule<S, T>>| #[trigger] self.is_path(mid, q, to) && labels(q) == second;
        self.lemma_path_concat(from, p, mid, q, to);
        assert(self.is_path(from, p + q, to));
    }

    /// Every state reaches itself, consuming nothing.
    pub proof fn lemma_reaches_self(self, state: S)
        ensures
            self.reaches(state, Seq::empty(), state),
    {
        let path = Seq::<Rule<S, T>>::empty();
        assert(self.is_path(state, path, state));
        assert(labels(path) =~= Seq::<T>::empty());
    }

    /// A rule of the relation leads from its state to its target and
    /// consumes its symbol, if it has one.
    pub proof fn lemma_reaches_by_rule(self, rule: Rule<S, T>)
        requires
            self.rules@.contains(rule),
        ensures
            self.reaches(
                rule.state,
                match rule.symbol {
                    Some(symbol) => seq![symbol],
                    None => Seq::empty(),
                },
                rule.next_state,
            ),
    {
        let none = Seq::<Rule<S, T>>::empty();
        assert(self.is_path(rule.state, none, rule.state));
        self.lemma_path_push(rule.state, none, rule);
        assert(labels(none) =~= Seq::<T>::empty());
        assert(self.is_path(rule.state, none.push(rule), rule.next_state));
        match rule.symbol {
            Some(symbol) => {
                assert(labels(none.push(rule)) =~= seq![symbol]);
            },
            None => {},
        }
    }

    /// The closure of a set holds the set.
    pub proof fn lemma_closure_extensive(self, states: Set<S>)
        ensures
            states.subset_of(self.epsilon_closure(states)),
    {
        assert forall|s: S| states.contains(s) implies self.epsilon_closure(states).contains(s) by {
            self.lemma_reaches_self(s);
        }
    }

    /// The closure of a set is closed: an empty move from one of its states
    /// leads to another of its states.
    pub proof fn lemma_closure_closed(self, states: Set<S>)
        ensures
            self.successors(self.epsilon_closure(states), None).subset_of(
                self.epsilon_closure(states),
            ),
    {
        let closure = self.epsilon_closure(states);
        assert forall|next: S| self.successors(closure, None).contains(next) implies closure.contains(
            next,
        ) by {
            let i = choose|i: int|
                0 <= i < self.rules@.len() && closure.contains((#[trigger] self.rules@[i]).state)
                    && self.rules@[i].symbol == None::<T> && self.rules@[i].next_state == next;
            let rule = self.rules@[i];
            let from = choose|from: S|
                states.contains(from) && #[trigger] self.reaches(from, Seq::empty(), rule.state);
            self.lemma_reaches_by_rule(rule);
            self.lemma_reaches_concat(from, Seq::empty(), rule.state, Seq::empty(), next);
            assert(Seq::<T>::empty() + Seq::<T>::empty() =~= Seq::<T>::empty());
        }
    }

    /// A set that is closed under empty moves holds whatever a path without
    /// symbols reaches from one of its states.
    pub proof fn lemma_closed_holds_path(
        self,
        closed: Set<S>,
        from: S,
        path: Seq<Rule<S, T>>,
        to: S,
    )
        requires
            self.successors(closed, None).subset_of(closed),
            closed.contains(from),
            self.is_path(from, path, to),
            labels(path) == Seq::<T>::empty(),
        ensures
            closed.contains(to),
        decreases path.len(),
    {
        if path.len() > 0 {
            let rule = path.last();
            if rule.symbol is Some {
                assert(labels(path).len() > 0);
            }
            self.lemma_closed_holds_path(closed, from, path.drop_last(), rule.state);
            let i = choose|i: int| 0 <= i < self.rules@.len() && self.rules@[i] == rule;
            assert(closed.contains(self.rules@[i].state));
            assert(self.successors(closed, None).contains(to));
        }
    }

    /// The closure of `states` is the least set that holds `states` and is
    /// closed under empty moves.
    pub proof fn lemma_closure_least(self, states: Set<S>, closed: Set<S>)
        requires
            states.subset_of(closed),
            self.successors(closed, None).subset_of(closed),
        ensures
            self.epsilon_closure(states).subset_of(closed),
    {
        assert forall|to: S| self.epsilon_closure(states).contains(to) implies closed.contains(
            to,
        ) by {
            let from = choose|from: S|
                states.contains(from) && #[trigger] self.reaches(from, Seq::empty(), to);
            let path = choose|path: Seq<Rule<S, T>>|
                #[trigger] self.is_path(from, path, to) && labels(path) == Seq::<T>::empty();
            self.lemma_closed_holds_path(closed, from, path, to);
        }
    }

    /// Closing a set twice gives what closing it once gives.
    pub proof fn lemma_closure_idempotent(self, states: Set<S>)
        ensures
            self.epsilon_closure(self.epsilon_closure(states)) == self.epsilon_closure(states),
    {
        let once = self.epsilon_closure(states);
        self.lemma_closure_closed(states);
        self.lemma_closure_least(once, once);
        self.lemma_closure_extensive(once);
        assert(self.epsilon_closure(once) =~= once);
    }
}

impl<S: Eq + Copy, T: Eq + Copy> NFATransitions<S, T> {
    /// The rules that fire in `state` on `symbol`, in the order in which
    /// the relation keeps them.
    pub fn rules_for<'a>(&'a self, state: &S, symbol: &Option<T>) -> (found: Vec<&'a Rule<S, T>>)
        requires
            obeys_concrete_eq::<S>(),
            obeys_concrete_eq::<T>(),
        ensures
            found@.map_values(|rule: &Rule<S, T>| *rule) == self.rules@.filter(
                |rule: Rule<S, T>| rule.applies(*state, *symbol),
            ),
    {
        let ghost fires = |rule: Rule<S, T>| rule.applies(*state, *symbol);
        let ghost plain = |rule: &Rule<S, T>| *rule;
        let mut found: Vec<&'a Rule<S, T>> = Vec::new();
        let mut i: usize = 0;
        assert(self.rules@.take(0) =~= Seq::empty());
        assert(found@.map_values(plain) =~= Seq::empty());
        while i < self.rules.len()
            invariant
                i <= self.rules.len(),
                obeys_concrete_eq::<S>(),
                obeys_concrete_eq::<T>(),
                fires == |rule: Rule<S, T>| rule.applies(*state, *symbol),
                plain == |rule: &Rule<S, T>| *rule,
                found@.map_values(plain) == self.rules@.take(i as int).filter(fires),
            decreases self.rules.len() - i,
        {
            let ghost before = found@;
            proof {
                assert(self.rules@.take(i + 1) =~= self.rules@.take(i as int).push(
                    self.rules@[i as int],
                ));
                self.rules@.take(i as int).lemma_filter_push(self.rules@[i as int], fires);
            }
            if self.rules[i].apply_to(state, symbol) {
                found.push(&self.rules[i]);
                assert(found@.map_values(plain) =~= before.map_values(plain).push(
                    self.rules@[i as int],
                ));
            }
            i += 1;
        }
        assert(self.rules@.take(i as int) =~= self.rules@);
        found
    }

    /// The states that follow `state` by one rule on `symbol`, each once.
    pub fn next_states_for(&self, state: &S, symbol: &Option<T>) -> (nexts: Vec<S>)
        requires
            obeys_concrete_eq::<S>(),
            obeys_concrete_eq::<T>(),
        ensures
            nexts@.to_set() == self.successors(set![*state], *symbol),
            nexts@.no_duplicates(),
    {
        let mut nexts: Vec<S> = Vec::new();
        let mut i: usize = 0;
        while i < self.rules.len()
            invariant
                i <= self.rules.len(),
                obeys_concrete_eq::<S>(),
                obeys_concrete_eq::<T>(),
                nexts@.no_duplicates(),
                forall|next: S|
                    nexts@.contains(next) <==> exists|k: int|
                        0 <= k < i && (#[trigger] self.rules@[k]).applies(*state, *symbol)
                            && self.rules@[k].next_state == next,
            decreases self.rules.len() - i,
        {
            let ghost before = nexts@;
            if self.rules[i].apply_to(state, symbol) {
                insert(&mut nexts, self.rules[i].next_state);
            }
            proof {
                let rule = self.rules@[i as int];
                assert forall|next: S|
                    nexts@.contains(next) <==> exists|k: int|
                        0 <= k < i + 1 && (#[trigger] self.rules@[k]).applies(*state, *symbol)
                            && self.rules@[k].next_state == next by {
                    assert(nexts@.to_set().contains(next) == nexts@.contains(next));
                    assert(before.to_set().contains(next) == before.contains(next));
                    if nexts@.contains(next) {
                        if before.contains(next) {
                            let k = choose|k: int|
                                0 <= k < i && (#[trigger] self.rules@[k]).applies(*state, *symbol)
                                    && self.rules@[k].next_state == next;
                            assert(0 <= k < i + 1);
                        } else {
                            assert(rule.applies(*state, *symbol) && rule.next_state == next);
                        }
                    }
                    if exists|k: int|
                        0 <= k < i + 1 && (#[trigger] self.rules@[k]).applies(*state, *symbol)
                            && self.rules@[k].next_state == next {
                        let k = choose|k: int|
                            0 <= k < i + 1 && (#[trigger] self.rules@[k]).applies(*state, *symbol)
                                && self.rules@[k].next_state == next;
                        if k < i {
                            assert(before.contains(next));
                        }
                    }
                }
            }
            i += 1;
        }
        proof {
            let wanted = self.successors(set![*state], *symbol);
            assert forall|next: S| nexts@.to_set().contains(next) == wanted.contains(next) by {
                if nexts@.contains(next) {
                    let k = choose|k: int|
                        0 <= k < i && (#[trigger] self.rules@[k]).applies(*state, *symbol)
                            && self.rules@[k].next_state == next;
                    assert(set![*state].contains(self.rules@[k].state));
                }
                if wanted.contains(next) {
                    let k = choose|k: int|
                        0 <= k < self.rules@.len() && set![*state].contains(
                            (#[trigger] self.rules@[k]).state,
                        ) && self.rules@[k].symbol == *symbol && self.rules@[k].next_state == next;
                    assert(self.rules@[k].applies(*state, *symbol));
                }
            }
            assert(nexts@.to_set() =~= wanted);
        }
        nexts
    }

    /// The states that follow a state of `states` by one rule on `symbol`,
    /// each once.
    pub fn next_states(&self, states: &Vec<S>, symbol: &Option<T>) -> (nexts: Vec<S>)
        requires
            obeys_concrete_eq::<S>(),
            obeys_concrete_eq::<T>(),
        ensures
            nexts@.to_set() == self.successors(states@.to_set(), *symbol),
            nexts@.no_duplicates(),
    {
        let mut nexts: Vec<S> = Vec::new();
        let mut i: usize = 0;
        proof {
            assert(states@.take(0) =~= Seq::empty());
            assert(nexts@.to_set() =~= self.successors(states@.take(0).to_set(), *symbol));
        }
        while i < states.len()
            invariant
                i <= states.len(),
                obeys_concrete_eq::<S>(),
                obeys_concrete_eq::<T>(),
                nexts@.no_duplicates(),
                nexts@.to_set() == self.successors(states@.take(i as int).to_set(), *symbol),
            decreases states.len() - i,
        {
            let more = self.next_states_for(&states[i], symbol);
            let ghost before = nexts@.to_set();
            let mut j: usize = 0;
            while j < more.len()
                invariant
                    j <= more.len(),
                    obeys_concrete_eq::<S>(),
                    nexts@.no_duplicates(),
                    nexts@.to_set() == before.union(more@.take(j as int).to_set()),
                decreases more.len() - j,
            {
                insert(&mut nexts, more[j]);
                proof {
                    assert(more@.take(j + 1) =~= more@.take(j as int).push(more@[j as int]));
                    more@.take(j as int).lemma_push_to_set_commute(more@[j as int]);
                    assert(nexts@.to_set() =~= before.union(more@.take(j + 1).to_set()));
                }
                j += 1;
            }
            proof {
                assert(more@.take(j as int) =~= more@);
                assert(states@.take(i + 1) =~= states@.take(i as int).push(states@[i as int]));
                states@.take(i as int).lemma_push_to_set_commute(states@[i as int]);
                self.lemma_successors_insert(
                    states@.take(i as int).to_set(),
                    states@[i as int],
                    *symbol,
                );
            }
            i += 1;
        }
        assert(states@.take(i as int) =~= states@);
        nexts
    }
}

impl<S, T> NFATransitions<S, T> {
    /// The successors of a set with one more state are the successors of
    /// the set together with those of the state.
    pub proof fn lemma_successors_insert(self, states: Set<S>, state: S, symbol: Option<T>)
        ensures
            self.successors(states.insert(state), symbol) == self.successors(states, symbol).union(
                self.successors(set![state], symbol),
            ),
    {
        let whole = self.successors(states.insert(state), symbol);
        let parts = self.successors(states, symbol).union(self.successors(set![state], symbol));
        assert forall|next: S| whole.contains(next) == parts.contains(next) by {
            if whole.contains(next) {
                let i = choose|i: int|
                    0 <= i < self.rules@.len() && states.insert(state).contains(
                        (#[trigger] self.rules@[i]).state,
                    ) && self.rules@[i].symbol == symbol && self.rules@[i].next_state == next;
                if self.rules@[i].state == state {
                    assert(set![state].contains(self.rules@[i].state));
                    assert(self.successors(set![state], symbol).contains(next));
                } else {
                    assert(states.contains(self.rules@[i].state));
                    assert(self.successors(states, symbol).contains(next));
                }
            }
            if self.successors(states, symbol).contains(next) {
                let i = choose|i: int|
                    0 <= i < self.rules@.len() && states.contains((#[trigger] self.rules@[i]).state)
                        && self.rules@[i].symbol == symbol && self.rules@[i].next_state == next;
                assert(states.insert(state).contains(self.rules@[i].state));
            }
            if self.successors(set![state], symbol).contains(next) {
                let i = choose|i: int|
                    0 <= i < self.rules@.len() && set![state].contains(
                        (#[trigger] self.rules@[i]).state,
                    ) && self.rules@[i].symbol == symbol && self.rules@[i].next_state == next;
                assert(states.insert(state).contains(self.rules@[i].state));
            }
        }
        assert(whole =~= parts);
    }
}

impl<S: Eq + Copy, T: Eq + Copy> NFATransitions<S, T> {
    /// The closure of `states` under empty moves, each state once. The
    /// result is a worklist: the states from the cursor on still wait for
    /// their empty moves to be taken, and what those reach joins the list
    /// unless it is already there.
    pub fn empty_move(&self, states: &Vec<S>) -> (closure: Vec<S>)
        requires
            obeys_concrete_eq::<S>(),
            obeys_concrete_eq::<T>(),
        ensures
            closure@.to_set() == self.epsilon_closure(states@.to_set()),
            closure@.no_duplicates(),
    {
        let ghost start = states@.to_set();
        let ghost universe = start.union(self.targets());
        let mut closure: Vec<S> = Vec::new();
        let mut k: usize = 0;
        assert(closure@.to_set() =~= states@.take(0).to_set());
        while k < states.len()
            invariant
                k <= states.len(),
                obeys_concrete_eq::<S>(),
                closure@.no_duplicates(),
                closure@.to_set() == states@.take(k as int).to_set(),
            decreases states.len() - k,
        {
            insert(&mut closure, states[k]);
            proof {
                assert(states@.take(k + 1) =~= states@.take(k as int).push(states@[k as int]));
                states@.take(k as int).lemma_push_to_set_commute(states@[k as int]);
            }
            k += 1;
        }
        proof {
            assert(states@.take(k as int) =~= states@);
            self.lemma_closure_extensive(start);
            vstd::seq_lib::seq_to_set_is_finite(states@);
            vstd::seq_lib::seq_to_set_is_finite(
                self.rules@.map_values(|rule: Rule<S, T>| rule.next_state),
            );
            lemma_len_bounded(closure@, universe);
        }
        let none: Option<T> = None;
        let mut i: usize = 0;
        while i < closure.len()
            invariant
                i <= closure.len(),
                obeys_concrete_eq::<S>(),
                obeys_concrete_eq::<T>(),
                none == None::<T>,
                start == states@.to_set(),
                universe == start.union(self.targets()),
                universe.finite(),
                closure@.no_duplicates(),
                closure@.len() <= universe.len(),
                start.subset_of(closure@.to_set()),
                closure@.to_set().subset_of(self.epsilon_closure(start)),
                closure@.to_set().subset_of(universe),
                forall|k: int, m: int|
                    #![trigger closure@[k], self.rules@[m]]
                    0 <= k < i && 0 <= m < self.rules@.len() && self.rules@[m].applies(
                        closure@[k],
                        none,
                    ) ==> closure@.contains(self.rules@[m].next_state),
            decreases universe.len() - i,
        {
            let state = closure[i];
            let mut j: usize = 0;
            while j < self.rules.len()
                invariant
                    j <= self.rules.len(),
                    i < closure.len(),
                    closure@[i as int] == state,
                    obeys_concrete_eq::<S>(),
                    obeys_concrete_eq::<T>(),
                    none == None::<T>,
                    start == states@.to_set(),
                    universe == start.union(self.targets()),
                    universe.finite(),
                    closure@.no_duplicates(),
                    closure@.len() <= universe.len(),
                    start.subset_of(closure@.to_set()),
                    closure@.to_set().subset_of(self.epsilon_closure(start)),
                    closure@.to_set().subset_of(universe),
                    forall|k: int, m: int|
                        #![trigger closure@[k], self.rules@[m]]
                        0 <= k < i && 0 <= m < self.rules@.len() && self.rules@[m].applies(
                            closure@[k],
                            none,
                        ) ==> closure@.contains(self.rules@[m].next_state),
                    forall|m: int|
                        0 <= m < j && (#[trigger] self.rules@[m]).applies(state, none)
                            ==> closure@.contains(self.rules@[m].next_state),
                decreases self.rules.len() - j,
            {
                let ghost before = closure@;
                if self.rules[j].apply_to(&state, &none) {
                    let next = self.rules[j].next_state;
                    insert(&mut closure, next);
                    proof {
                        assert(closure@.to_set().contains(next));
                        assert(before.to_set().contains(state));
                        assert(self.successors(self.epsilon_closure(start), None).contains(next));
                        self.lemma_closure_closed(start);
                        let mapped = self.rules@.map_values(|rule: Rule<S, T>| rule.next_state);
                        assert(mapped[j as int] == next);
                        assert(self.targets().contains(next));
                        lemma_len_bounded(closure@, universe);
                    }
                }
                proof {
                    assert forall|x: S| before.contains(x) implies closure@.contains(x) by {
                        let at = choose|at: int| 0 <= at < before.len() && before[at] == x;
                        assert(closure@[at] == x);
                    }
                }
                j += 1;
            }
            i += 1;
        }
        proof {
            let found = closure@.to_set();
            assert forall|next: S| self.successors(found, None).contains(next) implies found.contains(
                next,
            ) by {
                let m = choose|m: int|
                    0 <= m < self.rules@.len() && found.contains((#[trigger] self.rules@[m]).state)
                        && self.rules@[m].symbol == None::<T> && self.rules@[m].next_state == next;
                let k = choose|k: int|
                    0 <= k < closure@.len() && closure@[k] == self.rules@[m].state;
                assert(self.rules@[m].applies(closure@[k], none));
            }
            self.lemma_closure_least(start, found);
            assert(found =~= self.epsilon_closure(start));
        }
        closure
    }
}

} // verus!
