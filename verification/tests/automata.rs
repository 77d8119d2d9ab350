use naiveregex::finite_automata::state_set::{contains, insert};
use naiveregex::finite_automata::{
    AutomatonError, DFAModel, DFATransitions, NFAModel, NFATransitions, Rule,
};

fn chars(text: &str) -> Vec<char> {
    text.chars().collect()
}

fn rule(state: isize, symbol: Option<char>, next_state: isize) -> Rule<isize, char> {
    Rule { state, symbol, next_state }
}

fn sorted(mut states: Vec<isize>) -> Vec<isize> {
    states.sort();
    states
}

fn sample_dfa() -> DFAModel<isize, char> {
    DFAModel {
        start_state: 1,
        accept_states: vec![2],
        transitions: DFATransitions {
            rules: vec![rule(1, Some('a'), 1), rule(1, Some('b'), 2), rule(2, Some('c'), 2)],
        },
    }
}

fn sample_nfa() -> NFAModel<isize, char> {
    NFAModel {
        start_state: 1,
        accept_states: vec![4],
        transitions: NFATransitions {
            rules: vec![
                rule(1, Some('a'), 1),
                rule(1, Some('b'), 1),
                rule(1, Some('b'), 2),
                rule(2, Some('a'), 3),
                rule(2, Some('b'), 3),
                rule(3, Some('a'), 4),
                rule(3, Some('b'), 4),
            ],
        },
    }
}

fn free_move_rules() -> Vec<Rule<isize, char>> {
    vec![
        rule(1, None, 2),
        rule(1, None, 4),
        rule(2, Some('a'), 3),
        rule(3, Some('a'), 2),
        rule(4, Some('a'), 5),
        rule(5, Some('a'), 6),
        rule(6, Some('a'), 4),
    ]
}

fn free_move_nfa() -> NFAModel<isize, char> {
    NFAModel {
        start_state: 1,
        accept_states: vec![2, 4],
        transitions: NFATransitions { rules: free_move_rules() },
    }
}

#[test]
fn test_rule() {
    let rule = Rule { state: 1isize, symbol: Some('a'), next_state: 2isize };
    assert!(rule.apply_to(&1isize, &Some('a')));
}

#[test]
fn test_transitions() {
    let mut rules = Vec::new();
    rules.push(Rule { state: 1isize, symbol: Some('a'), next_state: 1isize });
    rules.push(Rule { state: 1isize, symbol: Some('b'), next_state: 2isize });
    rules.push(Rule { state: 2isize, symbol: Some('c'), next_state: 2isize });

    let transitions = DFATransitions { rules: rules };
    assert_eq!(1isize, *transitions.next_state(&1isize, &Some('a')).unwrap());
}

#[test]
fn test_dfa_model() {
    let state = 1isize;

    let mut accept_states = Vec::new();
    accept_states.push(2isize);

    let mut rules = Vec::new();
    rules.push(Rule { state: 1isize, symbol: Some('a'), next_state: 1isize });
    rules.push(Rule { state: 1isize, symbol: Some('b'), next_state: 2isize });
    rules.push(Rule { state: 2isize, symbol: Some('c'), next_state: 2isize });
    let transitions = DFATransitions { rules: rules };

    let dfa_model = DFAModel {
        start_state: state,
        accept_states: accept_states,
        transitions: transitions,
    };

    assert!(dfa_model.accept(&chars("aabc")).unwrap());
}

#[test]
fn test_nfa_model() {
    let start_state = 1isize;

    let mut accept_states = Vec::new();
    accept_states.push(4isize);

    let mut rules = Vec::new();
    rules.push(Rule { state: 1isize, symbol: Some('a'), next_state: 1isize });
    rules.push(Rule { state: 1isize, symbol: Some('b'), next_state: 1isize });
    rules.push(Rule { state: 1isize, symbol: Some('b'), next_state: 2isize });
    rules.push(Rule { state: 2isize, symbol: Some('a'), next_state: 3isize });
    rules.push(Rule { state: 2isize, symbol: Some('b'), next_state: 3isize });
    rules.push(Rule { state: 3isize, symbol: Some('a'), next_state: 4isize });
    rules.push(Rule { state: 3isize, symbol: Some('b'), next_state: 4isize });
    let transitions = NFATransitions { rules: rules };

    let nfa_model = NFAModel {
        start_state: start_state,
        accept_states: accept_states,
        transitions: transitions,
    };

    assert!(nfa_model.accept(&chars("baa")));
    assert!(!nfa_model.accept(&chars("aaa")));
    assert!(nfa_model.accept(&chars("abaa")));
    assert!(nfa_model.accept(&chars("aaaabaa")));
}

#[test]
fn test_nfa_model_with_free_moves() {
    let start_state = 1isize;

    let mut accept_states = Vec::new();
    accept_states.push(2isize);
    accept_states.push(4isize);

    let mut rules = Vec::new();
    rules.push(Rule { state: 1isize, symbol: None, next_state: 2isize });
    rules.push(Rule { state: 1isize, symbol: None, next_state: 4isize });

    rules.push(Rule { state: 2isize, symbol: Some('a'), next_state: 3isize });
    rules.push(Rule { state: 3isize, symbol: Some('a'), next_state: 2isize });

    rules.push(Rule { state: 4isize, symbol: Some('a'), next_state: 5isize });
    rules.push(Rule { state: 5isize, symbol: Some('a'), next_state: 6isize });
    rules.push(Rule { state: 6isize, symbol: Some('a'), next_state: 4isize });

    let transitions = NFATransitions { rules: rules };

    let nfa_model = NFAModel {
        start_state: start_state,
        accept_states: accept_states,
        transitions: transitions,
    };

    assert!(nfa_model.accept(&chars("aa")));
    assert!(nfa_model.accept(&chars("aaaa")));
    assert!(nfa_model.accept(&chars("aaa")));
    assert!(nfa_model.accept(&chars("aaaaaa")));

    assert!(!nfa_model.accept(&chars("aaaaa")));
    assert!(!nfa_model.accept(&chars("aaaaaaa")));
}

#[test]
fn rule_applies_only_to_its_own_state_and_symbol() {
    let step = rule(1, Some('a'), 2);
    assert!(step.apply_to(&1, &Some('a')));
    assert!(!step.apply_to(&2, &Some('a')));
    assert!(!step.apply_to(&1, &Some('b')));
    assert!(!step.apply_to(&1, &None));
}

#[test]
fn empty_symbol_matches_empty_moves_only() {
    let free = rule(1, None, 2);
    assert!(free.apply_to(&1, &None));
    assert!(!free.apply_to(&1, &Some('a')));
    assert!(!free.apply_to(&2, &None));
}

#[test]
fn dfa_lookup_finds_each_rule() {
    let model = sample_dfa();
    assert_eq!(model.transitions.next_state(&1, &Some('a')), Some(&1));
    assert_eq!(model.transitions.next_state(&1, &Some('b')), Some(&2));
    assert_eq!(model.transitions.next_state(&2, &Some('c')), Some(&2));
    assert_eq!(model.transitions.rule_for(&1, &Some('b')), Some(&rule(1, Some('b'), 2)));
}

#[test]
fn dfa_lookup_without_rule_is_none() {
    let model = sample_dfa();
    assert_eq!(model.transitions.next_state(&1, &Some('c')), None);
    assert_eq!(model.transitions.next_state(&2, &Some('a')), None);
    assert_eq!(model.transitions.next_state(&1, &None), None);
    assert_eq!(model.transitions.next_state(&7, &Some('a')), None);
    assert_eq!(model.transitions.rule_for(&1, &Some('c')), None);
    let none: DFATransitions<isize, char> = DFATransitions { rules: vec![] };
    assert_eq!(none.next_state(&1, &Some('a')), None);
}

#[test]
fn dfa_lookup_takes_the_first_of_competing_rules() {
    let transitions = DFATransitions {
        rules: vec![rule(1, Some('a'), 5), rule(1, Some('a'), 9), rule(1, None, 3)],
    };
    assert_eq!(transitions.next_state(&1, &Some('a')), Some(&5));
    assert_eq!(transitions.next_state(&1, &None), Some(&3));
}

#[test]
fn dfa_relation_knows_whether_it_is_deterministic() {
    assert!(sample_dfa().transitions.is_deterministic());
    let none: DFATransitions<isize, char> = DFATransitions { rules: vec![] };
    assert!(none.is_deterministic());
    let repeated = DFATransitions { rules: vec![rule(1, Some('a'), 2), rule(1, Some('a'), 2)] };
    assert!(repeated.is_deterministic());
    let competing = DFATransitions {
        rules: vec![rule(1, Some('a'), 2), rule(2, Some('a'), 2), rule(1, Some('a'), 3)],
    };
    assert!(!competing.is_deterministic());
    let free = DFATransitions { rules: vec![rule(1, None, 2), rule(1, None, 3)] };
    assert!(!free.is_deterministic());
}

#[test]
fn dfa_accepts_words_that_end_in_the_accept_state() {
    let model = sample_dfa();
    assert_eq!(model.accept(&chars("aabcc")), Ok(true));
    assert_eq!(model.accept(&chars("aab")), Ok(true));
    assert_eq!(model.accept(&chars("b")), Ok(true));
}

#[test]
fn dfa_rejects_words_that_end_elsewhere() {
    let model = sample_dfa();
    assert_eq!(model.accept(&chars("")), Ok(false));
    assert_eq!(model.accept(&chars("a")), Ok(false));
    assert_eq!(model.accept(&chars("aaaa")), Ok(false));
}

#[test]
fn dfa_reports_a_missing_rule_apart_from_rejection() {
    let model = sample_dfa();
    assert_eq!(model.accept(&chars("c")), Err(AutomatonError::UnknownTransition));
    assert_eq!(model.accept(&chars("aba")), Err(AutomatonError::UnknownTransition));
    assert_eq!(model.accept(&chars("abca")), Err(AutomatonError::UnknownTransition));
}

#[test]
fn dfa_with_accepting_start_accepts_the_empty_word() {
    let model: DFAModel<isize, char> = DFAModel {
        start_state: 3,
        accept_states: vec![3],
        transitions: DFATransitions { rules: vec![] },
    };
    assert_eq!(model.accept(&[]), Ok(true));
    assert_eq!(model.accept(&['a']), Err(AutomatonError::UnknownTransition));
}

#[test]
fn dfa_runtime_moves_one_symbol_at_a_time() {
    let model = sample_dfa();
    let mut dfa = model.gen_dfa();
    assert_eq!(dfa.state, 1);
    assert!(!dfa.accepted());
    assert_eq!(dfa.read_symbol('a'), Ok(()));
    assert_eq!(dfa.state, 1);
    assert_eq!(dfa.read_symbol('b'), Ok(()));
    assert_eq!(dfa.state, 2);
    assert!(dfa.accepted());
}

#[test]
fn dfa_runtime_stays_put_on_a_missing_rule() {
    let model = sample_dfa();
    let mut dfa = model.gen_dfa();
    assert_eq!(dfa.read_symbol('b'), Ok(()));
    assert_eq!(dfa.read_symbol('a'), Err(AutomatonError::UnknownTransition));
    assert_eq!(dfa.state, 2);
    assert_eq!(dfa.read_symbol('c'), Ok(()));
    assert_eq!(dfa.state, 2);
}

#[test]
fn dfa_read_sequence_reads_to_the_end() {
    let model = sample_dfa();
    let mut dfa = model.gen_dfa();
    assert_eq!(dfa.read_sequence(&chars("aabcc")), Ok(()));
    assert_eq!(dfa.state, 2);
    assert_eq!(dfa.read_sequence(&[]), Ok(()));
    assert_eq!(dfa.state, 2);
}

#[test]
fn dfa_read_sequence_stops_at_the_first_missing_rule() {
    let model = sample_dfa();
    let mut dfa = model.gen_dfa();
    assert_eq!(dfa.read_sequence(&chars("aacb")), Err(AutomatonError::UnknownTransition));
    assert_eq!(dfa.state, 1);
    let mut other = model.gen_dfa();
    assert_eq!(other.read_sequence(&chars("abab")), Err(AutomatonError::UnknownTransition));
    assert_eq!(other.state, 2);
}

#[test]
fn dfa_outcome_is_the_same_on_every_call() {
    let model = sample_dfa();
    for word in ["", "a", "aab", "aabcc", "c", "abca"] {
        let input = chars(word);
        assert_eq!(model.accept(&input), model.accept(&input));
    }
}

#[test]
fn dfa_outcome_does_not_depend_on_the_order_of_the_rules() {
    let model = sample_dfa();
    let shuffled = DFAModel {
        start_state: 1isize,
        accept_states: vec![2, 2],
        transitions: DFATransitions {
            rules: vec![
                rule(2, Some('c'), 2),
                rule(1, Some('b'), 2),
                rule(1, Some('a'), 1),
                rule(1, Some('b'), 2),
            ],
        },
    };
    for word in ["", "a", "aab", "aabcc", "c", "abca", "bccc"] {
        let input = chars(word);
        assert_eq!(model.accept(&input), shuffled.accept(&input));
    }
}

#[test]
fn dfa_over_a_full_relation_never_fails() {
    let model = DFAModel {
        start_state: 0u8,
        accept_states: vec![1u8],
        transitions: DFATransitions {
            rules: vec![
                Rule { state: 0u8, symbol: Some(0u8), next_state: 0u8 },
                Rule { state: 0u8, symbol: Some(1u8), next_state: 1u8 },
                Rule { state: 1u8, symbol: Some(0u8), next_state: 1u8 },
                Rule { state: 1u8, symbol: Some(1u8), next_state: 0u8 },
            ],
        },
    };
    assert_eq!(model.accept(&[]), Ok(false));
    assert_eq!(model.accept(&[1]), Ok(true));
    assert_eq!(model.accept(&[1, 0, 0, 1]), Ok(false));
    assert_eq!(model.accept(&[0, 1, 1, 1, 0]), Ok(true));
}

#[test]
fn nfa_successors_of_one_state() {
    let model = sample_nfa();
    assert_eq!(sorted(model.transitions.next_states_for(&1, &Some('b'))), vec![1, 2]);
    assert_eq!(sorted(model.transitions.next_states_for(&1, &Some('a'))), vec![1]);
    assert_eq!(sorted(model.transitions.next_states_for(&4, &Some('a'))), Vec::<isize>::new());
    assert_eq!(sorted(model.transitions.next_states_for(&1, &None)), Vec::<isize>::new());
}

#[test]
fn nfa_successors_of_a_set() {
    let model = sample_nfa();
    assert_eq!(sorted(model.transitions.next_states(&vec![1, 2], &Some('b'))), vec![1, 2, 3]);
    assert_eq!(sorted(model.transitions.next_states(&vec![2, 3], &Some('a'))), vec![3, 4]);
    assert_eq!(sorted(model.transitions.next_states(&vec![], &Some('a'))), Vec::<isize>::new());
    assert_eq!(sorted(model.transitions.next_states(&vec![4], &Some('a'))), Vec::<isize>::new());
}

#[test]
fn nfa_successors_come_once_each() {
    let transitions = NFATransitions {
        rules: vec![rule(1, Some('a'), 3), rule(2, Some('a'), 3), rule(1, Some('a'), 3)],
    };
    assert_eq!(transitions.next_states(&vec![1, 2, 1], &Some('a')), vec![3]);
    assert_eq!(transitions.next_states_for(&1, &Some('a')), vec![3]);
}

#[test]
fn nfa_rules_for_keeps_the_order_of_the_relation() {
    let model = sample_nfa();
    let found = model.transitions.rules_for(&1, &Some('b'));
    assert_eq!(found, vec![&rule(1, Some('b'), 1), &rule(1, Some('b'), 2)]);
    assert!(model.transitions.rules_for(&4, &Some('b')).is_empty());
}

#[test]
fn empty_moves_close_a_set() {
    let transitions = NFATransitions { rules: free_move_rules() };
    assert_eq!(sorted(transitions.empty_move(&vec![1])), vec![1, 2, 4]);
    assert_eq!(sorted(transitions.empty_move(&vec![3])), vec![3]);
    assert_eq!(sorted(transitions.empty_move(&vec![])), Vec::<isize>::new());
    assert_eq!(sorted(transitions.empty_move(&vec![5, 1, 5])), vec![1, 2, 4, 5]);
}

#[test]
fn empty_moves_follow_chains_and_cycles() {
    let transitions: NFATransitions<isize, char> = NFATransitions {
        rules: vec![
            rule(1, None, 2),
            rule(2, None, 3),
            rule(3, None, 1),
            rule(3, None, 4),
            rule(4, Some('a'), 5),
            rule(6, None, 7),
        ],
    };
    assert_eq!(sorted(transitions.empty_move(&vec![1])), vec![1, 2, 3, 4]);
    assert_eq!(sorted(transitions.empty_move(&vec![3])), vec![1, 2, 3, 4]);
    assert_eq!(sorted(transitions.empty_move(&vec![4])), vec![4]);
    assert_eq!(sorted(transitions.empty_move(&vec![6, 4])), vec![4, 6, 7]);
}

#[test]
fn closing_twice_is_closing_once() {
    let transitions = NFATransitions { rules: free_move_rules() };
    for start in [vec![], vec![1], vec![2, 6], vec![1, 3, 5]] {
        let once = transitions.empty_move(&start);
        let twice = transitions.empty_move(&once);
        assert_eq!(sorted(once), sorted(twice));
    }
}

#[test]
fn nfa_runtime_reads_through_empty_moves() {
    let model = free_move_nfa();
    let mut nfa = model.gen_nfa();
    assert_eq!(nfa.states, vec![1]);
    assert!(!nfa.accepted());
    nfa.read_symbol('a');
    assert_eq!(sorted(nfa.states.clone()), vec![3, 5]);
    assert!(!nfa.accepted());
    nfa.read_symbol('a');
    assert_eq!(sorted(nfa.states.clone()), vec![2, 6]);
    assert!(nfa.accepted());
}

#[test]
fn nfa_runtime_closes_after_the_symbol() {
    let model: NFAModel<isize, char> = NFAModel {
        start_state: 1,
        accept_states: vec![3],
        transitions: NFATransitions { rules: vec![rule(1, Some('a'), 2), rule(2, None, 3)] },
    };
    let mut nfa = model.gen_nfa();
    nfa.read_symbol('a');
    assert_eq!(sorted(nfa.states.clone()), vec![2, 3]);
    assert!(nfa.accepted());
    assert!(model.accept(&chars("a")));
}

#[test]
fn nfa_without_a_matching_rule_is_left_with_no_state() {
    let model = sample_nfa();
    let mut nfa = model.gen_nfa();
    nfa.read_symbol('c');
    assert!(nfa.states.is_empty());
    assert!(!nfa.accepted());
    nfa.read_symbol('b');
    nfa.read_symbol('a');
    assert!(nfa.states.is_empty());
    assert!(!nfa.accepted());
    assert!(!model.accept(&chars("cbaa")));
    assert!(!model.accept(&chars("bax")));
}

#[test]
fn nfa_takes_no_empty_move_before_the_first_symbol() {
    let model = free_move_nfa();
    assert!(!model.accept(&[]));
    let at_accept: NFAModel<isize, char> = NFAModel {
        start_state: 2,
        accept_states: vec![2, 4],
        transitions: NFATransitions { rules: free_move_rules() },
    };
    assert!(at_accept.accept(&[]));
}

#[test]
fn nfa_accepts_exactly_where_a_path_exists() {
    let model = free_move_nfa();
    for length in 1..13usize {
        let input = vec!['a'; length];
        assert_eq!(model.accept(&input), length % 2 == 0 || length % 3 == 0);
    }
}

#[test]
fn nfa_works_over_other_state_and_symbol_types() {
    let model = NFAModel {
        start_state: (0u8, false),
        accept_states: vec![(1u8, true)],
        transitions: NFATransitions {
            rules: vec![
                Rule { state: (0u8, false), symbol: Some(7u32), next_state: (1u8, false) },
                Rule { state: (1u8, false), symbol: None, next_state: (1u8, true) },
            ],
        },
    };
    assert!(model.accept(&[7]));
    assert!(!model.accept(&[7, 7]));
    assert!(!model.accept(&[8]));
}

#[test]
fn set_helpers_treat_vectors_as_sets() {
    let mut states: Vec<isize> = Vec::new();
    assert!(!contains(&states, &1));
    insert(&mut states, 1);
    insert(&mut states, 2);
    insert(&mut states, 1);
    assert_eq!(states, vec![1, 2]);
    assert!(contains(&states, &2));
    assert!(!contains(&states, &3));
}
