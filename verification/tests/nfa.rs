use automata::AutomatonError;
use automata::NFA;

#[test]
fn nfa_construct() {
    // construct a simple NFA
    let mut nfa = NFA::with_state(0, false);
    nfa.add_state(1, true);
    nfa.add_transition((0, 'a', 0)).unwrap();
    nfa.add_transition((0, 'a', 1)).unwrap();

    // check states
    assert!(nfa.has_state(&0), "Initially added state missing");
    assert!(nfa.has_state(&1), "Later added state missing");
    assert!(!nfa.accepts(), "Initial state incorrectly accepting");
    assert_eq!(
        Some(&vec![0]),
        nfa.get_current(),
        "Initial state not set correctly"
    );
}

#[test]
fn nfa_run() {
    let mut nfa = NFA::with_state(0, false);
    nfa.add_state(1, false);
    nfa.add_state(2, true);
    nfa.add_transition((0, 'a', 1)).unwrap();
    nfa.add_transition((0, 'a', 2)).unwrap();
    nfa.add_transition((1, 'b', 1)).unwrap();

    nfa.set_current(vec![0, 1]);
    assert_eq!(
        Some(&vec![0, 1]),
        nfa.get_current(),
        "Incorrect state after valid state set"
    );

    nfa.set_current(vec![2, 4]);
    assert_eq!(
        None,
        nfa.get_current(),
        "Incorrect state after invalid state set"
    );

    nfa.set_current(vec![0]);
    assert!(
        nfa.run(&"a".chars().collect::<Vec<_>>()),
        "Incorrect result on accepting run"
    );
    assert_eq!(
        Some(&vec![0]),
        nfa.get_current(),
        "Incorrect state after run"
    );
}

#[test]
fn nfa_add_transition_unknown_next() {
    let mut nfa = NFA::with_state(0, false);
    let err = nfa.add_transition((0, 'z', 99)).unwrap_err();
    assert_eq!(AutomatonError::InexistentState(99), err);
    let record = nfa.get_state(&0).unwrap();
    assert_eq!(0, record.transitions.len());
}

#[test]
fn nfa_add_transition_unknown_prev() {
    let mut nfa = NFA::with_state(0, false);
    nfa.add_state(1, true);
    let err = nfa.add_transition((7, 'a', 1)).unwrap_err();
    assert_eq!(AutomatonError::InexistentState(7), err);
}

#[test]
fn nfa_add_transition_accumulates() {
    // the target set for (state, symbol) grows by union: both targets stay
    let mut nfa = NFA::with_state(0, false);
    nfa.add_state(1, true);
    nfa.add_transition((0, 'a', 1)).unwrap();
    nfa.add_transition((0, 'a', 0)).unwrap();
    nfa.add_transition((0, 'a', 1)).unwrap();
    let targets = &nfa.get_state(&0).unwrap().transitions;
    assert_eq!(1, targets.len());
    let mut reached = targets[0].1.clone();
    reached.sort();
    assert_eq!(vec![0, 1], reached);
    nfa.step(&'a');
    let mut cur = nfa.get_current().unwrap().clone();
    cur.sort();
    assert_eq!(vec![0, 1], cur);
    assert!(nfa.accepts(), "One accepting member suffices");
}

#[test]
fn nfa_from_states_and_transitions() {
    let mut nfa = NFA::from_transitions(
        vec![0],
        vec![(0, false), (1, true)],
        vec![(0, 'a', 0), (0, 'a', 1)],
    )
    .unwrap();
    assert!(nfa.run(&vec!['a']));
    assert!(!nfa.run(&vec!['b']));
    let err = NFA::from_transitions(vec![0], vec![(0, false)], vec![(0, 'a', 3)]).unwrap_err();
    assert_eq!(AutomatonError::InexistentState(3), err);
}

#[test]
fn nfa_from_map_keeps_current_unchecked() {
    // the bulk constructor stores the given current set as it is; stepping
    // reads an undeclared member as contributing nothing
    let mut nfa = NFA::from_map(vec![0, 9], vec![(0, (true, vec![('a', vec![0])]))]);
    assert_eq!(Some(&vec![0, 9]), nfa.get_current());
    assert!(nfa.accepts());
    nfa.step(&'a');
    assert_eq!(Some(&vec![0]), nfa.get_current());
}

#[test]
fn nfa_dead_state_absorbs() {
    let mut nfa = NFA::with_state(0, true);
    nfa.step(&'x');
    assert_eq!(None, nfa.get_current());
    assert!(!nfa.accepts());
    nfa.step(&'y');
    assert_eq!(None, nfa.get_current());
    assert!(!nfa.run(&vec!['x']));
    assert_eq!(None, nfa.get_current(), "A dead probe must stay dead");
}

#[test]
fn nfa_run_restores_current() {
    let mut nfa = NFA::with_state(0, false);
    nfa.add_state(1, true);
    nfa.add_transition((0, 'a', 1)).unwrap();
    nfa.set_current(vec![0]);
    assert!(nfa.run(&vec!['a']));
    assert_eq!(Some(&vec![0]), nfa.get_current());
    assert!(nfa.run(&vec!['a']), "Probing must be repeatable");
}

#[test]
fn nfa_new_state_is_singleton() {
    assert_eq!(vec![5], NFA::new_state(5));
}

#[test]
fn nfa_state_record_fields() {
    let record = automata::nfa::State::new(false, vec![('b', vec![1, 2])]);
    assert!(!record.accepts);
    assert_eq!(vec![('b', vec![1, 2])], record.transitions);
}
