use automata::AutomatonError;
use automata::DFA;

#[test]
fn dfa_construct() {
    // construct a simple DFA
    let mut dfa = DFA::with_state(0, false);
    dfa.add_state(1, true);
    dfa.add_transition((0, 'a', 1)).unwrap();

    // check states
    assert!(dfa.has_state(&0), "Initially added state missing");
    assert!(dfa.has_state(&1), "Later added state missing");
    assert!(!dfa.accepts(), "Initial state incorrectly accepting");
    assert_eq!(
        Some(&0),
        dfa.get_current(),
        "Initial state not set correctly"
    );
}

#[test]
fn dfa_run() {
    // construct a new DFA
    let mut dfa = DFA::with_state(0, false);
    dfa.add_state(1, true);
    dfa.add_transition((0, 'a', 1)).unwrap();
    dfa.add_transition((1, 'a', 1)).unwrap();
    dfa.add_transition((1, 'b', 1)).unwrap();

    // check state setting
    dfa.set_current(1);
    assert_eq!(
        Some(&1),
        dfa.get_current(),
        "Incorrect state after valid state set"
    );
    dfa.set_current(123);
    assert_eq!(
        None,
        dfa.get_current(),
        "Incorrect state after invalid state set"
    );

    // check execution
    dfa.set_current(0);
    assert!(
        dfa.run(&vec!['a', 'a', 'b']),
        "Incorrect result on accepting run"
    );
    assert_eq!(Some(&0), dfa.get_current(), "Incorrect state after run");
    assert!(
        !dfa.run(&"ba".chars().collect::<Vec<_>>()),
        "Incorrect result on not-accepting run"
    );
}

#[test]
fn dfa_from_states_last_wins() {
    let dfa = DFA::from_states(7, vec![(7, false), (8, true), (7, true)]);
    assert_eq!(Some(&7), dfa.get_current());
    assert!(dfa.accepts(), "Later pair for the same id must win");
    assert!(dfa.has_state(&8));
    assert!(!dfa.has_state(&9));
}

#[test]
fn dfa_from_states_unknown_initial() {
    let dfa = DFA::from_states(3, vec![(1, false), (2, true)]);
    assert_eq!(None, dfa.get_current());
}

#[test]
fn dfa_from_transitions_ok() {
    let mut dfa = DFA::from_transitions(
        0,
        vec![(0, false), (1, true)],
        vec![(0, 'a', 1), (1, 'a', 1), (1, 'b', 1)],
    )
    .unwrap();
    assert!(dfa.run(&vec!['a', 'b']));
    assert!(!dfa.run(&vec!['b']));
}

#[test]
fn dfa_from_transitions_aborts_on_first_bad() {
    let err = DFA::from_transitions(
        0,
        vec![(0, false), (1, true)],
        vec![(0, 'a', 1), (0, 'b', 9), (8, 'a', 7)],
    )
    .unwrap_err();
    assert_eq!(AutomatonError::InexistentState(9), err);
}

#[test]
fn dfa_from_map_builds_machine() {
    let mut dfa = DFA::from_map(
        0,
        vec![
            (0, (false, vec![('a', 1)])),
            (1, (true, vec![('a', 1), ('b', 0)])),
        ],
    );
    assert_eq!(Some(&0), dfa.get_current());
    assert!(dfa.run(&vec!['a']));
    assert!(!dfa.run(&vec!['a', 'b']));
    let missing = DFA::from_map(5, vec![(0, (true, vec![]))]);
    assert_eq!(None, missing.get_current());
}

#[test]
fn dfa_add_transition_unknown_next() {
    // an unknown target is rejected and the table is left unchanged
    let mut dfa = DFA::with_state(0, false);
    let err = dfa.add_transition((0, 'z', 99)).unwrap_err();
    assert_eq!(AutomatonError::InexistentState(99), err);
    let record = dfa.get_state(&0).unwrap();
    assert_eq!(0, record.transitions.len());
}

#[test]
fn dfa_add_transition_unknown_prev() {
    let mut dfa = DFA::with_state(0, false);
    dfa.add_state(1, true);
    let err = dfa.add_transition((5, 'a', 1)).unwrap_err();
    assert_eq!(AutomatonError::InexistentState(5), err);
}

#[test]
fn dfa_add_transition_overwrites() {
    // at most one target per (state, symbol): the second call replaces it
    let mut dfa = DFA::with_state(0, false);
    dfa.add_state(1, true);
    dfa.add_transition((0, 'a', 1)).unwrap();
    dfa.add_transition((0, 'a', 0)).unwrap();
    dfa.step(&'a');
    assert_eq!(Some(&0), dfa.get_current());
    assert_eq!(1, dfa.get_state(&0).unwrap().transitions.len());
}

#[test]
fn dfa_get_state_reports_missing() {
    let dfa = DFA::with_state(0, true);
    assert!(dfa.get_state(&0).is_ok());
    let err = dfa.get_state(&4).unwrap_err();
    assert_eq!(AutomatonError::InexistentState(4), err);
}

#[test]
fn dfa_dead_state_absorbs() {
    // stepping an unmatched symbol kills the machine, and it stays dead
    let mut dfa = DFA::with_state(0, true);
    assert!(dfa.accepts());
    dfa.step(&'x');
    assert_eq!(None, dfa.get_current());
    assert!(!dfa.accepts());
    dfa.step(&'x');
    assert_eq!(None, dfa.get_current());
    assert!(!dfa.run(&vec!['x']));
    assert_eq!(None, dfa.get_current(), "A dead probe must stay dead");
}

#[test]
fn dfa_run_restores_current() {
    let mut dfa = DFA::with_state(0, false);
    dfa.add_state(1, true);
    dfa.add_transition((0, 'a', 1)).unwrap();
    assert!(dfa.run(&vec!['a']));
    assert_eq!(Some(&0), dfa.get_current());
    assert!(dfa.run(&vec!['a']), "Probing must be repeatable");
}

#[test]
fn dfa_new_state_is_identity() {
    assert_eq!(42, DFA::new_state(42));
}

#[test]
fn dfa_state_record_fields() {
    let record = automata::dfa::State::new(true, vec![('a', 3)]);
    assert!(record.accepts);
    assert_eq!(vec![('a', 3)], record.transitions);
}
