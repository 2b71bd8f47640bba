use automata::DFA;
use automata::NFA;

#[test]
fn dfa_convert() {
    // construct a new DFA
    let dfa = DFA::from_map(
        0,
        vec![
            (0, (false, vec![('a', 0), ('b', 1)])),
            (1, (true, vec![('a', 1)])),
        ],
    );
    let mut nfa = dfa.into_nfa();
    assert!(nfa.has_state(&0), "Converted NFA is missing state 0");
    assert!(nfa.run(&vec!['a', 'b', 'a']), "Incorrect result after run");
}

#[test]
fn nfa_convert() {
    let nfa = NFA::from_map(
        vec![0, 1],
        vec![
            (0, (true, vec![('a', vec![0, 1]), ('b', vec![])])),
            (1, (false, vec![('a', vec![1]), ('b', vec![0, 1])])),
        ],
    );
    let subset = nfa.subset_id(&vec![0, 1]).unwrap();
    let mut dfa = nfa.into_dfa();
    assert!(
        dfa.has_state(&subset),
        "Converted DFA is missing state {{0, 1}}"
    );
    assert!(dfa.run(&vec!['a', 'b', 'b']), "Incorrect result after run");
}

fn branching_nfa() -> NFA {
    let mut nfa = NFA::with_state(0, false);
    nfa.add_state(1, false);
    nfa.add_state(2, true);
    nfa.add_transition((0, 'a', 1)).unwrap();
    nfa.add_transition((0, 'a', 2)).unwrap();
    nfa.add_transition((1, 'b', 1)).unwrap();
    nfa
}

#[test]
fn determinized_lands_in_subset_state() {
    // running ['a'] accepts, and the machine lands in the state identified
    // by the subset {1, 2}
    let nfa = branching_nfa();
    let pair = nfa.subset_id(&vec![1, 2]).unwrap();
    let mut dfa = nfa.into_dfa();
    assert!(dfa.run(&vec!['a']), "Incorrect result after run");
    dfa.step(&'a');
    assert_eq!(Some(&pair), dfa.get_current());
}

#[test]
fn determinization_preserves_language() {
    // the determinized machine accepts exactly the words the source does
    let words: Vec<Vec<char>> = vec![
        vec![],
        vec!['a'],
        vec!['b'],
        vec!['a', 'a'],
        vec!['a', 'b'],
        vec!['a', 'b', 'b'],
        vec!['b', 'a'],
        vec!['a', 'b', 'a'],
    ];
    let mut dfa = branching_nfa().into_dfa();
    for word in &words {
        let mut nfa = branching_nfa();
        assert_eq!(nfa.run(word), dfa.run(word));
    }
}

#[test]
fn determinize_counts_all_subsets() {
    // eager enumeration: every non-empty subset becomes a state, reachable
    // or not — three declared states give seven subset states
    let nfa = branching_nfa();
    let singles = [
        nfa.subset_id(&vec![0]).unwrap(),
        nfa.subset_id(&vec![1]).unwrap(),
        nfa.subset_id(&vec![2]).unwrap(),
        nfa.subset_id(&vec![0, 1]).unwrap(),
        nfa.subset_id(&vec![0, 2]).unwrap(),
        nfa.subset_id(&vec![1, 2]).unwrap(),
        nfa.subset_id(&vec![0, 1, 2]).unwrap(),
    ];
    let dfa = nfa.into_dfa();
    for id in &singles {
        assert!(dfa.has_state(id));
    }
    assert!(!dfa.has_state(&0), "The empty subset is never a state");
    assert!(!dfa.has_state(&8));
}

#[test]
fn subset_id_is_canonical() {
    // two listings of the same members name the same determinized state
    let nfa = branching_nfa();
    assert_eq!(nfa.subset_id(&vec![2, 1]), nfa.subset_id(&vec![1, 2, 1]));
    assert_eq!(None, nfa.subset_id(&vec![]));
    assert_eq!(None, nfa.subset_id(&vec![1, 7]));
}

#[test]
fn determinize_dead_when_current_invalid() {
    let mut nfa = branching_nfa();
    nfa.set_current(vec![]);
    let dfa = nfa.into_dfa();
    assert_eq!(None, dfa.get_current());
}

#[test]
fn lift_round_trip_preserves_runs() {
    // lifting a deterministic machine and determinizing it back keeps the
    // language on sampled words
    let build = || {
        DFA::from_transitions(
            0,
            vec![(0, false), (1, true)],
            vec![(0, 'a', 1), (1, 'a', 1), (1, 'b', 1)],
        )
        .unwrap()
    };
    let words: Vec<Vec<char>> = vec![
        vec![],
        vec!['a'],
        vec!['b'],
        vec!['a', 'b'],
        vec!['a', 'a', 'b'],
        vec!['b', 'a'],
    ];
    let mut lifted = build().into_nfa();
    for word in &words {
        let mut dfa = build();
        assert_eq!(dfa.run(word), lifted.run(word));
    }
}
