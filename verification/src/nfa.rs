//! The nondeterministic engine: each `(state, symbol)` pair may have any
//! number of successors, and the current configuration is a set of state
//! identifiers — the empty set being the dead configuration. Acceptance is
//! existential over the current set. No epsilon transitions are modeled:
//! stepping consumes explicit symbols only, and callers that need epsilon
//! moves must pre-expand their machines.

use vstd::prelude::*;

use crate::automaton::{bulk_error, lemma_bulk_error_skip, AutomatonError};
use crate::table::{
    contains_u64, copy_ids, find_char, find_u64, has_key, lemma_key_at, lemma_push_row,
    lemma_push_to_set, lemma_take_one_more, lemma_update_row, unique_keys, value_of,
};

verus! {

/// One state record: whether the state accepts, and its outgoing transitions,
/// a set of targets per symbol.
#[derive(Debug)]
pub struct State {
    pub accepts: bool,
    pub transitions: Vec<(char, Vec<u64>)>,
}

/// What a state record means: an accept flag and a partial map from symbols
/// to sets of target identifiers.
pub ghost struct StateModel {
    pub accepts: bool,
    pub targets: Map<char, Set<u64>>,
}

/// The partial map a transition table denotes.
pub open spec fn targets_of(rows: Seq<(char, Vec<u64>)>) -> Map<char, Set<u64>> {
    Map::new(|sym: char| has_key(rows, sym), |sym: char| value_of(rows, sym)@.to_set())
}

impl View for State {
    type V = StateModel;

    open spec fn view(&self) -> StateModel {
        StateModel { accepts: self.accepts, targets: targets_of(self.transitions@) }
    }
}

impl State {
    /// Builds a record from an accept flag and a transition table.
    pub fn new(accepts: bool, transitions: Vec<(char, Vec<u64>)>) -> (r: Self)
        ensures
            r.accepts == accepts,
            r.transitions@ == transitions@,
    {
        Self { accepts, transitions }
    }
}

/// A nondeterministic finite state automaton.
#[derive(Debug)]
pub struct NFA {
    pub current: Vec<u64>,
    pub states: Vec<(u64, State)>,
}

/// What a machine means: its current set of states and a partial map from
/// state identifiers to state records.
pub ghost struct NfaModel {
    pub current: Set<u64>,
    pub states: Map<u64, StateModel>,
}

/// The partial map a state table denotes.
pub open spec fn states_of(rows: Seq<(u64, State)>) -> Map<u64, StateModel> {
    Map::new(|id: u64| has_key(rows, id), |id: u64| value_of(rows, id)@)
}

impl View for NFA {
    type V = NfaModel;

    open spec fn view(&self) -> NfaModel {
        NfaModel { current: self.current@.to_set(), states: states_of(self.states@) }
    }
}

/// The targets that the state `s` contributes on `sym`: its record's entry
/// for `sym`, if the state is declared and the entry exists, else nothing.
pub open spec fn member_targets(m: Map<u64, StateModel>, s: u64, sym: char) -> Set<u64> {
    if m.dom().contains(s) && m[s].targets.dom().contains(sym) {
        m[s].targets[sym]
    } else {
        Set::empty()
    }
}

/// One move: the union, over every member of the current set, of that
/// member's targets for `sym`; missing members and entries contribute
/// nothing, and the empty current set stays empty.
pub open spec fn step_targets(m: Map<u64, StateModel>, cur: Set<u64>, sym: char) -> Set<u64> {
    Set::new(|t: u64| exists|s: u64| cur.contains(s) && member_targets(m, s, sym).contains(t))
}

/// Whether a configuration accepts: some member is a declared accepting
/// state; false for the empty (dead) set.
pub open spec fn accepting(m: Map<u64, StateModel>, cur: Set<u64>) -> bool {
    exists|s: u64| cur.contains(s) && m.dom().contains(s) && m[s].accepts
}

/// The configuration after consuming a whole input sequence.
pub open spec fn run_states(m: Map<u64, StateModel>, cur: Set<u64>, w: Seq<char>) -> Set<u64>
    decreases w.len(),
{
    if w.len() == 0 {
        cur
    } else {
        run_states(m, step_targets(m, cur, w[0]), w.subrange(1, w.len() as int))
    }
}

/// Whether every identifier of `ids` names a declared state of `m`.
pub open spec fn all_known(m: Map<u64, StateModel>, ids: Seq<u64>) -> bool {
    forall|j: int| 0 <= j < ids.len() ==> m.dom().contains(#[trigger] ids[j])
}

/// The state table declared by a list of `(id, accept)` pairs, a later pair
/// overriding an earlier one with the same identifier.
pub open spec fn states_from(pairs: Seq<(u64, bool)>) -> Map<u64, StateModel>
    decreases pairs.len(),
{
    if pairs.len() == 0 {
        Map::empty()
    } else {
        states_from(pairs.drop_last()).insert(
            pairs.last().0,
            (StateModel { accepts: pairs.last().1, targets: Map::empty() }),
        )
    }
}

/// The state table after recording a list of transitions in order, each one
/// growing the target set of its `(state, symbol)` pair by union.
pub open spec fn apply_transitions(
    m: Map<u64, StateModel>,
    ts: Seq<(u64, char, u64)>,
) -> Map<u64, StateModel>
    decreases ts.len(),
{
    if ts.len() == 0 {
        m
    } else {
        let prev = apply_transitions(m, ts.drop_last());
        let t = ts.last();
        prev.insert(
            t.0,
            (StateModel {
                accepts: prev[t.0].accepts,
                targets: prev[t.0].targets.insert(
                    t.1,
                    member_targets(prev, t.0, t.1).insert(t.2),
                ),
            }),
        )
    }
}

/// The state table denoted by bulk `(id, (accepts, transitions))` entries.
pub open spec fn map_of_entries(entries: Seq<(u64, (bool, Vec<(char, Vec<u64>)>))>) -> Map<
    u64,
    StateModel,
> {
    Map::new(
        |id: u64| has_key(entries, id),
        |id: u64|
            (StateModel {
                accepts: value_of(entries, id).0,
                targets: targets_of(value_of(entries, id).1@),
            }),
    )
}

/// Dead-state absorption: from the empty configuration every symbol, and
/// hence every input sequence, leaves the machine empty, and nothing is
/// accepted.
pub proof fn lemma_dead_absorbs(m: Map<u64, StateModel>, w: Seq<char>)
    ensures
        forall|sym: char| step_targets(m, Set::<u64>::empty(), sym) == Set::<u64>::empty(),
        run_states(m, Set::<u64>::empty(), w) == Set::<u64>::empty(),
        !accepting(m, Set::<u64>::empty()),
    decreases w.len(),
{
    assert forall|sym: char|
        step_targets(m, Set::<u64>::empty(), sym) == Set::<u64>::empty() by {
        assert(step_targets(m, Set::<u64>::empty(), sym) =~= Set::<u64>::empty());
    }
    if w.len() > 0 {
        lemma_dead_absorbs(m, w.subrange(1, w.len() as int));
    }
}

/// Behavior depends on the model alone: two machines denoting the same
/// state table and configuration — as a persisted machine and a faithful
/// reload of it do — accept exactly the same input sequences.
pub proof fn lemma_equal_models_run_alike(a: NFA, b: NFA, w: Seq<char>)
    requires
        a@.states == b@.states,
        a@.current == b@.current,
    ensures
        accepting(a@.states, run_states(a@.states, a@.current, w)) == accepting(
            b@.states,
            run_states(b@.states, b@.current, w),
        ),
{
}

/// Adding one member to the current set adds exactly that member's targets
/// to the outcome of a step.
proof fn lemma_step_insert(m: Map<u64, StateModel>, cur: Set<u64>, s: u64, sym: char)
    ensures
        step_targets(m, cur.insert(s), sym) == step_targets(m, cur, sym).union(
            member_targets(m, s, sym),
        ),
{
    let lhs = step_targets(m, cur.insert(s), sym);
    let rhs = step_targets(m, cur, sym).union(member_targets(m, s, sym));
    assert forall|t: u64| lhs.contains(t) implies rhs.contains(t) by {
        let s0 = choose|s0: u64| cur.insert(s).contains(s0) && member_targets(m, s0, sym).contains(
            t,
        );
        if s0 != s {
            assert(cur.contains(s0));
            assert(step_targets(m, cur, sym).contains(t));
        }
    }
    assert forall|t: u64| rhs.contains(t) implies lhs.contains(t) by {
        if step_targets(m, cur, sym).contains(t) {
            let s0 = choose|s0: u64| cur.contains(s0) && member_targets(m, s0, sym).contains(t);
            assert(cur.insert(s).contains(s0) && member_targets(m, s0, sym).contains(t));
        } else {
            assert(cur.insert(s).contains(s) && member_targets(m, s, sym).contains(t));
        }
    }
    assert(lhs =~= rhs);
}

/// Consuming one more symbol at the end of a run is one more step.
proof fn lemma_run_states_snoc(m: Map<u64, StateModel>, cur: Set<u64>, w: Seq<char>, sym: char)
    ensures
        run_states(m, cur, w.push(sym)) == step_targets(m, run_states(m, cur, w), sym),
    decreases w.len(),
{
    if w.len() == 0 {
        assert(w.push(sym)[0] == sym);
        assert(w.push(sym).subrange(1, w.push(sym).len() as int) =~= Seq::<char>::empty());
        assert(run_states(m, cur, w.push(sym)) == run_states(
            m,
            step_targets(m, cur, sym),
            Seq::<char>::empty(),
        ));
    } else {
        assert(w.push(sym)[0] == w[0]);
        assert(w.push(sym).subrange(1, w.push(sym).len() as int) =~= w.subrange(
            1,
            w.len() as int,
        ).push(sym));
        assert(run_states(m, cur, w.push(sym)) == run_states(
            m,
            step_targets(m, cur, w[0]),
            w.subrange(1, w.len() as int).push(sym),
        ));
        lemma_run_states_snoc(m, step_targets(m, cur, w[0]), w.subrange(1, w.len() as int), sym);
        assert(run_states(m, cur, w) == run_states(
            m,
            step_targets(m, cur, w[0]),
            w.subrange(1, w.len() as int),
        ));
    }
}

impl NFA {
    /// The representation invariant: state identifiers are unique, and so are
    /// the symbols within each record's transition table.
    pub open spec fn wf(self) -> bool {
        &&& unique_keys(self.states@)
        &&& forall|i: int|
            0 <= i < self.states@.len() ==> unique_keys(#[trigger] self.states@[i].1.transitions@)
    }

    /// Creates a new empty automaton: no states, dead current.
    pub fn new() -> (r: Self)
        ensures
            r.wf(),
            r@.current == Set::<u64>::empty(),
            r@.states == Map::<u64, StateModel>::empty(),
            r.current@.len() == 0,
    {
        let r = NFA { current: Vec::new(), states: Vec::new() };
        proof {
            assert(r@.states =~= Map::<u64, StateModel>::empty());
            assert(r@.current =~= Set::<u64>::empty());
        }
        r
    }

    /// Creates an automaton with the single state `id`, current set to it.
    pub fn with_state(id: u64, accept: bool) -> (r: Self)
        ensures
            r.wf(),
            r@.states == Map::<u64, StateModel>::empty().insert(
                id,
                (StateModel { accepts: accept, targets: Map::empty() }),
            ),
            r.current@.len() == 1 && r.current@[0] == id,
            r@.current == Set::<u64>::empty().insert(id),
    {
        let mut a = Self::new();
        a.add_state(id, accept);
        a.set_current(Self::new_state(id));
        proof {
            assert(a@.current =~= Set::<u64>::empty().insert(id));
        }
        a
    }

    /// Normalizes a bare identifier into this engine's current-state shape:
    /// the set holding just that identifier.
    pub fn new_state(id: u64) -> (r: Vec<u64>)
        ensures
            r@.len() == 1,
            r@[0] == id,
    {
        let mut v: Vec<u64> = Vec::new();
        v.push(id);
        v
    }

    /// Creates an automaton from `(id, accept)` pairs, current set to
    /// `initial` if every identifier in it was declared, and dead otherwise.
    pub fn from_states(initial: Vec<u64>, states: Vec<(u64, bool)>) -> (r: Self)
        ensures
            r.wf(),
            r@.states == states_from(states@),
            r.current@ == if all_known(states_from(states@), initial@) {
                initial@
            } else {
                Seq::<u64>::empty()
            },
    {
        let mut a = Self::new();
        proof {
            assert(states@.take(0) =~= Seq::<(u64, bool)>::empty());
        }
        let mut i: usize = 0;
        while i < states.len()
            invariant
                a.wf(),
                i <= states@.len(),
                a@.states == states_from(states@.take(i as int)),
            decreases states@.len() - i,
        {
            let (id, accept) = states[i];
            a.add_state(id, accept);
            proof {
                assert(states@.take(i as int + 1).drop_last() =~= states@.take(i as int));
                assert(states@.take(i as int + 1).last() == states@[i as int]);
            }
            i = i + 1;
        }
        proof {
            assert(states@.take(states@.len() as int) =~= states@);
        }
        a.set_current(initial);
        a
    }

    /// Creates an automaton from `(id, accept)` pairs and a transition list,
    /// recording each transition in order and aborting on the first whose
    /// states are unknown; the error names the missing state, `next` before
    /// `prev`.
    pub fn from_transitions(
        initial: Vec<u64>,
        states: Vec<(u64, bool)>,
        transitions: Vec<(u64, char, u64)>,
    ) -> (r: Result<Self, AutomatonError>)
        ensures
            match r {
                Ok(a) => {
                    &&& bulk_error(states_from(states@), transitions@) is None
                    &&& a.wf()
                    &&& a@.states == apply_transitions(states_from(states@), transitions@)
                    &&& a.current@ == if all_known(states_from(states@), initial@) {
                        initial@
                    } else {
                        Seq::<u64>::empty()
                    }
                },
                Err(e) => bulk_error(states_from(states@), transitions@) == Some(e),
            },
    {
        let ghost m0 = states_from(states@);
        let mut a = Self::from_states(initial, states);
        let ghost cur0 = a.current@;
        proof {
            assert(transitions@.take(0) =~= Seq::<(u64, char, u64)>::empty());
        }
        let mut k: usize = 0;
        while k < transitions.len()
            invariant
                a.wf(),
                k <= transitions@.len(),
                m0 == states_from(states@),
                a.current@ == cur0,
                a@.states == apply_transitions(m0, transitions@.take(k as int)),
                a@.states.dom() == m0.dom(),
                forall|j: int| 0 <= j < k ==> m0.dom().contains(#[trigger] transitions@[j].0),
                forall|j: int| 0 <= j < k ==> m0.dom().contains(#[trigger] transitions@[j].2),
            decreases transitions@.len() - k,
        {
            let t = transitions[k];
            match a.add_transition(t) {
                Ok(_) => {
                    proof {
                        assert(m0.dom().contains(transitions@[k as int].0));
                        assert(m0.dom().contains(transitions@[k as int].2));
                        assert(transitions@.take(k as int + 1).drop_last() =~= transitions@.take(
                            k as int,
                        ));
                        assert(transitions@.take(k as int + 1).last() == transitions@[k as int]);
                        assert(a@.states.dom() =~= m0.dom());
                    }
                }
                Err(e) => {
                    proof {
                        lemma_bulk_error_skip(m0, transitions@, k as int);
                        let suffix = transitions@.subrange(k as int, transitions@.len() as int);
                        assert(suffix.len() > 0);
                        assert(suffix[0] == transitions@[k as int]);
                        if !m0.dom().contains(t.2) {
                            assert(e == AutomatonError::InexistentState(t.2));
                            assert(bulk_error(m0, suffix) == Some(
                                AutomatonError::InexistentState(t.2),
                            ));
                        } else {
                            assert(!m0.dom().contains(t.0));
                            assert(e == AutomatonError::InexistentState(t.0));
                            assert(bulk_error(m0, suffix) == Some(
                                AutomatonError::InexistentState(t.0),
                            ));
                        }
                        assert(bulk_error(m0, transitions@) == Some(e));
                    }
                    return Err(e);
                }
            }
            k = k + 1;
        }
        proof {
            assert(transitions@.take(transitions@.len() as int) =~= transitions@);
            lemma_bulk_error_skip(m0, transitions@, transitions@.len() as int);
        }
        Ok(a)
    }

    /// Creates an automaton from bulk `(id, (accepts, transitions))` entries;
    /// the current set is taken as given, unchecked — both `step` and
    /// `accepts` read an undeclared member as contributing nothing.
    pub fn from_map(initial: Vec<u64>, states: Vec<(u64, (bool, Vec<(char, Vec<u64>)>))>) -> (r:
        Self)
        requires
            unique_keys(states@),
            forall|i: int| 0 <= i < states@.len() ==> unique_keys(#[trigger] states@[i].1.1@),
        ensures
            r.wf(),
            r@.states == map_of_entries(states@),
            r.current@ == initial@,
    {
        let ghost entries = states@;
        let mut src = states;
        let mut rows: Vec<(u64, State)> = Vec::new();
        while src.len() > 0
            invariant
                rows@.len() + src@.len() == entries.len(),
                src@ == entries.subrange(rows@.len() as int, entries.len() as int),
                forall|i: int|
                    0 <= i < rows@.len() ==> (#[trigger] rows@[i]).0 == entries[i].0
                        && rows@[i].1.accepts == entries[i].1.0 && rows@[i].1.transitions@
                        == entries[i].1.1@,
            decreases src@.len(),
        {
            let ghost done = rows@.len() as int;
            let (id, payload) = src.remove(0);
            let (accepts, transitions) = payload;
            rows.push((id, State { accepts, transitions }));
            proof {
                assert(entries.subrange(done, entries.len() as int).remove(0) =~= entries.subrange(
                    done + 1,
                    entries.len() as int,
                ));
            }
        }
        proof {
            assert(unique_keys(rows@));
        }
        let r = NFA { current: initial, states: rows };
        proof {
            assert forall|k: u64| #[trigger] has_key(r.states@, k) == has_key(entries, k) by {
                if has_key(r.states@, k) {
                    let i = choose|i: int| 0 <= i < r.states@.len() && r.states@[i].0 == k;
                    assert(entries[i].0 == k);
                }
                if has_key(entries, k) {
                    let i = choose|i: int| 0 <= i < entries.len() && entries[i].0 == k;
                    assert(r.states@[i].0 == k);
                }
            }
            assert forall|k: u64| has_key(entries, k) implies #[trigger] value_of(r.states@, k)@
                == map_of_entries(entries)[k] by {
                let i = choose|i: int| 0 <= i < entries.len() && entries[i].0 == k;
                lemma_key_at(entries, i);
                lemma_key_at(r.states@, i);
                assert(targets_of(r.states@[i].1.transitions@) =~= targets_of(entries[i].1.1@));
            }
            assert(r@.states =~~= map_of_entries(entries));
        }
        r
    }

    /// Returns a reference to the record of `id`, or reports the identifier
    /// as inexistent.
    pub fn get_state(&self, id: &u64) -> (r: Result<&State, AutomatonError>)
        requires
            self.wf(),
        ensures
            match r {
                Ok(s) => self@.states.dom().contains(*id) && s@ == self@.states[*id],
                Err(e) => !self@.states.dom().contains(*id) && e == AutomatonError::InexistentState(
                    *id,
                ),
            },
    {
        match find_u64(&self.states, *id) {
            Some(i) => {
                proof {
                    lemma_key_at(self.states@, i as int);
                }
                Ok(&self.states[i].1)
            }
            None => Err(AutomatonError::InexistentState(*id)),
        }
    }

    /// Checks whether the automaton declares the state `id`.
    pub fn has_state(&self, id: &u64) -> (r: bool)
        ensures
            r == self@.states.dom().contains(*id),
    {
        find_u64(&self.states, *id).is_some()
    }

    /// Inserts or overwrites the record for `id`, with an empty transition
    /// table and the given accept flag. The current configuration is kept.
    pub fn add_state(&mut self, id: u64, accept: bool)
        requires
            old(self).wf(),
        ensures
            final(self).wf(),
            final(self).current@ == old(self).current@,
            final(self)@.states == old(self)@.states.insert(
                id,
                (StateModel { accepts: accept, targets: Map::empty() }),
            ),
            final(self).states@.len() == if old(self)@.states.dom().contains(id) {
                old(self).states@.len() as int
            } else {
                old(self).states@.len() + 1int
            },
    {
        let record = State { accepts: accept, transitions: Vec::new() };
        let ghost rows0 = self.states@;
        match find_u64(&self.states, id) {
            Some(i) => {
                proof {
                    lemma_key_at(rows0, i as int);
                    lemma_update_row(rows0, i as int, record);
                }
                self.states.set(i, (id, record));
            }
            None => {
                proof {
                    lemma_push_row(rows0, id, record);
                }
                self.states.push((id, record));
            }
        }
        proof {
            assert(targets_of(Seq::<(char, Vec<u64>)>::empty()) =~= Map::<char, Set<u64>>::empty());
            assert(self@.states =~~= old(self)@.states.insert(
                id,
                (StateModel { accepts: accept, targets: Map::empty() }),
            ));
        }
    }

    /// Records the transition `(prev, symbol, next)`: fails with
    /// `InexistentState(next)` if `next` is unknown, otherwise with
    /// `InexistentState(prev)` if `prev` is unknown; otherwise grows the
    /// target set for `(prev, symbol)` by `next` — earlier targets are kept.
    pub fn add_transition(&mut self, transition: (u64, char, u64)) -> (r: Result<
        (),
        AutomatonError,
    >)
        requires
            old(self).wf(),
        ensures
            final(self).wf(),
            final(self).current@ == old(self).current@,
            !old(self)@.states.dom().contains(transition.2) ==> r == Err::<(), AutomatonError>(
                AutomatonError::InexistentState(transition.2),
            ) && final(self).states@ == old(self).states@,
            old(self)@.states.dom().contains(transition.2) && !old(self)@.states.dom().contains(
                transition.0,
            ) ==> r == Err::<(), AutomatonError>(AutomatonError::InexistentState(transition.0))
                && final(self).states@ == old(self).states@,
            old(self)@.states.dom().contains(transition.2) && old(self)@.states.dom().contains(
                transition.0,
            ) ==> r == Ok::<(), AutomatonError>(()) && final(self)@.states
                == old(self)@.states.insert(
                transition.0,
                (StateModel {
                    accepts: old(self)@.states[transition.0].accepts,
                    targets: old(self)@.states[transition.0].targets.insert(
                        transition.1,
                        member_targets(old(self)@.states, transition.0, transition.1).insert(
                            transition.2,
                        ),
                    ),
                }),
            ),
    {
        let (prev, input, next) = transition;
        if find_u64(&self.states, next).is_none() {
            return Err(AutomatonError::InexistentState(next));
        }
        let i = match find_u64(&self.states, prev) {
            None => {
                return Err(AutomatonError::InexistentState(prev));
            }
            Some(i) => i,
        };
        let ghost rows0 = self.states@;
        proof {
            lemma_key_at(rows0, i as int);
        }
        let mut row = self.states.remove(i);
        let ghost tr0 = row.1.transitions@;
        match find_char(&row.1.transitions, input) {
            Some(j) => {
                proof {
                    lemma_key_at(tr0, j as int);
                }
                let mut entry = row.1.transitions.remove(j);
                let ghost ts0 = entry.1@;
                if !contains_u64(&entry.1, next) {
                    entry.1.push(next);
                    proof {
                        lemma_push_to_set(ts0, next);
                    }
                }
                proof {
                    assert(entry.1@.to_set() =~= ts0.to_set().insert(next));
                }
                row.1.transitions.insert(j, entry);
                proof {
                    assert(row.1.transitions@ =~= tr0.update(
                        j as int,
                        row.1.transitions@[j as int],
                    ));
                    assert(row.1.transitions@[j as int].0 == input);
                    lemma_update_row(tr0, j as int, row.1.transitions@[j as int].1);
                    assert(member_targets(states_of(rows0), prev, input) == ts0.to_set());
                    assert(targets_of(row.1.transitions@) =~= targets_of(tr0).insert(
                        input,
                        ts0.to_set().insert(next),
                    ));
                }
            }
            None => {
                let single = Self::new_state(next);
                proof {
                    lemma_push_row(tr0, input, single);
                }
                row.1.transitions.push((input, single));
                proof {
                    assert(member_targets(states_of(rows0), prev, input) =~= Set::<u64>::empty());
                    assert(row.1.transitions@.last().1@.to_set() =~= Set::<u64>::empty().insert(
                        next,
                    ));
                    assert(targets_of(row.1.transitions@) =~= targets_of(tr0).insert(
                        input,
                        Set::<u64>::empty().insert(next),
                    ));
                }
            }
        }
        self.states.insert(i, row);
        proof {
            assert(self.states@ =~= rows0.update(i as int, self.states@[i as int]));
            assert(self.states@[i as int].0 == prev);
            lemma_update_row(rows0, i as int, self.states@[i as int].1);
            assert forall|k: int|
                0 <= k < self.states@.len() implies unique_keys(
                #[trigger] self.states@[k].1.transitions@,
            ) by {
                if k != i {
                    assert(self.states@[k] == rows0[k]);
                }
            }
            assert(self@.states =~~= old(self)@.states.insert(
                prev,
                (StateModel {
                    accepts: old(self)@.states[prev].accepts,
                    targets: old(self)@.states[prev].targets.insert(
                        input,
                        member_targets(old(self)@.states, prev, input).insert(next),
                    ),
                }),
            ));
        }
        Ok(())
    }

    /// Moves the current set to `state` if every identifier in it is a
    /// declared state, and to the dead (empty) configuration otherwise.
    pub fn set_current(&mut self, state: Vec<u64>)
        ensures
            final(self).states@ == old(self).states@,
            final(self).current@ == if all_known(old(self)@.states, state@) {
                state@
            } else {
                Seq::<u64>::empty()
            },
    {
        let ghost rows0 = self.states@;
        let ghost m0 = self@.states;
        let mut ok = true;
        let mut i: usize = 0;
        while i < state.len()
            invariant
                self.states@ == rows0,
                m0 == states_of(rows0),
                i <= state@.len(),
                ok == (forall|j: int| 0 <= j < i ==> m0.dom().contains(#[trigger] state@[j])),
            decreases state@.len() - i,
        {
            if find_u64(&self.states, state[i]).is_none() {
                ok = false;
            }
            i = i + 1;
        }
        if ok {
            self.current = state;
        } else {
            self.current = Vec::new();
        }
    }

    /// Returns the current set of states, or nothing if the configuration is
    /// dead (empty).
    pub fn get_current(&self) -> (r: Option<&Vec<u64>>)
        ensures
            match r {
                Some(v) => self.current@.len() > 0 && v@ == self.current@,
                None => self.current@.len() == 0,
            },
    {
        if self.current.len() > 0 {
            Some(&self.current)
        } else {
            None
        }
    }

    /// Whether the current configuration accepts: true if any member of the
    /// current set is a declared accepting state.
    pub fn accepts(&self) -> (r: bool)
        requires
            self.wf(),
        ensures
            r == accepting(self@.states, self@.current),
    {
        let ghost rows0 = self.states@;
        let ghost m0 = self@.states;
        let ghost cur0 = self.current@;
        let mut i: usize = 0;
        while i < self.current.len()
            invariant
                self.wf(),
                self.states@ == rows0,
                self.current@ == cur0,
                m0 == states_of(rows0),
                i <= cur0.len(),
                forall|j: int|
                    0 <= j < i ==> !(m0.dom().contains(#[trigger] cur0[j]) && m0[cur0[j]].accepts),
            decreases cur0.len() - i,
        {
            let s = self.current[i];
            match find_u64(&self.states, s) {
                Some(si) => {
                    proof {
                        lemma_key_at(rows0, si as int);
                    }
                    if self.states[si].1.accepts {
                        proof {
                            assert(cur0.to_set().contains(s));
                            assert(accepting(m0, cur0.to_set()));
                        }
                        return true;
                    }
                }
                None => {}
            }
            i = i + 1;
        }
        proof {
            assert forall|s: u64| cur0.to_set().contains(s) implies !(m0.dom().contains(s)
                && m0[s].accepts) by {
                let j = choose|j: int| 0 <= j < cur0.len() && cur0[j] == s;
                assert(!(m0.dom().contains(cur0[j]) && m0[cur0[j]].accepts));
            }
            assert(!accepting(m0, cur0.to_set()));
        }
        false
    }

    /// Advances the current set by one symbol: its new value is the union of
    /// every current member's targets for the symbol; never errors — an
    /// undeclared member or an unmatched symbol contributes nothing.
    pub fn step(&mut self, input: &char)
        requires
            old(self).wf(),
        ensures
            final(self).wf(),
            final(self).states@ == old(self).states@,
            final(self)@.current == step_targets(old(self)@.states, old(self)@.current, *input),
    {
        let ghost rows0 = self.states@;
        let ghost m0 = self@.states;
        let ghost cur0 = self.current@;
        let mut new: Vec<u64> = Vec::new();
        proof {
            assert(cur0.take(0) =~= Seq::<u64>::empty());
            assert(cur0.take(0).to_set() =~= Set::<u64>::empty());
            assert(step_targets(m0, Set::<u64>::empty(), *input) =~= Set::<u64>::empty());
            assert(new@.to_set() =~= Set::<u64>::empty());
        }
        let mut i: usize = 0;
        while i < self.current.len()
            invariant
                self.wf(),
                self.states@ == rows0,
                self.current@ == cur0,
                m0 == states_of(rows0),
                i <= cur0.len(),
                new@.to_set() == step_targets(m0, cur0.take(i as int).to_set(), *input),
            decreases cur0.len() - i,
        {
            let s = self.current[i];
            let ghost base = new@.to_set();
            match find_u64(&self.states, s) {
                None => {
                    proof {
                        assert(member_targets(m0, s, *input) =~= Set::<u64>::empty());
                    }
                }
                Some(si) => {
                    proof {
                        lemma_key_at(rows0, si as int);
                    }
                    match find_char(&self.states[si].1.transitions, *input) {
                        None => {
                            proof {
                                assert(member_targets(m0, s, *input) =~= Set::<u64>::empty());
                            }
                        }
                        Some(j) => {
                            proof {
                                lemma_key_at(rows0[si as int].1.transitions@, j as int);
                            }
                            let ghost ts = rows0[si as int].1.transitions@[j as int].1@;
                            proof {
                                assert(member_targets(m0, s, *input) == ts.to_set());
                                assert(ts.take(0) =~= Seq::<u64>::empty());
                                assert(base.union(ts.take(0).to_set()) =~= base);
                            }
                            let n_targets = self.states[si].1.transitions[j].1.len();
                            let mut k: usize = 0;
                            while k < n_targets
                                invariant
                                    self.wf(),
                                    self.states@ == rows0,
                                    self.current@ == cur0,
                                    si < rows0.len(),
                                    j < rows0[si as int].1.transitions@.len(),
                                    ts == rows0[si as int].1.transitions@[j as int].1@,
                                    n_targets == ts.len(),
                                    k <= n_targets,
                                    new@.to_set() == base.union(ts.take(k as int).to_set()),
                                decreases n_targets - k,
                            {
                                let t = self.states[si].1.transitions[j].1[k];
                                if !contains_u64(&new, t) {
                                    let ghost new0 = new@;
                                    new.push(t);
                                    proof {
                                        lemma_push_to_set(new0, t);
                                    }
                                }
                                proof {
                                    lemma_take_one_more(ts, k as int);
                                    assert(new@.to_set() =~= base.union(
                                        ts.take(k as int + 1).to_set(),
                                    ));
                                }
                                k = k + 1;
                            }
                            proof {
                                assert(ts.take(ts.len() as int) =~= ts);
                            }
                        }
                    }
                }
            }
            proof {
                lemma_take_one_more(cur0, i as int);
                lemma_step_insert(m0, cur0.take(i as int).to_set(), s, *input);
                assert(new@.to_set() =~= step_targets(
                    m0,
                    cur0.take(i as int + 1).to_set(),
                    *input,
                ));
            }
            i = i + 1;
        }
        proof {
            assert(cur0.take(cur0.len() as int) =~= cur0);
        }
        self.current = new;
    }

    /// Runs the automaton over `inputs` and reports whether it ends in an
    /// accepting configuration, restoring the current set it started from; a
    /// machine whose current set is already empty reads as rejecting.
    pub fn run(&mut self, inputs: &Vec<char>) -> (r: bool)
        requires
            old(self).wf(),
        ensures
            final(self).wf(),
            final(self).states@ == old(self).states@,
            final(self).current@ == old(self).current@,
            r == accepting(
                old(self)@.states,
                run_states(old(self)@.states, old(self)@.current, inputs@),
            ),
    {
        if self.current.len() == 0 {
            proof {
                assert(self@.current =~= Set::<u64>::empty());
                lemma_dead_absorbs(self@.states, inputs@);
            }
            return false;
        }
        let saved = copy_ids(&self.current);
        let ghost rows0 = self.states@;
        let ghost m0 = self@.states;
        let ghost c0 = self@.current;
        proof {
            assert(inputs@.take(0) =~= Seq::<char>::empty());
        }
        let mut i: usize = 0;
        while i < inputs.len()
            invariant
                self.wf(),
                i <= inputs@.len(),
                self.states@ == rows0,
                m0 == states_of(rows0),
                self@.current == run_states(m0, c0, inputs@.take(i as int)),
            decreases inputs@.len() - i,
        {
            self.step(&inputs[i]);
            proof {
                assert(inputs@.take(i as int + 1) =~= inputs@.take(i as int).push(
                    inputs@[i as int],
                ));
                lemma_run_states_snoc(m0, c0, inputs@.take(i as int), inputs@[i as int]);
            }
            i = i + 1;
        }
        proof {
            assert(inputs@.take(inputs@.len() as int) =~= inputs@);
        }
        let result = self.accepts();
        self.current = saved;
        result
    }
}

} // verus!
