//! The deterministic engine: each `(state, symbol)` pair has at most one
//! successor. The machine is a table of state records keyed by `u64`
//! identifiers; the current configuration is a single identifier, or nothing
//! at all — the dead configuration, which every further symbol preserves.

use vstd::prelude::*;

use crate::automaton::{bulk_error, lemma_bulk_error_skip, AutomatonError};
use crate::table::{
    find_char, find_u64, has_key, lemma_key_at, lemma_push_row, lemma_update_row, unique_keys,
    value_of,
};

verus! {

/// One state record: whether the state accepts, and its outgoing transitions,
/// one target per symbol.
#[derive(Debug)]
pub struct State {
    pub accepts: bool,
    pub transitions: Vec<(char, u64)>,
}

/// What a state record means: an accept flag and a partial map from symbols
/// to target identifiers.
pub ghost struct StateModel {
    pub accepts: bool,
    pub targets: Map<char, u64>,
}

/// The partial map a transition table denotes.
pub open spec fn targets_of(rows: Seq<(char, u64)>) -> Map<char, u64> {
    Map::new(|sym: char| has_key(rows, sym), |sym: char| value_of(rows, sym))
}

impl View for State {
    type V = StateModel;

    open spec fn view(&self) -> StateModel {
        StateModel { accepts: self.accepts, targets: targets_of(self.transitions@) }
    }
}

impl State {
    /// Builds a record from an accept flag and a transition table.
    pub fn new(accepts: bool, transitions: Vec<(char, u64)>) -> (r: Self)
        ensures
            r.accepts == accepts,
            r.transitions@ == transitions@,
    {
        Self { accepts, transitions }
    }
}

/// A deterministic finite state automaton.
#[derive(Debug)]
pub struct DFA {
    pub current: Option<u64>,
    pub states: Vec<(u64, State)>,
}

/// What a machine means: its current configuration and a partial map from
/// state identifiers to state records.
pub ghost struct DfaModel {
    pub current: Option<u64>,
    pub states: Map<u64, StateModel>,
}

/// The partial map a state table denotes.
pub open spec fn states_of(rows: Seq<(u64, State)>) -> Map<u64, StateModel> {
    Map::new(|id: u64| has_key(rows, id), |id: u64| value_of(rows, id)@)
}

impl View for DFA {
    type V = DfaModel;

    open spec fn view(&self) -> DfaModel {
        DfaModel { current: self.current, states: states_of(self.states@) }
    }
}

/// One move: from a live current state, follow its entry for `sym`, but only
/// onto a target the table still declares; a missing entry or a missing
/// target yields the dead configuration, and the dead configuration is kept.
pub open spec fn step_of(m: Map<u64, StateModel>, cur: Option<u64>, sym: char) -> Option<u64> {
    match cur {
        None => None,
        Some(c) => if m.dom().contains(c) && m[c].targets.dom().contains(sym) && m.dom().contains(
            m[c].targets[sym],
        ) {
            Some(m[c].targets[sym])
        } else {
            None
        },
    }
}

/// Whether a configuration accepts: it is live and its record accepts.
pub open spec fn accepting(m: Map<u64, StateModel>, cur: Option<u64>) -> bool {
    match cur {
        Some(c) => m.dom().contains(c) && m[c].accepts,
        None => false,
    }
}

/// The configuration after consuming a whole input sequence.
pub open spec fn run_state(m: Map<u64, StateModel>, cur: Option<u64>, w: Seq<char>) -> Option<u64>
    decreases w.len(),
{
    if w.len() == 0 {
        cur
    } else {
        run_state(m, step_of(m, cur, w[0]), w.subrange(1, w.len() as int))
    }
}

/// The state table declared by a list of `(id, accept)` pairs, a later pair
/// overriding an earlier one with the same identifier.
pub open spec fn states_from(pairs: Seq<(u64, bool)>) -> Map<u64, StateModel>
    decreases pairs.len(),
{
    if pairs.len() == 0 {
        Map::empty()
    } else {
        states_from(pairs.drop_last()).insert(
            pairs.last().0,
            (StateModel { accepts: pairs.last().1, targets: Map::empty() }),
        )
    }
}

/// The state table after recording a list of transitions in order, each one
/// overwriting any prior target for its `(state, symbol)` pair.
pub open spec fn apply_transitions(
    m: Map<u64, StateModel>,
    ts: Seq<(u64, char, u64)>,
) -> Map<u64, StateModel>
    decreases ts.len(),
{
    if ts.len() == 0 {
        m
    } else {
        let prev = apply_transitions(m, ts.drop_last());
        let t = ts.last();
        prev.insert(
            t.0,
            (StateModel { accepts: prev[t.0].accepts, targets: prev[t.0].targets.insert(t.1, t.2) }),
        )
    }
}

/// The state table denoted by bulk `(id, (accepts, transitions))` entries.
pub open spec fn map_of_entries(entries: Seq<(u64, (bool, Vec<(char, u64)>))>) -> Map<
    u64,
    StateModel,
> {
    Map::new(
        |id: u64| has_key(entries, id),
        |id: u64|
            (StateModel {
                accepts: value_of(entries, id).0,
                targets: targets_of(value_of(entries, id).1@),
            }),
    )
}

/// Dead-state absorption: from the dead configuration every symbol, and hence
/// every input sequence, leaves the machine dead, and nothing is accepted.
pub proof fn lemma_dead_absorbs(m: Map<u64, StateModel>, w: Seq<char>)
    ensures
        forall|sym: char| step_of(m, None, sym) is None,
        run_state(m, None, w) is None,
        !accepting(m, None),
    decreases w.len(),
{
    if w.len() > 0 {
        lemma_dead_absorbs(m, w.subrange(1, w.len() as int));
    }
}

/// Determinism: over one state table, one configuration and one symbol there
/// is exactly one successor configuration — stepping twice from the same
/// `(state, symbol)` always yields the same result.
pub proof fn lemma_step_deterministic(a: DFA, b: DFA, sym: char)
    requires
        a@.states == b@.states,
        a@.current == b@.current,
    ensures
        step_of(a@.states, a@.current, sym) == step_of(b@.states, b@.current, sym),
{
}

/// Behavior depends on the model alone: two machines denoting the same
/// state table and configuration — as a persisted machine and a faithful
/// reload of it do — accept exactly the same input sequences.
pub proof fn lemma_equal_models_run_alike(a: DFA, b: DFA, w: Seq<char>)
    requires
        a@.states == b@.states,
        a@.current == b@.current,
    ensures
        accepting(a@.states, run_state(a@.states, a@.current, w)) == accepting(
            b@.states,
            run_state(b@.states, b@.current, w),
        ),
{
}

/// Consuming one more symbol at the end of a run is one more step.
proof fn lemma_run_state_snoc(m: Map<u64, StateModel>, cur: Option<u64>, w: Seq<char>, sym: char)
    ensures
        run_state(m, cur, w.push(sym)) == step_of(m, run_state(m, cur, w), sym),
    decreases w.len(),
{
    if w.len() == 0 {
        assert(w.push(sym)[0] == sym);
        assert(w.push(sym).subrange(1, w.push(sym).len() as int) =~= Seq::<char>::empty());
        assert(run_state(m, cur, w.push(sym)) == run_state(
            m,
            step_of(m, cur, sym),
            Seq::<char>::empty(),
        ));
        assert(run_state(m, step_of(m, cur, sym), Seq::<char>::empty()) == step_of(m, cur, sym));
    } else {
        assert(w.push(sym)[0] == w[0]);
        assert(w.push(sym).subrange(1, w.push(sym).len() as int) =~= w.subrange(
            1,
            w.len() as int,
        ).push(sym));
        assert(run_state(m, cur, w.push(sym)) == run_state(
            m,
            step_of(m, cur, w[0]),
            w.subrange(1, w.len() as int).push(sym),
        ));
        lemma_run_state_snoc(m, step_of(m, cur, w[0]), w.subrange(1, w.len() as int), sym);
        assert(run_state(m, cur, w) == run_state(
            m,
            step_of(m, cur, w[0]),
            w.subrange(1, w.len() as int),
        ));
    }
}

impl DFA {
    /// The representation invariant: state identifiers are unique, and so are
    /// the symbols within each record's transition table.
    pub open spec fn wf(self) -> bool {
        &&& unique_keys(self.states@)
        &&& forall|i: int|
            0 <= i < self.states@.len() ==> unique_keys(#[trigger] self.states@[i].1.transitions@)
    }

    /// Creates a new empty automaton: no states, dead current.
    pub fn new() -> (r: Self)
        ensures
            r.wf(),
            r@.current is None,
            r@.states == Map::<u64, StateModel>::empty(),
    {
        let r = DFA { current: None, states: Vec::new() };
        proof {
            assert(r@.states =~= Map::<u64, StateModel>::empty());
        }
        r
    }

    /// Creates an automaton with the single state `id`, current set to it.
    pub fn with_state(id: u64, accept: bool) -> (r: Self)
        ensures
            r.wf(),
            r@.current == Some(id),
            r@.states == Map::<u64, StateModel>::empty().insert(
                id,
                (StateModel { accepts: accept, targets: Map::empty() }),
            ),
    {
        let mut a = Self::new();
        a.add_state(id, accept);
        a.set_current(id);
        a
    }

    /// Normalizes a bare identifier into this engine's current-state shape,
    /// which for the deterministic engine is the identifier itself.
    pub fn new_state(id: u64) -> (r: u64)
        ensures
            r == id,
    {
        id
    }

    /// Creates an automaton from `(id, accept)` pairs, current set to
    /// `initial` if that state was declared.
    pub fn from_states(initial: u64, states: Vec<(u64, bool)>) -> (r: Self)
        ensures
            r.wf(),
            r@.states == states_from(states@),
            r@.current == if states_from(states@).dom().contains(initial) {
                Some(initial)
            } else {
                None::<u64>
            },
    {
        let mut a = Self::new();
        proof {
            assert(states@.take(0) =~= Seq::<(u64, bool)>::empty());
        }
        let mut i: usize = 0;
        while i < states.len()
            invariant
                a.wf(),
                i <= states@.len(),
                a@.states == states_from(states@.take(i as int)),
            decreases states@.len() - i,
        {
            let (id, accept) = states[i];
            a.add_state(id, accept);
            proof {
                assert(states@.take(i as int + 1).drop_last() =~= states@.take(i as int));
                assert(states@.take(i as int + 1).last() == states@[i as int]);
            }
            i = i + 1;
        }
        proof {
            assert(states@.take(states@.len() as int) =~= states@);
        }
        a.set_current(initial);
        a
    }

    /// Creates an automaton from `(id, accept)` pairs and a transition list,
    /// recording each transition in order and aborting on the first whose
    /// states are unknown; the error names the missing state, `next` before
    /// `prev`.
    pub fn from_transitions(
        initial: u64,
        states: Vec<(u64, bool)>,
        transitions: Vec<(u64, char, u64)>,
    ) -> (r: Result<Self, AutomatonError>)
        ensures
            match r {
                Ok(a) => {
                    &&& bulk_error(states_from(states@), transitions@) is None
                    &&& a.wf()
                    &&& a@.states == apply_transitions(states_from(states@), transitions@)
                    &&& a@.current == if states_from(states@).dom().contains(initial) {
                        Some(initial)
                    } else {
                        None::<u64>
                    }
                },
                Err(e) => bulk_error(states_from(states@), transitions@) == Some(e),
            },
    {
        let ghost m0 = states_from(states@);
        let mut a = Self::new();
        proof {
            assert(states@.take(0) =~= Seq::<(u64, bool)>::empty());
        }
        let mut i: usize = 0;
        while i < states.len()
            invariant
                a.wf(),
                i <= states@.len(),
                a@.states == states_from(states@.take(i as int)),
            decreases states@.len() - i,
        {
            let (id, accept) = states[i];
            a.add_state(id, accept);
            proof {
                assert(states@.take(i as int + 1).drop_last() =~= states@.take(i as int));
                assert(states@.take(i as int + 1).last() == states@[i as int]);
            }
            i = i + 1;
        }
        proof {
            assert(states@.take(states@.len() as int) =~= states@);
        }
        a.set_current(initial);
        proof {
            assert(transitions@.take(0) =~= Seq::<(u64, char, u64)>::empty());
        }
        let mut k: usize = 0;
        while k < transitions.len()
            invariant
                a.wf(),
                k <= transitions@.len(),
                m0 == states_from(states@),
                a@.current == if m0.dom().contains(initial) {
                    Some(initial)
                } else {
                    None::<u64>
                },
                a@.states == apply_transitions(m0, transitions@.take(k as int)),
                a@.states.dom() == m0.dom(),
                forall|j: int| 0 <= j < k ==> m0.dom().contains(#[trigger] transitions@[j].0),
                forall|j: int| 0 <= j < k ==> m0.dom().contains(#[trigger] transitions@[j].2),
            decreases transitions@.len() - k,
        {
            let t = transitions[k];
            match a.add_transition(t) {
                Ok(_) => {
                    proof {
                        assert(m0.dom().contains(transitions@[k as int].0));
                        assert(m0.dom().contains(transitions@[k as int].2));
                        assert(transitions@.take(k as int + 1).drop_last() =~= transitions@.take(
                            k as int,
                        ));
                        assert(transitions@.take(k as int + 1).last() == transitions@[k as int]);
                        assert(a@.states.dom() =~= m0.dom());
                    }
                }
                Err(e) => {
                    proof {
                        lemma_bulk_error_skip(m0, transitions@, k as int);
                        let suffix = transitions@.subrange(k as int, transitions@.len() as int);
                        assert(suffix.len() > 0);
                        assert(suffix[0] == transitions@[k as int]);
                        if !m0.dom().contains(t.2) {
                            assert(e == AutomatonError::InexistentState(t.2));
                            assert(bulk_error(m0, suffix) == Some(
                                AutomatonError::InexistentState(t.2),
                            ));
                        } else {
                            assert(!m0.dom().contains(t.0));
                            assert(e == AutomatonError::InexistentState(t.0));
                            assert(bulk_error(m0, suffix) == Some(
                                AutomatonError::InexistentState(t.0),
                            ));
                        }
                        assert(bulk_error(m0, transitions@) == Some(e));
                    }
                    return Err(e);
                }
            }
            k = k + 1;
        }
        proof {
            assert(transitions@.take(transitions@.len() as int) =~= transitions@);
            lemma_bulk_error_skip(m0, transitions@, transitions@.len() as int);
        }
        Ok(a)
    }

    /// Creates an automaton from bulk `(id, (accepts, transitions))` entries,
    /// current set to `initial` if that state appears among them.
    pub fn from_map(initial: u64, states: Vec<(u64, (bool, Vec<(char, u64)>))>) -> (r: Self)
        requires
            unique_keys(states@),
            forall|i: int| 0 <= i < states@.len() ==> unique_keys(#[trigger] states@[i].1.1@),
        ensures
            r.wf(),
            r@.states == map_of_entries(states@),
            r@.current == if map_of_entries(states@).dom().contains(initial) {
                Some(initial)
            } else {
                None::<u64>
            },
    {
        let ghost entries = states@;
        let mut src = states;
        let mut rows: Vec<(u64, State)> = Vec::new();
        while src.len() > 0
            invariant
                rows@.len() + src@.len() == entries.len(),
                src@ == entries.subrange(rows@.len() as int, entries.len() as int),
                forall|i: int|
                    0 <= i < rows@.len() ==> (#[trigger] rows@[i]).0 == entries[i].0
                        && rows@[i].1.accepts == entries[i].1.0 && rows@[i].1.transitions@
                        == entries[i].1.1@,
            decreases src@.len(),
        {
            let ghost done = rows@.len() as int;
            let (id, payload) = src.remove(0);
            let (accepts, transitions) = payload;
            rows.push((id, State { accepts, transitions }));
            proof {
                assert(entries.subrange(done, entries.len() as int).remove(0) =~= entries.subrange(
                    done + 1,
                    entries.len() as int,
                ));
            }
        }
        proof {
            assert(unique_keys(rows@));
        }
        let current = match find_u64(&rows, initial) {
            Some(_) => Some(initial),
            None => None,
        };
        let r = DFA { current, states: rows };
        proof {
            assert forall|k: u64| #[trigger] has_key(r.states@, k) == has_key(entries, k) by {
                if has_key(r.states@, k) {
                    let i = choose|i: int| 0 <= i < r.states@.len() && r.states@[i].0 == k;
                    assert(entries[i].0 == k);
                }
                if has_key(entries, k) {
                    let i = choose|i: int| 0 <= i < entries.len() && entries[i].0 == k;
                    assert(r.states@[i].0 == k);
                }
            }
            assert forall|k: u64| has_key(entries, k) implies #[trigger] value_of(r.states@, k)@
                == map_of_entries(entries)[k] by {
                let i = choose|i: int| 0 <= i < entries.len() && entries[i].0 == k;
                lemma_key_at(entries, i);
                lemma_key_at(r.states@, i);
                assert(targets_of(r.states@[i].1.transitions@) =~= targets_of(entries[i].1.1@));
            }
            assert(r@.states =~~= map_of_entries(entries));
        }
        r
    }

    /// Returns a reference to the record of `id`, or reports the identifier
    /// as inexistent.
    pub fn get_state(&self, id: &u64) -> (r: Result<&State, AutomatonError>)
        requires
            self.wf(),
        ensures
            match r {
                Ok(s) => self@.states.dom().contains(*id) && s@ == self@.states[*id],
                Err(e) => !self@.states.dom().contains(*id) && e == AutomatonError::InexistentState(
                    *id,
                ),
            },
    {
        match find_u64(&self.states, *id) {
            Some(i) => {
                proof {
                    lemma_key_at(self.states@, i as int);
                }
                Ok(&self.states[i].1)
            }
            None => Err(AutomatonError::InexistentState(*id)),
        }
    }

    /// Checks whether the automaton declares the state `id`.
    pub fn has_state(&self, id: &u64) -> (r: bool)
        ensures
            r == self@.states.dom().contains(*id),
    {
        find_u64(&self.states, *id).is_some()
    }

    /// Inserts or overwrites the record for `id`, with an empty transition
    /// table and the given accept flag. The current configuration is kept.
    pub fn add_state(&mut self, id: u64, accept: bool)
        requires
            old(self).wf(),
        ensures
            final(self).wf(),
            final(self)@.current == old(self)@.current,
            final(self)@.states == old(self)@.states.insert(
                id,
                (StateModel { accepts: accept, targets: Map::empty() }),
            ),
            final(self).states@.len() == if old(self)@.states.dom().contains(id) {
                old(self).states@.len() as int
            } else {
                old(self).states@.len() + 1int
            },
    {
        let record = State { accepts: accept, transitions: Vec::new() };
        let ghost rows0 = self.states@;
        match find_u64(&self.states, id) {
            Some(i) => {
                proof {
                    lemma_key_at(rows0, i as int);
                    lemma_update_row(rows0, i as int, record);
                }
                self.states.set(i, (id, record));
            }
            None => {
                proof {
                    lemma_push_row(rows0, id, record);
                }
                self.states.push((id, record));
            }
        }
        proof {
            assert(targets_of(Seq::<(char, u64)>::empty()) =~= Map::<char, u64>::empty());
            assert(self@.states =~~= old(self)@.states.insert(
                id,
                (StateModel { accepts: accept, targets: Map::empty() }),
            ));
        }
    }

    /// Records the transition `(prev, symbol, next)`: fails with
    /// `InexistentState(next)` if `next` is unknown, otherwise with
    /// `InexistentState(prev)` if `prev` is unknown; otherwise overwrites any
    /// prior target for `(prev, symbol)` — at most one successor per pair.
    pub fn add_transition(&mut self, transition: (u64, char, u64)) -> (r: Result<
        (),
        AutomatonError,
    >)
        requires
            old(self).wf(),
        ensures
            final(self).wf(),
            final(self)@.current == old(self)@.current,
            !old(self)@.states.dom().contains(transition.2) ==> r == Err::<(), AutomatonError>(
                AutomatonError::InexistentState(transition.2),
            ) && final(self).states@ == old(self).states@,
            old(self)@.states.dom().contains(transition.2) && !old(self)@.states.dom().contains(
                transition.0,
            ) ==> r == Err::<(), AutomatonError>(AutomatonError::InexistentState(transition.0))
                && final(self).states@ == old(self).states@,
            old(self)@.states.dom().contains(transition.2) && old(self)@.states.dom().contains(
                transition.0,
            ) ==> r == Ok::<(), AutomatonError>(()) && final(self)@.states
                == old(self)@.states.insert(
                transition.0,
                (StateModel {
                    accepts: old(self)@.states[transition.0].accepts,
                    targets: old(self)@.states[transition.0].targets.insert(
                        transition.1,
                        transition.2,
                    ),
                }),
            ),
    {
        let (prev, input, next) = transition;
        if find_u64(&self.states, next).is_none() {
            return Err(AutomatonError::InexistentState(next));
        }
        let i = match find_u64(&self.states, prev) {
            None => {
                return Err(AutomatonError::InexistentState(prev));
            }
            Some(i) => i,
        };
        let ghost rows0 = self.states@;
        proof {
            lemma_key_at(rows0, i as int);
        }
        let mut row = self.states.remove(i);
        let ghost tr0 = row.1.transitions@;
        match find_char(&row.1.transitions, input) {
            Some(j) => {
                proof {
                    lemma_key_at(tr0, j as int);
                    lemma_update_row(tr0, j as int, next);
                }
                row.1.transitions.set(j, (input, next));
            }
            None => {
                proof {
                    lemma_push_row(tr0, input, next);
                }
                row.1.transitions.push((input, next));
            }
        }
        proof {
            assert(targets_of(row.1.transitions@) =~= targets_of(tr0).insert(input, next));
        }
        self.states.insert(i, row);
        proof {
            assert(self.states@ =~= rows0.update(i as int, self.states@[i as int]));
            assert(self.states@[i as int].0 == prev);
            lemma_update_row(rows0, i as int, self.states@[i as int].1);
            assert forall|k: int|
                0 <= k < self.states@.len() implies unique_keys(
                #[trigger] self.states@[k].1.transitions@,
            ) by {
                if k != i {
                    assert(self.states@[k] == rows0[k]);
                }
            }
            assert(self@.states =~~= old(self)@.states.insert(
                prev,
                (StateModel {
                    accepts: old(self)@.states[prev].accepts,
                    targets: old(self)@.states[prev].targets.insert(input, next),
                }),
            ));
        }
        Ok(())
    }

    /// Moves the current configuration to `id` if the automaton declares it,
    /// and to the dead configuration otherwise.
    pub fn set_current(&mut self, id: u64)
        ensures
            final(self).states@ == old(self).states@,
            final(self)@.current == if old(self)@.states.dom().contains(id) {
                Some(id)
            } else {
                None::<u64>
            },
    {
        self.current = match find_u64(&self.states, id) {
            Some(_) => Some(id),
            None => None,
        };
    }

    /// Returns the current state, or nothing if the configuration is dead.
    pub fn get_current(&self) -> (r: Option<&u64>)
        ensures
            match r {
                Some(c) => self@.current == Some(*c),
                None => self@.current is None,
            },
    {
        match &self.current {
            Some(c) => Some(c),
            None => None,
        }
    }

    /// Whether the current configuration accepts; false when dead.
    pub fn accepts(&self) -> (r: bool)
        requires
            self.wf(),
        ensures
            r == accepting(self@.states, self@.current),
    {
        match self.current {
            None => false,
            Some(c) => match find_u64(&self.states, c) {
                None => false,
                Some(i) => {
                    proof {
                        lemma_key_at(self.states@, i as int);
                    }
                    self.states[i].1.accepts
                }
            },
        }
    }

    /// Advances the current configuration by one symbol; never errors — an
    /// unmatched symbol, or a recorded target the table no longer declares,
    /// yields the dead configuration.
    pub fn step(&mut self, input: &char)
        requires
            old(self).wf(),
        ensures
            final(self).wf(),
            final(self).states@ == old(self).states@,
            final(self)@.current == step_of(old(self)@.states, old(self)@.current, *input),
    {
        let c = match self.current {
            None => {
                return ;
            }
            Some(c) => c,
        };
        let next: Option<u64> = match find_u64(&self.states, c) {
            None => None,
            Some(i) => {
                proof {
                    lemma_key_at(self.states@, i as int);
                }
                match find_char(&self.states[i].1.transitions, *input) {
                    None => None,
                    Some(j) => {
                        proof {
                            lemma_key_at(self.states@[i as int].1.transitions@, j as int);
                        }
                        let t = self.states[i].1.transitions[j].1;
                        match find_u64(&self.states, t) {
                            None => None,
                            Some(_) => Some(t),
                        }
                    }
                }
            }
        };
        self.current = next;
    }

    /// Runs the automaton over `inputs` and reports whether it ends in an
    /// accepting configuration, restoring the current configuration it
    /// started from; a machine that is already dead reads as rejecting.
    pub fn run(&mut self, inputs: &Vec<char>) -> (r: bool)
        requires
            old(self).wf(),
        ensures
            final(self).wf(),
            final(self).states@ == old(self).states@,
            final(self).current == old(self).current,
            r == accepting(
                old(self)@.states,
                run_state(old(self)@.states, old(self)@.current, inputs@),
            ),
    {
        let saved = self.current;
        if saved.is_none() {
            proof {
                lemma_dead_absorbs(self@.states, inputs@);
            }
            return false;
        }
        let ghost rows0 = self.states@;
        let ghost m0 = self@.states;
        let ghost c0 = self@.current;
        proof {
            assert(inputs@.take(0) =~= Seq::<char>::empty());
        }
        let mut i: usize = 0;
        while i < inputs.len()
            invariant
                self.wf(),
                i <= inputs@.len(),
                self.states@ == rows0,
                m0 == states_of(rows0),
                self.current == run_state(m0, c0, inputs@.take(i as int)),
            decreases inputs@.len() - i,
        {
            self.step(&inputs[i]);
            proof {
                assert(inputs@.take(i as int + 1) =~= inputs@.take(i as int).push(
                    inputs@[i as int],
                ));
                lemma_run_state_snoc(m0, c0, inputs@.take(i as int), inputs@[i as int]);
            }
            i = i + 1;
        }
        proof {
            assert(inputs@.take(inputs@.len() as int) =~= inputs@);
        }
        let result = self.accepts();
        self.current = saved;
        result
    }
}

} // verus!
