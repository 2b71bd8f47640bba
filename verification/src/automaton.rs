//! The error an automaton can raise. Only `add_transition` and the bulk
//! constructor built on it ever fail; every query and execution operation is
//! total, with a missing or since-removed state read as the dead
//! configuration.

use vstd::prelude::*;

verus! {

/// The single error kind of the engine: a transition named a state identifier
/// that the automaton does not declare.
#[derive(Debug, Clone, Copy, PartialEq, Eq, Structural)]
pub enum AutomatonError {
    InexistentState(u64),
}

/// What bulk construction reports for a transition list over a declared state
/// table: nothing when every `(prev, symbol, next)` names declared states,
/// else the error of the first offender — its `next` if that is unknown,
/// otherwise its `prev`.
pub open spec fn bulk_error<V>(m: Map<u64, V>, ts: Seq<(u64, char, u64)>) -> Option<AutomatonError>
    decreases ts.len(),
{
    if ts.len() == 0 {
        None
    } else if !m.dom().contains(ts[0].2) {
        Some(AutomatonError::InexistentState(ts[0].2))
    } else if !m.dom().contains(ts[0].0) {
        Some(AutomatonError::InexistentState(ts[0].0))
    } else {
        bulk_error(m, ts.subrange(1, ts.len() as int))
    }
}

/// A prefix of transitions that all name declared states does not change what
/// bulk construction reports.
pub proof fn lemma_bulk_error_skip<V>(m: Map<u64, V>, ts: Seq<(u64, char, u64)>, k: int)
    requires
        0 <= k <= ts.len(),
        forall|j: int|
            0 <= j < k ==> m.dom().contains(#[trigger] ts[j].0) && m.dom().contains(ts[j].2),
    ensures
        bulk_error(m, ts) == bulk_error(m, ts.subrange(k, ts.len() as int)),
    decreases k,
{
    if k == 0 {
        assert(ts.subrange(0, ts.len() as int) =~= ts);
    } else {
        let rest = ts.subrange(1, ts.len() as int);
        assert(m.dom().contains(ts[0].0) && m.dom().contains(ts[0].2));
        assert(bulk_error(m, ts) == bulk_error(m, rest));
        assert(forall|j: int|
            0 <= j < k - 1 ==> m.dom().contains(#[trigger] rest[j].0) && m.dom().contains(
                rest[j].2,
            ));
        lemma_bulk_error_skip(m, rest, k - 1);
        assert(rest.subrange(k - 1, rest.len() as int) =~= ts.subrange(k, ts.len() as int));
    }
}

} // verus!
