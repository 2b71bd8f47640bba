//! A finite-state automaton engine: deterministic and nondeterministic
//! machines over `u64` state identifiers and `char` input symbols, plus the
//! powerset construction that turns a nondeterministic machine into an
//! equivalent deterministic one.

mod automaton;
mod table;

pub mod determinize;
pub mod dfa;
pub mod nfa;

pub use automaton::AutomatonError;
pub use dfa::DFA;
pub use nfa::NFA;
