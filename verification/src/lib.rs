pub mod automaton;
pub mod engine;
pub mod semantics;
pub mod state_set;
