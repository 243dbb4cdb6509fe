pub mod automaton;
pub mod index;
pub mod scanner;
pub mod walker;
