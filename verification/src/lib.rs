//! Minimisation of deterministic finite automata, with the text format they
//! are read from, the Graphviz form they are drawn in, and an HTML report of
//! minimisations.
pub mod automaton;
pub mod reach;
pub mod equivalence;
pub mod quotient;
pub mod minimizer;
pub mod text;
pub mod dfa;
pub mod env;
pub mod playground;
pub mod report;
