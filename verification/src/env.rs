//! The request and answer of a minimisation task.
//!
//! Running and checking such a task, and drawing random tasks, are not part
//! of this crate: they rest on building an automaton from its named states,
//! reading Graphviz text back, testing two automata for isomorphism and
//! generating random automata, none of which the crate has.
use vstd::prelude::*;

verus! {

/// A minimisation task: an automaton in its text form.
#[derive(Debug, Clone, PartialEq)]
pub struct Input {
    pub dfa: String,
}

/// The answer to a minimisation task: the automaton and its minimisation
/// in Graphviz form, and whether the automaton is deterministic.
#[derive(Debug, Clone, PartialEq)]
pub struct Output {
    pub dot: String,
    pub minimized_dot: String,
    pub deterministic: bool,
}

impl Default for Input {
    fn default() -> (r: Input)
        ensures
            r.dfa@ == Seq::<char>::empty(),
    {
        Input { dfa: String::new() }
    }
}

impl Default for Output {
    fn default() -> (r: Output)
        ensures
            r.dot@ == Seq::<char>::empty(),
            r.minimized_dot@ == Seq::<char>::empty(),
            !r.deterministic,
    {
        Output { dot: String::new(), minimized_dot: String::new(), deterministic: false }
    }
}

} // verus!
