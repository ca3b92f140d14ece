//! Deterministic finite automata: the executable representation and its
//! mathematical model.
use vstd::prelude::*;

verus! {

/// A state of an automaton, numbered from zero.
pub type Node = usize;

/// A labelled transition `from --symbol--> to`.
#[derive(Debug, Clone, Copy, PartialEq, Eq, Structural)]
pub struct Edge {
    pub from: Node,
    pub symbol: char,
    pub to: Node,
}

/// An automaton over `char` symbols whose states are `0..state_count`.
#[derive(Debug, Clone)]
pub struct DFA {
    pub state_count: usize,
    pub edges: Vec<Edge>,
    pub initial: Node,
    pub accepting: Vec<Node>,
    pub alphabet: Vec<char>,
}

/// An automaton whose states carry display names (`names[q]` names state `q`).
#[derive(Debug, Clone)]
pub struct NamedDFA {
    pub dfa: DFA,
    pub names: Vec<String>,
}

/// The mathematical model of a `NamedDFA`.
pub struct Automaton {
    pub state_count: nat,
    pub edges: Seq<Edge>,
    pub initial: Node,
    pub accepting: Seq<Node>,
    pub alphabet: Seq<char>,
    pub names: Seq<Seq<char>>,
}

impl View for NamedDFA {
    type V = Automaton;

    open spec fn view(&self) -> Automaton {
        Automaton {
            state_count: self.dfa.state_count as nat,
            edges: self.dfa.edges@,
            initial: self.dfa.initial,
            accepting: self.dfa.accepting@,
            alphabet: self.dfa.alphabet@,
            names: self.names@.map_values(|s: String| s@),
        }
    }
}

/// `e` leaves `q` on `a`.
pub open spec fn leaves_on(e: Edge, q: Node, a: char) -> bool {
    e.from == q && e.symbol == a
}

/// The target of the first edge in `edges` that leaves `q` on `a`, if any.
pub open spec fn first_target(edges: Seq<Edge>, q: Node, a: char) -> Option<Node>
    decreases edges.len(),
{
    if edges.len() == 0 {
        None
    } else {
        let earlier = first_target(edges.drop_last(), q, a);
        if earlier is Some {
            earlier
        } else if leaves_on(edges.last(), q, a) {
            Some(edges.last().to)
        } else {
            None
        }
    }
}

/// The first matching edge of a concatenation is found in its first part
/// when that part has one, and in its second part otherwise.
pub proof fn lemma_first_target_concat(s1: Seq<Edge>, s2: Seq<Edge>, q: Node, a: char)
    ensures
        first_target(s1 + s2, q, a) == (if first_target(s1, q, a) is Some {
            first_target(s1, q, a)
        } else {
            first_target(s2, q, a)
        }),
    decreases s2.len(),
{
    if s2.len() == 0 {
        assert(s1 + s2 =~= s1);
    } else {
        assert((s1 + s2).drop_last() =~= s1 + s2.drop_last());
        lemma_first_target_concat(s1, s2.drop_last(), q, a);
    }
}

/// `first_target` is `Some` exactly when some edge leaves `q` on `a`, and then
/// it is the target of the matching edge of smallest index.
pub proof fn lemma_first_target_index(edges: Seq<Edge>, q: Node, a: char)
    ensures
        first_target(edges, q, a) is None <==> (forall|i: int|
            0 <= i < edges.len() ==> !leaves_on(#[trigger] edges[i], q, a)),
        first_target(edges, q, a) is Some ==> exists|i: int|
            0 <= i < edges.len() && leaves_on(#[trigger] edges[i], q, a) && edges[i].to
                == first_target(edges, q, a)->0 && (forall|j: int|
                0 <= j < i ==> !leaves_on(#[trigger] edges[j], q, a)),
    decreases edges.len(),
{
    if edges.len() > 0 {
        let init = edges.drop_last();
        lemma_first_target_index(init, q, a);
        if first_target(init, q, a) is Some {
            let i = choose|i: int|
                0 <= i < init.len() && leaves_on(#[trigger] init[i], q, a) && init[i].to
                    == first_target(init, q, a)->0 && (forall|j: int|
                    0 <= j < i ==> !leaves_on(#[trigger] init[j], q, a));
            assert(edges[i] == init[i]);
            assert forall|j: int| 0 <= j < i implies !leaves_on(#[trigger] edges[j], q, a) by {
                assert(edges[j] == init[j]);
            }
        } else {
            assert forall|j: int| 0 <= j < edges.len() - 1 implies !leaves_on(
                #[trigger] edges[j],
                q,
                a,
            ) by {
                assert(edges[j] == init[j]);
            }
        }
    }
}

/// The state reached from `q` by reading `w`, if every transition on the way exists.
pub open spec fn run(m: Automaton, q: Node, w: Seq<char>) -> Option<Node>
    decreases w.len(),
{
    if w.len() == 0 {
        Some(q)
    } else {
        match run(m, q, w.drop_last()) {
            Some(p) => first_target(m.edges, p, w.last()),
            None => None,
        }
    }
}

/// `m` accepts `w`: reading `w` from the initial state ends in an accepting state.
pub open spec fn accepts(m: Automaton, w: Seq<char>) -> bool {
    match run(m, m.initial, w) {
        Some(p) => m.accepting.contains(p),
        None => false,
    }
}

/// Every symbol of `w` is in the alphabet of `m`.
pub open spec fn over_alphabet(m: Automaton, w: Seq<char>) -> bool {
    forall|i: int| 0 <= i < w.len() ==> m.alphabet.contains(#[trigger] w[i])
}

/// No state has two edges on the same symbol.
pub open spec fn single_choice(es: Seq<Edge>) -> bool {
    forall|i: int, j: int|
        0 <= i < es.len() && 0 <= j < es.len() && i != j && #[trigger] es[i].from
            == #[trigger] es[j].from ==> es[i].symbol != es[j].symbol
}

/// Every edge is on a symbol of the alphabet, and no state has two edges on
/// the same symbol.
pub open spec fn deterministic(m: Automaton) -> bool {
    &&& forall|j: int| 0 <= j < m.edges.len() ==> m.alphabet.contains(#[trigger] m.edges[j].symbol)
    &&& single_choice(m.edges)
}

/// Without a second edge on its symbol, an edge is the transition of its source.
pub proof fn lemma_single_choice_step(es: Seq<Edge>, j: int)
    requires
        single_choice(es),
        0 <= j < es.len(),
    ensures
        first_target(es, es[j].from, es[j].symbol) == Some(es[j].to),
{
    let e = es[j];
    lemma_first_target_index(es, e.from, e.symbol);
    assert(leaves_on(es[j], e.from, e.symbol));
    let i = choose|i: int|
        0 <= i < es.len() && leaves_on(#[trigger] es[i], e.from, e.symbol) && es[i].to
            == first_target(es, e.from, e.symbol)->0 && (forall|k: int|
            0 <= k < i ==> !leaves_on(#[trigger] es[k], e.from, e.symbol));
    if i != j {
        assert(es[i].from == es[j].from);
    }
}

/// Membership of a state in a list of states.
pub fn contains_node(v: &Vec<Node>, x: Node) -> (r: bool)
    ensures
        r == v@.contains(x),
{
    let mut i: usize = 0;
    while i < v.len()
        invariant
            i <= v.len(),
            forall|j: int| 0 <= j < i ==> v@[j] != x,
        decreases v.len() - i,
    {
        if v[i] == x {
            return true;
        }
        i = i + 1;
    }
    false
}

impl DFA {
    /// The state reached from `state` on `symbol`: the target of the first edge
    /// that leaves `state` on `symbol`, or `None` when there is none.
    pub fn delta(&self, state: Node, symbol: char) -> (r: Option<Node>)
        ensures
            r == first_target(self.edges@, state, symbol),
    {
        let mut i: usize = 0;
        while i < self.edges.len()
            invariant
                i <= self.edges@.len(),
                first_target(self.edges@.take(i as int), state, symbol) is None,
            decreases self.edges@.len() - i,
        {
            let e = self.edges[i];
            if e.from == state && e.symbol == symbol {
                proof {
                    let es = self.edges@;
                    assert(es.take(i + 1).drop_last() =~= es.take(i as int));
                    assert(es =~= es.take(i + 1) + es.skip(i + 1));
                    lemma_first_target_concat(es.take(i + 1), es.skip(i + 1), state, symbol);
                }
                return Some(e.to);
            }
            proof {
                let es = self.edges@;
                assert(es.take(i + 1).drop_last() =~= es.take(i as int));
            }
            i = i + 1;
        }
        proof {
            assert(self.edges@.take(i as int) =~= self.edges@);
        }
        None
    }
}

} // verus!
