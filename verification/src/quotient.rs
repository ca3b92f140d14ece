//! The automaton whose states are the classes of indistinguishable states.
//!
//! Classes are numbered in the order of their smallest member (their
//! leader); the leader stands for its class.
use vstd::prelude::*;
use crate::text::join_with;
use crate::automaton::{
    Automaton, Edge, Node, accepts, deterministic, first_target, lemma_first_target_concat,
    lemma_first_target_index, lemma_single_choice_step, leaves_on, over_alphabet, run,
};
use crate::reach::{reach_within, reachable};
use crate::equivalence::{
    complete, dist, distinguishable, lemma_distinguishable_facts, lemma_step_in_range, step,
    well_formed,
};

verus! {

/// `p` and `q` accept the same words over the alphabet.
pub open spec fn indistinguishable(t: Automaton, p: Node, q: Node) -> bool {
    !distinguishable(t, p, q)
}

/// The first state from `r` on that is indistinguishable from `p`, or `p`
/// itself if there is none before it.
pub open spec fn first_equivalent(t: Automaton, p: Node, r: nat) -> Node
    decreases p - r,
{
    if r >= p {
        p
    } else if indistinguishable(t, r as Node, p) {
        r as Node
    } else {
        first_equivalent(t, p, r + 1)
    }
}

/// The smallest state indistinguishable from `p`.
pub open spec fn leader(t: Automaton, p: Node) -> Node {
    first_equivalent(t, p, 0)
}

/// `p` is the smallest state of its class.
pub open spec fn is_leader(t: Automaton, p: Node) -> bool {
    leader(t, p) == p
}

/// The number of leaders below `m`.
pub open spec fn leaders_below(t: Automaton, m: nat) -> nat
    decreases m,
{
    if m == 0 {
        0
    } else {
        leaders_below(t, (m - 1) as nat) + (if is_leader(t, (m - 1) as Node) {
            1nat
        } else {
            0nat
        })
    }
}

/// The number of the class of `p`.
pub open spec fn class_of(t: Automaton, p: Node) -> nat {
    leaders_below(t, leader(t, p) as nat)
}

/// The number of classes.
pub open spec fn class_count(t: Automaton) -> nat {
    leaders_below(t, t.state_count)
}

/// The leader of class `c`.
pub open spec fn class_leader(t: Automaton, c: nat) -> Node {
    choose|r: Node| r < t.state_count && is_leader(t, r) && leaders_below(t, r as nat) == c
}

/// The edges of `es` that leave the leader of class `c`, in their order,
/// leaving class `c` for the class of their target.
pub open spec fn class_edges(t: Automaton, c: nat, es: Seq<Edge>) -> Seq<Edge>
    decreases es.len(),
{
    if es.len() == 0 {
        seq![]
    } else {
        let rest = class_edges(t, c, es.drop_last());
        let e = es.last();
        if e.from == class_leader(t, c) {
            rest.push(Edge { from: c as usize, symbol: e.symbol, to: class_of(t, e.to) as usize })
        } else {
            rest
        }
    }
}

/// The edges of the classes below `m`, class by class.
pub open spec fn quotient_edges(t: Automaton, m: nat) -> Seq<Edge>
    decreases m,
{
    if m == 0 {
        seq![]
    } else {
        quotient_edges(t, (m - 1) as nat) + class_edges(t, (m - 1) as nat, t.edges)
    }
}

/// The classes below `m` whose leader accepts, in increasing order.
pub open spec fn accepting_classes(t: Automaton, m: nat) -> Seq<Node>
    decreases m,
{
    if m == 0 {
        seq![]
    } else {
        let rest = accepting_classes(t, (m - 1) as nat);
        if t.accepting.contains(class_leader(t, (m - 1) as nat)) {
            rest.push((m - 1) as usize)
        } else {
            rest
        }
    }
}

/// The names of the states below `m` in class `c`, in increasing order.
pub open spec fn member_names(t: Automaton, c: nat, m: nat) -> Seq<Seq<char>>
    decreases m,
{
    if m == 0 {
        seq![]
    } else {
        let rest = member_names(t, c, (m - 1) as nat);
        if class_of(t, (m - 1) as Node) == c {
            rest.push(t.names[m - 1])
        } else {
            rest
        }
    }
}

/// The automaton of the classes of `t`: class `c` takes the transitions of
/// its leader, accepts when its leader accepts, and is named by the names of
/// its members joined with commas.
pub open spec fn quotient(t: Automaton) -> Automaton {
    Automaton {
        state_count: class_count(t),
        edges: quotient_edges(t, class_count(t)),
        initial: class_of(t, t.initial) as usize,
        accepting: accepting_classes(t, class_count(t)),
        alphabet: t.alphabet,
        names: Seq::new(
            class_count(t),
            |c: int| join_with(member_names(t, c as nat, t.state_count), ','),
        ),
    }
}

/// What the search for a first equivalent state finds.
pub proof fn lemma_first_equivalent(t: Automaton, p: Node, r: nat)
    requires
        indistinguishable(t, p, p),
        r <= p,
    ensures
        r <= first_equivalent(t, p, r) <= p,
        indistinguishable(t, first_equivalent(t, p, r), p),
        forall|s: Node| r <= s < first_equivalent(t, p, r) ==> distinguishable(t, s, p),
    decreases p - r,
{
    if r < p && !indistinguishable(t, r as Node, p) {
        lemma_first_equivalent(t, p, r + 1);
    }
}

/// The leader of a state is the smallest state indistinguishable from it,
/// and indistinguishable states share their leader.
pub proof fn lemma_leader(t: Automaton)
    requires
        well_formed(t),
        complete(t),
    ensures
        forall|p: Node|
            p < t.state_count ==> #[trigger] leader(t, p) <= p && indistinguishable(
                t,
                leader(t, p),
                p,
            ),
        forall|p: Node, s: Node|
            p < t.state_count && s < leader(t, p) ==> #[trigger] distinguishable(t, s, p),
        forall|p: Node, q: Node|
            p < t.state_count && q < t.state_count && indistinguishable(t, p, q) ==> #[trigger] leader(t, p)
                == #[trigger] leader(t, q),
        forall|p: Node|
            p < t.state_count ==> #[trigger] leader(t, leader(t, p)) == leader(t, p),
{
    lemma_distinguishable_facts(t);
    assert forall|p: Node|
        p < t.state_count implies #[trigger] leader(t, p) <= p && indistinguishable(
            t,
            leader(t, p),
            p,
        ) && (forall|s: Node| s < leader(t, p) ==> distinguishable(t, s, p)) by {
        lemma_first_equivalent(t, p, 0);
    }
    assert forall|p: Node, q: Node|
        p < t.state_count && q < t.state_count && indistinguishable(t, p, q) implies #[trigger] leader(t, p)
            == #[trigger] leader(t, q) by {
        let lp = leader(t, p);
        let lq = leader(t, q);
        // lq is indistinguishable from p, so lp <= lq; and the other way round.
        if lq < lp {
            assert(distinguishable(t, lq, p));
            assert(distinguishable(t, lq, q) || distinguishable(t, q, p));
        }
        if lp < lq {
            assert(distinguishable(t, lp, q));
            assert(distinguishable(t, lp, p) || distinguishable(t, p, q));
        }
    }
    assert forall|p: Node| p < t.state_count implies #[trigger] leader(t, leader(t, p)) == leader(t, p) by {
        let l = leader(t, p);
        assert(indistinguishable(t, l, p));
        assert(leader(t, l) == leader(t, p));
    }
}

/// There are at most `m` leaders below `m`, and fewer below a leader than
/// below any larger bound.
pub proof fn lemma_leaders_below(t: Automaton, m1: nat, m2: nat)
    requires
        m1 <= m2,
    ensures
        leaders_below(t, m1) <= leaders_below(t, m2),
        leaders_below(t, m2) <= m2,
        m1 < m2 && is_leader(t, m1 as Node) ==> leaders_below(t, m1) < leaders_below(t, m2),
    decreases m2,
{
    if m2 > 0 {
        if m1 < m2 {
            lemma_leaders_below(t, m1, (m2 - 1) as nat);
        } else {
            lemma_leaders_below(t, (m2 - 1) as nat, (m2 - 1) as nat);
        }
    }
}

/// Every class below the number of leaders below `m` has a leader below `m`.
proof fn lemma_class_leader_exists(t: Automaton, m: nat, c: nat)
    requires
        c < leaders_below(t, m),
        m <= usize::MAX,
    ensures
        exists|r: Node| r < m && is_leader(t, r) && leaders_below(t, r as nat) == c,
    decreases m,
{
    if m > 0 {
        if c < leaders_below(t, (m - 1) as nat) {
            lemma_class_leader_exists(t, (m - 1) as nat, c);
        } else {
            let r = (m - 1) as Node;
            assert(is_leader(t, r) && leaders_below(t, r as nat) == c);
        }
    }
}

/// The leader of class `c` is the leader of the states of that class, and
/// every class below the class count has one.
pub proof fn lemma_class_leader(t: Automaton)
    requires
        well_formed(t),
        complete(t),
    ensures
        forall|c: nat|
            c < class_count(t) ==> #[trigger] class_leader(t, c) < t.state_count && is_leader(
                t,
                class_leader(t, c),
            ) && leaders_below(t, class_leader(t, c) as nat) == c,
        forall|p: Node|
            p < t.state_count ==> #[trigger] class_of(t, p) < class_count(t) && class_leader(
                t,
                class_of(t, p),
            ) == leader(t, p),
        forall|r: Node|
            r < t.state_count && is_leader(t, r) ==> #[trigger] class_leader(t, leaders_below(t, r as nat)) == r,
{
    lemma_leader(t);
    assert forall|c: nat| c < class_count(t) implies #[trigger] class_leader(t, c) < t.state_count
        && is_leader(t, class_leader(t, c)) && leaders_below(t, class_leader(t, c) as nat) == c by {
        lemma_class_leader_exists(t, t.state_count, c);
    }
    assert forall|r: Node| r < t.state_count && is_leader(t, r) implies #[trigger] class_leader(
        t,
        leaders_below(t, r as nat),
    ) == r by {
        let c = leaders_below(t, r as nat);
        lemma_leaders_below(t, r as nat, t.state_count);
        let r2 = class_leader(t, c);
        if r2 < r {
            lemma_leaders_below(t, r2 as nat, r as nat);
        } else if r < r2 {
            lemma_leaders_below(t, r as nat, r2 as nat);
        }
    }
    assert forall|p: Node| p < t.state_count implies #[trigger] class_of(t, p) < class_count(t)
        && class_leader(t, class_of(t, p)) == leader(t, p) by {
        let l = leader(t, p);
        assert(is_leader(t, l));
        lemma_leaders_below(t, l as nat, t.state_count);
    }
}

/// The edges of class `c` lead, on a symbol, from `c` to the class of the
/// state its leader moves to; no other state has edges among them.
proof fn lemma_class_edges_step(t: Automaton, c: nat, es: Seq<Edge>, c2: Node, a: char)
    requires
        c <= usize::MAX,
    ensures
        first_target(class_edges(t, c, es), c2, a) == (if c2 == c as usize {
            match first_target(es, class_leader(t, c), a) {
                Some(x) => Some(class_of(t, x) as usize),
                None => None,
            }
        } else {
            None::<Node>
        }),
    decreases es.len(),
{
    if es.len() > 0 {
        let es0 = es.drop_last();
        let e = es.last();
        lemma_class_edges_step(t, c, es0, c2, a);
        let rest = class_edges(t, c, es0);
        if e.from == class_leader(t, c) {
            let e2 = Edge { from: c as usize, symbol: e.symbol, to: class_of(t, e.to) as usize };
            assert(class_edges(t, c, es) == rest.push(e2));
            assert(rest.push(e2).drop_last() =~= rest);
            assert(rest.push(e2).last() == e2);
        } else {
            assert(class_edges(t, c, es) == rest);
        }
    }
}

/// Among the edges of the classes below `m`, the transitions of class `c2`
/// are those of its own edges.
proof fn lemma_quotient_edges_step(t: Automaton, m: nat, c2: Node, a: char)
    requires
        m <= usize::MAX,
    ensures
        first_target(quotient_edges(t, m), c2, a) == (if c2 < m {
            first_target(class_edges(t, c2 as nat, t.edges), c2, a)
        } else {
            None::<Node>
        }),
    decreases m,
{
    if m > 0 {
        let m0 = (m - 1) as nat;
        lemma_quotient_edges_step(t, m0, c2, a);
        lemma_first_target_concat(quotient_edges(t, m0), class_edges(t, m0, t.edges), c2, a);
        lemma_class_edges_step(t, m0, t.edges, c2, a);
        if c2 < m0 {
            lemma_class_edges_step(t, c2 as nat, t.edges, c2, a);
        }
    }
}

/// A class moves on a symbol of the alphabet to the class of the state that
/// any of its members moves to.
pub proof fn lemma_quotient_step(t: Automaton, x: Node, i: int)
    requires
        well_formed(t),
        complete(t),
        x < t.state_count,
        0 <= i < t.alphabet.len(),
    ensures
        step(t, x, t.alphabet[i]) is Some,
        step(t, x, t.alphabet[i])->0 < t.state_count,
        step(quotient(t), class_of(t, x) as usize, t.alphabet[i]) == Some(
            class_of(t, step(t, x, t.alphabet[i])->0) as usize,
        ),
{
    let a = t.alphabet[i];
    lemma_leader(t);
    lemma_class_leader(t);
    lemma_leaders_below(t, t.state_count, t.state_count);
    let c = class_of(t, x);
    let l = leader(t, x);
    lemma_step_in_range(t, x, a);
    lemma_step_in_range(t, l, a);
    lemma_quotient_edges_step(t, class_count(t), c as usize, a);
    lemma_class_edges_step(t, c, t.edges, c as usize, a);
    let y = step(t, x, a)->0;
    let z = step(t, l, a)->0;
    // Indistinguishable states move to indistinguishable states.
    if distinguishable(t, z, y) {
        let k = choose|k: nat| dist(t, k, z, y);
        assert(dist(t, k + 1, l, x));
    }
    assert(leader(t, z) == leader(t, y));
}

/// Indistinguishable states agree on acceptance.
proof fn lemma_indistinguishable_acceptance(t: Automaton, x: Node, y: Node)
    requires
        indistinguishable(t, x, y),
    ensures
        t.accepting.contains(x) == t.accepting.contains(y),
{
    if t.accepting.contains(x) != t.accepting.contains(y) {
        assert(dist(t, 0, x, y));
    }
}

/// A class accepts exactly when its leader does.
proof fn lemma_accepting_classes(t: Automaton, m: nat, c: nat)
    requires
        m <= usize::MAX,
        c <= usize::MAX,
    ensures
        accepting_classes(t, m).contains(c as usize) == (c < m && t.accepting.contains(
            class_leader(t, c),
        )),
    decreases m,
{
    if m > 0 {
        let m0 = (m - 1) as nat;
        lemma_accepting_classes(t, m0, c);
        let rest = accepting_classes(t, m0);
        if t.accepting.contains(class_leader(t, m0)) {
            let pushed = rest.push(m0 as usize);
            assert(accepting_classes(t, m) == pushed);
            if pushed.contains(c as usize) {
                let k = choose|k: int| 0 <= k < pushed.len() && pushed[k] == c as usize;
                if k < rest.len() {
                    assert(rest[k] == c as usize);
                }
            }
            if rest.contains(c as usize) {
                let k = choose|k: int| 0 <= k < rest.len() && rest[k] == c as usize;
                assert(pushed[k] == c as usize);
            }
            if c == m0 {
                assert(pushed[rest.len() as int] == c as usize);
            }
        } else {
            assert(accepting_classes(t, m) == rest);
        }
    }
}

/// Reading a word over the alphabet from the class of `p` ends in the class
/// of the state where reading it from `p` ends.
proof fn lemma_quotient_run(t: Automaton, p: Node, w: Seq<char>)
    requires
        well_formed(t),
        complete(t),
        p < t.state_count,
        over_alphabet(t, w),
    ensures
        run(t, p, w) is Some,
        run(t, p, w)->0 < t.state_count,
        run(quotient(t), class_of(t, p) as usize, w) == Some(class_of(t, run(t, p, w)->0) as usize),
    decreases w.len(),
{
    if w.len() > 0 {
        let w0 = w.drop_last();
        assert forall|i: int| 0 <= i < w0.len() implies t.alphabet.contains(#[trigger] w0[i]) by {
            assert(w0[i] == w[i]);
        }
        lemma_quotient_run(t, p, w0);
        let x = run(t, p, w0)->0;
        assert(t.alphabet.contains(w[w.len() - 1]));
        let i = choose|i: int| 0 <= i < t.alphabet.len() && t.alphabet[i] == w.last();
        lemma_quotient_step(t, x, i);
    }
}

/// Merging indistinguishable states keeps the language: the automaton of
/// classes accepts exactly the words over the alphabet that the given
/// automaton accepts.
pub proof fn lemma_quotient_language(t: Automaton, w: Seq<char>)
    requires
        well_formed(t),
        complete(t),
        over_alphabet(t, w),
    ensures
        accepts(quotient(t), w) == accepts(t, w),
{
    lemma_leader(t);
    lemma_class_leader(t);
    lemma_leaders_below(t, t.state_count, t.state_count);
    lemma_quotient_run(t, t.initial, w);
    let x = run(t, t.initial, w)->0;
    lemma_accepting_classes(t, class_count(t), class_of(t, x));
    lemma_indistinguishable_acceptance(t, leader(t, x), x);
}

/// Within `k` symbols, the classes of `x` and `y` are told apart exactly
/// when `x` and `y` are.
proof fn lemma_quotient_dist(t: Automaton, k: nat, x: Node, y: Node)
    requires
        well_formed(t),
        complete(t),
        x < t.state_count,
        y < t.state_count,
    ensures
        dist(quotient(t), k, class_of(t, x) as usize, class_of(t, y) as usize) == dist(t, k, x, y),
    decreases k,
{
    let q = quotient(t);
    let cx = class_of(t, x) as usize;
    let cy = class_of(t, y) as usize;
    lemma_leader(t);
    lemma_class_leader(t);
    lemma_leaders_below(t, t.state_count, t.state_count);
    if k == 0 {
        lemma_accepting_classes(t, class_count(t), class_of(t, x));
        lemma_accepting_classes(t, class_count(t), class_of(t, y));
        lemma_indistinguishable_acceptance(t, leader(t, x), x);
        lemma_indistinguishable_acceptance(t, leader(t, y), y);
    } else {
        let k0 = (k - 1) as nat;
        lemma_quotient_dist(t, k0, x, y);
        if dist(q, k, cx, cy) && !dist(q, k0, cx, cy) {
            let i = choose|i: int|
                0 <= i < q.alphabet.len() && match (
                    step(q, cx, #[trigger] q.alphabet[i]),
                    step(q, cy, q.alphabet[i]),
                ) {
                    (Some(u), Some(v)) => dist(q, k0, u, v),
                    _ => false,
                };
            lemma_quotient_step(t, x, i);
            lemma_quotient_step(t, y, i);
            let x2 = step(t, x, t.alphabet[i])->0;
            let y2 = step(t, y, t.alphabet[i])->0;
            lemma_quotient_dist(t, k0, x2, y2);
            assert(dist(t, k, x, y));
        }
        if dist(t, k, x, y) && !dist(t, k0, x, y) {
            let i = choose|i: int|
                0 <= i < t.alphabet.len() && match (
                    step(t, x, #[trigger] t.alphabet[i]),
                    step(t, y, t.alphabet[i]),
                ) {
                    (Some(u), Some(v)) => dist(t, k0, u, v),
                    _ => false,
                };
            lemma_quotient_step(t, x, i);
            lemma_quotient_step(t, y, i);
            let x2 = step(t, x, t.alphabet[i])->0;
            let y2 = step(t, y, t.alphabet[i])->0;
            lemma_quotient_dist(t, k0, x2, y2);
            assert(q.alphabet[i] == t.alphabet[i]);
            assert(dist(q, k, cx, cy));
        }
    }
}

/// The automaton of classes has no two indistinguishable states: every two
/// different classes are told apart by some word over the alphabet.
pub proof fn lemma_quotient_states_distinguishable(t: Automaton, c1: Node, c2: Node)
    requires
        well_formed(t),
        complete(t),
        c1 < class_count(t),
        c2 < class_count(t),
        c1 != c2,
    ensures
        distinguishable(quotient(t), c1, c2),
{
    lemma_leader(t);
    lemma_class_leader(t);
    lemma_leaders_below(t, t.state_count, t.state_count);
    let l1 = class_leader(t, c1 as nat);
    let l2 = class_leader(t, c2 as nat);
    assert(class_of(t, l1) == c1);
    assert(class_of(t, l2) == c2);
    assert(distinguishable(t, l1, l2)) by {
        if !distinguishable(t, l1, l2) {
            assert(leader(t, l1) == leader(t, l2));
        }
    }
    let k = choose|k: nat| dist(t, k, l1, l2);
    lemma_quotient_dist(t, k, l1, l2);
}

/// The edges of a class leave it for classes below the class count.
proof fn lemma_class_edges_in_range(t: Automaton, c: nat, es: Seq<Edge>)
    requires
        well_formed(t),
        complete(t),
        c < class_count(t),
        forall|j: int| 0 <= j < es.len() ==> (#[trigger] es[j]).to < t.state_count,
    ensures
        forall|j: int|
            0 <= j < class_edges(t, c, es).len() ==> (#[trigger] class_edges(t, c, es)[j]).from == c
                && class_edges(t, c, es)[j].to < class_count(t),
    decreases es.len(),
{
    lemma_class_leader(t);
    lemma_leaders_below(t, t.state_count, t.state_count);
    if es.len() > 0 {
        let es0 = es.drop_last();
        assert forall|j: int| 0 <= j < es0.len() implies (#[trigger] es0[j]).to < t.state_count by {
            assert(es0[j] == es[j]);
        }
        lemma_class_edges_in_range(t, c, es0);
        let e = es[es.len() - 1];
        assert(e.to < t.state_count);
        let rest = class_edges(t, c, es0);
        let r = class_edges(t, c, es);
        assert forall|j: int| 0 <= j < r.len() implies (#[trigger] r[j]).from == c && r[j].to
            < class_count(t) by {
            if j < rest.len() {
                assert(r[j] == rest[j]);
            }
        }
    }
}

/// The edges of the classes below `m` leave them for classes below the class count.
proof fn lemma_quotient_edges_in_range(t: Automaton, m: nat)
    requires
        well_formed(t),
        complete(t),
        m <= class_count(t),
    ensures
        forall|j: int|
            0 <= j < quotient_edges(t, m).len() ==> (#[trigger] quotient_edges(t, m)[j]).from < m
                && quotient_edges(t, m)[j].to < class_count(t),
    decreases m,
{
    if m > 0 {
        let m0 = (m - 1) as nat;
        lemma_quotient_edges_in_range(t, m0);
        lemma_class_edges_in_range(t, m0, t.edges);
        let a = quotient_edges(t, m0);
        let b = class_edges(t, m0, t.edges);
        assert forall|j: int| 0 <= j < (a + b).len() implies (#[trigger] (a + b)[j]).from < m
            && (a + b)[j].to < class_count(t) by {
            if j < a.len() {
                assert((a + b)[j] == a[j]);
            } else {
                assert((a + b)[j] == b[j - a.len()]);
            }
        }
    }
}

/// The accepting classes below `m` are below `m`.
proof fn lemma_accepting_classes_in_range(t: Automaton, m: nat)
    ensures
        forall|j: int|
            0 <= j < accepting_classes(t, m).len() ==> #[trigger] accepting_classes(t, m)[j] < m,
    decreases m,
{
    if m > 0 {
        lemma_accepting_classes_in_range(t, (m - 1) as nat);
        let rest = accepting_classes(t, (m - 1) as nat);
        let r = accepting_classes(t, m);
        assert forall|j: int| 0 <= j < r.len() implies #[trigger] r[j] < m by {
            if j < rest.len() {
                assert(r[j] == rest[j]);
            }
        }
    }
}

/// The automaton of classes of a complete automaton is well formed and complete.
pub proof fn lemma_quotient_well_formed(t: Automaton)
    requires
        well_formed(t),
        complete(t),
    ensures
        well_formed(quotient(t)),
        complete(quotient(t)),
{
    let q = quotient(t);
    lemma_leader(t);
    lemma_class_leader(t);
    lemma_leaders_below(t, t.state_count, t.state_count);
    lemma_quotient_edges_in_range(t, class_count(t));
    lemma_accepting_classes_in_range(t, class_count(t));
    assert forall|c: Node, i: int|
        c < q.state_count && 0 <= i < q.alphabet.len() implies #[trigger] step(q, c, q.alphabet[i])
        is Some by {
        let l = class_leader(t, c as nat);
        assert(class_of(t, l) == c);
        lemma_quotient_step(t, l, i);
    }
}

/// A state reached in `k` steps of a deterministic automaton has its class
/// reached in `k` steps of the automaton of classes.
proof fn lemma_quotient_reach(t: Automaton, k: nat, x: Node)
    requires
        well_formed(t),
        complete(t),
        deterministic(t),
        reach_within(t.edges, t.initial, k, x),
        x < t.state_count,
    ensures
        reach_within(quotient(t).edges, quotient(t).initial, k, class_of(t, x) as usize),
    decreases k,
{
    let q = quotient(t);
    if k > 0 {
        if reach_within(t.edges, t.initial, (k - 1) as nat, x) {
            lemma_quotient_reach(t, (k - 1) as nat, x);
        } else {
            let j = choose|j: int|
                0 <= j < t.edges.len() && #[trigger] t.edges[j].to == x && reach_within(
                    t.edges,
                    t.initial,
                    (k - 1) as nat,
                    t.edges[j].from,
                );
            let e = t.edges[j];
            let y = e.from;
            lemma_quotient_reach(t, (k - 1) as nat, y);
            lemma_single_choice_step(t.edges, j);
            assert(t.alphabet.contains(e.symbol));
            let i = choose|i: int| 0 <= i < t.alphabet.len() && t.alphabet[i] == e.symbol;
            lemma_quotient_step(t, y, i);
            let cy = class_of(t, y) as usize;
            let cx = class_of(t, x) as usize;
            lemma_first_target_index(q.edges, cy, e.symbol);
            let j2 = choose|j2: int|
                0 <= j2 < q.edges.len() && leaves_on(#[trigger] q.edges[j2], cy, e.symbol)
                    && q.edges[j2].to == first_target(q.edges, cy, e.symbol)->0 && (forall|l: int|
                    0 <= l < j2 ==> !leaves_on(#[trigger] q.edges[l], cy, e.symbol));
            assert(q.edges[j2].to == cx);
        }
    }
}

/// Every class of a deterministic automaton all of whose states are
/// reachable is reachable in the automaton of classes.
pub proof fn lemma_quotient_all_reachable(t: Automaton)
    requires
        well_formed(t),
        complete(t),
        deterministic(t),
        forall|x: Node| x < t.state_count ==> #[trigger] reachable(t.edges, t.initial, x),
    ensures
        forall|c: Node|
            c < quotient(t).state_count ==> #[trigger] reachable(
                quotient(t).edges,
                quotient(t).initial,
                c,
            ),
{
    lemma_class_leader(t);
    lemma_leader(t);
    assert forall|c: Node| c < quotient(t).state_count implies #[trigger] reachable(
        quotient(t).edges,
        quotient(t).initial,
        c,
    ) by {
        let l = class_leader(t, c as nat);
        assert(reachable(t.edges, t.initial, l));
        let k = choose|k: nat| reach_within(t.edges, t.initial, k, l);
        lemma_quotient_reach(t, k, l);
        assert(class_of(t, l) == c);
    }
}

/// In an automaton without two indistinguishable states, every state leads
/// its own class.
proof fn lemma_first_equivalent_self(q: Automaton, c: Node, r: nat)
    requires
        r <= c,
        forall|a: Node, b: Node|
            a < q.state_count && b < q.state_count && a != b ==> #[trigger] distinguishable(q, a, b),
        c < q.state_count,
    ensures
        first_equivalent(q, c, r) == c,
    decreases c - r,
{
    if r < c {
        assert(distinguishable(q, r as Node, c));
        lemma_first_equivalent_self(q, c, r + 1);
    }
}

/// Every state below `m` leads its class, so there are `m` leaders below `m`.
proof fn lemma_all_leaders(q: Automaton, m: nat)
    requires
        m <= q.state_count,
        q.state_count <= usize::MAX,
        forall|c: Node| c < q.state_count ==> #[trigger] leader(q, c) == c,
    ensures
        leaders_below(q, m) == m,
    decreases m,
{
    if m > 0 {
        lemma_all_leaders(q, (m - 1) as nat);
    }
}

/// Taking the edges of a class distributes over concatenation.
proof fn lemma_class_edges_concat(t: Automaton, c: nat, a: Seq<Edge>, b: Seq<Edge>)
    ensures
        class_edges(t, c, a + b) == class_edges(t, c, a) + class_edges(t, c, b),
    decreases b.len(),
{
    if b.len() == 0 {
        assert(a + b =~= a);
        assert(class_edges(t, c, a) + class_edges(t, c, b) =~= class_edges(t, c, a));
    } else {
        assert((a + b).drop_last() =~= a + b.drop_last());
        assert((a + b).last() == b.last());
        lemma_class_edges_concat(t, c, a, b.drop_last());
        let x = class_edges(t, c, a);
        let y = class_edges(t, c, b.drop_last());
        let e = b.last();
        if e.from == class_leader(t, c) {
            let e2 = Edge { from: c as usize, symbol: e.symbol, to: class_of(t, e.to) as usize };
            assert((x + y).push(e2) =~= x + y.push(e2));
        }
    }
}

/// The automaton of classes of a complete automaton has no two
/// indistinguishable states, and its own classes are its states.
pub proof fn lemma_quotient_classes(t: Automaton)
    requires
        well_formed(t),
        complete(t),
    ensures
        forall|c: Node| c < class_count(t) ==> #[trigger] leader(quotient(t), c) == c,
        forall|c: Node| c < class_count(t) ==> #[trigger] class_of(quotient(t), c) == c,
        forall|c: nat| c < class_count(t) ==> #[trigger] class_leader(quotient(t), c) == c,
        class_count(quotient(t)) == class_count(t),
{
    let q = quotient(t);
    let k = class_count(t);
    lemma_quotient_well_formed(t);
    assert forall|a: Node, b: Node| a < q.state_count && b < q.state_count && a != b implies #[trigger] distinguishable(
        q,
        a,
        b,
    ) by {
        lemma_quotient_states_distinguishable(t, a, b);
    }
    assert forall|c: Node| c < k implies #[trigger] leader(q, c) == c by {
        lemma_first_equivalent_self(q, c, 0);
    }
    lemma_all_leaders(q, k);
    assert forall|c: Node| c < k implies #[trigger] class_of(q, c) == c by {
        lemma_all_leaders(q, c as nat);
    }
    lemma_class_leader(q);
    assert forall|c: nat| c < k implies #[trigger] class_leader(q, c) == c by {
        let r = class_leader(q, c);
        lemma_all_leaders(q, r as nat);
    }
}

/// Within the automaton of classes, the edges of class `c` among those of
/// class `d` are all of them when `c == d` and none otherwise.
proof fn lemma_class_edges_of_block(t: Automaton, c: nat, d: nat, es: Seq<Edge>)
    requires
        well_formed(t),
        complete(t),
        c < class_count(t),
        d < class_count(t),
        forall|j: int| 0 <= j < es.len() ==> (#[trigger] es[j]).to < t.state_count,
    ensures
        class_edges(quotient(t), c, class_edges(t, d, es)) == (if c == d {
            class_edges(t, d, es)
        } else {
            Seq::<Edge>::empty()
        }),
    decreases es.len(),
{
    let q = quotient(t);
    lemma_quotient_classes(t);
    lemma_class_leader(t);
    lemma_leaders_below(t, t.state_count, t.state_count);
    if es.len() > 0 {
        let es0 = es.drop_last();
        assert forall|j: int| 0 <= j < es0.len() implies (#[trigger] es0[j]).to < t.state_count by {
            assert(es0[j] == es[j]);
        }
        lemma_class_edges_of_block(t, c, d, es0);
        let e = es.last();
        assert(e.to < t.state_count);
        let block0 = class_edges(t, d, es0);
        if e.from == class_leader(t, d) {
            let e2 = Edge { from: d as usize, symbol: e.symbol, to: class_of(t, e.to) as usize };
            assert(class_edges(t, d, es) == block0.push(e2));
            assert(block0.push(e2).drop_last() =~= block0);
            assert(class_of(q, e2.to) == e2.to);
            assert(class_leader(q, c) == c);
            if c == d {
                assert(class_edges(q, c, block0.push(e2)) =~= block0.push(e2));
            } else {
                assert(class_edges(q, c, block0.push(e2)) == class_edges(q, c, block0));
            }
        }
    }
}

/// Within the automaton of classes, the edges of class `c` among those of
/// the classes below `m` are those of `c` when `c < m`.
proof fn lemma_class_edges_of_quotient(t: Automaton, c: nat, m: nat)
    requires
        well_formed(t),
        complete(t),
        c < class_count(t),
        m <= class_count(t),
    ensures
        class_edges(quotient(t), c, quotient_edges(t, m)) == (if c < m {
            class_edges(t, c, t.edges)
        } else {
            Seq::<Edge>::empty()
        }),
    decreases m,
{
    if m > 0 {
        let m0 = (m - 1) as nat;
        lemma_class_edges_of_quotient(t, c, m0);
        lemma_class_edges_concat(quotient(t), c, quotient_edges(t, m0), class_edges(t, m0, t.edges));
        assert forall|j: int| 0 <= j < t.edges.len() implies (#[trigger] t.edges[j]).to
            < t.state_count by {}
        lemma_class_edges_of_block(t, c, m0, t.edges);
        if c < m0 {
            assert(class_edges(t, c, t.edges) + Seq::<Edge>::empty() =~= class_edges(t, c, t.edges));
        } else if c == m0 {
            assert(Seq::<Edge>::empty() + class_edges(t, c, t.edges) =~= class_edges(t, c, t.edges));
        } else {
            assert(Seq::<Edge>::empty() + Seq::<Edge>::empty() =~= Seq::<Edge>::empty());
        }
    } else {
        assert(class_edges(quotient(t), c, Seq::<Edge>::empty()) =~= Seq::<Edge>::empty());
    }
}

/// The edges of the classes of the automaton of classes are its own edges.
proof fn lemma_quotient_edges_fixed(t: Automaton, m: nat)
    requires
        well_formed(t),
        complete(t),
        m <= class_count(t),
    ensures
        quotient_edges(quotient(t), m) == quotient_edges(t, m),
    decreases m,
{
    if m > 0 {
        lemma_quotient_edges_fixed(t, (m - 1) as nat);
        lemma_class_edges_of_quotient(t, (m - 1) as nat, class_count(t));
    }
}

/// The accepting classes of the automaton of classes are its own accepting states.
proof fn lemma_accepting_classes_fixed(t: Automaton, m: nat)
    requires
        well_formed(t),
        complete(t),
        m <= class_count(t),
    ensures
        accepting_classes(quotient(t), m) == accepting_classes(t, m),
    decreases m,
{
    if m > 0 {
        let m0 = (m - 1) as nat;
        lemma_accepting_classes_fixed(t, m0);
        lemma_quotient_classes(t);
        lemma_leaders_below(t, t.state_count, t.state_count);
        lemma_accepting_classes(t, class_count(t), m0);
    }
}

/// In the automaton of classes, each class has exactly its own name.
proof fn lemma_member_names_fixed(t: Automaton, c: nat, m: nat)
    requires
        well_formed(t),
        complete(t),
        c < class_count(t),
        m <= class_count(t),
    ensures
        member_names(quotient(t), c, m) == (if c < m {
            seq![quotient(t).names[c as int]]
        } else {
            Seq::<Seq<char>>::empty()
        }),
    decreases m,
{
    if m > 0 {
        lemma_member_names_fixed(t, c, (m - 1) as nat);
        lemma_quotient_classes(t);
        lemma_leaders_below(t, t.state_count, t.state_count);
        if c == m - 1 {
            assert(Seq::<Seq<char>>::empty().push(quotient(t).names[c as int]) =~= seq![
                quotient(t).names[c as int],
            ]);
        }
    }
}

/// Merging the indistinguishable states of an automaton that has none
/// changes nothing: the automaton of classes is its own automaton of classes.
pub proof fn lemma_quotient_fixed(t: Automaton)
    requires
        well_formed(t),
        complete(t),
    ensures
        quotient(quotient(t)) == quotient(t),
{
    let q = quotient(t);
    let k = class_count(t);
    lemma_quotient_classes(t);
    lemma_quotient_well_formed(t);
    lemma_class_leader(t);
    lemma_leaders_below(t, t.state_count, t.state_count);
    lemma_quotient_edges_fixed(t, k);
    lemma_accepting_classes_fixed(t, k);
    let qq = quotient(q);
    assert(qq.names =~= q.names) by {
        assert forall|c: int| 0 <= c < k implies qq.names[c] == q.names[c] by {
            lemma_member_names_fixed(t, c as nat, k);
        }
    }
    assert(q.initial < k);
    assert(class_of(q, q.initial) == q.initial);
}

} // verus!
