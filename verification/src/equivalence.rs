//! Distinguishability of states: the relation that the table-filling
//! algorithm computes, and the facts about it that minimisation rests on.
use vstd::prelude::*;
use crate::automaton::{Automaton, Node, first_target, lemma_first_target_index, leaves_on};

verus! {

/// The state reached from `p` on `a`.
pub open spec fn step(t: Automaton, p: Node, a: char) -> Option<Node> {
    first_target(t.edges, p, a)
}

/// Every edge leaves and enters one of the `state_count` states.
pub open spec fn edges_in_range(t: Automaton) -> bool {
    forall|j: int|
        0 <= j < t.edges.len() ==> (#[trigger] t.edges[j]).from < t.state_count && t.edges[j].to
            < t.state_count
}

/// Every edge, the initial state and every accepting state lie among the
/// `state_count` states, and every state has a name.
pub open spec fn well_formed(t: Automaton) -> bool {
    &&& edges_in_range(t)
    &&& t.initial < t.state_count
    &&& forall|j: int| 0 <= j < t.accepting.len() ==> #[trigger] t.accepting[j] < t.state_count
    &&& t.names.len() == t.state_count
    &&& t.state_count <= usize::MAX
}

/// Every state has a transition on every symbol of the alphabet.
pub open spec fn complete(t: Automaton) -> bool {
    forall|p: Node, i: int|
        p < t.state_count && 0 <= i < t.alphabet.len() ==> #[trigger] step(t, p, t.alphabet[i])
            is Some
}

/// Some word over the alphabet of at most `k` symbols is accepted from
/// exactly one of `p` and `q`.
pub open spec fn dist(t: Automaton, k: nat, p: Node, q: Node) -> bool
    decreases k,
{
    if k == 0 {
        t.accepting.contains(p) != t.accepting.contains(q)
    } else {
        dist(t, (k - 1) as nat, p, q) || exists|i: int|
            0 <= i < t.alphabet.len() && match (
                step(t, p, #[trigger] t.alphabet[i]),
                step(t, q, t.alphabet[i]),
            ) {
                (Some(x), Some(y)) => dist(t, (k - 1) as nat, x, y),
                _ => false,
            }
    }
}

/// Some word over the alphabet is accepted from exactly one of `p` and `q`.
pub open spec fn distinguishable(t: Automaton, p: Node, q: Node) -> bool {
    exists|k: nat| dist(t, k, p, q)
}

/// A transition of a well-formed automaton stays among its states.
pub proof fn lemma_step_in_range(t: Automaton, p: Node, a: char)
    requires
        edges_in_range(t),
    ensures
        step(t, p, a) matches Some(x) ==> x < t.state_count,
{
    lemma_first_target_index(t.edges, p, a);
    if step(t, p, a) is Some {
        let i = choose|i: int|
            0 <= i < t.edges.len() && leaves_on(#[trigger] t.edges[i], p, a) && t.edges[i].to
                == first_target(t.edges, p, a)->0 && (forall|j: int|
                0 <= j < i ==> !leaves_on(#[trigger] t.edges[j], p, a));
        assert(t.edges[i].to < t.state_count);
    }
}

/// No word tells a state apart from itself.
pub proof fn lemma_dist_irreflexive(t: Automaton, k: nat, p: Node)
    ensures
        !dist(t, k, p, p),
    decreases k,
{
    if k > 0 {
        lemma_dist_irreflexive(t, (k - 1) as nat, p);
        assert forall|i: int| 0 <= i < t.alphabet.len() implies !match (
            step(t, p, #[trigger] t.alphabet[i]),
            step(t, p, t.alphabet[i]),
        ) {
            (Some(x), Some(y)) => dist(t, (k - 1) as nat, x, y),
            _ => false,
        } by {
            if let Some(x) = step(t, p, t.alphabet[i]) {
                lemma_dist_irreflexive(t, (k - 1) as nat, x);
            }
        }
    }
}

/// Telling states apart does not depend on their order.
pub proof fn lemma_dist_symmetric(t: Automaton, k: nat, p: Node, q: Node)
    ensures
        dist(t, k, p, q) == dist(t, k, q, p),
    decreases k,
{
    if k > 0 {
        lemma_dist_symmetric(t, (k - 1) as nat, p, q);
        if dist(t, k, p, q) && !dist(t, (k - 1) as nat, p, q) {
            let i = choose|i: int|
                0 <= i < t.alphabet.len() && match (
                    step(t, p, #[trigger] t.alphabet[i]),
                    step(t, q, t.alphabet[i]),
                ) {
                    (Some(x), Some(y)) => dist(t, (k - 1) as nat, x, y),
                    _ => false,
                };
            let x = step(t, p, t.alphabet[i])->0;
            let y = step(t, q, t.alphabet[i])->0;
            lemma_dist_symmetric(t, (k - 1) as nat, x, y);
        }
        if dist(t, k, q, p) && !dist(t, (k - 1) as nat, q, p) {
            let i = choose|i: int|
                0 <= i < t.alphabet.len() && match (
                    step(t, q, #[trigger] t.alphabet[i]),
                    step(t, p, t.alphabet[i]),
                ) {
                    (Some(x), Some(y)) => dist(t, (k - 1) as nat, x, y),
                    _ => false,
                };
            let x = step(t, q, t.alphabet[i])->0;
            let y = step(t, p, t.alphabet[i])->0;
            lemma_dist_symmetric(t, (k - 1) as nat, x, y);
        }
    }
}

/// A word that tells `p` from `r` tells one of them from any third state `q`.
pub proof fn lemma_dist_triangle(t: Automaton, k: nat, p: Node, q: Node, r: Node)
    requires
        edges_in_range(t),
        complete(t),
        p < t.state_count,
        q < t.state_count,
        r < t.state_count,
    ensures
        dist(t, k, p, r) ==> dist(t, k, p, q) || dist(t, k, q, r),
    decreases k,
{
    if k > 0 {
        lemma_dist_triangle(t, (k - 1) as nat, p, q, r);
        if dist(t, k, p, r) && !dist(t, (k - 1) as nat, p, r) {
            let i = choose|i: int|
                0 <= i < t.alphabet.len() && match (
                    step(t, p, #[trigger] t.alphabet[i]),
                    step(t, r, t.alphabet[i]),
                ) {
                    (Some(x), Some(y)) => dist(t, (k - 1) as nat, x, y),
                    _ => false,
                };
            let a = t.alphabet[i];
            assert(step(t, q, a) is Some);
            let x = step(t, p, a)->0;
            let y = step(t, q, a)->0;
            let z = step(t, r, a)->0;
            lemma_step_in_range(t, p, a);
            lemma_step_in_range(t, q, a);
            lemma_step_in_range(t, r, a);
            lemma_dist_triangle(t, (k - 1) as nat, x, y, z);
        }
    }
}

/// Distinguishability is irreflexive and symmetric, and on the states of a
/// complete automaton its complement is transitive.
pub proof fn lemma_distinguishable_facts(t: Automaton)
    requires
        edges_in_range(t),
        complete(t),
    ensures
        forall|p: Node| !#[trigger] distinguishable(t, p, p),
        forall|p: Node, q: Node| #[trigger]
            distinguishable(t, p, q) == distinguishable(t, q, p),
        forall|p: Node, q: Node, r: Node|
            p < t.state_count && q < t.state_count && r < t.state_count && #[trigger]
            distinguishable(t, p, r) ==> #[trigger] distinguishable(t, p, q)
                || #[trigger] distinguishable(t, q, r),
{
    assert forall|p: Node| !#[trigger] distinguishable(t, p, p) by {
        if distinguishable(t, p, p) {
            let k = choose|k: nat| dist(t, k, p, p);
            lemma_dist_irreflexive(t, k, p);
        }
    }
    assert forall|p: Node, q: Node| #[trigger]
        distinguishable(t, p, q) == distinguishable(t, q, p) by {
        if distinguishable(t, p, q) {
            let k = choose|k: nat| dist(t, k, p, q);
            lemma_dist_symmetric(t, k, p, q);
        }
        if distinguishable(t, q, p) {
            let k = choose|k: nat| dist(t, k, q, p);
            lemma_dist_symmetric(t, k, q, p);
        }
    }
    assert forall|p: Node, q: Node, r: Node|
        p < t.state_count && q < t.state_count && r < t.state_count && #[trigger]
        distinguishable(t, p, r) implies #[trigger] distinguishable(t, p, q)
        || #[trigger] distinguishable(t, q, r) by {
        let k = choose|k: nat| dist(t, k, p, r);
        lemma_dist_triangle(t, k, p, q, r);
    }
}

/// The number of unmarked entries of a row.
pub open spec fn unmarked_in_row(row: Seq<bool>) -> nat
    decreases row.len(),
{
    if row.len() == 0 {
        0
    } else {
        unmarked_in_row(row.drop_last()) + (if row.last() {
            0nat
        } else {
            1nat
        })
    }
}

/// The number of unmarked entries of a table.
pub open spec fn unmarked(table: Seq<Vec<bool>>) -> nat
    decreases table.len(),
{
    if table.len() == 0 {
        0
    } else {
        unmarked(table.drop_last()) + unmarked_in_row(table.last()@)
    }
}

/// Marking entries of a row never adds unmarked ones, and marking one removes one.
proof fn lemma_unmarked_in_row_grows(a: Seq<bool>, b: Seq<bool>)
    requires
        a.len() == b.len(),
        forall|j: int| 0 <= j < a.len() && #[trigger] a[j] ==> b[j],
    ensures
        unmarked_in_row(b) <= unmarked_in_row(a),
        (exists|j: int| 0 <= j < a.len() && !#[trigger] a[j] && b[j]) ==> unmarked_in_row(b)
            < unmarked_in_row(a),
    decreases a.len(),
{
    if a.len() > 0 {
        let a0 = a.drop_last();
        let b0 = b.drop_last();
        assert forall|j: int| 0 <= j < a0.len() && #[trigger] a0[j] implies b0[j] by {
            assert(a[j]);
        }
        lemma_unmarked_in_row_grows(a0, b0);
        if exists|j: int| 0 <= j < a.len() && !#[trigger] a[j] && b[j] {
            let j = choose|j: int| 0 <= j < a.len() && !#[trigger] a[j] && b[j];
            if j < a.len() - 1 {
                assert(!a0[j] && b0[j]);
            }
        }
    }
}

/// Marking entries of a table never adds unmarked ones, and marking one removes one.
pub proof fn lemma_unmarked_grows(a: Seq<Vec<bool>>, b: Seq<Vec<bool>>)
    requires
        a.len() == b.len(),
        forall|i: int| 0 <= i < a.len() ==> (#[trigger] a[i])@.len() == b[i]@.len(),
        forall|i: int, j: int|
            0 <= i < a.len() && 0 <= j < a[i]@.len() && #[trigger] a[i]@[j] ==> b[i]@[j],
    ensures
        unmarked(b) <= unmarked(a),
        (exists|i: int, j: int|
            0 <= i < a.len() && 0 <= j < a[i]@.len() && !#[trigger] a[i]@[j] && b[i]@[j])
            ==> unmarked(b) < unmarked(a),
    decreases a.len(),
{
    if a.len() > 0 {
        let a0 = a.drop_last();
        let b0 = b.drop_last();
        let l = a.len() - 1;
        assert forall|j: int| 0 <= j < a[l]@.len() && #[trigger] a[l]@[j] implies b[l]@[j] by {}
        lemma_unmarked_in_row_grows(a[l]@, b[l]@);
        assert forall|i: int| 0 <= i < a0.len() implies (#[trigger] a0[i])@.len() == b0[i]@.len() by {
            assert(a0[i] == a[i]);
            assert(b0[i] == b[i]);
        }
        assert forall|i: int, j: int|
            0 <= i < a0.len() && 0 <= j < a0[i]@.len() && #[trigger] a0[i]@[j] implies b0[i]@[j] by {
            assert(a0[i] == a[i]);
            assert(b0[i] == b[i]);
        }
        lemma_unmarked_grows(a0, b0);
        if exists|i: int, j: int|
            0 <= i < a.len() && 0 <= j < a[i]@.len() && !#[trigger] a[i]@[j] && b[i]@[j] {
            let (i, j) = choose|i: int, j: int|
                0 <= i < a.len() && 0 <= j < a[i]@.len() && !#[trigger] a[i]@[j] && b[i]@[j];
            if i < l {
                assert(a0[i] == a[i]);
                assert(b0[i] == b[i]);
                assert(!a0[i]@[j] && b0[i]@[j]);
            } else {
                assert(!a[l]@[j] && b[l]@[j]);
            }
        }
    }
}

/// `table` is an `n` by `n` table.
pub open spec fn square(table: Seq<Vec<bool>>, n: nat) -> bool {
    &&& table.len() == n
    &&& forall|i: int| 0 <= i < n ==> (#[trigger] table[i])@.len() == n
}

/// Every marked pair of `table` is distinguishable.
pub open spec fn marks_sound(t: Automaton, table: Seq<Vec<bool>>) -> bool {
    forall|p: Node, q: Node|
        p < t.state_count && q < t.state_count && #[trigger] table[p as int]@[q as int]
            ==> distinguishable(t, p, q)
}

/// Every pair of states of which exactly one accepts is marked.
pub open spec fn marks_acceptance(t: Automaton, table: Seq<Vec<bool>>) -> bool {
    forall|p: Node, q: Node|
        p < t.state_count && q < t.state_count && t.accepting.contains(p)
            != t.accepting.contains(q) ==> #[trigger] table[p as int]@[q as int]
}

/// On `a`, `p` and `q` move to a pair that `table` leaves unmarked.
pub open spec fn stays_unmarked(t: Automaton, table: Seq<Vec<bool>>, p: Node, q: Node, a: char) -> bool {
    match (step(t, p, a), step(t, q, a)) {
        (Some(x), Some(y)) => !table[x as int]@[y as int],
        _ => false,
    }
}

/// An unmarked pair moves to unmarked pairs on every symbol.
pub open spec fn marks_closed(t: Automaton, table: Seq<Vec<bool>>) -> bool {
    forall|p: Node, q: Node|
        p < t.state_count && q < t.state_count && !#[trigger] table[p as int]@[q as int]
            ==> forall|i: int|
            0 <= i < t.alphabet.len() ==> #[trigger] stays_unmarked(t, table, p, q, t.alphabet[i])
}

/// A table that marks every pair of states one of which accepts and
/// the other not, and that is closed, marks every distinguishable pair.
pub proof fn lemma_closed_marks_all(t: Automaton, table: Seq<Vec<bool>>, k: nat, p: Node, q: Node)
    requires
        edges_in_range(t),
        square(table, t.state_count),
        marks_acceptance(t, table),
        marks_closed(t, table),
        p < t.state_count,
        q < t.state_count,
        dist(t, k, p, q),
    ensures
        table[p as int]@[q as int],
    decreases k,
{
    if k > 0 {
        if dist(t, (k - 1) as nat, p, q) {
            lemma_closed_marks_all(t, table, (k - 1) as nat, p, q);
        } else {
            let i = choose|i: int|
                0 <= i < t.alphabet.len() && match (
                    step(t, p, #[trigger] t.alphabet[i]),
                    step(t, q, t.alphabet[i]),
                ) {
                    (Some(x), Some(y)) => dist(t, (k - 1) as nat, x, y),
                    _ => false,
                };
            let a = t.alphabet[i];
            let x = step(t, p, a)->0;
            let y = step(t, q, a)->0;
            lemma_step_in_range(t, p, a);
            lemma_step_in_range(t, q, a);
            lemma_closed_marks_all(t, table, (k - 1) as nat, x, y);
            if !table[p as int]@[q as int] {
                assert(stays_unmarked(t, table, p, q, t.alphabet[i]));
            }
        }
    }
}

} // verus!
