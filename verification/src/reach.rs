//! Reachable states of an automaton, and the automaton restricted to them.
use vstd::prelude::*;
use std::collections::{BTreeSet, VecDeque};
use crate::automaton::{
    Automaton, Edge, Node, accepts, deterministic, first_target, leaves_on, run,
    single_choice,
};
use crate::equivalence::well_formed;
use vstd::std_specs::iter::IteratorSpec;
use vstd::std_specs::cmp::OrdSpec;

verus! {

/// `x` is reached from `init` by following at most `k` edges.
pub open spec fn reach_within(edges: Seq<Edge>, init: Node, k: nat, x: Node) -> bool
    decreases k,
{
    if k == 0 {
        x == init
    } else {
        reach_within(edges, init, (k - 1) as nat, x) || exists|j: int|
            0 <= j < edges.len() && #[trigger] edges[j].to == x && reach_within(
                edges,
                init,
                (k - 1) as nat,
                edges[j].from,
            )
    }
}

/// `x` is reached from `init` by following edges.
pub open spec fn reachable(edges: Seq<Edge>, init: Node, x: Node) -> bool {
    exists|k: nat| reach_within(edges, init, k, x)
}

/// The states reached from `init`.
pub open spec fn reachable_set(edges: Seq<Edge>, init: Node) -> Set<Node> {
    Set::new(|x: Node| reachable(edges, init, x))
}

/// The number of reachable states smaller than `x`: the number that the
/// restricted automaton gives to `x`.
pub open spec fn rank(edges: Seq<Edge>, init: Node, x: Node) -> nat {
    reachable_set(edges, init).filter(|y: Node| y < x).len()
}

/// The reachable state whose rank is `i`.
pub open spec fn unrank(edges: Seq<Edge>, init: Node, i: int) -> Node {
    choose|x: Node| reachable(edges, init, x) && rank(edges, init, x) == i
}

/// `e` renumbered by rank.
pub open spec fn trim_edge(edges: Seq<Edge>, init: Node, e: Edge) -> Edge {
    Edge {
        from: rank(edges, init, e.from) as usize,
        symbol: e.symbol,
        to: rank(edges, init, e.to) as usize,
    }
}

/// The edges that leave reachable states, in their order, renumbered by rank.
pub open spec fn trim_edges(edges: Seq<Edge>, init: Node, es: Seq<Edge>) -> Seq<Edge>
    decreases es.len(),
{
    if es.len() == 0 {
        seq![]
    } else {
        let e = es.last();
        let rest = trim_edges(edges, init, es.drop_last());
        if reachable(edges, init, e.from) {
            rest.push(trim_edge(edges, init, e))
        } else {
            rest
        }
    }
}

/// The reachable states of `xs`, in their order, renumbered by rank.
pub open spec fn trim_nodes(edges: Seq<Edge>, init: Node, xs: Seq<Node>) -> Seq<Node>
    decreases xs.len(),
{
    if xs.len() == 0 {
        seq![]
    } else {
        let rest = trim_nodes(edges, init, xs.drop_last());
        if reachable(edges, init, xs.last()) {
            rest.push(rank(edges, init, xs.last()) as usize)
        } else {
            rest
        }
    }
}

/// `m` restricted to the states reachable from its initial state: these are
/// renumbered in increasing order, the edges that leave other states and the
/// other accepting states are dropped, and state `i` takes the name of the
/// old state it stands for (empty where `m` names fewer states).
pub open spec fn trim(m: Automaton) -> Automaton {
    let n = reachable_set(m.edges, m.initial).len();
    Automaton {
        state_count: n,
        edges: trim_edges(m.edges, m.initial, m.edges),
        initial: rank(m.edges, m.initial, m.initial) as usize,
        accepting: trim_nodes(m.edges, m.initial, m.accepting),
        alphabet: m.alphabet,
        names: Seq::new(
            n,
            |i: int|
                if unrank(m.edges, m.initial, i) < m.names.len() {
                    m.names[unrank(m.edges, m.initial, i) as int]
                } else {
                    Seq::<char>::empty()
                },
        ),
    }
}

/// A set of states that holds `init` and is closed under the edges holds
/// every reachable state.
pub proof fn lemma_closed_holds_reachable(
    edges: Seq<Edge>,
    init: Node,
    s: Set<Node>,
    k: nat,
    x: Node,
)
    requires
        s.contains(init),
        forall|j: int|
            0 <= j < edges.len() && s.contains(#[trigger] edges[j].from) ==> s.contains(
                edges[j].to,
            ),
        reach_within(edges, init, k, x),
    ensures
        s.contains(x),
    decreases k,
{
    if k > 0 {
        if reach_within(edges, init, (k - 1) as nat, x) {
            lemma_closed_holds_reachable(edges, init, s, (k - 1) as nat, x);
        } else {
            let j = choose|j: int|
                0 <= j < edges.len() && #[trigger] edges[j].to == x && reach_within(
                    edges,
                    init,
                    (k - 1) as nat,
                    edges[j].from,
                );
            lemma_closed_holds_reachable(edges, init, s, (k - 1) as nat, edges[j].from);
        }
    }
}

/// Following an edge from a reachable state reaches a reachable state.
pub proof fn lemma_reachable_step(edges: Seq<Edge>, init: Node, j: int)
    requires
        0 <= j < edges.len(),
        reachable(edges, init, edges[j].from),
    ensures
        reachable(edges, init, edges[j].to),
{
    let k = choose|k: nat| reach_within(edges, init, k, edges[j].from);
    assert(reach_within(edges, init, k + 1, edges[j].to));
}

/// The initial state is reachable.
pub proof fn lemma_initial_reachable(edges: Seq<Edge>, init: Node)
    ensures
        reachable(edges, init, init),
{
    assert(reach_within(edges, init, 0, init));
}

/// A state reached in `k` steps is the initial state or the target of an edge.
proof fn lemma_reached_is_target(edges: Seq<Edge>, init: Node, k: nat, x: Node)
    requires
        reach_within(edges, init, k, x),
    ensures
        (seq![init] + edges.map_values(|e: Edge| e.to)).contains(x),
    decreases k,
{
    let c = seq![init] + edges.map_values(|e: Edge| e.to);
    if k == 0 {
        assert(c[0] == x);
    } else if reach_within(edges, init, (k - 1) as nat, x) {
        lemma_reached_is_target(edges, init, (k - 1) as nat, x);
    } else {
        let j = choose|j: int|
            0 <= j < edges.len() && #[trigger] edges[j].to == x && reach_within(
                edges,
                init,
                (k - 1) as nat,
                edges[j].from,
            );
        assert(c[j + 1] == x);
    }
}

/// Finitely many states are reachable.
pub proof fn lemma_reachable_set_finite(edges: Seq<Edge>, init: Node)
    ensures
        reachable_set(edges, init).finite(),
{
    let c = seq![init] + edges.map_values(|e: Edge| e.to);
    c.lemma_cardinality_of_set();
    assert forall|x: Node| reachable_set(edges, init).contains(x) implies c.to_set().contains(x) by {
        let k = choose|k: nat| reach_within(edges, init, k, x);
        lemma_reached_is_target(edges, init, k, x);
    }
    vstd::set_lib::lemma_len_subset(reachable_set(edges, init), c.to_set());
}

/// Numbering the reachable states by rank keeps their order, and gives each
/// a number below their count.
pub proof fn lemma_rank_order(edges: Seq<Edge>, init: Node, x: Node, y: Node)
    requires
        reachable(edges, init, x),
        reachable(edges, init, y),
        x < y,
    ensures
        rank(edges, init, x) < rank(edges, init, y),
        rank(edges, init, y) < reachable_set(edges, init).len(),
{
    let r = reachable_set(edges, init);
    lemma_reachable_set_finite(edges, init);
    let fx = r.filter(|z: Node| z < x);
    let fy = r.filter(|z: Node| z < y);
    assert(fx.subset_of(fy.remove(x)));
    vstd::set_lib::lemma_len_subset(fy, r);
    vstd::set_lib::lemma_len_subset(fx, fy.remove(x));
    assert(fy.subset_of(r.remove(y)));
    vstd::set_lib::lemma_len_subset(fy, r.remove(y));
}

/// Restricting an automaton to its reachable states gives each of them, as
/// its new name, its own old name: the reachable state `x` becomes state
/// `rank(x)` of the restriction, which is named as `x` was. The reachable
/// states keep their order.
pub proof fn lemma_trim_keeps_names(m: Automaton, x: Node)
    requires
        reachable(m.edges, m.initial, x),
    ensures
        rank(m.edges, m.initial, x) < trim(m).state_count,
        x < m.names.len() ==> trim(m).names[rank(m.edges, m.initial, x) as int] == m.names[x as int],
        forall|y: Node|
            reachable(m.edges, m.initial, y) && x < y ==> rank(m.edges, m.initial, x) < #[trigger] rank(
                m.edges,
                m.initial,
                y,
            ),
{
    let e = m.edges;
    let i = m.initial;
    let r = reachable_set(e, i);
    lemma_reachable_set_finite(e, i);
    let fx = r.filter(|z: Node| z < x);
    assert(fx.subset_of(r.remove(x)));
    vstd::set_lib::lemma_len_subset(fx, r.remove(x));
    assert forall|y: Node| reachable(e, i, y) && x < y implies rank(e, i, x) < #[trigger] rank(
        e,
        i,
        y,
    ) by {
        lemma_rank_order(e, i, x, y);
    }
    let z = unrank(e, i, rank(e, i, x) as int);
    assert(reachable(e, i, z) && rank(e, i, z) == rank(e, i, x));
    if z < x {
        lemma_rank_order(e, i, z, x);
    } else if x < z {
        lemma_rank_order(e, i, x, z);
    }
}

/// States are ordered as std's order on integers says.
pub proof fn lemma_nodes_ordered()
    ensures
        vstd::laws_cmp::obeys_cmp::<Node>(),
        vstd::laws_cmp::obeys_cmp::<&Node>(),
{
    broadcast use vstd::laws_cmp::group_laws_cmp;
    assert(vstd::laws_cmp::obeys_cmp::<Node>());
}

/// The states reachable from `initial` over `edges`, found by a
/// breadth-first search.
pub fn reachable_states(edges: &Vec<Edge>, initial: Node) -> (r: BTreeSet<Node>)
    ensures
        forall|x: Node| r@.contains(x) <==> reachable(edges@, initial, x),
{
    broadcast use vstd::std_specs::btree::group_btree_axioms;
    proof {
        lemma_nodes_ordered();
    }
    let ghost es = edges@;
    let ghost cands = (seq![initial] + es.map_values(|e: Edge| e.to)).to_set();
    let mut visited: BTreeSet<Node> = BTreeSet::new();
    let mut queue: VecDeque<Node> = VecDeque::new();
    queue.push_back(initial);
    proof {
        lemma_initial_reachable(es, initial);
        (seq![initial] + es.map_values(|e: Edge| e.to)).lemma_cardinality_of_set();
        assert((seq![initial] + es.map_values(|e: Edge| e.to))[0] == initial);
        assert(queue@[0] == initial);
    }
    while queue.len() > 0
        invariant
            es == edges@,
            cands == (seq![initial] + es.map_values(|e: Edge| e.to)).to_set(),
            cands.finite(),
            visited@.finite(),
            visited@.subset_of(cands),
            visited@.len() <= cands.len(),
            forall|x: Node| visited@.contains(x) ==> reachable(es, initial, x),
            forall|i: int|
                0 <= i < queue@.len() ==> reachable(es, initial, #[trigger] queue@[i])
                    && cands.contains(queue@[i]),
            visited@.contains(initial) || queue@.contains(initial),
            forall|j: int|
                0 <= j < es.len() && visited@.contains(#[trigger] es[j].from) ==> visited@.contains(
                    es[j].to,
                ) || queue@.contains(es[j].to),
        decreases cands.len() - visited@.len(), queue@.len(),
    {
        let ghost q_before = queue@;
        let current = queue.pop_front().unwrap();
        let ghost q0 = queue@;
        proof {
            assert(q_before[0] == current);
            assert forall|x: Node| q_before.contains(x) && x != current implies q0.contains(x) by {
                let w = choose|w: int| 0 <= w < q_before.len() && q_before[w] == x;
                assert(q0[w - 1] == x);
            }
            assert forall|i: int| 0 <= i < q0.len() implies reachable(es, initial, #[trigger] q0[i])
                && cands.contains(q0[i]) by {
                assert(q0[i] == q_before[i + 1]);
            }
        }
        if visited.contains(&current) {
            continue;
        }
        proof {
            assert(visited@.insert(current).subset_of(cands));
            vstd::set_lib::lemma_len_subset(visited@.insert(current), cands);
        }
        visited.insert(current);
        let mut j: usize = 0;
        while j < edges.len()
            invariant
                es == edges@,
                cands == (seq![initial] + es.map_values(|e: Edge| e.to)).to_set(),
                reachable(es, initial, current),
                j <= es.len(),
                forall|x: Node| q0.contains(x) ==> queue@.contains(x),
                forall|i: int|
                    0 <= i < queue@.len() ==> reachable(es, initial, #[trigger] queue@[i])
                        && cands.contains(queue@[i]),
                forall|j2: int|
                    0 <= j2 < j && #[trigger] es[j2].from == current ==> queue@.contains(es[j2].to),
            decreases es.len() - j,
        {
            let e = edges[j];
            if e.from == current {
                let ghost qa = queue@;
                proof {
                    lemma_reachable_step(es, initial, j as int);
                    assert((seq![initial] + es.map_values(|e: Edge| e.to))[j + 1] == e.to);
                }
                queue.push_back(e.to);
                proof {
                    assert(queue@ == qa.push(e.to));
                    assert forall|x: Node| qa.contains(x) implies queue@.contains(x) by {
                        let w = choose|w: int| 0 <= w < qa.len() && qa[w] == x;
                        assert(queue@[w] == x);
                    }
                    assert(queue@[qa.len() as int] == e.to);
                }
            }
            j = j + 1;
        }
    }
    proof {
        assert forall|x: Node| reachable(es, initial, x) implies visited@.contains(x) by {
            let k = choose|k: nat| reach_within(es, initial, k, x);
            lemma_closed_holds_reachable(es, initial, visited@, k, x);
        }
    }
    visited
}

/// `s` is strictly increasing.
pub open spec fn increasing(s: Seq<Node>) -> bool {
    forall|i: int, j: int| 0 <= i < j < s.len() ==> s[i] < s[j]
}

/// In an increasing list of exactly the reachable states, the state at
/// index `i` has rank `i`, and there are as many reachable states as entries.
pub proof fn lemma_rank_of_sorted(edges: Seq<Edge>, init: Node, s: Seq<Node>, i: int)
    requires
        increasing(s),
        forall|x: Node| s.contains(x) <==> reachable(edges, init, x),
        0 <= i < s.len(),
    ensures
        rank(edges, init, s[i]) == i,
        unrank(edges, init, i) == s[i],
{
    lemma_rank_of_sorted_plain(edges, init, s, i);
    assert(s.contains(s[i]));
    assert(reachable(edges, init, s[i]));
    let x = unrank(edges, init, i);
    assert(reachable(edges, init, x) && rank(edges, init, x) == i);
    assert(s.contains(x));
    let w = choose|w: int| 0 <= w < s.len() && s[w] == x;
    lemma_rank_of_sorted_plain(edges, init, s, w);
}

/// The rank of the state at index `i` of an increasing list of exactly the
/// reachable states is `i`.
proof fn lemma_rank_of_sorted_plain(edges: Seq<Edge>, init: Node, s: Seq<Node>, i: int)
    requires
        increasing(s),
        forall|x: Node| s.contains(x) <==> reachable(edges, init, x),
        0 <= i < s.len(),
    ensures
        rank(edges, init, s[i]) == i,
{
    let f = reachable_set(edges, init).filter(|y: Node| y < s[i]);
    assert(f =~= s.take(i).to_set()) by {
        assert forall|y: Node| f.contains(y) implies s.take(i).to_set().contains(y) by {
            assert(reachable(edges, init, y));
            assert(s.contains(y));
            let w = choose|w: int| 0 <= w < s.len() && s[w] == y;
            if w >= i {
                assert(w != i);
                assert(s[i] < s[w]);
            }
            assert(s.take(i)[w] == y);
        }
        assert forall|y: Node| s.take(i).to_set().contains(y) implies f.contains(y) by {
            let w = choose|w: int| 0 <= w < i && s.take(i)[w] == y;
            assert(s[w] == y);
            assert(s.contains(y));
        }
    }
    assert(s.take(i).no_duplicates()) by {
        assert forall|a: int, b: int|
            0 <= a < s.take(i).len() && 0 <= b < s.take(i).len() && a != b implies s.take(i)[a]
            != s.take(i)[b] by {
            if a < b {
                assert(s[a] < s[b]);
            } else {
                assert(s[b] < s[a]);
            }
        }
    }
    s.take(i).unique_seq_to_set();
}

/// An increasing list of exactly the reachable states lists all of them.
pub proof fn lemma_sorted_set(edges: Seq<Edge>, init: Node, s: Seq<Node>)
    requires
        increasing(s),
        forall|x: Node| s.contains(x) <==> reachable(edges, init, x),
    ensures
        reachable_set(edges, init) == s.to_set(),
        reachable_set(edges, init).finite(),
        reachable_set(edges, init).len() == s.len(),
{
    assert(reachable_set(edges, init) =~= s.to_set());
    assert(s.no_duplicates()) by {
        assert forall|a: int, b: int| 0 <= a < s.len() && 0 <= b < s.len() && a != b implies s[a]
            != s[b] by {
            if a < b {
                assert(s[a] < s[b]);
            } else {
                assert(s[b] < s[a]);
            }
        }
    }
    s.unique_seq_to_set();
}

/// Through an increasing list of exactly the reachable states, a reachable
/// state's rank is its index there.
pub proof fn lemma_rank_index(edges: Seq<Edge>, init: Node, s: Seq<Node>)
    requires
        increasing(s),
        forall|x: Node| s.contains(x) <==> reachable(edges, init, x),
    ensures
        forall|x: Node|
            reachable(edges, init, x) ==> #[trigger] rank(edges, init, x) < s.len() && s[rank(
                edges,
                init,
                x,
            ) as int] == x,
{
    assert forall|x: Node| reachable(edges, init, x) implies #[trigger] rank(edges, init, x)
        < s.len() && s[rank(edges, init, x) as int] == x by {
        assert(s.contains(x));
        let w = choose|w: int| 0 <= w < s.len() && s[w] == x;
        lemma_rank_of_sorted(edges, init, s, w);
    }
}

/// From a reachable state, the renumbered edges lead where the given ones
/// lead, renumbered.
proof fn lemma_trim_first_target(
    edges: Seq<Edge>,
    init: Node,
    s: Seq<Node>,
    es: Seq<Edge>,
    q: Node,
    a: char,
)
    requires
        increasing(s),
        forall|x: Node| s.contains(x) <==> reachable(edges, init, x),
        s.len() <= usize::MAX,
        reachable(edges, init, q),
        forall|k: int| 0 <= k < es.len() ==> edges.contains(#[trigger] es[k]),
    ensures
        first_target(trim_edges(edges, init, es), rank(edges, init, q) as usize, a) == match first_target(
            es,
            q,
            a,
        ) {
            Some(x) => Some(rank(edges, init, x) as usize),
            None => None,
        },
        first_target(es, q, a) matches Some(x) ==> reachable(edges, init, x),
    decreases es.len(),
{
    lemma_rank_index(edges, init, s);
    if es.len() > 0 {
        let es0 = es.drop_last();
        let e = es.last();
        assert forall|k: int| 0 <= k < es0.len() implies edges.contains(#[trigger] es0[k]) by {
            assert(es0[k] == es[k]);
        }
        lemma_trim_first_target(edges, init, s, es0, q, a);
        assert(edges.contains(es[es.len() - 1]));
        let j = choose|j: int| 0 <= j < edges.len() && edges[j] == e;
        let rest = trim_edges(edges, init, es0);
        let rq = rank(edges, init, q);
        if reachable(edges, init, e.from) {
            lemma_reachable_step(edges, init, j);
            let rf = rank(edges, init, e.from);
            assert(rf == rq ==> e.from == q) by {
                if rf == rq {
                    assert(s[rf as int] == e.from);
                    assert(s[rq as int] == q);
                }
            }
            let e2 = trim_edge(edges, init, e);
            assert(trim_edges(edges, init, es) == rest.push(e2));
            assert(rest.push(e2).drop_last() =~= rest);
            assert(rest.push(e2).last() == e2);
            assert(leaves_on(e2, rq as usize, a) == leaves_on(e, q, a));
        } else {
            assert(trim_edges(edges, init, es) == rest);
            assert(e.from != q);
        }
    }
}

/// Reading a word from a reachable state of the restricted automaton ends
/// where reading it in the given automaton ends, renumbered.
pub proof fn lemma_trim_run(m: Automaton, s: Seq<Node>, q: Node, w: Seq<char>)
    requires
        increasing(s),
        forall|x: Node| s.contains(x) <==> reachable(m.edges, m.initial, x),
        s.len() <= usize::MAX,
        reachable(m.edges, m.initial, q),
    ensures
        run(trim(m), rank(m.edges, m.initial, q) as usize, w) == match run(m, q, w) {
            Some(x) => Some(rank(m.edges, m.initial, x) as usize),
            None => None,
        },
        run(m, q, w) matches Some(x) ==> reachable(m.edges, m.initial, x),
    decreases w.len(),
{
    if w.len() > 0 {
        lemma_trim_run(m, s, q, w.drop_last());
        if let Some(x) = run(m, q, w.drop_last()) {
            assert forall|k: int| 0 <= k < m.edges.len() implies m.edges.contains(
                #[trigger] m.edges[k],
            ) by {}
            lemma_trim_first_target(m.edges, m.initial, s, m.edges, x, w.last());
        }
    }
}

/// A reachable state accepts in the restricted automaton exactly when it
/// accepts in the given automaton.
proof fn lemma_trim_nodes_contains(
    edges: Seq<Edge>,
    init: Node,
    s: Seq<Node>,
    xs: Seq<Node>,
    x: Node,
)
    requires
        increasing(s),
        forall|y: Node| s.contains(y) <==> reachable(edges, init, y),
        s.len() <= usize::MAX,
        reachable(edges, init, x),
    ensures
        trim_nodes(edges, init, xs).contains(rank(edges, init, x) as usize) == xs.contains(x),
    decreases xs.len(),
{
    lemma_rank_index(edges, init, s);
    if xs.len() > 0 {
        let xs0 = xs.drop_last();
        let y = xs.last();
        lemma_trim_nodes_contains(edges, init, s, xs0, x);
        assert(xs =~= xs0.push(y));
        let rest = trim_nodes(edges, init, xs0);
        if reachable(edges, init, y) {
            let rx = rank(edges, init, x);
            let ry = rank(edges, init, y);
            assert(rx == ry ==> x == y) by {
                if rx == ry {
                    assert(s[rx as int] == x);
                    assert(s[ry as int] == y);
                }
            }
            assert(rest.push(ry as usize).contains(rx as usize) == (rest.contains(rx as usize) || rx
                == ry)) by {
                let pushed = rest.push(ry as usize);
                if pushed.contains(rx as usize) {
                    let k = choose|k: int| 0 <= k < pushed.len() && pushed[k] == rx as usize;
                    if k < rest.len() {
                        assert(rest[k] == rx as usize);
                    }
                }
                if rest.contains(rx as usize) {
                    let k = choose|k: int| 0 <= k < rest.len() && rest[k] == rx as usize;
                    assert(rest.push(ry as usize)[k] == rx as usize);
                }
                if rx == ry {
                    assert(rest.push(ry as usize)[rest.len() as int] == rx as usize);
                }
            }
            assert(xs.contains(x) == (xs0.contains(x) || x == y)) by {
                if xs.contains(x) {
                    let k = choose|k: int| 0 <= k < xs.len() && xs[k] == x;
                    if k < xs0.len() {
                        assert(xs0[k] == x);
                    }
                }
                if xs0.contains(x) {
                    let k = choose|k: int| 0 <= k < xs0.len() && xs0[k] == x;
                    assert(xs[k] == x);
                }
                if x == y {
                    assert(xs[xs.len() - 1] == x);
                }
            }
        } else {
            assert(x != y);
            assert(xs.contains(x) == xs0.contains(x)) by {
                if xs.contains(x) {
                    let k = choose|k: int| 0 <= k < xs.len() && xs[k] == x;
                    assert(k < xs0.len());
                    assert(xs0[k] == x);
                }
                if xs0.contains(x) {
                    let k = choose|k: int| 0 <= k < xs0.len() && xs0[k] == x;
                    assert(xs[k] == x);
                }
            }
        }
    }
}

/// Dropping the unreachable states keeps the language: the restricted
/// automaton accepts exactly the words the given one accepts.
pub proof fn lemma_trim_language(m: Automaton, s: Seq<Node>, w: Seq<char>)
    requires
        increasing(s),
        forall|x: Node| s.contains(x) <==> reachable(m.edges, m.initial, x),
        s.len() <= usize::MAX,
    ensures
        accepts(trim(m), w) == accepts(m, w),
{
    lemma_initial_reachable(m.edges, m.initial);
    lemma_trim_run(m, s, m.initial, w);
    if let Some(x) = run(m, m.initial, w) {
        lemma_trim_nodes_contains(m.edges, m.initial, s, m.accepting, x);
    }
}

/// `e` is the renumbered form of an edge of `es` that leaves a reachable state.
pub open spec fn renumbered_from(edges: Seq<Edge>, init: Node, es: Seq<Edge>, e: Edge) -> bool {
    exists|j: int|
        0 <= j < es.len() && reachable(edges, init, es[j].from) && e == trim_edge(
            edges,
            init,
            #[trigger] es[j],
        )
}

/// The restricted edges are exactly the renumbered edges of reachable states.
pub proof fn lemma_trim_edges_image(edges: Seq<Edge>, init: Node, es: Seq<Edge>)
    ensures
        forall|k: int|
            0 <= k < trim_edges(edges, init, es).len() ==> renumbered_from(
                edges,
                init,
                es,
                #[trigger] trim_edges(edges, init, es)[k],
            ),
        forall|j: int|
            0 <= j < es.len() && reachable(edges, init, #[trigger] es[j].from) ==> trim_edges(
                edges,
                init,
                es,
            ).contains(trim_edge(edges, init, es[j])),
    decreases es.len(),
{
    if es.len() > 0 {
        let es0 = es.drop_last();
        let e = es.last();
        lemma_trim_edges_image(edges, init, es0);
        let rest = trim_edges(edges, init, es0);
        let t = trim_edges(edges, init, es);
        assert forall|k: int| 0 <= k < t.len() implies renumbered_from(
            edges,
            init,
            es,
            #[trigger] t[k],
        ) by {
            if k < rest.len() {
                assert(t[k] == rest[k]);
                assert(renumbered_from(edges, init, es0, rest[k]));
                let j = choose|j: int|
                    0 <= j < es0.len() && reachable(edges, init, es0[j].from) && rest[k]
                        == trim_edge(edges, init, #[trigger] es0[j]);
                assert(es[j] == es0[j]);
            } else {
                assert(t[k] == trim_edge(edges, init, es[es.len() - 1]));
            }
        }
        assert forall|j: int|
            0 <= j < es.len() && reachable(edges, init, #[trigger] es[j].from) implies t.contains(
            trim_edge(edges, init, es[j]),
        ) by {
            if j < es0.len() {
                assert(es[j] == es0[j]);
                assert(rest.contains(trim_edge(edges, init, es0[j])));
                let k = choose|k: int| 0 <= k < rest.len() && rest[k] == trim_edge(edges, init, es0[j]);
                assert(t[k] == rest[k]);
            } else {
                assert(t[rest.len() as int] == trim_edge(edges, init, e));
            }
        }
    }
}

/// Renumbering keeps a single edge per state and symbol.
proof fn lemma_trim_single_choice(edges: Seq<Edge>, init: Node, s: Seq<Node>, es: Seq<Edge>)
    requires
        increasing(s),
        forall|x: Node| s.contains(x) <==> reachable(edges, init, x),
        s.len() <= usize::MAX,
        single_choice(es),
    ensures
        single_choice(trim_edges(edges, init, es)),
    decreases es.len(),
{
    lemma_rank_index(edges, init, s);
    if es.len() > 0 {
        let es0 = es.drop_last();
        let e = es.last();
        assert forall|i: int, j: int|
            0 <= i < es0.len() && 0 <= j < es0.len() && i != j && #[trigger] es0[i].from
                == #[trigger] es0[j].from implies es0[i].symbol != es0[j].symbol by {
            assert(es0[i] == es[i]);
            assert(es0[j] == es[j]);
        }
        lemma_trim_single_choice(edges, init, s, es0);
        lemma_trim_edges_image(edges, init, es0);
        let rest = trim_edges(edges, init, es0);
        if reachable(edges, init, e.from) {
            let t = rest.push(trim_edge(edges, init, e));
            assert forall|a: int, b: int|
                0 <= a < t.len() && 0 <= b < t.len() && a != b && #[trigger] t[a].from
                    == #[trigger] t[b].from implies t[a].symbol != t[b].symbol by {
                if a < rest.len() && b < rest.len() {
                    assert(t[a] == rest[a]);
                    assert(t[b] == rest[b]);
                } else {
                    let k = if a < rest.len() {
                        a
                    } else {
                        b
                    };
                    assert(t[k] == rest[k]);
                    assert(renumbered_from(edges, init, es0, rest[k]));
                    let j = choose|j: int|
                        0 <= j < es0.len() && reachable(edges, init, es0[j].from) && rest[k]
                            == trim_edge(edges, init, #[trigger] es0[j]);
                    let f = es0[j].from;
                    assert(rank(edges, init, f) < s.len());
                    assert(rank(edges, init, e.from) < s.len());
                    if t[a].symbol == t[b].symbol {
                        assert(rank(edges, init, f) == rank(edges, init, e.from));
                        assert(s[rank(edges, init, f) as int] == f);
                        assert(f == e.from);
                        assert(es[j] == es0[j]);
                        assert(es[j].from == es[es.len() - 1].from);
                    }
                }
            }
        }
    }
}

/// Renumbering keeps an automaton deterministic.
pub proof fn lemma_trim_deterministic(m: Automaton, s: Seq<Node>)
    requires
        increasing(s),
        forall|x: Node| s.contains(x) <==> reachable(m.edges, m.initial, x),
        s.len() <= usize::MAX,
        deterministic(m),
    ensures
        deterministic(trim(m)),
{
    let t = trim(m);
    lemma_trim_single_choice(m.edges, m.initial, s, m.edges);
    lemma_trim_edges_image(m.edges, m.initial, m.edges);
    assert forall|k: int| 0 <= k < t.edges.len() implies t.alphabet.contains(
        #[trigger] t.edges[k].symbol,
    ) by {
        assert(renumbered_from(m.edges, m.initial, m.edges, t.edges[k]));
        let j = choose|j: int|
            0 <= j < m.edges.len() && reachable(m.edges, m.initial, m.edges[j].from) && t.edges[k]
                == trim_edge(m.edges, m.initial, #[trigger] m.edges[j]);
        assert(m.alphabet.contains(m.edges[j].symbol));
    }
}

/// A state reached in `k` steps is reached in `k` steps after renumbering.
proof fn lemma_trim_reach(m: Automaton, s: Seq<Node>, k: nat, y: Node)
    requires
        increasing(s),
        forall|x: Node| s.contains(x) <==> reachable(m.edges, m.initial, x),
        s.len() <= usize::MAX,
        reach_within(m.edges, m.initial, k, y),
    ensures
        reach_within(trim(m).edges, trim(m).initial, k, rank(m.edges, m.initial, y) as usize),
    decreases k,
{
    let t = trim(m);
    if k > 0 {
        if reach_within(m.edges, m.initial, (k - 1) as nat, y) {
            lemma_trim_reach(m, s, (k - 1) as nat, y);
        } else {
            let j = choose|j: int|
                0 <= j < m.edges.len() && #[trigger] m.edges[j].to == y && reach_within(
                    m.edges,
                    m.initial,
                    (k - 1) as nat,
                    m.edges[j].from,
                );
            let f = m.edges[j].from;
            lemma_trim_reach(m, s, (k - 1) as nat, f);
            assert(reachable(m.edges, m.initial, f));
            lemma_trim_edges_image(m.edges, m.initial, m.edges);
            assert(t.edges.contains(trim_edge(m.edges, m.initial, m.edges[j])));
            let j2 = choose|j2: int|
                0 <= j2 < t.edges.len() && t.edges[j2] == trim_edge(m.edges, m.initial, m.edges[j]);
            assert(t.edges[j2].to == rank(m.edges, m.initial, y) as usize);
        }
    }
}

/// Every state of the restricted automaton is reachable in it.
pub proof fn lemma_trim_all_reachable(m: Automaton, s: Seq<Node>)
    requires
        increasing(s),
        forall|x: Node| s.contains(x) <==> reachable(m.edges, m.initial, x),
        s.len() <= usize::MAX,
    ensures
        forall|i: Node|
            i < trim(m).state_count ==> #[trigger] reachable(trim(m).edges, trim(m).initial, i),
{
    lemma_sorted_set(m.edges, m.initial, s);
    assert forall|i: Node| i < trim(m).state_count implies #[trigger] reachable(
        trim(m).edges,
        trim(m).initial,
        i,
    ) by {
        lemma_rank_of_sorted(m.edges, m.initial, s, i as int);
        assert(s.contains(s[i as int]));
        let k = choose|k: nat| reach_within(m.edges, m.initial, k, s[i as int]);
        lemma_trim_reach(m, s, k, s[i as int]);
    }
}

/// In a well-formed automaton, only its states are reached.
proof fn lemma_reach_in_range(q: Automaton, k: nat, x: Node)
    requires
        well_formed(q),
        reach_within(q.edges, q.initial, k, x),
    ensures
        x < q.state_count,
    decreases k,
{
    if k > 0 && !reach_within(q.edges, q.initial, (k - 1) as nat, x) {
        let j = choose|j: int|
            0 <= j < q.edges.len() && #[trigger] q.edges[j].to == x && reach_within(
                q.edges,
                q.initial,
                (k - 1) as nat,
                q.edges[j].from,
            );
    } else if k > 0 {
        lemma_reach_in_range(q, (k - 1) as nat, x);
    }
}

/// Edges between states that all keep their number are kept as they are.
proof fn lemma_trim_edges_identity(q: Automaton, es: Seq<Edge>)
    requires
        forall|x: Node| x < q.state_count ==> #[trigger] rank(q.edges, q.initial, x) == x,
        forall|x: Node| x < q.state_count ==> #[trigger] reachable(q.edges, q.initial, x),
        forall|j: int|
            0 <= j < es.len() ==> (#[trigger] es[j]).from < q.state_count && es[j].to
                < q.state_count,
    ensures
        trim_edges(q.edges, q.initial, es) == es,
    decreases es.len(),
{
    if es.len() > 0 {
        let es0 = es.drop_last();
        assert forall|j: int| 0 <= j < es0.len() implies (#[trigger] es0[j]).from < q.state_count
            && es0[j].to < q.state_count by {
            assert(es0[j] == es[j]);
        }
        lemma_trim_edges_identity(q, es0);
        let e = es.last();
        assert(e.from < q.state_count && e.to < q.state_count);
        assert(rank(q.edges, q.initial, e.from) == e.from);
        assert(rank(q.edges, q.initial, e.to) == e.to);
        assert(es0.push(e) =~= es);
    }
}

/// States that all keep their number are kept as they are.
proof fn lemma_trim_nodes_identity(q: Automaton, xs: Seq<Node>)
    requires
        forall|x: Node| x < q.state_count ==> #[trigger] rank(q.edges, q.initial, x) == x,
        forall|x: Node| x < q.state_count ==> #[trigger] reachable(q.edges, q.initial, x),
        forall|j: int| 0 <= j < xs.len() ==> #[trigger] xs[j] < q.state_count,
    ensures
        trim_nodes(q.edges, q.initial, xs) == xs,
    decreases xs.len(),
{
    if xs.len() > 0 {
        let xs0 = xs.drop_last();
        assert forall|j: int| 0 <= j < xs0.len() implies #[trigger] xs0[j] < q.state_count by {
            assert(xs0[j] == xs[j]);
        }
        lemma_trim_nodes_identity(q, xs0);
        assert(xs.last() < q.state_count);
        assert(xs0.push(xs.last()) =~= xs);
    }
}

/// A well-formed automaton all of whose states are reachable is its own
/// restriction to its reachable states.
pub proof fn lemma_trim_identity(q: Automaton)
    requires
        well_formed(q),
        forall|x: Node| x < q.state_count ==> #[trigger] reachable(q.edges, q.initial, x),
    ensures
        trim(q) == q,
{
    let n = q.state_count;
    let s = Seq::new(n, |i: int| i as usize);
    assert(increasing(s));
    assert forall|x: Node| s.contains(x) <==> reachable(q.edges, q.initial, x) by {
        if s.contains(x) {
            let i = choose|i: int| 0 <= i < s.len() && s[i] == x;
        }
        if reachable(q.edges, q.initial, x) {
            let k = choose|k: nat| reach_within(q.edges, q.initial, k, x);
            lemma_reach_in_range(q, k, x);
            assert(s[x as int] == x);
        }
    }
    lemma_sorted_set(q.edges, q.initial, s);
    assert forall|x: Node| x < n implies #[trigger] rank(q.edges, q.initial, x) == x by {
        lemma_rank_of_sorted(q.edges, q.initial, s, x as int);
    }
    lemma_trim_edges_identity(q, q.edges);
    lemma_trim_nodes_identity(q, q.accepting);
    let t = trim(q);
    assert(t.names =~= q.names) by {
        assert forall|i: int| 0 <= i < n implies t.names[i] == q.names[i] by {
            lemma_rank_of_sorted(q.edges, q.initial, s, i);
        }
    }
}


/// `a` comes before `b` in the order of their type.
spec fn ordered_before<K: Ord>(a: K, b: K) -> bool {
    a.cmp_spec(&b) is Less
}

/// The members of `s` in increasing order.
pub fn sorted_members(s: &BTreeSet<Node>) -> (r: Vec<Node>)
    ensures
        increasing(r@),
        forall|x: Node| r@.contains(x) <==> s@.contains(x),
{
    broadcast use vstd::std_specs::btree::group_btree_axioms;
    proof {
        lemma_nodes_ordered();
    }
    let ghost full = vstd::std_specs::btree::spec_btree_keys_iter(s).remaining();
    let mut r: Vec<Node> = Vec::new();
    for x in it: s.iter()
        invariant
            it.seq() == full,
            full.unref().to_set() == s@,
            r@ == full.take(it.index()).unref(),
    {
        r.push(*x);
        proof {
            assert(r@ =~= full.take(it.index() + 1).unref());
        }
    }
    proof {
        assert(r@ =~= full.unref());
        assert(vstd::std_specs::btree::increasing_seq(full));
        vstd::std_specs::btree::axiom_increasing_seq_meaning(full);
        assert forall|i: int, j: int| 0 <= i < j < r@.len() implies r@[i] < r@[j] by {
            assert(ordered_before(full[i], full[j]));
        }
    }
    r
}

} // verus!
