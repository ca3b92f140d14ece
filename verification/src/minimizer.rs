//! Minimisation of a `NamedDFA`: unreachable states are dropped, then the
//! remaining states are merged by the table-filling algorithm.
use vstd::prelude::*;
use vstd::string::*;
use std::collections::BTreeMap;
use crate::automaton::{
    Automaton, DFA, Edge, NamedDFA, Node, accepts, contains_node, deterministic, over_alphabet,
};
use crate::equivalence::{
    complete, dist, distinguishable, lemma_closed_marks_all, lemma_distinguishable_facts, lemma_dist_irreflexive,
    lemma_dist_symmetric, lemma_step_in_range, lemma_unmarked_grows, marks_acceptance,
    marks_closed, marks_sound, square, stays_unmarked, step, unmarked, well_formed, edges_in_range,
};
use crate::quotient::{
    accepting_classes, class_count, class_edges, class_leader, class_of, indistinguishable,
    is_leader, leader, leaders_below, lemma_class_leader, lemma_leader, lemma_leaders_below,
    lemma_quotient_all_reachable, lemma_quotient_fixed, lemma_quotient_language,
    lemma_quotient_states_distinguishable, lemma_quotient_well_formed, member_names, quotient,
    quotient_edges,
};
use crate::reach::{
    increasing, lemma_initial_reachable, lemma_rank_of_sorted, lemma_reachable_step,
    lemma_nodes_ordered, lemma_sorted_set, lemma_trim_keeps_names, rank, lemma_trim_all_reachable, lemma_trim_deterministic, lemma_trim_identity,
    lemma_trim_language, reachable, reachable_states, sorted_members, trim, trim_edges, trim_nodes,
};
use crate::text::join_with;

verus! {

/// Why a minimisation failed.
#[derive(Debug, Clone, Copy, PartialEq, Eq, Structural)]
pub enum MinimizationError {
    /// Some reachable state has no transition on some symbol of the alphabet.
    IncompleteInput,
}

/// Whether two states were found indistinguishable.
#[derive(PartialEq, Eq, Structural)]
enum Equivalence {
    Equivalent,
    Distinguishable,
}

/// Marks the pair `(p, q)` in `table`.
fn mark(table: &mut Vec<Vec<bool>>, p: usize, q: usize)
    requires
        p < old(table)@.len(),
        q < old(table)@[p as int]@.len(),
    ensures
        final(table)@.len() == old(table)@.len(),
        forall|i: int|
            0 <= i < old(table)@.len() && i != p ==> #[trigger] final(table)@[i] == old(table)@[i],
        final(table)@[p as int]@ == old(table)@[p as int]@.update(q as int, true),
{
    table[p][q] = true;
}

/// A pair whose successors on some symbol are distinguishable is itself
/// distinguishable, in either order.
proof fn lemma_mark_step(t: Automaton, table: Seq<Vec<bool>>, p: Node, q: Node)
    requires
        edges_in_range(t),
        square(table, t.state_count),
        marks_sound(t, table),
        exists|i: int|
            0 <= i < t.alphabet.len() && match (
                step(t, p, #[trigger] t.alphabet[i]),
                step(t, q, t.alphabet[i]),
            ) {
                (Some(x), Some(y)) => table[x as int]@[y as int],
                _ => false,
            },
    ensures
        distinguishable(t, p, q),
        distinguishable(t, q, p),
{
    let i = choose|i: int|
        0 <= i < t.alphabet.len() && match (
            step(t, p, #[trigger] t.alphabet[i]),
            step(t, q, t.alphabet[i]),
        ) {
            (Some(x), Some(y)) => table[x as int]@[y as int],
            _ => false,
        };
    let a = t.alphabet[i];
    let x = step(t, p, a)->0;
    let y = step(t, q, a)->0;
    lemma_step_in_range(t, p, a);
    lemma_step_in_range(t, q, a);
    assert(distinguishable(t, x, y));
    let k = choose|k: nat| dist(t, k, x, y);
    assert(dist(t, k + 1, p, q));
    lemma_dist_symmetric(t, k + 1, p, q);
}

/// `m` maps each state of `s` to its index there, and nothing else.
spec fn indexes(m: Map<Node, usize>, s: Seq<Node>) -> bool {
    &&& forall|x: Node| #[trigger] m.contains_key(x) <==> s.contains(x)
    &&& forall|x: Node| #[trigger] m.contains_key(x) ==> m[x] < s.len() && s[m[x] as int] == x
}

/// The map from each state of `s` to its index there.
fn index_map(s: &Vec<Node>) -> (r: BTreeMap<Node, usize>)
    requires
        increasing(s@),
    ensures
        indexes(r@, s@),
{
    broadcast use vstd::std_specs::btree::group_btree_axioms;
    proof {
        lemma_nodes_ordered();
    }
    let mut remap: BTreeMap<Node, usize> = BTreeMap::new();
    let mut i: usize = 0;
    while i < s.len()
        invariant
            i <= s@.len(),
            increasing(s@),
            indexes(remap@, s@.take(i as int)),
        decreases s@.len() - i,
    {
        let ghost before = remap@;
        remap.insert(s[i], i);
        proof {
            let t = s@.take(i + 1);
            assert(t =~= s@.take(i as int).push(s@[i as int]));
            assert forall|x: Node| #[trigger] remap@.contains_key(x) <==> t.contains(x) by {
                if t.contains(x) && x != s@[i as int] {
                    let w = choose|w: int| 0 <= w < t.len() && t[w] == x;
                    assert(s@.take(i as int)[w] == x);
                }
                if s@.take(i as int).contains(x) {
                    let w = choose|w: int| 0 <= w < i && s@.take(i as int)[w] == x;
                    assert(t[w] == x);
                }
                if x == s@[i as int] {
                    assert(t[i as int] == x);
                }
            }
            assert forall|x: Node| #[trigger] remap@.contains_key(x) implies remap@[x] < t.len()
                && t[remap@[x] as int] == x by {
                if x != s@[i as int] {
                    assert(before.contains_key(x));
                }
            }
        }
        i = i + 1;
    }
    proof {
        assert(s@.take(i as int) =~= s@);
    }
    remap
}

/// The index of `x` in the states that `remap` indexes, if it is one of them.
fn position(remap: &BTreeMap<Node, usize>, Ghost(s): Ghost<Seq<Node>>, x: Node) -> (r: Option<
    usize,
>)
    requires
        indexes(remap@, s),
    ensures
        match r {
            Some(i) => i < s.len() && s[i as int] == x,
            None => !s.contains(x),
        },
{
    broadcast use vstd::std_specs::btree::group_btree_axioms;
    proof {
        lemma_nodes_ordered();
    }
    match remap.get(&x) {
        Some(i) => Some(*i),
        None => None,
    }
}

/// The index of `x`, one of the states that `remap` indexes.
fn index_of_present(remap: &BTreeMap<Node, usize>, Ghost(s): Ghost<Seq<Node>>, x: Node) -> (r:
    usize)
    requires
        indexes(remap@, s),
        s.contains(x),
    ensures
        r < s.len(),
        s[r as int] == x,
{
    match position(remap, Ghost(s), x) {
        Some(i) => i,
        None => 0,
    }
}

impl NamedDFA {
    /// The minimal automaton for the language of this one.
    ///
    /// First this automaton drops its unreachable states (it keeps that
    /// change). Then, if every remaining state has a transition on every symbol
    /// of the alphabet, the result has one state per class of
    /// indistinguishable states: classes are numbered in the order of their
    /// smallest member, whose transitions and acceptance they take, and are
    /// named by their members' names joined with commas. Otherwise the result
    /// is `IncompleteInput`.
    pub fn minimize(&mut self) -> (r: Result<NamedDFA, MinimizationError>)
        ensures
            final(self)@ == trim(old(self)@),
            trim(final(self)@) == final(self)@,
            match r {
                Ok(d) => complete(trim(old(self)@)) && d@ == quotient(trim(old(self)@)),
                Err(e) => e == MinimizationError::IncompleteInput && !complete(trim(old(self)@)),
            },
            r matches Ok(d) ==> {
                &&& well_formed(d@)
                &&& complete(d@)
                &&& forall|w: Seq<char>|
                    over_alphabet(old(self)@, w) ==> #[trigger] accepts(d@, w) == accepts(
                        old(self)@,
                        w,
                    )
                &&& forall|c1: Node, c2: Node|
                    c1 < d@.state_count && c2 < d@.state_count && c1 != c2
                        ==> #[trigger] distinguishable(d@, c1, c2)
            },
            r matches Ok(d) ==> deterministic(old(self)@) ==> {
                &&& forall|c: Node|
                    c < d@.state_count ==> #[trigger] reachable(d@.edges, d@.initial, c)
                &&& complete(trim(d@))
                &&& quotient(trim(d@)) == d@
            },
    {
        self.remove_unreachable_states();
        let table = match self.build_equivalence_table() {
            Ok(table) => table,
            Err(e) => {
                return Err(e);
            },
        };
        let ghost t = self@;
        proof {
            lemma_leader(t);
            lemma_class_leader(t);
            lemma_leaders_below(t, t.state_count, t.state_count);
        }
        let n = self.dfa.state_count;

        // Partition the states into classes of indistinguishable states.
        let mut class: Vec<usize> = Vec::new();
        let mut i: usize = 0;
        while i < n
            invariant
                i <= n,
                class@.len() == i,
                forall|k: int| 0 <= k < i ==> #[trigger] class@[k] == usize::MAX,
            decreases n - i,
        {
            class.push(usize::MAX);
            i = i + 1;
        }
        let mut num_classes: usize = 0;
        let mut p: usize = 0;
        while p < n
            invariant
                t == self@,
                well_formed(t),
                complete(t),
                n == t.state_count,
                square(table@, n as nat),
                forall|a: Node, b: Node|
                    a < n && b < n ==> #[trigger] table@[a as int]@[b as int] == distinguishable(
                        t,
                        a,
                        b,
                    ),
                p <= n,
                class@.len() == n,
                num_classes == leaders_below(t, p as nat),
                forall|r: Node|
                    r < n ==> #[trigger] class@[r as int] == (if leader(t, r) < p {
                        class_of(t, r) as usize
                    } else {
                        usize::MAX
                    }),
            decreases n - p,
        {
            proof {
                lemma_leader(t);
                lemma_class_leader(t);
                lemma_leaders_below(t, t.state_count, t.state_count);
                lemma_leaders_below(t, p as nat, t.state_count);
                lemma_leaders_below(t, (p + 1) as nat, t.state_count);
            }
            if class[p] == usize::MAX {
                proof {
                    assert(leader(t, p) == p);
                }
                class.set(p, num_classes);
                let mut q: usize = p + 1;
                while q < n
                    invariant
                        t == self@,
                        well_formed(t),
                        complete(t),
                        n == t.state_count,
                        square(table@, n as nat),
                        forall|a: Node, b: Node|
                            a < n && b < n ==> #[trigger] table@[a as int]@[b as int]
                                == distinguishable(t, a, b),
                        p < q <= n,
                        is_leader(t, p),
                        class@.len() == n,
                        num_classes == leaders_below(t, p as nat),
                        forall|r: Node|
                            r < n ==> #[trigger] class@[r as int] == (if leader(t, r) < p || (
                            leader(t, r) == p && r < q) {
                                class_of(t, r) as usize
                            } else {
                                usize::MAX
                            }),
                    decreases n - q,
                {
                    proof {
                        lemma_leader(t);
                        lemma_class_leader(t);
                        lemma_leaders_below(t, t.state_count, t.state_count);
                    }
                    if self.equivalent(p, q, &table) == Equivalence::Equivalent {
                        proof {
                            assert(indistinguishable(t, p, q));
                            assert(leader(t, q) == leader(t, p));
                        }
                        class.set(q, num_classes);
                    } else {
                        proof {
                            if leader(t, q) == p {
                                assert(indistinguishable(t, leader(t, q), q));
                            }
                        }
                    }
                    q = q + 1;
                }
                num_classes = num_classes + 1;
            } else {
                proof {
                    if is_leader(t, p) {
                        assert(leader(t, p) == p);
                    }
                }
            }
            proof {
                assert forall|r: Node| r < n implies #[trigger] class@[r as int] == (if leader(
                    t,
                    r,
                ) < p + 1 {
                    class_of(t, r) as usize
                } else {
                    usize::MAX
                }) by {
                    if leader(t, r) == p {
                        assert(leader(t, leader(t, r)) == leader(t, r));
                    }
                }
            }
            p = p + 1;
        }

        // The smallest member of each class stands for it.
        let mut representative: Vec<usize> = Vec::new();
        let mut c: usize = 0;
        while c < num_classes
            invariant
                c <= num_classes,
                representative@.len() == c,
                forall|k: int| 0 <= k < c ==> #[trigger] representative@[k] == usize::MAX,
            decreases num_classes - c,
        {
            representative.push(usize::MAX);
            c = c + 1;
        }
        let mut p: usize = 0;
        while p < n
            invariant
                t == self@,
                well_formed(t),
                complete(t),
                n == t.state_count,
                num_classes == class_count(t),
                p <= n,
                class@.len() == n,
                forall|r: Node| r < n ==> #[trigger] class@[r as int] == class_of(t, r) as usize,
                representative@.len() == num_classes,
                forall|k: nat|
                    k < num_classes ==> #[trigger] representative@[k as int] == (if class_leader(
                        t,
                        k,
                    ) < p {
                        class_leader(t, k) as usize
                    } else {
                        usize::MAX
                    }),
            decreases n - p,
        {
            proof {
                lemma_leader(t);
                lemma_class_leader(t);
            }
            let c = class[p];
            if representative[c] == usize::MAX {
                representative.set(c, p);
            }
            proof {
                assert forall|k: nat| k < num_classes implies #[trigger] representative@[k as int]
                    == (if class_leader(t, k) < p + 1 {
                    class_leader(t, k) as usize
                } else {
                    usize::MAX
                }) by {
                    if class_leader(t, k) == p {
                        assert(is_leader(t, p));
                        assert(class_of(t, p) == k);
                    }
                }
            }
            p = p + 1;
        }

        // Each class takes the transitions of its representative.
        let mut new_edges: Vec<Edge> = Vec::new();
        let mut c: usize = 0;
        while c < num_classes
            invariant
                t == self@,
                well_formed(t),
                complete(t),
                n == t.state_count,
                num_classes == class_count(t),
                c <= num_classes,
                class@.len() == n,
                forall|r: Node| r < n ==> #[trigger] class@[r as int] == class_of(t, r) as usize,
                representative@.len() == num_classes,
                forall|k: nat|
                    k < num_classes ==> #[trigger] representative@[k as int] == class_leader(t, k) as usize,
                new_edges@ == quotient_edges(t, c as nat),
            decreases num_classes - c,
        {
            proof {
                lemma_class_leader(t);
            }
            let rep = representative[c];
            let mut j: usize = 0;
            while j < self.dfa.edges.len()
                invariant
                    t == self@,
                    well_formed(t),
                    complete(t),
                    n == t.state_count,
                    c < num_classes,
                    rep == class_leader(t, c as nat),
                    class@.len() == n,
                    forall|r: Node| r < n ==> #[trigger] class@[r as int] == class_of(t, r) as usize,
                    j <= t.edges.len(),
                    new_edges@ == quotient_edges(t, c as nat) + class_edges(
                        t,
                        c as nat,
                        t.edges.take(j as int),
                    ),
                decreases t.edges.len() - j,
            {
                let edge = self.dfa.edges[j];
                proof {
                    lemma_class_leader(t);
                    lemma_leaders_below(t, t.state_count, t.state_count);
                    assert(t.edges.take(j + 1).drop_last() =~= t.edges.take(j as int));
                    assert(t.edges.take(j + 1).last() == edge);
                    assert(t.edges[j as int] == edge);
                }
                if edge.from == rep {
                    let to = class[edge.to];
                    new_edges.push(Edge { from: c, symbol: edge.symbol, to });
                }
                j = j + 1;
            }
            proof {
                assert(t.edges.take(t.edges.len() as int) =~= t.edges);
            }
            c = c + 1;
        }

        // A class accepts when its representative does.
        let mut new_accepting: Vec<Node> = Vec::new();
        let mut c: usize = 0;
        while c < num_classes
            invariant
                t == self@,
                num_classes == class_count(t),
                c <= num_classes,
                representative@.len() == num_classes,
                forall|k: nat|
                    k < num_classes ==> #[trigger] representative@[k as int] == class_leader(t, k) as usize,
                new_accepting@ == accepting_classes(t, c as nat),
            decreases num_classes - c,
        {
            if contains_node(&self.dfa.accepting, representative[c]) {
                new_accepting.push(c);
            }
            c = c + 1;
        }

        let new_initial = class[self.dfa.initial];

        // A class is named by the names of its members.
        let mut new_names: Vec<String> = Vec::new();
        let mut c: usize = 0;
        while c < num_classes
            invariant
                t == self@,
                well_formed(t),
                complete(t),
                n == t.state_count,
                num_classes == class_count(t),
                c <= num_classes,
                class@.len() == n,
                forall|r: Node| r < n ==> #[trigger] class@[r as int] == class_of(t, r) as usize,
                new_names@.len() == c,
                forall|k: int|
                    0 <= k < c ==> (#[trigger] new_names@[k])@ == join_with(
                        member_names(t, k as nat, n as nat), ','),
            decreases num_classes - c,
        {
            let mut name = String::new();
            let mut first = true;
            let mut p: usize = 0;
            while p < n
                invariant
                    t == self@,
                    well_formed(t),
                    complete(t),
                    n == t.state_count,
                    num_classes == class_count(t),
                    c < num_classes,
                    class@.len() == n,
                    forall|r: Node| r < n ==> #[trigger] class@[r as int] == class_of(t, r) as usize,
                    p <= n,
                    name@ == join_with(member_names(t, c as nat, p as nat), ','),
                    first == (member_names(t, c as nat, p as nat).len() == 0),
                decreases n - p,
            {
                proof {
                    lemma_class_leader(t);
                    lemma_leaders_below(t, t.state_count, t.state_count);
                }
                if class[p] == c {
                    let ghost before = member_names(t, c as nat, p as nat);
                    if !first {
                        proof {
                            reveal_strlit(",");
                        }
                        name.append(",");
                    }
                    name.append(self.names[p].as_str());
                    first = false;
                    proof {
                        let after = member_names(t, c as nat, (p + 1) as nat);
                        assert(after == before.push(t.names[p as int]));
                        assert(after.drop_last() =~= before);
                        assert(t.names[p as int] == self.names@[p as int]@);
                        assert(name@ =~= join_with(after, ','));
                    }
                }
                p = p + 1;
            }
            new_names.push(name);
            c = c + 1;
        }

        let alphabet = self.dfa.alphabet.clone();
        proof {
            assert(alphabet@ =~= t.alphabet);
        }
        let result = NamedDFA {
            dfa: DFA {
                state_count: num_classes,
                edges: new_edges,
                initial: new_initial,
                accepting: new_accepting,
                alphabet,
            },
            names: new_names,
        };
        proof {
            let qt = quotient(t);
            assert(result@.names =~= qt.names);
            assert(result@.edges =~= qt.edges);
            assert(result@.accepting =~= qt.accepting);
            lemma_quotient_well_formed(t);
            assert forall|w: Seq<char>| over_alphabet(old(self)@, w) implies #[trigger] accepts(
                result@,
                w,
            ) == accepts(old(self)@, w) by {
                assert(over_alphabet(t, w));
                lemma_quotient_language(t, w);
            }
            assert forall|c1: Node, c2: Node|
                c1 < result@.state_count && c2 < result@.state_count && c1 != c2 implies #[trigger] distinguishable(
                result@,
                c1,
                c2,
            ) by {
                lemma_quotient_states_distinguishable(t, c1, c2);
            }
            if deterministic(old(self)@) {
                lemma_quotient_all_reachable(t);
                lemma_trim_identity(qt);
                lemma_quotient_fixed(t);
            }
        }
        Ok(result)
    }

    /// Whether `q0` and `q1` are indistinguishable according to `table`.
    fn equivalent(&self, q0: Node, q1: Node, table: &Vec<Vec<bool>>) -> (r: Equivalence)
        requires
            q0 < self.dfa.state_count,
            q1 < self.dfa.state_count,
            q0 < table@.len(),
            q1 < table@[q0 as int]@.len(),
        ensures
            r == (if table@[q0 as int]@[q1 as int] {
                Equivalence::Distinguishable
            } else {
                Equivalence::Equivalent
            }),
    {
        if table[q0][q1] {
            Equivalence::Distinguishable
        } else {
            Equivalence::Equivalent
        }
    }

    /// Drops the states that cannot be reached from the initial state, with
    /// their edges, acceptance and names; the others keep their order and are
    /// renumbered from zero.
    pub fn remove_unreachable_states(&mut self)
        ensures
            final(self)@ == trim(old(self)@),
            well_formed(final(self)@),
            forall|w: Seq<char>| #[trigger] accepts(final(self)@, w) == accepts(old(self)@, w),
            forall|x: Node|
                x < final(self)@.state_count ==> #[trigger] reachable(
                    final(self)@.edges,
                    final(self)@.initial,
                    x,
                ),
            deterministic(old(self)@) ==> deterministic(final(self)@),
            trim(final(self)@) == final(self)@,
            forall|x: Node|
                #[trigger] reachable(old(self)@.edges, old(self)@.initial, x) && x < old(
                    self,
                )@.names.len() ==> final(self)@.names[rank(
                    old(self)@.edges,
                    old(self)@.initial,
                    x,
                ) as int] == old(self)@.names[x as int],
    {
        let ghost m = self@;
        proof {
            assert forall|x: Node|
                #[trigger] reachable(m.edges, m.initial, x) && x < m.names.len() implies trim(
                    m,
                ).names[rank(m.edges, m.initial, x) as int] == m.names[x as int] by {
                lemma_trim_keeps_names(m, x);
            }
        }
        let reached = reachable_states(&self.dfa.edges, self.dfa.initial);
        let visited = sorted_members(&reached);
        proof {
            lemma_sorted_set(m.edges, m.initial, visited@);
        }
        let remap = index_map(&visited);
        let n = visited.len();

        let mut new_edges: Vec<Edge> = Vec::new();
        let mut j: usize = 0;
        while j < self.dfa.edges.len()
            invariant
                self@ == m,
                increasing(visited@),
                indexes(remap@, visited@),
                forall|x: Node| visited@.contains(x) <==> reachable(m.edges, m.initial, x),
                j <= m.edges.len(),
                new_edges@ == trim_edges(m.edges, m.initial, m.edges.take(j as int)),
                n == visited@.len(),
                forall|k: int|
                    0 <= k < new_edges@.len() ==> (#[trigger] new_edges@[k]).from < n
                        && new_edges@[k].to < n,
            decreases m.edges.len() - j,
        {
            let e = self.dfa.edges[j];
            proof {
                assert(m.edges.take(j + 1).drop_last() =~= m.edges.take(j as int));
                assert(m.edges.take(j + 1).last() == e);
            }
            match position(&remap, Ghost(visited@), e.from) {
                Some(f) => {
                    proof {
                        assert(visited@.contains(e.from));
                        lemma_rank_of_sorted(m.edges, m.initial, visited@, f as int);
                        lemma_reachable_step(m.edges, m.initial, j as int);
                        assert(visited@.contains(e.to));
                    }
                    let t = index_of_present(&remap, Ghost(visited@), e.to);
                    proof {
                        lemma_rank_of_sorted(m.edges, m.initial, visited@, t as int);
                    }
                    new_edges.push(Edge { from: f, symbol: e.symbol, to: t });
                },
                None => {},
            }
            j = j + 1;
        }
        proof {
            assert(m.edges.take(m.edges.len() as int) =~= m.edges);
        }

        let mut new_accepting: Vec<Node> = Vec::new();
        let mut j: usize = 0;
        while j < self.dfa.accepting.len()
            invariant
                self@ == m,
                increasing(visited@),
                indexes(remap@, visited@),
                forall|x: Node| visited@.contains(x) <==> reachable(m.edges, m.initial, x),
                j <= m.accepting.len(),
                new_accepting@ == trim_nodes(m.edges, m.initial, m.accepting.take(j as int)),
                n == visited@.len(),
                forall|k: int| 0 <= k < new_accepting@.len() ==> #[trigger] new_accepting@[k] < n,
            decreases m.accepting.len() - j,
        {
            let s = self.dfa.accepting[j];
            proof {
                assert(m.accepting.take(j + 1).drop_last() =~= m.accepting.take(j as int));
                assert(m.accepting.take(j + 1).last() == s);
            }
            match position(&remap, Ghost(visited@), s) {
                Some(f) => {
                    proof {
                        assert(visited@.contains(s));
                        lemma_rank_of_sorted(m.edges, m.initial, visited@, f as int);
                    }
                    new_accepting.push(f);
                },
                None => {},
            }
            j = j + 1;
        }
        proof {
            assert(m.accepting.take(m.accepting.len() as int) =~= m.accepting);
        }

        let mut new_names: Vec<String> = Vec::new();
        let mut k: usize = 0;
        while k < n
            invariant
                n == visited@.len(),
                k <= n,
                new_names@.len() == k,
                forall|i: int| 0 <= i < k ==> (#[trigger] new_names@[i])@ == Seq::<char>::empty(),
            decreases n - k,
        {
            new_names.push(String::new());
            k = k + 1;
        }
        let mut old_id: usize = 0;
        while old_id < self.names.len()
            invariant
                self@ == m,
                n == visited@.len(),
                increasing(visited@),
                indexes(remap@, visited@),
                old_id <= m.names.len(),
                new_names@.len() == n,
                forall|i: int|
                    0 <= i < n ==> (#[trigger] new_names@[i])@ == (if visited@[i] < old_id {
                        m.names[visited@[i] as int]
                    } else {
                        Seq::<char>::empty()
                    }),
            decreases m.names.len() - old_id,
        {
            match position(&remap, Ghost(visited@), old_id) {
                Some(new_id) => {
                    let name = self.names[old_id].clone();
                    new_names[new_id] = name;
                    proof {
                        assert forall|i: int|
                            0 <= i < n && i != new_id implies visited@[i] != old_id by {
                            if i < new_id {
                                assert(visited@[i] < visited@[new_id as int]);
                            } else {
                                assert(visited@[new_id as int] < visited@[i]);
                            }
                        }
                    }
                },
                None => {
                    proof {
                        assert forall|i: int| 0 <= i < n implies visited@[i] != old_id by {
                            assert(visited@.contains(visited@[i]));
                        }
                    }
                },
            }
            old_id = old_id + 1;
        }

        proof {
            lemma_initial_reachable(m.edges, m.initial);
        }
        let new_initial = index_of_present(&remap, Ghost(visited@), self.dfa.initial);
        proof {
            lemma_rank_of_sorted(m.edges, m.initial, visited@, new_initial as int);
        }

        self.dfa.edges = new_edges;
        self.dfa.accepting = new_accepting;
        self.names = new_names;
        self.dfa.initial = new_initial;
        self.dfa.state_count = n;

        proof {
            let t = trim(m);
            assert(self@.names =~= t.names) by {
                assert forall|i: int| 0 <= i < n implies self@.names[i] == t.names[i] by {
                    lemma_rank_of_sorted(m.edges, m.initial, visited@, i);
                }
            }
            assert(self@.edges =~= t.edges);
            assert(self@.accepting =~= t.accepting);
            assert forall|w: Seq<char>| #[trigger] accepts(self@, w) == accepts(m, w) by {
                lemma_trim_language(m, visited@, w);
            }
            lemma_trim_all_reachable(m, visited@);
            lemma_trim_identity(self@);
            if deterministic(m) {
                lemma_trim_deterministic(m, visited@);
            }
        }
    }

    /// Whether some symbol of the alphabet moves `p` and `q` to a pair that
    /// `table` marks; the symbols are tried in order, and a missing transition
    /// met before such a symbol is an error.
    fn splits(&self, table: &Vec<Vec<bool>>, p: Node, q: Node) -> (r: Result<
        bool,
        MinimizationError,
    >)
        requires
            edges_in_range(self@),
            square(table@, self@.state_count),
            p < self@.state_count,
            q < self@.state_count,
        ensures
            r matches Ok(false) ==> forall|i: int|
                0 <= i < self@.alphabet.len() ==> #[trigger] stays_unmarked(
                    self@,
                    table@,
                    p,
                    q,
                    self@.alphabet[i],
                ),
            r matches Ok(true) ==> exists|i: int|
                0 <= i < self@.alphabet.len() && match (
                    step(self@, p, #[trigger] self@.alphabet[i]),
                    step(self@, q, self@.alphabet[i]),
                ) {
                    (Some(x), Some(y)) => table@[x as int]@[y as int],
                    _ => false,
                },
            r is Err ==> !complete(self@),
    {
        let mut s: usize = 0;
        while s < self.dfa.alphabet.len()
            invariant
                edges_in_range(self@),
                square(table@, self@.state_count),
                p < self@.state_count,
                q < self@.state_count,
                s <= self@.alphabet.len(),
                forall|i: int|
                    0 <= i < s ==> #[trigger] stays_unmarked(
                        self@,
                        table@,
                        p,
                        q,
                        self@.alphabet[i],
                    ),
            decreases self@.alphabet.len() - s,
        {
            let a = self.dfa.alphabet[s];
            let dp = match self.dfa.delta(p, a) {
                Some(x) => x,
                None => {
                    proof {
                        assert(step(self@, p, self@.alphabet[s as int]) is None);
                    }
                    return Err(MinimizationError::IncompleteInput);
                },
            };
            let dq = match self.dfa.delta(q, a) {
                Some(x) => x,
                None => {
                    proof {
                        assert(step(self@, q, self@.alphabet[s as int]) is None);
                    }
                    return Err(MinimizationError::IncompleteInput);
                },
            };
            proof {
                lemma_step_in_range(self@, p, a);
                lemma_step_in_range(self@, q, a);
            }
            if table[dp][dq] {
                proof {
                    assert(self@.alphabet[s as int] == a);
                }
                return Ok(true);
            }
            proof {
                assert(stays_unmarked(self@, table@, p, q, self@.alphabet[s as int]));
            }
            s = s + 1;
        }
        Ok(false)
    }

    /// The table of distinguishable pairs of states, computed by marking the
    /// pairs of which one state accepts and the other not, then marking, until
    /// nothing changes, each pair that some symbol moves to a marked pair.
    fn build_equivalence_table(&self) -> (r: Result<Vec<Vec<bool>>, MinimizationError>)
        requires
            edges_in_range(self@),
        ensures
            match r {
                Ok(table) => {
                    &&& complete(self@)
                    &&& square(table@, self@.state_count)
                    &&& forall|p: Node, q: Node|
                        p < self@.state_count && q < self@.state_count ==> #[trigger] table@[p as int]@[q as int]
                            == distinguishable(self@, p, q)
                    &&& marks_acceptance(self@, table@)
                    &&& marks_closed(self@, table@)
                    &&& forall|p: Node| p < self@.state_count ==> !#[trigger] table@[p as int]@[p as int]
                    &&& forall|p: Node, q: Node|
                        p < self@.state_count && q < self@.state_count ==> #[trigger] table@[p as int]@[q as int]
                            == table@[q as int]@[p as int]
                    &&& forall|p: Node, q: Node, r: Node|
                        p < self@.state_count && q < self@.state_count && r < self@.state_count
                            && !#[trigger] table@[p as int]@[q as int] && !#[trigger] table@[q as int]@[r as int]
                            ==> !table@[p as int]@[r as int]
                },
                Err(_) => !complete(self@),
            },
    {
        let ghost t = self@;
        let n = self.dfa.state_count;
        let mut table: Vec<Vec<bool>> = Vec::new();
        let mut i: usize = 0;
        while i < n
            invariant
                n == t.state_count,
                i <= n,
                table@.len() == i,
                forall|k: int| 0 <= k < i ==> (#[trigger] table@[k])@.len() == n,
                forall|k: int, j: int| 0 <= k < i && 0 <= j < n ==> !(#[trigger] table@[k]@[j]),
            decreases n - i,
        {
            let mut row: Vec<bool> = Vec::new();
            let mut j: usize = 0;
            while j < n
                invariant
                    j <= n,
                    row@.len() == j,
                    forall|k: int| 0 <= k < j ==> !row@[k],
                decreases n - j,
            {
                row.push(false);
                j = j + 1;
            }
            table.push(row);
            proof {
                assert forall|k: int, j: int| 0 <= k < i + 1 && 0 <= j < n implies !(
                #[trigger] table@[k]@[j]) by {
                    if k < i {
                        assert(table@[k] == table@.drop_last()[k]);
                    }
                }
            }
            i = i + 1;
        }

        // Pairs of which exactly one state accepts.
        let mut p: usize = 0;
        while p < n
            invariant
                t == self@,
                edges_in_range(t),
                n == t.state_count,
                p <= n,
                square(table@, t.state_count),
                marks_sound(t, table@),
                forall|p2: Node, q2: Node|
                    p2 < p && q2 < n && t.accepting.contains(p2) != t.accepting.contains(q2)
                        ==> #[trigger] table@[p2 as int]@[q2 as int],
            decreases n - p,
        {
            let mut q: usize = 0;
            while q < n
                invariant
                    t == self@,
                    edges_in_range(t),
                    n == t.state_count,
                    p < n,
                    q <= n,
                    square(table@, t.state_count),
                    marks_sound(t, table@),
                    forall|p2: Node, q2: Node|
                        p2 < p && q2 < n && t.accepting.contains(p2) != t.accepting.contains(q2)
                            ==> #[trigger] table@[p2 as int]@[q2 as int],
                    forall|q2: Node|
                        q2 < q && t.accepting.contains(p) != t.accepting.contains(q2)
                            ==> #[trigger] table@[p as int]@[q2 as int],
                decreases n - q,
            {
                let p_acc = contains_node(&self.dfa.accepting, p);
                let q_acc = contains_node(&self.dfa.accepting, q);
                if p_acc != q_acc {
                    proof {
                        assert(dist(t, 0, p, q));
                        assert(dist(t, 0, q, p));
                    }
                    let ghost before = table@;
                    mark(&mut table, p, q);
                    let ghost middle = table@;
                    mark(&mut table, q, p);
                    proof {
                        assert forall|i: int, j: int|
                            0 <= i < n && 0 <= j < n && #[trigger] before[i]@[j] implies table@[i]@[j] by {
                            if i != p {
                                assert(middle[i] == before[i]);
                            }
                            if i != q {
                                assert(table@[i] == middle[i]);
                            }
                        }
                        assert forall|i: int| 0 <= i < n implies (#[trigger] table@[i])@.len() == n by {
                            if i != p {
                                assert(middle[i] == before[i]);
                            }
                            if i != q {
                                assert(table@[i] == middle[i]);
                            }
                        }
                        assert forall|i: Node, j: Node|
                            i < n && j < n && #[trigger] table@[i as int]@[j as int] implies distinguishable(t, i, j) by {
                            if i != q {
                                assert(table@[i as int] == middle[i as int]);
                            }
                            if i != p {
                                assert(middle[i as int] == before[i as int]);
                            }
                            if !before[i as int]@[j as int] {
                                if i == p && j == q {
                                } else {
                                    assert(i == q && j == p);
                                }
                            }
                        }
                    }
                }
                q = q + 1;
            }
            p = p + 1;
        }

        let mut changed = true;
        while changed
            invariant
                t == self@,
                edges_in_range(t),
                n == t.state_count,
                square(table@, t.state_count),
                marks_sound(t, table@),
                marks_acceptance(t, table@),
                !changed ==> complete(t) && marks_closed(t, table@),
            decreases unmarked(table@) + (if changed {
                1nat
            } else {
                0nat
            }),
        {
            let ghost start = table@;
            changed = false;
            let mut p: usize = 0;
            while p < n
                invariant
                    t == self@,
                    edges_in_range(t),
                    n == t.state_count,
                    p <= n,
                    square(start, t.state_count),
                    square(table@, t.state_count),
                    marks_sound(t, table@),
                    marks_acceptance(t, table@),
                    forall|i: int, j: int|
                        0 <= i < n && 0 <= j < n && #[trigger] start[i]@[j] ==> table@[i]@[j],
                    changed ==> exists|i: int, j: int|
                        0 <= i < n && 0 <= j < n && !#[trigger] start[i]@[j] && table@[i]@[j],
                    !changed ==> forall|i: int, j: int|
                        0 <= i < n && 0 <= j < n ==> #[trigger] table@[i]@[j] == start[i]@[j],
                    forall|p2: Node, i: int|
                        p2 < p && 0 <= i < t.alphabet.len() ==> #[trigger] step(t, p2, t.alphabet[i])
                            is Some,
                    !changed ==> forall|p2: Node, q2: Node|
                        p2 < p && q2 < n && !#[trigger] table@[p2 as int]@[q2 as int] ==> forall|i: int|
                            0 <= i < t.alphabet.len() ==> #[trigger] stays_unmarked(
                                t,
                                table@,
                                p2,
                                q2,
                                t.alphabet[i],
                            ),
                decreases n - p,
            {
                let mut q: usize = 0;
                while q < n
                    invariant
                        t == self@,
                        edges_in_range(t),
                        n == t.state_count,
                        p < n,
                        q <= n,
                        square(start, t.state_count),
                        square(table@, t.state_count),
                        marks_sound(t, table@),
                        marks_acceptance(t, table@),
                        forall|i: int, j: int|
                            0 <= i < n && 0 <= j < n && #[trigger] start[i]@[j] ==> table@[i]@[j],
                        changed ==> exists|i: int, j: int|
                            0 <= i < n && 0 <= j < n && !#[trigger] start[i]@[j] && table@[i]@[j],
                        !changed ==> forall|i: int, j: int|
                            0 <= i < n && 0 <= j < n ==> #[trigger] table@[i]@[j] == start[i]@[j],
                        forall|p2: Node, i: int|
                            p2 < p && 0 <= i < t.alphabet.len() ==> #[trigger] step(
                                t,
                                p2,
                                t.alphabet[i],
                            ) is Some,
                        q > p ==> forall|i: int|
                            0 <= i < t.alphabet.len() ==> #[trigger] step(t, p, t.alphabet[i])
                                is Some,
                        !changed ==> forall|p2: Node, q2: Node|
                            p2 < p && q2 < n && !#[trigger] table@[p2 as int]@[q2 as int]
                                ==> forall|i: int|
                                0 <= i < t.alphabet.len() ==> #[trigger] stays_unmarked(
                                    t,
                                    table@,
                                    p2,
                                    q2,
                                    t.alphabet[i],
                                ),
                        !changed ==> forall|q2: Node|
                            q2 < q && !#[trigger] table@[p as int]@[q2 as int] ==> forall|i: int|
                                0 <= i < t.alphabet.len() ==> #[trigger] stays_unmarked(
                                    t,
                                    table@,
                                    p,
                                    q2,
                                    t.alphabet[i],
                                ),
                    decreases n - q,
                {
                    proof {
                        if table@[p as int]@[q as int] && p == q {
                            let k = choose|k: nat| dist(t, k, p, p);
                            lemma_dist_irreflexive(t, k, p);
                        }
                    }
                    if !table[p][q] {
                        match self.splits(&table, p, q) {
                            Err(e) => {
                                return Err(e);
                            },
                            Ok(true) => {
                                proof {
                                    lemma_mark_step(t, table@, p, q);
                                    if p == q {
                                        let i = choose|i: int|
                                            0 <= i < t.alphabet.len() && match (
                                                step(t, p, #[trigger] t.alphabet[i]),
                                                step(t, q, t.alphabet[i]),
                                            ) {
                                                (Some(x), Some(y)) => table@[x as int]@[y as int],
                                                _ => false,
                                            };
                                        let x = step(t, p, t.alphabet[i])->0;
                                        lemma_step_in_range(t, p, t.alphabet[i]);
                                        let k = choose|k: nat| dist(t, k, x, x);
                                        lemma_dist_irreflexive(t, k, x);
                                    }
                                }
                                let ghost before = table@;
                                mark(&mut table, p, q);
                                let ghost middle = table@;
                                mark(&mut table, q, p);
                                changed = true;
                                proof {
                                    assert forall|i: int, j: int|
                                        0 <= i < n && 0 <= j < n && #[trigger] before[i]@[j] implies table@[i]@[j] by {
                                        if i != p {
                                            assert(middle[i] == before[i]);
                                        }
                                        if i != q {
                                            assert(table@[i] == middle[i]);
                                        }
                                    }
                                    assert forall|i: int| 0 <= i < n implies (#[trigger] table@[i])@.len() == n by {
                                        if i != p {
                                            assert(middle[i] == before[i]);
                                        }
                                        if i != q {
                                            assert(table@[i] == middle[i]);
                                        }
                                    }
                                    assert forall|i: Node, j: Node|
                                        i < n && j < n && #[trigger] table@[i as int]@[j as int] implies distinguishable(t, i, j) by {
                                        if i != q {
                                            assert(table@[i as int] == middle[i as int]);
                                        }
                                        if i != p {
                                            assert(middle[i as int] == before[i as int]);
                                        }
                                        if !before[i as int]@[j as int] {
                                            if i == p && j == q {
                                            } else {
                                                assert(i == q && j == p);
                                            }
                                        }
                                    }
                                    assert(table@[p as int]@[q as int]) by {
                                        if p != q {
                                            assert(table@[p as int] == middle[p as int]);
                                        }
                                    }
                                    assert(!start[p as int]@[q as int]);
                                }
                            },
                            Ok(false) => {
                                proof {
                                    if q == p {
                                        assert forall|i: int|
                                            0 <= i < t.alphabet.len() implies #[trigger] step(
                                            t,
                                            p,
                                            t.alphabet[i],
                                        ) is Some by {
                                            assert(stays_unmarked(t, table@, p, q, t.alphabet[i]));
                                        }
                                    }
                                }
                            },
                        }
                    }
                    q = q + 1;
                }
                p = p + 1;
            }
            proof {
                lemma_unmarked_grows(start, table@);
                if !changed {
                    lemma_unmarked_grows(table@, start);
                    assert forall|p2: Node, i: int|
                        p2 < n && 0 <= i < t.alphabet.len() implies #[trigger] step(t, p2, t.alphabet[i])
                            is Some by {}
                }
            }
        }
        proof {
            assert forall|p: Node, q: Node|
                p < n && q < n implies #[trigger] table@[p as int]@[q as int]
                    == distinguishable(t, p, q) by {
                if distinguishable(t, p, q) {
                    let k = choose|k: nat| dist(t, k, p, q);
                    lemma_closed_marks_all(t, table@, k, p, q);
                }
            }
            lemma_distinguishable_facts(t);
            assert forall|p: Node, q: Node, r: Node|
                p < n && q < n && r < n && !#[trigger] table@[p as int]@[q as int]
                    && !#[trigger] table@[q as int]@[r as int] implies !table@[p as int]@[r as int] by {
                assert(distinguishable(t, p, r) ==> distinguishable(t, p, q) || distinguishable(t, q, r));
            }
            assert forall|p: Node, q: Node| p < n && q < n implies #[trigger] table@[p as int]@[q as int]
                == table@[q as int]@[p as int] by {
                assert(distinguishable(t, p, q) == distinguishable(t, q, p));
            }
            assert forall|p: Node| p < n implies !#[trigger] table@[p as int]@[p as int] by {
                assert(!distinguishable(t, p, p));
            }
        }
        Ok(table)
    }
}

} // verus!
