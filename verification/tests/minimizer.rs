use ce_minimizer::automaton::{Edge, NamedDFA, DFA};
use ce_minimizer::minimizer::MinimizationError;

fn dfa1() -> NamedDFA {
    NamedDFA {
        dfa: DFA {
            state_count: 4,
            initial: 0,
            accepting: vec![0, 1],
            alphabet: vec!['1', '2'],
            edges: vec![
                Edge { from: 0, symbol: '2', to: 1 },
                Edge { from: 1, symbol: '2', to: 0 },
                Edge { from: 0, symbol: '1', to: 2 },
                Edge { from: 1, symbol: '1', to: 2 },
                Edge { from: 2, symbol: '1', to: 0 },
                Edge { from: 2, symbol: '2', to: 2 },
                Edge { from: 3, symbol: '1', to: 2 },
                Edge { from: 3, symbol: '2', to: 2 },
            ],
        },
        names: vec!["q0".to_string(), "q1".to_string(), "q2".to_string(), "q3".to_string()],
    }
}

fn dfa2_already_minimized() -> NamedDFA {
    NamedDFA {
        dfa: DFA {
            state_count: 3,
            initial: 0,
            accepting: vec![2],
            alphabet: vec!['0', '1', '3'],
            edges: vec![
                Edge { from: 0, symbol: '3', to: 0 },
                Edge { from: 0, symbol: '0', to: 1 },
                Edge { from: 0, symbol: '1', to: 1 },
                Edge { from: 1, symbol: '1', to: 0 },
                Edge { from: 1, symbol: '3', to: 0 },
                Edge { from: 1, symbol: '0', to: 2 },
                Edge { from: 2, symbol: '3', to: 1 },
                Edge { from: 2, symbol: '0', to: 2 },
                Edge { from: 2, symbol: '1', to: 2 },
            ],
        },
        names: vec!["q0".to_string(), "q1".to_string(), "q2".to_string()],
    }
}

fn dfa3_all_states_equivalent() -> NamedDFA {
    NamedDFA {
        dfa: DFA {
            state_count: 3,
            initial: 0,
            accepting: vec![0, 1, 2], 
            alphabet: vec!['1', '2'],
            edges: vec![
                Edge { from: 0, symbol: '1', to: 1 },
                Edge { from: 0, symbol: '2', to: 2 },
                Edge { from: 1, symbol: '1', to: 0 },
                Edge { from: 1, symbol: '2', to: 2 },
                Edge { from: 2, symbol: '1', to: 0 },
                Edge { from: 2, symbol: '2', to: 1 },
            ],
        },
        names: vec!["q0".to_string(), "q1".to_string(), "q2".to_string()],
    }
}

fn dfa4() -> NamedDFA {
    NamedDFA {
        dfa: DFA {
            state_count: 4,
            initial: 0,
            accepting: vec![1],
            alphabet: vec!['1', '2'],
            edges: vec![
                Edge { from: 0, symbol: '1', to: 1 },
                Edge { from: 0, symbol: '2', to: 2 }, // trap A
                Edge { from: 1, symbol: '1', to: 1 },
                Edge { from: 1, symbol: '2', to: 3 }, // trap B
                Edge { from: 2, symbol: '1', to: 2 },
                Edge { from: 2, symbol: '2', to: 2 },
                Edge { from: 3, symbol: '1', to: 3 },
                Edge { from: 3, symbol: '2', to: 3 },
            ],
        },
        names: vec!["q0".to_string(), "q1".to_string(), "q2".to_string(), "q3".to_string()],
    }
}

fn dfa_incomplete() -> NamedDFA {
    NamedDFA {
        dfa: DFA {
            state_count: 3,
            initial: 0,
            accepting: vec![2],
            alphabet: vec!['a', 'b'],
            edges: vec![
                Edge { from: 0, symbol: 'a', to: 1 },
                Edge { from: 0, symbol: 'b', to: 0 },
                Edge { from: 1, symbol: 'a', to: 2 },
                Edge { from: 2, symbol: 'a', to: 2 },
                Edge { from: 2, symbol: 'b', to: 2 },
            ],
        },
        names: vec!["q0".to_string(), "q1".to_string(), "q2".to_string()],
    }
}

#[test]
fn dfa1_test() {
    let dfa = dfa1().minimize().unwrap();

    assert_eq!(dfa.dfa.state_count, 2);
    assert_eq!(dfa.dfa.initial, 0);
    assert_eq!(dfa.dfa.accepting, vec![0]);
    assert_eq!(dfa.dfa.alphabet, vec!['1','2']);
    assert_eq!(dfa.dfa.edges, 
        vec![
            Edge { from: 0, symbol: '2', to: 0 },
            Edge { from: 0, symbol: '1', to: 1 },
            Edge { from: 1, symbol: '1', to: 0 },
            Edge { from: 1, symbol: '2', to: 1 }
        ]
    );       
}

#[test]
fn dfa2_test() {
    let dfa = dfa2_already_minimized().minimize().unwrap();

    assert_eq!(dfa.dfa.state_count, 3);
    assert_eq!(dfa.dfa.initial, 0);
    assert_eq!(dfa.dfa.accepting, vec![2]);
    assert_eq!(dfa.dfa.alphabet, vec!['0','1','3']);
    assert_eq!(dfa.dfa.edges, 
        vec![
            Edge { from: 0, symbol: '3', to: 0 },
            Edge { from: 0, symbol: '0', to: 1 },
            Edge { from: 0, symbol: '1', to: 1 },
            Edge { from: 1, symbol: '1', to: 0 },
            Edge { from: 1, symbol: '3', to: 0 },
            Edge { from: 1, symbol: '0', to: 2 },
            Edge { from: 2, symbol: '3', to: 1 },
            Edge { from: 2, symbol: '0', to: 2 },
            Edge { from: 2, symbol: '1', to: 2 },
        ]
    );       
}

#[test]
fn dfa3_test() {
    let dfa = dfa3_all_states_equivalent().minimize().unwrap();

    assert_eq!(dfa.dfa.state_count, 1);
    assert_eq!(dfa.dfa.initial, 0);
    assert_eq!(dfa.dfa.accepting, vec![0]);
    assert_eq!(dfa.dfa.alphabet, vec!['1','2']);
    assert_eq!(dfa.dfa.edges, 
        vec![
            Edge { from: 0, symbol: '1', to: 0 },
            Edge { from: 0, symbol: '2', to: 0 },
        ]
    );       
}

#[test]
fn dfa4_test() {
    let dfa = dfa4().minimize().unwrap();
    println!("{:#?}", dfa);

    assert_eq!(dfa.dfa.state_count, 3);
    assert_eq!(dfa.dfa.initial, 0);
    assert_eq!(dfa.dfa.accepting, vec![1]);
    assert_eq!(dfa.dfa.alphabet, vec!['1','2']);
    assert_eq!(dfa.dfa.edges, 
        vec![
            Edge { from: 0, symbol: '1', to: 1 },
            Edge { from: 0, symbol: '2', to: 2 },
            Edge { from: 1, symbol: '1', to: 1 },
            Edge { from: 1, symbol: '2', to: 2 },
            Edge { from: 2, symbol: '1', to: 2 },
            Edge { from: 2, symbol: '2', to: 2 },
        ]
    );       
}

#[test]
fn dfa_incomplete_test() {
    let result = dfa_incomplete().minimize();
    assert!(matches!(result, Err(MinimizationError::IncompleteInput)));
}

fn names(d: &NamedDFA) -> Vec<String> {
    d.names.clone()
}

/// Runs `word` from the initial state through the first matching edges.
fn accepts(d: &DFA, word: &str) -> bool {
    let mut q = d.initial;
    for c in word.chars() {
        match d.delta(q, c) {
            Some(next) => q = next,
            None => return false,
        }
    }
    d.accepting.contains(&q)
}

fn all_words(alphabet: &[char], max_len: usize) -> Vec<String> {
    let mut words = vec![String::new()];
    let mut frontier = vec![String::new()];
    for _ in 0..max_len {
        let mut next = Vec::new();
        for w in &frontier {
            for c in alphabet {
                let mut v = w.clone();
                v.push(*c);
                next.push(v);
            }
        }
        words.extend(next.iter().cloned());
        frontier = next;
    }
    words
}

#[test]
fn minimize_names_classes_by_members() {
    let d = dfa1().minimize().unwrap();
    assert_eq!(names(&d), vec!["q0,q1".to_string(), "q2".to_string()]);
    let d3 = dfa3_all_states_equivalent().minimize().unwrap();
    assert_eq!(names(&d3), vec!["q0,q1,q2".to_string()]);
}

#[test]
fn minimize_drops_unreachable_states_from_its_receiver() {
    let mut d = dfa1();
    let _ = d.minimize().unwrap();
    assert_eq!(d.dfa.state_count, 3);
    assert_eq!(d.names, vec!["q0".to_string(), "q1".to_string(), "q2".to_string()]);
    assert_eq!(d.dfa.edges.len(), 6);
    assert!(d.dfa.edges.iter().all(|e| e.from < 3 && e.to < 3));
}

#[test]
fn minimize_renumbers_reachable_states_in_order() {
    // State 0 is unreachable from the initial state 1.
    let mut d = NamedDFA {
        dfa: DFA {
            state_count: 3,
            initial: 1,
            accepting: vec![2, 0],
            alphabet: vec!['a'],
            edges: vec![
                Edge { from: 0, symbol: 'a', to: 1 },
                Edge { from: 1, symbol: 'a', to: 2 },
                Edge { from: 2, symbol: 'a', to: 1 },
            ],
        },
        names: vec!["x".to_string(), "y".to_string(), "z".to_string()],
    };
    let m = d.minimize().unwrap();
    assert_eq!(d.dfa.state_count, 2);
    assert_eq!(d.dfa.initial, 0);
    assert_eq!(d.dfa.accepting, vec![1]);
    assert_eq!(d.names, vec!["y".to_string(), "z".to_string()]);
    assert_eq!(
        d.dfa.edges,
        vec![Edge { from: 0, symbol: 'a', to: 1 }, Edge { from: 1, symbol: 'a', to: 0 }]
    );
    assert_eq!(m.dfa.state_count, 2);
    assert_eq!(m.names, vec!["y".to_string(), "z".to_string()]);
}

#[test]
fn minimize_ignores_missing_transitions_of_unreachable_states() {
    let mut d = dfa_incomplete();
    // Make the incomplete states unreachable: 0 loops on both symbols.
    d.dfa.edges = vec![
        Edge { from: 0, symbol: 'a', to: 0 },
        Edge { from: 0, symbol: 'b', to: 0 },
        Edge { from: 1, symbol: 'a', to: 2 },
    ];
    let m = d.minimize().unwrap();
    assert_eq!(m.dfa.state_count, 1);
    assert_eq!(m.dfa.accepting, Vec::<usize>::new());
}

#[test]
fn minimize_incomplete_keeps_trimmed_automaton() {
    let mut d = dfa_incomplete();
    let r = d.minimize();
    assert_eq!(r.unwrap_err(), MinimizationError::IncompleteInput);
    assert_eq!(d.dfa.state_count, 3);
}

#[test]
fn minimize_preserves_language() {
    for make in [dfa1, dfa2_already_minimized, dfa3_all_states_equivalent, dfa4] {
        let given = make();
        let m = make().minimize().unwrap();
        for w in all_words(&given.dfa.alphabet, 6) {
            assert_eq!(accepts(&m.dfa, &w), accepts(&given.dfa, &w), "word {:?}", w);
        }
    }
}

#[test]
fn minimize_is_idempotent() {
    for make in [dfa1, dfa2_already_minimized, dfa3_all_states_equivalent, dfa4] {
        let mut once = make().minimize().unwrap();
        let twice = once.minimize().unwrap();
        assert_eq!(twice.dfa.state_count, once.dfa.state_count);
        assert_eq!(twice.dfa.edges, once.dfa.edges);
        assert_eq!(twice.dfa.accepting, once.dfa.accepting);
        assert_eq!(twice.dfa.initial, once.dfa.initial);
        assert_eq!(twice.names, once.names);
    }
}

#[test]
fn minimize_result_states_are_pairwise_distinguishable() {
    // Every pair of distinct states differs on some word of length <= state_count.
    for make in [dfa1, dfa2_already_minimized, dfa4] {
        let m = make().minimize().unwrap();
        let words = all_words(&m.dfa.alphabet, m.dfa.state_count);
        for p in 0..m.dfa.state_count {
            for q in 0..m.dfa.state_count {
                if p == q {
                    continue;
                }
                let from = |s: usize, w: &str| {
                    let mut x = s;
                    for c in w.chars() {
                        x = m.dfa.delta(x, c).unwrap();
                    }
                    m.dfa.accepting.contains(&x)
                };
                assert!(words.iter().any(|w| from(p, w) != from(q, w)));
            }
        }
    }
}

#[test]
fn delta_takes_the_first_matching_edge() {
    let d = DFA {
        state_count: 3,
        initial: 0,
        accepting: vec![],
        alphabet: vec!['a'],
        edges: vec![
            Edge { from: 1, symbol: 'a', to: 0 },
            Edge { from: 0, symbol: 'a', to: 2 },
            Edge { from: 0, symbol: 'a', to: 1 },
        ],
    };
    assert_eq!(d.delta(0, 'a'), Some(2));
    assert_eq!(d.delta(1, 'a'), Some(0));
    assert_eq!(d.delta(2, 'a'), None);
    assert_eq!(d.delta(0, 'b'), None);
}

#[test]
fn minimize_with_empty_alphabet_merges_by_acceptance() {
    let mut d = NamedDFA {
        dfa: DFA {
            state_count: 3,
            initial: 0,
            accepting: vec![1],
            alphabet: vec![],
            edges: vec![
                Edge { from: 0, symbol: 'x', to: 1 },
                Edge { from: 0, symbol: 'y', to: 2 },
            ],
        },
        names: vec!["a".to_string(), "b".to_string(), "c".to_string()],
    };
    let m = d.minimize().unwrap();
    assert_eq!(m.dfa.state_count, 2);
    assert_eq!(m.names, vec!["a,c".to_string(), "b".to_string()]);
    assert_eq!(m.dfa.accepting, vec![1]);
    assert_eq!(
        m.dfa.edges,
        vec![Edge { from: 0, symbol: 'x', to: 1 }, Edge { from: 0, symbol: 'y', to: 0 }]
    );
}

#[test]
fn minimize_follows_first_edge_of_a_choice() {
    // State 0 has two edges on 'a'; the first one decides.
    let mut d = NamedDFA {
        dfa: DFA {
            state_count: 2,
            initial: 0,
            accepting: vec![0],
            alphabet: vec!['a'],
            edges: vec![
                Edge { from: 0, symbol: 'a', to: 0 },
                Edge { from: 0, symbol: 'a', to: 1 },
                Edge { from: 1, symbol: 'a', to: 1 },
            ],
        },
        names: vec!["p".to_string(), "q".to_string()],
    };
    let m = d.minimize().unwrap();
    assert_eq!(m.dfa.state_count, 2);
    assert_eq!(m.dfa.edges.len(), 3);
    assert_eq!(m.dfa.delta(0, 'a'), Some(0));
}

#[test]
fn minimize_names_missing_names_empty() {
    let mut d = NamedDFA {
        dfa: DFA {
            state_count: 2,
            initial: 0,
            accepting: vec![1],
            alphabet: vec!['a'],
            edges: vec![Edge { from: 0, symbol: 'a', to: 1 }, Edge { from: 1, symbol: 'a', to: 1 }],
        },
        names: vec!["only".to_string()],
    };
    let m = d.minimize().unwrap();
    assert_eq!(m.names, vec!["only".to_string(), "".to_string()]);
}

#[test]
fn removing_unreachable_states_twice_changes_nothing_more() {
    let mut d = NamedDFA {
        dfa: DFA {
            state_count: 4,
            initial: 2,
            accepting: vec![3, 0, 2],
            alphabet: vec!['a', 'b'],
            edges: vec![
                Edge { from: 0, symbol: 'a', to: 2 },
                Edge { from: 2, symbol: 'a', to: 3 },
                Edge { from: 3, symbol: 'b', to: 2 },
                Edge { from: 1, symbol: 'b', to: 0 },
                Edge { from: 2, symbol: 'b', to: 2 },
            ],
        },
        names: vec!["p".to_string(), "q".to_string(), "r".to_string(), "s".to_string()],
    };
    d.remove_unreachable_states();
    assert_eq!(d.dfa.state_count, 2);
    assert_eq!(d.dfa.initial, 0);
    assert_eq!(d.dfa.accepting, vec![1, 0]);
    assert_eq!(d.names, vec!["r".to_string(), "s".to_string()]);
    let once = d.clone();
    d.remove_unreachable_states();
    assert_eq!(d.dfa.state_count, once.dfa.state_count);
    assert_eq!(d.dfa.initial, once.dfa.initial);
    assert_eq!(d.dfa.accepting, once.dfa.accepting);
    assert_eq!(d.dfa.alphabet, once.dfa.alphabet);
    assert_eq!(d.dfa.edges, once.dfa.edges);
    assert_eq!(d.names, once.names);
}
