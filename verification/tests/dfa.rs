use ce_minimizer::dfa::{dfa_to_dot, parse_dfa, DfaError, RawDfa};

const SAMPLE: &str = "#states\nq0\nq1\n#initial\nq0\n#accepting\nq1\n#alphabet\na\nb\n#transitions\nq0:a>q1\nq0:b>q0\nq1:a>q1\nq1:b>q0\n";

fn strings(v: &[&str]) -> Vec<String> {
    v.iter().map(|s| s.to_string()).collect()
}

#[test]
fn parse_reads_every_section() {
    let d = parse_dfa(SAMPLE).unwrap();
    assert_eq!(d.states, strings(&["q0", "q1"]));
    assert_eq!(d.initial, Some("q0".to_string()));
    assert_eq!(d.accepting, strings(&["q1"]));
    assert_eq!(d.alphabet, strings(&["a", "b"]));
    assert_eq!(d.transitions.len(), 4);
    assert_eq!(
        d.transitions[0],
        ("q0".to_string(), "a".to_string(), "q1".to_string())
    );
}

#[test]
fn parse_trims_lines_and_skips_blank_ones() {
    let text = "\r\n  #states \r\n\n\t q0  \r\n#initial\nq0\n#alphabet\na\n#transitions\n q0:a>q0 \n\n";
    let d = parse_dfa(text).unwrap();
    assert_eq!(d.states, strings(&["q0"]));
    assert_eq!(d.transitions, vec![("q0".to_string(), "a".to_string(), "q0".to_string())]);
}

#[test]
fn parse_keeps_spaces_inside_transitions() {
    // Declarations are trimmed, the parts of a transition are not.
    let text = "#states\nq0 \n#initial\nq0\n#alphabet\n a \n#transitions\nq0 : a >q0\n";
    let e = parse_dfa(text).unwrap_err();
    assert!(matches!(e, DfaError::UnknownSourceState(ref s) if s == "q0 "));
    let text = "#states\nq0\n#initial\nq0\n#alphabet\na\n#transitions\nq0:a> q0\n";
    let e = parse_dfa(text).unwrap_err();
    assert_eq!(e.message(), "transition to unknown state ' q0'");
}

#[test]
fn parse_splits_at_the_first_separators() {
    let text = "#states\nx\ny>z\n#initial\nx\n#alphabet\nb:c\n#transitions\nx:b:c>y>z\n";
    let d = parse_dfa(text).unwrap();
    assert_eq!(
        d.transitions,
        vec![("x".to_string(), "b:c".to_string(), "y>z".to_string())]
    );
}

#[test]
fn parse_errors() {
    let cases: Vec<(&str, &str)> = vec![
        ("#initial\na\nb\n", "one initial state allowed"),
        ("#transitions\nq0-a->q1\n", "invalid transition present"),
        ("#transitions\nq0a>q1\n", "invalid transition present"),
        ("q0\n#states\n", "uncharacterised token"),
        ("#initial\nq0\n", "no states defined"),
        ("#states\nq0\n", "no initial state defined"),
        ("#states\nq0\n#initial\nq0\n#accepting\nq9\n", "accepting state 'q9' is not a declared state"),
        ("#states\nq0\n#initial\nq0\n#alphabet\na\n#transitions\nq9:a>q0\n", "transition from unknown state 'q9'"),
        ("#states\nq0\n#initial\nq0\n#alphabet\na\n#transitions\nq0:a>q9\n", "transition to unknown state 'q9'"),
        ("#states\nq0\n#initial\nq0\n#alphabet\na\n#transitions\nq0:z>q0\n", "transition uses unknown symbol 'z'"),
    ];
    for (text, message) in cases {
        match parse_dfa(text) {
            Ok(_) => panic!("{:?} should not parse", text),
            Err(e) => assert_eq!(e.message(), message, "for {:?}", text),
        }
    }
}

#[test]
fn parse_reports_the_first_line_error() {
    let e = parse_dfa("#initial\na\nb\n#transitions\nbad\n").unwrap_err();
    assert!(matches!(e, DfaError::MultipleInitial));
    let e = parse_dfa("#states\nq0\n#initial\nq0\n#accepting\nq8\n#alphabet\na\n#transitions\nq9:a>q0\n").unwrap_err();
    assert!(matches!(e, DfaError::UnknownAcceptingState(ref s) if s == "q8"));
}

#[test]
fn parse_without_trailing_newline() {
    let d = parse_dfa("#states\nq0\n#initial\nq0").unwrap();
    assert_eq!(d.initial, Some("q0".to_string()));
}

#[test]
fn dot_of_sample() {
    let d = parse_dfa(SAMPLE).unwrap();
    let dot = dfa_to_dot(&d).unwrap();
    let expected = "digraph DFA {\n  q0 [label=\"q0\"];\n  q1 [label=\"q1\"];\n  q0 -> q1 [label=\"a\"];\n  q0 -> q0 [label=\"b\"];\n  q1 -> q1 [label=\"a\"];\n  q1 -> q0 [label=\"b\"];\n}\n";
    assert_eq!(dot, expected);
}

#[test]
fn dot_groups_and_sorts_symbols() {
    let d = RawDfa {
        states: vec!["p".to_string(), "q".to_string()],
        initial: Some("p".to_string()),
        accepting: vec![],
        alphabet: vec![],
        transitions: vec![
            ("p".to_string(), "z".to_string(), "q".to_string()),
            ("q".to_string(), "b".to_string(), "p".to_string()),
            ("p".to_string(), "ab".to_string(), "q".to_string()),
            ("p".to_string(), "a".to_string(), "q".to_string()),
            ("p".to_string(), "a".to_string(), "q".to_string()),
        ],
    };
    let dot = dfa_to_dot(&d).unwrap();
    assert_eq!(
        dot,
        "digraph DFA {\n  p [label=\"p\"];\n  q [label=\"q\"];\n  p -> q [label=\"a,a,ab,z\"];\n  q -> p [label=\"b\"];\n}\n"
    );
}

#[test]
fn dot_errors() {
    let empty = RawDfa { states: vec![], initial: None, accepting: vec![], alphabet: vec![], transitions: vec![] };
    assert_eq!(dfa_to_dot(&empty).unwrap_err().message(), "no states available");
    let no_edges = RawDfa { states: vec!["s".to_string()], initial: None, accepting: vec![], alphabet: vec![], transitions: vec![] };
    assert_eq!(dfa_to_dot(&no_edges).unwrap_err().message(), "no transitions available");
}

#[test]
fn parse_ignores_blank_lines_and_surrounding_spaces() {
    let padded = "\n  #states\t\n\n q0 \n\tq1\n \n#initial\n  q0\n#accepting\nq1  \n\n#alphabet\n a\nb \n#transitions\n\tq0:a>q1\nq0:b>q0 \n q1:a>q1\nq1:b>q0\n\n";
    let a = parse_dfa(SAMPLE).unwrap();
    let b = parse_dfa(padded).unwrap();
    assert_eq!(a.states, b.states);
    assert_eq!(a.initial, b.initial);
    assert_eq!(a.accepting, b.accepting);
    assert_eq!(a.alphabet, b.alphabet);
    assert_eq!(a.transitions, b.transitions);
}
