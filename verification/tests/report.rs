use ce_minimizer::report::generate_report;

#[test]
fn report_without_entries() {
    let page = generate_report(&[]);
    assert!(page.starts_with("<!DOCTYPE html>\n<html>\n<head>"));
    assert!(page.contains("body { font-family: sans-serif;"));
    assert!(page.contains("    <h1>DFA Minimization Report</h1>\n    \n    <script>\n        const dots = [];\n        \n        const viz = new Viz();"));
    assert!(page.ends_with("</body>\n</html>"));
}

#[test]
fn report_cards_and_escaped_drawings() {
    let entries = vec![
        ("a\\b".to_string(), "x`y".to_string(), 12usize, 3usize),
        ("p".to_string(), "q".to_string(), 0usize, 105usize),
    ];
    let page = generate_report(&entries);
    assert!(page.contains("<h2>Generation 0</h2>\n            <p class=\"stats\">12 states \u{2192} 3 states</p>"));
    assert!(page.contains("<h2>Generation 1</h2>\n            <p class=\"stats\">0 states \u{2192} 105 states</p>"));
    assert!(page.contains("data-index=\"1\" data-side=\"after\""));
    assert!(page.contains("dots[0] = { before: `a\\\\b`, after: `x\\`y` };\ndots[1] = { before: `p`, after: `q` };\n"));
}
