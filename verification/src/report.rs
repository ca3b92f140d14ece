//! An HTML page that shows automata before and after minimisation.
use vstd::prelude::*;
use vstd::string::*;
use crate::text::string_of;

verus! {

/// The decimal digit of `d < 10`.
pub open spec fn digit(d: nat) -> char {
    if d == 0 {
        '0'
    } else if d == 1 {
        '1'
    } else if d == 2 {
        '2'
    } else if d == 3 {
        '3'
    } else if d == 4 {
        '4'
    } else if d == 5 {
        '5'
    } else if d == 6 {
        '6'
    } else if d == 7 {
        '7'
    } else if d == 8 {
        '8'
    } else {
        '9'
    }
}

/// The decimal form of `n`, as `usize`'s `Display` writes it.
pub open spec fn decimal(n: nat) -> Seq<char>
    decreases n,
{
    if n < 10 {
        seq![digit(n)]
    } else {
        decimal(n / 10).push(digit(n % 10))
    }
}

/// The decimal digit of `d`.
fn digit_char(d: usize) -> (c: char)
    requires
        d < 10,
    ensures
        c == digit(d as nat),
{
    if d == 0 {
        '0'
    } else if d == 1 {
        '1'
    } else if d == 2 {
        '2'
    } else if d == 3 {
        '3'
    } else if d == 4 {
        '4'
    } else if d == 5 {
        '5'
    } else if d == 6 {
        '6'
    } else if d == 7 {
        '7'
    } else if d == 8 {
        '8'
    } else {
        '9'
    }
}

/// Appends the decimal form of `n` to `out`.
fn push_decimal(out: &mut Vec<char>, n: usize)
    ensures
        final(out)@ == old(out)@ + decimal(n as nat),
    decreases n,
{
    if n >= 10 {
        push_decimal(out, n / 10);
    }
    out.push(digit_char(n % 10));
    proof {
        if n >= 10 {
            assert(old(out)@ + decimal(n as nat) =~= old(out)@ + decimal((n / 10) as nat) + seq![
                digit((n % 10) as nat),
            ]);
        }
        assert(out@ =~= old(out)@ + decimal(n as nat));
    }
}

/// The decimal form of `n`.
fn decimal_string(n: usize) -> (r: String)
    ensures
        r@ == decimal(n as nat),
{
    let mut digits: Vec<char> = Vec::new();
    push_decimal(&mut digits, n);
    proof {
        assert(digits@ =~= decimal(n as nat));
    }
    string_of(&digits, 0, digits.len())
}

/// A character as it stands inside a JavaScript template literal.
pub open spec fn escaped_char(c: char) -> Seq<char> {
    if c == '\\' {
        seq!['\\', '\\']
    } else if c == '`' {
        seq!['\\', '`']
    } else {
        seq![c]
    }
}

/// `s` with every backslash doubled and every backquote preceded by a backslash.
pub open spec fn escaped(s: Seq<char>) -> Seq<char>
    decreases s.len(),
{
    if s.len() == 0 {
        seq![]
    } else {
        escaped(s.drop_last()) + escaped_char(s.last())
    }
}

/// Escapes `s` for a JavaScript template literal.
fn escape(s: &String) -> (r: String)
    ensures
        r@ == escaped(s@),
{
    let cs = crate::text::chars_of(s.as_str());
    let mut out: Vec<char> = Vec::new();
    let mut i: usize = 0;
    proof {
        assert(cs@.take(0) =~= Seq::<char>::empty());
    }
    while i < cs.len()
        invariant
            cs@ == s@,
            i <= cs@.len(),
            out@ == escaped(cs@.take(i as int)),
        decreases cs@.len() - i,
    {
        let c = cs[i];
        if c == '\\' {
            out.push('\\');
            out.push('\\');
        } else if c == '`' {
            out.push('\\');
            out.push('`');
        } else {
            out.push(c);
        }
        proof {
            assert(cs@.take(i + 1).drop_last() =~= cs@.take(i as int));
            assert(cs@.take(i + 1).last() == c);
            assert(out@ =~= escaped(cs@.take(i + 1)));
        }
        i = i + 1;
    }
    proof {
        assert(cs@.take(i as int) =~= cs@);
    }
    string_of(&out, 0, out.len())
}

/// The card of entry `i`, with the state counts before and after.
pub open spec fn card(i: nat, before: nat, after: nat) -> Seq<char> {
    "\n        <div class=\"card\">\n            <h2>Generation "@ + decimal(i) + "</h2>\n            <p class=\"stats\">"@ + decimal(before) + " states \u{2192} "@ + decimal(after) + " states</p>\n            <div class=\"graphs\">\n                <div>\n                    <h3>Before</h3>\n                    <div class=\"graph\" data-index=\""@ + decimal(i) + "\" data-side=\"before\"></div>\n                </div>\n                <div>\n                    <h3>After</h3>\n                    <div class=\"graph\" data-index=\""@ + decimal(i) + "\" data-side=\"after\"></div>\n                </div>\n            </div>\n        </div>\n        "@
}

/// The script line that holds the drawings of entry `i`.
pub open spec fn dot_entry(i: nat, before: Seq<char>, after: Seq<char>) -> Seq<char> {
    "dots["@ + decimal(i) + "] = { before: `"@ + escaped(before) + "`, after: `"@ + escaped(after)
        + "` };\n"@
}

/// The cards of the entries, in order.
pub open spec fn cards_text(entries: Seq<(String, String, usize, usize)>) -> Seq<char>
    decreases entries.len(),
{
    if entries.len() == 0 {
        seq![]
    } else {
        let e = entries.last();
        cards_text(entries.drop_last()) + card((entries.len() - 1) as nat, e.2 as nat, e.3 as nat)
    }
}

/// The script lines of the entries, in order.
pub open spec fn dots_text(entries: Seq<(String, String, usize, usize)>) -> Seq<char>
    decreases entries.len(),
{
    if entries.len() == 0 {
        seq![]
    } else {
        let e = entries.last();
        dots_text(entries.drop_last()) + dot_entry((entries.len() - 1) as nat, e.0@, e.1@)
    }
}

/// The report page.
pub open spec fn report(entries: Seq<(String, String, usize, usize)>) -> Seq<char> {
    "<!DOCTYPE html>\n<html>\n<head>\n    <meta charset=\"utf-8\">\n    <title>DFA Minimization Report</title>\n    <script src=\"https://cdnjs.cloudflare.com/ajax/libs/viz.js/2.1.2/viz.js\"></script>\n    <script src=\"https://cdnjs.cloudflare.com/ajax/libs/viz.js/2.1.2/full.render.js\"></script>\n    <style>\n        body { font-family: sans-serif; padding: 2rem; background: #f5f5f5; }\n        h1 { margin-bottom: 2rem; }\n        .card { background: white; border-radius: 8px; padding: 1.5rem; margin-bottom: 2rem; box-shadow: 0 2px 6px rgba(0,0,0,0.1); }\n        .stats { color: #666; font-size: 0.95rem; margin-bottom: 1rem; }\n        .graphs { display: flex; gap: 2rem; }\n        .graphs > div { flex: 1; }\n        .graph svg { width: 100%; height: auto; }\n        h2 { margin-top: 0; }\n        h3 { color: #444; }\n    </style>\n</head>\n<body>\n    <h1>DFA Minimization Report</h1>\n    "@ + cards_text(entries) + "\n    <script>\n        const dots = [];\n        "@ + dots_text(entries) + "\n        const viz = new Viz();\n        document.querySelectorAll('.graph').forEach(el => {\n            const i = el.dataset.index;\n            const side = el.dataset.side;\n            const dot = dots[i][side];\n            viz.renderSVGElement(dot)\n               .then(svg => el.appendChild(svg))\n               .catch(err => { el.innerText = 'Render error: ' + err; console.error(dot); });\n        });\n    </script>\n</body>\n</html>"@
}

/// `page` holds `part` as a contiguous piece.
pub open spec fn holds_text(page: Seq<char>, part: Seq<char>) -> bool {
    exists|x: Seq<char>, y: Seq<char>| page == x + part + y
}

/// The graph of entry `i` under the `Before` heading: it draws the automaton
/// before minimisation.
pub open spec fn before_graph(i: nat) -> Seq<char> {
    "<h3>Before</h3>\n                    <div class=\"graph\" data-index=\""@ + decimal(i)
        + "\" data-side=\"before\"></div>"@
}

/// The graph of entry `i` under the `After` heading: it draws the automaton
/// after minimisation.
pub open spec fn after_graph(i: nat) -> Seq<char> {
    "<h3>After</h3>\n                    <div class=\"graph\" data-index=\""@ + decimal(i)
        + "\" data-side=\"after\"></div>"@
}

/// A piece between two others is held.
proof fn lemma_holds_middle(x: Seq<char>, part: Seq<char>, y: Seq<char>)
    ensures
        holds_text(x + part + y, part),
{
}

/// The card of entry `i` shows, under its `Before` heading, the drawing
/// before minimisation of entry `i`, and under its `After` heading the one
/// after.
proof fn lemma_card_graphs(i: nat, before: nat, after: nat)
    ensures
        holds_text(card(i, before, after), before_graph(i)),
        holds_text(card(i, before, after), after_graph(i)),
{
    let l1 = "\n        <div class=\"card\">\n            <h2>Generation "@;
    let l2 = "</h2>\n            <p class=\"stats\">"@;
    let l3 = " states \u{2192} "@;
    let l4 = " states</p>\n            <div class=\"graphs\">\n                <div>\n                    <h3>Before</h3>\n                    <div class=\"graph\" data-index=\""@;
    let l5 = "\" data-side=\"before\"></div>\n                </div>\n                <div>\n                    <h3>After</h3>\n                    <div class=\"graph\" data-index=\""@;
    let l6 = "\" data-side=\"after\"></div>\n                </div>\n            </div>\n        </div>\n        "@;
    let a4 = " states</p>\n            <div class=\"graphs\">\n                <div>\n                    "@;
    let p = "<h3>Before</h3>\n                    <div class=\"graph\" data-index=\""@;
    let q = "\" data-side=\"before\"></div>"@;
    let m5 = "\n                </div>\n                <div>\n                    "@;
    let p2 = "<h3>After</h3>\n                    <div class=\"graph\" data-index=\""@;
    let q2 = "\" data-side=\"after\"></div>"@;
    let r6 = "\n                </div>\n            </div>\n        </div>\n        "@;
    reveal_strlit(" states</p>\n            <div class=\"graphs\">\n                <div>\n                    <h3>Before</h3>\n                    <div class=\"graph\" data-index=\"");
    reveal_strlit("\" data-side=\"before\"></div>\n                </div>\n                <div>\n                    <h3>After</h3>\n                    <div class=\"graph\" data-index=\"");
    reveal_strlit("\" data-side=\"after\"></div>\n                </div>\n            </div>\n        </div>\n        ");
    reveal_strlit(" states</p>\n            <div class=\"graphs\">\n                <div>\n                    ");
    reveal_strlit("<h3>Before</h3>\n                    <div class=\"graph\" data-index=\"");
    reveal_strlit("\" data-side=\"before\"></div>");
    reveal_strlit("\n                </div>\n                <div>\n                    ");
    reveal_strlit("<h3>After</h3>\n                    <div class=\"graph\" data-index=\"");
    reveal_strlit("\" data-side=\"after\"></div>");
    reveal_strlit("\n                </div>\n            </div>\n        </div>\n        ");
    assert(l4 =~= a4 + p);
    assert(l5 =~= q + m5 + p2);
    assert(l6 =~= q2 + r6);
    let d = decimal(i);
    let head = l1 + d + l2 + decimal(before) + l3 + decimal(after);
    assert(card(i, before, after) == head + l4 + d + l5 + d + l6);
    assert(card(i, before, after) =~= (head + a4) + before_graph(i) + (m5 + p2 + d + l6));
    assert(card(i, before, after) =~= (head + a4 + p + d + q + m5) + after_graph(i) + r6);
}

/// The cards of the entries hold the card of each entry.
proof fn lemma_cards_hold(entries: Seq<(String, String, usize, usize)>, i: int)
    requires
        0 <= i < entries.len(),
    ensures
        holds_text(cards_text(entries), card(i as nat, entries[i].2 as nat, entries[i].3 as nat)),
    decreases entries.len(),
{
    let e0 = entries.drop_last();
    let c = card(i as nat, entries[i].2 as nat, entries[i].3 as nat);
    if i == entries.len() - 1 {
        assert(cards_text(entries) =~= cards_text(e0) + c + Seq::<char>::empty());
    } else {
        lemma_cards_hold(e0, i);
        assert(e0[i] == entries[i]);
        let (x, y) = choose|x: Seq<char>, y: Seq<char>| cards_text(e0) == x + c + y;
        let last = card((entries.len() - 1) as nat, entries.last().2 as nat, entries.last().3 as nat);
        assert(cards_text(entries) =~= x + c + (y + last));
    }
}

/// For each entry `i`, the page shows under the `Before` heading of its card
/// the graph of entry `i` drawn before minimisation, and under the `After`
/// heading the graph drawn after it.
pub proof fn lemma_report_shows_both_sides(entries: Seq<(String, String, usize, usize)>, i: int)
    requires
        0 <= i < entries.len(),
    ensures
        holds_text(report(entries), before_graph(i as nat)),
        holds_text(report(entries), after_graph(i as nat)),
{
    lemma_cards_hold(entries, i);
    let c = card(i as nat, entries[i].2 as nat, entries[i].3 as nat);
    let (x, y) = choose|x: Seq<char>, y: Seq<char>| cards_text(entries) == x + c + y;
    lemma_card_graphs(i as nat, entries[i].2 as nat, entries[i].3 as nat);
    let bg = before_graph(i as nat);
    let ag = after_graph(i as nat);
    let (bx, by) = choose|bx: Seq<char>, by: Seq<char>| c == bx + bg + by;
    let (ax, ay) = choose|ax: Seq<char>, ay: Seq<char>| c == ax + ag + ay;
    let page = report(entries);
    let head = "<!DOCTYPE html>\n<html>\n<head>\n    <meta charset=\"utf-8\">\n    <title>DFA Minimization Report</title>\n    <script src=\"https://cdnjs.cloudflare.com/ajax/libs/viz.js/2.1.2/viz.js\"></script>\n    <script src=\"https://cdnjs.cloudflare.com/ajax/libs/viz.js/2.1.2/full.render.js\"></script>\n    <style>\n        body { font-family: sans-serif; padding: 2rem; background: #f5f5f5; }\n        h1 { margin-bottom: 2rem; }\n        .card { background: white; border-radius: 8px; padding: 1.5rem; margin-bottom: 2rem; box-shadow: 0 2px 6px rgba(0,0,0,0.1); }\n        .stats { color: #666; font-size: 0.95rem; margin-bottom: 1rem; }\n        .graphs { display: flex; gap: 2rem; }\n        .graphs > div { flex: 1; }\n        .graph svg { width: 100%; height: auto; }\n        h2 { margin-top: 0; }\n        h3 { color: #444; }\n    </style>\n</head>\n<body>\n    <h1>DFA Minimization Report</h1>\n    "@;
    let tail = page.subrange((head.len() + cards_text(entries).len()) as int, page.len() as int);
    assert(page =~= head + cards_text(entries) + tail);
    assert(page =~= (head + x + bx) + before_graph(i as nat) + (by + y + tail));
    lemma_holds_middle(head + x + bx, before_graph(i as nat), by + y + tail);
    assert(page =~= (head + x + ax) + after_graph(i as nat) + (ay + y + tail));
    lemma_holds_middle(head + x + ax, after_graph(i as nat), ay + y + tail);
}

/// An HTML page that shows, for each entry `(dot before, dot after, states
/// before, states after)`, a card with the state counts and both drawings,
/// rendered in the browser from the Graphviz texts.
pub fn generate_report(entries: &[(String, String, usize, usize)]) -> (r: String)
    ensures
        r@ == report(entries@),
{
    let mut cards = String::new();
    let mut i: usize = 0;
    proof {
        assert(entries@.take(0) =~= Seq::<(String, String, usize, usize)>::empty());
    }
    while i < entries.len()
        invariant
            i <= entries@.len(),
            cards@ == cards_text(entries@.take(i as int)),
        decreases entries@.len() - i,
    {
        let i_text = decimal_string(i);
        let before_text = decimal_string(entries[i].2);
        let after_text = decimal_string(entries[i].3);
        cards.append("\n        <div class=\"card\">\n            <h2>Generation ");
        cards.append(i_text.as_str());
        cards.append("</h2>\n            <p class=\"stats\">");
        cards.append(before_text.as_str());
        cards.append(" states \u{2192} ");
        cards.append(after_text.as_str());
        cards.append(" states</p>\n            <div class=\"graphs\">\n                <div>\n                    <h3>Before</h3>\n                    <div class=\"graph\" data-index=\"");
        cards.append(i_text.as_str());
        cards.append("\" data-side=\"before\"></div>\n                </div>\n                <div>\n                    <h3>After</h3>\n                    <div class=\"graph\" data-index=\"");
        cards.append(i_text.as_str());
        cards.append("\" data-side=\"after\"></div>\n                </div>\n            </div>\n        </div>\n        ");
        proof {
            let t = entries@.take(i + 1);
            assert(t.drop_last() =~= entries@.take(i as int));
            assert(t.last() == entries@[i as int]);
            assert(cards@ =~= cards_text(t));
        }
        i = i + 1;
    }
    let mut dots = String::new();
    let mut i: usize = 0;
    while i < entries.len()
        invariant
            i <= entries@.len(),
            dots@ == dots_text(entries@.take(i as int)),
        decreases entries@.len() - i,
    {
        let i_text = decimal_string(i);
        let before = escape(&entries[i].0);
        let after = escape(&entries[i].1);
        dots.append("dots[");
        dots.append(i_text.as_str());
        dots.append("] = { before: `");
        dots.append(before.as_str());
        dots.append("`, after: `");
        dots.append(after.as_str());
        dots.append("` };\n");
        proof {
            let t = entries@.take(i + 1);
            assert(t.drop_last() =~= entries@.take(i as int));
            assert(t.last() == entries@[i as int]);
            assert(dots@ =~= dots_text(t));
        }
        i = i + 1;
    }
    proof {
        assert(entries@.take(entries@.len() as int) =~= entries@);
    }
    let mut page = String::new();
    page.append("<!DOCTYPE html>\n<html>\n<head>\n    <meta charset=\"utf-8\">\n    <title>DFA Minimization Report</title>\n    <script src=\"https://cdnjs.cloudflare.com/ajax/libs/viz.js/2.1.2/viz.js\"></script>\n    <script src=\"https://cdnjs.cloudflare.com/ajax/libs/viz.js/2.1.2/full.render.js\"></script>\n    <style>\n        body { font-family: sans-serif; padding: 2rem; background: #f5f5f5; }\n        h1 { margin-bottom: 2rem; }\n        .card { background: white; border-radius: 8px; padding: 1.5rem; margin-bottom: 2rem; box-shadow: 0 2px 6px rgba(0,0,0,0.1); }\n        .stats { color: #666; font-size: 0.95rem; margin-bottom: 1rem; }\n        .graphs { display: flex; gap: 2rem; }\n        .graphs > div { flex: 1; }\n        .graph svg { width: 100%; height: auto; }\n        h2 { margin-top: 0; }\n        h3 { color: #444; }\n    </style>\n</head>\n<body>\n    <h1>DFA Minimization Report</h1>\n    ");
    page.append(cards.as_str());
    page.append("\n    <script>\n        const dots = [];\n        ");
    page.append(dots.as_str());
    page.append("\n        const viz = new Viz();\n        document.querySelectorAll('.graph').forEach(el => {\n            const i = el.dataset.index;\n            const side = el.dataset.side;\n            const dot = dots[i][side];\n            viz.renderSVGElement(dot)\n               .then(svg => el.appendChild(svg))\n               .catch(err => { el.innerText = 'Render error: ' + err; console.error(dot); });\n        });\n    </script>\n</body>\n</html>");
    proof {
        assert(page@ =~= report(entries@));
    }
    page
}

} // verus!
