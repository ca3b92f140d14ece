//! The text format of automata, and its Graphviz rendering.
//!
//! A text lists, after the section headers `#states`, `#initial`,
//! `#accepting`, `#alphabet` and `#transitions`, one entry per line;
//! transitions are written `from:symbol>to`. Lines are trimmed, and blank
//! lines are skipped.
use vstd::prelude::*;
use vstd::string::*;
use crate::text::{
    chars_of, find_char, join_with, lemma_lex_order, lemma_split_lines_nonempty, lex_order,
    lemma_split_once, lemma_trim_idempotent, sort_strings, split_lines, split_once, string_of, trim, trim_bounds, views,
};

verus! {

/// An automaton as read from text, before any of its names are resolved.
#[derive(Debug)]
pub struct RawDfa {
    pub states: Vec<String>,
    pub initial: Option<String>,
    pub accepting: Vec<String>,
    pub alphabet: Vec<String>,
    /// `(from, symbol, to)`
    pub transitions: Vec<(String, String, String)>,
}

/// Where in a text a line could not be read.
#[derive(Debug)]
pub enum ParseError {
    UnexpectedToken { line: usize, token: String },
    InvalidTransition { line: usize, text: String },
    MultipleInitial { line: usize },
    TokenOutsideSection { line: usize, token: String },
}

/// Why a text does not describe an automaton, or an automaton cannot be drawn.
#[derive(Debug)]
pub enum DfaError {
    /// A second line in the `#initial` section.
    MultipleInitial,
    /// A transition line without `>`, or without `:` before it.
    InvalidTransition,
    /// An entry before any section header.
    TokenOutsideSection,
    /// No state was declared.
    NoStates,
    /// No initial state was declared.
    NoInitial,
    /// An accepting state that is not a declared state.
    UnknownAcceptingState(String),
    /// A transition from a state that is not declared.
    UnknownSourceState(String),
    /// A transition to a state that is not declared.
    UnknownTargetState(String),
    /// A transition on a symbol that is not in the alphabet.
    UnknownSymbol(String),
    /// An automaton without states cannot be drawn.
    NoStatesAvailable,
    /// An automaton without transitions cannot be drawn.
    NoTransitionsAvailable,
}

/// The mathematical model of a `RawDfa`.
pub struct RawModel {
    pub states: Seq<Seq<char>>,
    pub initial: Option<Seq<char>>,
    pub accepting: Seq<Seq<char>>,
    pub alphabet: Seq<Seq<char>>,
    pub transitions: Seq<(Seq<char>, Seq<char>, Seq<char>)>,
}

/// The mathematical model of a `DfaError`.
pub enum DfaFault {
    MultipleInitial,
    InvalidTransition,
    TokenOutsideSection,
    NoStates,
    NoInitial,
    UnknownAcceptingState(Seq<char>),
    UnknownSourceState(Seq<char>),
    UnknownTargetState(Seq<char>),
    UnknownSymbol(Seq<char>),
    NoStatesAvailable,
    NoTransitionsAvailable,
}

impl View for RawDfa {
    type V = RawModel;

    open spec fn view(&self) -> RawModel {
        RawModel {
            states: views(self.states@),
            initial: match self.initial {
                Some(s) => Some(s@),
                None => None,
            },
            accepting: views(self.accepting@),
            alphabet: views(self.alphabet@),
            transitions: self.transitions@.map_values(
                |t: (String, String, String)| (t.0@, t.1@, t.2@),
            ),
        }
    }
}

impl View for DfaError {
    type V = DfaFault;

    open spec fn view(&self) -> DfaFault {
        match self {
            DfaError::MultipleInitial => DfaFault::MultipleInitial,
            DfaError::InvalidTransition => DfaFault::InvalidTransition,
            DfaError::TokenOutsideSection => DfaFault::TokenOutsideSection,
            DfaError::NoStates => DfaFault::NoStates,
            DfaError::NoInitial => DfaFault::NoInitial,
            DfaError::UnknownAcceptingState(s) => DfaFault::UnknownAcceptingState(s@),
            DfaError::UnknownSourceState(s) => DfaFault::UnknownSourceState(s@),
            DfaError::UnknownTargetState(s) => DfaFault::UnknownTargetState(s@),
            DfaError::UnknownSymbol(s) => DfaFault::UnknownSymbol(s@),
            DfaError::NoStatesAvailable => DfaFault::NoStatesAvailable,
            DfaError::NoTransitionsAvailable => DfaFault::NoTransitionsAvailable,
        }
    }
}

/// The section of the text that the lines being read belong to.
#[derive(Clone, Copy, PartialEq, Eq, Structural)]
pub enum Section {
    Null,
    States,
    Initial,
    Accepting,
    Alphabet,
    Transitions,
}

/// The section that a trimmed line opens, if it is a section header.
pub open spec fn header(l: Seq<char>) -> Option<Section> {
    if l == "#states"@ {
        Some(Section::States)
    } else if l == "#initial"@ {
        Some(Section::Initial)
    } else if l == "#accepting"@ {
        Some(Section::Accepting)
    } else if l == "#alphabet"@ {
        Some(Section::Alphabet)
    } else if l == "#transitions"@ {
        Some(Section::Transitions)
    } else {
        None
    }
}

/// Nothing read yet.
pub open spec fn empty_raw() -> RawModel {
    RawModel {
        states: seq![],
        initial: None,
        accepting: seq![],
        alphabet: seq![],
        transitions: seq![],
    }
}

/// The outcome of reading one more line in section `sec` with `r` read so far.
pub open spec fn read_line(sec: Section, r: RawModel, line: Seq<char>) -> Result<
    (Section, RawModel),
    DfaFault,
> {
    let l = trim(line);
    if l.len() == 0 {
        Ok((sec, r))
    } else if header(l) is Some {
        Ok((header(l)->0, r))
    } else {
        match sec {
            Section::States => Ok(
                (
                    sec,
                    RawModel {
                        states: r.states.push(l),
                        initial: r.initial,
                        accepting: r.accepting,
                        alphabet: r.alphabet,
                        transitions: r.transitions,
                    },
                ),
            ),
            Section::Initial => if r.initial is Some {
                Err(DfaFault::MultipleInitial)
            } else {
                Ok(
                    (
                        sec,
                        RawModel {
                            states: r.states,
                            initial: Some(l),
                            accepting: r.accepting,
                            alphabet: r.alphabet,
                            transitions: r.transitions,
                        },
                    ),
                )
            },
            Section::Accepting => Ok(
                (
                    sec,
                    RawModel {
                        states: r.states,
                        initial: r.initial,
                        accepting: r.accepting.push(l),
                        alphabet: r.alphabet,
                        transitions: r.transitions,
                    },
                ),
            ),
            Section::Alphabet => Ok(
                (
                    sec,
                    RawModel {
                        states: r.states,
                        initial: r.initial,
                        accepting: r.accepting,
                        alphabet: r.alphabet.push(l),
                        transitions: r.transitions,
                    },
                ),
            ),
            Section::Transitions => match split_once(l, '>') {
                None => Err(DfaFault::InvalidTransition),
                Some((lhs, to)) => match split_once(lhs, ':') {
                    None => Err(DfaFault::InvalidTransition),
                    Some((from, symbol)) => Ok(
                        (
                            sec,
                            RawModel {
                                states: r.states,
                                initial: r.initial,
                                accepting: r.accepting,
                                alphabet: r.alphabet,
                                transitions: r.transitions.push((from, symbol, to)),
                            },
                        ),
                    ),
                },
            },
            Section::Null => Err(DfaFault::TokenOutsideSection),
        }
    }
}

/// The outcome of reading `lines` in order from the start.
pub open spec fn read_lines(lines: Seq<Seq<char>>) -> Result<(Section, RawModel), DfaFault>
    decreases lines.len(),
{
    if lines.len() == 0 {
        Ok((Section::Null, empty_raw()))
    } else {
        match read_lines(lines.drop_last()) {
            Ok((sec, r)) => read_line(sec, r, lines.last()),
            Err(e) => Err(e),
        }
    }
}

/// The first accepting state from index `i` on that is not a declared state.
pub open spec fn unknown_accepting(r: RawModel, i: int) -> Option<Seq<char>>
    decreases r.accepting.len() - i,
{
    if i < 0 || i >= r.accepting.len() {
        None
    } else if !r.states.contains(r.accepting[i]) {
        Some(r.accepting[i])
    } else {
        unknown_accepting(r, i + 1)
    }
}

/// The fault of the first transition from index `i` on that names an
/// undeclared state (its source checked first, then its target) or symbol.
pub open spec fn bad_transition(r: RawModel, i: int) -> Option<DfaFault>
    decreases r.transitions.len() - i,
{
    if i < 0 || i >= r.transitions.len() {
        None
    } else {
        let (from, symbol, to) = r.transitions[i];
        if !r.states.contains(from) {
            Some(DfaFault::UnknownSourceState(from))
        } else if !r.states.contains(to) {
            Some(DfaFault::UnknownTargetState(to))
        } else if !r.alphabet.contains(symbol) {
            Some(DfaFault::UnknownSymbol(symbol))
        } else {
            bad_transition(r, i + 1)
        }
    }
}

/// What is wrong with an automaton read from text, checked in this order:
/// no states, no initial state, an undeclared accepting state, a transition
/// with an undeclared state or symbol.
pub open spec fn raw_fault(r: RawModel) -> Option<DfaFault> {
    if r.states.len() == 0 {
        Some(DfaFault::NoStates)
    } else if r.initial is None {
        Some(DfaFault::NoInitial)
    } else if unknown_accepting(r, 0) is Some {
        Some(DfaFault::UnknownAcceptingState(unknown_accepting(r, 0)->0))
    } else {
        bad_transition(r, 0)
    }
}

/// The automaton that `text` describes, or the first fault found in it.
pub open spec fn parse_text(text: Seq<char>) -> Result<RawModel, DfaFault> {
    match read_lines(split_lines(text)) {
        Err(e) => Err(e),
        Ok((_, r)) => match raw_fault(r) {
            Some(e) => Err(e),
            None => Ok(r),
        },
    }
}

/// The lines of `lines` that are not blank, trimmed, in order.
pub open spec fn content_lines(lines: Seq<Seq<char>>) -> Seq<Seq<char>>
    decreases lines.len(),
{
    if lines.len() == 0 {
        seq![]
    } else {
        let rest = content_lines(lines.drop_last());
        let l = trim(lines.last());
        if l.len() == 0 {
            rest
        } else {
            rest.push(l)
        }
    }
}

/// Reading every line of `lines` in order; unlike `read_lines`, meant for
/// lines that are already trimmed and not blank.
pub open spec fn read_content(lines: Seq<Seq<char>>) -> Result<(Section, RawModel), DfaFault>
    decreases lines.len(),
{
    if lines.len() == 0 {
        Ok((Section::Null, empty_raw()))
    } else {
        match read_content(lines.drop_last()) {
            Ok((sec, r)) => read_line(sec, r, lines.last()),
            Err(e) => Err(e),
        }
    }
}

/// Reading lines comes to reading their trimmed, non-blank content.
proof fn lemma_read_lines_content(lines: Seq<Seq<char>>)
    ensures
        read_lines(lines) == read_content(content_lines(lines)),
    decreases lines.len(),
{
    if lines.len() > 0 {
        let l0 = lines.drop_last();
        lemma_read_lines_content(l0);
        let x = lines.last();
        let c0 = content_lines(l0);
        if trim(x).len() > 0 {
            lemma_trim_idempotent(x);
            assert(c0.push(trim(x)).drop_last() =~= c0);
        }
    }
}

/// A text's meaning depends only on its trimmed, non-blank lines: adding or
/// removing blank lines, and white space around lines, changes nothing.
pub proof fn lemma_parse_depends_on_content(s1: Seq<char>, s2: Seq<char>)
    requires
        content_lines(split_lines(s1)) == content_lines(split_lines(s2)),
    ensures
        parse_text(s1) == parse_text(s2),
{
    lemma_read_lines_content(split_lines(s1));
    lemma_read_lines_content(split_lines(s2));
}

/// The section that the lines after `lines` belong to: the one opened by
/// the last header among them, or none before any header.
pub open spec fn section_after(lines: Seq<Seq<char>>) -> Section
    decreases lines.len(),
{
    if lines.len() == 0 {
        Section::Null
    } else if header(trim(lines.last())) is Some {
        header(trim(lines.last()))->0
    } else {
        section_after(lines.drop_last())
    }
}

/// The entries of section `sec` in `lines`: every trimmed line that is not
/// blank and not a header and stands in that section, in order.
pub open spec fn section_entries(lines: Seq<Seq<char>>, sec: Section) -> Seq<Seq<char>>
    decreases lines.len(),
{
    if lines.len() == 0 {
        seq![]
    } else {
        let l = trim(lines.last());
        let rest = section_entries(lines.drop_last(), sec);
        if l.len() > 0 && header(l) is None && section_after(lines.drop_last()) == sec {
            rest.push(l)
        } else {
            rest
        }
    }
}

/// The transition `t` is written `l`: its source, a colon, its symbol, a
/// `>` and its target, where the source holds no colon and neither the
/// source nor the symbol holds a `>`.
pub open spec fn written_as(t: (Seq<char>, Seq<char>, Seq<char>), l: Seq<char>) -> bool {
    &&& l == t.0 + seq![':'] + t.1 + seq!['>'] + t.2
    &&& !t.0.contains(':')
    &&& !t.0.contains('>')
    &&& !t.1.contains('>')
}

/// A section header is not a blank line.
proof fn lemma_header_not_blank(l: Seq<char>)
    ensures
        header(l) is Some ==> l.len() > 0,
{
    reveal_strlit("#states");
    reveal_strlit("#initial");
    reveal_strlit("#accepting");
    reveal_strlit("#alphabet");
    reveal_strlit("#transitions");
}

/// Reading lines keeps every entry: the states, accepting states and
/// alphabet read are exactly the entries of their sections, in order; the
/// initial state is the one entry of its section, if there is one; and
/// there is one transition per entry of the transitions section.
pub proof fn lemma_read_lines_sections(lines: Seq<Seq<char>>)
    ensures
        read_lines(lines) matches Ok((sec, r)) ==> {
            &&& sec == section_after(lines)
            &&& r.states == section_entries(lines, Section::States)
            &&& r.accepting == section_entries(lines, Section::Accepting)
            &&& r.alphabet == section_entries(lines, Section::Alphabet)
            &&& section_entries(lines, Section::Initial).len() <= 1
            &&& r.initial == (if section_entries(lines, Section::Initial).len() == 0 {
                None
            } else {
                Some(section_entries(lines, Section::Initial)[0])
            })
            &&& r.transitions.len() == section_entries(lines, Section::Transitions).len()
            &&& forall|k: int|
                0 <= k < r.transitions.len() ==> written_as(
                    #[trigger] r.transitions[k],
                    section_entries(lines, Section::Transitions)[k],
                )
        },
    decreases lines.len(),
{
    if lines.len() > 0 {
        let l0 = lines.drop_last();
        lemma_read_lines_sections(l0);
        let x = trim(lines.last());
        let e0 = section_entries(l0, Section::Initial);
        if x.len() > 0 && header(x) is None && section_after(l0) == Section::Initial && e0.len()
            == 0 {
            assert(e0.push(x)[0] == x);
        }
        if e0.len() > 0 {
            assert(e0.push(x)[0] == e0[0]);
        }
        match read_lines(l0) {
            Ok((sec0, r0)) => {
                assert(read_lines(lines) == read_line(sec0, r0, lines.last()));
                if x.len() == 0 {
                    lemma_header_not_blank(x);
                }
                lemma_split_once(x, '>');
                match split_once(x, '>') {
                    Some((lhs, to)) => {
                        lemma_split_once(lhs, ':');
                        match split_once(lhs, ':') {
                            Some((from, symbol)) => {
                                let t = (from, symbol, to);
                                assert(x =~= from + seq![':'] + symbol + seq!['>'] + to);
                                assert(!from.contains('>')) by {
                                    if from.contains('>') {
                                        let w = choose|w: int| 0 <= w < from.len() && from[w] == '>';
                                        assert(lhs[w] == '>');
                                    }
                                }
                                assert(!symbol.contains('>')) by {
                                    if symbol.contains('>') {
                                        let w = choose|w: int| 0 <= w < symbol.len() && symbol[w] == '>';
                                        assert(lhs[from.len() + 1 + w] == '>');
                                    }
                                }
                            },
                            None => {},
                        }
                    },
                    None => {},
                }
            },
            Err(_) => {},
        }
    }
}

/// A text that parses lists its accepting states, states and alphabet
/// exactly as the entries of those sections, in order; its initial state is
/// the entry of its section; and it has one transition per entry of its
/// section, in order, each written as that entry.
pub proof fn lemma_parse_keeps_entries(text: Seq<char>)
    ensures
        parse_text(text) matches Ok(r) ==> {
            &&& r.states == section_entries(split_lines(text), Section::States)
            &&& r.accepting == section_entries(split_lines(text), Section::Accepting)
            &&& r.alphabet == section_entries(split_lines(text), Section::Alphabet)
            &&& r.initial == Some(section_entries(split_lines(text), Section::Initial)[0])
            &&& r.transitions.len() == section_entries(
                split_lines(text),
                Section::Transitions,
            ).len()
            &&& forall|k: int|
                0 <= k < r.transitions.len() ==> written_as(
                    #[trigger] r.transitions[k],
                    section_entries(split_lines(text), Section::Transitions)[k],
                )
        },
{
    lemma_read_lines_sections(split_lines(text));
}

/// No accepting state from index `i` on is undeclared exactly when the
/// search for one finds none.
proof fn lemma_unknown_accepting(r: RawModel, i: int)
    requires
        0 <= i,
    ensures
        unknown_accepting(r, i) is None <==> forall|k: int|
            i <= k < r.accepting.len() ==> r.states.contains(#[trigger] r.accepting[k]),
    decreases r.accepting.len() - i,
{
    if i < r.accepting.len() {
        lemma_unknown_accepting(r, i + 1);
    }
}

/// No transition from index `i` on names an undeclared state or symbol
/// exactly when the search for one finds none.
proof fn lemma_bad_transition(r: RawModel, i: int)
    requires
        0 <= i,
    ensures
        bad_transition(r, i) is None <==> forall|k: int|
            i <= k < r.transitions.len() ==> {
                &&& r.states.contains((#[trigger] r.transitions[k]).0)
                &&& r.states.contains(r.transitions[k].2)
                &&& r.alphabet.contains(r.transitions[k].1)
            },
    decreases r.transitions.len() - i,
{
    if i < r.transitions.len() {
        lemma_bad_transition(r, i + 1);
    }
}

/// `r` describes an automaton: some state is declared, an initial state is
/// given, every accepting state is declared, and every transition joins
/// declared states on a symbol of the alphabet.
pub open spec fn valid_raw(r: RawModel) -> bool {
    &&& r.states.len() > 0
    &&& r.initial is Some
    &&& forall|k: int| 0 <= k < r.accepting.len() ==> r.states.contains(#[trigger] r.accepting[k])
    &&& forall|k: int|
        0 <= k < r.transitions.len() ==> {
            &&& r.states.contains((#[trigger] r.transitions[k]).0)
            &&& r.states.contains(r.transitions[k].2)
            &&& r.alphabet.contains(r.transitions[k].1)
        }
}

/// A text parses exactly when its lines read without fault and what they
/// describe is an automaton; what it parses to is what was read.
pub proof fn lemma_parse_ok_iff_valid(text: Seq<char>)
    ensures
        (parse_text(text) is Ok) == (match read_lines(split_lines(text)) {
            Ok((_, r)) => valid_raw(r),
            Err(_) => false,
        }),
        parse_text(text) matches Ok(r) ==> valid_raw(r),
        parse_text(text) matches Ok(r) ==> (read_lines(split_lines(text)) matches Ok((_, r2))
            && r2 == r),
{
    match read_lines(split_lines(text)) {
        Ok((_, r)) => {
            lemma_unknown_accepting(r, 0);
            lemma_bad_transition(r, 0);
        },
        Err(_) => {},
    }
}

/// Whether `cs[lo..hi]` spells `kw`.
fn segment_is(cs: &Vec<char>, lo: usize, hi: usize, kw: &str) -> (r: bool)
    requires
        lo <= hi <= cs@.len(),
    ensures
        r == (cs@.subrange(lo as int, hi as int) == kw@),
{
    let n = kw.unicode_len();
    if hi - lo != n {
        return false;
    }
    let mut i: usize = 0;
    while i < n
        invariant
            n == kw@.len(),
            hi - lo == n,
            lo <= hi <= cs@.len(),
            i <= n,
            forall|j: int| 0 <= j < i ==> cs@[lo + j] == kw@[j],
        decreases n - i,
    {
        if cs[lo + i] != kw.get_char(i) {
            proof {
                assert(cs@.subrange(lo as int, hi as int)[i as int] != kw@[i as int]);
            }
            return false;
        }
        i = i + 1;
    }
    proof {
        assert(cs@.subrange(lo as int, hi as int) =~= kw@);
    }
    true
}

/// The section that `cs[lo..hi]` opens, if it is a section header.
fn header_of(cs: &Vec<char>, lo: usize, hi: usize) -> (r: Option<Section>)
    requires
        lo <= hi <= cs@.len(),
    ensures
        r == header(cs@.subrange(lo as int, hi as int)),
{
    if segment_is(cs, lo, hi, "#states") {
        Some(Section::States)
    } else if segment_is(cs, lo, hi, "#initial") {
        Some(Section::Initial)
    } else if segment_is(cs, lo, hi, "#accepting") {
        Some(Section::Accepting)
    } else if segment_is(cs, lo, hi, "#alphabet") {
        Some(Section::Alphabet)
    } else if segment_is(cs, lo, hi, "#transitions") {
        Some(Section::Transitions)
    } else {
        None
    }
}

/// Reads the line `cs[lo..hi]` in section `sec` into `dfa`.
fn read_one(cs: &Vec<char>, lo: usize, hi: usize, sec: &mut Section, dfa: &mut RawDfa) -> (r:
    Result<(), DfaError>)
    requires
        lo <= hi <= cs@.len(),
    ensures
        match r {
            Ok(()) => read_line(*old(sec), old(dfa)@, cs@.subrange(lo as int, hi as int)) == Ok::<
                (Section, RawModel),
                DfaFault,
            >((*final(sec), final(dfa)@)),
            Err(e) => read_line(*old(sec), old(dfa)@, cs@.subrange(lo as int, hi as int)) == Err::<
                (Section, RawModel),
                DfaFault,
            >(e@),
        },
{
    let ghost line = cs@.subrange(lo as int, hi as int);
    let (a, b) = trim_bounds(cs, lo, hi);
    let ghost l = cs@.subrange(a as int, b as int);
    if a == b {
        return Ok(());
    }
    match header_of(cs, a, b) {
        Some(s) => {
            *sec = s;
            return Ok(());
        },
        None => {},
    }
    match *sec {
        Section::States => {
            let name = string_of(cs, a, b);
            dfa.states.push(name);
            proof {
                assert(views(dfa.states@) =~= views(old(dfa).states@).push(l));
            }
            Ok(())
        },
        Section::Initial => {
            if dfa.initial.is_some() {
                return Err(DfaError::MultipleInitial);
            }
            dfa.initial = Some(string_of(cs, a, b));
            Ok(())
        },
        Section::Accepting => {
            let name = string_of(cs, a, b);
            dfa.accepting.push(name);
            proof {
                assert(views(dfa.accepting@) =~= views(old(dfa).accepting@).push(l));
            }
            Ok(())
        },
        Section::Alphabet => {
            let name = string_of(cs, a, b);
            dfa.alphabet.push(name);
            proof {
                assert(views(dfa.alphabet@) =~= views(old(dfa).alphabet@).push(l));
            }
            Ok(())
        },
        Section::Transitions => {
            let gt = match find_char(cs, a, b, '>') {
                Some(i) => i,
                None => {
                    return Err(DfaError::InvalidTransition);
                },
            };
            proof {
                assert(l.subrange(0, gt - a) =~= cs@.subrange(a as int, gt as int));
                assert(l.subrange(gt - a + 1, l.len() as int) =~= cs@.subrange(
                    gt + 1,
                    b as int,
                ));
            }
            let colon = match find_char(cs, a, gt, ':') {
                Some(i) => i,
                None => {
                    return Err(DfaError::InvalidTransition);
                },
            };
            proof {
                let lhs = cs@.subrange(a as int, gt as int);
                assert(lhs.subrange(0, colon - a) =~= cs@.subrange(a as int, colon as int));
                assert(lhs.subrange(colon - a + 1, lhs.len() as int) =~= cs@.subrange(
                    colon + 1,
                    gt as int,
                ));
            }
            let from = string_of(cs, a, colon);
            let symbol = string_of(cs, colon + 1, gt);
            let to = string_of(cs, gt + 1, b);
            let ghost t = (from@, symbol@, to@);
            dfa.transitions.push((from, symbol, to));
            proof {
                assert(dfa@.transitions =~= old(dfa)@.transitions.push(t));
            }
            Ok(())
        },
        Section::Null => Err(DfaError::TokenOutsideSection),
    }
}

/// Whether `v` holds a string equal to `s`.
fn contains_string(v: &Vec<String>, s: &String) -> (r: bool)
    ensures
        r == views(v@).contains(s@),
{
    let mut i: usize = 0;
    while i < v.len()
        invariant
            i <= v@.len(),
            forall|j: int| 0 <= j < i ==> v@[j]@ != s@,
        decreases v@.len() - i,
    {
        if v[i] == *s {
            proof {
                assert(views(v@)[i as int] == s@);
            }
            return true;
        }
        i = i + 1;
    }
    proof {
        if views(v@).contains(s@) {
            let k = choose|k: int| 0 <= k < views(v@).len() && views(v@)[k] == s@;
            assert(v@[k]@ == s@);
        }
    }
    false
}

/// Reads an automaton from its text form.
///
/// The lines are read in order; the first line that cannot be read gives
/// the error. Then the automaton must declare a state and an initial state,
/// every accepting state must be declared, and every transition must use
/// declared states and a symbol of the alphabet; the first violation gives
/// the error.
pub fn parse_dfa(input: &str) -> (r: Result<RawDfa, DfaError>)
    ensures
        match r {
            Ok(d) => parse_text(input@) == Ok::<RawModel, DfaFault>(d@),
            Err(e) => parse_text(input@) == Err::<RawModel, DfaFault>(e@),
        },
{
    let cs = chars_of(input);
    let mut dfa = RawDfa {
        states: Vec::new(),
        initial: None,
        accepting: Vec::new(),
        alphabet: Vec::new(),
        transitions: Vec::new(),
    };
    let mut current_section = Section::Null;
    proof {
        assert(dfa@.states =~= empty_raw().states);
        assert(dfa@.accepting =~= empty_raw().accepting);
        assert(dfa@.alphabet =~= empty_raw().alphabet);
        assert(dfa@.transitions =~= empty_raw().transitions);
        assert(cs@.take(0) =~= Seq::<char>::empty());
        assert(cs@.subrange(0, 0) =~= Seq::<char>::empty());
    }
    let ghost mut done: Seq<Seq<char>> = seq![];
    let mut line_start: usize = 0;
    let mut i: usize = 0;
    while i < cs.len()
        invariant
            cs@ == input@,
            line_start <= i <= cs@.len(),
            split_lines(cs@.take(i as int)) == done.push(cs@.subrange(line_start as int, i as int)),
            read_lines(done) == Ok::<(Section, RawModel), DfaFault>((current_section, dfa@)),
        decreases cs@.len() - i,
    {
        proof {
            assert(cs@.take(i + 1).drop_last() =~= cs@.take(i as int));
            assert(cs@.take(i + 1).last() == cs@[i as int]);
        }
        if cs[i] == '\n' {
            let ghost line = cs@.subrange(line_start as int, i as int);
            match read_one(&cs, line_start, i, &mut current_section, &mut dfa) {
                Ok(()) => {},
                Err(e) => {
                    proof {
                        lemma_split_lines_prefix(cs@, (i + 1) as int);
                        let pre = split_lines(cs@.take(i + 1));
                        assert(pre == done.push(line).push(Seq::<char>::empty()));
                        assert forall|j: int| 0 <= j < done.push(line).len() implies done.push(
                            line,
                        )[j] == split_lines(cs@)[j] by {
                            assert(pre[j] == done.push(line)[j]);
                        }
                        assert(done.push(line).drop_last() =~= done);
                        lemma_read_lines_stops(done.push(line), split_lines(cs@));
                    }
                    return Err(e);
                },
            }
            proof {
                assert(done.push(line).drop_last() =~= done);
                done = done.push(line);
                assert(cs@.subrange(i + 1, i + 1) =~= Seq::<char>::empty());
            }
            line_start = i + 1;
        } else {
            proof {
                assert(cs@.subrange(line_start as int, i + 1) =~= cs@.subrange(
                    line_start as int,
                    i as int,
                ).push(cs@[i as int]));
                let before = split_lines(cs@.take(i as int));
                assert(before.update(before.len() - 1, before.last().push(cs@[i as int]))
                    =~= done.push(cs@.subrange(line_start as int, i + 1)));
            }
        }
        i = i + 1;
    }
    proof {
        assert(cs@.take(i as int) =~= cs@);
    }
    let ghost last_line = cs@.subrange(line_start as int, i as int);
    match read_one(&cs, line_start, i, &mut current_section, &mut dfa) {
        Ok(()) => {},
        Err(e) => {
            proof {
                assert(done.push(last_line).drop_last() =~= done);
            }
            return Err(e);
        },
    }
    proof {
        assert(done.push(last_line).drop_last() =~= done);
    }

    // Syntax checking.
    if dfa.states.len() == 0 {
        return Err(DfaError::NoStates);
    }
    if dfa.initial.is_none() {
        return Err(DfaError::NoInitial);
    }
    proof {
        assert(read_lines(split_lines(input@)) == Ok::<(Section, RawModel), DfaFault>(
            (current_section, dfa@),
        ));
    }
    let ghost sec = current_section;
    let mut k: usize = 0;
    while k < dfa.accepting.len()
        invariant
            read_lines(split_lines(input@)) == Ok::<(Section, RawModel), DfaFault>((sec, dfa@)),
            dfa@.states.len() > 0,
            dfa@.initial is Some,
            k <= dfa@.accepting.len(),
            unknown_accepting(dfa@, 0) == unknown_accepting(dfa@, k as int),
        decreases dfa@.accepting.len() - k,
    {
        if !contains_string(&dfa.states, &dfa.accepting[k]) {
            let name = dfa.accepting[k].clone();
            return Err(DfaError::UnknownAcceptingState(name));
        }
        k = k + 1;
    }
    let mut k: usize = 0;
    while k < dfa.transitions.len()
        invariant
            read_lines(split_lines(input@)) == Ok::<(Section, RawModel), DfaFault>((sec, dfa@)),
            dfa@.states.len() > 0,
            dfa@.initial is Some,
            k <= dfa@.transitions.len(),
            unknown_accepting(dfa@, 0) is None,
            bad_transition(dfa@, 0) == bad_transition(dfa@, k as int),
        decreases dfa@.transitions.len() - k,
    {
        let t = &dfa.transitions[k];
        if !contains_string(&dfa.states, &t.0) {
            return Err(DfaError::UnknownSourceState(t.0.clone()));
        }
        if !contains_string(&dfa.states, &t.2) {
            return Err(DfaError::UnknownTargetState(t.2.clone()));
        }
        if !contains_string(&dfa.alphabet, &t.1) {
            return Err(DfaError::UnknownSymbol(t.1.clone()));
        }
        k = k + 1;
    }
    Ok(dfa)
}

/// Once reading fails, reading more lines fails the same way.
proof fn lemma_read_lines_stops(lines: Seq<Seq<char>>, all: Seq<Seq<char>>)
    requires
        read_lines(lines) is Err,
        lines.len() <= all.len(),
        forall|j: int| 0 <= j < lines.len() ==> lines[j] == all[j],
    ensures
        read_lines(all) == read_lines(lines),
    decreases all.len(),
{
    if all.len() > lines.len() {
        let a0 = all.drop_last();
        assert forall|j: int| 0 <= j < lines.len() implies lines[j] == a0[j] by {
            assert(a0[j] == all[j]);
        }
        lemma_read_lines_stops(lines, a0);
    } else {
        assert(lines =~= all);
    }
}

/// The lines of a prefix that ends just after a line feed are the complete
/// lines of the whole text up to there, followed by an empty line.
proof fn lemma_split_lines_prefix(s: Seq<char>, i: int)
    requires
        0 <= i <= s.len(),
    ensures
        split_lines(s.take(i)).len() <= split_lines(s).len(),
        forall|j: int|
            0 <= j < split_lines(s.take(i)).len() - 1 ==> #[trigger] split_lines(s.take(i))[j]
                == split_lines(s)[j],
    decreases s.len() - i,
{
    lemma_split_lines_nonempty(s.take(i));
    if i < s.len() {
        lemma_split_lines_prefix(s, i + 1);
        assert(s.take(i + 1).drop_last() =~= s.take(i));
        assert(s.take(i + 1).last() == s[i]);
        lemma_split_lines_nonempty(s.take(i + 1));
        let l0 = split_lines(s.take(i));
        let l1 = split_lines(s.take(i + 1));
        assert forall|j: int| 0 <= j < l0.len() - 1 implies #[trigger] l0[j] == split_lines(s)[j] by {
            assert(l1[j] == l0[j]);
        }
    } else {
        assert(s.take(i) =~= s);
    }
}

/// Transitions between one pair of states: `(from, to, symbols)`.
pub type EdgeGroup = (Seq<char>, Seq<char>, Seq<Seq<char>>);

/// The index of the group for `from` and `to`, searching from index `i`.
pub open spec fn find_group(gs: Seq<EdgeGroup>, from: Seq<char>, to: Seq<char>, i: int) -> Option<
    int,
>
    decreases gs.len() - i,
{
    if i < 0 || i >= gs.len() {
        None
    } else if gs[i].0 == from && gs[i].1 == to {
        Some(i)
    } else {
        find_group(gs, from, to, i + 1)
    }
}

/// The transitions grouped by their pair of states, the groups in the order
/// in which their pairs first occur, the symbols of a group in their order.
pub open spec fn edge_groups(ts: Seq<(Seq<char>, Seq<char>, Seq<char>)>) -> Seq<EdgeGroup>
    decreases ts.len(),
{
    if ts.len() == 0 {
        seq![]
    } else {
        let gs = edge_groups(ts.drop_last());
        let (from, symbol, to) = ts.last();
        match find_group(gs, from, to, 0) {
            Some(i) => gs.update(i, (gs[i].0, gs[i].1, gs[i].2.push(symbol))),
            None => gs.push((from, to, seq![symbol])),
        }
    }
}

/// The Graphviz line of a state.
pub open spec fn state_line(s: Seq<char>) -> Seq<char> {
    "  "@ + s + " [label=\""@ + s + "\"];\n"@
}

/// The Graphviz lines of the states, in order.
pub open spec fn state_lines(states: Seq<Seq<char>>) -> Seq<char>
    decreases states.len(),
{
    if states.len() == 0 {
        seq![]
    } else {
        state_lines(states.drop_last()) + state_line(states.last())
    }
}

/// The Graphviz line of a group of transitions, labelled with its symbols
/// in lexicographic order, joined with commas.
pub open spec fn edge_line(g: EdgeGroup) -> Seq<char> {
    "  "@ + g.0 + " -> "@ + g.1 + " [label=\""@ + join_with(g.2.sort_by(lex_order()), ',')
        + "\"];\n"@
}

/// The Graphviz lines of the groups, in order.
pub open spec fn edge_lines(gs: Seq<EdgeGroup>) -> Seq<char>
    decreases gs.len(),
{
    if gs.len() == 0 {
        seq![]
    } else {
        edge_lines(gs.drop_last()) + edge_line(gs.last())
    }
}

/// The Graphviz text of an automaton read from text: a `digraph` with a
/// node per state and an edge per pair of states joined by transitions.
pub open spec fn dot_text(r: RawModel) -> Result<Seq<char>, DfaFault> {
    if r.states.len() == 0 {
        Err(DfaFault::NoStatesAvailable)
    } else if r.transitions.len() == 0 {
        Err(DfaFault::NoTransitionsAvailable)
    } else {
        Ok(
            "digraph DFA {\n"@ + state_lines(r.states) + edge_lines(edge_groups(r.transitions))
                + "}\n"@,
        )
    }
}

/// The symbols of the transitions of `ts` from `from` to `to`, in order.
pub open spec fn pair_symbols(
    ts: Seq<(Seq<char>, Seq<char>, Seq<char>)>,
    from: Seq<char>,
    to: Seq<char>,
) -> Seq<Seq<char>>
    decreases ts.len(),
{
    if ts.len() == 0 {
        seq![]
    } else {
        let rest = pair_symbols(ts.drop_last(), from, to);
        if ts.last().0 == from && ts.last().2 == to {
            rest.push(ts.last().1)
        } else {
            rest
        }
    }
}

/// `gs` groups the transitions `ts` by their pair of states: no two groups
/// share a pair, each group holds all the symbols of the transitions of its
/// pair, in order, and every transition has the group of its pair.
pub open spec fn groups_transitions(
    gs: Seq<EdgeGroup>,
    ts: Seq<(Seq<char>, Seq<char>, Seq<char>)>,
) -> bool {
    &&& forall|i: int, j: int|
        0 <= i < j < gs.len() ==> !((#[trigger] gs[i]).0 == (#[trigger] gs[j]).0 && gs[i].1
            == gs[j].1)
    &&& forall|i: int|
        0 <= i < gs.len() ==> (#[trigger] gs[i]).2 == pair_symbols(ts, gs[i].0, gs[i].1)
            && gs[i].2.len() > 0
    &&& forall|k: int|
        0 <= k < ts.len() ==> exists|i: int|
            0 <= i < gs.len() && (#[trigger] gs[i]).0 == (#[trigger] ts[k]).0 && gs[i].1
                == ts[k].2
}

/// What the search for the group of a pair finds.
proof fn lemma_find_group(gs: Seq<EdgeGroup>, from: Seq<char>, to: Seq<char>, i: int)
    requires
        0 <= i,
    ensures
        match find_group(gs, from, to, i) {
            Some(j) => i <= j < gs.len() && gs[j].0 == from && gs[j].1 == to,
            None => forall|k: int| i <= k < gs.len() ==> !(#[trigger] gs[k].0 == from && gs[k].1 == to),
        },
    decreases gs.len() - i,
{
    if i < gs.len() {
        lemma_find_group(gs, from, to, i + 1);
    }
}

/// The edges of a drawing group the transitions by their pair of states.
pub proof fn lemma_edge_groups(ts: Seq<(Seq<char>, Seq<char>, Seq<char>)>)
    ensures
        groups_transitions(edge_groups(ts), ts),
    decreases ts.len(),
{
    if ts.len() > 0 {
        let t0 = ts.drop_last();
        lemma_edge_groups(t0);
        let gs = edge_groups(t0);
        let (from, symbol, to) = ts.last();
        lemma_find_group(gs, from, to, 0);
        let ng = edge_groups(ts);
        assert forall|k: int| 0 <= k < t0.len() implies #[trigger] ts[k] == t0[k] by {}
        match find_group(gs, from, to, 0) {
            Some(i) => {
                assert(ng == gs.update(i, (gs[i].0, gs[i].1, gs[i].2.push(symbol))));
                assert forall|a: int| 0 <= a < ng.len() implies (#[trigger] ng[a]).2 == pair_symbols(
                    ts,
                    ng[a].0,
                    ng[a].1,
                ) && ng[a].2.len() > 0 by {
                    assert(gs[a].2 == pair_symbols(t0, gs[a].0, gs[a].1));
                    if a != i {
                        assert(gs[a] == ng[a]);
                        if a < i {
                            assert(!(gs[a].0 == gs[i].0 && gs[a].1 == gs[i].1));
                        } else {
                            assert(!(gs[i].0 == gs[a].0 && gs[i].1 == gs[a].1));
                        }
                    }
                }
                assert forall|k: int| 0 <= k < ts.len() implies exists|a: int|
                    0 <= a < ng.len() && (#[trigger] ng[a]).0 == (#[trigger] ts[k]).0 && ng[a].1
                        == ts[k].2 by {
                    if k < t0.len() {
                        assert(ts[k] == t0[k]);
                        let a = choose|a: int|
                            0 <= a < gs.len() && (#[trigger] gs[a]).0 == t0[k].0 && gs[a].1
                                == t0[k].2;
                        assert(ng[a].0 == gs[a].0 && ng[a].1 == gs[a].1);
                    } else {
                        assert(ng[i].0 == ts[k].0 && ng[i].1 == ts[k].2);
                    }
                }
                assert forall|a: int, b: int| 0 <= a < b < ng.len() implies !((#[trigger] ng[a]).0
                    == (#[trigger] ng[b]).0 && ng[a].1 == ng[b].1) by {
                    assert(ng[a].0 == gs[a].0 && ng[a].1 == gs[a].1);
                    assert(ng[b].0 == gs[b].0 && ng[b].1 == gs[b].1);
                    assert(!(gs[a].0 == gs[b].0 && gs[a].1 == gs[b].1));
                }
            },
            None => {
                assert(ng == gs.push((from, to, seq![symbol])));
                let n = gs.len() as int;
                assert(pair_symbols(t0, from, to) =~= Seq::<Seq<char>>::empty()) by {
                    lemma_no_pair_symbols(t0, from, to, gs);
                }
                assert forall|a: int| 0 <= a < ng.len() implies (#[trigger] ng[a]).2 == pair_symbols(
                    ts,
                    ng[a].0,
                    ng[a].1,
                ) && ng[a].2.len() > 0 by {
                    if a < n {
                        assert(ng[a] == gs[a]);
                        assert(gs[a].2 == pair_symbols(t0, gs[a].0, gs[a].1));
                        assert(!(gs[a].0 == from && gs[a].1 == to));
                    } else {
                        assert(pair_symbols(ts, from, to) =~= seq![symbol]);
                    }
                }
                assert forall|k: int| 0 <= k < ts.len() implies exists|a: int|
                    0 <= a < ng.len() && (#[trigger] ng[a]).0 == (#[trigger] ts[k]).0 && ng[a].1
                        == ts[k].2 by {
                    if k < t0.len() {
                        assert(ts[k] == t0[k]);
                        let a = choose|a: int|
                            0 <= a < gs.len() && (#[trigger] gs[a]).0 == t0[k].0 && gs[a].1
                                == t0[k].2;
                        assert(ng[a] == gs[a]);
                    } else {
                        assert(ng[n].0 == ts[k].0 && ng[n].1 == ts[k].2);
                    }
                }
                assert forall|a: int, b: int| 0 <= a < b < ng.len() implies !((#[trigger] ng[a]).0
                    == (#[trigger] ng[b]).0 && ng[a].1 == ng[b].1) by {
                    assert(ng[a] == gs[a]);
                    if b < n {
                        assert(ng[b] == gs[b]);
                    }
                }
            },
        }
    }
}

/// No transition of `ts` joins a pair that none of the groups of `ts` has.
proof fn lemma_no_pair_symbols(
    ts: Seq<(Seq<char>, Seq<char>, Seq<char>)>,
    from: Seq<char>,
    to: Seq<char>,
    gs: Seq<EdgeGroup>,
)
    requires
        forall|k: int|
            0 <= k < ts.len() ==> exists|i: int|
                0 <= i < gs.len() && (#[trigger] gs[i]).0 == (#[trigger] ts[k]).0 && gs[i].1
                    == ts[k].2,
        forall|k: int| 0 <= k < gs.len() ==> !(#[trigger] gs[k].0 == from && gs[k].1 == to),
    ensures
        pair_symbols(ts, from, to) == Seq::<Seq<char>>::empty(),
{
    if pair_symbols(ts, from, to).len() > 0 {
        let k = lemma_pair_symbols_witness(ts, from, to);
        let i = choose|i: int|
            0 <= i < gs.len() && (#[trigger] gs[i]).0 == ts[k].0 && gs[i].1 == ts[k].2;
    }
}

/// A pair with some symbol is joined by some transition.
proof fn lemma_pair_symbols_witness(
    ts: Seq<(Seq<char>, Seq<char>, Seq<char>)>,
    from: Seq<char>,
    to: Seq<char>,
) -> (k: int)
    requires
        pair_symbols(ts, from, to).len() > 0,
    ensures
        0 <= k < ts.len(),
        ts[k].0 == from && ts[k].2 == to,
    decreases ts.len(),
{
    let t0 = ts.drop_last();
    if ts.last().0 == from && ts.last().2 == to {
        ts.len() - 1
    } else {
        let k = lemma_pair_symbols_witness(t0, from, to);
        assert(ts[k] == t0[k]);
        k
    }
}

/// The Graphviz text of an automaton: its header, a node line per state,
/// then one edge line per pair of states joined by transitions, labelled
/// with all the symbols of those transitions sorted and joined with commas.
pub proof fn lemma_dot_text_edges(r: RawModel)
    ensures
        dot_text(r) matches Ok(s) ==> exists|gs: Seq<EdgeGroup>|
            groups_transitions(gs, r.transitions) && s == "digraph DFA {\n"@ + state_lines(r.states)
                + edge_lines(gs) + "}\n"@,
        dot_text(r) is Ok <==> r.states.len() > 0 && r.transitions.len() > 0,
{
    lemma_edge_groups(r.transitions);
}

/// The groups held in three lists side by side.
pub open spec fn groups_of(froms: Seq<String>, tos: Seq<String>, symbols: Seq<Vec<String>>) -> Seq<
    EdgeGroup,
> {
    Seq::new(froms.len(), |i: int| (froms[i]@, tos[i]@, views(symbols[i]@)))
}

/// Appends `parts` joined with commas to `out`.
fn append_joined(out: &mut String, parts: &Vec<String>)
    ensures
        final(out)@ == old(out)@ + join_with(views(parts@), ','),
{
    let ghost start = out@;
    let mut i: usize = 0;
    proof {
        assert(views(parts@).take(0) =~= Seq::<Seq<char>>::empty());
        assert(out@ =~= start + join_with(views(parts@).take(0), ','));
    }
    while i < parts.len()
        invariant
            i <= parts@.len(),
            out@ == start + join_with(views(parts@).take(i as int), ','),
        decreases parts@.len() - i,
    {
        proof {
            reveal_strlit(",");
            let t = views(parts@).take(i + 1);
            assert(t.drop_last() =~= views(parts@).take(i as int));
            assert(t.last() == parts@[i as int]@);
        }
        if i > 0 {
            out.append(",");
        }
        out.append(parts[i].as_str());
        proof {
            assert(out@ =~= start + join_with(views(parts@).take(i + 1), ','));
        }
        i = i + 1;
    }
    proof {
        assert(views(parts@).take(i as int) =~= views(parts@));
    }
}

/// Renders an automaton read from text in the Graphviz `dot` language.
///
/// Each state becomes a node labelled with its name. The transitions
/// between each pair of states become one edge, labelled with their symbols
/// in lexicographic order joined with commas; the edges come in the order in
/// which their pairs first occur among the transitions.
pub fn dfa_to_dot(dfa: &RawDfa) -> (r: Result<String, DfaError>)
    ensures
        match r {
            Ok(s) => dot_text(dfa@) == Ok::<Seq<char>, DfaFault>(s@),
            Err(e) => dot_text(dfa@) == Err::<Seq<char>, DfaFault>(e@),
        },
{
    let mut out = String::new();
    out.append("digraph DFA {\n");

    if dfa.states.len() == 0 {
        return Err(DfaError::NoStatesAvailable);
    }

    let ghost head = out@;
    let mut i: usize = 0;
    proof {
        assert(views(dfa.states@).take(0) =~= Seq::<Seq<char>>::empty());
        assert(out@ =~= head + state_lines(views(dfa.states@).take(0)));
    }
    while i < dfa.states.len()
        invariant
            i <= dfa.states@.len(),
            out@ == head + state_lines(views(dfa.states@).take(i as int)),
        decreases dfa.states@.len() - i,
    {
        let state = dfa.states[i].as_str();
        out.append("  ");
        out.append(state);
        out.append(" [label=\"");
        out.append(state);
        out.append("\"];\n");
        proof {
            let t = views(dfa.states@).take(i + 1);
            assert(t.drop_last() =~= views(dfa.states@).take(i as int));
            assert(t.last() == dfa.states@[i as int]@);
            assert(out@ =~= head + state_lines(t));
        }
        i = i + 1;
    }
    proof {
        assert(views(dfa.states@).take(i as int) =~= views(dfa.states@));
    }

    if dfa.transitions.len() == 0 {
        return Err(DfaError::NoTransitionsAvailable);
    }

    // Group the transitions by their pair of states.
    let ghost ts = dfa@.transitions;
    let mut froms: Vec<String> = Vec::new();
    let mut tos: Vec<String> = Vec::new();
    let mut symbols: Vec<Vec<String>> = Vec::new();
    let mut k: usize = 0;
    proof {
        assert(groups_of(froms@, tos@, symbols@) =~= edge_groups(ts.take(0)));
    }
    while k < dfa.transitions.len()
        invariant
            ts == dfa@.transitions,
            k <= ts.len(),
            froms@.len() == tos@.len(),
            froms@.len() == symbols@.len(),
            groups_of(froms@, tos@, symbols@) == edge_groups(ts.take(k as int)),
        decreases ts.len() - k,
    {
        let t = &dfa.transitions[k];
        let ghost gs = groups_of(froms@, tos@, symbols@);
        proof {
            assert(ts.take(k + 1).drop_last() =~= ts.take(k as int));
            assert(ts.take(k + 1).last() == ts[k as int]);
            assert(ts[k as int] == (t.0@, t.1@, t.2@));
        }
        let mut j: usize = 0;
        let mut found = false;
        while j < froms.len() && !found
            invariant
                gs == groups_of(froms@, tos@, symbols@),
                froms@.len() == tos@.len(),
                froms@.len() == symbols@.len(),
                j <= froms@.len(),
                found ==> j < froms@.len() && find_group(gs, t.0@, t.2@, 0) == Some(j as int),
                !found ==> find_group(gs, t.0@, t.2@, 0) == find_group(gs, t.0@, t.2@, j as int),
            decreases froms@.len() - j + (if found {
                0int
            } else {
                1int
            }),
        {
            if froms[j] == t.0 && tos[j] == t.2 {
                found = true;
            } else {
                j = j + 1;
            }
        }
        if found {
            let sym = t.1.clone();
            symbols[j].push(sym);
            proof {
                assert(groups_of(froms@, tos@, symbols@) =~= gs.update(
                    j as int,
                    (gs[j as int].0, gs[j as int].1, gs[j as int].2.push(t.1@)),
                )) by {
                    assert(views(symbols@[j as int]@) =~= gs[j as int].2.push(t.1@));
                }
            }
        } else {
            froms.push(t.0.clone());
            tos.push(t.2.clone());
            let mut group: Vec<String> = Vec::new();
            group.push(t.1.clone());
            symbols.push(group);
            proof {
                assert(views(symbols@.last()@) =~= seq![t.1@]);
                assert(groups_of(froms@, tos@, symbols@) =~= gs.push((t.0@, t.2@, seq![t.1@])));
            }
        }
        k = k + 1;
    }
    proof {
        assert(ts.take(k as int) =~= ts);
    }

    // Emit one edge per group.
    let ghost gs = groups_of(froms@, tos@, symbols@);
    let ghost mid = out@;
    let mut j: usize = 0;
    proof {
        assert(gs.take(0) =~= Seq::<EdgeGroup>::empty());
        assert(out@ =~= mid + edge_lines(gs.take(0)));
        lemma_lex_order();
    }
    while j < froms.len()
        invariant
            gs == groups_of(froms@, tos@, symbols@),
            froms@.len() == tos@.len(),
            froms@.len() == symbols@.len(),
            j <= froms@.len(),
            out@ == mid + edge_lines(gs.take(j as int)),
            vstd::relations::total_ordering(lex_order()),
        decreases froms@.len() - j,
    {
        let sorted = sort_strings(&symbols[j]);
        proof {
            let syms = views(symbols@[j as int]@);
            syms.lemma_sort_by_ensures(lex_order());
            vstd::seq_lib::lemma_sorted_unique(views(sorted@), syms.sort_by(lex_order()), lex_order());
        }
        out.append("  ");
        out.append(froms[j].as_str());
        out.append(" -> ");
        out.append(tos[j].as_str());
        out.append(" [label=\"");
        append_joined(&mut out, &sorted);
        out.append("\"];\n");
        proof {
            let t = gs.take(j + 1);
            assert(t.drop_last() =~= gs.take(j as int));
            assert(t.last() == gs[j as int]);
            assert(out@ =~= mid + edge_lines(t));
        }
        j = j + 1;
    }
    proof {
        assert(gs.take(j as int) =~= gs);
    }
    out.append("}\n");
    proof {
        assert(out@ =~= dot_text(dfa@)->Ok_0);
    }
    Ok(out)
}

/// The text that reports a fault.
pub open spec fn fault_message(f: DfaFault) -> Seq<char> {
    match f {
        DfaFault::MultipleInitial => "one initial state allowed"@,
        DfaFault::InvalidTransition => "invalid transition present"@,
        DfaFault::TokenOutsideSection => "uncharacterised token"@,
        DfaFault::NoStates => "no states defined"@,
        DfaFault::NoInitial => "no initial state defined"@,
        DfaFault::UnknownAcceptingState(name) => "accepting state '"@ + name + "' is not a declared state"@,
        DfaFault::UnknownSourceState(name) => "transition from unknown state '"@ + name + "'"@,
        DfaFault::UnknownTargetState(name) => "transition to unknown state '"@ + name + "'"@,
        DfaFault::UnknownSymbol(name) => "transition uses unknown symbol '"@ + name + "'"@,
        DfaFault::NoStatesAvailable => "no states available"@,
        DfaFault::NoTransitionsAvailable => "no transitions available"@,
    }
}

impl DfaError {
    /// The text that reports this error.
    pub fn message(&self) -> (r: String)
        ensures
            r@ == fault_message(self@),
    {
        let mut m = String::new();
        match self {
            DfaError::MultipleInitial => {
                m.append("one initial state allowed");
            },
            DfaError::InvalidTransition => {
                m.append("invalid transition present");
            },
            DfaError::TokenOutsideSection => {
                m.append("uncharacterised token");
            },
            DfaError::NoStates => {
                m.append("no states defined");
            },
            DfaError::NoInitial => {
                m.append("no initial state defined");
            },
            DfaError::UnknownAcceptingState(name) => {
                m.append("accepting state '");
                m.append(name.as_str());
                m.append("' is not a declared state");
            },
            DfaError::UnknownSourceState(name) => {
                m.append("transition from unknown state '");
                m.append(name.as_str());
                m.append("'");
            },
            DfaError::UnknownTargetState(name) => {
                m.append("transition to unknown state '");
                m.append(name.as_str());
                m.append("'");
            },
            DfaError::UnknownSymbol(name) => {
                m.append("transition uses unknown symbol '");
                m.append(name.as_str());
                m.append("'");
            },
            DfaError::NoStatesAvailable => {
                m.append("no states available");
            },
            DfaError::NoTransitionsAvailable => {
                m.append("no transitions available");
            },
        }
        proof {
            assert(m@ =~= fault_message(self@));
        }
        m
    }
}

} // verus!
