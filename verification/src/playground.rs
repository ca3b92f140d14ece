//! A small exercise: capitalise the first letter of every word of a text.
use vstd::prelude::*;
use vstd::string::*;
use crate::text::{char_is_whitespace, chars_of, is_whitespace, join_with, string_of};

verus! {

/// The text to capitalise.
#[derive(Debug, Clone, PartialEq)]
pub struct Input {
    pub simple_string: String,
}

/// The capitalised text.
#[derive(Debug, Clone, PartialEq)]
pub struct Output {
    pub capitalised_string: String,
}

/// The verdict on an output.
#[derive(Debug)]
pub enum ValidationResult {
    Correct,
    Mismatch { reason: String },
}

/// The upper-case form of a character beyond ASCII, as `char::to_uppercase`
/// yields it.
pub uninterp spec fn uppercase_beyond_ascii(c: char) -> Seq<char>;

/// `c` is an ASCII character.
pub open spec fn is_ascii_char(c: char) -> bool {
    (c as u32) < 128
}

/// The upper-case form of `c`, as `char::to_uppercase` yields it: an ASCII
/// lower-case letter becomes its capital, any other ASCII character stays
/// as it is (it has no upper-case mapping).
pub open spec fn uppercase_of(c: char) -> Seq<char> {
    if 97 <= (c as u32) <= 122 {
        seq![((c as u32) - 32) as char]
    } else if is_ascii_char(c) {
        seq![c]
    } else {
        uppercase_beyond_ascii(c)
    }
}

/// Collects `char::to_uppercase`. On ASCII its result is stated; beyond
/// ASCII it is named `uppercase_beyond_ascii`, which depends on the
/// character alone.
#[verifier::external_body]
fn to_uppercase(c: char) -> (r: String)
    ensures
        97 <= (c as u32) <= 122 ==> r@ == seq![((c as u32) - 32) as char],
        is_ascii_char(c) && !(97 <= (c as u32) <= 122) ==> r@ == seq![c],
        !is_ascii_char(c) ==> r@ == uppercase_beyond_ascii(c),
{
    c.to_uppercase().collect()
}

/// The `Debug` form of a string (quoted, with escapes).
pub uninterp spec fn debug_text(s: Seq<char>) -> Seq<char>;

/// Formats `s` with `{:?}`; the result is named `debug_text`, which depends
/// on the text alone.
#[verifier::external_body]
fn debug_quoted(s: &String) -> (r: String)
    ensures
        r@ == debug_text(s@),
{
    format!("{:?}", s)
}

/// The words of `s`: its maximal runs of characters that are not white
/// space, as `str::split_whitespace` yields them.
pub open spec fn words(s: Seq<char>) -> Seq<Seq<char>>
    decreases s.len(),
{
    if s.len() == 0 {
        seq![]
    } else {
        let before = words(s.drop_last());
        let c = s.last();
        if char_is_whitespace(c) {
            before
        } else if s.len() > 1 && !char_is_whitespace(s[s.len() - 2]) {
            before.update(before.len() - 1, before.last().push(c))
        } else {
            before.push(seq![c])
        }
    }
}

/// `w` with its first character in upper case.
pub open spec fn capitalised_word(w: Seq<char>) -> Seq<char> {
    if w.len() == 0 {
        seq![]
    } else {
        uppercase_of(w[0]) + w.drop_first()
    }
}

/// The words of `s`, each capitalised, joined with single spaces.
pub open spec fn capitalised(s: Seq<char>) -> Seq<char> {
    join_with(words(s).map_values(|w: Seq<char>| capitalised_word(w)), ' ')
}

/// A text that ends inside a word has a word.
proof fn lemma_words_nonempty(s: Seq<char>)
    requires
        s.len() > 0,
        !char_is_whitespace(s.last()),
    ensures
        words(s).len() > 0,
    decreases s.len(),
{
    if s.len() > 1 && !char_is_whitespace(s[s.len() - 2]) {
        assert(s.drop_last().last() == s[s.len() - 2]);
        lemma_words_nonempty(s.drop_last());
    }
}

/// No word is empty.
proof fn lemma_words_not_empty(s: Seq<char>)
    ensures
        forall|k: int| 0 <= k < words(s).len() ==> (#[trigger] words(s)[k]).len() > 0,
    decreases s.len(),
{
    if s.len() > 0 {
        let before = words(s.drop_last());
        lemma_words_not_empty(s.drop_last());
        let c = s.last();
        if !char_is_whitespace(c) && s.len() > 1 && !char_is_whitespace(s[s.len() - 2]) {
            assert(s.drop_last().last() == s[s.len() - 2]);
            lemma_words_nonempty(s.drop_last());
            let after = before.update(before.len() - 1, before.last().push(c));
            assert forall|k: int| 0 <= k < after.len() implies (#[trigger] after[k]).len() > 0 by {
                if k < before.len() - 1 {
                    assert(after[k] == before[k]);
                }
            }
        } else if !char_is_whitespace(c) {
            let after = before.push(seq![c]);
            assert forall|k: int| 0 <= k < after.len() implies (#[trigger] after[k]).len() > 0 by {
                if k < before.len() {
                    assert(after[k] == before[k]);
                }
            }
        }
    }
}

/// Adding a character to the last part adds it to the end of the joined text.
proof fn lemma_join_extend_last(parts: Seq<Seq<char>>, c: char, sep: char)
    requires
        parts.len() > 0,
    ensures
        join_with(parts.update(parts.len() - 1, parts.last().push(c)), sep) == join_with(
            parts,
            sep,
        ).push(c),
{
    let p2 = parts.update(parts.len() - 1, parts.last().push(c));
    if parts.len() > 1 {
        assert(p2.drop_last() =~= parts.drop_last());
        assert(join_with(p2, sep) =~= join_with(parts, sep).push(c));
    }
}

/// Capitalises the first letter of every word of `s` and joins the words
/// with single spaces.
pub fn capitalise(s: &str) -> (r: String)
    ensures
        r@ == capitalised(s@),
{
    let cs = chars_of(s);
    let mut out: Vec<char> = Vec::new();
    let mut any_word = false;
    let mut i: usize = 0;
    let ghost f = |w: Seq<char>| capitalised_word(w);
    proof {
        assert(cs@.take(0) =~= Seq::<char>::empty());
        assert(words(cs@.take(0)).map_values(f) =~= Seq::<Seq<char>>::empty());
    }
    while i < cs.len()
        invariant
            cs@ == s@,
            i <= cs@.len(),
            f == (|w: Seq<char>| capitalised_word(w)),
            out@ == join_with(words(cs@.take(i as int)).map_values(f), ' '),
            any_word == (words(cs@.take(i as int)).len() > 0),
        decreases cs@.len() - i,
    {
        let c = cs[i];
        let ghost prefix = cs@.take(i as int);
        let ghost ws = words(prefix);
        proof {
            assert(cs@.take(i + 1).drop_last() =~= prefix);
            assert(cs@.take(i + 1).last() == c);
        }
        if is_whitespace(c) {
        } else if i > 0 && !is_whitespace(cs[i - 1]) {
            proof {
                assert(cs@.take(i + 1)[i - 1] == cs@[i - 1]);
                assert(prefix.last() == cs@[i - 1]);
                lemma_words_nonempty(prefix);
                let caps = ws.map_values(f);
                let ws2 = ws.update(ws.len() - 1, ws.last().push(c));
                lemma_words_not_empty(prefix);
                assert(ws.last().len() > 0);
                assert(ws.last().push(c).drop_first() =~= ws.last().drop_first().push(c));
                assert(ws2.map_values(f) =~= caps.update(caps.len() - 1, caps.last().push(c))) by {
                    assert(capitalised_word(ws.last().push(c)) =~= capitalised_word(ws.last()).push(c));
                }
                lemma_join_extend_last(caps, c, ' ');
            }
            out.push(c);
        } else {
            if any_word {
                out.push(' ');
            }
            let upper = to_uppercase(c);
            proof {
                assert(upper@ == uppercase_of(c));
            }
            let uc = chars_of(upper.as_str());
            let ghost before = out@;
            let mut k: usize = 0;
            while k < uc.len()
                invariant
                    k <= uc@.len(),
                    out@ == before + uc@.take(k as int),
                decreases uc@.len() - k,
            {
                out.push(uc[k]);
                proof {
                    assert(uc@.take(k + 1) =~= uc@.take(k as int).push(uc@[k as int]));
                }
                k = k + 1;
            }
            proof {
                assert(uc@.take(k as int) =~= uppercase_of(c));
                let caps = ws.map_values(f);
                let ws2 = ws.push(seq![c]);
                assert(capitalised_word(seq![c]) =~= uppercase_of(c));
                assert(ws2.map_values(f) =~= caps.push(uppercase_of(c)));
                assert(caps.push(uppercase_of(c)).drop_last() =~= caps);
                if i > 0 {
                    assert(cs@.take(i + 1)[i - 1] == cs@[i - 1]);
                }
                assert(out@ =~= join_with(ws2.map_values(f), ' '));
            }
            any_word = true;
        }
        i = i + 1;
    }
    proof {
        assert(cs@.take(i as int) =~= cs@);
    }
    string_of(&out, 0, out.len())
}

/// Capitalises the input's text.
pub fn run(input: &Input) -> (r: Output)
    ensures
        r.capitalised_string@ == capitalised(input.simple_string@),
{
    Output { capitalised_string: capitalise(input.simple_string.as_str()) }
}

/// Checks an output against the capitalised input: a mismatch reports both
/// texts in their `Debug` form.
pub fn validate(input: &Input, output: &Output) -> (r: ValidationResult)
    ensures
        match r {
            ValidationResult::Correct => output.capitalised_string@ == capitalised(
                input.simple_string@,
            ),
            ValidationResult::Mismatch { reason } => output.capitalised_string@ != capitalised(
                input.simple_string@,
            ) && reason@ == "Did not produce same as reference. Output: result="@ + debug_text(
                output.capitalised_string@,
            ) + "; Reference: result="@ + debug_text(capitalised(input.simple_string@)) + ";"@,
        },
{
    let reference = run(input);
    if reference.capitalised_string == output.capitalised_string {
        ValidationResult::Correct
    } else {
        let mut reason = String::new();
        reason.append("Did not produce same as reference. Output: result=");
        let out_text = debug_quoted(&output.capitalised_string);
        reason.append(out_text.as_str());
        reason.append("; Reference: result=");
        let ref_text = debug_quoted(&reference.capitalised_string);
        reason.append(ref_text.as_str());
        reason.append(";");
        proof {
            assert(reason@ =~= "Did not produce same as reference. Output: result="@ + debug_text(
                output.capitalised_string@,
            ) + "; Reference: result="@ + debug_text(capitalised(input.simple_string@)) + ";"@);
        }
        ValidationResult::Mismatch { reason }
    }
}

/// `s` is ASCII text.
pub open spec fn is_ascii_text(s: Seq<char>) -> bool {
    forall|i: int| 0 <= i < s.len() ==> is_ascii_char(#[trigger] s[i])
}

/// A word: not empty, and without white space.
pub open spec fn is_word(w: Seq<char>) -> bool {
    &&& w.len() > 0
    &&& forall|i: int| 0 <= i < w.len() ==> !char_is_whitespace(#[trigger] w[i])
}

/// The words of a text are words, and ASCII when the text is.
proof fn lemma_words_are_words(s: Seq<char>)
    ensures
        forall|k: int| 0 <= k < words(s).len() ==> is_word(#[trigger] words(s)[k]),
        is_ascii_text(s) ==> forall|k: int|
            0 <= k < words(s).len() ==> is_ascii_text(#[trigger] words(s)[k]),
    decreases s.len(),
{
    if s.len() > 0 {
        let s0 = s.drop_last();
        assert(is_ascii_text(s) ==> is_ascii_text(s0)) by {
            if is_ascii_text(s) {
                assert forall|i: int| 0 <= i < s0.len() implies is_ascii_char(#[trigger] s0[i]) by {
                    assert(s0[i] == s[i]);
                }
            }
        }
        lemma_words_are_words(s0);
        let before = words(s0);
        let c = s.last();
        assert(is_ascii_text(s) ==> is_ascii_char(c));
        if !char_is_whitespace(c) && s.len() > 1 && !char_is_whitespace(s[s.len() - 2]) {
            assert(s0.last() == s[s.len() - 2]);
            lemma_words_nonempty(s0);
            let w = before.last().push(c);
            let after = before.update(before.len() - 1, w);
            assert(is_word(before[before.len() - 1]));
            assert(is_word(w)) by {
                assert forall|i: int| 0 <= i < w.len() implies !char_is_whitespace(#[trigger] w[i]) by {
                    if i < w.len() - 1 {
                        assert(w[i] == before.last()[i]);
                    }
                }
            }
            assert forall|k: int| 0 <= k < after.len() implies is_word(#[trigger] after[k]) by {
                if k < before.len() - 1 {
                    assert(after[k] == before[k]);
                }
            }
            if is_ascii_text(s) {
                assert(is_ascii_text(before[before.len() - 1]));
                assert(is_ascii_text(w)) by {
                    assert forall|i: int| 0 <= i < w.len() implies is_ascii_char(#[trigger] w[i]) by {
                        if i < w.len() - 1 {
                            assert(w[i] == before.last()[i]);
                        }
                    }
                }
                assert forall|k: int| 0 <= k < after.len() implies is_ascii_text(#[trigger] after[k]) by {
                    if k < before.len() - 1 {
                        assert(after[k] == before[k]);
                    }
                }
            }
        } else if !char_is_whitespace(c) {
            let after = before.push(seq![c]);
            assert(is_word(seq![c]));
            assert forall|k: int| 0 <= k < after.len() implies is_word(#[trigger] after[k]) by {
                if k < before.len() {
                    assert(after[k] == before[k]);
                }
            }
            if is_ascii_text(s) {
                assert(is_ascii_text(seq![c]));
                assert forall|k: int| 0 <= k < after.len() implies is_ascii_text(#[trigger] after[k]) by {
                    if k < before.len() {
                        assert(after[k] == before[k]);
                    }
                }
            }
        }
    }
}

/// A word is its own only word.
proof fn lemma_words_of_word(w: Seq<char>)
    requires
        is_word(w),
    ensures
        words(w) == seq![w],
    decreases w.len(),
{
    let w0 = w.drop_last();
    if w.len() == 1 {
        assert(w0.len() == 0);
        assert(words(w0) == Seq::<Seq<char>>::empty());
        assert(!char_is_whitespace(w[0]));
        assert(w.last() == w[0]);
        assert(seq![w.last()] =~= w);
        assert(words(w) == words(w0).push(seq![w.last()]));
        assert(Seq::<Seq<char>>::empty().push(seq![w.last()]) =~= seq![w]);
    } else {
        assert(is_word(w0)) by {
            assert forall|i: int| 0 <= i < w0.len() implies !char_is_whitespace(#[trigger] w0[i]) by {
                assert(w0[i] == w[i]);
            }
        }
        lemma_words_of_word(w0);
        assert(!char_is_whitespace(w[w.len() - 2]));
        assert(!char_is_whitespace(w.last()));
        assert(w0.push(w.last()) =~= w);
        assert(w0.last() == w[w.len() - 2]);
        assert(words(w) == words(w0).update(0, w0.push(w.last())));
        assert(seq![w0].update(0, w0.push(w.last())) =~= seq![w]);
    }
}

/// A space and a word after a text add that word to its words.
proof fn lemma_words_append_word(x: Seq<char>, w: Seq<char>)
    requires
        is_word(w),
    ensures
        words(x + seq![' '] + w) == words(x).push(w),
    decreases w.len(),
{
    let xs = x + seq![' '];
    assert(char_is_whitespace(' '));
    assert(xs.drop_last() =~= x);
    assert(words(xs) == words(x));
    let y = xs + w;
    assert(y.drop_last() =~= xs + w.drop_last());
    assert(y.last() == w.last());
    if w.len() == 1 {
        assert(w.drop_last() =~= Seq::<char>::empty());
        assert(xs + w.drop_last() =~= xs);
        assert(y[y.len() - 2] == ' ');
        assert(seq![w.last()] =~= w);
    } else {
        let w0 = w.drop_last();
        assert(is_word(w0)) by {
            assert forall|i: int| 0 <= i < w0.len() implies !char_is_whitespace(#[trigger] w0[i]) by {
                assert(w0[i] == w[i]);
            }
        }
        lemma_words_append_word(x, w0);
        assert(y[y.len() - 2] == w[w.len() - 2]);
        assert(!char_is_whitespace(w.last()));
        let before = words(x).push(w0);
        assert(before.update(before.len() - 1, before.last().push(w.last())) =~= words(x).push(w)) by {
            assert(w0.push(w.last()) =~= w);
        }
    }
}

/// The words of words joined with spaces are those words.
proof fn lemma_words_of_join(ws: Seq<Seq<char>>)
    requires
        forall|k: int| 0 <= k < ws.len() ==> is_word(#[trigger] ws[k]),
    ensures
        words(join_with(ws, ' ')) == ws,
    decreases ws.len(),
{
    if ws.len() == 1 {
        lemma_words_of_word(ws[0]);
        assert(seq![ws[0]] =~= ws);
    } else if ws.len() > 1 {
        let ws0 = ws.drop_last();
        assert forall|k: int| 0 <= k < ws0.len() implies is_word(#[trigger] ws0[k]) by {
            assert(ws0[k] == ws[k]);
        }
        lemma_words_of_join(ws0);
        assert(is_word(ws[ws.len() - 1]));
        lemma_words_append_word(join_with(ws0, ' '), ws.last());
        assert(ws0.push(ws.last()) =~= ws);
    } else {
        assert(ws =~= Seq::<Seq<char>>::empty());
    }
}

/// Capitalising an ASCII word gives an ASCII word, and doing it again
/// changes nothing.
proof fn lemma_capitalised_word(w: Seq<char>)
    requires
        is_word(w),
        is_ascii_text(w),
    ensures
        is_word(capitalised_word(w)),
        is_ascii_text(capitalised_word(w)),
        capitalised_word(capitalised_word(w)) == capitalised_word(w),
{
    let c = w[0];
    assert(is_ascii_char(c));
    assert(!char_is_whitespace(c));
    let u = uppercase_of(c);
    assert(u.len() == 1);
    let d = u[0];
    assert(is_ascii_char(d));
    assert(!char_is_whitespace(d));
    assert(!(97 <= (d as u32) <= 122));
    assert(uppercase_of(d) == seq![d]);
    let cw = capitalised_word(w);
    assert(cw =~= seq![d] + w.drop_first());
    assert forall|i: int| 0 <= i < cw.len() implies !char_is_whitespace(#[trigger] cw[i])
        && is_ascii_char(cw[i]) by {
        if i > 0 {
            assert(cw[i] == w[i]);
        }
    }
    assert(cw[0] == d);
    assert(cw.drop_first() =~= w.drop_first());
    assert(capitalised_word(cw) =~= cw);
}

/// Capitalising ASCII text twice gives the same as capitalising it once.
pub proof fn lemma_capitalise_idempotent(s: Seq<char>)
    requires
        is_ascii_text(s),
    ensures
        capitalised(capitalised(s)) == capitalised(s),
{
    let f = |w: Seq<char>| capitalised_word(w);
    let ws = words(s);
    let caps = ws.map_values(f);
    lemma_words_are_words(s);
    assert forall|k: int| 0 <= k < caps.len() implies is_word(#[trigger] caps[k]) && caps[k] == f(
        caps[k],
    ) by {
        assert(is_word(ws[k]) && is_ascii_text(ws[k]));
        lemma_capitalised_word(ws[k]);
    }
    lemma_words_of_join(caps);
    assert(words(capitalised(s)) == caps);
    assert(caps.map_values(f) =~= caps);
}

/// `b` is the byte of a lower-case ASCII letter.
pub open spec fn is_lower_byte(b: u8) -> bool {
    97 <= b <= 122
}

/// `c` is a lower-case ASCII letter.
pub open spec fn is_lower_letter(c: char) -> bool {
    'a' <= c <= 'z'
}

/// Letters drawn as bytes, as text.
pub open spec fn letters_text(letters: Seq<u8>) -> Seq<char> {
    letters.map_values(|b: u8| b as char)
}

/// The sum of the word lengths.
pub open spec fn total(lens: Seq<usize>) -> nat
    decreases lens.len(),
{
    if lens.len() == 0 {
        0
    } else {
        total(lens.drop_last()) + (lens.last() as nat)
    }
}

/// Words of the given lengths cut in order from `letters`, each followed by
/// a space.
pub open spec fn words_text(lens: Seq<usize>, letters: Seq<u8>) -> Seq<char>
    decreases lens.len(),
{
    if lens.len() == 0 {
        seq![]
    } else {
        let start = total(lens.drop_last()) as int;
        words_text(lens.drop_last(), letters) + letters_text(
            letters.subrange(start, start + lens.last()),
        ) + seq![' ']
    }
}

/// The text of a generated task of the given kind: kind 0 is a word of the
/// first twelve letters, kind 1 a sequence of words of the given lengths,
/// each followed by a space, and any other kind the first `run_len` letters.
pub open spec fn generated_text(
    kind: u32,
    lens: Seq<usize>,
    run_len: usize,
    letters: Seq<u8>,
) -> Seq<char> {
    if kind == 0 {
        letters_text(letters.take(12))
    } else if kind == 1 {
        words_text(lens, letters)
    } else {
        letters_text(letters.take(run_len as int))
    }
}

/// `t` is words of the lengths `lens`, lower-case letters each, each followed
/// by one space.
pub open spec fn spaced_words(t: Seq<char>, lens: Seq<usize>) -> bool
    decreases lens.len(),
{
    if lens.len() == 0 {
        t.len() == 0
    } else {
        let n = lens.last() as int;
        let start = t.len() - n - 1;
        &&& start >= 0
        &&& t.last() == ' '
        &&& forall|i: int| start <= i < t.len() - 1 ==> is_lower_letter(#[trigger] t[i])
        &&& spaced_words(t.take(start), lens.drop_last())
    }
}

/// The lengths of the words of a generated task: one to five words of seven
/// to twelve letters.
pub open spec fn word_lengths_drawn(lens: Seq<usize>) -> bool {
    &&& 1 <= lens.len() <= 5
    &&& forall|i: int| 0 <= i < lens.len() ==> 7 <= #[trigger] lens[i] <= 12
}

/// A task to capitalise, put together from drawn values: its kind (drawn
/// from `0..4`), for kind 1 the lengths of its words (one to five, each
/// drawn from `7..=12`), for kinds from 2 on the length of its run (drawn
/// from `1..50`), and lower-case letters, as many as the kind uses or more.
/// Kind 0 is a word of twelve letters, kind 1 the words of the given lengths
/// each followed by a space, any other kind a run of `run_len` letters.
pub fn playground_input(kind: u32, word_lens: &Vec<usize>, run_len: usize, letters: &Vec<u8>) -> (r:
    Input)
    requires
        forall|i: int| 0 <= i < letters@.len() ==> is_lower_byte(#[trigger] letters@[i]),
        kind == 0 ==> 12 <= letters@.len(),
        kind == 1 ==> word_lengths_drawn(word_lens@) && total(word_lens@) <= letters@.len(),
        kind >= 2 ==> 1 <= run_len <= 49 && run_len <= letters@.len(),
    ensures
        r.simple_string@ == generated_text(kind, word_lens@, run_len, letters@),
        1 <= r.simple_string@.len() <= 65,
        forall|i: int|
            0 <= i < r.simple_string@.len() ==> is_lower_letter(#[trigger] r.simple_string@[i])
                || r.simple_string@[i] == ' ',
        kind == 0 ==> r.simple_string@.len() == 12,
        kind != 1 ==> 1 <= r.simple_string@.len() <= 49 && forall|i: int|
            0 <= i < r.simple_string@.len() ==> is_lower_letter(#[trigger] r.simple_string@[i]),
        kind == 1 ==> spaced_words(r.simple_string@, word_lens@),
{
    let mut out: Vec<char> = Vec::new();
    let n: usize = letters.len();
    if kind == 0 {
        push_letters(&mut out, letters, 0, 12);
        proof {
            assert(letters@.subrange(0, 12) =~= letters@.take(12));
        }
    } else if kind == 1 {
        let mut pos: usize = 0;
        let mut k: usize = 0;
        proof {
            assert(word_lens@.take(0) =~= Seq::<usize>::empty());
        }
        while k < word_lens.len()
            invariant
                total(word_lens@) <= letters@.len(),
                letters@.len() == n,
                forall|i: int| 0 <= i < letters@.len() ==> is_lower_byte(#[trigger] letters@[i]),
                k <= word_lens@.len(),
                pos == total(word_lens@.take(k as int)),
                out@ == words_text(word_lens@.take(k as int), letters@),
            decreases word_lens@.len() - k,
        {
            proof {
                lemma_total_prefix(word_lens@, k + 1);
                assert(word_lens@.take(k + 1).drop_last() =~= word_lens@.take(k as int));
                assert(word_lens@.take(k + 1).last() == word_lens@[k as int]);
            }
            let len = word_lens[k];
            push_letters(&mut out, letters, pos, pos + len);
            out.push(' ');
            proof {
                assert(out@ =~= words_text(word_lens@.take(k + 1), letters@));
            }
            pos = pos + len;
            k = k + 1;
        }
        proof {
            assert(word_lens@.take(k as int) =~= word_lens@);
            lemma_words_text_shape(word_lens@, letters@);
            lemma_total_bounds(word_lens@);
        }
    } else {
        push_letters(&mut out, letters, 0, run_len);
        proof {
            assert(letters@.subrange(0, run_len as int) =~= letters@.take(run_len as int));
        }
    }
    let text = string_of(&out, 0, out.len());
    proof {
        assert(text@ =~= out@);
    }
    Input { simple_string: text }
}

/// Appends the letters `letters[lo..hi]` to `out`.
fn push_letters(out: &mut Vec<char>, letters: &Vec<u8>, lo: usize, hi: usize)
    requires
        lo <= hi <= letters@.len(),
        forall|i: int| 0 <= i < letters@.len() ==> is_lower_byte(#[trigger] letters@[i]),
    ensures
        final(out)@ == old(out)@ + letters_text(letters@.subrange(lo as int, hi as int)),
        forall|i: int|
            old(out)@.len() <= i < final(out)@.len() ==> is_lower_letter(#[trigger] final(out)@[i]),
{
    let ghost start = out@;
    let mut i: usize = lo;
    proof {
        assert(letters_text(letters@.subrange(lo as int, lo as int)) =~= Seq::<char>::empty());
        assert(out@ =~= start + Seq::<char>::empty());
    }
    while i < hi
        invariant
            lo <= i <= hi,
            hi <= letters@.len(),
            out@ == start + letters_text(letters@.subrange(lo as int, i as int)),
        decreases hi - i,
    {
        out.push(letters[i] as char);
        proof {
            assert(letters_text(letters@.subrange(lo as int, i + 1)) =~= letters_text(
                letters@.subrange(lo as int, i as int),
            ).push(letters@[i as int] as char));
        }
        i = i + 1;
    }
    proof {
        assert forall|i: int| start.len() <= i < out@.len() implies is_lower_letter(
            #[trigger] out@[i],
        ) by {
            let b = letters@[lo + i - start.len()];
            assert(is_lower_byte(b));
            assert(out@[i] == b as char);
        }
    }
}

/// The text of words cut from lower-case letters is those words, each
/// followed by a space, and is as long as the words and spaces together.
proof fn lemma_words_text_shape(lens: Seq<usize>, letters: Seq<u8>)
    requires
        total(lens) <= letters.len(),
        forall|i: int| 0 <= i < letters.len() ==> is_lower_byte(#[trigger] letters[i]),
    ensures
        words_text(lens, letters).len() == total(lens) + lens.len(),
        spaced_words(words_text(lens, letters), lens),
        forall|i: int|
            0 <= i < words_text(lens, letters).len() ==> is_lower_letter(
                #[trigger] words_text(lens, letters)[i],
            ) || words_text(lens, letters)[i] == ' ',
    decreases lens.len(),
{
    if lens.len() > 0 {
        let rest = lens.drop_last();
        lemma_words_text_shape(rest, letters);
        let start = total(rest) as int;
        let word = letters_text(letters.subrange(start, start + lens.last()));
        let prev = words_text(rest, letters);
        let t = words_text(lens, letters);
        assert(t == prev + word + seq![' ']);
        assert(t.take(t.len() - lens.last() - 1) =~= prev);
        assert forall|i: int| t.len() - lens.last() - 1 <= i < t.len() - 1 implies is_lower_letter(
            #[trigger] t[i],
        ) by {
            let b = letters[start + i - prev.len()];
            assert(is_lower_byte(b));
            assert(t[i] == b as char);
        }
        assert forall|i: int| 0 <= i < t.len() implies is_lower_letter(#[trigger] t[i]) || t[i]
            == ' ' by {
            if i < prev.len() {
                assert(t[i] == prev[i]);
            }
        }
    }
}

/// One to five words of seven to twelve letters make up seven to sixty
/// letters.
proof fn lemma_total_bounds(lens: Seq<usize>)
    requires
        forall|i: int| 0 <= i < lens.len() ==> 7 <= #[trigger] lens[i] <= 12,
    ensures
        7 * lens.len() <= total(lens) <= 12 * lens.len(),
    decreases lens.len(),
{
    if lens.len() > 0 {
        let rest = lens.drop_last();
        assert forall|i: int| 0 <= i < rest.len() implies 7 <= #[trigger] rest[i] <= 12 by {
            assert(rest[i] == lens[i]);
        }
        lemma_total_bounds(rest);
        assert(lens.last() == lens[lens.len() - 1]);
    }
}

/// A prefix of the lengths sums to at most the whole.
proof fn lemma_total_prefix(lens: Seq<usize>, k: int)
    requires
        0 <= k <= lens.len(),
    ensures
        total(lens.take(k)) <= total(lens),
    decreases lens.len() - k,
{
    if k < lens.len() {
        lemma_total_prefix(lens, k + 1);
        assert(lens.take(k + 1).drop_last() =~= lens.take(k));
    } else {
        assert(lens.take(k) =~= lens);
    }
}

} // verus!
