use ce_minimizer::playground::{
    capitalise, playground_input, run, validate, Input, Output, ValidationResult,
};

#[test]
fn capitalise_words() {
    assert_eq!(capitalise("hello world"), "Hello World");
    assert_eq!(capitalise("  many   spaces\there\n"), "Many Spaces Here");
    assert_eq!(capitalise(""), "");
    assert_eq!(capitalise("   "), "");
    assert_eq!(capitalise("already Capital 1st"), "Already Capital 1st");
    assert_eq!(capitalise("straße ßtraße"), "Straße SStraße");
}

#[test]
fn run_and_validate() {
    let input = Input { simple_string: "abc def".to_string() };
    let out = run(&input);
    assert_eq!(out.capitalised_string, "Abc Def");
    assert!(matches!(validate(&input, &out), ValidationResult::Correct));
    let wrong = Output { capitalised_string: "abc Def".to_string() };
    match validate(&input, &wrong) {
        ValidationResult::Mismatch { reason } => assert_eq!(
            reason,
            "Did not produce same as reference. Output: result=\"abc Def\"; Reference: result=\"Abc Def\";"
        ),
        ValidationResult::Correct => panic!("mismatch expected"),
    }
}

#[test]
fn capitalising_ascii_twice_is_capitalising_once() {
    for s in ["hello world", "  a b\tc ", "x1y z_w", "ALREADY done", ""] {
        let once = capitalise(s);
        assert_eq!(capitalise(&once), once);
    }
    let input = Input { simple_string: "abc  def".to_string() };
    let out = run(&input);
    let again = run(&Input { simple_string: out.capitalised_string.clone() });
    assert_eq!(again.capitalised_string, out.capitalised_string);
}

#[test]
fn generated_inputs_are_put_together_from_the_draws() {
    let letters: Vec<u8> = b"abcdefghijklmnopqrstuvwxyz".to_vec();
    let single = playground_input(0, &vec![], 0, &letters);
    assert_eq!(single.simple_string, "abcdefghijkl");
    let words = playground_input(1, &vec![7, 8], 0, &letters[..15].to_vec());
    assert_eq!(words.simple_string, "abcdefg hijklmno ");
    let run_of = playground_input(3, &vec![], 3, &letters);
    assert_eq!(run_of.simple_string, "abc");
    let one = playground_input(2, &vec![], 1, &letters[..1].to_vec());
    assert_eq!(one.simple_string, "a");
}

#[test]
fn longest_generated_text_has_sixty_five_characters() {
    let letters: Vec<u8> = std::iter::repeat(b'z').take(60).collect();
    let words = playground_input(1, &vec![12, 12, 12, 12, 12], 0, &letters);
    assert_eq!(words.simple_string.len(), 65);
    assert!(words.simple_string.ends_with("zzzzzzzzzzzz "));
    let run_of = playground_input(2, &vec![], 49, &letters);
    assert_eq!(run_of.simple_string, "z".repeat(49));
}
