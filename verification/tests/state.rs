use sentence_extractor::ParserState;

fn state(sentence: &str, in_code_block: bool, in_preamble: bool) -> ParserState {
    ParserState { sentence: sentence.to_string(), in_code_block, in_preamble }
}

fn none() -> Vec<String> {
    Vec::new()
}

#[test]
fn new_state_is_empty() {
    assert_eq!(ParserState::new(), state("", false, false));
}

#[test]
fn blank_line_changes_nothing() {
    for (code, preamble) in [(false, false), (true, false), (false, true), (true, true)] {
        let mut s = state("kept", code, preamble);
        assert_eq!(s.step(""), none());
        assert_eq!(s, state("kept", code, preamble));
    }
}

#[test]
fn heading_changes_nothing() {
    for (code, preamble) in [(false, false), (true, false), (false, true), (true, true)] {
        let mut s = state("kept", code, preamble);
        assert_eq!(s.step("# Title. With a break."), none());
        assert_eq!(s, state("kept", code, preamble));
    }
}

#[test]
fn delimiter_flips_preamble() {
    let mut s = state("kept", false, false);
    assert_eq!(s.step("---"), none());
    assert_eq!(s, state("kept", false, true));
    assert_eq!(s.step("--- again"), none());
    assert_eq!(s, state("kept", false, false));
}

#[test]
fn delimiter_flips_preamble_inside_code_block() {
    let mut s = state("kept", true, false);
    assert_eq!(s.step("----"), none());
    assert_eq!(s, state("kept", true, true));
}

#[test]
fn preamble_drops_lines() {
    let mut s = state("kept", false, true);
    assert_eq!(s.step("title: X."), none());
    assert_eq!(s.step("a. b"), none());
    assert_eq!(s.step("```"), none());
    assert_eq!(s, state("kept", false, true));
}

#[test]
fn opening_fence_only_sets_the_flag() {
    let mut s = state("kept ", false, false);
    assert_eq!(s.step("```rust"), none());
    assert_eq!(s, state("kept ", true, false));
}

#[test]
fn closing_fence_completes_the_pending_text() {
    let mut s = state("let x = 1;\n", true, false);
    assert_eq!(s.step("```"), vec!["let x = 1;\n".to_string()]);
    assert_eq!(s, state("", false, false));
}

#[test]
fn closing_fence_completes_even_nothing() {
    let mut s = state("", true, false);
    assert_eq!(s.step("```"), vec![String::new()]);
    assert_eq!(s, state("", false, false));
}

#[test]
fn line_with_breaks_is_cut() {
    let mut s = state("It ", false, false);
    assert_eq!(
        s.step("was. It is. It will"),
        vec!["It was.".to_string(), "It is.".to_string()]
    );
    assert_eq!(s, state("It will ", false, false));
}

#[test]
fn line_with_only_empty_fragments_keeps_pending() {
    let mut s = state("kept", false, false);
    assert_eq!(s.step(". . "), none());
    assert_eq!(s, state("kept", false, false));
}

#[test]
fn empty_last_fragment_adds_no_space() {
    let mut s = state("", false, false);
    assert_eq!(s.step("Done. "), vec!["Done.".to_string()]);
    assert_eq!(s, state("", false, false));
}

#[test]
fn break_is_kept_inside_code_block() {
    let mut s = state("", true, false);
    assert_eq!(s.step("a. b"), none());
    assert_eq!(s, state("a. b\n", true, false));
}

#[test]
fn closing_period_completes() {
    let mut s = state("Hello ", false, false);
    assert_eq!(s.step("world."), vec!["Hello world.".to_string()]);
    assert_eq!(s, state("", false, false));
}

#[test]
fn closing_period_completes_inside_code_block() {
    let mut s = state("a\n", true, false);
    assert_eq!(s.step("b."), vec!["a\nb.".to_string()]);
    assert_eq!(s, state("", true, false));
}

#[test]
fn single_period_is_a_sentence() {
    let mut s = state("", false, false);
    assert_eq!(s.step("."), vec![".".to_string()]);
}

#[test]
fn continuation_adds_a_space_in_prose() {
    let mut s = state("one ", false, false);
    assert_eq!(s.step("two"), none());
    assert_eq!(s, state("one two ", false, false));
}

#[test]
fn continuation_adds_a_line_feed_in_code() {
    let mut s = state("one\n", true, false);
    assert_eq!(s.step("two"), none());
    assert_eq!(s, state("one\ntwo\n", true, false));
}

#[test]
fn step_takes_a_line_with_a_line_feed_as_it_is() {
    let mut s = state("", false, false);
    assert_eq!(s.step("a\nb."), vec!["a\nb.".to_string()]);
}

#[test]
fn steps_in_a_row_equal_a_parse() {
    let text = "---\nt: 1\n---\n# H\nOne. Two\nthree.\n```\nx\n```\n";
    let mut s = ParserState::new();
    let mut all: Vec<String> = Vec::new();
    for line in ["---", "t: 1", "---", "# H", "One. Two", "three.", "```", "x", "```"] {
        all.extend(s.step(line));
    }
    assert_eq!(all, sentence_extractor::parse(text));
    assert_eq!(all, vec!["One.".to_string(), "Two three.".to_string(), "x\n".to_string()]);
}
