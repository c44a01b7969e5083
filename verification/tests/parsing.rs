use sentence_extractor::{get_sentences, parse};

fn owned(sentences: &[&str]) -> Vec<String> {
    sentences.iter().map(|s| s.to_string()).collect()
}

fn path_buf_article() -> String {
    [
        "---",
        "title: Extracting a file name",
        "date: 2022-03-02",
        "---",
        "",
        "# Extracting a file name from a path",
        "",
        "The following piece of code takes a `PathBuf` and extracts the file name, eventually converting it to an _owned_ `String`.",
        "",
        "```rust",
        "let name = path.file_name().unwrap().to_str().unwrap().to_owned();",
        "```",
        "",
        "It panics on paths that end in two dots.",
        "",
    ]
    .join("\n")
}

fn typescript_article() -> String {
    [
        "---",
        "title: Iterating over objects",
        "---",
        "",
        "## The problem",
        "",
        "There is rarely a head-scratcher in TypeScript as prominent as trying to access an object property via iterating through its keys.",
        "The compiler widens the key to a string. That is by design.",
        "",
    ]
    .join("\n")
}

#[test]
fn correct_articles() {
    let articles = get_sentences(&vec![path_buf_article(), typescript_article()]);
    assert_eq!(articles.len(), 2);
}

#[test]
fn first_sentence_correct() {
    let articles = get_sentences(&vec![path_buf_article(), typescript_article()]);
    assert_eq!(articles[0][0].as_str(), "The following piece of code takes a `PathBuf` and extracts the file name, eventually converting it to an _owned_ `String`.")
}

#[test]
fn only_article() {
    let article = get_sentences(&vec![typescript_article()]);
    assert_eq!(article[0][0].as_str(), "There is rarely a head-scratcher in TypeScript as prominent as trying to access an object property via iterating through its keys.")
}

#[test]
fn whole_article_in_order() {
    assert_eq!(
        parse(&path_buf_article()),
        owned(&[
            "The following piece of code takes a `PathBuf` and extracts the file name, eventually converting it to an _owned_ `String`.",
            "let name = path.file_name().unwrap().to_str().unwrap().to_owned();\n",
            "It panics on paths that end in two dots.",
        ])
    );
    assert_eq!(
        parse(&typescript_article()),
        owned(&[
            "There is rarely a head-scratcher in TypeScript as prominent as trying to access an object property via iterating through its keys.",
            "The compiler widens the key to a string.",
        ])
    );
}

#[test]
fn corpus_keeps_order_and_length() {
    let corpus = vec!["One.\n".to_string(), String::new(), "Two.\nThree.\n".to_string()];
    let parsed = get_sentences(&corpus);
    assert_eq!(parsed.len(), 3);
    assert_eq!(parsed[0], owned(&["One."]));
    assert_eq!(parsed[1], owned(&[]));
    assert_eq!(parsed[2], owned(&["Two.", "Three."]));
}

#[test]
fn empty_corpus() {
    assert_eq!(get_sentences(&Vec::new()), Vec::<Vec<String>>::new());
}

#[test]
fn documents_do_not_share_state() {
    // The first document ends inside a code block and inside a sentence.
    let corpus = vec!["```\nopen".to_string(), "Closed.\n".to_string()];
    let parsed = get_sentences(&corpus);
    assert_eq!(parsed[0], owned(&[]));
    assert_eq!(parsed[1], owned(&["Closed."]));
}

#[test]
fn two_sentences_on_one_line() {
    // The second sentence is followed by no break, so it stays pending with
    // a space after it and is dropped at the end of the text.
    assert_eq!(parse("The cat sat. The dog ran.\n"), owned(&["The cat sat."]));
}

#[test]
fn two_sentences_then_a_closing_line() {
    assert_eq!(
        parse("The cat sat. The dog ran.\nAway.\n"),
        owned(&["The cat sat.", "The dog ran. Away."])
    );
}

#[test]
fn heading_is_left_out() {
    assert_eq!(parse("# Title\n\nSome text here.\n"), owned(&["Some text here."]));
}

#[test]
fn front_matter_is_left_out() {
    assert_eq!(parse("---\ntitle: X\n---\nBody sentence.\n"), owned(&["Body sentence."]));
}

#[test]
fn code_block_is_one_sentence() {
    assert_eq!(
        parse("```\nlet x = 1;\nlet y = 2;\n```\n"),
        owned(&["let x = 1;\nlet y = 2;\n"])
    );
}

#[test]
fn empty_text_has_no_sentence() {
    assert_eq!(parse(""), owned(&[]));
    assert_eq!(parse("\n"), owned(&[]));
    assert_eq!(parse("\n\n\n"), owned(&[]));
}

#[test]
fn pending_text_is_dropped_at_the_end() {
    assert_eq!(parse("No period here\n"), owned(&[]));
    assert_eq!(parse("First.\nSecond without an end"), owned(&["First."]));
}

#[test]
fn last_line_needs_no_line_feed() {
    assert_eq!(parse("One.\nTwo."), owned(&["One.", "Two."]));
}

#[test]
fn prose_lines_are_joined_with_spaces() {
    assert_eq!(
        parse("A sentence that\nruns over\nthree lines.\n"),
        owned(&["A sentence that runs over three lines."])
    );
}

#[test]
fn line_of_spaces_is_not_blank() {
    assert_eq!(parse("a\n  \nb.\n"), owned(&["a    b."]));
}

#[test]
fn heading_marker_must_be_first() {
    assert_eq!(parse(" # not a heading.\n"), owned(&[" # not a heading."]));
    assert_eq!(parse("#\nText.\n"), owned(&["Text."]));
    assert_eq!(parse("#hashtag.\nText.\n"), owned(&["Text."]));
}

#[test]
fn heading_inside_code_block_is_lost() {
    assert_eq!(
        parse("```sh\n#!/bin/sh\necho hi\n```\n"),
        owned(&["echo hi\n"])
    );
}

#[test]
fn blank_line_inside_code_block_is_lost() {
    assert_eq!(parse("```\na\n\nb\n```\n"), owned(&["a\nb\n"]));
}

#[test]
fn empty_code_block_is_an_empty_sentence() {
    assert_eq!(parse("```\n```\n"), owned(&[""]));
}

#[test]
fn unterminated_code_block_is_dropped() {
    assert_eq!(parse("Before.\n```\nlet x = 1;\n"), owned(&["Before."]));
}

#[test]
fn opening_fence_does_not_flush() {
    assert_eq!(parse("intro\n```\ncode\n```\n"), owned(&["intro code\n"]));
}

#[test]
fn fence_with_info_string_and_longer_fences() {
    assert_eq!(parse("```rust\nx\n```\n"), owned(&["x\n"]));
    assert_eq!(parse("````\nx\n````\n"), owned(&["x\n"]));
    assert_eq!(parse("``\nx.\n"), owned(&["`` x."]));
}

#[test]
fn sentence_break_is_not_split_inside_code_block() {
    assert_eq!(parse("```\na. b\nc\n```\n"), owned(&["a. b\nc\n"]));
}

#[test]
fn period_at_line_end_completes_inside_code_block() {
    assert_eq!(parse("```\na\nb.\nc\n```\n"), owned(&["a\nb.", "c\n"]));
    assert_eq!(parse("```\na.\n```\n"), owned(&["a.", ""]));
}

#[test]
fn unterminated_preamble_swallows_everything() {
    assert_eq!(parse("---\ntitle: X\nBody sentence.\n```\ncode\n```\n"), owned(&[]));
}

#[test]
fn delimiter_with_trailing_text_and_longer_rules() {
    assert_eq!(parse("--- start\nhidden.\n-----\nShown.\n"), owned(&["Shown."]));
    assert_eq!(parse("--\nShown.\n"), owned(&["-- Shown."]));
}

#[test]
fn second_delimiter_pair_hides_again() {
    assert_eq!(
        parse("---\na.\n---\nb.\n---\nc.\n---\nd.\n"),
        owned(&["b.", "d."])
    );
}

#[test]
fn delimiter_keeps_pending_text() {
    assert_eq!(parse("start\n---\nhidden.\n---\nend.\n"), owned(&["start end."]));
}

#[test]
fn delimiter_inside_code_block_sets_both_flags() {
    // The fence that would close the block is swallowed by the preamble.
    assert_eq!(
        parse("```\na\n---\n```\nb.\n---\nc\n```\n"),
        owned(&["a\nc\n"])
    );
}

#[test]
fn fence_inside_preamble_is_ignored() {
    assert_eq!(parse("---\n```\n---\nText.\n"), owned(&["Text."]));
}

#[test]
fn three_sentences_with_pending_tail() {
    assert_eq!(parse("One. Two. Three\nfour.\n"), owned(&["One.", "Two.", "Three four."]));
}

#[test]
fn pending_text_joins_first_fragment() {
    assert_eq!(parse("It began\nand ended. Next\n"), owned(&["It began and ended."]));
}

#[test]
fn empty_fragments_are_skipped() {
    // "a. . b" is cut into "a", "" and "b".
    assert_eq!(parse("a. . b\nc.\n"), owned(&["a.", "b c."]));
    // A line that is only a break is cut into two empty fragments.
    assert_eq!(parse("x\n. \ny.\n"), owned(&["x y."]));
    // A break at the very end leaves an empty last fragment.
    assert_eq!(parse("One. \nTwo.\n"), owned(&["One.", "Two."]));
    // A break at the very start leaves an empty first fragment.
    assert_eq!(parse("x\n. y\nz.\n"), owned(&["x y z."]));
}

#[test]
fn period_without_space_does_not_split() {
    assert_eq!(parse("Version 1.2 of e.g.this\nworks.\n"), owned(&["Version 1.2 of e.g.this works."]));
}

#[test]
fn line_ending_in_period_after_break() {
    // The line holds a break, so the rule for a closing period is not tried.
    assert_eq!(parse("a. b.\n"), owned(&["a."]));
    assert_eq!(parse("a. b.\nc.\n"), owned(&["a.", "b. c."]));
}

#[test]
fn carriage_return_before_line_feed_is_part_of_the_line_ending() {
    assert_eq!(parse("One.\r\nTwo.\r\n"), owned(&["One.", "Two."]));
    assert_eq!(parse("# T\r\n\r\nText.\r\n"), owned(&["Text."]));
    assert_eq!(parse("```\r\nx\r\n```\r\n"), owned(&["x\n"]));
}

#[test]
fn lone_carriage_return_is_an_ordinary_character() {
    assert_eq!(parse("a\rb.\n"), owned(&["a\rb."]));
    // Only one carriage return belongs to the line ending.
    assert_eq!(parse("a\r\r\nb.\n"), owned(&["a\r b."]));
    // Without a line feed after it, it stays.
    assert_eq!(parse("One.\nb\r"), owned(&["One."]));
    assert_eq!(parse("a.\r"), owned(&[]));
    // A line of one carriage return and a line feed is blank.
    assert_eq!(parse("a\n\r\nb.\n"), owned(&["a b."]));
}

#[test]
fn text_beyond_ascii_is_kept() {
    assert_eq!(
        parse("Grüße aus Köln. Привет\nмир.\n```\n日本語\n```\n"),
        owned(&["Grüße aus Köln.", "Привет мир.", "日本語\n"])
    );
    // U+2028 is no line ending and U+3002 is no period.
    assert_eq!(parse("a\u{2028}b。\nc.\n"), owned(&["a\u{2028}b。 c."]));
}

#[test]
fn other_markdown_is_prose() {
    assert_eq!(
        parse("- item one\n- item two.\n> quote *strong* [link](x.md).\n"),
        owned(&["- item one - item two.", "> quote *strong* [link](x.md)."])
    );
}
