//! The parser: the state it keeps, the step it takes on one line, and the
//! functions that run it over whole documents.
use crate::lines::{line_feed, lines_of, without_carriage_return};
use crate::rules::{
    absorb, initial, lemma_run_empty, lemma_run_single, run, sentence_break, sentences_of, step,
    StateView,
};
use crate::text::{
    chars_of, first_occurrence, has_pattern, lemma_first_occurrence, lemma_occurs_at_pair,
    lemma_occurs_at_single, lemma_occurs_at_skip, lemma_split_is_not_empty, occurs_at,
    push_chars, split,
};
use vstd::prelude::*;

verus! {

/// The state of the parser between two lines of one document.
#[derive(Debug, Clone, PartialEq, Eq)]
pub struct ParserState {
    /// The sentence that is being built.
    pub sentence: String,
    /// Set while the lines belong to a fenced code block.
    pub in_code_block: bool,
    /// Set while the lines belong to the front matter.
    pub in_preamble: bool,
}

impl View for ParserState {
    type V = StateView;

    open spec fn view(&self) -> StateView {
        StateView {
            pending: self.sentence@,
            in_code_block: self.in_code_block,
            in_preamble: self.in_preamble,
        }
    }
}

/// Whether `line` begins with three times the character `mark`.
fn begins_with_three(line: &Vec<char>, mark: char) -> (yes: bool)
    ensures
        yes == seq![mark, mark, mark].is_prefix_of(line@),
{
    if line.len() >= 3 && line[0] == mark && line[1] == mark && line[2] == mark {
        assert(line@.subrange(0, 3) =~= seq![mark, mark, mark]);
        true
    } else {
        if line.len() >= 3 {
            let ghost head = line@.subrange(0, 3);
            assert(head[0] == line@[0] && head[1] == line@[1] && head[2] == line@[2]);
        }
        false
    }
}

/// The first index at or after `from` at which a sentence break stands in
/// `line`, or `line.len()` where there is none.
fn find_break(line: &Vec<char>, from: usize) -> (at: usize)
    requires
        from <= line.len(),
    ensures
        from <= at <= line.len(),
        at < line.len() ==> occurs_at(line@, sentence_break(), at as int),
        forall|j: int| from <= j < at ==> !occurs_at(line@, sentence_break(), j),
        at == line.len() ==> forall|j: int| from <= j ==> !occurs_at(line@, sentence_break(), j),
{
    let mut at: usize = from;
    while at < line.len()
        invariant
            from <= at <= line.len(),
            forall|j: int| from <= j < at ==> !occurs_at(line@, sentence_break(), j),
        decreases line.len() - at,
    {
        proof {
            lemma_occurs_at_pair(line@, '.', ' ', at as int);
        }
        if line[at] == '.' && at + 1 < line.len() && line[at + 1] == ' ' {
            return at;
        }
        at += 1;
    }
    assert forall|j: int| from <= j implies !occurs_at(line@, sentence_break(), j) by {
        lemma_occurs_at_pair(line@, '.', ' ', j);
    }
    at
}

/// Appends a string to a list of strings; stated over the texts they hold.
fn push_sentence(out: &mut Vec<String>, sentence: String)
    ensures
        final(out).deep_view() == old(out).deep_view().push(sentence@),
{
    out.push(sentence);
    assert(out.deep_view() =~= old(out).deep_view().push(sentence@));
}

impl ParserState {
    /// The state in which a document starts: nothing pending, no flag set.
    pub fn new() -> (state: ParserState)
        ensures
            state@ == initial(),
    {
        ParserState { sentence: String::new(), in_code_block: false, in_preamble: false }
    }

    /// Takes one line, given as a string without a line ending, and returns
    /// the sentences that it completes, in order.
    pub fn step(&mut self, line: &str) -> (completed: Vec<String>)
        ensures
            final(self)@ == step(old(self)@, line@).state,
            completed.deep_view() == step(old(self)@, line@).sentences,
    {
        let chars = chars_of(line);
        let mut completed: Vec<String> = Vec::new();
        assert(completed.deep_view() =~= Seq::<Seq<char>>::empty());
        self.step_chars(&chars, &mut completed);
        assert(completed.deep_view() =~= step(old(self)@, line@).sentences);
        completed
    }

    /// Completes the pending sentence: moves it to the end of `out` and
    /// starts an empty one.
    fn flush(&mut self, out: &mut Vec<String>)
        ensures
            final(self)@ == (StateView { pending: Seq::empty(), ..old(self)@ }),
            final(out).deep_view() == old(out).deep_view().push(old(self)@.pending),
    {
        let mut done = String::new();
        std::mem::swap(&mut self.sentence, &mut done);
        push_sentence(out, done);
    }

    /// Cuts a line of prose at its sentence breaks and absorbs the fragments.
    fn absorb_line(&mut self, line: &Vec<char>, out: &mut Vec<String>)
        ensures
            final(self)@ == absorb(old(self)@, split(line@, sentence_break())).state,
            final(out).deep_view() == old(out).deep_view() + absorb(
                old(self)@,
                split(line@, sentence_break()),
            ).sentences,
    {
        let ghost whole = absorb(old(self)@, split(line@, sentence_break()));
        let mut from: usize = 0;
        assert(line@.skip(0) =~= line@);
        assert(out.deep_view() + whole.sentences =~= old(out).deep_view() + whole.sentences);
        loop
            invariant_except_break
                absorb(self@, split(line@.skip(from as int), sentence_break())).state
                    == whole.state,
                out.deep_view() + absorb(
                    self@,
                    split(line@.skip(from as int), sentence_break()),
                ).sentences == old(out).deep_view() + whole.sentences,
            invariant
                from <= line.len(),
                whole == absorb(old(self)@, split(line@, sentence_break())),
            ensures
                self@ == whole.state,
                out.deep_view() == old(out).deep_view() + whole.sentences,
            decreases line.len() - from,
        {
            let ghost rest = line@.skip(from as int);
            let ghost before = self@;
            let ghost emitted = out.deep_view();
            let at = find_break(line, from);
            if at == line.len() {
                proof {
                    let chosen = first_occurrence(rest, sentence_break());
                    if 0 <= chosen {
                        lemma_occurs_at_skip(line@, sentence_break(), from as int, chosen);
                    }
                    assert(split(rest, sentence_break()) =~= seq![rest]);
                    assert(rest =~= line@.subrange(from as int, line.len() as int));
                }
                if from < line.len() {
                    push_chars(&mut self.sentence, line, from, line.len());
                    self.sentence.push(' ');
                }
                proof {
                    assert(self@ =~= absorb(before, seq![rest]).state);
                    assert(emitted + Seq::<Seq<char>>::empty() =~= emitted);
                }
                break ;
            }
            proof {
                assert forall|j: int| 0 <= j < at - from implies !occurs_at(
                    rest,
                    sentence_break(),
                    j,
                ) by {
                    lemma_occurs_at_skip(line@, sentence_break(), from as int, j);
                }
                lemma_occurs_at_skip(line@, sentence_break(), from as int, at - from);
                lemma_first_occurrence(rest, sentence_break(), at - from);
                assert(rest.take(at - from) =~= line@.subrange(from as int, at as int));
                assert(rest.skip(at - from + 2) =~= line@.skip(at + 2));
                let pieces = split(rest, sentence_break());
                let tail = split(line@.skip(at + 2), sentence_break());
                assert(pieces == seq![line@.subrange(from as int, at as int)] + tail);
                lemma_split_is_not_empty(line@.skip(at + 2), sentence_break());
                assert(pieces.drop_first() =~= tail);
                assert(pieces[0] == line@.subrange(from as int, at as int));
            }
            if at > from {
                push_chars(&mut self.sentence, line, from, at);
                self.sentence.push('.');
                let ghost done = self.sentence@;
                self.flush(out);
                proof {
                    let later = absorb(self@, split(line@.skip(at + 2), sentence_break()));
                    assert(done =~= before.pending + line@.subrange(from as int, at as int)
                        + seq!['.']);
                    assert(out.deep_view() + later.sentences =~= emitted + (seq![done]
                        + later.sentences));
                }
            }
            from = at + 2;
        }
    }

    /// Takes one line, given by its characters, and appends the sentences
    /// that it completes to `out`.
    fn step_chars(&mut self, line: &Vec<char>, out: &mut Vec<String>)
        ensures
            final(self)@ == step(old(self)@, line@).state,
            final(out).deep_view() == old(out).deep_view() + step(old(self)@, line@).sentences,
    {
        let ghost emitted = out.deep_view();
        assert(emitted + Seq::<Seq<char>>::empty() =~= emitted);
        if line.len() == 0 || line[0] == '#' {
            return ;
        }
        if begins_with_three(line, '-') {
            self.in_preamble = !self.in_preamble;
            return ;
        }
        if self.in_preamble {
            return ;
        }
        if begins_with_three(line, '`') {
            if self.in_code_block {
                self.flush(out);
                assert(emitted.push(old(self)@.pending) =~= emitted + seq![old(self)@.pending]);
            }
            self.in_code_block = !self.in_code_block;
            return ;
        }
        if !self.in_code_block {
            let at = find_break(line, 0);
            if at < line.len() {
                self.absorb_line(line, out);
                return ;
            }
            assert(!has_pattern(line@, sentence_break()));
        }
        assert(line@.subrange(0, line.len() as int) =~= line@);
        push_chars(&mut self.sentence, line, 0, line.len());
        if line[line.len() - 1] == '.' {
            self.flush(out);
            assert(emitted.push(old(self)@.pending + line@) =~= emitted + seq![
                old(self)@.pending + line@,
            ]);
        } else if self.in_code_block {
            self.sentence.push('\n');
        } else {
            self.sentence.push(' ');
        }
    }
}

/// The sentences of one document, in the order in which they are completed.
///
/// Every text is accepted. Text that is still pending after the last line,
/// because no period and no closing fence followed it, is dropped.
pub fn parse(text: &str) -> (sentences: Vec<String>)
    ensures
        sentences.deep_view() == sentences_of(text@),
{
    let mut state = ParserState::new();
    let mut sentences: Vec<String> = Vec::new();
    let mut line: Vec<char> = Vec::new();
    let ghost mut start: int = 0;
    proof {
        assert(text@.skip(0) =~= text@);
        assert(sentences.deep_view() + sentences_of(text@) =~= sentences_of(text@));
    }
    for c in it: text.chars()
        invariant
            it.seq() == text@,
            0 <= start <= it.index(),
            line@ == text@.subrange(start, it.index() as int),
            forall|j: int| start <= j < it.index() ==> text@[j] != '\n',
            sentences.deep_view() + run(state@, lines_of(text@.skip(start))).sentences
                == sentences_of(text@),
    {
        let ghost at = it.index() as int;
        let ghost rest = text@.skip(start);
        let ghost emitted = sentences.deep_view();
        let ghost before = state@;
        if c == '\n' {
            let ghost raw = line@;
            if line.len() > 0 && line[line.len() - 1] == '\r' {
                line.pop();
            }
            assert(line@ == without_carriage_return(raw));
            state.step_chars(&line, &mut sentences);
            line.clear();
            proof {
                assert forall|j: int| 0 <= j < at - start implies !occurs_at(
                    rest,
                    line_feed(),
                    j,
                ) by {
                    lemma_occurs_at_single(rest, '\n', j);
                }
                lemma_occurs_at_single(rest, '\n', at - start);
                lemma_first_occurrence(rest, line_feed(), at - start);
                assert(rest.take(at - start) =~= raw);
                assert(rest.skip(at - start + 1) =~= text@.skip(at + 1));
                let first = step(before, without_carriage_return(raw));
                let later = run(first.state, lines_of(text@.skip(at + 1)));
                assert(lines_of(rest).drop_first() =~= lines_of(text@.skip(at + 1)));
                assert(run(before, lines_of(rest)).sentences == first.sentences
                    + later.sentences);
                assert(sentences.deep_view() + later.sentences =~= emitted + (first.sentences
                    + later.sentences));
                start = at + 1;
                assert(line@ =~= text@.subrange(start, at + 1));
            }
        } else {
            line.push(c);
            assert(line@ =~= text@.subrange(start, at + 1));
        }
    }
    proof {
        let rest = text@.skip(start);
        assert(rest =~= line@);
        if rest.len() > 0 {
            let chosen = first_occurrence(rest, line_feed());
            lemma_occurs_at_single(rest, '\n', chosen);
            assert(lines_of(rest) =~= seq![rest]);
            lemma_run_single(state@, rest);
        } else {
            lemma_run_empty(state@);
        }
    }
    if line.len() > 0 {
        state.step_chars(&line, &mut sentences);
    }
    sentences
}

/// The sentences of every document of a corpus: one list for each document,
/// in the order of the corpus.
pub open spec fn corpus_sentences(articles: Seq<Seq<char>>) -> Seq<Seq<Seq<char>>> {
    articles.map_values(|text: Seq<char>| sentences_of(text))
}

/// Parses every document of a corpus on its own. The result has one list of
/// sentences for each document, in the order of the corpus.
pub fn get_sentences(articles: &Vec<String>) -> (parsed: Vec<Vec<String>>)
    ensures
        parsed.deep_view() == corpus_sentences(articles.deep_view()),
{
    let mut parsed: Vec<Vec<String>> = Vec::new();
    let mut i: usize = 0;
    while i < articles.len()
        invariant
            i <= articles.len(),
            parsed.len() == i,
            parsed.deep_view() == corpus_sentences(articles.deep_view().take(i as int)),
        decreases articles.len() - i,
    {
        let ghost earlier = parsed.deep_view();
        let sentences = parse(articles[i].as_str());
        parsed.push(sentences);
        i += 1;
        proof {
            let expected = corpus_sentences(articles.deep_view().take(i as int));
            assert forall|k: int| 0 <= k < i implies parsed.deep_view()[k] == expected[k] by {
                if k < i - 1 {
                    assert(parsed.deep_view()[k] == earlier[k]);
                    assert(articles.deep_view().take(i - 1)[k] == articles.deep_view()[k]);
                } else {
                    assert(parsed.deep_view()[k] == sentences.deep_view());
                }
            }
            assert(parsed.deep_view() =~= expected);
        }
    }
    assert(articles.deep_view().take(i as int) =~= articles.deep_view());
    parsed
}

} // verus!
