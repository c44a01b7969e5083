//! The rules by which lines become sentences: what one line does to the
//! parser's state, and what a run of lines does.
use crate::lines::lines_of;
use crate::text::{has_pattern, split};
use vstd::prelude::*;

verus! {

/// What the parser remembers between two lines.
///
/// The two flags are independent. In a well-formed document at most one of
/// them is set at a time, but a front-matter delimiter inside a code block
/// sets both, and the rules below say what happens then.
#[verifier::ext_equal]
pub struct StateView {
    /// The text gathered for the sentence that is being built.
    pub pending: Seq<char>,
    /// Set between an opening fence and its closing fence.
    pub in_code_block: bool,
    /// Set between an opening front-matter delimiter and its closing one.
    pub in_preamble: bool,
}

/// A state together with the sentences that were completed on the way to it.
#[verifier::ext_equal]
pub struct Outcome {
    pub state: StateView,
    pub sentences: Seq<Seq<char>>,
}

/// The state in which every document starts.
pub open spec fn initial() -> StateView {
    StateView { pending: Seq::empty(), in_code_block: false, in_preamble: false }
}

/// A line that holds no character at all. A line of spaces is not blank.
pub open spec fn is_blank(line: Seq<char>) -> bool {
    line.len() == 0
}

/// A line that begins with `#`.
pub open spec fn is_heading(line: Seq<char>) -> bool {
    line.len() > 0 && line[0] == '#'
}

/// The three hyphens with which a front-matter delimiter begins.
pub open spec fn delimiter_mark() -> Seq<char> {
    seq!['-', '-', '-']
}

/// A line that begins with three hyphens.
pub open spec fn is_delimiter(line: Seq<char>) -> bool {
    delimiter_mark().is_prefix_of(line)
}

/// The three backticks with which a fence begins.
pub open spec fn fence_mark() -> Seq<char> {
    seq!['`', '`', '`']
}

/// A line that begins with three backticks.
pub open spec fn is_fence(line: Seq<char>) -> bool {
    fence_mark().is_prefix_of(line)
}

/// A period directly followed by a space: where a line of prose is cut into
/// sentences.
pub open spec fn sentence_break() -> Seq<char> {
    seq!['.', ' ']
}

/// A line whose last character is a period.
pub open spec fn ends_with_period(line: Seq<char>) -> bool {
    line.len() > 0 && line.last() == '.'
}

/// `state` with another text pending.
pub open spec fn with_pending(state: StateView, pending: Seq<char>) -> StateView {
    StateView { pending, ..state }
}

/// No change of state and no sentence.
pub open spec fn unchanged(state: StateView) -> Outcome {
    Outcome { state, sentences: Seq::empty() }
}

/// What the fragments of one line of prose do. Every fragment but the last
/// was followed by a sentence break: if it is not empty, it ends the pending
/// sentence, which is completed with a period in place of the break. The
/// last fragment, if it is not empty, is kept pending with a space after it.
/// Empty fragments change nothing.
pub open spec fn absorb(state: StateView, fragments: Seq<Seq<char>>) -> Outcome
    decreases fragments.len(),
{
    if fragments.len() == 0 {
        unchanged(state)
    } else if fragments.len() == 1 {
        if fragments[0].len() == 0 {
            unchanged(state)
        } else {
            unchanged(with_pending(state, state.pending + fragments[0] + seq![' ']))
        }
    } else if fragments[0].len() == 0 {
        absorb(state, fragments.drop_first())
    } else {
        let later = absorb(with_pending(state, Seq::empty()), fragments.drop_first());
        Outcome {
            state: later.state,
            sentences: seq![state.pending + fragments[0] + seq!['.']] + later.sentences,
        }
    }
}

/// What one line does. The rules are tried in this order, and the first
/// that fits decides:
///
/// - a blank line and a heading change nothing, also inside a code block;
/// - a front-matter delimiter flips `in_preamble`;
/// - inside the preamble every other line is dropped;
/// - a fence that closes a code block completes the pending text as one
///   sentence, even an empty one; a fence that opens one only sets the flag;
/// - outside a code block, a line that holds a sentence break is cut at
///   every break and its fragments are absorbed;
/// - a line that ends with a period completes the pending text with the
///   line appended;
/// - any other line is appended to the pending text, followed by a line
///   feed inside a code block and by a space outside.
pub open spec fn step(state: StateView, line: Seq<char>) -> Outcome {
    if is_blank(line) || is_heading(line) {
        unchanged(state)
    } else if is_delimiter(line) {
        unchanged(StateView { in_preamble: !state.in_preamble, ..state })
    } else if state.in_preamble {
        unchanged(state)
    } else if is_fence(line) {
        if state.in_code_block {
            Outcome {
                state: StateView { pending: Seq::empty(), in_code_block: false, ..state },
                sentences: seq![state.pending],
            }
        } else {
            unchanged(StateView { in_code_block: true, ..state })
        }
    } else if !state.in_code_block && has_pattern(line, sentence_break()) {
        absorb(state, split(line, sentence_break()))
    } else if ends_with_period(line) {
        Outcome {
            state: with_pending(state, Seq::empty()),
            sentences: seq![state.pending + line],
        }
    } else if state.in_code_block {
        unchanged(with_pending(state, state.pending + line + seq!['\n']))
    } else {
        unchanged(with_pending(state, state.pending + line + seq![' ']))
    }
}

/// What a run of lines does, taken one after another from `state`.
pub open spec fn run(state: StateView, lines: Seq<Seq<char>>) -> Outcome
    decreases lines.len(),
{
    if lines.len() == 0 {
        unchanged(state)
    } else {
        let first = step(state, lines[0]);
        let rest = run(first.state, lines.drop_first());
        Outcome { state: rest.state, sentences: first.sentences + rest.sentences }
    }
}

/// A run of no line changes nothing.
pub proof fn lemma_run_empty(state: StateView)
    ensures
        run(state, Seq::empty()) == unchanged(state),
{
}

/// A run of one line is one step.
pub proof fn lemma_run_single(state: StateView, line: Seq<char>)
    ensures
        run(state, seq![line]) == step(state, line),
{
    let first = step(state, line);
    assert(seq![line].drop_first() =~= Seq::<Seq<char>>::empty());
    lemma_run_empty(first.state);
    assert(run(state, seq![line]) =~= first);
}

/// A run of lines written one after another is the run of the first lines
/// followed by the run of the others from where the first ended.
pub proof fn lemma_run_concat(state: StateView, front: Seq<Seq<char>>, back: Seq<Seq<char>>)
    ensures
        run(state, front + back).state == run(run(state, front).state, back).state,
        run(state, front + back).sentences == run(state, front).sentences + run(
            run(state, front).state,
            back,
        ).sentences,
    decreases front.len(),
{
    if front.len() == 0 {
        assert(front + back =~= back);
        assert(run(state, front).sentences + run(state, back).sentences =~= run(
            state,
            back,
        ).sentences);
    } else {
        let first = step(state, front[0]);
        assert((front + back).drop_first() =~= front.drop_first() + back);
        assert((front + back)[0] == front[0]);
        lemma_run_concat(first.state, front.drop_first(), back);
        let middle = run(first.state, front.drop_first());
        let end = run(middle.state, back);
        assert(first.sentences + (middle.sentences + end.sentences) =~= (first.sentences
            + middle.sentences) + end.sentences);
    }
}

/// The sentences of a document: those completed while its lines are run
/// from the initial state. Text that is still pending after the last line
/// is not a sentence.
pub open spec fn sentences_of(text: Seq<char>) -> Seq<Seq<char>> {
    run(initial(), lines_of(text)).sentences
}

} // verus!
