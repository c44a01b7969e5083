//! What holds of every document: laws of the rules, proved once for all
//! states and all lines.
use crate::lines::{line_feed, lines_of, without_carriage_return};
use crate::loader::{
    is_document, lemma_filter_empty, lemma_filter_push, positions, selection, Entry,
};
use crate::rules::{
    initial, is_blank, is_delimiter, is_fence, is_heading, lemma_run_concat, lemma_run_single,
    run, sentences_of, step, unchanged, StateView,
};
use crate::text::{join, lemma_first_occurrence, lemma_occurs_at_single, occurs_at};
use vstd::prelude::*;

verus! {

/// A line that the parser passes over whatever its state: a blank line or a
/// heading.
pub open spec fn is_skipped(line: Seq<char>) -> bool {
    is_blank(line) || is_heading(line)
}

/// The lines of `lines` that are not passed over, in their order.
pub open spec fn without_skipped(lines: Seq<Seq<char>>) -> Seq<Seq<char>> {
    lines.filter(|line: Seq<char>| !is_skipped(line))
}

/// A line that a code block takes as it stands: it is not blank and begins
/// neither with `#`, nor with three hyphens, nor with three backticks.
pub open spec fn is_verbatim(line: Seq<char>) -> bool {
    !is_blank(line) && !is_heading(line) && !is_delimiter(line) && !is_fence(line)
}

/// A text that `lines_of` gives back as one line: it holds no line feed and
/// does not end with a carriage return.
pub open spec fn is_plain_line(line: Seq<char>) -> bool {
    &&& forall|i: int| 0 <= i < line.len() ==> line[i] != '\n'
    &&& !(line.len() > 0 && line.last() == '\r')
}

/// The text made of `lines`, each followed by a line feed.
pub open spec fn terminated(lines: Seq<Seq<char>>) -> Seq<char>
    decreases lines.len(),
{
    if lines.len() == 0 {
        Seq::empty()
    } else {
        lines[0] + line_feed() + terminated(lines.drop_first())
    }
}

/// Parsing is a function of the text alone: whatever two parses of one text
/// return, they return the same sentences in the same order.
pub proof fn law_same_text_same_sentences(
    text: Seq<char>,
    first: Seq<Seq<char>>,
    second: Seq<Seq<char>>,
)
    requires
        first == sentences_of(text),
        second == sentences_of(text),
    ensures
        first == second,
{
}

/// A blank line or a heading, wherever it stands among the lines and
/// whatever the state, leaves no trace: the run ends in the same state with
/// the same sentences as if the line were not there.
pub proof fn law_skipped_line_leaves_no_trace(
    state: StateView,
    front: Seq<Seq<char>>,
    line: Seq<char>,
    back: Seq<Seq<char>>,
)
    requires
        is_skipped(line),
    ensures
        run(state, front + seq![line] + back) == run(state, front + back),
{
    let reached = run(state, front);
    lemma_run_concat(state, front, seq![line] + back);
    lemma_run_concat(reached.state, seq![line], back);
    lemma_run_single(reached.state, line);
    lemma_run_concat(state, front, back);
    assert(front + seq![line] + back =~= front + (seq![line] + back));
    let end = run(reached.state, back);
    assert(Seq::<Seq<char>>::empty() + end.sentences =~= end.sentences);
    assert(run(state, front + seq![line] + back) =~= run(state, front + back));
}

/// Headings and blank lines never reach a sentence: a run over any lines
/// ends in the same state with the same sentences as the run over those
/// lines with every heading and every blank line taken out.
pub proof fn law_headings_and_blank_lines_leave_no_trace(state: StateView, lines: Seq<Seq<char>>)
    ensures
        run(state, lines) == run(state, without_skipped(lines)),
    decreases lines.len(),
{
    let keep = |line: Seq<char>| !is_skipped(line);
    if lines.len() == 0 {
        assert(lines.filter(keep) =~= lines) by {
            reveal(Seq::filter);
        }
    } else {
        let head = lines[0];
        let tail = lines.drop_first();
        assert(lines =~= seq![head] + tail);
        Seq::filter_distributes_over_add(seq![head], tail, keep);
        assert(seq![head].filter(keep) =~= if keep(head) {
            seq![head]
        } else {
            Seq::empty()
        }) by {
            reveal_with_fuel(Seq::filter, 2);
            assert(seq![head].drop_last() =~= Seq::<Seq<char>>::empty());
        }
        law_headings_and_blank_lines_leave_no_trace(step(state, head).state, tail);
        if is_skipped(head) {
            assert(lines.filter(keep) =~= tail.filter(keep));
            let rest = run(state, tail);
            assert(Seq::<Seq<char>>::empty() + rest.sentences =~= rest.sentences);
            assert(run(state, lines) =~= run(state, tail));
        } else {
            let kept = seq![head] + tail.filter(keep);
            assert(lines.filter(keep) =~= kept);
            assert(kept.drop_first() =~= tail.filter(keep));
            assert(kept[0] == head);
        }
    }
}

/// The same law, said of a document: its sentences are those that its lines
/// yield once every heading and every blank line is taken out.
pub proof fn law_sentences_ignore_headings_and_blank_lines(text: Seq<char>)
    ensures
        sentences_of(text) == run(initial(), without_skipped(lines_of(text))).sentences,
{
    law_headings_and_blank_lines_leave_no_trace(initial(), lines_of(text));
}

/// Inside the preamble, lines that are no delimiter change nothing.
pub proof fn lemma_preamble_drops_lines(state: StateView, content: Seq<Seq<char>>)
    requires
        state.in_preamble,
        forall|i: int| 0 <= i < content.len() ==> !is_delimiter(#[trigger] content[i]),
    ensures
        run(state, content) == unchanged(state),
    decreases content.len(),
{
    if content.len() > 0 {
        assert(step(state, content[0]) == unchanged(state));
        let tail = content.drop_first();
        assert forall|i: int| 0 <= i < tail.len() implies !is_delimiter(#[trigger] tail[i]) by {
            assert(tail[i] == content[i + 1]);
        }
        lemma_preamble_drops_lines(state, tail);
        assert(run(state, content) =~= unchanged(state));
    }
}

/// Front matter never reaches a sentence. Where a delimiter line is met
/// outside the preamble, the lines up to the next delimiter line, and both
/// delimiter lines, leave no trace: the run ends in the same state with the
/// same sentences as if they were not there.
pub proof fn law_front_matter_leaves_no_trace(
    state: StateView,
    front: Seq<Seq<char>>,
    opening: Seq<char>,
    content: Seq<Seq<char>>,
    closing: Seq<char>,
    back: Seq<Seq<char>>,
)
    requires
        !run(state, front).state.in_preamble,
        is_delimiter(opening),
        is_delimiter(closing),
        forall|i: int| 0 <= i < content.len() ==> !is_delimiter(#[trigger] content[i]),
    ensures
        run(state, front + seq![opening] + content + seq![closing] + back) == run(
            state,
            front + back,
        ),
{
    let reached = run(state, front).state;
    let inside = StateView { in_preamble: true, ..reached };
    let block = seq![opening] + content + seq![closing];
    assert(run(reached, block) == unchanged(reached)) by {
        lemma_delimiter_head(opening);
        lemma_delimiter_head(closing);
        lemma_run_single(reached, opening);
        lemma_run_single(inside, closing);
        lemma_preamble_drops_lines(inside, content);
        lemma_run_concat(reached, seq![opening], content);
        lemma_run_concat(reached, seq![opening] + content, seq![closing]);
        assert(run(reached, block) =~= unchanged(reached));
    }
    assert(front + seq![opening] + content + seq![closing] + back =~= front + (block + back));
    lemma_run_concat(state, front, block + back);
    lemma_run_concat(reached, block, back);
    lemma_run_concat(state, front, back);
    let end = run(reached, back);
    assert(Seq::<Seq<char>>::empty() + end.sentences =~= end.sentences);
    assert(run(state, front + (block + back)) =~= run(state, front + back));
}

/// A delimiter line begins with a hyphen.
proof fn lemma_delimiter_head(line: Seq<char>)
    requires
        is_delimiter(line),
    ensures
        line.len() >= 3,
        line[0] == '-',
{
    assert(line.subrange(0, 3)[0] == '-');
}

/// A fence line begins with a backtick.
proof fn lemma_fence_head(line: Seq<char>)
    requires
        is_fence(line),
    ensures
        line.len() >= 3,
        line[0] == '`',
{
    assert(line.subrange(0, 3)[0] == '`');
}

/// Inside a code block, verbatim lines followed by a closing fence are
/// given out whole: the sentences, joined by line feeds, are the pending
/// text followed by the lines, each with its line feed; and the block is
/// left with nothing pending.
proof fn lemma_code_block_body(state: StateView, body: Seq<Seq<char>>, closing: Seq<char>)
    requires
        state.in_code_block,
        !state.in_preamble,
        is_fence(closing),
        forall|i: int| 0 <= i < body.len() ==> is_verbatim(#[trigger] body[i]),
    ensures
        run(state, body + seq![closing]).state == (StateView {
            pending: Seq::empty(),
            in_code_block: false,
            in_preamble: false,
        }),
        run(state, body + seq![closing]).sentences.len() >= 1,
        join(run(state, body + seq![closing]).sentences, line_feed()) == state.pending
            + terminated(body),
    decreases body.len(),
{
    let lines = body + seq![closing];
    if body.len() == 0 {
        assert(lines =~= seq![closing]);
        lemma_fence_head(closing);
        lemma_run_single(state, closing);
        assert(run(state, lines).sentences =~= seq![state.pending]);
        assert(state.pending + terminated(body) =~= state.pending);
    } else {
        let line = body[0];
        let tail = body.drop_first();
        assert(lines.drop_first() =~= tail + seq![closing]);
        assert(lines[0] == line);
        assert(is_verbatim(line));
        assert forall|i: int| 0 <= i < tail.len() implies is_verbatim(#[trigger] tail[i]) by {
            assert(tail[i] == body[i + 1]);
        }
        let first = step(state, line);
        lemma_code_block_body(first.state, tail, closing);
        let later = run(first.state, tail + seq![closing]);
        if first.sentences.len() == 0 {
            assert(first.state.pending == state.pending + line + line_feed());
            assert(first.sentences + later.sentences =~= later.sentences);
            assert(state.pending + line + line_feed() + terminated(tail) =~= state.pending + (
            line + line_feed() + terminated(tail)));
        } else {
            assert(first.sentences == seq![state.pending + line]);
            let all = first.sentences + later.sentences;
            assert(all.drop_first() =~= later.sentences);
            assert(all[0] == state.pending + line);
            assert(first.state.pending + terminated(tail) =~= terminated(tail));
            assert(state.pending + line + line_feed() + terminated(tail) =~= state.pending + (
            line + line_feed() + terminated(tail)));
        }
    }
}

/// A code block comes out as it went in. Where an opening fence is met
/// outside a code block and outside the preamble with nothing pending, and
/// verbatim lines and a closing fence follow, the sentences completed by
/// these lines, joined by line feeds, are the lines between the fences, each
/// with its line feed, and nothing of the fence lines; the state afterwards
/// is the state before.
pub proof fn law_code_block_round_trip(
    state: StateView,
    opening: Seq<char>,
    body: Seq<Seq<char>>,
    closing: Seq<char>,
)
    requires
        !state.in_preamble,
        !state.in_code_block,
        state.pending.len() == 0,
        is_fence(opening),
        is_fence(closing),
        forall|i: int| 0 <= i < body.len() ==> is_verbatim(#[trigger] body[i]),
    ensures
        run(state, seq![opening] + body + seq![closing]).state == state,
        join(run(state, seq![opening] + body + seq![closing]).sentences, line_feed())
            == terminated(body),
{
    let inside = StateView { in_code_block: true, ..state };
    lemma_fence_head(opening);
    lemma_run_single(state, opening);
    lemma_code_block_body(inside, body, closing);
    assert(seq![opening] + body + seq![closing] =~= seq![opening] + (body + seq![closing]));
    lemma_run_concat(state, seq![opening], body + seq![closing]);
    let later = run(inside, body + seq![closing]);
    assert(Seq::<Seq<char>>::empty() + later.sentences =~= later.sentences);
    assert(state.pending + terminated(body) =~= terminated(body));
    assert(run(state, seq![opening] + body + seq![closing]).state =~= state);
}

/// The lines of a text made of plain lines, each followed by a line feed,
/// are those lines.
pub proof fn law_lines_of_terminated(lines: Seq<Seq<char>>)
    requires
        forall|i: int| 0 <= i < lines.len() ==> is_plain_line(#[trigger] lines[i]),
    ensures
        lines_of(terminated(lines)) == lines,
    decreases lines.len(),
{
    if lines.len() == 0 {
        assert(lines_of(terminated(lines)) =~= lines);
    } else {
        let line = lines[0];
        let tail = lines.drop_first();
        let text = terminated(lines);
        assert(is_plain_line(line));
        assert forall|i: int| 0 <= i < tail.len() implies is_plain_line(#[trigger] tail[i]) by {
            assert(tail[i] == lines[i + 1]);
        }
        law_lines_of_terminated(tail);
        assert forall|j: int| 0 <= j < line.len() implies !occurs_at(text, line_feed(), j) by {
            lemma_occurs_at_single(text, '\n', j);
            assert(text[j] == line[j]);
        }
        lemma_occurs_at_single(text, '\n', line.len() as int);
        lemma_first_occurrence(text, line_feed(), line.len() as int);
        assert(text.take(line.len() as int) =~= line);
        assert(text.skip(line.len() as int + 1) =~= terminated(tail));
        assert(without_carriage_return(line) == line);
        assert(lines_of(text) =~= lines);
    }
}

/// The same law, said of a document that is one code block: a text made
/// of an opening fence, verbatim lines and a closing fence, each followed by
/// a line feed, has sentences that, joined by line feeds, are the text
/// between the two fence lines.
pub proof fn law_code_block_document(opening: Seq<char>, body: Seq<Seq<char>>, closing: Seq<char>)
    requires
        is_fence(opening) && is_plain_line(opening),
        is_fence(closing) && is_plain_line(closing),
        forall|i: int|
            0 <= i < body.len() ==> is_verbatim(#[trigger] body[i]) && is_plain_line(body[i]),
    ensures
        join(sentences_of(terminated(seq![opening] + body + seq![closing])), line_feed())
            == terminated(body),
{
    let lines = seq![opening] + body + seq![closing];
    assert forall|i: int| 0 <= i < lines.len() implies is_plain_line(#[trigger] lines[i]) by {
        if 0 < i <= body.len() {
            assert(lines[i] == body[i - 1]);
        }
    }
    law_lines_of_terminated(lines);
    law_code_block_round_trip(initial(), opening, body, closing);
}

/// A directory without documents gives an empty corpus: where no entry is
/// a regular file with the wanted extension, nothing is selected, however
/// many entries there are.
pub proof fn law_no_document_nothing_selected(entries: Seq<Entry>, extension: Seq<char>)
    requires
        forall|i: int| 0 <= i < entries.len() ==> !is_document(#[trigger] entries[i], extension),
    ensures
        selection(entries, extension) == Seq::<int>::empty(),
{
    let keep = |i: int| is_document(entries[i], extension);
    lemma_none_kept(entries.len(), keep);
}

/// The indices below `count` of which the filter keeps none.
proof fn lemma_none_kept(count: nat, keep: spec_fn(int) -> bool)
    requires
        forall|i: int| 0 <= i < count ==> !(#[trigger] keep(i)),
    ensures
        positions(count).filter(keep) == Seq::<int>::empty(),
    decreases count,
{
    if count == 0 {
        assert(positions(count) =~= Seq::<int>::empty());
        lemma_filter_empty(keep);
    } else {
        let fewer = (count - 1) as nat;
        lemma_none_kept(fewer, keep);
        assert(positions(count) =~= positions(fewer).push(count - 1));
        lemma_filter_push(positions(fewer), count - 1, keep);
    }
}

/// Every document is selected and nothing else: an index is in the
/// selection exactly if it is the index of a document. The selection keeps
/// the order of the listing and names no index twice.
pub proof fn law_selection_is_exact(entries: Seq<Entry>, extension: Seq<char>)
    ensures
        forall|i: int|
            #[trigger] selection(entries, extension).contains(i) <==> (0 <= i < entries.len()
                && is_document(
                entries[i],
                extension,
            )),
        forall|a: int, b: int|
            0 <= a < b < selection(entries, extension).len() ==> selection(entries, extension)[a]
                < selection(entries, extension)[b],
{
    let keep = |i: int| is_document(entries[i], extension);
    lemma_kept_indices(entries.len(), keep);
}

/// The filtered indices below `count` are the kept ones, in rising order.
proof fn lemma_kept_indices(count: nat, keep: spec_fn(int) -> bool)
    ensures
        forall|i: int|
            #[trigger] positions(count).filter(keep).contains(i) <==> (0 <= i < count && keep(i)),
        forall|a: int, b: int|
            0 <= a < b < positions(count).filter(keep).len() ==> positions(count).filter(keep)[a]
                < positions(count).filter(keep)[b],
    decreases count,
{
    let all = positions(count);
    if count == 0 {
        assert(all =~= Seq::<int>::empty());
        lemma_filter_empty(keep);
    } else {
        let fewer = positions((count - 1) as nat);
        lemma_kept_indices((count - 1) as nat, keep);
        assert(all =~= fewer.push(count - 1));
        lemma_filter_push(fewer, count - 1, keep);
        let kept = all.filter(keep);
        let before = fewer.filter(keep);
        assert forall|i: int| #[trigger] kept.contains(i) <==> (0 <= i < count && keep(i)) by {
            if keep(count - 1) {
                assert(kept == before.push(count - 1));
                if kept.contains(i) {
                    let at = choose|at: int| 0 <= at < kept.len() && kept[at] == i;
                    if at < before.len() {
                        assert(before[at] == i);
                        assert(before.contains(i));
                    }
                }
                if 0 <= i < count && keep(i) {
                    if i == count - 1 {
                        assert(kept[kept.len() - 1] == i);
                    } else {
                        assert(before.contains(i));
                        let at = choose|at: int| 0 <= at < before.len() && before[at] == i;
                        assert(kept[at] == i);
                    }
                }
            }
        }
        assert forall|a: int, b: int| 0 <= a < b < kept.len() implies kept[a] < kept[b] by {
            if keep(count - 1) && b == kept.len() - 1 {
                assert(before.contains(before[a]));
            }
        }
    }
}

} // verus!
