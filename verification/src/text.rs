//! Texts as sequences of characters: where a pattern occurs, how a text is
//! cut at a separator, and the few executable helpers that read and build
//! strings one character at a time.
use vstd::prelude::*;

verus! {

/// `String::push` of the standard library: the string afterwards is the
/// string before with `c` appended as its last character. Nothing is proved
/// of this; it restates the method's documentation.
pub assume_specification[ String::push ](s: &mut String, c: char)
    ensures
        final(s)@ == old(s)@.push(c),
;

/// `pattern` stands in `text` at index `at`.
pub open spec fn occurs_at(text: Seq<char>, pattern: Seq<char>, at: int) -> bool {
    &&& 0 <= at
    &&& at + pattern.len() <= text.len()
    &&& text.subrange(at, at + pattern.len()) == pattern
}

/// `pattern` stands somewhere in `text`.
pub open spec fn has_pattern(text: Seq<char>, pattern: Seq<char>) -> bool {
    exists|at: int| occurs_at(text, pattern, at)
}

/// `pattern` stands in `text` at `at` and nowhere before.
pub open spec fn is_first_occurrence(text: Seq<char>, pattern: Seq<char>, at: int) -> bool {
    &&& occurs_at(text, pattern, at)
    &&& forall|j: int| 0 <= j < at ==> !occurs_at(text, pattern, j)
}

/// The leftmost index at which `pattern` stands in `text`. Where the pattern
/// stands nowhere the value is arbitrary, and `occurs_at` fails on it.
pub open spec fn first_occurrence(text: Seq<char>, pattern: Seq<char>) -> int {
    choose|at: int| is_first_occurrence(text, pattern, at)
}

/// The pieces of `text` between the occurrences of `separator`, taken from
/// the left and without overlap. There is always at least one piece; two
/// neighbouring separators enclose an empty one.
pub open spec fn split(text: Seq<char>, separator: Seq<char>) -> Seq<Seq<char>>
    decreases text.len(),
{
    let at = first_occurrence(text, separator);
    if separator.len() > 0 && occurs_at(text, separator, at) {
        seq![text.take(at)] + split(text.skip(at + separator.len()), separator)
    } else {
        seq![text]
    }
}

/// The pieces of `parts` written one after another with `separator` between
/// each two neighbours.
pub open spec fn join(parts: Seq<Seq<char>>, separator: Seq<char>) -> Seq<char>
    decreases parts.len(),
{
    if parts.len() == 0 {
        Seq::empty()
    } else if parts.len() == 1 {
        parts[0]
    } else {
        parts[0] + separator + join(parts.drop_first(), separator)
    }
}

/// A leftmost occurrence is the one that `first_occurrence` names.
pub proof fn lemma_first_occurrence(text: Seq<char>, pattern: Seq<char>, at: int)
    requires
        is_first_occurrence(text, pattern, at),
    ensures
        first_occurrence(text, pattern) == at,
{
    let chosen = first_occurrence(text, pattern);
    assert(is_first_occurrence(text, pattern, chosen));
    if chosen < at {
        assert(!occurs_at(text, pattern, chosen));
    }
    if at < chosen {
        assert(!occurs_at(text, pattern, at));
    }
}

/// Cutting a text always leaves at least one piece.
pub proof fn lemma_split_is_not_empty(text: Seq<char>, separator: Seq<char>)
    ensures
        split(text, separator).len() >= 1,
{
}

/// A pattern stands in the rest of a text, counted from `from`, exactly
/// where it stands in the whole text from `from` on.
pub proof fn lemma_occurs_at_skip(text: Seq<char>, pattern: Seq<char>, from: int, at: int)
    requires
        0 <= from <= text.len(),
        0 <= at,
    ensures
        occurs_at(text.skip(from), pattern, at) == occurs_at(text, pattern, from + at),
{
    if at + pattern.len() <= text.len() - from {
        assert(text.skip(from).subrange(at, at + pattern.len()) =~= text.subrange(
            from + at,
            from + at + pattern.len(),
        ));
    }
}

/// A pattern of one character stands exactly where that character stands.
pub proof fn lemma_occurs_at_single(text: Seq<char>, c: char, at: int)
    ensures
        occurs_at(text, seq![c], at) == (0 <= at < text.len() && text[at] == c),
{
    if 0 <= at < text.len() {
        if text[at] == c {
            assert(text.subrange(at, at + 1) =~= seq![c]);
        } else {
            assert(text.subrange(at, at + 1)[0] == text[at]);
        }
    }
}

/// A pattern of two characters stands exactly where the first is followed
/// by the second.
pub proof fn lemma_occurs_at_pair(text: Seq<char>, a: char, b: char, at: int)
    ensures
        occurs_at(text, seq![a, b], at) == (0 <= at && at + 1 < text.len() && text[at] == a
            && text[at + 1] == b),
{
    if 0 <= at && at + 1 < text.len() {
        if text[at] == a && text[at + 1] == b {
            assert(text.subrange(at, at + 2) =~= seq![a, b]);
        } else {
            assert(text.subrange(at, at + 2)[0] == text[at]);
            assert(text.subrange(at, at + 2)[1] == text[at + 1]);
        }
    }
}

/// The characters of `s`, in order.
pub fn chars_of(s: &str) -> (chars: Vec<char>)
    ensures
        chars@ == s@,
{
    let mut chars: Vec<char> = Vec::new();
    for c in it: s.chars()
        invariant
            it.seq() == s@,
            chars@ == it.seq().take(it.index() as int),
    {
        chars.push(c);
    }
    chars
}

/// Appends the characters `chars[from..to]` to `target`.
pub fn push_chars(target: &mut String, chars: &Vec<char>, from: usize, to: usize)
    requires
        from <= to <= chars.len(),
    ensures
        final(target)@ == old(target)@ + chars@.subrange(from as int, to as int),
{
    let mut i: usize = from;
    while i < to
        invariant
            from <= i <= to <= chars.len(),
            target@ == old(target)@ + chars@.subrange(from as int, i as int),
        decreases to - i,
    {
        target.push(chars[i]);
        i += 1;
        assert(chars@.subrange(from as int, i as int) =~= chars@.subrange(
            from as int,
            i as int - 1,
        ).push(chars@[i as int - 1]));
    }
}

} // verus!
