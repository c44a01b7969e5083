//! Which entries of a directory are documents of the corpus.
//!
//! Listing a directory and reading files is left to the caller. What is
//! decided here is the choice: given what the listing tells of each entry,
//! which entries are read, and in which order.
use vstd::prelude::*;

verus! {

/// What the listing of a directory tells of one entry.
#[derive(Debug, Clone, PartialEq, Eq)]
pub struct Entry {
    /// Whether the entry is a regular file.
    pub is_file: bool,
    /// The extension of the entry's name, without the dot, if it has one.
    pub extension: Option<String>,
}

/// An entry is a document when it is a regular file whose extension is
/// exactly `extension`; upper and lower case differ.
pub open spec fn is_document(entry: Entry, extension: Seq<char>) -> bool {
    &&& entry.is_file
    &&& entry.extension matches Some(found)
    &&& found@ == extension
}

/// The first `count` indices: 0, 1, and so on.
pub open spec fn positions(count: nat) -> Seq<int> {
    Seq::new(count, |i: int| i)
}

/// The indices of the documents among `entries`, in rising order.
pub open spec fn selection(entries: Seq<Entry>, extension: Seq<char>) -> Seq<int> {
    positions(entries.len()).filter(|i: int| is_document(entries[i], extension))
}

/// The indices of a `Vec` as mathematical integers.
pub open spec fn indices(picked: Seq<usize>) -> Seq<int> {
    picked.map_values(|i: usize| i as int)
}

/// Whether `entry` is a document with the extension `extension`.
fn entry_is_document(entry: &Entry, extension: &String) -> (yes: bool)
    ensures
        yes == is_document(*entry, extension@),
{
    match &entry.extension {
        Some(found) => entry.is_file && *found == *extension,
        None => false,
    }
}

/// Chooses the documents among the entries of a directory: the indices, in
/// the order of the listing, of the regular files whose extension is
/// `extension`. Nothing is sorted and nothing is left out.
pub fn select(entries: &Vec<Entry>, extension: &str) -> (picked: Vec<usize>)
    ensures
        indices(picked@) == selection(entries@, extension@),
{
    let wanted: String = extension.to_owned();
    let mut picked: Vec<usize> = Vec::new();
    let mut i: usize = 0;
    let ghost keep = |k: int| is_document(entries@[k], extension@);
    proof {
        lemma_filter_empty(keep);
        assert(positions(0) =~= Seq::<int>::empty());
        assert(indices(picked@) =~= Seq::<int>::empty());
    }
    while i < entries.len()
        invariant
            i <= entries.len(),
            wanted@ == extension@,
            keep == |k: int| is_document(entries@[k], extension@),
            indices(picked@) == positions(i as nat).filter(keep),
        decreases entries.len() - i,
    {
        let ghost before = positions(i as nat);
        let ghost earlier = indices(picked@);
        if entry_is_document(&entries[i], &wanted) {
            picked.push(i);
        }
        proof {
            let after = positions((i + 1) as nat);
            assert(after =~= before.push(i as int));
            lemma_filter_push(before, i as int, keep);
            if keep(i as int) {
                assert(indices(picked@) =~= earlier.push(i as int));
            }
        }
        i += 1;
    }
    picked
}

/// Filtering the empty sequence leaves it empty.
pub proof fn lemma_filter_empty(keep: spec_fn(int) -> bool)
    ensures
        Seq::<int>::empty().filter(keep) == Seq::<int>::empty(),
{
    reveal(Seq::filter);
}

/// Filtering a sequence with one more element keeps that element, at the
/// end, exactly if the filter keeps it.
pub proof fn lemma_filter_push(front: Seq<int>, last: int, keep: spec_fn(int) -> bool)
    ensures
        front.push(last).filter(keep) == if keep(last) {
            front.filter(keep).push(last)
        } else {
            front.filter(keep)
        },
{
    reveal(Seq::filter);
    assert(front.push(last).drop_last() =~= front);
}

} // verus!
