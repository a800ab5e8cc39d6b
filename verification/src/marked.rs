//! Link words: a node address whose least-significant bit is the deletion mark.

use vstd::prelude::*;

verus! {

/// The mark bit of a link word is set.
pub open spec fn is_marked(word: usize) -> bool {
    word % 2 == 1
}

/// The link word with its mark bit set.
pub open spec fn mark(word: usize) -> usize {
    if word % 2 == 1 {
        word
    } else {
        (word + 1) as usize
    }
}

/// The link word with its mark bit cleared: the address it carries.
pub open spec fn unmark(word: usize) -> usize {
    (word - word % 2) as usize
}

/// A word that can stand for a node: even, so that the mark bit is free.
pub open spec fn is_aligned(word: usize) -> bool {
    word % 2 == 0
}

/// Tests the mark bit.
pub fn is_marked_reference(word: usize) -> (marked: bool)
    ensures
        marked == is_marked(word),
{
    assert(word & 1 == word % 2) by (bit_vector);
    (word & 0x1) == 1
}

/// Sets the mark bit and leaves the address as it is.
pub fn get_marked_reference(word: usize) -> (marked: usize)
    ensures
        marked == mark(word),
        is_marked(marked),
        unmark(marked) == unmark(word),
{
    assert(word | 1 == if word % 2 == 1 {
        word
    } else {
        (word + 1) as usize
    }) by (bit_vector);
    word | 0x1
}

/// Clears the mark bit and leaves the address as it is.
pub fn get_unmarked_reference(word: usize) -> (address: usize)
    ensures
        address == unmark(word),
        is_aligned(address),
{
    assert(word & !1usize == (word - word % 2) as usize) by (bit_vector);
    word & !0x1
}

/// Marking is idempotent, keeps the address, and is undone by unmarking;
/// an aligned word is its own address.
pub proof fn lemma_mark_unmark(word: usize)
    ensures
        mark(mark(word)) == mark(word),
        unmark(unmark(word)) == unmark(word),
        unmark(mark(word)) == unmark(word),
        is_marked(mark(word)),
        !is_marked(unmark(word)),
        !is_marked(word) ==> unmark(word) == word,
        is_marked(word) ==> mark(word) == word,
{
}

} // verus!
