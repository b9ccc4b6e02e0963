//! Locating line terminators in a byte buffer.

use memchr::memchr;
use vstd::prelude::*;

verus! {

/// The first byte of the two-byte line terminator.
pub const BREAK_FIRST_CHAR: u8 = 13;

/// The second byte of the two-byte line terminator.
pub const NEW_LINE: u8 = 10;

/// The length of the line terminator.
pub const WORD_BREAK_LEN: usize = 2;

/// `at` is the first position at or after `from` where `buf` holds `byte`.
pub open spec fn is_first_at(buf: Seq<u8>, byte: u8, from: int, at: int) -> bool {
    &&& 0 <= from <= at < buf.len()
    &&& buf[at] == byte
    &&& forall|j: int| from <= j < at ==> buf[j] != byte
}

/// `memchr::memchr` returns the index of the first occurrence of `needle` in
/// `haystack`, or `None` when `haystack` does not hold it.
pub assume_specification[ memchr::memchr ](needle: u8, haystack: &[u8]) -> (found: Option<usize>)
    ensures
        match found {
            Some(at) => is_first_at(haystack@, needle, 0, at as int),
            None => forall|j: int| 0 <= j < haystack@.len() ==> haystack@[j] != needle,
        },
;

/// The position of the first carriage return at or after `start`, if the
/// buffer holds one there.
pub open spec fn first_break(buf: Seq<u8>, start: int) -> Option<int> {
    if exists|at: int| is_first_at(buf, BREAK_FIRST_CHAR, start, at) {
        Some(choose|at: int| is_first_at(buf, BREAK_FIRST_CHAR, start, at))
    } else {
        None
    }
}

/// Two positions that are both first are the same position.
pub proof fn lemma_first_at_unique(buf: Seq<u8>, byte: u8, from: int, a: int, b: int)
    requires
        is_first_at(buf, byte, from, a),
        is_first_at(buf, byte, from, b),
    ensures
        a == b,
{
}

/// The two bytes at `at` are present and are the line terminator.
pub open spec fn line_break_at(buf: Seq<u8>, at: int) -> bool {
    &&& 0 <= at
    &&& at + WORD_BREAK_LEN <= buf.len()
    &&& buf[at] == BREAK_FIRST_CHAR
    &&& buf[at + 1] == NEW_LINE
}

/// The position that is first is the one that `first_break` names.
pub proof fn lemma_first_break_is(buf: Seq<u8>, start: int, at: int)
    requires
        is_first_at(buf, BREAK_FIRST_CHAR, start, at),
    ensures
        first_break(buf, start) == Some(at),
{
    let chosen = choose|c: int| is_first_at(buf, BREAK_FIRST_CHAR, start, c);
    lemma_first_at_unique(buf, BREAK_FIRST_CHAR, start, chosen, at);
}

/// A carriage return that is the first in a buffer is still the first when
/// more bytes have arrived.
pub proof fn lemma_first_break_stable(part: Seq<u8>, whole: Seq<u8>, start: int)
    requires
        part.is_prefix_of(whole),
        first_break(part, start) is Some,
    ensures
        first_break(whole, start) == first_break(part, start),
{
    let at = first_break(part, start)->Some_0;
    assert(is_first_at(part, BREAK_FIRST_CHAR, start, at));
    assert(is_first_at(whole, BREAK_FIRST_CHAR, start, at)) by {
        assert(whole[at] == part[at]);
        assert forall|j: int| start <= j < at implies whole[j] != BREAK_FIRST_CHAR by {
            assert(whole[j] == part[j]);
        }
    }
    let chosen = choose|c: int| is_first_at(whole, BREAK_FIRST_CHAR, start, c);
    lemma_first_at_unique(whole, BREAK_FIRST_CHAR, start, chosen, at);
}

/// Finds the end of the word that starts at `start`: the position of the next
/// carriage return.  The byte after it is not looked at.
pub fn get_next_word_end(buf: &[u8], start: usize) -> (end: Option<usize>)
    ensures
        match end {
            Some(at) => first_break(buf@, start as int) == Some(at as int),
            None => first_break(buf@, start as int) is None,
        },
{
    if buf.len() < start {
        assert(first_break(buf@, start as int) is None);
        return None;
    }
    let rest = &buf[start..buf.len()];
    match memchr(BREAK_FIRST_CHAR, rest) {
        Some(offset) => {
            let at: usize = start + offset;
            proof {
                assert(is_first_at(buf@, BREAK_FIRST_CHAR, start as int, at as int)) by {
                    assert(buf@[at as int] == rest@[offset as int]);
                    assert forall|j: int| start <= j < at implies buf@[j] != BREAK_FIRST_CHAR by {
                        assert(buf@[j] == rest@[j - start]);
                    }
                }
                lemma_first_break_is(buf@, start as int, at as int);
            }
            Some(at)
        },
        None => {
            proof {
                assert forall|c: int| !is_first_at(buf@, BREAK_FIRST_CHAR, start as int, c) by {
                    if start <= c < buf@.len() {
                        assert(buf@[c] == rest@[c - start]);
                    }
                }
            }
            None
        },
    }
}

/// Confirms the line terminator at `word_end`: both bytes are there and are
/// the right ones.  A terminator that has not fully arrived is not confirmed.
pub fn word_ends_with_break(buf: &[u8], word_end: usize) -> (confirmed: bool)
    ensures
        confirmed == line_break_at(buf@, word_end as int),
{
    word_end <= buf.len() && buf.len() - word_end >= WORD_BREAK_LEN && buf[word_end]
        == BREAK_FIRST_CHAR && buf[word_end + 1] == NEW_LINE
}

} // verus!
