//! The expression parser: one complete value from a buffer that may not hold
//! all of it yet.

use memchr::memchr;
use vstd::prelude::*;
use crate::error::RESPError;
use crate::index::{IndexTree, RESPValueIndices};
use crate::integer::{parse_integer, parse_integer_spec};
use crate::scan::{
    first_break,
    get_next_word_end,
    is_first_at,
    lemma_first_break_stable,
    line_break_at,
    BREAK_FIRST_CHAR,
    word_ends_with_break,
    NEW_LINE,
    WORD_BREAK_LEN,
};

verus! {

/// The type prefix of a blob string, `$`.
pub const BLOB_STRING_PREFIX: u8 = 36;

/// The type prefix of a simple string, `+`.
pub const SIMPLE_STRING_PREFIX: u8 = 43;

/// The type prefix of an array, `*`.
pub const ARRAY_PREFIX: u8 = 42;

/// The three outcomes of a parse attempt.
pub enum Parsed {
    /// The bytes so far are the beginning of a value; more are needed.
    Incomplete,
    /// A whole value, and the offset just past it.
    Complete(IndexTree, int),
    /// The bytes cannot begin a value.
    Malformed(RESPError),
}

/// The outcome that a parse result stands for.
pub open spec fn parsed_view(r: Result<Option<(RESPValueIndices, usize)>, RESPError>) -> Parsed {
    match r {
        Ok(None) => Parsed::Incomplete,
        Ok(Some((tree, next))) => Parsed::Complete(tree@, next as int),
        Err(e) => Parsed::Malformed(e),
    }
}

/// `first` put in front of the elements of a completed array; any other
/// outcome is passed on.
pub open spec fn prepend(first: Seq<IndexTree>, rest: Parsed) -> Parsed {
    match rest {
        Parsed::Complete(IndexTree::Array(others), next) => Parsed::Complete(
            IndexTree::Array(first + others),
            next,
        ),
        other => other,
    }
}

/// A simple string whose payload starts at `start` and whose line ends at the
/// carriage return at `end`.
pub open spec fn parse_simple_string_spec(buf: Seq<u8>, start: int, end: int) -> Parsed {
    if buf.len() < end + WORD_BREAK_LEN {
        Parsed::Incomplete
    } else if !line_break_at(buf, end) {
        Parsed::Malformed(RESPError::WordNotEndingWithNewLine)
    } else if buf.subrange(start, end).contains(NEW_LINE) {
        Parsed::Malformed(RESPError::NewLineInSimpleString)
    } else {
        Parsed::Complete(IndexTree::SimpleString(start, end), end + WORD_BREAK_LEN)
    }
}

/// A blob string whose length field is `buf[int_start..int_end)` and ends at
/// the carriage return at `int_end`.
///
/// A negative length is the null value, which ends with the length line.  Any
/// other length must equal the distance from the start of the payload to the
/// next carriage return, which must begin a terminator; a length of zero is
/// the empty string, and distinct from null.
pub open spec fn parse_blob_string_spec(buf: Seq<u8>, int_start: int, int_end: int) -> Parsed {
    let str_start = int_end + WORD_BREAK_LEN;
    match parse_integer_spec(buf.subrange(int_start, int_end)) {
        Err(e) => Parsed::Malformed(e),
        Ok(size) => if buf.len() < str_start {
            Parsed::Incomplete
        } else if !line_break_at(buf, int_end) {
            Parsed::Malformed(RESPError::WordNotEndingWithNewLine)
        } else if size < 0 {
            Parsed::Complete(IndexTree::Null, str_start)
        } else {
            match first_break(buf, str_start) {
                None => Parsed::Incomplete,
                Some(str_end) => if buf.len() < str_end + WORD_BREAK_LEN {
                    Parsed::Incomplete
                } else if !line_break_at(buf, str_end) {
                    Parsed::Malformed(RESPError::WordNotEndingWithNewLine)
                } else if size != str_end - str_start {
                    Parsed::Malformed(RESPError::InvalidNumberSize)
                } else {
                    Parsed::Complete(
                        IndexTree::BlobString(str_start, str_end),
                        str_end + WORD_BREAK_LEN,
                    )
                },
            }
        },
    }
}

/// The value that starts at `start`.
///
/// Nothing at `start` yet is incomplete.  The first byte selects the kind of
/// value, and a byte that selects none is malformed at once.  The line that
/// the prefix opens ends at the next carriage return; until one is there the
/// value is incomplete.
pub open spec fn parse_expression_spec(buf: Seq<u8>, start: int) -> Parsed
    decreases buf.len() - start, 2int,
{
    if start < 0 || start >= buf.len() {
        Parsed::Incomplete
    } else if buf[start] != BLOB_STRING_PREFIX && buf[start] != SIMPLE_STRING_PREFIX && buf[start]
        != ARRAY_PREFIX {
        Parsed::Malformed(RESPError::UnsupportedValue)
    } else {
        match first_break(buf, start + 1) {
            None => Parsed::Incomplete,
            Some(end) => if buf[start] == BLOB_STRING_PREFIX {
                parse_blob_string_spec(buf, start + 1, end)
            } else if buf[start] == SIMPLE_STRING_PREFIX {
                parse_simple_string_spec(buf, start + 1, end)
            } else {
                parse_array_spec(buf, start + 1, end)
            },
        }
    }
}

/// An array whose count field is `buf[size_start..size_end)` and ends at the
/// carriage return at `size_end`.  A negative count is the null value; any
/// other count is followed by that many values.
pub open spec fn parse_array_spec(buf: Seq<u8>, size_start: int, size_end: int) -> Parsed
    decreases buf.len() - size_end, 1int,
{
    let first = size_end + WORD_BREAK_LEN;
    match parse_integer_spec(buf.subrange(size_start, size_end)) {
        Err(e) => Parsed::Malformed(e),
        Ok(count) => if buf.len() < first {
            Parsed::Incomplete
        } else if !line_break_at(buf, size_end) {
            Parsed::Malformed(RESPError::WordNotEndingWithNewLine)
        } else if count < 0 {
            Parsed::Complete(IndexTree::Null, first)
        } else {
            parse_elements_spec(buf, first, count as nat)
        },
    }
}

/// `count` values one after another from `pos`, as the array of them.  The
/// first element that is incomplete or malformed decides the outcome.
pub open spec fn parse_elements_spec(buf: Seq<u8>, pos: int, count: nat) -> Parsed
    decreases buf.len() - pos, 3int,
{
    if count == 0 {
        Parsed::Complete(IndexTree::Array(Seq::empty()), pos)
    } else {
        match parse_expression_spec(buf, pos) {
            Parsed::Complete(tree, next) => if pos < next <= buf.len() {
                prepend(seq![tree], parse_elements_spec(buf, next, (count - 1) as nat))
            } else {
                // A value spans at least one byte of the buffer; see
                // `lemma_parse_expression_bounds`.
                Parsed::Incomplete
            },
            other => other,
        }
    }
}

/// The views of index trees, element by element.
pub open spec fn trees_of(items: Seq<RESPValueIndices>) -> Seq<IndexTree> {
    Seq::new(items.len(), |i: int| items[i]@)
}

/// A value that parses completely spans at least one byte, ends inside the
/// buffer, and its tree points only into the bytes that it spans.
pub proof fn lemma_parse_expression_bounds(buf: Seq<u8>, start: int)
    ensures
        parse_expression_spec(buf, start) matches Parsed::Complete(tree, next) ==> {
            &&& 0 <= start < next <= buf.len()
            &&& tree.within(start, next)
        },
    decreases buf.len() - start, 2int,
{
    if 0 <= start < buf.len() {
        match first_break(buf, start + 1) {
            None => {},
            Some(end) => {
                assert(is_first_at(buf, BREAK_FIRST_CHAR, start + 1, end));
                if buf[start] == ARRAY_PREFIX {
                    lemma_parse_array_bounds(buf, start + 1, end);
                    match parse_array_spec(buf, start + 1, end) {
                        Parsed::Complete(tree, next) => {
                            lemma_within_widens(tree, end, next, start, next);
                        },
                        _ => {},
                    }
                }
            },
        }
    }
}

/// The same of an array, from its count field on.
pub proof fn lemma_parse_array_bounds(buf: Seq<u8>, size_start: int, size_end: int)
    requires
        0 <= size_start <= size_end,
    ensures
        parse_array_spec(buf, size_start, size_end) matches Parsed::Complete(tree, next) ==> {
            &&& size_end < next <= buf.len()
            &&& tree.within(size_end, next)
        },
    decreases buf.len() - size_end, 1int,
{
    let first = size_end + WORD_BREAK_LEN;
    if parse_array_spec(buf, size_start, size_end) is Complete {
        let count = parse_integer_spec(buf.subrange(size_start, size_end))->Ok_0;
        if count >= 0 {
            lemma_parse_elements_bounds(buf, first, count as nat);
            match parse_elements_spec(buf, first, count as nat) {
                Parsed::Complete(tree, next) => {
                    lemma_within_widens(tree, first, next, size_end, next);
                },
                _ => {},
            }
        }
    }
}

/// The same of a run of elements.
pub proof fn lemma_parse_elements_bounds(buf: Seq<u8>, pos: int, count: nat)
    requires
        0 <= pos <= buf.len(),
    ensures
        parse_elements_spec(buf, pos, count) matches Parsed::Complete(tree, next) ==> {
            &&& pos <= next <= buf.len()
            &&& tree is Array
            &&& tree.within(pos, next)
        },
    decreases buf.len() - pos, 3int, count,
{
    if count > 0 {
        lemma_parse_expression_bounds(buf, pos);
        match parse_expression_spec(buf, pos) {
            Parsed::Complete(tree, next) => {
                lemma_parse_elements_bounds(buf, next, (count - 1) as nat);
                match parse_elements_spec(buf, next, (count - 1) as nat) {
                    Parsed::Complete(rest, end) => {
                        lemma_within_widens(tree, pos, next, pos, end);
                        lemma_within_widens(rest, next, end, pos, end);
                        let others = rest->Array_0;
                        let all = seq![tree] + others;
                        assert forall|i: int| 0 <= i < all.len() implies (#[trigger] all[i]).within(
                            pos,
                            end,
                        ) by {
                            if i > 0 {
                                assert(all[i] == others[i - 1]);
                            }
                        }
                    },
                    _ => {},
                }
            },
            _ => {},
        }
    }
}

/// A tree that lies inside a range lies inside every range around it.
pub proof fn lemma_within_widens(tree: IndexTree, low: int, high: int, lower: int, higher: int)
    requires
        tree.within(low, high),
        lower <= low,
        high <= higher,
    ensures
        tree.within(lower, higher),
    decreases tree,
{
    match tree {
        IndexTree::Array(children) => {
            assert forall|i: int| 0 <= i < children.len() implies (#[trigger] children[i]).within(
                lower,
                higher,
            ) by {
                lemma_within_widens(children[i], low, high, lower, higher);
            }
        },
        _ => {},
    }
}

/// Putting no trees in front of a run of elements changes nothing.
pub proof fn lemma_prepend_nothing(rest: Parsed)
    ensures
        prepend(Seq::empty(), rest) == rest,
{
    match rest {
        Parsed::Complete(IndexTree::Array(others), next) => {
            assert(Seq::<IndexTree>::empty() + others =~= others);
        },
        _ => {},
    }
}

/// Putting trees in front twice is putting their concatenation in front.
pub proof fn lemma_prepend_twice(a: Seq<IndexTree>, b: Seq<IndexTree>, rest: Parsed)
    ensures
        prepend(a, prepend(b, rest)) == prepend(a + b, rest),
{
    match rest {
        Parsed::Complete(IndexTree::Array(others), next) => {
            assert(a + (b + others) =~= (a + b) + others);
        },
        _ => {},
    }
}

/// Parses a simple string whose payload starts at `start` and whose line ends
/// at the carriage return at `end`.
pub fn parse_simple_string(buf: &[u8], start: usize, end: usize) -> (r: Result<
    Option<(RESPValueIndices, usize)>,
    RESPError,
>)
    requires
        start <= end <= buf@.len(),
    ensures
        parsed_view(r) == parse_simple_string_spec(buf@, start as int, end as int),
{
    if buf.len() - end < WORD_BREAK_LEN {
        return Ok(None);
    }
    if !word_ends_with_break(buf, end) {
        return Err(RESPError::WordNotEndingWithNewLine);
    }
    let payload = &buf[start..end];
    match memchr(NEW_LINE, payload) {
        Some(at) => {
            assert(payload@[at as int] == NEW_LINE);
            Err(RESPError::NewLineInSimpleString)
        },
        None => Ok(Some((RESPValueIndices::SimpleString(start, end), end + WORD_BREAK_LEN))),
    }
}

/// Parses a blob string whose length field is `buf[int_start..int_end)` and
/// ends at the carriage return at `int_end`.
pub fn parse_blob_string(buf: &[u8], int_start: usize, int_end: usize) -> (r: Result<
    Option<(RESPValueIndices, usize)>,
    RESPError,
>)
    requires
        int_start <= int_end <= buf@.len(),
    ensures
        parsed_view(r) == parse_blob_string_spec(buf@, int_start as int, int_end as int),
{
    let str_size: i64 = parse_integer(&buf[int_start..int_end])?;
    if buf.len() - int_end < WORD_BREAK_LEN {
        return Ok(None);
    }
    if !word_ends_with_break(buf, int_end) {
        return Err(RESPError::WordNotEndingWithNewLine);
    }
    let str_start: usize = int_end + WORD_BREAK_LEN;
    if str_size < 0 {
        return Ok(Some((RESPValueIndices::Null, str_start)));
    }
    let str_end: usize = match get_next_word_end(buf, str_start) {
        Some(at) => at,
        None => {
            return Ok(None);
        },
    };
    assert(is_first_at(buf@, BREAK_FIRST_CHAR, str_start as int, str_end as int));
    if buf.len() - str_end < WORD_BREAK_LEN {
        return Ok(None);
    }
    if !word_ends_with_break(buf, str_end) {
        return Err(RESPError::WordNotEndingWithNewLine);
    }
    if str_size as u64 != (str_end - str_start) as u64 {
        return Err(RESPError::InvalidNumberSize);
    }
    Ok(Some((RESPValueIndices::BlobString(str_start, str_end), str_end + WORD_BREAK_LEN)))
}

/// Parses an array whose count field is `buf[size_start..size_end)` and ends
/// at the carriage return at `size_end`, element by element.
pub fn parse_array(buf: &[u8], size_start: usize, size_end: usize) -> (r: Result<
    Option<(RESPValueIndices, usize)>,
    RESPError,
>)
    requires
        size_start <= size_end <= buf@.len(),
    ensures
        parsed_view(r) == parse_array_spec(buf@, size_start as int, size_end as int),
    decreases buf@.len() - size_end, 1int,
{
    let signed_size: i64 = parse_integer(&buf[size_start..size_end])?;
    if buf.len() - size_end < WORD_BREAK_LEN {
        return Ok(None);
    }
    if !word_ends_with_break(buf, size_end) {
        return Err(RESPError::WordNotEndingWithNewLine);
    }
    let first: usize = size_end + WORD_BREAK_LEN;
    if signed_size < 0 {
        return Ok(Some((RESPValueIndices::Null, first)));
    }
    let count: u64 = signed_size as u64;
    let mut next_start: usize = first;
    let mut values: Vec<RESPValueIndices> = Vec::new();
    let mut parsed: u64 = 0;
    proof {
        assert(trees_of(values@) =~= Seq::<IndexTree>::empty());
        lemma_prepend_nothing(parse_elements_spec(buf@, first as int, count as nat));
    }
    while parsed < count
        invariant
            first == size_end + WORD_BREAK_LEN,
            first <= next_start <= buf@.len(),
            parse_array_spec(buf@, size_start as int, size_end as int) == parse_elements_spec(
                buf@,
                first as int,
                count as nat,
            ),
            parsed <= count,
            values@.len() == parsed,
            parse_elements_spec(buf@, first as int, count as nat) == prepend(
                trees_of(values@),
                parse_elements_spec(buf@, next_start as int, (count - parsed) as nat),
            ),
        decreases count - parsed,
    {
        let ghost before = trees_of(values@);
        let ghost left = (count - parsed) as nat;
        match parse_expression(buf, next_start)? {
            Some((tree, next)) => {
                proof {
                    lemma_prepend_twice(
                        before,
                        seq![tree@],
                        parse_elements_spec(buf@, next as int, (left - 1) as nat),
                    );
                    assert(trees_of(values@.push(tree)) =~= before + seq![tree@]);
                }
                values.push(tree);
                next_start = next;
                parsed = parsed + 1;
            },
            None => {
                return Ok(None);
            },
        }
    }
    let tree = RESPValueIndices::Array(values);
    proof {
        assert(tree@->Array_0 =~= trees_of(values@));
        assert(trees_of(values@) + Seq::<IndexTree>::empty() =~= trees_of(values@));
    }
    Ok(Some((tree, next_start)))
}

/// Parses the value that starts at `start`, if the buffer holds all of it.
///
/// `Ok(None)` says that more bytes are needed; the buffer is only read, so
/// the same call can be made again once more have arrived.
pub fn parse_expression(buf: &[u8], start: usize) -> (r: Result<
    Option<(RESPValueIndices, usize)>,
    RESPError,
>)
    ensures
        parsed_view(r) == parse_expression_spec(buf@, start as int),
        r matches Ok(Some((tree, next))) ==> start < next <= buf@.len() && tree@.within(
            start as int,
            next as int,
        ),
    decreases buf@.len() - start, 2int,
{
    proof {
        lemma_parse_expression_bounds(buf@, start as int);
    }
    if buf.len() <= start {
        return Ok(None);
    }
    let prefix: u8 = buf[start];
    if prefix != BLOB_STRING_PREFIX && prefix != SIMPLE_STRING_PREFIX && prefix != ARRAY_PREFIX {
        return Err(RESPError::UnsupportedValue);
    }
    match get_next_word_end(buf, start + 1) {
        None => Ok(None),
        Some(end) => {
            assert(is_first_at(buf@, BREAK_FIRST_CHAR, start + 1, end as int));
            if prefix == BLOB_STRING_PREFIX {
                parse_blob_string(buf, start + 1, end)
            } else if prefix == SIMPLE_STRING_PREFIX {
                parse_simple_string(buf, start + 1, end)
            } else {
                parse_array(buf, start + 1, end)
            }
        },
    }
}

/// A simple string that is decided stays decided, and the same, when more
/// bytes have arrived.
pub proof fn lemma_parse_simple_string_stable(
    part: Seq<u8>,
    whole: Seq<u8>,
    start: int,
    end: int,
)
    requires
        part.is_prefix_of(whole),
        0 <= start <= end,
        !(parse_simple_string_spec(part, start, end) is Incomplete),
    ensures
        parse_simple_string_spec(whole, start, end) == parse_simple_string_spec(part, start, end),
{
    assert(whole[end] == part[end]);
    assert(whole[end + 1] == part[end + 1]);
    assert(whole.subrange(start, end) =~= part.subrange(start, end));
}

/// The same of a blob string.
pub proof fn lemma_parse_blob_string_stable(
    part: Seq<u8>,
    whole: Seq<u8>,
    int_start: int,
    int_end: int,
)
    requires
        part.is_prefix_of(whole),
        0 <= int_start <= int_end <= part.len(),
        !(parse_blob_string_spec(part, int_start, int_end) is Incomplete),
    ensures
        parse_blob_string_spec(whole, int_start, int_end) == parse_blob_string_spec(
            part,
            int_start,
            int_end,
        ),
{
    assert(whole.subrange(int_start, int_end) =~= part.subrange(int_start, int_end));
    let str_start = int_end + WORD_BREAK_LEN;
    match parse_integer_spec(part.subrange(int_start, int_end)) {
        Err(e) => {},
        Ok(size) => {
            assert(whole[int_end] == part[int_end]);
            assert(whole[int_end + 1] == part[int_end + 1]);
            if line_break_at(part, int_end) && size >= 0 {
                lemma_first_break_stable(part, whole, str_start);
                let str_end = first_break(part, str_start)->Some_0;
                assert(is_first_at(part, BREAK_FIRST_CHAR, str_start, str_end));
                assert(whole[str_end] == part[str_end]);
                assert(whole[str_end + 1] == part[str_end + 1]);
            }
        },
    }
}

/// A value that is decided stays decided, and the same, when more bytes have
/// arrived: an attempt that did not say "incomplete" need not be repeated.
pub proof fn lemma_parse_expression_stable(part: Seq<u8>, whole: Seq<u8>, start: int)
    requires
        part.is_prefix_of(whole),
        !(parse_expression_spec(part, start) is Incomplete),
    ensures
        parse_expression_spec(whole, start) == parse_expression_spec(part, start),
    decreases part.len() - start, 2int,
{
    assert(whole[start] == part[start]);
    if part[start] == BLOB_STRING_PREFIX || part[start] == SIMPLE_STRING_PREFIX || part[start]
        == ARRAY_PREFIX {
        lemma_first_break_stable(part, whole, start + 1);
        let end = first_break(part, start + 1)->Some_0;
        assert(is_first_at(part, BREAK_FIRST_CHAR, start + 1, end));
        if part[start] == BLOB_STRING_PREFIX {
            lemma_parse_blob_string_stable(part, whole, start + 1, end);
        } else if part[start] == SIMPLE_STRING_PREFIX {
            lemma_parse_simple_string_stable(part, whole, start + 1, end);
        } else {
            lemma_parse_array_stable(part, whole, start + 1, end);
        }
    }
}

/// The same of an array, from its count field on.
pub proof fn lemma_parse_array_stable(
    part: Seq<u8>,
    whole: Seq<u8>,
    size_start: int,
    size_end: int,
)
    requires
        part.is_prefix_of(whole),
        0 <= size_start <= size_end <= part.len(),
        !(parse_array_spec(part, size_start, size_end) is Incomplete),
    ensures
        parse_array_spec(whole, size_start, size_end) == parse_array_spec(
            part,
            size_start,
            size_end,
        ),
    decreases part.len() - size_end, 1int,
{
    assert(whole.subrange(size_start, size_end) =~= part.subrange(size_start, size_end));
    let first = size_end + WORD_BREAK_LEN;
    match parse_integer_spec(part.subrange(size_start, size_end)) {
        Err(e) => {},
        Ok(count) => {
            assert(whole[size_end] == part[size_end]);
            assert(whole[size_end + 1] == part[size_end + 1]);
            if line_break_at(part, size_end) && count >= 0 {
                lemma_parse_elements_stable(part, whole, first, count as nat);
            }
        },
    }
}

/// The same of a run of elements.
pub proof fn lemma_parse_elements_stable(part: Seq<u8>, whole: Seq<u8>, pos: int, count: nat)
    requires
        part.is_prefix_of(whole),
        0 <= pos <= part.len(),
        !(parse_elements_spec(part, pos, count) is Incomplete),
    ensures
        parse_elements_spec(whole, pos, count) == parse_elements_spec(part, pos, count),
    decreases part.len() - pos, 3int, count,
{
    if count > 0 {
        lemma_parse_expression_stable(part, whole, pos);
        lemma_parse_expression_bounds(part, pos);
        match parse_expression_spec(part, pos) {
            Parsed::Complete(tree, next) => {
                lemma_parse_elements_stable(part, whole, next, (count - 1) as nat);
            },
            _ => {},
        }
    }
}

} // verus!
