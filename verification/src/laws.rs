//! What holds of the codec as a whole.

use vstd::prelude::*;
use vstd::utf8::*;
use crate::codec::{
    blob_string_encoding,
    decode_spec,
    encoding,
    null_encoding,
    lemma_materialize_prefix,
    simple_string_encoding,
    word_break,
    Decoded,
};
use crate::error::RESPError;
use crate::index::{materialize, IndexTree};
use crate::integer::{
    decimal_digits,
    digits_value,
    is_digit,
    lemma_decimal_digits_read_back,
    lemma_parse_integer_of_decimal,
    parse_integer_spec,
    MINUS,
};
use crate::parser::{
    lemma_parse_elements_bounds,
    lemma_parse_expression_bounds,
    lemma_parse_expression_stable,
    lemma_within_widens,
    parse_blob_string_spec,
    parse_elements_spec,
    parse_expression_spec,
    parse_simple_string_spec,
    Parsed,
    ARRAY_PREFIX,
    BLOB_STRING_PREFIX,
    SIMPLE_STRING_PREFIX,
};
use crate::scan::{
    first_break,
    is_first_at,
    lemma_first_break_is,
    line_break_at,
    BREAK_FIRST_CHAR,
    NEW_LINE,
    WORD_BREAK_LEN,
};
use crate::text::lemma_ascii_is_utf8;
use crate::value::ValueView;

verus! {

/// Decoding an empty buffer asks for more bytes; it is never an error.
pub proof fn lemma_decode_empty()
    ensures
        decode_spec(Seq::empty()) == (Decoded::NeedMore, 0int),
{
}

/// What is left in the buffer after a decode attempt.
pub open spec fn remaining_after(buf: Seq<u8>) -> Seq<u8> {
    buf.subrange(decode_spec(buf).1, buf.len() as int)
}

/// Decoding as the bytes arrive in two chunks: an attempt on the first, and,
/// if that asks for more, an attempt on both.  The result is the outcome and
/// what the buffer holds at the end.
pub open spec fn decode_in_two(first: Seq<u8>, second: Seq<u8>) -> (Decoded, Seq<u8>) {
    if decode_spec(first).0 is NeedMore {
        (decode_spec(first + second).0, remaining_after(first + second))
    } else {
        (decode_spec(first).0, remaining_after(first) + second)
    }
}

/// An attempt that is decided is decided the same way, and takes the same
/// bytes, whatever arrives after.
pub proof fn lemma_decode_stable(part: Seq<u8>, whole: Seq<u8>)
    requires
        part.is_prefix_of(whole),
        !(decode_spec(part).0 is NeedMore),
    ensures
        decode_spec(whole) == decode_spec(part),
{
    lemma_parse_expression_stable(part, whole, 0);
    lemma_parse_expression_bounds(part, 0);
    match parse_expression_spec(part, 0) {
        Parsed::Complete(tree, next) => {
            lemma_within_widens(tree, 0, next, 0, part.len() as int);
            lemma_materialize_prefix(tree, whole, part.len() as int);
            assert(whole.subrange(0, part.len() as int) =~= part);
        },
        _ => {},
    }
}

/// Chunk-boundary independence: wherever a buffer is cut in two, decoding it
/// as the two chunks arrive yields what decoding it in one piece yields, and
/// leaves the same bytes in the buffer.
pub proof fn lemma_chunk_boundary_independence(first: Seq<u8>, second: Seq<u8>)
    ensures
        decode_in_two(first, second) == (
            decode_spec(first + second).0,
            remaining_after(first + second),
        ),
{
    let whole = first + second;
    if !(decode_spec(first).0 is NeedMore) {
        assert(whole.subrange(0, first.len() as int) =~= first);
        lemma_decode_stable(first, whole);
        lemma_parse_expression_bounds(first, 0);
        assert(remaining_after(first) + second =~= remaining_after(whole));
    }
}

/// How a blob string frame parses whose declared length is `declared` and
/// whose payload, free of carriage returns, is `payload`: as the string when
/// the two agree, and as a length mismatch when they do not.  What follows
/// the frame plays no part.
pub proof fn lemma_parse_blob_string_frame(declared: nat, payload: Seq<u8>, rest: Seq<u8>)
    requires
        declared <= i64::MAX,
        !payload.contains(BREAK_FIRST_CHAR),
    ensures
        ({
            let frame = seq![BLOB_STRING_PREFIX] + decimal_digits(declared) + word_break() + payload
                + word_break();
            let start: int = 1 + decimal_digits(declared).len() + WORD_BREAK_LEN;
            parse_expression_spec(frame + rest, 0) == if declared == payload.len() {
                Parsed::Complete(
                    IndexTree::BlobString(start, start + payload.len()),
                    frame.len() as int,
                )
            } else {
                Parsed::Malformed(RESPError::InvalidNumberSize)
            }
        }),
{
    let digits = decimal_digits(declared);
    let frame = seq![BLOB_STRING_PREFIX] + digits + word_break() + payload + word_break();
    let buf = frame + rest;
    let int_end: int = digits.len() as int + 1;
    let str_start: int = int_end + WORD_BREAK_LEN;
    let str_end: int = str_start + payload.len();
    lemma_decimal_digits_read_back(declared);
    lemma_parse_integer_of_decimal(declared);
    assert(buf[0] == BLOB_STRING_PREFIX);
    assert(is_first_at(buf, BREAK_FIRST_CHAR, 1, int_end)) by {
        assert(buf[int_end] == BREAK_FIRST_CHAR);
        assert forall|j: int| 1 <= j < int_end implies buf[j] != BREAK_FIRST_CHAR by {
            assert(buf[j] == digits[j - 1]);
            assert(is_digit(digits[j - 1]));
        }
    }
    lemma_first_break_is(buf, 1, int_end);
    assert(buf.subrange(1, int_end) =~= digits);
    assert(line_break_at(buf, int_end)) by {
        assert(buf[int_end + 1] == NEW_LINE);
    }
    assert(is_first_at(buf, BREAK_FIRST_CHAR, str_start, str_end)) by {
        assert(buf[str_end] == BREAK_FIRST_CHAR);
        assert forall|j: int| str_start <= j < str_end implies buf[j] != BREAK_FIRST_CHAR by {
            assert(buf[j] == payload[j - str_start]);
            assert(payload.contains(payload[j - str_start]));
        }
    }
    lemma_first_break_is(buf, str_start, str_end);
    assert(line_break_at(buf, str_end)) by {
        assert(buf[str_end + 1] == NEW_LINE);
    }
    assert(parse_expression_spec(buf, 0) == parse_blob_string_spec(buf, 1, int_end));
}

/// Round trip: a blob string that was encoded decodes to the text it was
/// encoded from, and the decoder takes exactly the bytes of its encoding,
/// whatever follows them.
///
/// The text must be free of carriage returns, which the decoder takes for the
/// end of the payload, and its length must fit a signed 64-bit integer, as
/// the length of every string in memory does.
pub proof fn lemma_blob_string_round_trip(text: Seq<char>, rest: Seq<u8>)
    requires
        encode_utf8(text).len() <= i64::MAX,
        !encode_utf8(text).contains(BREAK_FIRST_CHAR),
    ensures
        encoding(ValueView::BlobString(text)) == Some(blob_string_encoding(encode_utf8(text))),
        decode_spec(blob_string_encoding(encode_utf8(text)) + rest) == (
            Decoded::Value(ValueView::BlobString(text)),
            blob_string_encoding(encode_utf8(text)).len() as int,
        ),
{
    let payload = encode_utf8(text);
    let frame = blob_string_encoding(payload);
    let buf = frame + rest;
    let start: int = 1 + decimal_digits(payload.len()).len() + WORD_BREAK_LEN;
    lemma_parse_blob_string_frame(payload.len(), payload, rest);
    assert(buf.subrange(start, start + payload.len()) =~= payload);
    encode_utf8_valid_utf8(text);
    encode_utf8_decode_utf8(text);
}

/// A simple string that was encoded decodes to the text it was encoded from,
/// if the text holds neither a carriage return nor a line feed.
pub proof fn lemma_simple_string_round_trip(text: Seq<char>, rest: Seq<u8>)
    requires
        !encode_utf8(text).contains(BREAK_FIRST_CHAR),
        !encode_utf8(text).contains(NEW_LINE),
    ensures
        encoding(ValueView::SimpleString(text)) == Some(
            simple_string_encoding(encode_utf8(text)),
        ),
        decode_spec(simple_string_encoding(encode_utf8(text)) + rest) == (
            Decoded::Value(ValueView::SimpleString(text)),
            simple_string_encoding(encode_utf8(text)).len() as int,
        ),
{
    let payload = encode_utf8(text);
    let frame = simple_string_encoding(payload);
    let buf = frame + rest;
    let end: int = payload.len() as int + 1;
    assert(buf[0] == SIMPLE_STRING_PREFIX);
    assert(is_first_at(buf, BREAK_FIRST_CHAR, 1, end)) by {
        assert(buf[end] == BREAK_FIRST_CHAR);
        assert forall|j: int| 1 <= j < end implies buf[j] != BREAK_FIRST_CHAR by {
            assert(buf[j] == payload[j - 1]);
            assert(payload.contains(payload[j - 1]));
        }
    }
    lemma_first_break_is(buf, 1, end);
    assert(line_break_at(buf, end)) by {
        assert(buf[end + 1] == NEW_LINE);
    }
    assert(buf.subrange(1, end) =~= payload);
    assert(parse_expression_spec(buf, 0) == parse_simple_string_spec(buf, 1, end));
    encode_utf8_valid_utf8(text);
    encode_utf8_decode_utf8(text);
}

/// The null value that was encoded decodes to the null value.
pub proof fn lemma_null_round_trip(rest: Seq<u8>)
    ensures
        encoding(ValueView::Null) == Some(null_encoding()),
        decode_spec(null_encoding() + rest) == (Decoded::Value(ValueView::Null), 5int),
{
    let buf = null_encoding() + rest;
    let field = seq![MINUS, 49u8];
    assert(buf[0] == BLOB_STRING_PREFIX);
    assert(is_first_at(buf, BREAK_FIRST_CHAR, 1, 3)) by {
        assert(buf[1] == MINUS && buf[2] == 49u8 && buf[3] == BREAK_FIRST_CHAR);
    }
    lemma_first_break_is(buf, 1, 3);
    assert(buf.subrange(1, 3) =~= field);
    assert(line_break_at(buf, 3)) by {
        assert(buf[4] == NEW_LINE);
    }
    assert(parse_integer_spec(field) == Ok::<i64, RESPError>(-1i64)) by {
        lemma_ascii_is_utf8(field);
        let digits = field.subrange(1, 2);
        assert(digits =~= seq![49u8]);
        assert(digits.drop_last() =~= Seq::<u8>::empty());
        reveal_with_fuel(digits_value, 2);
        assert(is_digit(digits[0]));
    }
    assert(parse_expression_spec(buf, 0) == parse_blob_string_spec(buf, 1, 3));
}

/// A blob string whose declared length is not the length of its payload is
/// refused as a length mismatch.
pub proof fn lemma_blob_string_length_mismatch(declared: nat, payload: Seq<u8>, rest: Seq<u8>)
    requires
        declared <= i64::MAX,
        declared != payload.len(),
        !payload.contains(BREAK_FIRST_CHAR),
    ensures
        decode_spec(
            seq![BLOB_STRING_PREFIX] + decimal_digits(declared) + word_break() + payload
                + word_break() + rest,
        ) == (Decoded::Failed(RESPError::InvalidNumberSize), 0int),
{
    lemma_parse_blob_string_frame(declared, payload, rest);
}

/// A simple string with a line feed in its payload is refused for the
/// embedded line feed.
pub proof fn lemma_simple_string_rejects_line_feed(payload: Seq<u8>, rest: Seq<u8>)
    requires
        payload.contains(NEW_LINE),
        !payload.contains(BREAK_FIRST_CHAR),
    ensures
        decode_spec(simple_string_encoding(payload) + rest) == (
            Decoded::Failed(RESPError::NewLineInSimpleString),
            0int,
        ),
{
    let frame = simple_string_encoding(payload);
    let buf = frame + rest;
    let end: int = payload.len() as int + 1;
    assert(buf[0] == SIMPLE_STRING_PREFIX);
    assert(is_first_at(buf, BREAK_FIRST_CHAR, 1, end)) by {
        assert(buf[end] == BREAK_FIRST_CHAR);
        assert forall|j: int| 1 <= j < end implies buf[j] != BREAK_FIRST_CHAR by {
            assert(buf[j] == payload[j - 1]);
            assert(payload.contains(payload[j - 1]));
        }
    }
    lemma_first_break_is(buf, 1, end);
    assert(line_break_at(buf, end)) by {
        assert(buf[end + 1] == NEW_LINE);
    }
    assert(buf.subrange(1, end) =~= payload);
    assert(parse_expression_spec(buf, 0) == parse_simple_string_spec(buf, 1, end));
}

/// No simple string of `tree` has a line feed in its range of `buf`.
pub open spec fn free_of_line_feeds(tree: IndexTree, buf: Seq<u8>) -> bool
    decreases tree,
{
    match tree {
        IndexTree::SimpleString(start, end) => !buf.subrange(start, end).contains(NEW_LINE),
        IndexTree::Array(children) => forall|i: int|
            0 <= i < children.len() ==> free_of_line_feeds(#[trigger] children[i], buf),
        _ => true,
    }
}

/// The parser lets no line feed into a simple string.
pub proof fn lemma_parse_expression_free_of_line_feeds(buf: Seq<u8>, start: int)
    ensures
        parse_expression_spec(buf, start) matches Parsed::Complete(tree, _) ==> free_of_line_feeds(
            tree,
            buf,
        ),
    decreases buf.len() - start, 2int, 0nat,
{
    if 0 <= start < buf.len() && buf[start] == ARRAY_PREFIX {
        match first_break(buf, start + 1) {
            Some(end) => {
                assert(is_first_at(buf, BREAK_FIRST_CHAR, start + 1, end));
                match parse_integer_spec(buf.subrange(start + 1, end)) {
                    Ok(count) => {
                        if count >= 0 && buf.len() >= end + WORD_BREAK_LEN {
                            lemma_parse_elements_free_of_line_feeds(
                                buf,
                                end + WORD_BREAK_LEN,
                                count as nat,
                            );
                        }
                    },
                    Err(_) => {},
                }
            },
            None => {},
        }
    }
}

/// The same of a run of elements.
pub proof fn lemma_parse_elements_free_of_line_feeds(buf: Seq<u8>, pos: int, count: nat)
    requires
        0 <= pos <= buf.len(),
    ensures
        parse_elements_spec(buf, pos, count) matches Parsed::Complete(tree, _)
            ==> free_of_line_feeds(tree, buf),
    decreases buf.len() - pos, 3int, count,
{
    if count > 0 {
        lemma_parse_expression_free_of_line_feeds(buf, pos);
        lemma_parse_expression_bounds(buf, pos);
        match parse_expression_spec(buf, pos) {
            Parsed::Complete(tree, next) => {
                lemma_parse_elements_free_of_line_feeds(buf, next, (count - 1) as nat);
                lemma_parse_elements_bounds(buf, next, (count - 1) as nat);
                match parse_elements_spec(buf, next, (count - 1) as nat) {
                    Parsed::Complete(rest, _) => {
                        let others = rest->Array_0;
                        let all = seq![tree] + others;
                        assert forall|i: int| 0 <= i < all.len() implies free_of_line_feeds(
                            #[trigger] all[i],
                            buf,
                        ) by {
                            if i > 0 {
                                assert(all[i] == others[i - 1]);
                            }
                        }
                    },
                    _ => {},
                }
            },
            _ => {},
        }
    }
}

/// A tree without line feeds in its simple strings denotes a well-formed
/// value.
pub proof fn lemma_materialize_well_formed(tree: IndexTree, buf: Seq<u8>)
    requires
        free_of_line_feeds(tree, buf),
        materialize(tree, buf) is Ok,
    ensures
        materialize(tree, buf)->Ok_0.well_formed(),
    decreases tree,
{
    match tree {
        IndexTree::SimpleString(start, end) => {
            decode_utf8_encode_utf8(buf.subrange(start, end));
        },
        IndexTree::Array(children) => {
            let items = materialize(tree, buf)->Ok_0->Array_0;
            assert forall|i: int| 0 <= i < items.len() implies (
            #[trigger] items[i]).well_formed() by {
                assert(free_of_line_feeds(children[i], buf));
                lemma_materialize_well_formed(children[i], buf);
            }
        },
        _ => {},
    }
}

/// Every value that the decoder yields meets the invariants of the data
/// model; in particular no simple string that it yields holds a line feed.
pub proof fn lemma_decoded_well_formed(buf: Seq<u8>)
    ensures
        decode_spec(buf).0 matches Decoded::Value(value) ==> value.well_formed(),
{
    lemma_parse_expression_free_of_line_feeds(buf, 0);
    match parse_expression_spec(buf, 0) {
        Parsed::Complete(tree, _) => {
            if materialize(tree, buf) is Ok {
                lemma_materialize_well_formed(tree, buf);
            }
        },
        _ => {},
    }
}

} // verus!
