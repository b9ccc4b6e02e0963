//! The codec: values out of an accumulation buffer, and values onto an
//! output buffer.

use bytes::{Bytes, BytesMut};
use vstd::prelude::*;
use vstd::string::StringSliceAdditionalSpecFns;
use vstd::utf8::*;
use crate::error::RESPError;
use crate::index::{materialize, IndexTree};
use crate::integer::{decimal_digits, push_decimal, MINUS};
use crate::parser::{
    parse_expression,
    parse_expression_spec,
    Parsed,
    BLOB_STRING_PREFIX,
    SIMPLE_STRING_PREFIX,
};
use crate::scan::{BREAK_FIRST_CHAR, NEW_LINE};
use crate::value::{RESPValue, ValueView};

verus! {

/// A growable byte buffer of the `bytes` crate.
#[verifier::external_type_specification]
#[verifier::external_body]
pub struct ExBytesMut(BytesMut);

/// An immutable byte buffer of the `bytes` crate.
#[verifier::external_type_specification]
#[verifier::external_body]
pub struct ExBytes(Bytes);

/// The bytes that a growable buffer holds, first to last.
pub uninterp spec fn buffered(buf: BytesMut) -> Seq<u8>;

/// The bytes that an immutable buffer holds, first to last.
pub uninterp spec fn frozen(bytes: Bytes) -> Seq<u8>;

/// `BytesMut::split_to` leaves the bytes from `at` on in the buffer and
/// returns the bytes before `at`.  It panics when `at` is past the end.
pub assume_specification[ BytesMut::split_to ](buf: &mut BytesMut, at: usize) -> (head: BytesMut)
    requires
        at <= buffered(*old(buf)).len(),
    ensures
        buffered(head) == buffered(*old(buf)).subrange(0, at as int),
        buffered(*final(buf)) == buffered(*old(buf)).subrange(
            at as int,
            buffered(*old(buf)).len() as int,
        ),
;

/// `BytesMut::freeze` turns the buffer into an immutable one that holds the
/// same bytes.
pub assume_specification[ BytesMut::freeze ](buf: BytesMut) -> (bytes: Bytes)
    ensures
        frozen(bytes) == buffered(buf),
;

/// `BytesMut::extend_from_slice` appends the given bytes, growing the buffer
/// as needed.  It panics when the new length cannot be allocated.
pub assume_specification[ BytesMut::extend_from_slice ](buf: &mut BytesMut, extend: &[u8])
    requires
        buffered(*old(buf)).len() + extend@.len() <= isize::MAX,
    ensures
        buffered(*final(buf)) == buffered(*old(buf)) + extend@,
;

/// The bytes of a growable buffer as a slice, through its `AsRef<[u8]>`.
#[verifier::external_body]
fn buffered_slice(buf: &BytesMut) -> (slice: &[u8])
    ensures
        slice@ == buffered(*buf),
{
    buf.as_ref()
}

/// The bytes of an immutable buffer as a slice, through its `AsRef<[u8]>`.
#[verifier::external_body]
fn frozen_slice(bytes: &Bytes) -> (slice: &[u8])
    ensures
        slice@ == frozen(*bytes),
{
    bytes.as_ref()
}

/// The line terminator.
pub open spec fn word_break() -> Seq<u8> {
    seq![BREAK_FIRST_CHAR, NEW_LINE]
}

/// The wire form of the null value, `$-1` and a terminator.
pub open spec fn null_encoding() -> Seq<u8> {
    seq![BLOB_STRING_PREFIX, MINUS, 49u8] + word_break()
}

/// The wire form of a blob string with the payload `payload`: the prefix, the
/// payload's length in decimal, a terminator, the payload, a terminator.
pub open spec fn blob_string_encoding(payload: Seq<u8>) -> Seq<u8> {
    seq![BLOB_STRING_PREFIX] + decimal_digits(payload.len()) + word_break() + payload
        + word_break()
}

/// The wire form of a simple string with the payload `payload`.
pub open spec fn simple_string_encoding(payload: Seq<u8>) -> Seq<u8> {
    seq![SIMPLE_STRING_PREFIX] + payload + word_break()
}

/// The wire form of a value, for the values that have one.
pub open spec fn encoding(value: ValueView) -> Option<Seq<u8>> {
    match value {
        ValueView::BlobString(text) => Some(blob_string_encoding(encode_utf8(text))),
        ValueView::SimpleString(text) => Some(simple_string_encoding(encode_utf8(text))),
        ValueView::Null => Some(null_encoding()),
        _ => None,
    }
}

/// The wire form of `value`, or `UnsupportedValue` for a value that has none.
pub fn wire_form(value: &RESPValue) -> (r: Result<Vec<u8>, RESPError>)
    ensures
        match encoding(value@) {
            Some(wire) => r matches Ok(out) && out@ == wire,
            None => r matches Err(RESPError::UnsupportedValue),
        },
{
    let mut out: Vec<u8> = Vec::new();
    match value {
        RESPValue::BlobString(s) => {
            let payload = s.as_str().as_bytes();
            out.push(BLOB_STRING_PREFIX);
            push_decimal(&mut out, payload.len());
            out.push(BREAK_FIRST_CHAR);
            out.push(NEW_LINE);
            out.extend_from_slice(payload);
            out.push(BREAK_FIRST_CHAR);
            out.push(NEW_LINE);
            assert(out@ =~= blob_string_encoding(payload@));
            Ok(out)
        },
        RESPValue::SimpleString(s) => {
            let payload = s.as_str().as_bytes();
            out.push(SIMPLE_STRING_PREFIX);
            out.extend_from_slice(payload);
            out.push(BREAK_FIRST_CHAR);
            out.push(NEW_LINE);
            assert(out@ =~= simple_string_encoding(payload@));
            Ok(out)
        },
        RESPValue::Null => {
            out.push(BLOB_STRING_PREFIX);
            out.push(MINUS);
            out.push(49);
            out.push(BREAK_FIRST_CHAR);
            out.push(NEW_LINE);
            assert(out@ =~= null_encoding());
            Ok(out)
        },
        _ => Err(RESPError::UnsupportedValue),
    }
}

/// Appends the wire form of `value` to `buf`.  A value that has no wire form
/// is refused and `buf` is left as it was.
pub fn write_resp_value(value: RESPValue, buf: &mut BytesMut) -> (r: Result<(), RESPError>)
    requires
        encoding(value@) matches Some(wire) ==> buffered(*old(buf)).len() + wire.len()
            <= isize::MAX,
    ensures
        match encoding(value@) {
            Some(wire) => r is Ok && buffered(*final(buf)) == buffered(*old(buf)) + wire,
            None => r matches Err(RESPError::UnsupportedValue) && buffered(*final(buf))
                == buffered(*old(buf)),
        },
{
    let wire = wire_form(&value)?;
    buf.extend_from_slice(wire.as_slice());
    Ok(())
}

/// The three outcomes of a decode attempt.
pub enum Decoded {
    /// No whole value is there yet.
    NeedMore,
    /// A value.
    Value(ValueView),
    /// The input is malformed, or a string in it is not text.
    Failed(RESPError),
}

/// What a decode attempt on the accumulated bytes `buf` yields, and how many
/// bytes it takes from the front of the buffer.
///
/// Bytes are taken only when a whole value has been parsed, and then exactly
/// the bytes of that value, also when one of its strings turns out not to be
/// text.
pub open spec fn decode_spec(buf: Seq<u8>) -> (Decoded, int) {
    match parse_expression_spec(buf, 0) {
        Parsed::Incomplete => (Decoded::NeedMore, 0),
        Parsed::Malformed(e) => (Decoded::Failed(e), 0),
        Parsed::Complete(tree, next) => (
            match materialize(tree, buf) {
                Ok(value) => Decoded::Value(value),
                Err(e) => Decoded::Failed(e),
            },
            next,
        ),
    }
}

/// The outcome that a decode result stands for.
pub open spec fn decoded_view(r: Result<Option<RESPValue>, RESPError>) -> Decoded {
    match r {
        Ok(None) => Decoded::NeedMore,
        Ok(Some(value)) => Decoded::Value(value@),
        Err(e) => Decoded::Failed(e),
    }
}

/// What an index tree denotes depends only on the bytes that it points into.
pub proof fn lemma_materialize_prefix(tree: IndexTree, buf: Seq<u8>, len: int)
    requires
        0 <= len <= buf.len(),
        tree.within(0, len),
    ensures
        materialize(tree, buf.subrange(0, len)) == materialize(tree, buf),
    decreases tree,
{
    match tree {
        IndexTree::BlobString(start, end) => {
            assert(buf.subrange(0, len).subrange(start, end) =~= buf.subrange(start, end));
        },
        IndexTree::SimpleString(start, end) => {
            assert(buf.subrange(0, len).subrange(start, end) =~= buf.subrange(start, end));
        },
        IndexTree::Array(children) => {
            assert forall|i: int| 0 <= i < children.len() implies materialize(
                #[trigger] children[i],
                buf.subrange(0, len),
            ) == materialize(children[i], buf) by {
                lemma_materialize_prefix(children[i], buf, len);
            }
            if materialize(tree, buf) is Ok {
                assert(materialize(tree, buf.subrange(0, len))->Ok_0->Array_0 =~= materialize(
                    tree,
                    buf,
                )->Ok_0->Array_0);
            }
        },
        IndexTree::Null => {},
    }
}

/// The codec of one connection.  It holds no state of its own: the
/// accumulation buffer is handed to each call.
#[derive(Default)]
pub struct RESPCodec;

impl RESPCodec {
    /// Attempts to take one value from the front of `buf`.
    ///
    /// When no whole value is there, or the input is malformed, `buf` is left
    /// as it was.  When a whole value is there, its bytes are removed from the
    /// front of `buf` and the value is materialised from them.
    pub fn decode(&mut self, buf: &mut BytesMut) -> (r: Result<Option<RESPValue>, RESPError>)
        ensures
            decoded_view(r) == decode_spec(buffered(*old(buf))).0,
            buffered(*final(buf)) == buffered(*old(buf)).subrange(
                decode_spec(buffered(*old(buf))).1,
                buffered(*old(buf)).len() as int,
            ),
    {
        let ghost bytes = buffered(*buf);
        assert(bytes.subrange(0, bytes.len() as int) =~= bytes);
        match parse_expression(buffered_slice(buf), 0)? {
            Some((value_indices, split_index)) => {
                proof {
                    lemma_materialize_prefix(value_indices@, bytes, split_index as int);
                }
                let raw_expression = buf.split_to(split_index).freeze();
                Ok(Some(value_indices.to_value(frozen_slice(&raw_expression))?))
            },
            None => Ok(None),
        }
    }

    /// Appends the wire form of `item` to `dst` if the buffer can take it,
    /// and says whether it did.  A buffer that cannot grow by the wire form,
    /// like a value without one, leaves `dst` as it was.
    pub fn try_encode(&mut self, item: RESPValue, dst: &mut BytesMut) -> (r: Result<
        bool,
        RESPError,
    >)
        ensures
            match encoding(item@) {
                Some(wire) => if buffered(*old(dst)).len() + wire.len() <= isize::MAX {
                    r == Ok::<bool, RESPError>(true) && buffered(*final(dst)) == buffered(
                        *old(dst),
                    ) + wire
                } else {
                    r == Ok::<bool, RESPError>(false) && buffered(*final(dst)) == buffered(
                        *old(dst),
                    )
                },
                None => r matches Err(RESPError::UnsupportedValue) && buffered(*final(dst))
                    == buffered(*old(dst)),
            },
    {
        let wire = wire_form(&item)?;
        let held: usize = buffered_slice(dst).len();
        let limit: usize = isize::MAX as usize;
        if held > limit || wire.len() > limit - held {
            return Ok(false);
        }
        dst.extend_from_slice(wire.as_slice());
        Ok(true)
    }

    /// Appends the wire form of `item` to `dst`.
    pub fn encode(&mut self, item: RESPValue, dst: &mut BytesMut) -> (r: Result<(), RESPError>)
        requires
            encoding(item@) matches Some(wire) ==> buffered(*old(dst)).len() + wire.len()
                <= isize::MAX,
        ensures
            match encoding(item@) {
                Some(wire) => r is Ok && buffered(*final(dst)) == buffered(*old(dst)) + wire,
                None => r matches Err(RESPError::UnsupportedValue) && buffered(*final(dst))
                    == buffered(*old(dst)),
            },
    {
        write_resp_value(item, dst)
    }
}

} // verus!
