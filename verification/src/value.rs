//! Protocol values and their mathematical model.

use vstd::prelude::*;
use vstd::utf8::encode_utf8;
use crate::scan::NEW_LINE;

verus! {

/// The mathematical content of a protocol value: text as characters, raw
/// payloads as bytes, composites as sequences in wire order.
pub enum ValueView {
    BlobString(Seq<char>),
    SimpleString(Seq<char>),
    BlobError(Seq<u8>),
    SimpleError(Seq<u8>),
    Number(u64),
    Double(u64),
    Boolean(bool),
    Null,
    Array(Seq<ValueView>),
    Mapping(Seq<(Seq<u8>, ValueView)>),
    Members(Seq<ValueView>),
}

impl ValueView {
    /// The invariants of the data model: a simple string holds no line feed
    /// byte, the keys of a map are distinct, and so are the members of a set,
    /// at every depth.
    pub open spec fn well_formed(self) -> bool
        decreases self,
    {
        match self {
            ValueView::SimpleString(text) => !encode_utf8(text).contains(NEW_LINE),
            ValueView::Array(items) => forall|i: int|
                0 <= i < items.len() ==> (#[trigger] items[i]).well_formed(),
            ValueView::Mapping(entries) => {
                &&& forall|i: int|
                    0 <= i < entries.len() ==> (#[trigger] entries[i]).1.well_formed()
                &&& forall|i: int, j: int|
                    0 <= i < j < entries.len() ==> (#[trigger] entries[i]).0 != (
                    #[trigger] entries[j]).0
            },
            ValueView::Members(items) => {
                &&& forall|i: int| 0 <= i < items.len() ==> (#[trigger] items[i]).well_formed()
                &&& forall|i: int, j: int|
                    0 <= i < j < items.len() ==> #[trigger] items[i] != #[trigger] items[j]
            },
            _ => true,
        }
    }
}

/// A value of the protocol.
///
/// Only blob strings, simple strings, arrays and null travel over the wire
/// paths of this library; the other variants are part of the data model and
/// are turned away where they would have to be written.
#[derive(Debug)]
pub enum RESPValue {
    /// Length-prefixed text.
    BlobString(String),
    /// Terminator-delimited text; holds no line feed when well formed.
    SimpleString(String),
    /// A length-prefixed error payload.
    BlobError(Vec<u8>),
    /// A terminator-delimited error payload.
    SimpleError(Vec<u8>),
    /// An unsigned integer.
    Number(u64),
    /// A double-precision number, held as its IEEE 754 bit pattern.
    Double(u64),
    /// A truth value.
    Boolean(bool),
    /// The absent value.
    Null,
    /// Values in order.
    Array(Vec<RESPValue>),
    /// Keyed values, in insertion order; keys are unique when well formed.
    Mapping(Vec<(Vec<u8>, RESPValue)>),
    /// Distinct values, in insertion order.
    Members(Vec<RESPValue>),
}

/// The mathematical content of `value`.
pub open spec fn value_view(value: RESPValue) -> ValueView
    decreases value,
{
    match value {
        RESPValue::BlobString(s) => ValueView::BlobString(s@),
        RESPValue::SimpleString(s) => ValueView::SimpleString(s@),
        RESPValue::BlobError(b) => ValueView::BlobError(b@),
        RESPValue::SimpleError(b) => ValueView::SimpleError(b@),
        RESPValue::Number(n) => ValueView::Number(n),
        RESPValue::Double(bits) => ValueView::Double(bits),
        RESPValue::Boolean(b) => ValueView::Boolean(b),
        RESPValue::Null => ValueView::Null,
        RESPValue::Array(items) => ValueView::Array(
            Seq::new(
                items@.len(),
                |i: int|
                    if 0 <= i < items@.len() {
                        value_view(items@[i])
                    } else {
                        ValueView::Null
                    },
            ),
        ),
        RESPValue::Mapping(entries) => ValueView::Mapping(
            Seq::new(
                entries@.len(),
                |i: int|
                    if 0 <= i < entries@.len() {
                        (entries@[i].0@, value_view(entries@[i].1))
                    } else {
                        (Seq::empty(), ValueView::Null)
                    },
            ),
        ),
        RESPValue::Members(items) => ValueView::Members(
            Seq::new(
                items@.len(),
                |i: int|
                    if 0 <= i < items@.len() {
                        value_view(items@[i])
                    } else {
                        ValueView::Null
                    },
            ),
        ),
    }
}

impl View for RESPValue {
    type V = ValueView;

    open spec fn view(&self) -> ValueView {
        value_view(*self)
    }
}

/// Copies of `items`, element by element.
fn clone_items(items: &Vec<RESPValue>) -> (copies: Vec<RESPValue>)
    ensures
        copies@.len() == items@.len(),
        forall|i: int| 0 <= i < items@.len() ==> (#[trigger] copies@[i])@ == items@[i]@,
    decreases items,
{
    let mut copies: Vec<RESPValue> = Vec::with_capacity(items.len());
    let mut i: usize = 0;
    while i < items.len()
        invariant
            i <= items@.len(),
            copies@.len() == i,
            forall|k: int| 0 <= k < i ==> (#[trigger] copies@[k])@ == items@[k]@,
        decreases items@.len() - i,
    {
        copies.push(items[i].clone());
        i = i + 1;
    }
    copies
}

/// Copies of `entries`, entry by entry.
fn clone_entries(entries: &Vec<(Vec<u8>, RESPValue)>) -> (copies: Vec<(Vec<u8>, RESPValue)>)
    ensures
        copies@.len() == entries@.len(),
        forall|i: int|
            0 <= i < entries@.len() ==> (#[trigger] copies@[i]).0@ == entries@[i].0@
                && copies@[i].1@ == entries@[i].1@,
    decreases entries,
{
    let mut copies: Vec<(Vec<u8>, RESPValue)> = Vec::with_capacity(entries.len());
    let mut i: usize = 0;
    while i < entries.len()
        invariant
            i <= entries@.len(),
            copies@.len() == i,
            forall|k: int|
                0 <= k < i ==> (#[trigger] copies@[k]).0@ == entries@[k].0@ && copies@[k].1@
                    == entries@[k].1@,
        decreases entries@.len() - i,
    {
        let key = entries[i].0.clone();
        let value = entries[i].1.clone();
        copies.push((key, value));
        i = i + 1;
    }
    copies
}

impl Clone for RESPValue {
    /// A copy that denotes the same value.
    fn clone(&self) -> (copy: RESPValue)
        ensures
            copy@ == self@,
        decreases self,
    {
        match self {
            RESPValue::BlobString(s) => RESPValue::BlobString(s.clone()),
            RESPValue::SimpleString(s) => RESPValue::SimpleString(s.clone()),
            RESPValue::BlobError(b) => RESPValue::BlobError(b.clone()),
            RESPValue::SimpleError(b) => RESPValue::SimpleError(b.clone()),
            RESPValue::Number(n) => RESPValue::Number(*n),
            RESPValue::Double(bits) => RESPValue::Double(*bits),
            RESPValue::Boolean(b) => RESPValue::Boolean(*b),
            RESPValue::Null => RESPValue::Null,
            RESPValue::Array(items) => {
                let copy = RESPValue::Array(clone_items(items));
                assert(copy@->Array_0 =~= self@->Array_0);
                copy
            },
            RESPValue::Mapping(entries) => {
                let copy = RESPValue::Mapping(clone_entries(entries));
                assert(copy@->Mapping_0 =~= self@->Mapping_0);
                copy
            },
            RESPValue::Members(items) => {
                let copy = RESPValue::Members(clone_items(items));
                assert(copy@->Members_0 =~= self@->Members_0);
                copy
            },
        }
    }
}

impl RESPValue {
    /// The text of a blob string; any other value is handed back.
    pub fn into_blob_string(self) -> (r: Result<String, RESPValue>)
        ensures
            match self {
                RESPValue::BlobString(text) => r == Ok::<String, RESPValue>(text),
                _ => r == Err::<String, RESPValue>(self),
            },
    {
        match self {
            RESPValue::BlobString(text) => Ok(text),
            other => Err(other),
        }
    }
}

} // verus!
