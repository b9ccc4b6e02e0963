//! Index trees: the shape of a parsed value as byte ranges into the buffer it
//! was parsed from, and their conversion into owned values.

use vstd::prelude::*;
use vstd::utf8::*;
use crate::error::RESPError;
use crate::text::text_of;
use crate::value::{RESPValue, ValueView};

verus! {

/// The mathematical content of an index tree.  A string is the half-open
/// range `[start, end)` of its payload.
pub enum IndexTree {
    BlobString(int, int),
    SimpleString(int, int),
    Array(Seq<IndexTree>),
    Null,
}

impl IndexTree {
    /// Every range of the tree is well ordered and lies inside `[low, high]`.
    pub open spec fn within(self, low: int, high: int) -> bool
        decreases self,
    {
        match self {
            IndexTree::BlobString(start, end) => low <= start <= end <= high,
            IndexTree::SimpleString(start, end) => low <= start <= end <= high,
            IndexTree::Array(children) => forall|i: int|
                0 <= i < children.len() ==> (#[trigger] children[i]).within(low, high),
            IndexTree::Null => true,
        }
    }
}

/// The positions of a parsed value in the buffer it was parsed from.  It owns
/// no bytes; strings are materialised only by [`RESPValueIndices::to_value`].
#[derive(Debug)]
pub enum RESPValueIndices {
    /// The payload range of a blob string.
    BlobString(usize, usize),
    /// The payload range of a simple string.
    SimpleString(usize, usize),
    /// The elements of an array, in order.
    Array(Vec<RESPValueIndices>),
    /// The absent value.
    Null,
}

impl View for RESPValueIndices {
    type V = IndexTree;

    open spec fn view(&self) -> IndexTree
        decreases self,
    {
        match self {
            RESPValueIndices::BlobString(start, end) => IndexTree::BlobString(
                *start as int,
                *end as int,
            ),
            RESPValueIndices::SimpleString(start, end) => IndexTree::SimpleString(
                *start as int,
                *end as int,
            ),
            RESPValueIndices::Array(children) => IndexTree::Array(
                Seq::new(
                    children@.len(),
                    |i: int|
                        if 0 <= i < children@.len() {
                            children@[i]@
                        } else {
                            IndexTree::Null
                        },
                ),
            ),
            RESPValueIndices::Null => IndexTree::Null,
        }
    }
}

/// The text in `buf[start..end)`, or the string encoding error.
pub open spec fn text_at(buf: Seq<u8>, start: int, end: int) -> Result<Seq<char>, RESPError> {
    if valid_utf8(buf.subrange(start, end)) {
        Ok(decode_utf8(buf.subrange(start, end)))
    } else {
        Err(RESPError::StringParseEncodingError)
    }
}

/// The value that an index tree denotes over the bytes `buf`: each string is
/// the text in its range, an array is its elements in order, and one range
/// that is not text spoils the whole.
pub open spec fn materialize(tree: IndexTree, buf: Seq<u8>) -> Result<ValueView, RESPError>
    decreases tree,
{
    match tree {
        IndexTree::BlobString(start, end) => match text_at(buf, start, end) {
            Ok(text) => Ok(ValueView::BlobString(text)),
            Err(e) => Err(e),
        },
        IndexTree::SimpleString(start, end) => match text_at(buf, start, end) {
            Ok(text) => Ok(ValueView::SimpleString(text)),
            Err(e) => Err(e),
        },
        IndexTree::Array(children) => if forall|i: int|
            0 <= i < children.len() ==> materialize(#[trigger] children[i], buf) is Ok {
            Ok(
                ValueView::Array(
                    Seq::new(
                        children.len(),
                        |i: int|
                            if 0 <= i < children.len() {
                                materialize(children[i], buf)->Ok_0
                            } else {
                                ValueView::Null
                            },
                    ),
                ),
            )
        } else {
            Err(RESPError::StringParseEncodingError)
        },
        IndexTree::Null => Ok(ValueView::Null),
    }
}

/// An array whose elements all denote values denotes the array of them.
pub proof fn lemma_materialize_array(children: Seq<IndexTree>, buf: Seq<u8>, values: Seq<ValueView>)
    requires
        values.len() == children.len(),
        forall|i: int|
            0 <= i < children.len() ==> materialize(#[trigger] children[i], buf) == Ok::<
                ValueView,
                RESPError,
            >(values[i]),
    ensures
        materialize(IndexTree::Array(children), buf) == Ok::<ValueView, RESPError>(
            ValueView::Array(values),
        ),
{
    assert(materialize(IndexTree::Array(children), buf) is Ok);
    assert(materialize(IndexTree::Array(children), buf)->Ok_0->Array_0 =~= values);
}

/// An array with an element that denotes no value denotes none either.
pub proof fn lemma_materialize_array_fails(children: Seq<IndexTree>, buf: Seq<u8>, at: int)
    requires
        0 <= at < children.len(),
        materialize(children[at], buf) is Err,
    ensures
        materialize(IndexTree::Array(children), buf) == Err::<ValueView, RESPError>(
            RESPError::StringParseEncodingError,
        ),
{
    assert(!(materialize(children[at], buf) is Ok));
}

/// Materialising fails in one way only.
pub proof fn lemma_materialize_error(tree: IndexTree, buf: Seq<u8>)
    ensures
        materialize(tree, buf) is Err ==> materialize(tree, buf) == Err::<ValueView, RESPError>(
            RESPError::StringParseEncodingError,
        ),
{
}

/// The model of what materialising returns.
pub open spec fn value_result_view(r: Result<RESPValue, RESPError>) -> Result<
    ValueView,
    RESPError,
> {
    match r {
        Ok(value) => Ok(value@),
        Err(e) => Err(e),
    }
}

impl RESPValueIndices {
    /// Converts the tree into the value it denotes over `buf`, allocating one
    /// string per leaf and one vector per array.
    pub fn to_value(self, buf: &[u8]) -> (r: Result<RESPValue, RESPError>)
        requires
            self@.within(0, buf@.len() as int),
        ensures
            value_result_view(r) == materialize(self@, buf@),
        decreases self,
    {
        match self {
            RESPValueIndices::SimpleString(start, end) => {
                match text_of(&buf[start..end]) {
                    Some(s) => Ok(RESPValue::SimpleString(s)),
                    None => Err(RESPError::StringParseEncodingError),
                }
            },
            RESPValueIndices::BlobString(start, end) => {
                match text_of(&buf[start..end]) {
                    Some(s) => Ok(RESPValue::BlobString(s)),
                    None => Err(RESPError::StringParseEncodingError),
                }
            },
            RESPValueIndices::Array(children) => {
                let ghost trees = self@->Array_0;
                let mut values: Vec<RESPValue> = Vec::with_capacity(children.len());
                for child in it: children
                    invariant
                        trees.len() == it.seq().len(),
                        forall|i: int|
                            0 <= i < trees.len() ==> (#[trigger] it.seq()[i])@ == trees[i],
                        forall|i: int|
                            0 <= i < trees.len() ==> decreases_to!(self => #[trigger] it.seq()[i]),
                        self@.within(0, buf@.len() as int),
                        self@ == IndexTree::Array(trees),
                        values@.len() == it.index(),
                        forall|i: int|
                            0 <= i < values@.len() ==> materialize(trees[i], buf@) == Ok::<
                                ValueView,
                                RESPError,
                            >((#[trigger] values@[i])@),
                {
                    let ghost at = values@.len() as int;
                    assert(child@ == trees[at]);
                    match child.to_value(buf) {
                        Ok(value) => values.push(value),
                        Err(e) => {
                            proof {
                                lemma_materialize_error(trees[at], buf@);
                                lemma_materialize_array_fails(trees, buf@, at);
                            }
                            return Err(e);
                        },
                    }
                }
                let value = RESPValue::Array(values);
                proof {
                    let views = value@->Array_0;
                    assert(views.len() == trees.len());
                    assert forall|i: int| 0 <= i < trees.len() implies materialize(
                        #[trigger] trees[i],
                        buf@,
                    ) == Ok::<ValueView, RESPError>(views[i]) by {
                        assert(views[i] == values@[i]@);
                    }
                    lemma_materialize_array(trees, buf@, views);
                }
                Ok(value)
            },
            RESPValueIndices::Null => Ok(RESPValue::Null),
        }
    }
}

} // verus!
