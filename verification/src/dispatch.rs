//! The command dispatcher: what a decoded value asks for, and what the store
//! answers.

use vstd::prelude::*;
use crate::error::RESPError;
use crate::store::Store;
use crate::text::same_text;
use crate::value::{RESPValue, ValueView};

verus! {

/// Why a decoded value is not a request.
#[derive(Debug, Clone, Copy, PartialEq, Eq)]
pub enum InvalidRequest {
    /// The value is not an array.
    NotAnArray,
    /// The array has no elements.
    EmptyArray,
    /// An element of the array is not a blob string.
    NotOnlyBlobStrings,
}

/// The words of a request: the texts of a non-empty array of blob strings.
pub open spec fn request_words_spec(value: ValueView) -> Result<Seq<Seq<char>>, InvalidRequest> {
    match value {
        ValueView::Array(items) => if items.len() == 0 {
            Err(InvalidRequest::EmptyArray)
        } else if forall|i: int| 0 <= i < items.len() ==> (#[trigger] items[i]) is BlobString {
            Ok(Seq::new(items.len(), |i: int| items[i]->BlobString_0))
        } else {
            Err(InvalidRequest::NotOnlyBlobStrings)
        },
        _ => Err(InvalidRequest::NotAnArray),
    }
}

/// The characters of each word.
pub open spec fn words_view(words: Seq<String>) -> Seq<Seq<char>> {
    Seq::new(words.len(), |i: int| words[i]@)
}

/// Takes the words out of a decoded value, or says why it is no request.
pub fn request_words(value: RESPValue) -> (r: Result<Vec<String>, InvalidRequest>)
    ensures
        match request_words_spec(value@) {
            Ok(words) => r matches Ok(found) && words_view(found@) == words,
            Err(why) => r == Err::<Vec<String>, InvalidRequest>(why),
        },
{
    match value {
        RESPValue::Array(values) => {
            if values.len() == 0 {
                return Err(InvalidRequest::EmptyArray);
            }
            let ghost items = value@->Array_0;
            let mut words: Vec<String> = Vec::with_capacity(values.len());
            for v in it: values
                invariant
                    value@ == ValueView::Array(items),
                    items.len() == it.seq().len(),
                    items.len() > 0,
                    forall|i: int| 0 <= i < items.len() ==> (#[trigger] it.seq()[i])@ == items[i],
                    words@.len() == it.index(),
                    forall|i: int|
                        0 <= i < words@.len() ==> (#[trigger] items[i]) is BlobString && words@[i]@
                            == items[i]->BlobString_0,
            {
                let ghost at = words@.len() as int;
                assert(v@ == items[at]);
                match v.into_blob_string() {
                    Ok(word) => words.push(word),
                    Err(_) => {
                        assert(!(items[at] is BlobString));
                        return Err(InvalidRequest::NotOnlyBlobStrings);
                    },
                }
            }
            assert(words_view(words@) =~= request_words_spec(value@)->Ok_0);
            Ok(words)
        },
        _ => Err(InvalidRequest::NotAnArray),
    }
}

/// What a request comes to.
pub enum Handled {
    /// The reply to send.
    Reply(ValueView),
    /// A known command with the wrong number of words; carries its name.
    WrongNumberOfArguments(Seq<char>),
    /// An unknown command.
    UnsupportedCommand,
}

/// What the store holds under `key`, or `absent` when it holds nothing.
pub open spec fn stored_or(
    store: Map<Seq<char>, ValueView>,
    key: Seq<char>,
    absent: ValueView,
) -> ValueView {
    if store.contains_key(key) {
        store[key]
    } else {
        absent
    }
}

/// The outcome of a request and the store after it.
///
/// `GET key` replies with the value under `key`, or null.  `SET key value`
/// stores `value` as a blob string under `key` and replies with the value
/// that was there before, or the simple string `OK`.  Command names are
/// matched exactly.
pub open spec fn handle_request_spec(words: Seq<Seq<char>>, store: Map<Seq<char>, ValueView>) -> (
    Handled,
    Map<Seq<char>, ValueView>,
)
    recommends
        words.len() > 0,
{
    if words[0] == "GET"@ {
        if words.len() != 2 {
            (Handled::WrongNumberOfArguments(words[0]), store)
        } else {
            (Handled::Reply(stored_or(store, words[1], ValueView::Null)), store)
        }
    } else if words[0] == "SET"@ {
        if words.len() != 3 {
            (Handled::WrongNumberOfArguments(words[0]), store)
        } else {
            (
                Handled::Reply(stored_or(store, words[1], ValueView::SimpleString("OK"@))),
                store.insert(words[1], ValueView::BlobString(words[2])),
            )
        }
    } else {
        (Handled::UnsupportedCommand, store)
    }
}

/// `r` is the executable form of the outcome `handled`.
pub open spec fn is_handled(r: Result<RESPValue, RESPError>, handled: Handled) -> bool {
    match handled {
        Handled::Reply(reply) => r matches Ok(value) && value@ == reply,
        Handled::WrongNumberOfArguments(name) => r matches Err(
            RESPError::WrongNumberOfArguments(n),
        ) && n@ == name,
        Handled::UnsupportedCommand => r matches Err(RESPError::UnsupportedCommand),
    }
}

/// Executes a request, given as its words, against `store`.
pub fn handle_request(command: Vec<String>, store: &mut Store) -> (r: Result<RESPValue, RESPError>)
    requires
        command@.len() > 0,
        old(store).well_formed(),
    ensures
        final(store).well_formed(),
        final(store)@ == handle_request_spec(words_view(command@), old(store)@).1,
        is_handled(r, handle_request_spec(words_view(command@), old(store)@).0),
{
    let command_type = command[0].as_str();
    if same_text(command_type, "GET") {
        if command.len() != 2 {
            return Err(RESPError::WrongNumberOfArguments(command[0].clone()));
        }
        let value = match store.get(command[1].as_str()) {
            Some(v) => v.clone(),
            None => RESPValue::Null,
        };
        Ok(value)
    } else if same_text(command_type, "SET") {
        if command.len() != 3 {
            return Err(RESPError::WrongNumberOfArguments(command[0].clone()));
        }
        let key = command[1].clone();
        let old_value = store.set(key, RESPValue::BlobString(command[2].clone()));
        match old_value {
            Some(v) => Ok(v),
            None => Ok(RESPValue::SimpleString("OK".to_owned())),
        }
    } else {
        Err(RESPError::UnsupportedCommand)
    }
}

/// What to do about a decoded value.
#[derive(Debug)]
pub enum Reaction {
    /// Send this reply.
    Reply(RESPValue),
    /// The value is no request; nothing is sent.
    Rejected(InvalidRequest),
    /// The request failed; nothing is sent.
    Failed(RESPError),
}

/// Decides what a connection does about a decoded value: a value that is no
/// request is rejected and the store left alone; a request is executed, and
/// its reply or its failure handed back.
pub fn react(value: RESPValue, store: &mut Store) -> (reaction: Reaction)
    requires
        old(store).well_formed(),
    ensures
        final(store).well_formed(),
        match request_words_spec(value@) {
            Err(why) => reaction == Reaction::Rejected(why) && final(store)@ == old(store)@,
            Ok(words) => {
                &&& final(store)@ == handle_request_spec(words, old(store)@).1
                &&& match reaction {
                    Reaction::Reply(reply) => is_handled(
                        Ok(reply),
                        handle_request_spec(words, old(store)@).0,
                    ),
                    Reaction::Failed(e) => is_handled(
                        Err(e),
                        handle_request_spec(words, old(store)@).0,
                    ),
                    Reaction::Rejected(_) => false,
                }
            },
        },
{
    match request_words(value) {
        Err(why) => Reaction::Rejected(why),
        Ok(command) => {
            assert(command@.len() == words_view(command@).len());
            match handle_request(command, store) {
                Ok(reply) => Reaction::Reply(reply),
                Err(e) => Reaction::Failed(e),
            }
        },
    }
}

} // verus!
