use bytes::BytesMut;
use resp_codec::codec::RESPCodec;
use resp_codec::dispatch::{handle_request, react, request_words, InvalidRequest, Reaction};
use resp_codec::error::RESPError;
use resp_codec::store::Store;
use resp_codec::value::RESPValue;

fn words(list: &[&str]) -> Vec<String> {
    list.iter().map(|w| w.to_string()).collect()
}

fn blob(text: &str) -> RESPValue {
    RESPValue::BlobString(text.to_string())
}

fn request(list: &[&str]) -> RESPValue {
    RESPValue::Array(list.iter().map(|w| blob(w)).collect())
}

fn show(value: Option<&RESPValue>) -> String {
    format!("{:?}", value)
}

#[test]
fn new_store_is_empty() {
    let store = Store::new();
    assert_eq!(show(store.get("foo")), "None");
    assert_eq!(show(store.get("")), "None");
}

#[test]
fn store_returns_what_was_set() {
    let mut store = Store::new();
    assert!(store.set("foo".to_string(), blob("bar")).is_none());
    assert_eq!(show(store.get("foo")), "Some(BlobString(\"bar\"))");
    assert_eq!(show(store.get("fo")), "None");
    assert_eq!(show(store.get("foo ")), "None");
}

#[test]
fn store_overwrites_and_returns_the_previous_value() {
    let mut store = Store::new();
    assert!(store.set("a".to_string(), RESPValue::Number(1)).is_none());
    assert!(store.set("b".to_string(), RESPValue::Number(2)).is_none());
    assert!(store.set("c".to_string(), RESPValue::Number(3)).is_none());
    let previous = store.set("a".to_string(), RESPValue::Number(10));
    assert_eq!(format!("{:?}", previous), "Some(Number(1))");
    assert_eq!(show(store.get("a")), "Some(Number(10))");
    assert_eq!(show(store.get("b")), "Some(Number(2))");
    assert_eq!(show(store.get("c")), "Some(Number(3))");
    let previous = store.set("c".to_string(), RESPValue::Null);
    assert_eq!(format!("{:?}", previous), "Some(Number(3))");
    assert_eq!(show(store.get("a")), "Some(Number(10))");
    assert_eq!(show(store.get("b")), "Some(Number(2))");
    assert_eq!(show(store.get("c")), "Some(Null)");
}

#[test]
fn store_keys_are_case_sensitive() {
    let mut store = Store::new();
    store.set("Key".to_string(), blob("upper"));
    store.set("key".to_string(), blob("lower"));
    assert_eq!(show(store.get("Key")), "Some(BlobString(\"upper\"))");
    assert_eq!(show(store.get("key")), "Some(BlobString(\"lower\"))");
}

#[test]
fn get_of_absent_key_is_null() {
    let mut store = Store::new();
    let r = handle_request(words(&["GET", "foo"]), &mut store);
    assert_eq!(format!("{:?}", r), "Ok(Null)");
}

#[test]
fn set_on_first_use_replies_ok() {
    let mut store = Store::new();
    let r = handle_request(words(&["SET", "foo", "bar"]), &mut store);
    assert_eq!(format!("{:?}", r), "Ok(SimpleString(\"OK\"))");
    assert_eq!(show(store.get("foo")), "Some(BlobString(\"bar\"))");
}

#[test]
fn set_again_replies_with_the_previous_value() {
    let mut store = Store::new();
    handle_request(words(&["SET", "foo", "bar"]), &mut store).unwrap();
    let r = handle_request(words(&["SET", "foo", "baz"]), &mut store);
    assert_eq!(format!("{:?}", r), "Ok(BlobString(\"bar\"))");
    assert_eq!(show(store.get("foo")), "Some(BlobString(\"baz\"))");
}

#[test]
fn get_replies_with_what_was_set() {
    let mut store = Store::new();
    handle_request(words(&["SET", "foo", "bar"]), &mut store).unwrap();
    let r = handle_request(words(&["GET", "foo"]), &mut store);
    assert_eq!(format!("{:?}", r), "Ok(BlobString(\"bar\"))");
    let r = handle_request(words(&["GET", "other"]), &mut store);
    assert_eq!(format!("{:?}", r), "Ok(Null)");
}

#[test]
fn get_leaves_the_store_alone() {
    let mut store = Store::new();
    handle_request(words(&["SET", "foo", "bar"]), &mut store).unwrap();
    handle_request(words(&["GET", "foo"]), &mut store).unwrap();
    handle_request(words(&["GET", "nothing"]), &mut store).unwrap();
    assert_eq!(show(store.get("foo")), "Some(BlobString(\"bar\"))");
    assert_eq!(show(store.get("nothing")), "None");
}

#[test]
fn get_replies_with_any_stored_value() {
    let mut store = Store::new();
    let nested = RESPValue::Array(vec![
        RESPValue::Number(7),
        RESPValue::Mapping(vec![(b"k".to_vec(), RESPValue::Boolean(true))]),
        RESPValue::Members(vec![RESPValue::SimpleError(b"e".to_vec())]),
    ]);
    store.set("deep".to_string(), nested);
    let r = handle_request(words(&["GET", "deep"]), &mut store);
    assert_eq!(
        format!("{:?}", r),
        "Ok(Array([Number(7), Mapping([([107], Boolean(true))]), Members([SimpleError([101])])]))"
    );
}

#[test]
fn wrong_word_count_carries_the_command_name() {
    let mut store = Store::new();
    for command in [vec!["GET"], vec!["GET", "a", "b"]] {
        let r = handle_request(words(&command), &mut store);
        assert!(matches!(r, Err(RESPError::WrongNumberOfArguments(name)) if name == "GET"));
    }
    for command in [vec!["SET"], vec!["SET", "a"], vec!["SET", "a", "b", "c"]] {
        let r = handle_request(words(&command), &mut store);
        assert!(matches!(r, Err(RESPError::WrongNumberOfArguments(name)) if name == "SET"));
    }
    assert_eq!(show(store.get("a")), "None");
}

#[test]
fn unknown_commands_are_unsupported() {
    let mut store = Store::new();
    let commands =
        [vec!["PING"], vec!["get", "foo"], vec!["Set", "a", "b"], vec![""], vec!["GETS", "a"]];
    for command in commands {
        let r = handle_request(words(&command), &mut store);
        assert!(matches!(r, Err(RESPError::UnsupportedCommand)));
    }
}

#[test]
fn request_is_an_array_of_blob_strings() {
    let r = request_words(request(&["SET", "foo", "bar"]));
    assert_eq!(r, Ok(words(&["SET", "foo", "bar"])));
    let r = request_words(request(&[""]));
    assert_eq!(r, Ok(words(&[""])));
}

#[test]
fn values_that_are_no_request_are_told_apart() {
    assert_eq!(request_words(RESPValue::Array(vec![])), Err(InvalidRequest::EmptyArray));
    assert_eq!(request_words(RESPValue::Null), Err(InvalidRequest::NotAnArray));
    assert_eq!(request_words(blob("GET")), Err(InvalidRequest::NotAnArray));
    assert_eq!(
        request_words(RESPValue::Array(vec![
            blob("GET"),
            RESPValue::SimpleString("foo".to_string())
        ])),
        Err(InvalidRequest::NotOnlyBlobStrings)
    );
    assert_eq!(
        request_words(RESPValue::Array(vec![RESPValue::Null])),
        Err(InvalidRequest::NotOnlyBlobStrings)
    );
    assert_eq!(
        request_words(RESPValue::Array(vec![request(&["GET", "foo"])])),
        Err(InvalidRequest::NotOnlyBlobStrings)
    );
}

#[test]
fn react_replies_to_requests() {
    let mut store = Store::new();
    let reaction = react(request(&["SET", "foo", "bar"]), &mut store);
    assert_eq!(format!("{:?}", reaction), "Reply(SimpleString(\"OK\"))");
    let reaction = react(request(&["GET", "foo"]), &mut store);
    assert_eq!(format!("{:?}", reaction), "Reply(BlobString(\"bar\"))");
}

#[test]
fn react_rejects_what_is_no_request() {
    let mut store = Store::new();
    store.set("foo".to_string(), blob("bar"));
    assert!(matches!(
        react(RESPValue::Null, &mut store),
        Reaction::Rejected(InvalidRequest::NotAnArray)
    ));
    assert!(matches!(
        react(RESPValue::Array(vec![]), &mut store),
        Reaction::Rejected(InvalidRequest::EmptyArray)
    ));
    assert!(matches!(
        react(RESPValue::Array(vec![blob("SET"), blob("foo"), RESPValue::Number(1)]), &mut store),
        Reaction::Rejected(InvalidRequest::NotOnlyBlobStrings)
    ));
    assert_eq!(show(store.get("foo")), "Some(BlobString(\"bar\"))");
}

#[test]
fn react_hands_back_failures() {
    let mut store = Store::new();
    assert!(matches!(
        react(request(&["PING"]), &mut store),
        Reaction::Failed(RESPError::UnsupportedCommand)
    ));
    assert!(matches!(
        react(request(&["GET"]), &mut store),
        Reaction::Failed(RESPError::WrongNumberOfArguments(name)) if name == "GET"
    ));
}

fn serve(input: &[u8], store: &mut Store) -> (Vec<Reaction>, Vec<u8>) {
    let mut codec = RESPCodec::default();
    let mut inbound = BytesMut::from(input);
    let mut outbound = BytesMut::new();
    let mut reactions = Vec::new();
    while let Some(value) = codec.decode(&mut inbound).unwrap() {
        let reaction = react(value, store);
        if let Reaction::Reply(reply) = &reaction {
            codec.encode(reply.clone(), &mut outbound).unwrap();
        }
        reactions.push(reaction);
    }
    (reactions, outbound.to_vec())
}

#[test]
fn get_against_empty_store_is_encoded_as_null() {
    let mut store = Store::new();
    let (reactions, sent) = serve(b"*2\r\n$3\r\nGET\r\n$3\r\nfoo\r\n", &mut store);
    assert_eq!(format!("{:?}", reactions), "[Reply(Null)]");
    assert_eq!(sent, b"$-1\r\n".to_vec());
}

#[test]
fn set_replies_ok_then_the_prior_value() {
    let mut store = Store::new();
    let first = b"*3\r\n$3\r\nSET\r\n$3\r\nfoo\r\n$3\r\nbar\r\n";
    let (reactions, sent) = serve(first, &mut store);
    assert_eq!(format!("{:?}", reactions), "[Reply(SimpleString(\"OK\"))]");
    assert_eq!(sent, b"+OK\r\n".to_vec());
    let second = b"*3\r\n$3\r\nSET\r\n$3\r\nfoo\r\n$3\r\nbaz\r\n";
    let (reactions, sent) = serve(second, &mut store);
    assert_eq!(format!("{:?}", reactions), "[Reply(BlobString(\"bar\"))]");
    assert_eq!(sent, b"$3\r\nbar\r\n".to_vec());
    assert_eq!(show(store.get("foo")), "Some(BlobString(\"baz\"))");
}

#[test]
fn unknown_command_is_reported_and_the_connection_goes_on() {
    let mut store = Store::new();
    let (reactions, sent) = serve(
        b"*1\r\n$4\r\nPING\r\n*3\r\n$3\r\nSET\r\n$1\r\nk\r\n$1\r\nv\r\n*2\r\n$3\r\nGET\r\n$1\r\nk\r\n",
        &mut store,
    );
    assert_eq!(
        format!("{:?}", reactions),
        "[Failed(UnsupportedCommand), Reply(SimpleString(\"OK\")), Reply(BlobString(\"v\"))]"
    );
    assert_eq!(sent, b"+OK\r\n$1\r\nv\r\n".to_vec());
}

#[test]
fn set_of_empty_value_is_served() {
    let mut store = Store::new();
    let (reactions, sent) = serve(
        b"*3\r\n$3\r\nSET\r\n$1\r\nk\r\n$0\r\n\r\n*2\r\n$3\r\nGET\r\n$1\r\nk\r\n",
        &mut store,
    );
    assert_eq!(format!("{:?}", reactions), "[Reply(SimpleString(\"OK\")), Reply(BlobString(\"\"))]");
    assert_eq!(sent, b"+OK\r\n$0\r\n\r\n".to_vec());
}

#[test]
fn clone_keeps_the_value() {
    let value = RESPValue::Array(vec![
        blob("a"),
        RESPValue::SimpleString("b".to_string()),
        RESPValue::BlobError(vec![1, 2]),
        RESPValue::SimpleError(vec![3]),
        RESPValue::Number(4),
        RESPValue::Double(2.5f64.to_bits()),
        RESPValue::Boolean(false),
        RESPValue::Null,
        RESPValue::Mapping(vec![(vec![5], RESPValue::Array(vec![RESPValue::Null]))]),
        RESPValue::Members(vec![RESPValue::Number(6), RESPValue::Number(7)]),
    ]);
    assert_eq!(format!("{:?}", value.clone()), format!("{:?}", value));
}

#[test]
fn into_blob_string_gives_the_text_or_the_value_back() {
    assert_eq!(format!("{:?}", blob("foo").into_blob_string()), "Ok(\"foo\")");
    assert_eq!(
        format!("{:?}", RESPValue::SimpleString("foo".to_string()).into_blob_string()),
        "Err(SimpleString(\"foo\"))"
    );
    assert_eq!(format!("{:?}", RESPValue::Null.into_blob_string()), "Err(Null)");
}

#[test]
fn io_errors_become_resp_errors() {
    let e = RESPError::from(std::io::Error::new(std::io::ErrorKind::UnexpectedEof, "gone"));
    assert!(matches!(e, RESPError::IOError(inner) if inner.kind() == std::io::ErrorKind::UnexpectedEof));
}
