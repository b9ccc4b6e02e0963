use resp_codec::value::RESPValue;

fn blob(text: &str) -> RESPValue {
    RESPValue::BlobString(text.to_string())
}

#[test]
fn strings_are_one_line() {
    assert_eq!(blob("hello").to_text(), "blob string: hello\n");
    assert_eq!(RESPValue::SimpleString("OK".to_string()).to_text(), "simple string: OK\n");
    assert_eq!(blob("").to_text(), "blob string: \n");
}

#[test]
fn null_is_one_line() {
    assert_eq!(RESPValue::Null.to_text(), "null\n");
}

#[test]
fn other_values_are_a_question_mark() {
    assert_eq!(RESPValue::Number(7).to_text(), "?\n");
    assert_eq!(RESPValue::Boolean(true).to_text(), "?\n");
    assert_eq!(RESPValue::BlobError(vec![1]).to_text(), "?\n");
    assert_eq!(RESPValue::Members(vec![RESPValue::Null]).to_text(), "?\n");
}

#[test]
fn arrays_show_their_length_and_elements() {
    let value = RESPValue::Array(vec![blob("GET"), blob("foo")]);
    assert_eq!(value.to_text(), "array(2) [\n  blob string: GET\n  blob string: foo\n]\n");
    assert_eq!(RESPValue::Array(vec![]).to_text(), "array(0) [\n]\n");
}

#[test]
fn nested_arrays_are_indented_deeper() {
    let value = RESPValue::Array(vec![
        blob("a"),
        RESPValue::Array(vec![RESPValue::Null, RESPValue::Array(vec![])]),
        RESPValue::Number(1),
    ]);
    assert_eq!(
        value.to_text(),
        "array(3) [\n  blob string: a\n  array(2) [\n    null\n    array(0) [\n    ]\n  ]\n  ?\n]\n"
    );
}

#[test]
fn array_length_is_written_in_decimal() {
    let value = RESPValue::Array((0..12).map(|_| RESPValue::Null).collect());
    let text = value.to_text();
    assert!(text.starts_with("array(12) [\n  null\n"));
    assert_eq!(text.lines().count(), 14);
}

#[test]
fn indentation_is_two_spaces_per_level() {
    assert_eq!(blob("x").format_tabbed(0), "blob string: x\n");
    assert_eq!(blob("x").format_tabbed(1), "  blob string: x\n");
    assert_eq!(RESPValue::Null.format_tabbed(3), "      null\n");
    assert_eq!(
        RESPValue::Array(vec![RESPValue::Null]).format_tabbed(2),
        "    array(1) [\n      null\n    ]\n"
    );
}
