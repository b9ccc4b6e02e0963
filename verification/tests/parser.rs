use resp_codec::error::RESPError;
use resp_codec::index::RESPValueIndices;
use resp_codec::parser::{
    parse_array, parse_blob_string, parse_expression, parse_simple_string,
};

fn shape(r: Result<Option<(RESPValueIndices, usize)>, RESPError>) -> String {
    format!("{:?}", r)
}

#[test]
fn nothing_to_parse_is_incomplete() {
    assert_eq!(shape(parse_expression(b"", 0)), "Ok(None)");
    assert_eq!(shape(parse_expression(b"+OK\r\n", 5)), "Ok(None)");
    assert_eq!(shape(parse_expression(b"+OK\r\n", 9)), "Ok(None)");
}

#[test]
fn simple_string_is_parsed() {
    assert_eq!(shape(parse_expression(b"+OK\r\n", 0)), "Ok(Some((SimpleString(1, 3), 5)))");
    assert_eq!(shape(parse_expression(b"+\r\n", 0)), "Ok(Some((SimpleString(1, 1), 3)))");
}

#[test]
fn parse_starts_where_it_is_told() {
    assert_eq!(
        shape(parse_expression(b"+OK\r\n+hello\r\n", 5)),
        "Ok(Some((SimpleString(6, 11), 13)))"
    );
}

#[test]
fn simple_string_waits_for_its_terminator() {
    assert_eq!(shape(parse_expression(b"+", 0)), "Ok(None)");
    assert_eq!(shape(parse_expression(b"+OK", 0)), "Ok(None)");
    assert_eq!(shape(parse_expression(b"+OK\r", 0)), "Ok(None)");
}

#[test]
fn simple_string_with_wrong_terminator_is_malformed() {
    assert_eq!(shape(parse_expression(b"+OK\rX", 0)), "Err(WordNotEndingWithNewLine)");
    assert_eq!(shape(parse_expression(b"+OK\r\r\n", 0)), "Err(WordNotEndingWithNewLine)");
}

#[test]
fn simple_string_with_line_feed_is_malformed() {
    assert_eq!(shape(parse_expression(b"+O\nK\r\n", 0)), "Err(NewLineInSimpleString)");
    assert_eq!(shape(parse_expression(b"+\n\r\n", 0)), "Err(NewLineInSimpleString)");
}

#[test]
fn simple_string_with_line_feed_waits_for_its_terminator_first() {
    assert_eq!(shape(parse_expression(b"+O\nK", 0)), "Ok(None)");
    assert_eq!(shape(parse_expression(b"+O\nK\r", 0)), "Ok(None)");
}

#[test]
fn blob_string_is_parsed() {
    assert_eq!(shape(parse_expression(b"$3\r\nfoo\r\n", 0)), "Ok(Some((BlobString(4, 7), 9)))");
    assert_eq!(
        shape(parse_expression(b"$11\r\nhello world\r\n", 0)),
        "Ok(Some((BlobString(5, 16), 18)))"
    );
}

#[test]
fn blob_string_may_hold_line_feeds() {
    assert_eq!(shape(parse_expression(b"$3\r\na\nb\r\n", 0)), "Ok(Some((BlobString(4, 7), 9)))");
}

#[test]
fn empty_blob_string_is_parsed() {
    assert_eq!(shape(parse_expression(b"$0\r\n\r\n", 0)), "Ok(Some((BlobString(4, 4), 6)))");
}

#[test]
fn empty_blob_string_waits_for_its_terminator() {
    assert_eq!(shape(parse_expression(b"$0\r\n", 0)), "Ok(None)");
    assert_eq!(shape(parse_expression(b"$0\r\n\r", 0)), "Ok(None)");
}

#[test]
fn null_blob_string_is_parsed() {
    assert_eq!(shape(parse_expression(b"$-1\r\n", 0)), "Ok(Some((Null, 5)))");
    assert_eq!(shape(parse_expression(b"$-7\r\n", 0)), "Ok(Some((Null, 5)))");
}

#[test]
fn null_ends_with_the_length_line() {
    assert_eq!(shape(parse_expression(b"$-1\r\nrest", 0)), "Ok(Some((Null, 5)))");
}

#[test]
fn blob_string_waits_for_its_length_line() {
    assert_eq!(shape(parse_expression(b"$", 0)), "Ok(None)");
    assert_eq!(shape(parse_expression(b"$3", 0)), "Ok(None)");
    assert_eq!(shape(parse_expression(b"$3\r", 0)), "Ok(None)");
    assert_eq!(shape(parse_expression(b"$-1\r", 0)), "Ok(None)");
}

#[test]
fn blob_string_waits_for_its_payload() {
    assert_eq!(shape(parse_expression(b"$3\r\n", 0)), "Ok(None)");
    assert_eq!(shape(parse_expression(b"$3\r\nfo", 0)), "Ok(None)");
    assert_eq!(shape(parse_expression(b"$3\r\nfoo", 0)), "Ok(None)");
    assert_eq!(shape(parse_expression(b"$3\r\nfoo\r", 0)), "Ok(None)");
}

#[test]
fn blob_string_with_wrong_length_terminator_is_malformed() {
    assert_eq!(shape(parse_expression(b"$3\rXfoo\r\n", 0)), "Err(WordNotEndingWithNewLine)");
    assert_eq!(shape(parse_expression(b"$-1\rX", 0)), "Err(WordNotEndingWithNewLine)");
}

#[test]
fn blob_string_with_wrong_payload_terminator_is_malformed() {
    assert_eq!(shape(parse_expression(b"$3\r\nfoo\rX", 0)), "Err(WordNotEndingWithNewLine)");
}

#[test]
fn blob_string_longer_than_declared_is_a_length_mismatch() {
    assert_eq!(shape(parse_expression(b"$5\r\nhello!\r\n", 0)), "Err(InvalidNumberSize)");
}

#[test]
fn blob_string_shorter_than_declared_is_a_length_mismatch() {
    assert_eq!(shape(parse_expression(b"$5\r\nhey\r\n", 0)), "Err(InvalidNumberSize)");
    assert_eq!(shape(parse_expression(b"$1\r\n\r\n", 0)), "Err(InvalidNumberSize)");
    assert_eq!(shape(parse_expression(b"$0\r\nx\r\n", 0)), "Err(InvalidNumberSize)");
}

#[test]
fn blob_string_payload_ends_at_the_next_carriage_return() {
    assert_eq!(shape(parse_expression(b"$6\r\nab\r\ncd\r\n", 0)), "Err(InvalidNumberSize)");
    assert_eq!(shape(parse_expression(b"$5\r\nab\rcd\r\n", 0)), "Err(WordNotEndingWithNewLine)");
}

#[test]
fn terminator_is_judged_before_the_length() {
    assert_eq!(shape(parse_expression(b"$5\r\nhey\rX", 0)), "Err(WordNotEndingWithNewLine)");
}

#[test]
fn blob_string_with_bad_length_is_malformed() {
    assert_eq!(shape(parse_expression(b"$abc\r\n", 0)), "Err(IntegerParseError)");
    assert_eq!(shape(parse_expression(b"$\r\n", 0)), "Err(IntegerParseError)");
    assert_eq!(shape(parse_expression(b"$+3\r\nfoo\r\n", 0)), "Err(IntegerParseError)");
    assert_eq!(shape(parse_expression(b"$3 \r\nfoo\r\n", 0)), "Err(IntegerParseError)");
    assert_eq!(shape(parse_expression(b"$\xff\r\n", 0)), "Err(IntegerParseEncodingError)");
}

#[test]
fn length_is_judged_as_soon_as_its_line_ends() {
    assert_eq!(shape(parse_expression(b"$abc\r", 0)), "Err(IntegerParseError)");
    assert_eq!(shape(parse_expression(b"$abc", 0)), "Ok(None)");
}

#[test]
fn null_array_is_parsed() {
    assert_eq!(shape(parse_expression(b"*-1\r\n", 0)), "Ok(Some((Null, 5)))");
}

#[test]
fn empty_array_is_parsed() {
    assert_eq!(shape(parse_expression(b"*0\r\n", 0)), "Ok(Some((Array([]), 4)))");
}

#[test]
fn array_is_parsed() {
    assert_eq!(
        shape(parse_expression(b"*2\r\n$3\r\nGET\r\n$3\r\nfoo\r\n", 0)),
        "Ok(Some((Array([BlobString(8, 11), BlobString(17, 20)]), 22)))"
    );
}

#[test]
fn array_of_mixed_values_is_parsed() {
    assert_eq!(
        shape(parse_expression(b"*3\r\n+a\r\n$-1\r\n$0\r\n\r\n", 0)),
        "Ok(Some((Array([SimpleString(5, 6), Null, BlobString(17, 17)]), 19)))"
    );
}

#[test]
fn nested_array_is_parsed() {
    assert_eq!(
        shape(parse_expression(b"*2\r\n*1\r\n+a\r\n*0\r\n", 0)),
        "Ok(Some((Array([Array([SimpleString(9, 10)]), Array([])]), 16)))"
    );
}

#[test]
fn array_waits_for_all_its_elements() {
    assert_eq!(shape(parse_expression(b"*2\r\n", 0)), "Ok(None)");
    assert_eq!(shape(parse_expression(b"*2\r\n+a\r\n", 0)), "Ok(None)");
    assert_eq!(shape(parse_expression(b"*2\r\n+a\r\n+b", 0)), "Ok(None)");
    assert_eq!(shape(parse_expression(b"*2\r\n+a\r\n+b\r", 0)), "Ok(None)");
    assert_eq!(shape(parse_expression(b"*2\r\n*1\r\n", 0)), "Ok(None)");
}

#[test]
fn array_waits_for_its_count_line() {
    assert_eq!(shape(parse_expression(b"*", 0)), "Ok(None)");
    assert_eq!(shape(parse_expression(b"*2", 0)), "Ok(None)");
    assert_eq!(shape(parse_expression(b"*2\r", 0)), "Ok(None)");
    assert_eq!(shape(parse_expression(b"*0\r", 0)), "Ok(None)");
    assert_eq!(shape(parse_expression(b"*-1\r", 0)), "Ok(None)");
}

#[test]
fn array_with_a_huge_count_is_incomplete() {
    assert_eq!(shape(parse_expression(b"*9223372036854775807\r\n+a\r\n", 0)), "Ok(None)");
}

#[test]
fn array_with_malformed_element_is_malformed() {
    assert_eq!(shape(parse_expression(b"*2\r\n+a\r\n?b\r\n", 0)), "Err(UnsupportedValue)");
    assert_eq!(shape(parse_expression(b"*2\r\n+a\nb\r\n+c\r\n", 0)), "Err(NewLineInSimpleString)");
    assert_eq!(shape(parse_expression(b"*1\r\n$2\r\nabc\r\n", 0)), "Err(InvalidNumberSize)");
}

#[test]
fn first_undecided_element_decides_the_array() {
    assert_eq!(shape(parse_expression(b"*2\r\n+a\r\n?", 0)), "Err(UnsupportedValue)");
    assert_eq!(shape(parse_expression(b"*2\r\n+a\r", 0)), "Ok(None)");
    assert_eq!(shape(parse_expression(b"*2\r\n+a\r?b\r\n", 0)), "Err(WordNotEndingWithNewLine)");
}

#[test]
fn array_with_bad_count_is_malformed() {
    assert_eq!(shape(parse_expression(b"*x\r\n", 0)), "Err(IntegerParseError)");
    assert_eq!(shape(parse_expression(b"*\xc0\r\n", 0)), "Err(IntegerParseEncodingError)");
    assert_eq!(shape(parse_expression(b"*2\rX+a\r\n+b\r\n", 0)), "Err(WordNotEndingWithNewLine)");
}

#[test]
fn unknown_prefix_is_malformed_at_once() {
    assert_eq!(shape(parse_expression(b"?", 0)), "Err(UnsupportedValue)");
    assert_eq!(shape(parse_expression(b"hello\r\n", 0)), "Err(UnsupportedValue)");
    assert_eq!(shape(parse_expression(b"\r\n", 0)), "Err(UnsupportedValue)");
    assert_eq!(shape(parse_expression(b":12\r\n", 0)), "Err(UnsupportedValue)");
    assert_eq!(shape(parse_expression(b"-ERR\r\n", 0)), "Err(UnsupportedValue)");
}

#[test]
fn parsing_again_gives_the_same() {
    let buf = b"*2\r\n$3\r\nGET\r\n$3\r\nfoo\r\n";
    assert_eq!(shape(parse_expression(buf, 0)), shape(parse_expression(buf, 0)));
    assert_eq!(shape(parse_expression(&buf[..12], 0)), shape(parse_expression(&buf[..12], 0)));
}

#[test]
fn simple_string_helper_takes_payload_start_and_line_end() {
    assert_eq!(shape(parse_simple_string(b"+OK\r\n", 1, 3)), "Ok(Some((SimpleString(1, 3), 5)))");
    assert_eq!(shape(parse_simple_string(b"+OK\r", 1, 3)), "Ok(None)");
    assert_eq!(shape(parse_simple_string(b"+OK", 1, 3)), "Ok(None)");
}

#[test]
fn blob_string_helper_takes_the_length_field() {
    assert_eq!(shape(parse_blob_string(b"$3\r\nfoo\r\n", 1, 2)), "Ok(Some((BlobString(4, 7), 9)))");
    assert_eq!(shape(parse_blob_string(b"$3\r\nfoo\r\n", 1, 1)), "Err(IntegerParseError)");
    assert_eq!(shape(parse_blob_string(b"$3", 1, 2)), "Ok(None)");
}

#[test]
fn array_helper_takes_the_count_field() {
    assert_eq!(
        shape(parse_array(b"*1\r\n+a\r\n", 1, 2)),
        "Ok(Some((Array([SimpleString(5, 6)]), 8)))"
    );
    assert_eq!(shape(parse_array(b"*1", 1, 2)), "Ok(None)");
}
