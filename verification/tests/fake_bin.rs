use gitalong::testing::{
    bin_response, chunk_size, ends_head, read_header, replaces_record, request_method, RequestHead,
};
use gitalong::text::{eq_ignore_ascii_case, find_char, parse_usize};

fn fresh() -> RequestHead {
    RequestHead { content_length: 0, chunked: false }
}

#[test]
fn method_is_first_word_of_request_line() {
    assert_eq!(request_method("PUT /v3/b/bin HTTP/1.1\r\n"), "PUT");
    assert_eq!(request_method("  GET /v3/b/bin HTTP/1.1"), "GET");
    assert_eq!(request_method(""), "");
    assert_eq!(request_method(" \r\n"), "");
}

#[test]
fn content_length_header_sets_body_length() {
    let head = read_header(fresh(), "Content-Length: 42\r\n");
    assert_eq!(head.content_length, 42);
    assert!(!head.chunked);
    assert_eq!(read_header(fresh(), "content-LENGTH:+7").content_length, 7);
}

#[test]
fn content_length_that_is_no_number_reads_as_zero() {
    let before = RequestHead { content_length: 9, chunked: true };
    let after = read_header(before, "Content-Length: twelve\r\n");
    assert_eq!(after.content_length, 0);
    assert!(after.chunked);
    assert_eq!(read_header(before, "Content-Length: -1").content_length, 0);
    assert_eq!(read_header(before, "Content-Length:").content_length, 0);
}

#[test]
fn transfer_encoding_header_sets_chunked() {
    assert!(read_header(fresh(), "Transfer-Encoding: Chunked\r\n").chunked);
    let before = RequestHead { content_length: 5, chunked: true };
    let after = read_header(before, "transfer-encoding: gzip\r\n");
    assert!(!after.chunked);
    assert_eq!(after.content_length, 5);
}

#[test]
fn other_headers_leave_the_head_alone() {
    let before = RequestHead { content_length: 3, chunked: true };
    assert!(read_header(before, "Host: 127.0.0.1:8080\r\n") == before);
    assert!(read_header(before, "no colon here\r\n") == before);
    assert!(read_header(before, "Content-Length-Extra: 1\r\n") == before);
}

#[test]
fn blank_line_ends_the_head() {
    assert!(ends_head("\r\n"));
    assert!(ends_head(""));
    assert!(!ends_head("Host: x\r\n"));
}

#[test]
fn chunk_size_reads_hexadecimal_before_extensions() {
    assert_eq!(chunk_size("1f\r\n"), 31);
    assert_eq!(chunk_size("A;name=value\r\n"), 10);
    assert_eq!(chunk_size("+F"), 15);
    assert_eq!(chunk_size("0\r\n"), 0);
    assert_eq!(chunk_size("zz\r\n"), 0);
    assert_eq!(chunk_size("1f ;ext\r\n"), 0);
    assert_eq!(chunk_size(""), 0);
}

#[test]
fn only_put_replaces_the_record() {
    assert!(replaces_record("PUT"));
    assert!(!replaces_record("GET"));
    assert!(!replaces_record("put"));
    assert!(!replaces_record(""));
}

#[test]
fn bin_wraps_record_in_envelope() {
    assert_eq!(bin_response(&b"[]".to_vec()), b"{\"record\":[],\"metadata\":{}}".to_vec());
    assert_eq!(bin_response(&Vec::new()), b"{\"record\":,\"metadata\":{}}".to_vec());
}

#[test]
fn parse_usize_follows_from_str_radix() {
    assert_eq!(parse_usize("007", 10), Some(7));
    assert_eq!(parse_usize("+12", 10), Some(12));
    assert_eq!(parse_usize("ff", 16), Some(255));
    assert_eq!(parse_usize("FF", 16), Some(255));
    assert_eq!(parse_usize("ff", 10), None);
    assert_eq!(parse_usize("+", 10), None);
    assert_eq!(parse_usize("", 10), None);
    assert_eq!(parse_usize("-1", 10), None);
    assert_eq!(parse_usize("1 2", 10), None);
    assert_eq!(parse_usize(&usize::MAX.to_string(), 10), Some(usize::MAX));
    assert_eq!(parse_usize(&format!("{}0", usize::MAX), 10), None);
}

#[test]
fn ascii_case_is_ignored_and_nothing_else() {
    assert!(eq_ignore_ascii_case("Content-LENGTH", "content-length"));
    assert!(!eq_ignore_ascii_case("É", "é"));
    assert!(!eq_ignore_ascii_case("abc", "abcd"));
    assert!(!eq_ignore_ascii_case("[", "{"));
}

#[test]
fn find_char_gives_first_occurrence() {
    let cs: Vec<char> = "a=b=c".chars().collect();
    assert_eq!(find_char(&cs, '='), Some(1));
    assert_eq!(find_char(&cs, ';'), None);
}
