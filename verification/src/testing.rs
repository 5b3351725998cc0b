//! The store backends that test fixtures stand up, and the request rules of
//! the stand-in JSONBin server they run: a bin that answers every request
//! with `{"record": ...}` and replaces its record on `PUT`.
use vstd::prelude::*;

pub use crate::store::StoreKind;

use vstd::string::{StrSliceExecFns, StringSliceAdditionalSpecFns};

use crate::store::refs::{nonempty, words};
use crate::text::{
    chars_of, eq_ignore_ascii_case, find_char, first_index, is_white, is_white_exec, parse_usize,
    parsed_usize, same_ignoring_ascii_case, split_pieces, string_of_chars, trim, trimmed, Split,
};

verus! {

/// What the head of a request says of its body: its announced length, and
/// whether it comes in chunks.
#[derive(Clone, Copy, PartialEq, Eq, Structural)]
pub struct RequestHead {
    pub content_length: usize,
    pub chunked: bool,
}

/// The method of a request line: its first word, or nothing.
pub open spec fn method_of(line: Seq<char>) -> Seq<char> {
    if words(line).len() > 0 {
        words(line)[0]
    } else {
        Seq::empty()
    }
}

/// The method named by a request line.
pub fn request_method(line: &str) -> (m: String)
    ensures
        m@ == method_of(line@),
{
    let ps = split_pieces(line, Split::Words);
    let ws = nonempty(&ps);
    if ws.len() > 0 {
        ws[0].clone()
    } else {
        String::new()
    }
}

/// The head once the header `line` is read: `Content-Length` sets the body
/// length (zero when its value is no number), `Transfer-Encoding` whether
/// the body is chunked; names are matched without regard to ASCII case,
/// names and values without surrounding whitespace, and any other line
/// leaves the head as it was.
pub open spec fn head_after(head: RequestHead, line: Seq<char>) -> RequestHead {
    match first_index(line, ':') {
        None => head,
        Some(i) => {
            let name = trimmed(line.subrange(0, i));
            let value = trimmed(line.subrange(i + 1, line.len() as int));
            if same_ignoring_ascii_case(name, "content-length"@) {
                RequestHead {
                    content_length: match parsed_usize(value, 10) {
                        Some(v) => v as usize,
                        None => 0,
                    },
                    chunked: head.chunked,
                }
            } else if same_ignoring_ascii_case(name, "transfer-encoding"@) {
                RequestHead {
                    content_length: head.content_length,
                    chunked: same_ignoring_ascii_case(value, "chunked"@),
                }
            } else {
                head
            }
        },
    }
}

/// Read one header line into the head (see [`head_after`]).
pub fn read_header(head: RequestHead, line: &str) -> (next: RequestHead)
    ensures
        next == head_after(head, line@),
{
    proof {
        reveal_strlit("content-length");
        reveal_strlit("transfer-encoding");
        reveal_strlit("chunked");
    }
    let cs = chars_of(line);
    match find_char(&cs, ':') {
        None => head,
        Some(i) => {
            let name = trim(string_of_chars(&cs, 0, i).as_str());
            let value = trim(string_of_chars(&cs, i + 1, cs.len()).as_str());
            if eq_ignore_ascii_case(name.as_str(), "content-length") {
                let n = match parse_usize(value.as_str(), 10) {
                    Some(v) => v,
                    None => 0,
                };
                RequestHead { content_length: n, chunked: head.chunked }
            } else if eq_ignore_ascii_case(name.as_str(), "transfer-encoding") {
                RequestHead {
                    content_length: head.content_length,
                    chunked: eq_ignore_ascii_case(value.as_str(), "chunked"),
                }
            } else {
                head
            }
        },
    }
}

/// `true` for the blank line that ends the head of a request: nothing but
/// whitespace.
pub fn ends_head(line: &str) -> (r: bool)
    ensures
        r == forall|i: int| 0 <= i < line@.len() ==> is_white(#[trigger] line@[i]),
{
    let cs = chars_of(line);
    let mut i: usize = 0;
    while i < cs.len()
        invariant
            cs@ == line@,
            i <= cs@.len(),
            forall|j: int| 0 <= j < i ==> is_white(#[trigger] cs@[j]),
        decreases cs.len() - i,
    {
        if !is_white_exec(cs[i]) {
            return false;
        }
        i = i + 1;
    }
    true
}

/// The size a chunk-size line announces: the hexadecimal number before any
/// `;` extension of the trimmed line, or zero when there is none.
pub open spec fn chunk_size_of(line: Seq<char>) -> nat {
    let t = trimmed(line);
    let size = match first_index(t, ';') {
        Some(i) => t.subrange(0, i),
        None => t,
    };
    match parsed_usize(size, 16) {
        Some(v) => v,
        None => 0,
    }
}

/// The size a chunk-size line announces (see [`chunk_size_of`]).
pub fn chunk_size(line: &str) -> (n: usize)
    ensures
        n == chunk_size_of(line@),
{
    let t = trim(line);
    let cs = chars_of(t.as_str());
    let size = match find_char(&cs, ';') {
        Some(i) => string_of_chars(&cs, 0, i),
        None => string_of_chars(&cs, 0, cs.len()),
    };
    assert(cs@.subrange(0, cs@.len() as int) =~= cs@);
    match parse_usize(size.as_str(), 16) {
        Some(v) => v,
        None => 0,
    }
}

/// Whether a request with `method` replaces the bin's record.
pub fn replaces_record(method: &str) -> (r: bool)
    ensures
        r == (method@ == "PUT"@),
{
    proof {
        reveal_strlit("PUT");
    }
    let cs = chars_of(method);
    let r = cs.len() == 3 && cs[0] == 'P' && cs[1] == 'U' && cs[2] == 'T';
    proof {
        if r {
            assert(cs@ =~= "PUT"@);
        }
    }
    r
}

/// What opens the bin's answer.
pub const RECORD_OPEN: &'static str = "{\"record\":";

/// What closes the bin's answer.
pub const RECORD_CLOSE: &'static str = ",\"metadata\":{}}";

/// The bin's answer for the record `stored`: `{"record":<stored>,"metadata":{}}`.
pub open spec fn envelope(stored: Seq<u8>) -> Seq<u8> {
    RECORD_OPEN.spec_bytes() + stored + RECORD_CLOSE.spec_bytes()
}

/// The bin's answer for the record `stored` (see [`envelope`]).
pub fn bin_response(stored: &Vec<u8>) -> (out: Vec<u8>)
    ensures
        out@ == envelope(stored@),
{
    let mut out = RECORD_OPEN.as_bytes_vec();
    let ghost open = out@;
    let mut i: usize = 0;
    while i < stored.len()
        invariant
            open == RECORD_OPEN.spec_bytes(),
            i <= stored@.len(),
            out@ == open + stored@.subrange(0, i as int),
        decreases stored.len() - i,
    {
        out.push(stored[i]);
        i = i + 1;
        assert(out@ =~= open + stored@.subrange(0, i as int));
    }
    assert(stored@.subrange(0, stored@.len() as int) =~= stored@);
    let mut close = RECORD_CLOSE.as_bytes_vec();
    out.append(&mut close);
    out
}

} // verus!
