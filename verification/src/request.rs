//! The request that asks for the resource, or for a byte range of it.

use vstd::prelude::*;
use crate::decimal::{decimal_text, push_decimal};

verus! {

/// The stretch of the resource that is still wanted: from offset
/// `begin_index` up to `end_index`.
#[derive(Clone, Copy, Debug, PartialEq, Eq, Structural)]
pub struct ByteRange {
    pub begin_index: u32,
    pub end_index: u32,
}

/// The header line that asks for `range`, line break included.
pub open spec fn range_line(range: ByteRange) -> Seq<char> {
    "Range: bytes="@ + decimal_text(range.begin_index as nat) + "-"@ + decimal_text(
        range.end_index as nat,
    ) + "\r\n"@
}

/// The text of a request: the request line and the `Accept` line, then the
/// `Range` line where a range is asked for, then the empty line that ends
/// the header.
pub open spec fn request_text(range: Option<ByteRange>) -> Seq<char> {
    let head = "GET / HTTP/1.1\r\nAccept: */*\r\n"@;
    let end = "\r\n"@;
    match range {
        None => head + end,
        Some(r) => head + range_line(r) + end,
    }
}

/// Builds the request for the whole resource, or for `range` of it.
pub fn build_get_request_string(range: Option<ByteRange>) -> (r: String)
    ensures
        r@ == request_text(range),
{
    let mut text = String::from_str("GET / HTTP/1.1\r\nAccept: */*\r\n");
    if let Some(some_range) = range {
        text.append("Range: bytes=");
        push_decimal(&mut text, some_range.begin_index);
        text.append("-");
        push_decimal(&mut text, some_range.end_index);
        text.append("\r\n");
        assert(text@ =~= "GET / HTTP/1.1\r\nAccept: */*\r\n"@ + range_line(some_range));
    }
    text.append("\r\n");
    text
}

} // verus!
