use vstd::prelude::*;

verus! {

/// Number of bytes in the fixed response.
pub const RESPONSE_LEN: usize = 69;

/// The fixed response: status line, a `Content-Length: 12` header ended by a
/// lone line feed, a `Connection: close` header, a blank line and the body.
pub open spec fn fixed_response() -> Seq<u8> {
    seq![
        // HTTP/1.1 200 OK\r\n
        72u8, 84, 84, 80, 47, 49, 46, 49, 32, 50, 48, 48, 32, 79, 75, 13, 10,
        // Content-Length: 12\n
        67, 111, 110, 116, 101, 110, 116, 45, 76, 101, 110, 103, 116, 104, 58, 32, 49, 50, 10,
        // Connection: close\r\n\r\n
        67, 111, 110, 110, 101, 99, 116, 105, 111, 110, 58, 32, 99, 108, 111, 115, 101, 13, 10, 13, 10,
        // Hello world!
        72, 101, 108, 108, 111, 32, 119, 111, 114, 108, 100, 33,
    ]
}

/// Builds the fixed response that every served connection receives.
pub fn response_bytes() -> (r: Vec<u8>)
    ensures
        r@ == fixed_response(),
        r@.len() == RESPONSE_LEN,
{
    let r: Vec<u8> = vec![
        // HTTP/1.1 200 OK\r\n
        72u8, 84, 84, 80, 47, 49, 46, 49, 32, 50, 48, 48, 32, 79, 75, 13, 10,
        // Content-Length: 12\n
        67, 111, 110, 116, 101, 110, 116, 45, 76, 101, 110, 103, 116, 104, 58, 32, 49, 50, 10,
        // Connection: close\r\n\r\n
        67, 111, 110, 110, 101, 99, 116, 105, 111, 110, 58, 32, 99, 108, 111, 115, 101, 13, 10, 13, 10,
        // Hello world!
        72, 101, 108, 108, 111, 32, 119, 111, 114, 108, 100, 33,
    ];
    assert(r@ =~= fixed_response());
    r
}

} // verus!
