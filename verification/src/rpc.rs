//! The codes of the requests that a client can send.

use vstd::prelude::*;

verus! {

/// The kind of a request.
#[derive(Clone, Copy, Debug, PartialEq, Eq, Structural)]
pub enum RequestCode {
    Query,
    Echo,
}

/// The number of bytes of the header of a request: the code, then the size
/// of the body.
pub const HEADER_LEN: usize = 9;

/// The header of a request: its code, if the byte is one, and the size of
/// its body.
#[derive(Clone, Copy, Debug, PartialEq, Eq, Structural)]
pub struct Header {
    pub code: Option<RequestCode>,
    pub size: u64,
}

impl RequestCode {
    /// The byte that stands for the code on the wire.
    pub open spec fn code(self) -> u8 {
        match self {
            RequestCode::Query => 1,
            RequestCode::Echo => 42,
        }
    }

    /// The code that the byte `v` stands for.
    pub open spec fn of(v: u8) -> Option<RequestCode> {
        if v == 1 {
            Some(RequestCode::Query)
        } else if v == 42 {
            Some(RequestCode::Echo)
        } else {
            None
        }
    }

    pub fn to_u8(self) -> (v: u8)
        ensures
            v == self.code(),
            RequestCode::of(v) == Some(self),
    {
        match self {
            RequestCode::Query => 1,
            RequestCode::Echo => 42,
        }
    }

    /// The code that the byte `v` stands for, if it stands for one.
    pub fn try_from(v: u8) -> (r: Result<RequestCode, ()>)
        ensures
            match RequestCode::of(v) {
                Some(c) => r == Ok::<RequestCode, ()>(c) && c.code() == v,
                None => r is Err,
            },
    {
        if v == 1 {
            Ok(RequestCode::Query)
        } else if v == 42 {
            Ok(RequestCode::Echo)
        } else {
            Err(())
        }
    }
}

/// Reads the header of a request: the first byte is the code, the eight
/// bytes after it the size of the body, least significant byte first.
/// `None` where there are not `HEADER_LEN` bytes.
pub fn decode_header(bytes: &[u8]) -> (h: Option<Header>)
    ensures
        match h {
            Some(header) => bytes@.len() == HEADER_LEN && header.code == RequestCode::of(bytes@[0])
                && header.size == vstd::bytes::spec_u64_from_le_bytes(bytes@.subrange(1, 9)),
            None => bytes@.len() != HEADER_LEN,
        },
{
    if bytes.len() != HEADER_LEN {
        return None;
    }
    let code = match RequestCode::try_from(bytes[0]) {
        Ok(c) => Some(c),
        Err(_) => None,
    };
    let size = vstd::bytes::u64_from_le_bytes(vstd::slice::slice_subrange(bytes, 1, 9));
    Some(Header { code, size })
}

} // verus!
