//! The KRPC message model: addresses, transaction ids, the
//! query/response/error sum and the wire error codes.

use vstd::prelude::*;

verus! {

/// An IPv4 endpoint: 4-byte address and port, both in host order.
#[derive(Copy, Clone, Debug, PartialEq, Eq, Structural)]
pub struct KAddress {
    pub ip: u32,
    pub port: u16,
}

/// Transaction id as carried on the wire: an opaque byte string.
pub type KTransId = Vec<u8>;

/// Wire error codes of the protocol.
#[derive(Copy, Clone, Debug, PartialEq, Eq, Structural)]
pub enum KError {
    Generic,
    Server,
    Protocol,
    Method,
}

/// The numeric code a wire error is carried as.
pub open spec fn spec_code(e: KError) -> int {
    match e {
        KError::Generic => 201,
        KError::Server => 202,
        KError::Protocol => 203,
        KError::Method => 204,
    }
}

impl KError {
    /// Numeric code of this error.
    pub fn code(&self) -> (r: u16)
        ensures
            r == spec_code(*self),
    {
        match self {
            KError::Generic => 201,
            KError::Server => 202,
            KError::Protocol => 203,
            KError::Method => 204,
        }
    }

    /// The error a numeric code stands for, when any does.
    pub fn from_code(c: u64) -> (r: Option<KError>)
        ensures
            match r {
                Some(e) => c == spec_code(e),
                None => forall|e: KError| c != spec_code(e),
            },
    {
        match c {
            201 => Some(KError::Generic),
            202 => Some(KError::Server),
            203 => Some(KError::Protocol),
            204 => Some(KError::Method),
            _ => None,
        }
    }
}

/// A KRPC message: a query carrying an argument, a response carrying a
/// payload and an optional observed sender address, or an error carrying
/// a code and a text.
#[derive(Debug, Clone, PartialEq, Eq)]
pub enum KMessage<Query, Arg, Res> {
    Query { tid: KTransId, query: Query, arg: Arg },
    Response { ip: Option<KAddress>, tid: KTransId, res: Res },
    Error { ip: Option<KAddress>, tid: KTransId, code: KError, message: Vec<u8> },
}

} // verus!
