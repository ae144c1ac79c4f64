//! Error kinds shared by the codec, the router and the connection layer.

use vstd::prelude::*;

verus! {

/// The error kinds the server core distinguishes.  Payloads hold a short
/// diagnostic message as bytes.
#[derive(Debug, Clone)]
pub enum ServerError {
    /// An I/O failure reported by the embedding program.
    Io(Vec<u8>),
    /// A configuration file could not be understood.
    Config(Vec<u8>),
    /// Request bytes could not be parsed.
    Parse(Vec<u8>),
    /// A connection sat idle past its deadline.
    Timeout,
    /// A request body exceeded the configured limit.
    BodyTooLarge,
    /// The method is not allowed on the matched route.
    MethodNotAllowed,
    /// The target does not exist.
    NotFound,
    /// The target may not be touched.
    Forbidden,
    /// The request is malformed.
    BadRequest(Vec<u8>),
    /// An unexpected internal failure.
    Internal(Vec<u8>),
    /// A gateway script failed.
    Cgi(Vec<u8>),
}

} // verus!
