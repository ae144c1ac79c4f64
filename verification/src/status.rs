//! The closed set of response status codes.

use vstd::prelude::*;
use vstd::string::StringSliceAdditionalSpecFns;

verus! {

/// Status codes the server can emit.
#[derive(Debug, Clone, Copy, PartialEq, Eq, Structural)]
pub enum StatusCode {
    Okay,
    Created,
    NoContent,
    MovedPermanently,
    Found,
    NotModified,
    TemporaryRedirect,
    PermanentRedirect,
    BadRequest,
    Forbidden,
    NotFound,
    MethodNotAllowed,
    RequestTimeout,
    PayloadTooLarge,
    InternalServerError,
    NotImplemented,
    BadGateway,
    ServiceUnavailable,
}

/// The numeric code of a status.
pub open spec fn spec_code(s: StatusCode) -> u16 {
    match s {
        StatusCode::Okay => 200,
        StatusCode::Created => 201,
        StatusCode::NoContent => 204,
        StatusCode::MovedPermanently => 301,
        StatusCode::Found => 302,
        StatusCode::NotModified => 304,
        StatusCode::TemporaryRedirect => 307,
        StatusCode::PermanentRedirect => 308,
        StatusCode::BadRequest => 400,
        StatusCode::Forbidden => 403,
        StatusCode::NotFound => 404,
        StatusCode::MethodNotAllowed => 405,
        StatusCode::RequestTimeout => 408,
        StatusCode::PayloadTooLarge => 413,
        StatusCode::InternalServerError => 500,
        StatusCode::NotImplemented => 501,
        StatusCode::BadGateway => 502,
        StatusCode::ServiceUnavailable => 503,
    }
}

/// The reason phrase of a status, as bytes.
pub open spec fn spec_reason(s: StatusCode) -> Seq<u8> {
    match s {
        StatusCode::Okay => "OK".spec_bytes(),
        StatusCode::Created => "Created".spec_bytes(),
        StatusCode::NoContent => "No Content".spec_bytes(),
        StatusCode::MovedPermanently => "Moved Permanently".spec_bytes(),
        StatusCode::Found => "Found".spec_bytes(),
        StatusCode::NotModified => "Not Modified".spec_bytes(),
        StatusCode::TemporaryRedirect => "Temporary Redirect".spec_bytes(),
        StatusCode::PermanentRedirect => "Permanent Redirect".spec_bytes(),
        StatusCode::BadRequest => "Bad Request".spec_bytes(),
        StatusCode::Forbidden => "Forbidden".spec_bytes(),
        StatusCode::NotFound => "Not Found".spec_bytes(),
        StatusCode::MethodNotAllowed => "Method Not Allowed".spec_bytes(),
        StatusCode::RequestTimeout => "Request Timeout".spec_bytes(),
        StatusCode::PayloadTooLarge => "Payload Too Large".spec_bytes(),
        StatusCode::InternalServerError => "Internal Server Error".spec_bytes(),
        StatusCode::NotImplemented => "Not Implemented".spec_bytes(),
        StatusCode::BadGateway => "Bad Gateway".spec_bytes(),
        StatusCode::ServiceUnavailable => "Service Unavailable".spec_bytes(),
    }
}

/// The status carrying a numeric code, if the code is in the supported set.
pub open spec fn spec_from_code(code: u16) -> Option<StatusCode> {
    if code == 200 {
        Some(StatusCode::Okay)
    } else if code == 201 {
        Some(StatusCode::Created)
    } else if code == 204 {
        Some(StatusCode::NoContent)
    } else if code == 301 {
        Some(StatusCode::MovedPermanently)
    } else if code == 302 {
        Some(StatusCode::Found)
    } else if code == 304 {
        Some(StatusCode::NotModified)
    } else if code == 307 {
        Some(StatusCode::TemporaryRedirect)
    } else if code == 308 {
        Some(StatusCode::PermanentRedirect)
    } else if code == 400 {
        Some(StatusCode::BadRequest)
    } else if code == 403 {
        Some(StatusCode::Forbidden)
    } else if code == 404 {
        Some(StatusCode::NotFound)
    } else if code == 405 {
        Some(StatusCode::MethodNotAllowed)
    } else if code == 408 {
        Some(StatusCode::RequestTimeout)
    } else if code == 413 {
        Some(StatusCode::PayloadTooLarge)
    } else if code == 500 {
        Some(StatusCode::InternalServerError)
    } else if code == 501 {
        Some(StatusCode::NotImplemented)
    } else if code == 502 {
        Some(StatusCode::BadGateway)
    } else if code == 503 {
        Some(StatusCode::ServiceUnavailable)
    } else {
        None
    }
}

/// Reason phrases are non-empty and free of CR and LF.
pub proof fn lemma_reason_wire_safe(s: StatusCode)
    ensures
        spec_reason(s).len() > 0,
        forall|i: int|
            0 <= i < spec_reason(s).len() ==> (#[trigger] spec_reason(s)[i]) != 13 && spec_reason(
                s,
            )[i] != 10,
{
    reveal_strlit("OK");
    reveal_strlit("Created");
    reveal_strlit("No Content");
    reveal_strlit("Moved Permanently");
    reveal_strlit("Found");
    reveal_strlit("Not Modified");
    reveal_strlit("Temporary Redirect");
    reveal_strlit("Permanent Redirect");
    reveal_strlit("Bad Request");
    reveal_strlit("Forbidden");
    reveal_strlit("Not Found");
    reveal_strlit("Method Not Allowed");
    reveal_strlit("Request Timeout");
    reveal_strlit("Payload Too Large");
    reveal_strlit("Internal Server Error");
    reveal_strlit("Not Implemented");
    reveal_strlit("Bad Gateway");
    reveal_strlit("Service Unavailable");
    vstd::string::is_ascii_spec_bytes("OK");
    vstd::string::is_ascii_spec_bytes("Created");
    vstd::string::is_ascii_spec_bytes("No Content");
    vstd::string::is_ascii_spec_bytes("Moved Permanently");
    vstd::string::is_ascii_spec_bytes("Found");
    vstd::string::is_ascii_spec_bytes("Not Modified");
    vstd::string::is_ascii_spec_bytes("Temporary Redirect");
    vstd::string::is_ascii_spec_bytes("Permanent Redirect");
    vstd::string::is_ascii_spec_bytes("Bad Request");
    vstd::string::is_ascii_spec_bytes("Forbidden");
    vstd::string::is_ascii_spec_bytes("Not Found");
    vstd::string::is_ascii_spec_bytes("Method Not Allowed");
    vstd::string::is_ascii_spec_bytes("Request Timeout");
    vstd::string::is_ascii_spec_bytes("Payload Too Large");
    vstd::string::is_ascii_spec_bytes("Internal Server Error");
    vstd::string::is_ascii_spec_bytes("Not Implemented");
    vstd::string::is_ascii_spec_bytes("Bad Gateway");
    vstd::string::is_ascii_spec_bytes("Service Unavailable");
}

impl StatusCode {
    /// Returns the numeric status code.
    pub fn code(&self) -> (r: u16)
        ensures
            r == spec_code(*self),
    {
        match self {
            StatusCode::Okay => 200,
            StatusCode::Created => 201,
            StatusCode::NoContent => 204,
            StatusCode::MovedPermanently => 301,
            StatusCode::Found => 302,
            StatusCode::NotModified => 304,
            StatusCode::TemporaryRedirect => 307,
            StatusCode::PermanentRedirect => 308,
            StatusCode::BadRequest => 400,
            StatusCode::Forbidden => 403,
            StatusCode::NotFound => 404,
            StatusCode::MethodNotAllowed => 405,
            StatusCode::RequestTimeout => 408,
            StatusCode::PayloadTooLarge => 413,
            StatusCode::InternalServerError => 500,
            StatusCode::NotImplemented => 501,
            StatusCode::BadGateway => 502,
            StatusCode::ServiceUnavailable => 503,
        }
    }

    /// Returns the reason phrase of the status.
    pub fn reason(&self) -> (r: &'static str)
        ensures
            r.spec_bytes() == spec_reason(*self),
    {
        match self {
            StatusCode::Okay => "OK",
            StatusCode::Created => "Created",
            StatusCode::NoContent => "No Content",
            StatusCode::MovedPermanently => "Moved Permanently",
            StatusCode::Found => "Found",
            StatusCode::NotModified => "Not Modified",
            StatusCode::TemporaryRedirect => "Temporary Redirect",
            StatusCode::PermanentRedirect => "Permanent Redirect",
            StatusCode::BadRequest => "Bad Request",
            StatusCode::Forbidden => "Forbidden",
            StatusCode::NotFound => "Not Found",
            StatusCode::MethodNotAllowed => "Method Not Allowed",
            StatusCode::RequestTimeout => "Request Timeout",
            StatusCode::PayloadTooLarge => "Payload Too Large",
            StatusCode::InternalServerError => "Internal Server Error",
            StatusCode::NotImplemented => "Not Implemented",
            StatusCode::BadGateway => "Bad Gateway",
            StatusCode::ServiceUnavailable => "Service Unavailable",
        }
    }

    /// Maps a numeric code into the supported set.
    pub fn from_code(code: u16) -> (r: Option<StatusCode>)
        ensures
            r == spec_from_code(code),
            r matches Some(s) ==> spec_code(s) == code,
            r is None ==> forall|s: StatusCode| spec_code(s) != code,
    {
        proof {
            assert forall|s: StatusCode| spec_from_code(code) is None implies spec_code(s)
                != code by {}
        }
        if code == 200 {
            Some(StatusCode::Okay)
        } else if code == 201 {
            Some(StatusCode::Created)
        } else if code == 204 {
            Some(StatusCode::NoContent)
        } else if code == 301 {
            Some(StatusCode::MovedPermanently)
        } else if code == 302 {
            Some(StatusCode::Found)
        } else if code == 304 {
            Some(StatusCode::NotModified)
        } else if code == 307 {
            Some(StatusCode::TemporaryRedirect)
        } else if code == 308 {
            Some(StatusCode::PermanentRedirect)
        } else if code == 400 {
            Some(StatusCode::BadRequest)
        } else if code == 403 {
            Some(StatusCode::Forbidden)
        } else if code == 404 {
            Some(StatusCode::NotFound)
        } else if code == 405 {
            Some(StatusCode::MethodNotAllowed)
        } else if code == 408 {
            Some(StatusCode::RequestTimeout)
        } else if code == 413 {
            Some(StatusCode::PayloadTooLarge)
        } else if code == 500 {
            Some(StatusCode::InternalServerError)
        } else if code == 501 {
            Some(StatusCode::NotImplemented)
        } else if code == 502 {
            Some(StatusCode::BadGateway)
        } else if code == 503 {
            Some(StatusCode::ServiceUnavailable)
        } else {
            None
        }
    }
}

} // verus!
