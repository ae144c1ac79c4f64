//! Redirect responses with a small HTML body for clients that do not
//! follow redirects.

use vstd::prelude::*;
use vstd::string::StringSliceAdditionalSpecFns;

use crate::bytes::dec_str;
use crate::headers::{lemma_get_set_other, spec_content_length, spec_get};
use crate::response::{lemma_response_tokens, Response};
use crate::status::{spec_code, spec_reason, StatusCode};

verus! {

/// The HTML body of a 301 or 302 redirect: a refresh hint and a link.
pub open spec fn redirect_body(status: StatusCode, loc: Seq<u8>) -> Seq<u8> {
    "<!DOCTYPE html>\n<html>\n<head>\n<title>Redirect</title>\n<meta http-equiv=\"refresh\" content=\"0; url=".spec_bytes()
        + loc + "\">\n</head>\n<body>\n<h1>".spec_bytes() + dec_str(spec_code(status) as nat)
        + seq![32u8] + spec_reason(status)
        + "</h1>\n<p>Redirecting to <a href=\"".spec_bytes() + loc + "\">".spec_bytes() + loc
        + "</a></p>\n</body>\n</html>".spec_bytes()
}

/// The HTML body of a 307 or 308 redirect: a heading and a link.
pub open spec fn preserve_body(heading: Seq<u8>, loc: Seq<u8>) -> Seq<u8> {
    heading + "<p>Redirecting to <a href=\"".spec_bytes() + loc + "\">".spec_bytes() + loc
        + "</a></p>\n</body>\n</html>".spec_bytes()
}

/// Builders for redirect responses.
pub struct Redirect;

impl Redirect {
    /// A 301 or 302 response with `location` set and an HTML body.
    pub fn to(location: &[u8], permanent: bool) -> (r: Response)
        ensures
            r.status == (if permanent {
                StatusCode::MovedPermanently
            } else {
                StatusCode::Found
            }),
            spec_get(r.headers@, "location".spec_bytes()) == Some(location@),
            spec_get(r.headers@, "content-type".spec_bytes()) == Some(
                "text/html; charset=utf-8".spec_bytes(),
            ),
            r.body@ == redirect_body(r.status, location@),
            spec_content_length(r.headers@) == Some(r.body@.len() as int),
            r.headers.wf(),
    {
        let resp = Response::redirect(location, permanent);
        let status = resp.status;
        let mut body: Vec<u8> = Vec::new();
        body.extend_from_slice(
            "<!DOCTYPE html>\n<html>\n<head>\n<title>Redirect</title>\n<meta http-equiv=\"refresh\" content=\"0; url=".as_bytes(),
        );
        body.extend_from_slice(location);
        body.extend_from_slice("\">\n</head>\n<body>\n<h1>".as_bytes());
        let code = crate::bytes::fmt_dec(status.code() as u64);
        body.extend_from_slice(code.as_slice());
        body.push(32);
        body.extend_from_slice(status.reason().as_bytes());
        body.extend_from_slice("</h1>\n<p>Redirecting to <a href=\"".as_bytes());
        body.extend_from_slice(location);
        body.extend_from_slice("\">".as_bytes());
        body.extend_from_slice(location);
        body.extend_from_slice("</a></p>\n</body>\n</html>".as_bytes());
        proof {
            assert(body@ =~= redirect_body(status, location@));
            lemma_response_tokens();
            lemma_get_set_other(
                resp.headers@,
                "content-type".spec_bytes(),
                "text/html; charset=utf-8".spec_bytes(),
                "location".spec_bytes(),
            );
        }
        let with_ct = resp.content_type("text/html; charset=utf-8".as_bytes());
        proof {
            lemma_get_set_other(
                with_ct.headers@,
                "content-length".spec_bytes(),
                dec_str(body@.len()),
                "location".spec_bytes(),
            );
            lemma_get_set_other(
                with_ct.headers@,
                "content-length".spec_bytes(),
                dec_str(body@.len()),
                "content-type".spec_bytes(),
            );
        }
        with_ct.body(body)
    }

    /// A 301 redirect.
    pub fn permanent(location: &[u8]) -> (r: Response)
        ensures
            r.status == StatusCode::MovedPermanently,
            spec_get(r.headers@, "location".spec_bytes()) == Some(location@),
            r.body@ == redirect_body(StatusCode::MovedPermanently, location@),
            r.headers.wf(),
    {
        Self::to(location, true)
    }

    /// A 302 redirect.
    pub fn temporary(location: &[u8]) -> (r: Response)
        ensures
            r.status == StatusCode::Found,
            spec_get(r.headers@, "location".spec_bytes()) == Some(location@),
            r.body@ == redirect_body(StatusCode::Found, location@),
            r.headers.wf(),
    {
        Self::to(location, false)
    }

    /// A 307 redirect, preserving the request method.
    pub fn temporary_preserve_method(location: &[u8]) -> (r: Response)
        ensures
            r.status == StatusCode::TemporaryRedirect,
            spec_get(r.headers@, "location".spec_bytes()) == Some(location@),
            r.body@ == preserve_body(
                "<!DOCTYPE html>\n<html>\n<head><title>Temporary Redirect</title></head>\n<body>\n<h1>307 Temporary Redirect</h1>\n".spec_bytes(),
                location@,
            ),
            spec_content_length(r.headers@) == Some(r.body@.len() as int),
            r.headers.wf(),
    {
        Self::preserve(
            location,
            StatusCode::TemporaryRedirect,
            "<!DOCTYPE html>\n<html>\n<head><title>Temporary Redirect</title></head>\n<body>\n<h1>307 Temporary Redirect</h1>\n",
        )
    }

    /// A 308 redirect, preserving the request method.
    pub fn permanent_preserve_method(location: &[u8]) -> (r: Response)
        ensures
            r.status == StatusCode::PermanentRedirect,
            spec_get(r.headers@, "location".spec_bytes()) == Some(location@),
            r.body@ == preserve_body(
                "<!DOCTYPE html>\n<html>\n<head><title>Permanent Redirect</title></head>\n<body>\n<h1>308 Permanent Redirect</h1>\n".spec_bytes(),
                location@,
            ),
            spec_content_length(r.headers@) == Some(r.body@.len() as int),
            r.headers.wf(),
    {
        Self::preserve(
            location,
            StatusCode::PermanentRedirect,
            "<!DOCTYPE html>\n<html>\n<head><title>Permanent Redirect</title></head>\n<body>\n<h1>308 Permanent Redirect</h1>\n",
        )
    }

    /// Builds a method-preserving redirect with the given heading.
    fn preserve(location: &[u8], status: StatusCode, heading: &str) -> (r: Response)
        ensures
            r.status == status,
            spec_get(r.headers@, "location".spec_bytes()) == Some(location@),
            r.body@ == preserve_body(heading.spec_bytes(), location@),
            spec_content_length(r.headers@) == Some(r.body@.len() as int),
            r.headers.wf(),
    {
        proof {
            lemma_response_tokens();
            crate::headers::lemma_get_set(
                crate::response::fresh_headers(),
                "location".spec_bytes(),
                location@,
            );
        }
        let mut resp = Response::new(status);
        resp.headers.set("Location".as_bytes(), location);
        let mut body: Vec<u8> = Vec::new();
        body.extend_from_slice(heading.as_bytes());
        body.extend_from_slice("<p>Redirecting to <a href=\"".as_bytes());
        body.extend_from_slice(location);
        body.extend_from_slice("\">".as_bytes());
        body.extend_from_slice(location);
        body.extend_from_slice("</a></p>\n</body>\n</html>".as_bytes());
        proof {
            assert(body@ =~= preserve_body(heading.spec_bytes(), location@));
            lemma_get_set_other(
                resp.headers@,
                "content-type".spec_bytes(),
                "text/html; charset=utf-8".spec_bytes(),
                "location".spec_bytes(),
            );
        }
        let with_ct = resp.content_type("text/html; charset=utf-8".as_bytes());
        proof {
            lemma_get_set_other(
                with_ct.headers@,
                "content-length".spec_bytes(),
                dec_str(body@.len()),
                "location".spec_bytes(),
            );
        }
        with_ct.body(body)
    }
}

} // verus!
