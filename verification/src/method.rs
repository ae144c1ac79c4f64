//! The closed set of request methods.

use vstd::prelude::*;
use vstd::string::StringSliceAdditionalSpecFns;

use crate::bytes::lower;

verus! {

/// HTTP request methods understood by the server.
#[derive(Debug, Clone, Copy, PartialEq, Eq, Hash, Structural)]
pub enum Method {
    Get,
    Post,
    Delete,
    Head,
    Put,
    Options,
}

/// The canonical (uppercase) name of a method, as bytes.
pub open spec fn method_name(m: Method) -> Seq<u8> {
    match m {
        Method::Get => "GET".spec_bytes(),
        Method::Post => "POST".spec_bytes(),
        Method::Delete => "DELETE".spec_bytes(),
        Method::Head => "HEAD".spec_bytes(),
        Method::Put => "PUT".spec_bytes(),
        Method::Options => "OPTIONS".spec_bytes(),
    }
}

/// The method whose name case-folds to the given bytes, if any.
pub open spec fn spec_parse_method(s: Seq<u8>) -> Option<Method> {
    if lower(s) == "get".spec_bytes() {
        Some(Method::Get)
    } else if lower(s) == "post".spec_bytes() {
        Some(Method::Post)
    } else if lower(s) == "delete".spec_bytes() {
        Some(Method::Delete)
    } else if lower(s) == "head".spec_bytes() {
        Some(Method::Head)
    } else if lower(s) == "put".spec_bytes() {
        Some(Method::Put)
    } else if lower(s) == "options".spec_bytes() {
        Some(Method::Options)
    } else {
        None
    }
}

/// The lowercase method names are stable under case folding, and are the
/// case foldings of the canonical names.
pub proof fn lemma_method_tokens()
    ensures
        lower("get".spec_bytes()) == "get".spec_bytes(),
        lower("post".spec_bytes()) == "post".spec_bytes(),
        lower("delete".spec_bytes()) == "delete".spec_bytes(),
        lower("head".spec_bytes()) == "head".spec_bytes(),
        lower("put".spec_bytes()) == "put".spec_bytes(),
        lower("options".spec_bytes()) == "options".spec_bytes(),
        lower("GET".spec_bytes()) == "get".spec_bytes(),
        lower("POST".spec_bytes()) == "post".spec_bytes(),
        lower("DELETE".spec_bytes()) == "delete".spec_bytes(),
        lower("HEAD".spec_bytes()) == "head".spec_bytes(),
        lower("PUT".spec_bytes()) == "put".spec_bytes(),
        lower("OPTIONS".spec_bytes()) == "options".spec_bytes(),
{
    reveal_strlit("get");
    reveal_strlit("post");
    reveal_strlit("delete");
    reveal_strlit("head");
    reveal_strlit("put");
    reveal_strlit("options");
    reveal_strlit("GET");
    reveal_strlit("POST");
    reveal_strlit("DELETE");
    reveal_strlit("HEAD");
    reveal_strlit("PUT");
    reveal_strlit("OPTIONS");
    vstd::string::is_ascii_spec_bytes("get");
    vstd::string::is_ascii_spec_bytes("post");
    vstd::string::is_ascii_spec_bytes("delete");
    vstd::string::is_ascii_spec_bytes("head");
    vstd::string::is_ascii_spec_bytes("put");
    vstd::string::is_ascii_spec_bytes("options");
    vstd::string::is_ascii_spec_bytes("GET");
    vstd::string::is_ascii_spec_bytes("POST");
    vstd::string::is_ascii_spec_bytes("DELETE");
    vstd::string::is_ascii_spec_bytes("HEAD");
    vstd::string::is_ascii_spec_bytes("PUT");
    vstd::string::is_ascii_spec_bytes("OPTIONS");
    assert(lower("get".spec_bytes()) =~= "get".spec_bytes());
    assert(lower("post".spec_bytes()) =~= "post".spec_bytes());
    assert(lower("delete".spec_bytes()) =~= "delete".spec_bytes());
    assert(lower("head".spec_bytes()) =~= "head".spec_bytes());
    assert(lower("put".spec_bytes()) =~= "put".spec_bytes());
    assert(lower("options".spec_bytes()) =~= "options".spec_bytes());
    assert(lower("GET".spec_bytes()) =~= "get".spec_bytes());
    assert(lower("POST".spec_bytes()) =~= "post".spec_bytes());
    assert(lower("DELETE".spec_bytes()) =~= "delete".spec_bytes());
    assert(lower("HEAD".spec_bytes()) =~= "head".spec_bytes());
    assert(lower("PUT".spec_bytes()) =~= "put".spec_bytes());
    assert(lower("OPTIONS".spec_bytes()) =~= "options".spec_bytes());
}

/// The canonical name of a method parses back to the method, is
/// non-empty, and holds no whitespace.
pub proof fn lemma_parse_method_name(m: Method)
    ensures
        spec_parse_method(method_name(m)) == Some(m),
        method_name(m).len() > 0,
        forall|i: int|
            0 <= i < method_name(m).len() ==> !crate::bytes::is_ws(#[trigger] method_name(m)[i])
                && method_name(m)[i] < 128,
{
    lemma_method_tokens();
    reveal_strlit("GET");
    reveal_strlit("POST");
    reveal_strlit("DELETE");
    reveal_strlit("HEAD");
    reveal_strlit("PUT");
    reveal_strlit("OPTIONS");
    reveal_strlit("get");
    reveal_strlit("post");
    reveal_strlit("delete");
    reveal_strlit("head");
    reveal_strlit("put");
    reveal_strlit("options");
    vstd::string::is_ascii_spec_bytes("GET");
    vstd::string::is_ascii_spec_bytes("POST");
    vstd::string::is_ascii_spec_bytes("DELETE");
    vstd::string::is_ascii_spec_bytes("HEAD");
    vstd::string::is_ascii_spec_bytes("PUT");
    vstd::string::is_ascii_spec_bytes("OPTIONS");
    vstd::string::is_ascii_spec_bytes("get");
    vstd::string::is_ascii_spec_bytes("post");
    vstd::string::is_ascii_spec_bytes("delete");
    vstd::string::is_ascii_spec_bytes("head");
    vstd::string::is_ascii_spec_bytes("put");
    vstd::string::is_ascii_spec_bytes("options");
    assert("post".spec_bytes()[0] != "get".spec_bytes()[0]);
    assert("head".spec_bytes()[0] != "get".spec_bytes()[0]);
    assert("head".spec_bytes()[0] != "post".spec_bytes()[0]);
    assert("put".spec_bytes()[0] != "get".spec_bytes()[0]);
    assert("put".spec_bytes()[1] != "post".spec_bytes()[1]);
    assert("put".spec_bytes()[0] != "head".spec_bytes()[0]);
    assert("get".spec_bytes().len() == 3);
    assert("post".spec_bytes().len() == 4);
    assert("delete".spec_bytes().len() == 6);
    assert("head".spec_bytes().len() == 4);
    assert("put".spec_bytes().len() == 3);
    assert("options".spec_bytes().len() == 7);
}

impl Method {
    /// Returns the canonical name of the method.
    pub fn as_str(&self) -> (r: &'static str)
        ensures
            r.spec_bytes() == method_name(*self),
    {
        match self {
            Method::Get => "GET",
            Method::Post => "POST",
            Method::Delete => "DELETE",
            Method::Head => "HEAD",
            Method::Put => "PUT",
            Method::Options => "OPTIONS",
        }
    }

    /// Parses a method name, ignoring ASCII case.
    pub fn from_bytes(s: &[u8]) -> (r: Option<Method>)
        ensures
            r == spec_parse_method(s@),
    {
        proof {
            lemma_method_tokens();
        }
        if crate::bytes::eq_ignore_case(s, "get".as_bytes()) {
            Some(Method::Get)
        } else if crate::bytes::eq_ignore_case(s, "post".as_bytes()) {
            Some(Method::Post)
        } else if crate::bytes::eq_ignore_case(s, "delete".as_bytes()) {
            Some(Method::Delete)
        } else if crate::bytes::eq_ignore_case(s, "head".as_bytes()) {
            Some(Method::Head)
        } else if crate::bytes::eq_ignore_case(s, "put".as_bytes()) {
            Some(Method::Put)
        } else if crate::bytes::eq_ignore_case(s, "options".as_bytes()) {
            Some(Method::Options)
        } else {
            None
        }
    }
}

} // verus!
