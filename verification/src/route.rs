//! A configured route: path prefix, allowed methods, and how matching
//! requests are serviced.

use vstd::prelude::*;
use vstd::string::StringSliceAdditionalSpecFns;

use crate::bytes::{
    ends_with, is_prefix, is_suffix, spec_trim_leading, starts_with, to_vec, trim_leading,
};
use crate::method::Method;

verus! {

/// A route configuration from one location block.
#[derive(Debug, Clone)]
pub struct Route {
    /// Path prefix the route matches.
    pub path: Vec<u8>,
    /// Allowed methods.
    pub methods: Vec<Method>,
    /// Filesystem root of this route, if it has its own.
    pub root: Option<Vec<u8>>,
    /// Index file name for directory requests.
    pub index: Option<Vec<u8>>,
    /// Whether directory listings are generated.
    pub autoindex: bool,
    /// Redirect target and permanence, if the route redirects.
    pub redirect: Option<(Vec<u8>, bool)>,
    /// Interpreter paths by file extension.
    pub cgi: Vec<(Vec<u8>, Vec<u8>)>,
    /// Directory uploads are written to, if uploads are allowed.
    pub upload_dir: Option<Vec<u8>>,
}

/// The abstract content of a route: every field as a mathematical value.
#[verifier::ext_equal]
pub struct RouteSpec {
    pub path: Seq<u8>,
    pub methods: Seq<Method>,
    pub root: Option<Seq<u8>>,
    pub index: Option<Seq<u8>>,
    pub autoindex: bool,
    pub redirect: Option<(Seq<u8>, bool)>,
    pub cgi: Seq<(Seq<u8>, Seq<u8>)>,
    pub upload_dir: Option<Seq<u8>>,
}

impl View for Route {
    type V = RouteSpec;

    open spec fn view(&self) -> RouteSpec {
        RouteSpec {
            path: self.path@,
            methods: self.methods@,
            root: match self.root {
                Some(r) => Some(r@),
                None => None,
            },
            index: match self.index {
                Some(ix) => Some(ix@),
                None => None,
            },
            autoindex: self.autoindex,
            redirect: match self.redirect {
                Some(rd) => Some((rd.0@, rd.1)),
                None => None,
            },
            cgi: self.cgi@.map_values(|p: (Vec<u8>, Vec<u8>)| (p.0@, p.1@)),
            upload_dir: match self.upload_dir {
                Some(d) => Some(d@),
                None => None,
            },
        }
    }
}

/// Whether a route path matches a request path: the root path matches
/// everything, any other path matches its prefix extensions.
pub open spec fn spec_route_matches(route_path: Seq<u8>, request_path: Seq<u8>) -> bool {
    route_path == seq![47u8] || is_prefix(route_path, request_path)
}

/// The request path relative to a route: the route prefix stripped when
/// present, the root route stripping nothing.
pub open spec fn spec_relative(route_path: Seq<u8>, request_path: Seq<u8>) -> Seq<u8> {
    if route_path == seq![47u8] {
        request_path
    } else if is_prefix(route_path, request_path) {
        request_path.subrange(route_path.len() as int, request_path.len() as int)
    } else {
        request_path
    }
}

/// A root joined with a relative path: leading slashes of the relative
/// part are dropped, and an empty relative part yields the root itself.
pub open spec fn spec_join(root: Seq<u8>, rel: Seq<u8>) -> Seq<u8> {
    let clean = spec_trim_leading(rel, 47);
    if clean.len() == 0 {
        root
    } else {
        root + seq![47u8] + clean
    }
}

/// The filesystem path a route with its own root resolves a request to.
pub open spec fn spec_resolve_own(root: Seq<u8>, route_path: Seq<u8>, request_path: Seq<u8>) -> Seq<
    u8,
> {
    spec_join(root, spec_relative(route_path, request_path))
}

/// The filesystem path resolution with a server root as fallback: a route
/// root strips the route prefix; the server root keeps the full path.
pub open spec fn spec_resolve_with_root(r: Route, request_path: Seq<u8>, server_root: Seq<u8>) -> Seq<
    u8,
> {
    match r.root {
        Some(own) => spec_resolve_own(own@, r.path@, request_path),
        None => spec_join(server_root, request_path),
    }
}

/// The first configured interpreter whose extension ends the path.
pub open spec fn cgi_scan(cgis: Seq<(Vec<u8>, Vec<u8>)>, p: Seq<u8>, i: int) -> Option<Seq<u8>>
    decreases cgis.len() - i,
{
    if i < 0 || i >= cgis.len() {
        None
    } else if is_suffix(cgis[i].0@, p) {
        Some(cgis[i].1@)
    } else {
        cgi_scan(cgis, p, i + 1)
    }
}

impl Route {
    /// Creates a route with default settings: GET only, an `index.html`
    /// index, no own root, no redirect, no uploads.
    pub fn new(path: &[u8]) -> (r: Route)
        ensures
            r.path@ == path@,
            r.methods@ == seq![Method::Get],
            r.root is None,
            r.index matches Some(ix) && ix@ == "index.html".spec_bytes(),
            !r.autoindex,
            r.redirect is None,
            r.cgi@.len() == 0,
            r.upload_dir is None,
    {
        let mut methods: Vec<Method> = Vec::new();
        methods.push(Method::Get);
        proof {
            assert(methods@ =~= seq![Method::Get]);
        }
        Route {
            path: to_vec(path),
            methods,
            root: None,
            index: Some(to_vec("index.html".as_bytes())),
            autoindex: false,
            redirect: None,
            cgi: Vec::new(),
            upload_dir: None,
        }
    }

    /// Whether a method is allowed on this route.
    pub fn is_method_allowed(&self, method: &Method) -> (r: bool)
        ensures
            r == self.methods@.contains(*method),
    {
        let mut i: usize = 0;
        while i < self.methods.len()
            invariant
                i <= self.methods@.len(),
                forall|j: int| 0 <= j < i ==> self.methods@[j] != *method,
            decreases self.methods@.len() - i,
        {
            if self.methods[i] == *method {
                return true;
            }
            i = i + 1;
        }
        false
    }

    /// Whether the request path matches this route.
    pub fn matches(&self, request_path: &[u8]) -> (r: bool)
        ensures
            r == spec_route_matches(self.path@, request_path@),
    {
        let mut slash: Vec<u8> = Vec::new();
        slash.push(47);
        proof {
            assert(slash@ =~= seq![47u8]);
        }
        if crate::bytes::bytes_eq(self.path.as_slice(), slash.as_slice()) {
            return true;
        }
        starts_with(request_path, self.path.as_slice())
    }

    /// Resolves a request path against this route's own root, if it has
    /// one: the route prefix is stripped and the rest joined to the root.
    pub fn resolve_path(&self, request_path: &[u8]) -> (r: Option<Vec<u8>>)
        ensures
            match r {
                Some(p) => self.root matches Some(own) && p@ == spec_resolve_own(
                    own@,
                    self.path@,
                    request_path@,
                ),
                None => self.root is None,
            },
    {
        let own = match &self.root {
            Some(own) => own,
            None => {
                return None;
            },
        };
        Some(self.join_relative(own, request_path))
    }

    /// Joins the route-relative remainder of `request_path` to `root`.
    fn join_relative(&self, root: &Vec<u8>, request_path: &[u8]) -> (r: Vec<u8>)
        ensures
            r@ == spec_resolve_own(root@, self.path@, request_path@),
    {
        let mut slash: Vec<u8> = Vec::new();
        slash.push(47);
        proof {
            assert(slash@ =~= seq![47u8]);
        }
        let rplen = request_path.len();
        let rel: Vec<u8> = if crate::bytes::bytes_eq(self.path.as_slice(), slash.as_slice()) {
            to_vec(request_path)
        } else if starts_with(request_path, self.path.as_slice()) {
            let v = to_vec(&request_path[self.path.len()..rplen]);
            proof {
                assert(v@ =~= request_path@.subrange(
                    self.path@.len() as int,
                    request_path@.len() as int,
                ));
            }
            v
        } else {
            to_vec(request_path)
        };
        let clean = trim_leading(rel.as_slice(), 47);
        if clean.len() == 0 {
            to_vec(root.as_slice())
        } else {
            let mut out = to_vec(root.as_slice());
            out.push(47);
            out.extend_from_slice(clean.as_slice());
            proof {
                assert(out@ =~= root@ + seq![47u8] + spec_trim_leading(
                    spec_relative(self.path@, request_path@),
                    47,
                ));
            }
            out
        }
    }

    /// Resolves a request path, falling back to the server root when the
    /// route has none of its own.
    pub fn resolve_path_with_root(&self, request_path: &[u8], server_root: &[u8]) -> (r: Vec<u8>)
        ensures
            r@ == spec_resolve_with_root(*self, request_path@, server_root@),
    {
        match &self.root {
            Some(own) => self.join_relative(own, request_path),
            None => {
                let clean = trim_leading(request_path, 47);
                if clean.len() == 0 {
                    to_vec(server_root)
                } else {
                    let mut out = to_vec(server_root);
                    out.push(47);
                    out.extend_from_slice(clean.as_slice());
                    proof {
                        assert(out@ =~= server_root@ + seq![47u8] + spec_trim_leading(
                            request_path@,
                            47,
                        ));
                    }
                    out
                }
            },
        }
    }

    /// The configured interpreter for the path's extension, if any.
    pub fn get_cgi_handler(&self, path: &[u8]) -> (r: Option<Vec<u8>>)
        ensures
            match r {
                Some(h) => cgi_scan(self.cgi@, path@, 0) == Some(h@),
                None => cgi_scan(self.cgi@, path@, 0) == None::<Seq<u8>>,
            },
    {
        let mut i: usize = 0;
        while i < self.cgi.len()
            invariant
                i <= self.cgi@.len(),
                cgi_scan(self.cgi@, path@, 0) == cgi_scan(self.cgi@, path@, i as int),
            decreases self.cgi@.len() - i,
    {
            if ends_with(path, self.cgi[i].0.as_slice()) {
                return Some(to_vec(self.cgi[i].1.as_slice()));
            }
            i = i + 1;
        }
        None
    }

    /// Whether this route redirects.
    pub fn has_redirect(&self) -> (r: bool)
        ensures
            r == (self.redirect is Some),
    {
        self.redirect.is_some()
    }
}

} // verus!
