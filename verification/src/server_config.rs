//! Per-server configuration and the whole-configuration container.

use vstd::prelude::*;
use vstd::string::StringSliceAdditionalSpecFns;

use crate::bytes::{bytes_eq, find_byte, index_of, lemma_find_byte_props, to_vec};
use crate::route::{spec_route_matches, Route};

verus! {

/// Configuration of one virtual server.
#[derive(Debug, Clone)]
pub struct ServerConfig {
    /// Name used for virtual hosting.
    pub server_name: Vec<u8>,
    /// Address to bind.
    pub host: Vec<u8>,
    /// Ports to listen on.
    pub ports: Vec<u16>,
    /// Filesystem root for this server.
    pub root: Vec<u8>,
    /// Largest accepted request body, in bytes.
    pub client_max_body_size: usize,
    /// Error page path per status code.
    pub error_pages: Vec<(u16, Vec<u8>)>,
    /// Routes, in configuration order.
    pub routes: Vec<Route>,
    /// Inactivity timeout, in seconds.
    pub timeout: u64,
}

/// The abstract content of a server configuration.
#[verifier::ext_equal]
pub struct ServerSpec {
    pub server_name: Seq<u8>,
    pub host: Seq<u8>,
    pub ports: Seq<u16>,
    pub root: Seq<u8>,
    pub client_max_body_size: int,
    pub error_pages: Seq<(u16, Seq<u8>)>,
    pub routes: Seq<crate::route::RouteSpec>,
    pub timeout: int,
}

/// The abstract content of an error-page list.
pub open spec fn eps_view(s: Seq<(u16, Vec<u8>)>) -> Seq<(u16, Seq<u8>)> {
    s.map_values(|p: (u16, Vec<u8>)| (p.0, p.1@))
}

impl View for ServerConfig {
    type V = ServerSpec;

    open spec fn view(&self) -> ServerSpec {
        ServerSpec {
            server_name: self.server_name@,
            host: self.host@,
            ports: self.ports@,
            root: self.root@,
            client_max_body_size: self.client_max_body_size as int,
            error_pages: eps_view(self.error_pages@),
            routes: self.routes@.map_values(|r: Route| r@),
            timeout: self.timeout as int,
        }
    }
}

/// Index of the best route for a path: among matching routes, the one
/// with the longest path, later routes winning ties.
pub open spec fn best_route_scan(rs: Seq<Route>, p: Seq<u8>, i: int, cur: Option<int>) -> Option<
    int,
>
    decreases rs.len() - i,
{
    if i < 0 || i >= rs.len() {
        cur
    } else {
        let cur2 = if spec_route_matches(rs[i].path@, p) && (match cur {
            Some(c) => !(0 <= c < rs.len()) || rs[i].path@.len() >= rs[c].path@.len(),
            None => true,
        }) {
            Some(i)
        } else {
            cur
        };
        best_route_scan(rs, p, i + 1, cur2)
    }
}

/// Index of the route serving a path, if any matches.
pub open spec fn spec_find_route(rs: Seq<Route>, p: Seq<u8>) -> Option<int> {
    best_route_scan(rs, p, 0, None)
}

/// Route selection is deterministic, picks only matching routes, and the
/// longest matching prefix wins.
pub proof fn lemma_find_route_longest(rs: Seq<Route>, p: Seq<u8>)
    ensures
        match spec_find_route(rs, p) {
            Some(i) => 0 <= i < rs.len() && spec_route_matches(rs[i].path@, p) && forall|j: int|
                0 <= j < rs.len() && spec_route_matches(rs[j].path@, p) ==> (#[trigger] rs[j].path@).len()
                    <= rs[i].path@.len(),
            None => forall|j: int|
                0 <= j < rs.len() ==> !spec_route_matches((#[trigger] rs[j].path@), p),
        },
{
    lemma_best_route_scan(rs, p, 0, None);
}

proof fn lemma_best_route_scan(rs: Seq<Route>, p: Seq<u8>, i: int, cur: Option<int>)
    requires
        0 <= i,
        match cur {
            Some(c) => 0 <= c < rs.len() && spec_route_matches(rs[c].path@, p) && forall|j: int|
                0 <= j < i && spec_route_matches(rs[j].path@, p) ==> (#[trigger] rs[j].path@).len()
                    <= rs[c].path@.len(),
            None => forall|j: int|
                0 <= j < i && j < rs.len() ==> !spec_route_matches((#[trigger] rs[j].path@), p),
        },
    ensures
        match best_route_scan(rs, p, i, cur) {
            Some(c) => 0 <= c < rs.len() && spec_route_matches(rs[c].path@, p) && forall|j: int|
                0 <= j < rs.len() && spec_route_matches(rs[j].path@, p) ==> (#[trigger] rs[j].path@).len()
                    <= rs[c].path@.len(),
            None => forall|j: int|
                0 <= j < rs.len() ==> !spec_route_matches((#[trigger] rs[j].path@), p),
        },
    decreases rs.len() - i,
{
    if i < rs.len() {
        let cur2 = if spec_route_matches(rs[i].path@, p) && (match cur {
            Some(c) => !(0 <= c < rs.len()) || rs[i].path@.len() >= rs[c].path@.len(),
            None => true,
        }) {
            Some(i)
        } else {
            cur
        };
        lemma_best_route_scan(rs, p, i + 1, cur2);
    }
}

/// Index of the first error page entry for a status code.
pub open spec fn ep_scan(eps: Seq<(u16, Vec<u8>)>, code: u16, i: int) -> Option<int>
    decreases eps.len() - i,
{
    if i < 0 || i >= eps.len() {
        None
    } else if eps[i].0 == code {
        Some(i)
    } else {
        ep_scan(eps, code, i + 1)
    }
}

/// The configured error page for a status code, if any.
pub open spec fn spec_error_page(eps: Seq<(u16, Vec<u8>)>, code: u16) -> Option<Seq<u8>> {
    match ep_scan(eps, code, 0) {
        Some(i) => Some(eps[i].1@),
        None => None,
    }
}

impl ServerConfig {
    /// Creates a server configuration with default settings.
    pub fn new() -> (r: ServerConfig)
        ensures
            r.server_name@ == "localhost".spec_bytes(),
            r.host@ == "127.0.0.1".spec_bytes(),
            r.ports@ == seq![8080u16],
            r.root@ == "./www".spec_bytes(),
            r.client_max_body_size == 10485760usize,
            r.error_pages@.len() == 0,
            r.routes@.len() == 1,
            r.routes@[0].path@ == "/".spec_bytes(),
            r.routes@[0].methods@ == seq![crate::method::Method::Get],
            r.routes@[0].root is None,
            r.routes@[0].index matches Some(ix) && ix@ == "index.html".spec_bytes(),
            !r.routes@[0].autoindex,
            r.routes@[0].redirect is None,
            r.routes@[0].cgi@.len() == 0,
            r.routes@[0].upload_dir is None,
            r.timeout == 60u64,
    {
        let mut ports: Vec<u16> = Vec::new();
        ports.push(8080);
        proof {
            assert(ports@ =~= seq![8080u16]);
        }
        let mut routes: Vec<Route> = Vec::new();
        routes.push(Route::new("/".as_bytes()));
        ServerConfig {
            server_name: to_vec("localhost".as_bytes()),
            host: to_vec("127.0.0.1".as_bytes()),
            ports,
            root: to_vec("./www".as_bytes()),
            client_max_body_size: 10485760,
            error_pages: Vec::new(),
            routes,
            timeout: 60,
        }
    }

    /// Finds the best route for a request path: the longest matching
    /// prefix wins.
    pub fn find_route(&self, path: &[u8]) -> (r: Option<&Route>)
        ensures
            match r {
                Some(rt) => spec_find_route(self.routes@, path@) matches Some(i) && *rt
                    == self.routes@[i],
                None => spec_find_route(self.routes@, path@) is None,
            },
    {
        let ghost rs = self.routes@;
        let mut best: Option<usize> = None;
        let mut i: usize = 0;
        while i < self.routes.len()
            invariant
                i <= self.routes@.len(),
                rs == self.routes@,
                match best {
                    Some(b) => b < rs.len() && spec_find_route(rs, path@) == best_route_scan(
                        rs,
                        path@,
                        i as int,
                        Some(b as int),
                    ),
                    None => spec_find_route(rs, path@) == best_route_scan(
                        rs,
                        path@,
                        i as int,
                        None,
                    ),
                },
            decreases self.routes@.len() - i,
        {
            let rt = &self.routes[i];
            if rt.matches(path) {
                let take = match best {
                    Some(b) => self.routes[i].path.len() >= self.routes[b].path.len(),
                    None => true,
                };
                if take {
                    best = Some(i);
                }
            }
            i = i + 1;
        }
        match best {
            Some(b) => Some(&self.routes[b]),
            None => None,
        }
    }

    /// The configured error page for a status code, if any.
    pub fn get_error_page(&self, status_code: u16) -> (r: Option<Vec<u8>>)
        ensures
            match r {
                Some(p) => spec_error_page(self.error_pages@, status_code) == Some(p@),
                None => spec_error_page(self.error_pages@, status_code) == None::<Seq<u8>>,
            },
    {
        let mut i: usize = 0;
        while i < self.error_pages.len()
            invariant
                i <= self.error_pages@.len(),
                ep_scan(self.error_pages@, status_code, 0) == ep_scan(
                    self.error_pages@,
                    status_code,
                    i as int,
                ),
            decreases self.error_pages@.len() - i,
        {
            if self.error_pages[i].0 == status_code {
                return Some(to_vec(self.error_pages[i].1.as_slice()));
            }
            i = i + 1;
        }
        None
    }

    /// Whether a body of the given size is within the configured limit.
    pub fn is_body_size_allowed(&self, size: usize) -> (r: bool)
        ensures
            r == (size <= self.client_max_body_size),
    {
        size <= self.client_max_body_size
    }
}

/// An earlier binding with the same host and port exists, in the
/// iteration order servers-then-ports.
pub open spec fn dup_at(ss: Seq<ServerConfig>, j: int, k: int) -> bool {
    exists|i: int, l: int|
        0 <= i < ss.len() && 0 <= l < ss[i].ports@.len() && (i < j || (i == j && l < k))
            && #[trigger] ss[i].ports@[l] == ss[j].ports@[k] && ss[i].host@ == ss[j].host@
}

/// Another server shares the host and port but carries a different name.
pub open spec fn vhost_at(ss: Seq<ServerConfig>, j: int, k: int) -> bool {
    exists|m: int|
        0 <= m < ss.len() && (#[trigger] ss[m].host@) == ss[j].host@ && ss[m].ports@.contains(
            ss[j].ports@[k],
        ) && ss[m].server_name@ != ss[j].server_name@
}

/// Some binding repeats an earlier one without a virtual-host excuse.
pub open spec fn has_dup_binding(ss: Seq<ServerConfig>) -> bool {
    exists|j: int, k: int|
        0 <= j < ss.len() && 0 <= k < (#[trigger] ss[j].ports@).len() && #[trigger] dup_at(ss, j, k)
            && !vhost_at(ss, j, k)
}

/// A configuration is valid when it has servers, none repeats a binding
/// without a distinct server name, and each server has ports and a root.
pub open spec fn spec_config_valid(ss: Seq<ServerConfig>) -> bool {
    &&& ss.len() > 0
    &&& !has_dup_binding(ss)
    &&& forall|i: int| 0 <= i < ss.len() ==> (#[trigger] ss[i].ports@).len() > 0
    &&& forall|i: int| 0 <= i < ss.len() ==> (#[trigger] ss[i].root@).len() > 0
}

/// Index of the first server matching the port and name.
pub open spec fn byname_scan(ss: Seq<ServerConfig>, port: u16, name: Seq<u8>, i: int) -> Option<
    int,
>
    decreases ss.len() - i,
{
    if i < 0 || i >= ss.len() {
        None
    } else if ss[i].ports@.contains(port) && ss[i].server_name@ == name {
        Some(i)
    } else {
        byname_scan(ss, port, name, i + 1)
    }
}

/// Index of the first server listening on the port.
pub open spec fn byport_scan(ss: Seq<ServerConfig>, port: u16, i: int) -> Option<int>
    decreases ss.len() - i,
{
    if i < 0 || i >= ss.len() {
        None
    } else if ss[i].ports@.contains(port) {
        Some(i)
    } else {
        byport_scan(ss, port, i + 1)
    }
}

/// The server chosen for a port and an optional name: an exact name match
/// first, else the first server on the port.
pub open spec fn spec_find_server(ss: Seq<ServerConfig>, port: u16, name: Option<Seq<u8>>) -> Option<
    int,
> {
    match name {
        Some(n) => match byname_scan(ss, port, n, 0) {
            Some(i) => Some(i),
            None => byport_scan(ss, port, 0),
        },
        None => byport_scan(ss, port, 0),
    }
}

/// The host-header name: everything before the first colon.
pub open spec fn spec_hostname(h: Seq<u8>) -> Seq<u8> {
    match find_byte(h, 58) {
        Some(i) => h.subrange(0, i),
        None => h,
    }
}

/// The deduplicated `(host, port)` pairs, in first-appearance order.
pub open spec fn listen_fold(ss: Seq<ServerConfig>, i: int, k: int, acc: Seq<(Seq<u8>, u16)>) -> Seq<
    (Seq<u8>, u16),
>
    decreases ss.len() - i, (if 0 <= i < ss.len() { ss[i].ports@.len() + 1 - k } else { 0 }),
{
    if i < 0 || k < 0 || i >= ss.len() {
        acc
    } else if k >= ss[i].ports@.len() {
        listen_fold(ss, i + 1, 0, acc)
    } else {
        let a = (ss[i].host@, ss[i].ports@[k]);
        let acc2 = if acc.contains(a) {
            acc
        } else {
            acc.push(a)
        };
        listen_fold(ss, i, k + 1, acc2)
    }
}

/// The whole configuration.
#[derive(Debug, Clone)]
pub struct Config {
    /// All virtual servers.
    pub servers: Vec<ServerConfig>,
}

impl Config {
    /// Creates an empty configuration.
    pub fn new() -> (r: Config)
        ensures
            r.servers@.len() == 0,
    {
        Config { servers: Vec::new() }
    }

    /// Whether an earlier binding equals the one at `(j, k)`.
    fn earlier_binding(&self, j: usize, k: usize) -> (r: bool)
        requires
            j < self.servers@.len(),
            k < self.servers@[j as int].ports@.len(),
        ensures
            r == dup_at(self.servers@, j as int, k as int),
    {
        let ghost ss = self.servers@;
        let n = self.servers.len();
        let host = &self.servers[j].host;
        let port = self.servers[j].ports[k];
        let mut i: usize = 0;
        while i <= j
            invariant
                i <= j + 1,
                j < n,
                n == ss.len(),
                j < ss.len(),
                k < ss[j as int].ports@.len(),
                ss == self.servers@,
                host@ == ss[j as int].host@,
                port == ss[j as int].ports@[k as int],
                forall|a: int, l: int|
                    0 <= a < i && 0 <= l < ss[a].ports@.len() && (a < j || (a == j && l < k))
                        ==> !((#[trigger] ss[a].ports@[l]) == port && ss[a].host@ == host@),
            decreases j + 1 - i,
        {
            let bound = if i == j {
                k
            } else {
                self.servers[i].ports.len()
            };
            let mut l: usize = 0;
            while l < bound
                invariant
                    l <= bound,
                    i <= j,
                    j < ss.len(),
                    k < ss[j as int].ports@.len(),
                    ss == self.servers@,
                    host@ == ss[j as int].host@,
                    port == ss[j as int].ports@[k as int],
                    bound == (if i == j {
                        k as int
                    } else {
                        ss[i as int].ports@.len() as int
                    }),
                    forall|a: int, ll: int|
                        0 <= a < i && 0 <= ll < ss[a].ports@.len() && (a < j || (a == j && ll < k))
                            ==> !((#[trigger] ss[a].ports@[ll]) == port && ss[a].host@ == host@),
                    forall|ll: int|
                        0 <= ll < l ==> !((#[trigger] ss[i as int].ports@[ll]) == port
                            && ss[i as int].host@ == host@),
                decreases bound - l,
            {
                if self.servers[i].ports[l] == port && bytes_eq(
                    self.servers[i].host.as_slice(),
                    host.as_slice(),
                ) {
                    return true;
                }
                l = l + 1;
            }
            i = i + 1;
        }
        false
    }

    /// Whether a distinct-named server shares the binding at `(j, k)`.
    fn vhost_for(&self, j: usize, k: usize) -> (r: bool)
        requires
            j < self.servers@.len(),
            k < self.servers@[j as int].ports@.len(),
        ensures
            r == vhost_at(self.servers@, j as int, k as int),
    {
        let ghost ss = self.servers@;
        let host = &self.servers[j].host;
        let name = &self.servers[j].server_name;
        let port = self.servers[j].ports[k];
        let mut m: usize = 0;
        while m < self.servers.len()
            invariant
                m <= ss.len(),
                j < ss.len(),
                k < ss[j as int].ports@.len(),
                ss == self.servers@,
                host@ == ss[j as int].host@,
                name@ == ss[j as int].server_name@,
                port == ss[j as int].ports@[k as int],
                forall|a: int|
                    0 <= a < m ==> !((#[trigger] ss[a].host@) == host@ && ss[a].ports@.contains(
                        port,
                    ) && ss[a].server_name@ != name@),
            decreases ss.len() - m,
        {
            if bytes_eq(self.servers[m].host.as_slice(), host.as_slice()) && Self::ports_contain(
                &self.servers[m].ports,
                port,
            ) && !bytes_eq(self.servers[m].server_name.as_slice(), name.as_slice()) {
                return true;
            }
            m = m + 1;
        }
        false
    }

    /// Whether a port list contains a port.
    fn ports_contain(ports: &Vec<u16>, port: u16) -> (r: bool)
        ensures
            r == ports@.contains(port),
    {
        let mut i: usize = 0;
        while i < ports.len()
            invariant
                i <= ports@.len(),
                forall|j: int| 0 <= j < i ==> ports@[j] != port,
            decreases ports@.len() - i,
        {
            if ports[i] == port {
                proof {
                    assert(ports@.contains(port)) by {
                        assert(ports@[i as int] == port);
                    }
                }
                return true;
            }
            i = i + 1;
        }
        proof {
            if ports@.contains(port) {
                let j = choose|j: int| 0 <= j < ports@.len() && ports@[j] == port;
                assert(ports@[j] != port);
            }
        }
        false
    }

    /// Validates the configuration: servers exist, no binding repeats
    /// without a distinct server name, and each server has ports and a
    /// non-empty root.
    pub fn validate(&self) -> (r: Result<(), Vec<u8>>)
        ensures
            r is Ok <==> spec_config_valid(self.servers@),
    {
        let ghost ss = self.servers@;
        if self.servers.len() == 0 {
            return Err(to_vec("no servers configured".as_bytes()));
        }
        let mut j: usize = 0;
        while j < self.servers.len()
            invariant
                j <= ss.len(),
                ss == self.servers@,
                forall|a: int, k: int|
                    0 <= a < j && 0 <= k < ss[a].ports@.len() ==> !((#[trigger] dup_at(ss, a, k))
                        && !vhost_at(ss, a, k)),
            decreases ss.len() - j,
        {
            let mut k: usize = 0;
            while k < self.servers[j].ports.len()
                invariant
                    j < ss.len(),
                    k <= ss[j as int].ports@.len(),
                    ss == self.servers@,
                    forall|a: int, l: int|
                        0 <= a < j && 0 <= l < ss[a].ports@.len() ==> !((#[trigger] dup_at(
                            ss,
                            a,
                            l,
                        )) && !vhost_at(ss, a, l)),
                    forall|l: int|
                        0 <= l < k ==> !((#[trigger] dup_at(ss, j as int, l)) && !vhost_at(
                            ss,
                            j as int,
                            l,
                        )),
                decreases ss[j as int].ports@.len() - k,
            {
                if self.earlier_binding(j, k) && !self.vhost_for(j, k) {
                    return Err(to_vec("duplicate port binding".as_bytes()));
                }
                k = k + 1;
            }
            j = j + 1;
        }
        let mut i: usize = 0;
        while i < self.servers.len()
            invariant
                i <= ss.len(),
                ss == self.servers@,
                forall|a: int| 0 <= a < i ==> (#[trigger] ss[a].ports@).len() > 0,
                forall|a: int| 0 <= a < i ==> (#[trigger] ss[a].root@).len() > 0,
            decreases ss.len() - i,
        {
            if self.servers[i].ports.len() == 0 {
                return Err(to_vec("server has no ports configured".as_bytes()));
            }
            if self.servers[i].root.len() == 0 {
                return Err(to_vec("server has no root directory".as_bytes()));
            }
            i = i + 1;
        }
        Ok(())
    }

    /// Finds the server for a port and an optional name: an exact name
    /// match first, else the first server on the port.
    pub fn find_server(&self, host: &[u8], port: u16, server_name: Option<&[u8]>) -> (r: Option<
        &ServerConfig,
    >)
        ensures
            match r {
                Some(s) => spec_find_server(
                    self.servers@,
                    port,
                    match server_name {
                        Some(n) => Some(n@),
                        None => None,
                    },
                ) matches Some(i) && *s == self.servers@[i],
                None => spec_find_server(
                    self.servers@,
                    port,
                    match server_name {
                        Some(n) => Some(n@),
                        None => None,
                    },
                ) is None,
            },
    {
        let _ = host;
        let ghost ss = self.servers@;
        match server_name {
            Some(n) => {
                match self.scan_by_name(port, n) {
                    Some(i) => Some(&self.servers[i]),
                    None => match self.scan_by_port(port) {
                        Some(i) => Some(&self.servers[i]),
                        None => None,
                    },
                }
            },
            None => match self.scan_by_port(port) {
                Some(i) => Some(&self.servers[i]),
                None => None,
            },
        }
    }

    /// Finds the server for a host header and a port: the hostname (the
    /// header up to any colon) is matched against server names first.
    pub fn find_server_by_host(&self, host_header: &[u8], port: u16) -> (r: Option<&ServerConfig>)
        ensures
            match r {
                Some(s) => spec_find_server(
                    self.servers@,
                    port,
                    Some(spec_hostname(host_header@)),
                ) matches Some(i) && *s == self.servers@[i],
                None => spec_find_server(
                    self.servers@,
                    port,
                    Some(spec_hostname(host_header@)),
                ) is None,
            },
    {
        proof {
            lemma_find_byte_props(host_header@, 58, 0);
        }
        let hlen = host_header.len();
        let hostname: Vec<u8> = match index_of(host_header, 58) {
            Some(i) => {
                let v = to_vec(&host_header[0..i]);
                proof {
                    assert(v@ =~= host_header@.subrange(0, i as int));
                }
                v
            },
            None => to_vec(host_header),
        };
        match self.scan_by_name(port, hostname.as_slice()) {
            Some(i) => Some(&self.servers[i]),
            None => match self.scan_by_port(port) {
                Some(i) => Some(&self.servers[i]),
                None => None,
            },
        }
    }

    /// Index of the first server matching port and name.
    fn scan_by_name(&self, port: u16, name: &[u8]) -> (r: Option<usize>)
        ensures
            match r {
                Some(i) => byname_scan(self.servers@, port, name@, 0) == Some(i as int) && i
                    < self.servers@.len(),
                None => byname_scan(self.servers@, port, name@, 0) == None::<int>,
            },
    {
        let ghost ss = self.servers@;
        let mut i: usize = 0;
        while i < self.servers.len()
            invariant
                i <= ss.len(),
                ss == self.servers@,
                byname_scan(ss, port, name@, 0) == byname_scan(ss, port, name@, i as int),
            decreases ss.len() - i,
        {
            if Self::ports_contain(&self.servers[i].ports, port) && bytes_eq(
                self.servers[i].server_name.as_slice(),
                name,
            ) {
                return Some(i);
            }
            i = i + 1;
        }
        None
    }

    /// Index of the first server listening on the port.
    fn scan_by_port(&self, port: u16) -> (r: Option<usize>)
        ensures
            match r {
                Some(i) => byport_scan(self.servers@, port, 0) == Some(i as int) && i
                    < self.servers@.len(),
                None => byport_scan(self.servers@, port, 0) == None::<int>,
            },
    {
        let ghost ss = self.servers@;
        let mut i: usize = 0;
        while i < self.servers.len()
            invariant
                i <= ss.len(),
                ss == self.servers@,
                byport_scan(ss, port, 0) == byport_scan(ss, port, i as int),
            decreases ss.len() - i,
        {
            if Self::ports_contain(&self.servers[i].ports, port) {
                return Some(i);
            }
            i = i + 1;
        }
        None
    }

    /// All distinct `(host, port)` pairs, in first-appearance order.
    pub fn get_listen_addresses(&self) -> (r: Vec<(Vec<u8>, u16)>)
        ensures
            r@.map_values(|a: (Vec<u8>, u16)| (a.0@, a.1)) == listen_fold(
                self.servers@,
                0,
                0,
                Seq::empty(),
            ),
    {
        let ghost ss = self.servers@;
        let mut out: Vec<(Vec<u8>, u16)> = Vec::new();
        proof {
            assert(out@.map_values(|a: (Vec<u8>, u16)| (a.0@, a.1)) =~= Seq::<(
                Seq<u8>,
                u16,
            )>::empty());
        }
        let mut i: usize = 0;
        while i < self.servers.len()
            invariant
                i <= ss.len(),
                ss == self.servers@,
                listen_fold(ss, 0, 0, Seq::empty()) == listen_fold(
                    ss,
                    i as int,
                    0,
                    out@.map_values(|a: (Vec<u8>, u16)| (a.0@, a.1)),
                ),
            decreases ss.len() - i,
        {
            let mut k: usize = 0;
            while k < self.servers[i].ports.len()
                invariant
                    i < ss.len(),
                    k <= ss[i as int].ports@.len(),
                    ss == self.servers@,
                    listen_fold(ss, 0, 0, Seq::empty()) == listen_fold(
                        ss,
                        i as int,
                        k as int,
                        out@.map_values(|a: (Vec<u8>, u16)| (a.0@, a.1)),
                    ),
                decreases ss[i as int].ports@.len() - k,
            {
                let host = &self.servers[i].host;
                let port = self.servers[i].ports[k];
                let ghost f = |a: (Vec<u8>, u16)| (a.0@, a.1);
                let ghost acc0 = out@.map_values(f);
                let ghost a = (ss[i as int].host@, ss[i as int].ports@[k as int]);
                if !Self::addr_listed(&out, host, port) {
                    out.push((to_vec(host.as_slice()), port));
                    proof {
                        assert(out@.map_values(f) =~= acc0.push(a));
                        assert(listen_fold(ss, i as int, k as int, acc0) == listen_fold(
                            ss,
                            i as int,
                            k + 1,
                            acc0.push(a),
                        ));
                    }
                } else {
                    proof {
                        assert(listen_fold(ss, i as int, k as int, acc0) == listen_fold(
                            ss,
                            i as int,
                            k + 1,
                            acc0,
                        ));
                    }
                }
                k = k + 1;
            }
            i = i + 1;
        }
        out
    }

    /// Whether an address is already listed.
    fn addr_listed(out: &Vec<(Vec<u8>, u16)>, host: &Vec<u8>, port: u16) -> (r: bool)
        ensures
            r == out@.map_values(|a: (Vec<u8>, u16)| (a.0@, a.1)).contains((host@, port)),
    {
        let ghost m = out@.map_values(|a: (Vec<u8>, u16)| (a.0@, a.1));
        let mut i: usize = 0;
        while i < out.len()
            invariant
                i <= out@.len(),
                m == out@.map_values(|a: (Vec<u8>, u16)| (a.0@, a.1)),
                forall|j: int| 0 <= j < i ==> m[j] != (host@, port),
            decreases out@.len() - i,
        {
            if bytes_eq(out[i].0.as_slice(), host.as_slice()) && out[i].1 == port {
                proof {
                    assert(m[i as int] == (host@, port));
                }
                return true;
            }
            i = i + 1;
        }
        proof {
            if m.contains((host@, port)) {
                let j = choose|j: int| 0 <= j < m.len() && m[j] == (host@, port);
                assert(m[j] != (host@, port));
            }
        }
        false
    }
}

} // verus!
