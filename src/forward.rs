use vstd::prelude::*;
use vstd::string::*;

use crate::balancer::{LbError, LoadBalancer};

verus! {

/// An HTTP request as it passes through the balancer: the body is carried as raw bytes
/// and each header as its name with its raw value.
pub struct ProxyRequest {
    pub method: String,
    /// The request target: the path and query of an inbound request, the absolute
    /// URI of a forwarded one.
    pub target: String,
    pub headers: Vec<(String, Vec<u8>)>,
    pub body: Vec<u8>,
}

/// The absolute URI that a request for `path` is forwarded to at the backend `host`.
pub open spec fn target_uri(host: Seq<char>, path: Seq<char>) -> Seq<char> {
    "http://"@ + host + path
}

/// The status code that a failed dispatch answers the caller with.
pub open spec fn status_of(e: LbError) -> u16 {
    match e {
        LbError::NoHealthyBackend => 503,
        LbError::UpstreamUnavailable => 502,
        LbError::UnsupportedAlgorithm => 500,
    }
}

/// Writes `http://<host><path>`.
pub fn backend_uri(host: &String, path: &String) -> (r: String)
    ensures
        r@ == target_uri(host@, path@),
{
    proof {
        reveal_strlit("http://");
    }
    let mut s = String::from_str("http://");
    s.append(host.as_str());
    s.append(path.as_str());
    s
}

/// The server-side error status for a failed dispatch: 503 when no backend is healthy,
/// 502 when the backend did not answer, 500 otherwise.
pub fn error_status(e: LbError) -> (r: u16)
    ensures
        r == status_of(e),
        500 <= r < 600,
{
    match e {
        LbError::NoHealthyBackend => 503,
        LbError::UpstreamUnavailable => 502,
        LbError::UnsupportedAlgorithm => 500,
    }
}

impl LoadBalancer {
    /// The request to send to backend `i` for the inbound `req`: its target becomes
    /// `http://<address of i><path and query>`; method, headers and body go through unchanged.
    pub fn forward_request(&self, i: usize, req: ProxyRequest) -> (r: ProxyRequest)
        requires
            i < self.backends@.len(),
        ensures
            r.target@ == target_uri(self.backends@[i as int].host@, req.target@),
            r.method@ == req.method@,
            r.headers@ == req.headers@,
            r.body@ == req.body@,
    {
        let target = backend_uri(&self.backends[i].host, &req.target);
        ProxyRequest { method: req.method, target, headers: req.headers, body: req.body }
    }
}

} // verus!
