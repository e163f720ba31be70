use vstd::prelude::*;
use vstd::string::*;

verus! {

/// The port of the first synthesized backend; backend `i` listens on `FIRST_PORT + i`.
pub const FIRST_PORT: u16 = 8080;

/// The status code a health probe must return for the backend to count as healthy.
pub const HEALTHY_STATUS: u16 = 200;

/// A downstream server that requests can be forwarded to.
#[derive(Debug)]
pub struct Backend {
    /// Network location, `host:port`.
    pub host: String,
    /// Number of requests currently forwarded to this backend and not yet completed.
    pub inflights: usize,
    /// Whether the startup health probe succeeded.
    pub healthy: bool,
}

/// The character of a decimal digit.
pub open spec fn digit_char(d: nat) -> char {
    seq!['0', '1', '2', '3', '4', '5', '6', '7', '8', '9'][d as int]
}

/// The decimal representation of `n`, without leading zeros.
pub open spec fn decimal(n: nat) -> Seq<char>
    decreases n,
{
    if n < 10 {
        seq![digit_char(n)]
    } else {
        decimal(n / 10).push(digit_char(n % 10))
    }
}

/// The address of a backend on the loopback host at `port`.
pub open spec fn loopback_address(port: nat) -> Seq<char> {
    "127.0.0.1"@ + seq![':'] + decimal(port)
}

/// Whether a probe that came back with `status` (`None`: no response) marks the backend healthy.
pub open spec fn probe_healthy(status: Option<u16>) -> bool {
    status == Some(HEALTHY_STATUS)
}

fn digit_str(d: u16) -> (r: &'static str)
    requires
        d < 10,
    ensures
        r@ == seq![digit_char(d as nat)],
{
    proof {
        reveal_strlit("0");
        reveal_strlit("1");
        reveal_strlit("2");
        reveal_strlit("3");
        reveal_strlit("4");
        reveal_strlit("5");
        reveal_strlit("6");
        reveal_strlit("7");
        reveal_strlit("8");
        reveal_strlit("9");
    }
    match d {
        0 => "0",
        1 => "1",
        2 => "2",
        3 => "3",
        4 => "4",
        5 => "5",
        6 => "6",
        7 => "7",
        8 => "8",
        _ => "9",
    }
}

/// Writes `n` in decimal.
pub fn decimal_text(n: u16) -> (r: String)
    ensures
        r@ == decimal(n as nat),
    decreases n,
{
    if n < 10 {
        String::from_str(digit_str(n))
    } else {
        let mut s = decimal_text(n / 10);
        s.append(digit_str(n % 10));
        s
    }
}

/// The address `127.0.0.1:<port>`.
pub fn loopback_host(port: u16) -> (r: String)
    ensures
        r@ == loopback_address(port as nat),
{
    let mut s = String::from_str("127.0.0.1");
    s.append(":");
    let p = decimal_text(port);
    s.append(p.as_str());
    proof {
        reveal_strlit(":");
    }
    s
}

/// Whether a health probe answered with `status` (`None` when it failed to complete)
/// makes the backend eligible for selection: only an OK status does.
pub fn probe_succeeded(status: Option<u16>) -> (r: bool)
    ensures
        r == probe_healthy(status),
{
    match status {
        Some(code) => code == HEALTHY_STATUS,
        None => false,
    }
}

impl Backend {
    /// A backend at `host` with no requests in flight, not yet probed (so unhealthy).
    pub fn unprobed(host: String) -> (r: Backend)
        ensures
            r.host@ == host@,
            r.inflights == 0,
            !r.healthy,
    {
        Backend { host, inflights: 0, healthy: false }
    }
}

} // verus!
