use rand::seq::IndexedRandom;
use vstd::prelude::*;
use vstd::string::*;
use vstd::arithmetic::div_mod::{
    lemma_fundamental_div_mod, lemma_fundamental_div_mod_converse, lemma_mod_bound, lemma_mod_self_0,
    lemma_small_mod,
};

use crate::backend::{Backend, FIRST_PORT, loopback_address, loopback_host, probe_healthy, probe_succeeded};

verus! {

/// The selection algorithm of a load balancer, with its state.
#[derive(Debug, Clone, Copy, PartialEq, Eq, Structural)]
pub enum Algo {
    /// Cycles through the healthy backends; the cursor is the next position to hand out.
    RoundRobin(usize),
    /// Picks, at random, one of the healthy backends with the fewest requests in flight.
    LeastConnection,
}

/// What can go wrong when building a load balancer or dispatching a request.
#[derive(Debug, Clone, Copy, PartialEq, Eq, Structural)]
pub enum LbError {
    /// The algorithm name is neither `round_robin` nor `least_connection`.
    UnsupportedAlgorithm,
    /// Every backend is unhealthy.
    NoHealthyBackend,
    /// The chosen backend could not be reached or did not answer completely.
    UpstreamUnavailable,
}

/// The backend registry together with the active selection algorithm.
#[derive(Debug)]
pub struct LoadBalancer {
    pub algo: Algo,
    pub backends: Vec<Backend>,
}

/// The algorithm, in its initial state, that a configuration name stands for.
pub open spec fn algo_named(name: Seq<char>) -> Option<Algo> {
    if name == "round_robin"@ {
        Some(Algo::RoundRobin(0))
    } else if name == "least_connection"@ {
        Some(Algo::LeastConnection)
    } else {
        None
    }
}

/// The positions of the healthy backends among the first `k`, in order.
pub open spec fn healthy_upto(bs: Seq<Backend>, k: nat) -> Seq<int>
    decreases k,
{
    if k == 0 {
        Seq::empty()
    } else {
        let s = healthy_upto(bs, (k - 1) as nat);
        if bs[k - 1].healthy {
            s.push(k - 1)
        } else {
            s
        }
    }
}

/// The positions of the healthy backends, in configuration order.
pub open spec fn healthy_indices(bs: Seq<Backend>) -> Seq<int> {
    healthy_upto(bs, bs.len())
}

/// Some backend is healthy.
pub open spec fn has_healthy(bs: Seq<Backend>) -> bool {
    exists|i: int| 0 <= i < bs.len() && #[trigger] bs[i].healthy
}

/// Backend `i` is healthy and no healthy backend has fewer requests in flight.
pub open spec fn is_least_loaded(bs: Seq<Backend>, i: int) -> bool {
    &&& 0 <= i < bs.len()
    &&& bs[i].healthy
    &&& forall|j: int|
        0 <= j < bs.len() && #[trigger] bs[j].healthy ==> bs[i].inflights <= bs[j].inflights
}

/// The backend that round-robin hands out at `cursor`.
pub open spec fn rr_pick(bs: Seq<Backend>, cursor: int) -> int {
    healthy_indices(bs)[cursor % (healthy_indices(bs).len() as int)]
}

/// The round-robin cursor after a selection at `cursor`.
pub open spec fn rr_next(bs: Seq<Backend>, cursor: int) -> int {
    (cursor + 1) % (healthy_indices(bs).len() as int)
}

/// Choosing backend `i` is a correct selection by the algorithm `before`, whose state
/// afterwards is `after`.
pub open spec fn valid_selection(bs: Seq<Backend>, before: Algo, after: Algo, i: int) -> bool {
    match before {
        Algo::RoundRobin(c) => i == rr_pick(bs, c as int) && after == Algo::RoundRobin(
            rr_next(bs, c as int) as usize,
        ),
        Algo::LeastConnection => is_least_loaded(bs, i) && after == Algo::LeastConnection,
    }
}

/// The registry after one more request to backend `i` has started.
pub open spec fn acquired(bs: Seq<Backend>, i: int) -> Seq<Backend> {
    bs.update(
        i,
        Backend { host: bs[i].host, inflights: (bs[i].inflights + 1) as usize, healthy: bs[i].healthy },
    )
}

/// The registry after a request to backend `i` has completed.
pub open spec fn released(bs: Seq<Backend>, i: int) -> Seq<Backend> {
    bs.update(
        i,
        Backend { host: bs[i].host, inflights: (bs[i].inflights - 1) as usize, healthy: bs[i].healthy },
    )
}

/// Every in-flight counter can still be incremented.
pub open spec fn below_capacity(bs: Seq<Backend>) -> bool {
    forall|i: int| 0 <= i < bs.len() ==> #[trigger] bs[i].inflights < usize::MAX
}

/// What `healthy_upto` holds: valid, healthy, increasing positions, and
/// none exactly when no backend among the first `k` is healthy.
pub proof fn lemma_healthy_upto(bs: Seq<Backend>, k: nat)
    requires
        k <= bs.len(),
    ensures
        forall|j: int|
            0 <= j < healthy_upto(bs, k).len() ==> 0 <= #[trigger] healthy_upto(bs, k)[j] < k
                && bs[healthy_upto(bs, k)[j]].healthy,
        forall|a: int, b: int|
            0 <= a < b < healthy_upto(bs, k).len() ==> healthy_upto(bs, k)[a] < healthy_upto(
                bs,
                k,
            )[b],
        healthy_upto(bs, k).len() == 0 <==> forall|i: int| 0 <= i < k ==> !#[trigger] bs[i].healthy,
    decreases k,
{
    if k > 0 {
        lemma_healthy_upto(bs, (k - 1) as nat);
    }
}

/// The healthy positions of the whole registry: their count is positive exactly when
/// some backend is healthy.
pub proof fn lemma_healthy_indices(bs: Seq<Backend>)
    ensures
        forall|j: int|
            0 <= j < healthy_indices(bs).len() ==> 0 <= #[trigger] healthy_indices(bs)[j] < bs.len()
                && bs[healthy_indices(bs)[j]].healthy,
        healthy_indices(bs).len() > 0 <==> has_healthy(bs),
{
    lemma_healthy_upto(bs, bs.len());
}

/// Relies on rand's `IndexedRandom::choose` over the thread-local generator: `None` for
/// an empty slice, otherwise one of its elements.
#[verifier::external_body]
fn choose_one(items: &Vec<usize>) -> (r: Option<usize>)
    ensures
        items@.len() == 0 <==> r is None,
        r matches Some(x) ==> items@.contains(x),
{
    items.choose(&mut rand::rng()).copied()
}

impl LoadBalancer {
    /// Builds a load balancer with `num_backends` backends at `127.0.0.1:8080`,
    /// `127.0.0.1:8081`, ..., none of them probed yet (so all unhealthy) and none busy.
    /// `algo` names the algorithm: `round_robin` (cursor at the first backend) or
    /// `least_connection`; any other name is refused.
    pub fn new(algo: String, num_backends: u8) -> (r: Result<LoadBalancer, LbError>)
        requires
            num_backends >= 1,
        ensures
            algo_named(algo@) is None ==> r == Err::<LoadBalancer, LbError>(
                LbError::UnsupportedAlgorithm,
            ),
            algo_named(algo@) matches Some(a) ==> r matches Ok(lb) && lb.algo == a
                && lb.backends@.len() == num_backends && forall|i: int|
                0 <= i < num_backends ==> (#[trigger] lb.backends@[i]).host@ == loopback_address(
                (FIRST_PORT + i) as nat,
            ) && lb.backends@[i].inflights == 0 && !lb.backends@[i].healthy,
    {
        proof {
            reveal_strlit("round_robin");
            reveal_strlit("least_connection");
        }
        let algo = if algo == String::from_str("round_robin") {
            Algo::RoundRobin(0)
        } else if algo == String::from_str("least_connection") {
            Algo::LeastConnection
        } else {
            return Err(LbError::UnsupportedAlgorithm);
        };
        let mut backends: Vec<Backend> = Vec::new();
        let mut i: u8 = 0;
        while i < num_backends
            invariant
                i <= num_backends,
                backends@.len() == i,
                forall|j: int|
                    0 <= j < i ==> (#[trigger] backends@[j]).host@ == loopback_address(
                        (FIRST_PORT + j) as nat,
                    ) && backends@[j].inflights == 0 && !backends@[j].healthy,
            decreases num_backends - i,
        {
            let host = loopback_host(FIRST_PORT + i as u16);
            backends.push(Backend::unprobed(host));
            i = i + 1;
        }
        Ok(LoadBalancer { algo, backends })
    }

    /// Records the outcome of backend `i`'s health probe: `status` is the status code
    /// it answered with, `None` when the probe failed. Only an OK status makes it healthy.
    pub fn record_probe(&mut self, i: usize, status: Option<u16>)
        requires
            i < old(self).backends@.len(),
        ensures
            final(self).algo == old(self).algo,
            final(self).backends@ == old(self).backends@.update(
                i as int,
                Backend {
                    host: old(self).backends@[i as int].host,
                    inflights: old(self).backends@[i as int].inflights,
                    healthy: probe_healthy(status),
                },
            ),
    {
        self.backends[i].healthy = probe_succeeded(status);
    }

    /// The positions of the healthy backends, in configuration order.
    pub fn healthy_positions(&self) -> (r: Vec<usize>)
        ensures
            r@.len() == healthy_indices(self.backends@).len(),
            forall|j: int| 0 <= j < r@.len() ==> #[trigger] r@[j] as int == healthy_indices(self.backends@)[j],
    {
        let ghost bs = self.backends@;
        let mut r: Vec<usize> = Vec::new();
        let mut k: usize = 0;
        while k < self.backends.len()
            invariant
                k <= bs.len(),
                bs == self.backends@,
                r@.len() == healthy_upto(bs, k as nat).len(),
                forall|j: int| 0 <= j < r@.len() ==> #[trigger] r@[j] as int == healthy_upto(bs, k as nat)[j],
            decreases bs.len() - k,
        {
            if self.backends[k].healthy {
                r.push(k);
            }
            k = k + 1;
        }
        r
    }

    /// The positions of the least loaded healthy backends, in configuration order:
    /// empty exactly when no backend is healthy.
    pub fn least_loaded(&self) -> (r: Vec<usize>)
        ensures
            forall|j: int| 0 <= j < r@.len() ==> is_least_loaded(self.backends@, #[trigger] r@[j] as int),
            forall|i: int| is_least_loaded(self.backends@, i) ==> #[trigger] r@.contains(i as usize),
            forall|a: int, b: int| 0 <= a < b < r@.len() ==> r@[a] < r@[b],
            r@.len() > 0 <==> has_healthy(self.backends@),
    {
        let ghost bs = self.backends@;
        let n = self.backends.len();
        let mut found = false;
        let mut min: usize = 0;
        let ghost mut at: int = 0;
        let mut k: usize = 0;
        while k < n
            invariant
                k <= n,
                n == bs.len(),
                bs == self.backends@,
                found <==> exists|j: int| 0 <= j < k && #[trigger] bs[j].healthy,
                found ==> 0 <= at < k && bs[at].healthy && bs[at].inflights == min,
                found ==> forall|j: int| 0 <= j < k && #[trigger] bs[j].healthy ==> min <= bs[j].inflights,
            decreases n - k,
        {
            if self.backends[k].healthy && (!found || self.backends[k].inflights < min) {
                min = self.backends[k].inflights;
                found = true;
                proof {
                    at = k as int;
                }
            }
            k = k + 1;
        }
        let mut r: Vec<usize> = Vec::new();
        k = 0;
        while k < n
            invariant
                k <= n,
                n == bs.len(),
                bs == self.backends@,
                found <==> has_healthy(bs),
                found ==> 0 <= at < n && bs[at].healthy && bs[at].inflights == min,
                found ==> forall|j: int| 0 <= j < n && #[trigger] bs[j].healthy ==> min <= bs[j].inflights,
                !found ==> r@.len() == 0,
                forall|j: int| 0 <= j < r@.len() ==> #[trigger] r@[j] < k && is_least_loaded(bs, r@[j] as int),
                forall|i: int| 0 <= i < k && is_least_loaded(bs, i) ==> #[trigger] r@.contains(i as usize),
                forall|a: int, b: int| 0 <= a < b < r@.len() ==> r@[a] < r@[b],
                found && at < k ==> r@.len() > 0,
            decreases n - k,
        {
            let ghost prev = r@;
            if found && self.backends[k].healthy && self.backends[k].inflights == min {
                r.push(k);
                proof {
                    assert(r@[r@.len() - 1] == k);
                }
            }
            proof {
                assert forall|i: int| 0 <= i < k + 1 && is_least_loaded(bs, i) implies #[trigger] r@.contains(
                    i as usize,
                ) by {
                    if i == k {
                        assert(bs[k as int].healthy);
                        assert(bs[at].healthy);
                        assert(r@[r@.len() - 1] == k);
                    } else {
                        assert(prev.contains(i as usize));
                        let w = choose|w: int| 0 <= w < prev.len() && prev[w] == i as usize;
                        assert(r@[w] == i as usize);
                    }
                }
            }
            k = k + 1;
        }
        r
    }
    /// Picks the backend for the next request, or `None` when no backend is healthy
    /// (then nothing changes). Round-robin hands out the healthy backend at the cursor
    /// (modulo their count) and advances the cursor; least-connections picks one of the
    /// least loaded healthy backends at random. The backends themselves are untouched.
    pub fn select(&mut self) -> (r: Option<usize>)
        ensures
            final(self).backends@ == old(self).backends@,
            !has_healthy(old(self).backends@) ==> r is None && final(self).algo == old(self).algo,
            has_healthy(old(self).backends@) ==> (r matches Some(i) && valid_selection(
                old(self).backends@,
                old(self).algo,
                final(self).algo,
                i as int,
            )),
    {
        let ghost bs = self.backends@;
        proof {
            lemma_healthy_indices(bs);
        }
        let healthy = self.healthy_positions();
        if healthy.len() == 0 {
            return None;
        }
        match self.algo {
            Algo::RoundRobin(cursor) => {
                let n = healthy.len();
                let at = cursor % n;
                self.algo = Algo::RoundRobin((at + 1) % n);
                proof {
                    lemma_mod_succ(cursor as int, n as int);
                }
                Some(healthy[at])
            },
            Algo::LeastConnection => choose_one(&self.least_loaded()),
        }
    }

    /// Counts one more request in flight at backend `i`.
    pub fn acquire(&mut self, i: usize)
        requires
            i < old(self).backends@.len(),
            old(self).backends@[i as int].inflights < usize::MAX,
        ensures
            final(self).algo == old(self).algo,
            final(self).backends@ == acquired(old(self).backends@, i as int),
    {
        self.backends[i].inflights = self.backends[i].inflights + 1;
    }

    /// Counts one request fewer in flight at backend `i`.
    pub fn release(&mut self, i: usize)
        requires
            i < old(self).backends@.len(),
            old(self).backends@[i as int].inflights > 0,
        ensures
            final(self).algo == old(self).algo,
            final(self).backends@ == released(old(self).backends@, i as int),
    {
        self.backends[i].inflights = self.backends[i].inflights - 1;
    }

    /// Starts dispatching a request: selects a backend and counts the request in flight
    /// there before anything is sent. Fails with `NoHealthyBackend` (changing nothing)
    /// exactly when no backend is healthy.
    pub fn begin_dispatch(&mut self) -> (r: Result<usize, LbError>)
        requires
            below_capacity(old(self).backends@),
        ensures
            !has_healthy(old(self).backends@) ==> r == Err::<usize, LbError>(LbError::NoHealthyBackend)
                && final(self).algo == old(self).algo && final(self).backends@ == old(self).backends@,
            has_healthy(old(self).backends@) ==> (r matches Ok(i) && valid_selection(
                old(self).backends@,
                old(self).algo,
                final(self).algo,
                i as int,
            ) && final(self).backends@ == acquired(old(self).backends@, i as int)),
    {
        match self.select() {
            None => Err(LbError::NoHealthyBackend),
            Some(i) => {
                proof {
                    lemma_selection_in_range(self.backends@, old(self).algo, self.algo, i as int);
                }
                self.acquire(i);
                Ok(i)
            },
        }
    }

    /// Completes a request to backend `i`, whatever its outcome: the request stops
    /// counting as in flight, and a missing upstream answer (`None`) becomes
    /// `UpstreamUnavailable`.
    pub fn finish_dispatch<T>(&mut self, i: usize, outcome: Option<T>) -> (r: Result<T, LbError>)
        requires
            i < old(self).backends@.len(),
            old(self).backends@[i as int].inflights > 0,
        ensures
            final(self).algo == old(self).algo,
            final(self).backends@ == released(old(self).backends@, i as int),
            outcome matches Some(v) ==> r == Ok::<T, LbError>(v),
            outcome is None ==> r == Err::<T, LbError>(LbError::UpstreamUnavailable),
    {
        self.release(i);
        match outcome {
            Some(v) => Ok(v),
            None => Err(LbError::UpstreamUnavailable),
        }
    }
}

/// `(c % n + 1) % n` is `(c + 1) % n`, and both lie below `n`.
pub proof fn lemma_mod_succ(c: int, n: int)
    requires
        0 <= c,
        0 < n,
    ensures
        ((c % n) + 1) % n == (c + 1) % n,
        0 <= c % n < n,
{
    lemma_fundamental_div_mod(c, n);
    lemma_mod_bound(c, n);
    let q = c / n;
    let m = c % n;
    assert(c + 1 == q * n + (m + 1)) by (nonlinear_arith)
        requires
            c == n * q + m,
    ;
    if m + 1 < n {
        lemma_fundamental_div_mod_converse(c + 1, n, q, m + 1);
        lemma_small_mod((m + 1) as nat, n as nat);
    } else {
        assert(c + 1 == (q + 1) * n + 0) by (nonlinear_arith)
            requires
                c == n * q + m,
                m + 1 == n,
        ;
        lemma_fundamental_div_mod_converse(c + 1, n, q + 1, 0);
        lemma_mod_self_0(n);
    }
}

/// A valid selection names a healthy backend of the registry.
pub proof fn lemma_selection_in_range(bs: Seq<Backend>, before: Algo, after: Algo, i: int)
    requires
        has_healthy(bs),
        valid_selection(bs, before, after, i),
    ensures
        0 <= i < bs.len(),
        bs[i].healthy,
{
    lemma_healthy_indices(bs);
    if let Algo::RoundRobin(c) = before {
        lemma_mod_succ(c as int, healthy_indices(bs).len() as int);
    }
}


} // verus!
