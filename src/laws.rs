use vstd::prelude::*;
use vstd::arithmetic::div_mod::{lemma_fundamental_div_mod, lemma_fundamental_div_mod_converse};

use crate::backend::Backend;
use crate::balancer::{
    acquired, healthy_indices, healthy_upto, is_least_loaded, lemma_mod_succ, released, rr_next,
    rr_pick,
};

verus! {

/// Every backend is healthy.
pub open spec fn all_healthy(bs: Seq<Backend>) -> bool {
    forall|i: int| 0 <= i < bs.len() ==> #[trigger] bs[i].healthy
}

/// The round-robin cursor after `k` selections that started at the first position.
pub open spec fn rr_cursor_after(bs: Seq<Backend>, k: nat) -> int
    decreases k,
{
    if k == 0 {
        0
    } else {
        rr_next(bs, rr_cursor_after(bs, (k - 1) as nat))
    }
}

/// How many of the first `k` round-robin selections, from the first position, hand out backend `j`.
pub open spec fn rr_hits(bs: Seq<Backend>, k: nat, j: int) -> nat
    decreases k,
{
    if k == 0 {
        0
    } else {
        rr_hits(bs, (k - 1) as nat, j) + if rr_pick(bs, rr_cursor_after(bs, (k - 1) as nat)) == j {
            1nat
        } else {
            0nat
        }
    }
}

/// The registry after `k` more requests to backend `i` have started.
pub open spec fn acquired_times(bs: Seq<Backend>, i: int, k: nat) -> Seq<Backend>
    decreases k,
{
    if k == 0 {
        bs
    } else {
        acquired(acquired_times(bs, i, (k - 1) as nat), i)
    }
}

/// The registry after `k` requests to backend `i` have completed.
pub open spec fn released_times(bs: Seq<Backend>, i: int, k: nat) -> Seq<Backend>
    decreases k,
{
    if k == 0 {
        bs
    } else {
        released(released_times(bs, i, (k - 1) as nat), i)
    }
}

proof fn lemma_all_healthy_upto(bs: Seq<Backend>, k: nat)
    requires
        k <= bs.len(),
        all_healthy(bs),
    ensures
        healthy_upto(bs, k).len() == k,
        forall|j: int| 0 <= j < k ==> #[trigger] healthy_upto(bs, k)[j] == j,
    decreases k,
{
    if k > 0 {
        lemma_all_healthy_upto(bs, (k - 1) as nat);
        assert(bs[k - 1].healthy);
    }
}

/// When every backend is healthy, round-robin is a plain rotation: the selection at
/// position `c` hands out backend `c % n`.
pub proof fn lemma_rotation_all_healthy(bs: Seq<Backend>, c: int)
    requires
        bs.len() >= 1,
        all_healthy(bs),
        c >= 0,
    ensures
        healthy_indices(bs).len() == bs.len(),
        rr_pick(bs, c) == c % (bs.len() as int),
{
    lemma_all_healthy_upto(bs, bs.len());
    lemma_mod_succ(c, bs.len() as int);
}

/// Round-robin over `n >= 1` backends that are all healthy: the `k`-th selection from
/// the first position hands out backend `k % n`, so the backends come in configuration
/// order, rotating; after `k` selections backend `j` has been handed out `k / n` times,
/// or once more when `j < k % n`.
pub proof fn law_round_robin_rotation(bs: Seq<Backend>, k: nat, j: int)
    requires
        bs.len() >= 1,
        all_healthy(bs),
        0 <= j < bs.len(),
    ensures
        rr_cursor_after(bs, k) == (k as int) % (bs.len() as int),
        rr_pick(bs, rr_cursor_after(bs, k)) == (k as int) % (bs.len() as int),
        rr_hits(bs, k, j) == (k as int) / (bs.len() as int) + if j < (k as int) % (bs.len() as int) {
            1int
        } else {
            0int
        },
    decreases k,
{
    let n = bs.len() as int;
    lemma_all_healthy_upto(bs, bs.len());
    if k == 0 {
        assert(0int % n == 0) by {
            lemma_fundamental_div_mod_converse(0, n, 0, 0);
        }
        assert(0int / n == 0) by {
            lemma_fundamental_div_mod_converse(0, n, 0, 0);
        }
    } else {
        let p = (k - 1) as nat;
        law_round_robin_rotation(bs, p, j);
        let c = rr_cursor_after(bs, p);
        lemma_mod_succ(p as int, n);
        lemma_mod_succ(c, n);
        lemma_rotation_all_healthy(bs, c);
        lemma_rotation_all_healthy(bs, k as int);
        assert(c == (p as int) % n);
        assert(c % n == c) by {
            lemma_mod_succ(p as int, n);
            lemma_fundamental_div_mod_converse(c, n, 0, c);
        }
        assert(rr_cursor_after(bs, k) == (c + 1) % n);
        assert((c + 1) % n == (k as int) % n) by {
            lemma_mod_succ(p as int, n);
        }
        lemma_fundamental_div_mod(p as int, n);
        let q = p as int / n;
        if c + 1 < n {
            assert(k == q * n + (c + 1)) by (nonlinear_arith)
                requires
                    p == n * q + c,
                    k == p + 1,
            ;
            lemma_fundamental_div_mod_converse(k as int, n, q, c + 1);
        } else {
            assert(k == (q + 1) * n + 0) by (nonlinear_arith)
                requires
                    p == n * q + c,
                    k == p + 1,
                    c + 1 == n,
            ;
            lemma_fundamental_div_mod_converse(k as int, n, q + 1, 0);
        }
    }
}

/// A request to backend `i` that starts and then completes leaves every counter as it was.
pub proof fn law_dispatch_restores_inflight(bs: Seq<Backend>, i: int)
    requires
        0 <= i < bs.len(),
        bs[i].inflights < usize::MAX,
    ensures
        released(acquired(bs, i), i) == bs,
{
    assert(released(acquired(bs, i), i) =~= bs);
}

/// `k` requests to backend `i` that all start and then all complete leave every counter
/// as it was, and while they are all in flight backend `i` counts exactly `k` more.
pub proof fn law_concurrent_requests_restore_inflight(bs: Seq<Backend>, i: int, k: nat)
    requires
        0 <= i < bs.len(),
        bs[i].inflights + k <= usize::MAX,
    ensures
        acquired_times(bs, i, k).len() == bs.len(),
        acquired_times(bs, i, k)[i].inflights == bs[i].inflights + k,
        forall|j: int| 0 <= j < bs.len() && j != i ==> #[trigger] acquired_times(bs, i, k)[j] == bs[j],
        released_times(acquired_times(bs, i, k), i, k) == bs,
    decreases k,
{
    if k > 0 {
        let p = (k - 1) as nat;
        law_concurrent_requests_restore_inflight(bs, i, p);
        let up = acquired_times(bs, i, k);
        // Undo the last start first, then the remaining `p` come back to `bs`.
        law_dispatch_restores_inflight(acquired_times(bs, i, p), i);
        lemma_released_times_peel(up, i, k);
        assert(released(up, i) == acquired_times(bs, i, p));
    }
}

/// Completing `k` requests is completing one and then `k - 1` more.
proof fn lemma_released_times_peel(bs: Seq<Backend>, i: int, k: nat)
    requires
        k >= 1,
    ensures
        released_times(bs, i, k) == released_times(released(bs, i), i, (k - 1) as nat),
    decreases k,
{
    if k > 1 {
        lemma_released_times_peel(bs, i, (k - 1) as nat);
        assert(released_times(released(bs, i), i, (k - 1) as nat) == released(
            released_times(released(bs, i), i, (k - 2) as nat),
            i,
        ));
    } else {
        assert(released_times(bs, i, 0) == bs);
    }
}

/// When backend `b` is the only healthy one, every selection hands it out, whatever
/// its counter and whatever the round-robin cursor.
pub proof fn law_single_healthy_backend(bs: Seq<Backend>, b: int, c: int)
    requires
        0 <= b < bs.len(),
        bs[b].healthy,
        forall|i: int| 0 <= i < bs.len() && i != b ==> !#[trigger] bs[i].healthy,
        c >= 0,
    ensures
        rr_pick(bs, c) == b,
        is_least_loaded(bs, b),
        forall|i: int| #[trigger] is_least_loaded(bs, i) ==> i == b,
{
    crate::balancer::lemma_healthy_indices(bs);
    let h = healthy_indices(bs);
    assert(h.len() > 0);
    lemma_mod_succ(c, h.len() as int);
    let at = c % (h.len() as int);
    assert(bs[h[at]].healthy);
}

} // verus!
