//! Bounded FIFO history buffers: a fixed capacity, strict oldest-first
//! eviction, and always the most recent observations in arrival order.

use std::collections::VecDeque;
use vstd::prelude::*;

verus! {

/// One append against a buffer of capacity `cap`: the oldest element is
/// evicted first whenever the buffer is already full.
pub open spec fn hist_step<T>(s: Seq<T>, cap: nat, v: T) -> Seq<T> {
    if s.len() >= cap && s.len() > 0 {
        s.drop_first().push(v)
    } else {
        s.push(v)
    }
}

/// The buffer contents after appending `vs`, oldest first, to an empty
/// buffer of capacity `cap`.
pub open spec fn hist_run<T>(cap: nat, vs: Seq<T>) -> Seq<T>
    decreases vs.len(),
{
    if vs.len() == 0 {
        Seq::empty()
    } else {
        hist_step(hist_run(cap, vs.drop_last()), cap, vs.last())
    }
}

/// Appends `v`, evicting the single oldest element first when the buffer
/// already holds `cap` elements, so the length never exceeds `cap`.
pub fn bounded_append<T>(q: &mut VecDeque<T>, cap: usize, v: T)
    requires
        cap >= 1,
    ensures
        final(q)@ == hist_step(old(q)@, cap as nat, v),
        old(q)@.len() <= cap ==> final(q)@.len() <= cap,
        final(q)@.last() == v,
{
    if q.len() >= cap {
        let _ = q.pop_front();
    }
    q.push_back(v);
}

/// Law: for any sequence of appends into a buffer of capacity `cap`, the
/// resulting length is the smaller of the number of appends and `cap`, and
/// the contents are exactly the last that many appended values, in arrival
/// order.
pub proof fn lemma_hist_run_window<T>(cap: nat, vs: Seq<T>)
    requires
        cap >= 1,
    ensures
        hist_run(cap, vs).len() == if vs.len() <= cap { vs.len() } else { cap },
        hist_run(cap, vs) == vs.subrange(
            vs.len() - (if vs.len() <= cap { vs.len() as int } else { cap as int }),
            vs.len() as int,
        ),
    decreases vs.len(),
{
    if vs.len() == 0 {
        assert(hist_run(cap, vs) =~= vs.subrange(0, 0));
    } else {
        let prev = vs.drop_last();
        lemma_hist_run_window(cap, prev);
        let run_prev = hist_run(cap, prev);
        let n = vs.len() as int;
        if run_prev.len() >= cap {
            // full: evict the oldest, keep the window of size cap
            assert(hist_run(cap, vs) == run_prev.drop_first().push(vs.last()));
            assert(hist_run(cap, vs) =~= vs.subrange(n - cap, n));
        } else {
            assert(hist_run(cap, vs) == run_prev.push(vs.last()));
            assert(hist_run(cap, vs) =~= vs.subrange(0, n));
        }
    }
}

} // verus!
