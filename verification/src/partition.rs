//! The static split of the pixel indices among workers: contiguous ranges,
//! fixed before any worker starts.

use vstd::prelude::*;
use vstd::arithmetic::div_mod::{lemma_fundamental_div_mod, lemma_fundamental_div_mod_converse};
use vstd::math::min;
use crate::error::Error;

verus! {

/// The half-open range `[start, end)` of pixel indices that one worker owns.
/// A range with `end <= start` holds no index.
#[derive(Clone, Copy, Debug, PartialEq, Eq, Structural)]
pub struct Chunk {
    pub start: u32,
    pub end: u32,
}

impl Chunk {
    /// The number of indices in the range.
    pub open spec fn len(self) -> int {
        if self.start <= self.end {
            self.end - self.start
        } else {
            0
        }
    }

    /// Whether the range holds `idx`.
    pub open spec fn holds(self, idx: int) -> bool {
        self.start <= idx < self.end
    }

    /// The indices of the range, ascending.
    pub open spec fn indices(self) -> Seq<int> {
        Seq::new(self.len() as nat, |k: int| self.start + k)
    }
}

/// The share of one worker when `total` indices are split among `workers`:
/// `total / workers`, rounded up.
pub open spec fn chunk_len(total: int, workers: int) -> int
    recommends
        0 <= total,
        1 <= workers,
{
    (total + workers - 1) / workers
}

/// Where the range of worker `i` begins: `i` shares into the indices, or at
/// their end where the shares of the workers before it have used them up.
pub open spec fn chunk_start(i: int, total: int, workers: int) -> int {
    min(i * chunk_len(total, workers), total)
}

/// Where the range of worker `i` ends: one share after its beginning,
/// clamped to the number of indices.
pub open spec fn chunk_end(i: int, total: int, workers: int) -> int {
    min((i + 1) * chunk_len(total, workers), total)
}

/// The range of worker `i`.
pub open spec fn chunk_at(i: int, total: int, workers: int) -> Chunk {
    Chunk {
        start: chunk_start(i, total, workers) as u32,
        end: chunk_end(i, total, workers) as u32,
    }
}

/// The ranges of all workers, in worker order.
pub open spec fn plan_of(total: int, workers: int) -> Seq<Chunk> {
    Seq::new(workers as nat, |i: int| chunk_at(i, total, workers))
}

/// The share is the least number of indices per worker with which `workers`
/// workers reach `total`: it is `total / workers` rounded up.
pub proof fn lemma_chunk_len_is_ceiling(total: int, workers: int)
    requires
        0 <= total,
        1 <= workers,
    ensures
        0 <= chunk_len(total, workers) <= total,
        chunk_len(total, workers) * workers >= total,
        (chunk_len(total, workers) - 1) * workers < total || total == 0,
        total % workers == 0 ==> chunk_len(total, workers) == total / workers,
        total % workers != 0 ==> chunk_len(total, workers) == total / workers + 1,
{
    let q = total / workers;
    let r = total % workers;
    lemma_fundamental_div_mod(total, workers);
    assert(0 <= q) by (nonlinear_arith)
        requires
            total == workers * q + r,
            0 <= r < workers,
            0 <= total,
    ;
    if r == 0 {
        assert(total + workers - 1 == q * workers + (workers - 1)) by (nonlinear_arith)
            requires
                total == workers * q,
        ;
        lemma_fundamental_div_mod_converse(total + workers - 1, workers, q, workers - 1);
        assert(q * workers >= total && q <= total) by (nonlinear_arith)
            requires
                total == workers * q,
                1 <= workers,
                0 <= q,
        ;
        assert((q - 1) * workers < total || total == 0) by (nonlinear_arith)
            requires
                total == workers * q,
                1 <= workers,
                0 <= q,
        ;
    } else {
        assert(total + workers - 1 == (q + 1) * workers + (r - 1)) by (nonlinear_arith)
            requires
                total == workers * q + r,
        ;
        lemma_fundamental_div_mod_converse(total + workers - 1, workers, q + 1, r - 1);
        assert((q + 1) * workers >= total && q * workers < total && q + 1 <= total)
            by (nonlinear_arith)
            requires
                total == workers * q + r,
                0 < r < workers,
                0 <= q,
        ;
    }
}

/// The ranges follow one another without gap or overlap, from index 0 to the
/// last index: each is well formed, each ends where the next begins, the
/// first begins at 0 and the last ends at `total`.
pub proof fn lemma_chunks_contiguous(i: int, total: int, workers: int)
    requires
        0 <= total,
        1 <= workers,
        0 <= i < workers,
    ensures
        0 <= chunk_start(i, total, workers) <= chunk_end(i, total, workers) <= total,
        chunk_end(i, total, workers) == chunk_start(i + 1, total, workers),
        chunk_end(i, total, workers) - chunk_start(i, total, workers) <= chunk_len(
            total,
            workers,
        ),
        chunk_start(0, total, workers) == 0,
        chunk_end(workers - 1, total, workers) == total,
{
    let c = chunk_len(total, workers);
    lemma_chunk_len_is_ceiling(total, workers);
    assert(0 <= i * c && (i + 1) * c == i * c + c) by (nonlinear_arith)
        requires
            0 <= i,
            0 <= c,
    ;
    assert(0 * c == 0);
    assert((workers - 1 + 1) * c >= total) by (nonlinear_arith)
        requires
            c * workers >= total,
    ;
}

/// The plan tiles the indices: it has one range per worker, the first range
/// begins at 0, each range ends where the next begins, and the last ends at
/// `total`.
pub proof fn lemma_plan_tiles(total: u32, workers: u32)
    requires
        1 <= workers,
    ensures
        plan_of(total as int, workers as int).len() == workers,
        plan_of(total as int, workers as int).first().start == 0,
        plan_of(total as int, workers as int).last().end == total,
        forall|i: int|
            0 <= i < workers ==> (#[trigger] plan_of(total as int, workers as int)[i]).start
                <= plan_of(total as int, workers as int)[i].end,
        forall|i: int|
            0 <= i < workers - 1 ==> (#[trigger] plan_of(total as int, workers as int)[i]).end
                == plan_of(total as int, workers as int)[i + 1].start,
{
    let plan = plan_of(total as int, workers as int);
    lemma_chunks_contiguous(0, total as int, workers as int);
    lemma_chunks_contiguous(workers - 1, total as int, workers as int);
    assert forall|i: int| 0 <= i < workers implies (#[trigger] plan[i]).start <= plan[i].end by {
        lemma_chunks_contiguous(i, total as int, workers as int);
    }
    assert forall|i: int| 0 <= i < workers - 1 implies (#[trigger] plan[i]).end == plan[i
        + 1].start by {
        lemma_chunks_contiguous(i, total as int, workers as int);
        lemma_chunks_contiguous(i + 1, total as int, workers as int);
    }
}

/// Ranges of different workers share no index.
pub proof fn lemma_chunks_disjoint(i: int, j: int, total: int, workers: int)
    requires
        0 <= total <= u32::MAX,
        1 <= workers,
        0 <= i < j < workers,
    ensures
        chunk_end(i, total, workers) <= chunk_start(j, total, workers),
        forall|idx: int|
            !(chunk_at(i, total, workers).holds(idx) && chunk_at(j, total, workers).holds(idx)),
{
    let c = chunk_len(total, workers);
    lemma_chunk_len_is_ceiling(total, workers);
    lemma_chunks_contiguous(i, total, workers);
    lemma_chunks_contiguous(j, total, workers);
    assert((i + 1) * c <= j * c) by (nonlinear_arith)
        requires
            i + 1 <= j,
            0 <= c,
    ;
}

/// Every index below `total` lies in the range of exactly one worker: the
/// worker `idx / share`.
pub proof fn lemma_chunks_cover(idx: int, total: int, workers: int)
    requires
        0 <= idx < total <= u32::MAX,
        1 <= workers,
    ensures
        0 <= idx / chunk_len(total, workers) < workers,
        chunk_at(idx / chunk_len(total, workers), total, workers).holds(idx),
        forall|j: int|
            0 <= j < workers && #[trigger] chunk_at(j, total, workers).holds(idx) ==> j == idx
                / chunk_len(total, workers),
{
    let c = chunk_len(total, workers);
    lemma_chunk_len_is_ceiling(total, workers);
    assert(c >= 1) by (nonlinear_arith)
        requires
            c * workers >= total,
            total >= 1,
            workers >= 1,
            c >= 0,
    ;
    let o = idx / c;
    lemma_fundamental_div_mod(idx, c);
    assert(0 <= o < workers && o * c <= idx < (o + 1) * c) by (nonlinear_arith)
        requires
            idx == c * o + idx % c,
            0 <= idx % c < c,
            0 <= idx < total,
            c * workers >= total,
            c >= 1,
            workers >= 1,
    ;
    lemma_chunks_contiguous(o, total, workers);
    assert forall|j: int|
        0 <= j < workers && #[trigger] chunk_at(j, total, workers).holds(idx) implies j == o by {
        lemma_chunks_contiguous(j, total, workers);
        if j < o {
            lemma_chunks_disjoint(j, o, total, workers);
        } else if o < j {
            lemma_chunks_disjoint(o, j, total, workers);
        }
    }
}

/// The indices of the first `n` ranges, one range after the other.
pub open spec fn indices_upto(n: int, total: int, workers: int) -> Seq<int>
    decreases n,
{
    if n <= 0 {
        Seq::empty()
    } else {
        indices_upto(n - 1, total, workers) + chunk_at(n - 1, total, workers).indices()
    }
}

/// The ranges of the first `n` workers, laid end to end, count up from 0 to
/// where the last of them ends.
pub proof fn lemma_indices_upto(n: int, total: int, workers: int)
    requires
        0 <= total <= u32::MAX,
        1 <= workers,
        0 <= n <= workers,
    ensures
        indices_upto(n, total, workers) == Seq::new(
            chunk_start(n, total, workers) as nat,
            |k: int| k,
        ),
    decreases n,
{
    if n == 0 {
        assert(0 * chunk_len(total, workers) == 0);
        assert(indices_upto(n, total, workers) =~= Seq::new(0, |k: int| k));
    } else {
        lemma_indices_upto(n - 1, total, workers);
        lemma_chunks_contiguous(n - 1, total, workers);
        assert(indices_upto(n, total, workers) =~= Seq::new(
            chunk_start(n, total, workers) as nat,
            |k: int| k,
        ));
    }
}

/// However many workers share the work, their ranges laid end to end in
/// worker order are the indices `0, 1, .., total - 1`: the split decides who
/// computes a pixel, never which pixels are computed or where they stand.
pub proof fn lemma_partition_is_identity(total: int, workers: int)
    requires
        0 <= total <= u32::MAX,
        1 <= workers,
    ensures
        indices_upto(workers, total, workers) == Seq::new(total as nat, |k: int| k),
{
    lemma_indices_upto(workers, total, workers);
    lemma_chunks_contiguous(workers - 1, total, workers);
}

/// Two splits of the same indices among different numbers of workers lay
/// out the same indices in the same order.
pub proof fn lemma_partition_independent_of_workers(total: int, w1: int, w2: int)
    requires
        0 <= total <= u32::MAX,
        1 <= w1,
        1 <= w2,
    ensures
        indices_upto(w1, total, w1) == indices_upto(w2, total, w2),
{
    lemma_partition_is_identity(total, w1);
    lemma_partition_is_identity(total, w2);
}

/// The share of one worker: `total / workers`, rounded up.
pub fn chunk_size(total: u32, workers: u32) -> (share: u32)
    requires
        workers >= 1,
    ensures
        share == chunk_len(total as int, workers as int),
{
    proof {
        lemma_chunk_len_is_ceiling(total as int, workers as int);
    }
    let q: u32 = total / workers;
    if total % workers == 0 {
        q
    } else {
        q + 1
    }
}

/// Splits the indices `0 .. total` among `workers` workers: one range each,
/// in worker order, each a share long but for the last ones, which get what
/// is left, down to nothing.
///
/// Fails only where there is no worker to give the indices to.
pub fn partition(total: u32, workers: u32) -> (r: Result<Vec<Chunk>, Error>)
    ensures
        workers == 0 <==> r.is_err(),
        r matches Err(e) ==> e == Error::NoWorkers,
        r matches Ok(plan) ==> plan@ == plan_of(total as int, workers as int),
{
    if workers == 0 {
        return Err(Error::NoWorkers);
    }
    let share: u32 = chunk_size(total, workers);
    let mut plan: Vec<Chunk> = Vec::new();
    let mut start: u32 = 0;
    let mut i: u32 = 0;
    proof {
        assert(0 * chunk_len(total as int, workers as int) == 0);
    }
    while i < workers
        invariant
            1 <= workers,
            i <= workers,
            share == chunk_len(total as int, workers as int),
            start == chunk_start(i as int, total as int, workers as int),
            plan.len() == i,
            forall|k: int|
                0 <= k < i ==> #[trigger] plan[k] == chunk_at(k, total as int, workers as int),
        decreases workers - i,
    {
        proof {
            lemma_chunks_contiguous(i as int, total as int, workers as int);
            assert((i + 1) * share == i * share + share) by (nonlinear_arith);
        }
        let end: u32 = if total - start <= share {
            total
        } else {
            start + share
        };
        plan.push(Chunk { start, end });
        start = end;
        i = i + 1;
    }
    proof {
        assert(plan@ =~= plan_of(total as int, workers as int));
    }
    Ok(plan)
}

} // verus!
