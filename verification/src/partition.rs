//! Scan partitioner: tiles a scan region into per-worker byte ranges with
//! enough trailing overlap to catch matches that straddle a boundary.

use vstd::prelude::*;

verus! {

/// One worker's assignment: the primary interval `[start, end)` owns the
/// matches whose first byte falls inside it; `window_end` extends the
/// readable window by `pattern length - 1` bytes past `end` (clamped to the
/// region's end) so such a match can still be examined in full.
#[derive(Clone, Copy, PartialEq, Eq, Structural, Debug)]
pub struct ScanRange {
    pub start: usize,
    pub end: usize,
    pub window_end: usize,
}

/// The number of ranges the partitioner produces: the requested worker count,
/// reduced to the region length when the region is shorter than that, and
/// never below one.
pub open spec fn effective_workers(region_len: int, threads: int) -> int {
    if region_len == 0 {
        1
    } else if threads <= region_len {
        threads
    } else {
        region_len
    }
}

/// The primary-interval width used by the deterministic tiling:
/// `ceil(region_len / n)`.
pub open spec fn chunk_size(region_len: int, n: int) -> int {
    region_len / n + if region_len % n == 0 {
        0int
    } else {
        1int
    }
}

/// The ranges tile the region deterministically: range `k` covers
/// `[region_start + k*chunk, region_start + (k+1)*chunk)`, clamped to
/// `region_end`, and its window extends `plen - 1` bytes further (clamped).
pub open spec fn ranges_tile(
    ranges: Seq<ScanRange>,
    region_start: int,
    region_end: int,
    plen: int,
    chunk: int,
) -> bool {
    &&& forall|k: int| 0 <= k < ranges.len() ==> (#[trigger] ranges[k]).start == clamp_to(
        region_start + k * chunk,
        region_end,
    )
    &&& forall|k: int| 0 <= k < ranges.len() ==> (#[trigger] ranges[k]).end == clamp_to(
        region_start + (k + 1) * chunk,
        region_end,
    )
    &&& forall|k: int| 0 <= k < ranges.len() ==> (#[trigger] ranges[k]).window_end == clamp_to(
        ranges[k].end + (plen - 1),
        region_end,
    )
}

/// `v`, clamped from above to `hi`.
pub open spec fn clamp_to(v: int, hi: int) -> int {
    if v < hi {
        v
    } else {
        hi
    }
}

/// Computes the per-worker scan ranges for the region
/// `[region_start, region_end)` and a pattern of length `plen`.
///
/// The primary intervals exactly tile the region: consecutive, disjoint,
/// starting at `region_start` and ending at `region_end`, so every region
/// offset belongs to the primary interval of exactly one range.
pub fn compute_ranges(region_start: usize, region_end: usize, threads: usize, plen: usize) -> (r:
    Vec<ScanRange>)
    requires
        region_start <= region_end,
        threads >= 1,
        plen >= 1,
    ensures
        r@.len() == effective_workers(region_end - region_start, threads as int),
        ranges_tile(
            r@,
            region_start as int,
            region_end as int,
            plen as int,
            chunk_size(
                region_end - region_start,
                effective_workers(region_end - region_start, threads as int),
            ),
        ),
        r@[0].start == region_start,
        r@[r@.len() - 1].end == region_end,
        forall|k: int| 0 <= k < r@.len() - 1 ==> (#[trigger] r@[k]).end == r@[k + 1].start,
        forall|k: int| 0 <= k < r@.len() ==> (#[trigger] r@[k]).start <= r@[k].end
            && r@[k].end <= r@[k].window_end && r@[k].window_end <= region_end,
{
    let region_len = region_end - region_start;
    let n = if region_len == 0 {
        1
    } else if threads <= region_len {
        threads
    } else {
        region_len
    };
    proof {
        let l = region_len as int;
        let ni = n as int;
        assert(l == ni * (l / ni) + l % ni && (l % ni == 0 || l % ni >= 1) && l / ni >= 0 && l / ni
            <= ni * (l / ni)) by (nonlinear_arith)
            requires
                ni >= 1,
                l >= 0,
        ;
    }
    let q = region_len / n;
    let chunk = if region_len % n == 0 {
        q
    } else {
        q + 1
    };
    let ghost chunk_i = chunk_size(region_len as int, n as int);
    let mut r: Vec<ScanRange> = Vec::new();
    let mut pos = region_start;
    let mut k: usize = 0;
    while k < n
        invariant
            region_start <= region_end,
            plen >= 1,
            n == effective_workers(region_end - region_start, threads as int),
            1 <= n,
            chunk == chunk_i,
            chunk_i == chunk_size(region_end - region_start, n as int),
            0 <= k <= n,
            r@.len() == k,
            pos == clamp_to(region_start + k * chunk_i, region_end as int),
            region_start <= pos <= region_end,
            ranges_tile(r@, region_start as int, region_end as int, plen as int, chunk_i),
            forall|j: int| 0 <= j < r@.len() ==> (#[trigger] r@[j]).start <= r@[j].end
                && r@[j].end <= r@[j].window_end && r@[j].window_end <= region_end,
            forall|j: int| 0 <= j < r@.len() - 1 ==> (#[trigger] r@[j]).end == r@[j + 1].start,
            k > 0 ==> r@[k - 1].end == pos,
        decreases n - k,
    {
        let rg_start = pos;
        let rg_end = if region_end - pos < chunk {
            region_end
        } else {
            pos + chunk
        };
        let rg_window = if region_end - rg_end < plen - 1 {
            region_end
        } else {
            rg_end + (plen - 1)
        };
        proof {
            assert((k + 1) * chunk_i == k * chunk_i + chunk_i) by (nonlinear_arith);
        }
        r.push(ScanRange { start: rg_start, end: rg_end, window_end: rg_window });
        pos = rg_end;
        k += 1;
    }
    proof {
        lemma_chunks_cover(region_end - region_start, n as int);
        assert(r@[0].start == clamp_to(region_start as int, region_end as int));
    }
    r
}

/// `n` chunks of size `ceil(len / n)` cover `len` bytes.
proof fn lemma_chunks_cover(len: int, n: int)
    requires
        0 <= len,
        1 <= n,
    ensures
        n * chunk_size(len, n) >= len,
{
    let c = chunk_size(len, n);
    let q = len / n;
    let r = len % n;
    assert(len == n * q + r && 0 <= r < n) by (nonlinear_arith)
        requires
            n >= 1,
            len >= 0,
            q == len / n,
            r == len % n,
    ;
    if r == 0 {
        assert(n * c >= len);
    } else {
        assert(n * (q + 1) == n * q + n) by (nonlinear_arith);
    }
}

/// Every offset of the region lies in the primary interval of exactly one
/// range: partition boundaries neither lose an offset nor hand it to two
/// workers.
pub proof fn lemma_unique_owner(ranges: Seq<ScanRange>, i: int)
    requires
        ranges.len() >= 1,
        forall|k: int| 0 <= k < ranges.len() ==> (#[trigger] ranges[k]).start <= ranges[k].end,
        forall|k: int| 0 <= k < ranges.len() - 1 ==> (#[trigger] ranges[k]).end == ranges[k
            + 1].start,
        ranges[0].start <= i < ranges[ranges.len() - 1].end,
    ensures
        exists|k: int| 0 <= k < ranges.len() && (#[trigger] ranges[k]).start <= i < ranges[k].end,
        forall|k1: int, k2: int|
            (0 <= k1 < ranges.len() && 0 <= k2 < ranges.len() && (#[trigger] ranges[k1]).start <= i
                < ranges[k1].end && (#[trigger] ranges[k2]).start <= i < ranges[k2].end) ==> k1
                == k2,
    decreases ranges.len(),
{
    lemma_starts_ordered(ranges);
    if i < ranges[0].end {
        assert(ranges[0].start <= i < ranges[0].end);
    } else {
        let tail = ranges.drop_first();
        assert(ranges.len() >= 2);
        lemma_unique_owner(tail, i);
        let k = choose|k: int| 0 <= k < tail.len() && (#[trigger] tail[k]).start <= i < tail[k].end;
        assert(ranges[k + 1].start <= i < ranges[k + 1].end);
    }
    assert forall|k1: int, k2: int|
        (0 <= k1 < ranges.len() && 0 <= k2 < ranges.len() && (#[trigger] ranges[k1]).start <= i
            < ranges[k1].end && (#[trigger] ranges[k2]).start <= i < ranges[k2].end) implies k1
        == k2 by {
        if k1 < k2 {
            lemma_prefix_below(ranges, k1, k2);
        }
        if k2 < k1 {
            lemma_prefix_below(ranges, k2, k1);
        }
    }
}

/// In a consecutive tiling, the ends are monotone: every earlier range lies
/// entirely below the start of a later range.
proof fn lemma_prefix_below(ranges: Seq<ScanRange>, k1: int, k2: int)
    requires
        forall|k: int| 0 <= k < ranges.len() ==> (#[trigger] ranges[k]).start <= ranges[k].end,
        forall|k: int| 0 <= k < ranges.len() - 1 ==> (#[trigger] ranges[k]).end == ranges[k
            + 1].start,
        0 <= k1 < k2 < ranges.len(),
    ensures
        ranges[k1].end <= ranges[k2].start,
    decreases k2 - k1,
{
    if k1 + 1 < k2 {
        lemma_prefix_below(ranges, k1 + 1, k2);
    }
}

/// In a consecutive tiling the starts are ordered, so the first start is the
/// least offset and the last end is the greatest.
proof fn lemma_starts_ordered(ranges: Seq<ScanRange>)
    requires
        forall|k: int| 0 <= k < ranges.len() ==> (#[trigger] ranges[k]).start <= ranges[k].end,
        forall|k: int| 0 <= k < ranges.len() - 1 ==> (#[trigger] ranges[k]).end == ranges[k
            + 1].start,
    ensures
        forall|k1: int, k2: int| 0 <= k1 <= k2 < ranges.len() ==> (#[trigger] ranges[k1]).start
            <= (#[trigger] ranges[k2]).start,
{
    assert forall|k1: int, k2: int| 0 <= k1 <= k2 < ranges.len() implies (
    #[trigger] ranges[k1]).start <= (#[trigger] ranges[k2]).start by {
        if k1 < k2 {
            lemma_prefix_below(ranges, k1, k2);
        }
    }
}

} // verus!
