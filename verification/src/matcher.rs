//! Matcher core: the compiled form of a pattern element and the
//! sliding-window search over one byte range.

use vstd::prelude::*;

verus! {

/// One element of a compiled pattern: either an exact byte value, or a
/// byte-level wildcard that accepts any byte.
#[derive(Clone, Copy, PartialEq, Eq, Structural, Debug)]
pub enum Matcher {
    Exact(u8),
    Wildcard,
}

/// What it means for one matcher to accept one byte.
pub open spec fn matcher_accepts(m: Matcher, b: u8) -> bool {
    match m {
        Matcher::Exact(x) => b == x,
        Matcher::Wildcard => true,
    }
}

/// A pattern matches `data` starting at offset `i` when the whole pattern
/// fits inside the buffer and every matcher accepts the byte at its position.
pub open spec fn matches_at(data: Seq<u8>, pat: Seq<Matcher>, i: int) -> bool {
    &&& 0 <= i
    &&& i + pat.len() <= data.len()
    &&& forall|k: int| 0 <= k < pat.len() ==> matcher_accepts(pat[k], data[i + k])
}

/// A match that a scan over the primary interval `[start, end)` must report:
/// its first byte lies in the primary interval and the whole pattern fits
/// below `window_end` (the primary end widened by the overlap, clamped to the
/// scanned region's end).
pub open spec fn owned_match(
    data: Seq<u8>,
    pat: Seq<Matcher>,
    start: int,
    end: int,
    window_end: int,
    i: int,
) -> bool {
    &&& start <= i < end
    &&& i + pat.len() <= window_end
    &&& matches_at(data, pat, i)
}

/// A pattern made only of wildcards matches at every position that leaves
/// room for its length: every offset `i` with `i + pat.len() <= data.len()`
/// is a match start.
pub proof fn lemma_all_wildcard_matches_everywhere(data: Seq<u8>, pat: Seq<Matcher>)
    requires
        forall|k: int| 0 <= k < pat.len() ==> (#[trigger] pat[k]) is Wildcard,
    ensures
        forall|i: int| 0 <= i && i + pat.len() <= data.len() ==> matches_at(data, pat, i),
{
    assert forall|i: int| 0 <= i && i + pat.len() <= data.len() implies matches_at(
        data,
        pat,
        i,
    ) by {
        assert forall|k: int| 0 <= k < pat.len() implies matcher_accepts(pat[k], data[i + k]) by {
            assert(pat[k] is Wildcard);
        }
    }
}

/// Checks whether the pattern matches at start offset `i`.
pub fn is_match_at(data: &[u8], pat: &Vec<Matcher>, i: usize) -> (r: bool)
    requires
        i + pat@.len() <= data@.len(),
    ensures
        r == matches_at(data@, pat@, i as int),
{
    let dlen = data.len();
    let mut k: usize = 0;
    while k < pat.len()
        invariant
            0 <= k <= pat@.len(),
            i + pat@.len() <= data@.len(),
            dlen == data@.len(),
            forall|j: int| 0 <= j < k ==> matcher_accepts(pat@[j], data@[i + j]),
        decreases pat@.len() - k,
    {
        let accepted = match pat[k] {
            Matcher::Exact(x) => data[i + k] == x,
            Matcher::Wildcard => true,
        };
        if !accepted {
            return false;
        }
        k += 1;
    }
    true
}

/// Matcher core: reports, in ascending order, every match start offset owned
/// by the range `[start, end)` (widened to `window_end` for matches that
/// straddle the primary boundary). When `stop_after_first` is set, the scan
/// stops at the lowest owned match of this range and reports only that one.
pub fn scan_range(
    data: &[u8],
    pat: &Vec<Matcher>,
    start: usize,
    end: usize,
    window_end: usize,
    stop_after_first: bool,
) -> (r: Vec<usize>)
    requires
        pat@.len() >= 1,
        start <= end,
        end <= window_end,
        window_end <= data@.len(),
    ensures
        forall|j: int| 0 <= j < r@.len() ==> owned_match(
            data@,
            pat@,
            start as int,
            end as int,
            window_end as int,
            #[trigger] r@[j] as int,
        ),
        forall|j1: int, j2: int| 0 <= j1 < j2 < r@.len() ==> r@[j1] < r@[j2],
        (exists|i: usize|
            owned_match(data@, pat@, start as int, end as int, window_end as int, i as int))
            <==> r@.len() > 0,
        !stop_after_first ==> forall|i: usize|
            owned_match(data@, pat@, start as int, end as int, window_end as int, i as int)
                ==> r@.contains(i),
        stop_after_first ==> r@.len() <= 1,
        stop_after_first && r@.len() == 1 ==> forall|i: usize|
            owned_match(data@, pat@, start as int, end as int, window_end as int, i as int)
                ==> r@[0] <= i,
{
    let mut r: Vec<usize> = Vec::new();
    let plen = pat.len();
    if window_end - start < plen {
        return r;
    }
    // Candidate start offsets are exactly [start, hi).
    let lim = window_end - plen + 1;
    let hi = if end < lim {
        end
    } else {
        lim
    };
    let mut i = start;
    while i < hi
        invariant
            pat@.len() >= 1,
            start <= end <= window_end <= data@.len(),
            window_end - start >= pat@.len(),
            lim == window_end - pat@.len() + 1,
            hi == if end < lim { end } else { lim },
            start <= i <= hi,
            forall|j: int| 0 <= j < r@.len() ==> owned_match(
                data@,
                pat@,
                start as int,
                end as int,
                window_end as int,
                #[trigger] r@[j] as int,
            ),
            forall|j: int| 0 <= j < r@.len() ==> r@[j] < i,
            forall|j1: int, j2: int| 0 <= j1 < j2 < r@.len() ==> r@[j1] < r@[j2],
            !stop_after_first ==> forall|c: usize|
                start <= c < i && owned_match(
                    data@,
                    pat@,
                    start as int,
                    end as int,
                    window_end as int,
                    c as int,
                ) ==> r@.contains(c),
            stop_after_first ==> r@.len() == 0,
            r@.len() == 0 ==> forall|c: usize|
                owned_match(data@, pat@, start as int, end as int, window_end as int, c as int)
                    ==> c >= i,
        decreases hi - i,
    {
        if is_match_at(data, pat, i) {
            proof {
                assert(owned_match(
                    data@,
                    pat@,
                    start as int,
                    end as int,
                    window_end as int,
                    i as int,
                ));
            }
            let ghost prev = r@;
            r.push(i);
            proof {
                assert forall|c: usize|
                    start <= c < i + 1 && owned_match(
                        data@,
                        pat@,
                        start as int,
                        end as int,
                        window_end as int,
                        c as int,
                    ) implies r@.contains(c) by {
                    if c < i {
                        if prev.contains(c) {
                            let j = choose|j: int| 0 <= j < prev.len() && prev[j] == c;
                            assert(r@[j] == c);
                        }
                    } else {
                        assert(r@[r@.len() - 1] == c);
                    }
                }
            }
            if stop_after_first {
                return r;
            }
        }
        i += 1;
    }
    proof {
        if r@.len() > 0 {
            assert(owned_match(
                data@,
                pat@,
                start as int,
                end as int,
                window_end as int,
                r@[0] as int,
            ));
        }
        if exists|c: usize|
            owned_match(data@, pat@, start as int, end as int, window_end as int, c as int) {
            let c = choose|c: usize|
                owned_match(data@, pat@, start as int, end as int, window_end as int, c as int);
            assert(c < hi);
            assert(r@.len() > 0);
        }
    }
    r
}

} // verus!
