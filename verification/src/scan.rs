//! Scan orchestrator: pattern construction, worker-range dispatch over a
//! buffer, and aggregation of the per-range match lists.

use vstd::prelude::*;

use crate::matcher::{matches_at, owned_match, scan_range, Matcher};
use crate::parse::{parse_hex_string, parse_ida_style, spec_parse_hex, spec_parse_ida, PatternError};
use crate::container::{
    desc_view_matches, find_sections, is_recognized, section_descs, LookupFailure,
    SectionDescriptor,
};
use crate::partition::{clamp_to, compute_ranges};
use vstd::slice::slice_to_vec;
use vstd::string::StringSliceAdditionalSpecFns;

verus! {

/// A scan-time failure. Pattern-text failures are reported separately as
/// [`PatternError`].
#[derive(Clone, Debug)]
pub enum ScanError {
    /// The requested worker count is zero or exceeds the available parallel
    /// execution units.
    ThreadCount,
    /// No section of the given name exists in any member of the recognized
    /// container; carries the requested name.
    SectionNotFound(String),
    /// A section-restricted scan was requested on an unstructured buffer.
    UnsupportedContainer,
    /// The buffer carries a recognized magic number but its top-level header
    /// does not parse.
    MalformedHeader,
}

/// Configures and compiles a [`Pattern`].
#[derive(Debug)]
pub struct PatternBuilder {
    matchers: Vec<Matcher>,
    threads: usize,
}

impl View for PatternBuilder {
    type V = Seq<Matcher>;

    closed spec fn view(&self) -> Seq<Matcher> {
        self.matchers@
    }
}

impl PatternBuilder {
    /// The worker count the builder will hand to the pattern.
    pub closed spec fn spec_threads(&self) -> usize {
        self.threads
    }

    pub open spec fn wf(&self) -> bool {
        self@.len() >= 1 && self.spec_threads() >= 1
    }

    /// Compiles a space-delimited (IDA-style) pattern description, e.g.
    /// `"55 8B EC ? ? 8B 45 08"`. The worker count starts at one.
    pub fn from_ida_style(s: &str) -> (r: Result<PatternBuilder, PatternError>)
        ensures
            r matches Ok(b) ==> spec_parse_ida(s.spec_bytes()) == Result::<
                Seq<Matcher>,
                PatternError,
            >::Ok(b@) && b.wf() && b.spec_threads() == 1,
            r matches Err(e) ==> spec_parse_ida(s.spec_bytes()) == Result::<
                Seq<Matcher>,
                PatternError,
            >::Err(e),
    {
        match parse_ida_style(s.as_bytes()) {
            Ok(matchers) => Ok(PatternBuilder { matchers, threads: 1 }),
            Err(e) => Err(e),
        }
    }

    /// Compiles a contiguous hex pattern description, e.g.
    /// `"558bec????8b4508"`. The worker count starts at one.
    pub fn from_hex_string(s: &str) -> (r: Result<PatternBuilder, PatternError>)
        ensures
            r matches Ok(b) ==> spec_parse_hex(s.spec_bytes()) == Result::<
                Seq<Matcher>,
                PatternError,
            >::Ok(b@) && b.wf() && b.spec_threads() == 1,
            r matches Err(e) ==> spec_parse_hex(s.spec_bytes()) == Result::<
                Seq<Matcher>,
                PatternError,
            >::Err(e),
    {
        match parse_hex_string(s.as_bytes()) {
            Ok(matchers) => Ok(PatternBuilder { matchers, threads: 1 }),
            Err(e) => Err(e),
        }
    }

    /// Requests exactly `threads` workers. The library performs no I/O and
    /// cannot ask the host for its capacity, so the caller passes
    /// `available_parallelism`, the number of parallel execution units it
    /// measured. A request of zero, or of more workers than available units,
    /// is a configuration error, never silently clamped.
    pub fn with_threads(self, threads: usize, available_parallelism: usize) -> (r: Result<
        PatternBuilder,
        ScanError,
    >)
        ensures
            r is Ok <==> 1 <= threads <= available_parallelism,
            r matches Ok(b) ==> b@ == self@ && b.spec_threads() == threads,
            r matches Err(e) ==> e is ThreadCount,
    {
        if threads >= 1 && threads <= available_parallelism {
            Ok(PatternBuilder { matchers: self.matchers, threads })
        } else {
            Err(ScanError::ThreadCount)
        }
    }

    /// Uses every available parallel execution unit (at least one), as
    /// measured by the caller.
    pub fn with_all_threads(self, available_parallelism: usize) -> (r: PatternBuilder)
        ensures
            r@ == self@,
            r.spec_threads() == if available_parallelism == 0 {
                1usize
            } else {
                available_parallelism
            },
    {
        let threads = if available_parallelism == 0 {
            1
        } else {
            available_parallelism
        };
        PatternBuilder { matchers: self.matchers, threads }
    }

    /// Finishes the build: the pattern is immutable from here on.
    pub fn build(self) -> (p: Pattern)
        requires
            self.wf(),
        ensures
            p@ == self@,
            p.spec_threads() == self.spec_threads(),
            p.wf(),
    {
        Pattern { matchers: self.matchers, threads: self.threads }
    }
}

/// A compiled pattern: a non-empty sequence of byte matchers plus the worker
/// count the scan will partition for.
pub struct Pattern {
    matchers: Vec<Matcher>,
    threads: usize,
}

impl View for Pattern {
    type V = Seq<Matcher>;

    closed spec fn view(&self) -> Seq<Matcher> {
        self.matchers@
    }
}

/// A whole-buffer scan result list is complete when it holds exactly the
/// match offsets of the buffer, in ascending order. The worker count does
/// not appear here: partitioning never changes the reported set.
pub open spec fn complete_scan_result(data: Seq<u8>, pat: Seq<Matcher>, r: Seq<usize>) -> bool {
    &&& forall|j1: int, j2: int| 0 <= j1 < j2 < r.len() ==> r[j1] < r[j2]
    &&& forall|j: int| 0 <= j < r.len() ==> matches_at(data, pat, #[trigger] r[j] as int)
    &&& forall|i: usize| matches_at(data, pat, i as int) ==> r.contains(i)
}

impl Pattern {
    pub closed spec fn spec_threads(&self) -> usize {
        self.threads
    }

    pub open spec fn wf(&self) -> bool {
        self@.len() >= 1 && self.spec_threads() >= 1
    }

    /// The worker count this pattern was built with.
    pub fn get_threads(&self) -> (r: usize)
        ensures
            r == self.spec_threads(),
    {
        self.threads
    }

    /// The number of matchers in the pattern.
    pub fn get_length(&self) -> (r: usize)
        ensures
            r == self@.len(),
    {
        self.matchers.len()
    }

    /// Whole-buffer scan: partitions `[0, data.len())` into one range per
    /// worker and reports every offset at which the pattern matches, in
    /// ascending order, together with a "found any match" flag.
    ///
    /// When `stop_after_first` is set the scan stops at the first match
    /// found; ranges are visited in ascending order here, so that is the
    /// lowest matching offset.
    pub fn scan(&self, data: &[u8], stop_after_first: bool) -> (r: (bool, Vec<usize>))
        requires
            self.wf(),
        ensures
            r.0 <==> (exists|i: usize| matches_at(data@, self@, i as int)),
            r.0 <==> r.1@.len() > 0,
            forall|j: int| 0 <= j < r.1@.len() ==> matches_at(data@, self@, #[trigger] r.1@[j] as int),
            forall|j1: int, j2: int| 0 <= j1 < j2 < r.1@.len() ==> r.1@[j1] < r.1@[j2],
            !stop_after_first ==> complete_scan_result(data@, self@, r.1@),
            stop_after_first ==> r.1@.len() <= 1,
            stop_after_first && r.1@.len() == 1 ==> (forall|i: usize|
                matches_at(data@, self@, i as int) ==> r.1@[0] <= i),
    {
        let dlen = data.len();
        let acc = scan_region(data, &self.matchers, 0, dlen, self.threads, stop_after_first);
        proof {
            assert forall|i: usize|
                region_candidate(data@, self@, 0, dlen as int, i as int) == matches_at(
                    data@,
                    self@,
                    i as int,
                ) by {}
            if acc@.len() > 0 {
                assert(region_candidate(data@, self@, 0, dlen as int, acc@[0] as int));
            }
            if exists|i: usize| matches_at(data@, self@, i as int) {
                let i = choose|i: usize| matches_at(data@, self@, i as int);
                assert(region_candidate(data@, self@, 0, dlen as int, i as int));
                assert(acc@.len() > 0);
            }
        }
        let found = acc.len() > 0;
        (found, acc)
    }
}

/// A match start inside a scan region: the whole pattern lies inside
/// `[lo, hi)` and matches there.
pub open spec fn region_candidate(data: Seq<u8>, pat: Seq<Matcher>, lo: int, hi: int, i: int) -> bool {
    &&& lo <= i
    &&& i + pat.len() <= hi
    &&& matches_at(data, pat, i)
}

/// One scan unit of the orchestrator: partitions the region
/// `[region_start, region_end)` into one range per worker, runs the matcher
/// core on each range in ascending order, and concatenates the per-range
/// match lists. Reports exactly the region's match starts, ascending; with
/// `stop_after_first` only the region's lowest match.
#[verifier::rlimit(100)]
#[verifier::loop_isolation(false)]
fn scan_region(
    data: &[u8],
    pat: &Vec<Matcher>,
    region_start: usize,
    region_end: usize,
    threads: usize,
    stop_after_first: bool,
) -> (r: Vec<usize>)
    requires
        pat@.len() >= 1,
        threads >= 1,
        region_start <= region_end,
        region_end <= data@.len(),
    ensures
        forall|j: int| 0 <= j < r@.len() ==> region_candidate(
            data@,
            pat@,
            region_start as int,
            region_end as int,
            #[trigger] r@[j] as int,
        ),
        forall|j1: int, j2: int| 0 <= j1 < j2 < r@.len() ==> r@[j1] < r@[j2],
        (exists|i: usize|
            region_candidate(data@, pat@, region_start as int, region_end as int, i as int)) <==> r@.len()
            > 0,
        !stop_after_first ==> forall|i: usize|
            region_candidate(data@, pat@, region_start as int, region_end as int, i as int)
                ==> r@.contains(i),
        stop_after_first ==> r@.len() <= 1,
        stop_after_first && r@.len() == 1 ==> (forall|i: usize|
            region_candidate(data@, pat@, region_start as int, region_end as int, i as int)
                ==> r@[0] <= i),
{
    let plen = pat.len();
    let ranges = compute_ranges(region_start, region_end, threads, plen);
    let n = ranges.len();
    let mut acc: Vec<usize> = Vec::new();
    let mut k: usize = 0;
    while k < n
        invariant
            pat@.len() >= 1,
            plen == pat@.len(),
            region_start <= region_end,
            region_end <= data@.len(),
            n == ranges@.len(),
            n >= 1,
            0 <= k <= n,
            ranges@[0].start == region_start,
            ranges@[n - 1].end == region_end,
            forall|q: int| 0 <= q < n - 1 ==> (#[trigger] ranges@[q]).end == ranges@[q + 1].start,
            forall|q: int| 0 <= q < n ==> (#[trigger] ranges@[q]).start <= ranges@[q].end
                && ranges@[q].end <= ranges@[q].window_end && ranges@[q].window_end <= region_end,
            forall|q: int| 0 <= q < n ==> (#[trigger] ranges@[q]).window_end == clamp_to(
                ranges@[q].end + (plen - 1),
                region_end as int,
            ),
            forall|j: int| 0 <= j < acc@.len() ==> region_candidate(
                data@,
                pat@,
                region_start as int,
                region_end as int,
                #[trigger] acc@[j] as int,
            ),
            forall|j1: int, j2: int| 0 <= j1 < j2 < acc@.len() ==> acc@[j1] < acc@[j2],
            forall|j: int| 0 <= j < acc@.len() ==> (#[trigger] acc@[j] as int) < (if k < n {
                ranges@[k as int].start as int
            } else {
                region_end as int
            }),
            forall|c: usize| (c as int) < (if k < n {
                ranges@[k as int].start as int
            } else {
                region_end as int
            }) && region_candidate(data@, pat@, region_start as int, region_end as int, c as int)
                ==> acc@.contains(c),
            stop_after_first ==> acc@.len() == 0,
        decreases n - k,
    {
        let rg = *ranges.get(k).unwrap();
        proof {
            // A match owned by this range is exactly a region match starting
            // in its primary interval.
            assert forall|c: usize|
                owned_match(
                    data@,
                    pat@,
                    rg.start as int,
                    rg.end as int,
                    rg.window_end as int,
                    c as int,
                ) <==> (rg.start <= c < rg.end && region_candidate(
                data@,
                pat@,
                region_start as int,
                region_end as int,
                c as int,
            )) by {
                assert(rg.window_end == clamp_to(rg.end + (plen - 1), region_end as int));
                assert(region_start <= rg.start);
            }
        }
        let mut part = scan_range(data, pat, rg.start, rg.end, rg.window_end, stop_after_first);
        let ghost prev = acc@;
        let ghost part_seq = part@;
        let part_len = part.len();
        acc.append(&mut part);
        proof {
            assert(acc@ == prev + part_seq);
            assert forall|c: usize| prev.contains(c) implies acc@.contains(c) by {
                let j = choose|j: int| 0 <= j < prev.len() && prev[j] == c;
                assert(acc@[j] == c);
            }
            assert forall|c: usize| part_seq.contains(c) implies acc@.contains(c) by {
                let j = choose|j: int| 0 <= j < part_seq.len() && part_seq[j] == c;
                assert(acc@[prev.len() + j] == c);
            }
        }
        if stop_after_first && part_len > 0 {
            // This worker stopped at its first match; earlier ranges held
            // none and later ranges start past it, so it is the region's
            // lowest match.
            proof {
                assert(acc@.len() == 1);
                assert(acc@[0] == part_seq[0]);
                assert(region_candidate(
                    data@,
                    pat@,
                    region_start as int,
                    region_end as int,
                    acc@[0] as int,
                ));
                assert forall|i: usize|
                    region_candidate(data@, pat@, region_start as int, region_end as int, i as int)
                        implies acc@[0] <= i by {
                    if i < rg.start {
                        assert(prev.contains(i));
                    } else if i < rg.end {
                        assert(owned_match(
                            data@,
                            pat@,
                            rg.start as int,
                            rg.end as int,
                            rg.window_end as int,
                            i as int,
                        ));
                        assert(part_seq[0] <= i);
                    } else {
                        assert(acc@[0] < rg.end);
                    }
                }
            }
            return acc;
        }
        proof {
            let ghost bnew = if k + 1 < n {
                ranges@[k as int + 1].start as int
            } else {
                region_end as int
            };
            assert(rg.end as int <= bnew);
            assert forall|c: usize| (c as int) < bnew && region_candidate(
                data@,
                pat@,
                region_start as int,
                region_end as int,
                c as int,
            ) implies acc@.contains(c) by {
                if c < rg.start {
                    assert(prev.contains(c));
                } else if c < rg.end {
                    assert(owned_match(
                        data@,
                        pat@,
                        rg.start as int,
                        rg.end as int,
                        rg.window_end as int,
                        c as int,
                    ));
                    assert(part_seq.contains(c));
                } else {
                    // c < bnew and c >= rg.end: impossible, the next range
                    // starts exactly at rg.end.
                    assert(bnew <= rg.end as int || k + 1 < n);
                    assert(false);
                }
            }
        }
        k += 1;
    }
    proof {
        if acc@.len() > 0 {
            assert(region_candidate(
                data@,
                pat@,
                region_start as int,
                region_end as int,
                acc@[0] as int,
            ));
        }
        if exists|i: usize|
            region_candidate(data@, pat@, region_start as int, region_end as int, i as int) {
            let i = choose|i: usize|
                region_candidate(data@, pat@, region_start as int, region_end as int, i as int);
            assert((i as int) + pat@.len() <= region_end);
            assert((i as int) < region_end as int);
            assert(acc@.contains(i));
            assert(acc@.len() > 0);
        }
    }
    acc
}

/// One match of a section-restricted scan: the enclosing archive member's
/// identifier (absent outside archives), the match offset relative to the
/// section start, and the raw offset in the whole buffer.
#[derive(Debug)]
pub struct SectionResult {
    pub archive_id: Option<Vec<u8>>,
    pub section_offset: usize,
    pub raw_offset: usize,
}

/// A match start inside the section the model element `t` describes.
pub open spec fn desc_candidate(
    data: Seq<u8>,
    pat: Seq<Matcher>,
    t: (Option<Seq<u8>>, int, int),
    i: int,
) -> bool {
    region_candidate(data, pat, t.1, t.1 + t.2, i)
}

/// The result `s` reports the match at `i` of the section `t` describes.
pub open spec fn result_is(s: SectionResult, t: (Option<Seq<u8>>, int, int), i: int) -> bool {
    &&& (s.archive_id is Some <==> t.0 is Some)
    &&& (s.archive_id is Some ==> s.archive_id->0@ == t.0->0)
    &&& s.raw_offset == i
    &&& s.section_offset == i - t.1
}

/// The result `s` reports some match of the section `t` describes.
pub open spec fn result_in_desc(
    data: Seq<u8>,
    pat: Seq<Matcher>,
    s: SectionResult,
    t: (Option<Seq<u8>>, int, int),
) -> bool {
    exists|i: int| desc_candidate(data, pat, t, i) && result_is(s, t, i)
}

/// What a successful section-restricted scan reports, `l` being the matching
/// sections' model: one result per match of each listed section (only the
/// overall first with `stop_after_first`), and a found flag.
pub open spec fn scan_object_post(
    data: Seq<u8>,
    pat: Seq<Matcher>,
    l: Seq<(Option<Seq<u8>>, int, int)>,
    found: bool,
    res: Seq<SectionResult>,
    stop: bool,
) -> bool {
    &&& (found <==> res.len() > 0)
    &&& (found <==> exists|k: int, i: int|
        #![trigger desc_candidate(data, pat, l[k], i)]
        0 <= k < l.len() && desc_candidate(data, pat, l[k], i))
    &&& forall|j: int|
        0 <= j < res.len() ==> exists|k: int|
            0 <= k < l.len() && result_in_desc(data, pat, #[trigger] res[j], l[k])
    &&& (!stop ==> forall|k: int, i: int|
        #![trigger desc_candidate(data, pat, l[k], i)]
        (0 <= k < l.len() && desc_candidate(data, pat, l[k], i)) ==> exists|j: int|
            0 <= j < res.len() && result_is(#[trigger] res[j], l[k], i))
    &&& (stop ==> res.len() <= 1)
}

impl Pattern {
    /// Section-restricted scan: resolves `section` through the container
    /// inspector and scans every section of that name (one per archive
    /// member where the name recurs), tagging each match with the member
    /// identifier, the section-relative offset and the raw offset.
    ///
    /// Sections are scanned one after another, in member and table order,
    /// each with its own partitioned worker ranges; matches within one
    /// section come out ascending by raw offset. With `stop_after_first` the
    /// scan stops at the first match found.
    #[verifier::rlimit(100)]
    pub fn scan_object(&self, data: &[u8], section: &str, stop_after_first: bool) -> (r: Result<
        (bool, Vec<SectionResult>),
        ScanError,
    >)
        requires
            self.wf(),
        ensures
            !is_recognized(data@) <==> (r matches Err(e) && e is UnsupportedContainer),
            (is_recognized(data@) && section_descs(data@, section.spec_bytes()) is None) <==> (
            r matches Err(e) && e is MalformedHeader),
            (is_recognized(data@) && (section_descs(data@, section.spec_bytes()) matches Some(l)
                && l.len() == 0)) <==> (r matches Err(e) && (e matches ScanError::SectionNotFound(
                n,
            ) && n@ == section@)),
            r is Ok <==> (is_recognized(data@) && (section_descs(data@, section.spec_bytes())
                matches Some(l) && l.len() > 0)),
            r matches Ok(p) ==> scan_object_post(
                data@,
                self@,
                section_descs(data@, section.spec_bytes())->Some_0,
                p.0,
                p.1@,
                stop_after_first,
            ),
    {
        let nb = section.as_bytes();
        let descs = match find_sections(data, nb) {
            Err(LookupFailure::Unsupported) => {
                return Err(ScanError::UnsupportedContainer);
            },
            Err(LookupFailure::Malformed) => {
                return Err(ScanError::MalformedHeader);
            },
            Err(LookupFailure::NotFound) => {
                return Err(ScanError::SectionNotFound(section.to_owned()));
            },
            Ok(v) => v,
        };
        let ghost l = section_descs(data@, section.spec_bytes())->Some_0;
        let dlen = data.len();
        let mut results: Vec<SectionResult> = Vec::new();
        let nd = descs.len();
        let mut k: usize = 0;
        while k < nd
            invariant
                self.wf(),
                dlen == data@.len(),
                nd == descs@.len(),
                descs@.len() == l.len(),
                l.len() >= 1,
                is_recognized(data@),
                section_descs(data@, section.spec_bytes()) == Some(l),
                forall|q: int| 0 <= q < nd ==> desc_view_matches(#[trigger] descs@[q], l[q]),
                forall|q: int|
                    0 <= q < nd ==> (#[trigger] descs@[q]).file_offset + descs@[q].length <= dlen,
                0 <= k <= nd,
                forall|j: int|
                    0 <= j < results@.len() ==> exists|kk: int|
                        0 <= kk < l.len() && result_in_desc(
                            data@,
                            self@,
                            #[trigger] results@[j],
                            l[kk],
                        ),
                !stop_after_first ==> forall|kk: int, i: int|
                    #![trigger desc_candidate(data@, self@, l[kk], i)]
                    (0 <= kk < k && desc_candidate(data@, self@, l[kk], i)) ==> exists|j: int|
                        0 <= j < results@.len() && result_is(#[trigger] results@[j], l[kk], i),
                stop_after_first ==> results@.len() == 0,
                results@.len() == 0 ==> forall|kk: int, i: int|
                    #![trigger desc_candidate(data@, self@, l[kk], i)]
                    (0 <= kk < k && desc_candidate(data@, self@, l[kk], i)) ==> false,
                results@.len() > 0 ==> exists|kk: int, i: int|
                    #![trigger desc_candidate(data@, self@, l[kk], i)]
                    0 <= kk < l.len() && desc_candidate(data@, self@, l[kk], i),
            decreases nd - k,
        {
            let dsc = descs.get(k).unwrap();
            let off = dsc.file_offset;
            let slen = dsc.length;
            let ghost t = l[k as int];
            let sub = scan_region(
                data,
                &self.matchers,
                off,
                off + slen,
                self.threads,
                stop_after_first,
            );
            proof {
                assert(t.1 == off && t.2 == slen);
                assert(forall|i: int|
                    desc_candidate(data@, self@, t, i) == region_candidate(
                        data@,
                        self@,
                        off as int,
                        off as int + slen as int,
                        i,
                    ));
            }
            let ghost prev_res = results@;
            proof {
                assert(forall|j: int|
                    0 <= j < prev_res.len() ==> exists|kk: int|
                        0 <= kk < l.len() && result_in_desc(
                            data@,
                            self@,
                            #[trigger] prev_res[j],
                            l[kk],
                        ));
            }
            let aid_src: Option<&Vec<u8>> = match &dsc.member_id {
                None => None,
                Some(v) => Some(v),
            };
            let nsub = sub.len();
            let base_len = results.len();
            let mut q: usize = 0;
            while q < nsub
                invariant
                    self.wf(),
                    dlen == data@.len(),
                    nsub == sub@.len(),
                    0 <= q <= nsub,
                    t == l[k as int],
                    0 <= k < l.len(),
                    nd == descs@.len() && descs@.len() == l.len(),
                    aid_src is Some <==> t.0 is Some,
                    aid_src matches Some(v) ==> v@ == t.0->0,
                    off + slen <= dlen,
                    t.1 == off && t.2 == slen,
                    stop_after_first ==> sub@.len() <= 1 && base_len == 0,
                    forall|jj: int| 0 <= jj < sub@.len() ==> region_candidate(
                        data@,
                        self@,
                        off as int,
                        off as int + slen as int,
                        #[trigger] sub@[jj] as int,
                    ),
                    results@.len() == base_len + q,
                    base_len == prev_res.len(),
                    forall|jj: int| 0 <= jj < base_len ==> results@[jj] == prev_res[jj],
                    forall|qq: int|
                        0 <= qq < q ==> result_is(
                            #[trigger] results@[base_len + qq],
                            t,
                            sub@[qq] as int,
                        ),
                decreases nsub - q,
            {
                let m = sub[q];
                let aid: Option<Vec<u8>> = match aid_src {
                    None => None,
                    Some(vv) => Some(slice_to_vec(vv.as_slice())),
                };
                results.push(
                    SectionResult { archive_id: aid, section_offset: m - off, raw_offset: m },
                );
                proof {
                    assert(region_candidate(
                        data@,
                        self@,
                        off as int,
                        off as int + slen as int,
                        m as int,
                    ));
                    assert(result_is(results@[base_len + q], t, m as int));
                }
                q += 1;
            }
            if stop_after_first && results.len() > 0 {
                proof {
                    assert(base_len == 0 && sub@.len() == 1 && results@.len() == 1);
                    assert(result_is(results@[base_len + 0], t, sub@[0] as int));
                    assert(result_is(results@[0], t, sub@[0] as int));
                    assert(region_candidate(
                        data@,
                        self@,
                        off as int,
                        off as int + slen as int,
                        sub@[0] as int,
                    ));
                    assert(desc_candidate(data@, self@, l[k as int], sub@[0] as int));
                    assert(result_in_desc(data@, self@, results@[0], l[k as int]));
                }
                return Ok((true, results));
            }
            proof {
                if sub@.len() > 0 {
                    assert(region_candidate(
                        data@,
                        self@,
                        off as int,
                        off as int + slen as int,
                        sub@[0] as int,
                    ));
                    assert(desc_candidate(data@, self@, l[k as int], sub@[0] as int));
                }
                // Soundness of the new results.
                assert forall|j: int| 0 <= j < results@.len() implies exists|kk: int|
                    0 <= kk < l.len() && result_in_desc(data@, self@, #[trigger] results@[j], l[kk])
                    by {
                    if j < base_len {
                        assert(results@[j] == prev_res[j]);
                    } else {
                        let qq = j - base_len;
                        assert(result_is(results@[base_len + qq], t, sub@[qq] as int));
                        assert(desc_candidate(data@, self@, t, sub@[qq] as int));
                        assert(result_in_desc(data@, self@, results@[j], l[k as int]));
                    }
                }
                // Completeness for the sections processed so far.
                if !stop_after_first {
                    assert forall|kk: int, i: int|
                        #![trigger desc_candidate(data@, self@, l[kk], i)]
                        (0 <= kk < k + 1 && desc_candidate(data@, self@, l[kk], i)) implies exists|
                        j: int,
                    | 0 <= j < results@.len() && result_is(#[trigger] results@[j], l[kk], i) by {
                        if kk < k {
                            let j = choose|j: int|
                                0 <= j < prev_res.len() && result_is(
                                    #[trigger] prev_res[j],
                                    l[kk],
                                    i,
                                );
                            assert(results@[j] == prev_res[j]);
                        } else {
                            assert(region_candidate(
                                data@,
                                self@,
                                off as int,
                                off as int + slen as int,
                                i,
                            ));
                            assert(0 <= i);
                            assert(i <= usize::MAX);
                            assert(sub@.contains(i as usize));
                            let qq = choose|qq: int|
                                0 <= qq < sub@.len() && sub@[qq] == i as usize;
                            assert(result_is(results@[base_len + qq], t, i));
                        }
                    }
                }
                // No matches at all so far when nothing was reported.
                if results@.len() == 0 {
                    assert forall|kk: int, i: int|
                        #![trigger desc_candidate(data@, self@, l[kk], i)]
                        (0 <= kk < k + 1 && desc_candidate(data@, self@, l[kk], i)) implies false by {
                        if kk == k {
                            assert(region_candidate(
                                data@,
                                self@,
                                off as int,
                                off as int + slen as int,
                                i,
                            ));
                            assert(sub@.len() == 0);
                            assert(0 <= i && i <= usize::MAX);
                            assert(region_candidate(
                                data@,
                                self@,
                                off as int,
                                off as int + slen as int,
                                (i as usize) as int,
                            ));
                        }
                    }
                }
            }
            k += 1;
        }
        let found = results.len() > 0;
        proof {
            if exists|kk: int, i: int|
                #![trigger desc_candidate(data@, self@, l[kk], i)]
                0 <= kk < l.len() && desc_candidate(data@, self@, l[kk], i) {
                let (kk, i) = choose|kk: int, i: int|
                    0 <= kk < l.len() && #[trigger] desc_candidate(data@, self@, l[kk], i);
                assert(results@.len() > 0);
            }
        }
        Ok((found, results))
    }
}

/// Any two complete whole-buffer results for the same buffer and pattern are
/// the same list: scanning is deterministic, repeating a scan or changing
/// the worker count never changes the sorted offset list.
pub proof fn lemma_complete_scan_result_unique(
    data: Seq<u8>,
    pat: Seq<Matcher>,
    r1: Seq<usize>,
    r2: Seq<usize>,
)
    requires
        complete_scan_result(data, pat, r1),
        complete_scan_result(data, pat, r2),
    ensures
        r1 == r2,
{
    assert forall|i: usize| r1.contains(i) implies r2.contains(i) by {
        let j = choose|j: int| 0 <= j < r1.len() && r1[j] == i;
        assert(matches_at(data, pat, r1[j] as int));
    }
    assert forall|i: usize| r2.contains(i) implies r1.contains(i) by {
        let j = choose|j: int| 0 <= j < r2.len() && r2[j] == i;
        assert(matches_at(data, pat, r2[j] as int));
    }
    lemma_sorted_same_membership(r1, r2);
}

/// Two strictly ascending lists with the same members are equal.
pub proof fn lemma_sorted_same_membership(r1: Seq<usize>, r2: Seq<usize>)
    requires
        forall|j1: int, j2: int| 0 <= j1 < j2 < r1.len() ==> r1[j1] < r1[j2],
        forall|j1: int, j2: int| 0 <= j1 < j2 < r2.len() ==> r2[j1] < r2[j2],
        forall|i: usize| r1.contains(i) <==> r2.contains(i),
    ensures
        r1 == r2,
    decreases r1.len(),
{
    if r1.len() == 0 {
        if r2.len() > 0 {
            assert(r2.contains(r2[0]));
            assert(r1.contains(r2[0]));
            assert(false);
        }
        assert(r1 =~= r2);
    } else {
        assert(r1.contains(r1[0]));
        assert(r2.contains(r1[0]));
        if r2.len() == 0 {
            assert(false);
        }
        let j1 = choose|j: int| 0 <= j < r2.len() && r2[j] == r1[0];
        assert(r2[0] <= r2[j1]);
        assert(r2.contains(r2[0]));
        assert(r1.contains(r2[0]));
        let j2 = choose|j: int| 0 <= j < r1.len() && r1[j] == r2[0];
        assert(r1[0] <= r1[j2]);
        assert(r1[0] == r2[0]);
        let t1 = r1.drop_first();
        let t2 = r2.drop_first();
        assert forall|i: usize| t1.contains(i) <==> t2.contains(i) by {
            lemma_tail_membership(r1, i);
            lemma_tail_membership(r2, i);
            assert(r1[0] == r2[0]);
        }
        lemma_sorted_same_membership(t1, t2);
        assert(r1.len() == r2.len());
        assert forall|j: int| 0 <= j < r1.len() implies r1[j] == r2[j] by {
            if j > 0 {
                assert(r1[j] == t1[j - 1]);
                assert(r2[j] == t2[j - 1]);
            }
        }
        assert(r1 =~= r2);
    }
}

/// In a strictly ascending list, the tail holds exactly the members greater
/// than the head.
proof fn lemma_tail_membership(r: Seq<usize>, i: usize)
    requires
        r.len() >= 1,
        forall|j1: int, j2: int| 0 <= j1 < j2 < r.len() ==> r[j1] < r[j2],
    ensures
        r.drop_first().contains(i) <==> (r.contains(i) && i > r[0]),
{
    let t = r.drop_first();
    if t.contains(i) {
        let j = choose|j: int| 0 <= j < t.len() && t[j] == i;
        assert(r[j + 1] == i);
        assert(r[0] < r[j + 1]);
    }
    if r.contains(i) && i > r[0] {
        let j = choose|j: int| 0 <= j < r.len() && r[j] == i;
        assert(j != 0);
        assert(t[j - 1] == i);
    }
}

} // verus!
