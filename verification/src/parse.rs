//! Pattern compiler: turns a textual pattern description into a sequence of
//! byte matchers.
//!
//! Two syntaxes are accepted. The space-delimited syntax separates tokens by
//! single spaces; a token is two hexadecimal digits (an exact byte) or `?` /
//! `??` (a wildcard byte). The contiguous syntax splits the text into
//! two-character groups; a group is two hexadecimal digits or the literal
//! `??`.

use vstd::prelude::*;

use crate::matcher::Matcher;

verus! {

/// Why a pattern description was rejected.
#[derive(Clone, Copy, PartialEq, Eq, Structural, Debug)]
pub enum PatternError {
    /// The token at byte offset `start`, `len` bytes long, is neither a
    /// two-digit hexadecimal byte nor a wildcard token.
    InvalidToken { start: usize, len: usize },
    /// The contiguous syntax was given an odd number of characters.
    OddLength,
    /// The description contains no matcher at all.
    EmptyPattern,
}

/// The byte value of the space character.
pub const SPACE: u8 = 32;

/// The byte value of the wildcard character `?`.
pub const WILDCARD: u8 = 63;

/// Whether `b` is an ASCII hexadecimal digit.
pub open spec fn is_hex_digit(b: u8) -> bool {
    (48 <= b && b <= 57) || (97 <= b && b <= 102) || (65 <= b && b <= 70)
}

/// The numeric value of a hexadecimal digit.
pub open spec fn hex_val(b: u8) -> int
    recommends
        is_hex_digit(b),
{
    if 48 <= b && b <= 57 {
        b - 48
    } else if 97 <= b && b <= 102 {
        b - 87
    } else {
        b - 55
    }
}

/// The byte denoted by the two hexadecimal digits `hi` `lo`.
pub open spec fn byte_of(hi: u8, lo: u8) -> u8
    recommends
        is_hex_digit(hi),
        is_hex_digit(lo),
{
    (hex_val(hi) * 16 + hex_val(lo)) as u8
}

/// The matcher denoted by one space-delimited token, if any: `?` and `??`
/// are wildcards, two hexadecimal digits are an exact byte.
pub open spec fn spec_token(t: Seq<u8>) -> Option<Matcher> {
    if t =~= seq![WILDCARD] || t =~= seq![WILDCARD, WILDCARD] {
        Some(Matcher::Wildcard)
    } else if t.len() == 2 && is_hex_digit(t[0]) && is_hex_digit(t[1]) {
        Some(Matcher::Exact(byte_of(t[0], t[1])))
    } else {
        None
    }
}

/// The first index at or after `i` holding a space, or the end of `s`.
pub open spec fn token_end(s: Seq<u8>, i: int) -> int
    decreases s.len() - i,
{
    if i < 0 {
        0
    } else if i >= s.len() {
        i
    } else if s[i] == SPACE {
        i
    } else {
        token_end(s, i + 1)
    }
}

pub proof fn lemma_token_end(s: Seq<u8>, i: int)
    requires
        0 <= i <= s.len(),
    ensures
        i <= token_end(s, i) <= s.len(),
        forall|k: int| i <= k < token_end(s, i) ==> s[k] != SPACE,
        token_end(s, i) < s.len() ==> s[token_end(s, i)] == SPACE,
    decreases s.len() - i,
{
    if i < s.len() && s[i] != SPACE {
        lemma_token_end(s, i + 1);
    }
}

/// `token_end` is determined by the nearest space.
pub proof fn lemma_token_end_eq(s: Seq<u8>, i: int, j: int)
    requires
        0 <= i <= j <= s.len(),
        forall|k: int| i <= k < j ==> s[k] != SPACE,
        j < s.len() ==> s[j] == SPACE,
    ensures
        token_end(s, i) == j,
    decreases j - i,
{
    if i < j {
        lemma_token_end_eq(s, i + 1, j);
    }
}

/// Parses the space-delimited tokens of `s` from the token start `i` on:
/// either the matchers they denote, or the first invalid token.
pub open spec fn spec_parse_ida_from(s: Seq<u8>, i: int) -> Result<Seq<Matcher>, PatternError>
    decreases s.len() - i,
    when 0 <= i <= s.len()
    via spec_parse_ida_from_decreases
{
    let j = token_end(s, i);
    match spec_token(s.subrange(i, j)) {
        Option::None => Result::Err(
            PatternError::InvalidToken { start: i as usize, len: (j - i) as usize },
        ),
        Option::Some(m) => {
            if j == s.len() {
                Result::Ok(seq![m])
            } else {
                match spec_parse_ida_from(s, j + 1) {
                    Result::Ok(rest) => Result::Ok(seq![m] + rest),
                    Result::Err(e) => Result::Err(e),
                }
            }
        },
    }
}

#[via_fn]
proof fn spec_parse_ida_from_decreases(s: Seq<u8>, i: int) {
    lemma_token_end(s, i);
}

/// The space-delimited (IDA-style) pattern grammar: the whole description is
/// a non-empty list of single-space-separated tokens.
pub open spec fn spec_parse_ida(s: Seq<u8>) -> Result<Seq<Matcher>, PatternError> {
    if s.len() == 0 {
        Result::Err(PatternError::EmptyPattern)
    } else {
        spec_parse_ida_from(s, 0)
    }
}

/// The matcher denoted by one two-character group of the contiguous syntax.
pub open spec fn spec_group(g: Seq<u8>) -> Option<Matcher>
    recommends
        g.len() == 2,
{
    if g =~= seq![WILDCARD, WILDCARD] {
        Some(Matcher::Wildcard)
    } else if g.len() == 2 && is_hex_digit(g[0]) && is_hex_digit(g[1]) {
        Some(Matcher::Exact(byte_of(g[0], g[1])))
    } else {
        None
    }
}

/// Parses the two-character groups of `s` from index `i` on.
pub open spec fn spec_parse_hex_from(s: Seq<u8>, i: int) -> Result<Seq<Matcher>, PatternError>
    decreases s.len() - i,
    when 0 <= i <= s.len() && (s.len() - i) % 2 == 0
{
    if i == s.len() {
        Result::Ok(seq![])
    } else {
        match spec_group(s.subrange(i, i + 2)) {
            Option::None => Result::Err(PatternError::InvalidToken { start: i as usize, len: 2 }),
            Option::Some(m) => {
                match spec_parse_hex_from(s, i + 2) {
                    Result::Ok(rest) => Result::Ok(seq![m] + rest),
                    Result::Err(e) => Result::Err(e),
                }
            },
        }
    }
}

/// The contiguous (plain hex) pattern grammar: an even-length, non-empty
/// string of two-character groups.
pub open spec fn spec_parse_hex(s: Seq<u8>) -> Result<Seq<Matcher>, PatternError> {
    if s.len() == 0 {
        Result::Err(PatternError::EmptyPattern)
    } else if s.len() % 2 != 0 {
        Result::Err(PatternError::OddLength)
    } else {
        spec_parse_hex_from(s, 0)
    }
}

/// The canonical text of a hexadecimal digit value, lower case.
pub open spec fn render_hex_digit(v: int) -> u8
    recommends
        0 <= v < 16,
{
    if v < 10 {
        (48 + v) as u8
    } else {
        (87 + v) as u8
    }
}

/// The canonical two-character text of one matcher: `??` for a wildcard,
/// two lower-case hexadecimal digits for an exact byte. Valid as a
/// space-delimited token and as a contiguous group alike.
pub open spec fn render_matcher(m: Matcher) -> Seq<u8> {
    match m {
        Matcher::Wildcard => seq![WILDCARD, WILDCARD],
        Matcher::Exact(b) => seq![
            render_hex_digit(b as int / 16),
            render_hex_digit(b as int % 16),
        ],
    }
}

/// The canonical contiguous-hex text of a matcher sequence.
pub open spec fn render_hex(ms: Seq<Matcher>) -> Seq<u8>
    decreases ms.len(),
{
    if ms.len() == 0 {
        seq![]
    } else {
        render_matcher(ms[0]) + render_hex(ms.drop_first())
    }
}

/// The canonical space-delimited text of a matcher sequence: the same
/// tokens, joined by single spaces.
pub open spec fn render_ida(ms: Seq<Matcher>) -> Seq<u8>
    decreases ms.len(),
{
    if ms.len() == 0 {
        seq![]
    } else if ms.len() == 1 {
        render_matcher(ms[0])
    } else {
        render_matcher(ms[0]) + seq![SPACE] + render_ida(ms.drop_first())
    }
}

proof fn lemma_render_matcher(m: Matcher)
    ensures
        render_matcher(m).len() == 2,
        render_matcher(m)[0] != SPACE && render_matcher(m)[1] != SPACE,
        spec_token(render_matcher(m)) == Some(m),
        spec_group(render_matcher(m)) == Some(m),
{
    let t = render_matcher(m);
    match m {
        Matcher::Wildcard => {
            assert(t =~= seq![WILDCARD, WILDCARD]);
        },
        Matcher::Exact(b) => {
            let hi = b / 16;
            let lo = b % 16;
            assert(0 <= hi < 16 && 0 <= lo < 16);
            assert(is_hex_digit(render_hex_digit(hi as int)) && hex_val(
                render_hex_digit(hi as int),
            ) == hi);
            assert(is_hex_digit(render_hex_digit(lo as int)) && hex_val(
                render_hex_digit(lo as int),
            ) == lo);
            assert(16 * hi + lo == b);
            assert(byte_of(t[0], t[1]) == b);
            assert(!(t =~= seq![WILDCARD]) && !(t =~= seq![WILDCARD, WILDCARD]));
        },
    }
}

proof fn lemma_render_hex_len(ms: Seq<Matcher>)
    ensures
        render_hex(ms).len() == 2 * ms.len(),
    decreases ms.len(),
{
    if ms.len() > 0 {
        lemma_render_matcher(ms[0]);
        lemma_render_hex_len(ms.drop_first());
    }
}

proof fn lemma_render_ida_len(ms: Seq<Matcher>)
    ensures
        ms.len() >= 1 ==> render_ida(ms).len() == 3 * ms.len() - 1,
    decreases ms.len(),
{
    if ms.len() >= 1 {
        lemma_render_matcher(ms[0]);
        lemma_render_ida_len(ms.drop_first());
    }
}

proof fn lemma_hex_roundtrip_from(s: Seq<u8>, ms: Seq<Matcher>, i: int)
    requires
        0 <= i <= s.len(),
        s.subrange(i, s.len() as int) == render_hex(ms),
        (s.len() - i) % 2 == 0,
    ensures
        spec_parse_hex_from(s, i) == Result::<Seq<Matcher>, PatternError>::Ok(ms),
    decreases ms.len(),
{
    lemma_render_hex_len(ms);
    if ms.len() == 0 {
        assert(ms =~= Seq::<Matcher>::empty());
    } else {
        lemma_render_matcher(ms[0]);
        let tail = s.subrange(i, s.len() as int);
        assert(s.subrange(i, i + 2) =~= render_matcher(ms[0])) by {
            assert(tail[0] == s[i] && tail[1] == s[i + 1]);
        }
        assert(spec_group(s.subrange(i, i + 2)) == Some(ms[0]));
        lemma_render_hex_len(ms.drop_first());
        assert(s.subrange(i + 2, s.len() as int) =~= render_hex(ms.drop_first())) by {
            assert forall|k: int| 0 <= k < s.len() - i - 2 implies s.subrange(
                i + 2,
                s.len() as int,
            )[k] == render_hex(ms.drop_first())[k] by {
                assert(tail[2 + k] == s[i + 2 + k]);
                assert(render_hex(ms)[2 + k] == render_hex(ms.drop_first())[k]);
            }
        }
        lemma_hex_roundtrip_from(s, ms.drop_first(), i + 2);
        assert(seq![ms[0]] + ms.drop_first() =~= ms);
    }
}

proof fn lemma_ida_roundtrip_from(s: Seq<u8>, ms: Seq<Matcher>, i: int)
    requires
        1 <= ms.len(),
        0 <= i <= s.len(),
        s.subrange(i, s.len() as int) == render_ida(ms),
    ensures
        spec_parse_ida_from(s, i) == Result::<Seq<Matcher>, PatternError>::Ok(ms),
    decreases ms.len(),
{
    lemma_render_ida_len(ms);
    lemma_render_matcher(ms[0]);
    let tail = s.subrange(i, s.len() as int);
    assert(tail[0] == s[i] && tail[1] == s[i + 1]);
    if ms.len() == 1 {
        assert(i + 2 == s.len());
        lemma_token_end_eq(s, i, i + 2);
        assert(s.subrange(i, i + 2) =~= render_matcher(ms[0]));
        assert(spec_token(s.subrange(i, i + 2)) == Some(ms[0]));
        assert(seq![ms[0]] =~= ms);
    } else {
        assert(tail[2] == s[i + 2] && tail[2] == SPACE);
        lemma_token_end_eq(s, i, i + 2);
        assert(s.subrange(i, i + 2) =~= render_matcher(ms[0]));
        assert(spec_token(s.subrange(i, i + 2)) == Some(ms[0]));
        lemma_render_ida_len(ms.drop_first());
        assert(s.subrange(i + 3, s.len() as int) =~= render_ida(ms.drop_first())) by {
            assert forall|k: int| 0 <= k < s.len() - i - 3 implies s.subrange(
                i + 3,
                s.len() as int,
            )[k] == render_ida(ms.drop_first())[k] by {
                assert(tail[3 + k] == s[i + 3 + k]);
                assert(render_ida(ms)[3 + k] == render_ida(ms.drop_first())[k]);
            }
        }
        lemma_ida_roundtrip_from(s, ms.drop_first(), i + 3);
        assert(seq![ms[0]] + ms.drop_first() =~= ms);
    }
}

/// Round-trip between the two syntaxes: the canonical space-delimited text
/// and the canonical contiguous-hex text of one matcher sequence (same
/// bytes, same wildcard positions) both compile back to exactly that
/// sequence. The two descriptions therefore denote one pattern, which
/// matches an identical set of offsets on any buffer.
pub proof fn lemma_pattern_text_round_trip(ms: Seq<Matcher>)
    requires
        ms.len() >= 1,
    ensures
        spec_parse_ida(render_ida(ms)) == Result::<Seq<Matcher>, PatternError>::Ok(ms),
        spec_parse_hex(render_hex(ms)) == Result::<Seq<Matcher>, PatternError>::Ok(ms),
{
    lemma_render_hex_len(ms);
    lemma_render_ida_len(ms);
    let sh = render_hex(ms);
    let si = render_ida(ms);
    assert(sh.subrange(0, sh.len() as int) =~= sh);
    assert(si.subrange(0, si.len() as int) =~= si);
    lemma_hex_roundtrip_from(sh, ms, 0);
    lemma_ida_roundtrip_from(si, ms, 0);
}

/// The numeric value of one hexadecimal digit.
pub fn hex_digit_val(b: u8) -> (r: u8)
    requires
        is_hex_digit(b),
    ensures
        r == hex_val(b),
        r < 16,
{
    if b <= 57 {
        b - 48
    } else if b >= 97 {
        b - 87
    } else {
        b - 55
    }
}

/// Compiles a space-delimited (IDA-style) pattern description, given as the
/// description's bytes.
pub fn parse_ida_style(s: &[u8]) -> (r: Result<Vec<Matcher>, PatternError>)
    ensures
        r matches Ok(v) ==> spec_parse_ida(s@) == Result::<Seq<Matcher>, PatternError>::Ok(v@),
        r matches Err(e) ==> spec_parse_ida(s@) == Result::<Seq<Matcher>, PatternError>::Err(e),
        r matches Ok(v) ==> v@.len() >= 1,
{
    let slen = s.len();
    if slen == 0 {
        return Err(PatternError::EmptyPattern);
    }
    let mut out: Vec<Matcher> = Vec::new();
    let mut i: usize = 0;
    loop
        invariant
            slen == s@.len(),
            0 < slen,
            0 <= i <= slen,
            match spec_parse_ida_from(s@, i as int) {
                Result::Ok(rest) => spec_parse_ida_from(s@, 0) == Result::<
                    Seq<Matcher>,
                    PatternError,
                >::Ok(out@ + rest),
                Result::Err(e) => spec_parse_ida_from(s@, 0) == Result::<
                    Seq<Matcher>,
                    PatternError,
                >::Err(e),
            },
        decreases slen - i,
    {
        // Find the end of the token that starts at `i`.
        let mut j = i;
        while j < slen && s[j] != SPACE
            invariant
                slen == s@.len(),
                i <= j <= slen,
                forall|k: int| i <= k < j ==> s@[k] != SPACE,
            decreases slen - j,
        {
            j += 1;
        }
        proof {
            lemma_token_end_eq(s@, i as int, j as int);
        }
        // Parse the token.
        let tlen = j - i;
        let m_opt: Option<Matcher> = if tlen == 1 && s[i] == WILDCARD {
            proof {
                assert(s@.subrange(i as int, j as int) =~= seq![WILDCARD]);
            }
            Some(Matcher::Wildcard)
        } else if tlen == 2 && s[i] == WILDCARD && s[i + 1] == WILDCARD {
            proof {
                assert(s@.subrange(i as int, j as int) =~= seq![WILDCARD, WILDCARD]);
            }
            Some(Matcher::Wildcard)
        } else if tlen == 2 && (s[i] <= 57 && s[i] >= 48 || s[i] >= 97 && s[i] <= 102 || s[i] >= 65
            && s[i] <= 70) && (s[i + 1] <= 57 && s[i + 1] >= 48 || s[i + 1] >= 97 && s[i + 1] <= 102
            || s[i + 1] >= 65 && s[i + 1] <= 70) {
            let v = 16 * hex_digit_val(s[i]) + hex_digit_val(s[i + 1]);
            proof {
                let t = s@.subrange(i as int, j as int);
                assert(t[0] == s@[i as int] && t[1] == s@[i as int + 1]);
                assert(!(t =~= seq![WILDCARD]) && !(t =~= seq![WILDCARD, WILDCARD]));
            }
            Some(Matcher::Exact(v))
        } else {
            proof {
                let t = s@.subrange(i as int, j as int);
                assert(t.len() == 1 ==> t[0] == s@[i as int]);
                assert(t.len() == 2 ==> t[0] == s@[i as int] && t[1] == s@[i as int + 1]);
                assert(spec_token(t) is None);
            }
            None
        };
        proof {
            assert(m_opt == spec_token(s@.subrange(i as int, j as int)));
        }
        match m_opt {
            None => {
                return Err(PatternError::InvalidToken { start: i, len: tlen });
            },
            Some(m) => {
                let ghost prev = out@;
                out.push(m);
                if j == slen {
                    proof {
                        assert(spec_parse_ida_from(s@, i as int) == Result::<
                            Seq<Matcher>,
                            PatternError,
                        >::Ok(seq![m]));
                        assert(prev + seq![m] =~= out@);
                    }
                    return Ok(out);
                }
                proof {
                    let sp = spec_parse_ida_from(s@, j + 1);
                    if sp is Ok {
                        let rest = sp->Ok_0;
                        assert(prev + (seq![m] + rest) =~= out@ + rest);
                    }
                }
                i = j + 1;
            },
        }
    }
}

/// Compiles a contiguous (plain hex) pattern description, given as the
/// description's bytes.
pub fn parse_hex_string(s: &[u8]) -> (r: Result<Vec<Matcher>, PatternError>)
    ensures
        r matches Ok(v) ==> spec_parse_hex(s@) == Result::<Seq<Matcher>, PatternError>::Ok(v@),
        r matches Err(e) ==> spec_parse_hex(s@) == Result::<Seq<Matcher>, PatternError>::Err(e),
        r matches Ok(v) ==> v@.len() >= 1,
{
    let slen = s.len();
    if slen == 0 {
        return Err(PatternError::EmptyPattern);
    }
    if slen % 2 != 0 {
        return Err(PatternError::OddLength);
    }
    let mut out: Vec<Matcher> = Vec::new();
    let mut i: usize = 0;
    while i < slen
        invariant
            slen == s@.len(),
            0 < slen,
            slen % 2 == 0,
            i % 2 == 0,
            0 <= i <= slen,
            match spec_parse_hex_from(s@, i as int) {
                Result::Ok(rest) => spec_parse_hex_from(s@, 0) == Result::<
                    Seq<Matcher>,
                    PatternError,
                >::Ok(out@ + rest),
                Result::Err(e) => spec_parse_hex_from(s@, 0) == Result::<
                    Seq<Matcher>,
                    PatternError,
                >::Err(e),
            },
            out@.len() == i / 2,
        decreases slen - i,
    {
        let a = s[i];
        let b = s[i + 1];
        proof {
            let g = s@.subrange(i as int, i as int + 2);
            assert(g.len() == 2 && g[0] == s@[i as int] && g[1] == s@[i as int + 1]);
        }
        let m_opt: Option<Matcher> = if a == WILDCARD && b == WILDCARD {
            proof {
                assert(s@.subrange(i as int, i as int + 2) =~= seq![WILDCARD, WILDCARD]);
            }
            Some(Matcher::Wildcard)
        } else if (a <= 57 && a >= 48 || a >= 97 && a <= 102 || a >= 65 && a <= 70) && (b <= 57 && b
            >= 48 || b >= 97 && b <= 102 || b >= 65 && b <= 70) {
            Some(Matcher::Exact(16 * hex_digit_val(a) + hex_digit_val(b)))
        } else {
            None
        };
        proof {
            assert(m_opt == spec_group(s@.subrange(i as int, i as int + 2)));
        }
        match m_opt {
            None => {
                return Err(PatternError::InvalidToken { start: i, len: 2 });
            },
            Some(m) => {
                let ghost prev = out@;
                out.push(m);
                proof {
                    let sp = spec_parse_hex_from(s@, i + 2);
                    if sp is Ok {
                        let rest = sp->Ok_0;
                        assert(prev + (seq![m] + rest) =~= out@ + rest);
                    }
                }
                i = i + 2;
            },
        }
    }
    proof {
        assert(out@ + Seq::<Matcher>::empty() =~= out@);
    }
    Ok(out)
}

} // verus!
