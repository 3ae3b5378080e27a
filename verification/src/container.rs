//! Container inspector: detects whether a buffer is a recognized structured
//! object format (ELF, PE, Mach-O, or a static archive of members) and looks
//! up the file ranges of the sections carrying a requested name.
//!
//! Field layouts follow the public format definitions. Offsets returned are
//! absolute offsets into the inspected buffer; no bytes are copied.

use vstd::prelude::*;
use vstd::slice::{slice_subrange, slice_to_vec};

verus! {

/// The file range of one section whose name matched a lookup: the enclosing
/// archive member's identifier (absent for non-archive files), and the
/// section's absolute byte range in the inspected buffer.
#[derive(Debug)]
pub struct SectionDescriptor {
    pub member_id: Option<Vec<u8>>,
    pub file_offset: usize,
    pub length: usize,
}

// ---------------------------------------------------------------------------
// Little- and big-endian field readers.
// ---------------------------------------------------------------------------

/// The value of the two bytes at `i` read in the given byte order.
pub open spec fn u16v(d: Seq<u8>, i: int, le: bool) -> int
    recommends
        0 <= i,
        i + 2 <= d.len(),
{
    if le {
        d[i] + 0x100 * d[i + 1]
    } else {
        d[i + 1] + 0x100 * d[i]
    }
}

/// The value of the four bytes at `i` read in the given byte order.
pub open spec fn u32v(d: Seq<u8>, i: int, le: bool) -> int
    recommends
        0 <= i,
        i + 4 <= d.len(),
{
    if le {
        u16v(d, i, le) + 0x10000 * u16v(d, i + 2, le)
    } else {
        u16v(d, i + 2, le) + 0x10000 * u16v(d, i, le)
    }
}

/// The value of the eight bytes at `i` read in the given byte order.
pub open spec fn u64v(d: Seq<u8>, i: int, le: bool) -> int
    recommends
        0 <= i,
        i + 8 <= d.len(),
{
    if le {
        u32v(d, i, le) + 0x100000000 * u32v(d, i + 4, le)
    } else {
        u32v(d, i + 4, le) + 0x100000000 * u32v(d, i, le)
    }
}

pub fn read_u16(d: &[u8], i: usize, le: bool) -> (r: u16)
    requires
        i + 2 <= d@.len(),
    ensures
        r == u16v(d@, i as int, le),
{
    let a = d[i] as u16;
    let b = d[i + 1] as u16;
    if le {
        a + 0x100 * b
    } else {
        b + 0x100 * a
    }
}

pub fn read_u32(d: &[u8], i: usize, le: bool) -> (r: u32)
    requires
        i + 4 <= d@.len(),
    ensures
        r == u32v(d@, i as int, le),
{
    let _buffer_len = d.len();
    let a = read_u16(d, i, le) as u32;
    let b = read_u16(d, i + 2, le) as u32;
    if le {
        a + 0x10000 * b
    } else {
        b + 0x10000 * a
    }
}

pub fn read_u64(d: &[u8], i: usize, le: bool) -> (r: u64)
    requires
        i + 8 <= d@.len(),
    ensures
        r == u64v(d@, i as int, le),
{
    let _buffer_len = d.len();
    let a = read_u32(d, i, le) as u64;
    let b = read_u32(d, i + 4, le) as u64;
    if le {
        a + 0x100000000 * b
    } else {
        b + 0x100000000 * a
    }
}

// ---------------------------------------------------------------------------
// Zero-terminated names (bounded by a limit, as in fixed-width name fields).
// ---------------------------------------------------------------------------

/// The index of the first zero byte in `[i, limit)`, or `limit` if none.
pub open spec fn zend(d: Seq<u8>, i: int, limit: int) -> int
    decreases limit - i,
{
    if i < 0 || i >= limit {
        limit
    } else if d[i] == 0 {
        i
    } else {
        zend(d, i + 1, limit)
    }
}

/// The name stored at `i`: the bytes up to the first zero byte, or up to
/// `limit` when no zero byte terminates it.
pub open spec fn zname(d: Seq<u8>, i: int, limit: int) -> Seq<u8>
    recommends
        0 <= i <= limit <= d.len(),
{
    d.subrange(i, zend(d, i, limit))
}

pub proof fn lemma_zend_eq(d: Seq<u8>, i: int, j: int, limit: int)
    requires
        0 <= i <= j <= limit <= d.len(),
        forall|k: int| i <= k < j ==> d[k] != 0,
        j < limit ==> d[j] == 0,
    ensures
        zend(d, i, limit) == j,
    decreases j - i,
{
    if i < j {
        lemma_zend_eq(d, i + 1, j, limit);
    }
}

/// Compares the zero-terminated name stored at `i` (bounded by `limit`) with
/// `name`.
pub fn name_eq(d: &[u8], i: usize, limit: usize, name: &[u8]) -> (r: bool)
    requires
        i <= limit <= d@.len(),
    ensures
        r == (zname(d@, i as int, limit as int) == name@),
{
    // Find the terminator: the stored name is d[i..e].
    let mut e = i;
    while e < limit && d[e] != 0
        invariant
            i <= e <= limit,
            limit <= d@.len(),
            forall|k: int| i <= k < e ==> d@[k] != 0,
        decreases limit - e,
    {
        e += 1;
    }
    proof {
        lemma_zend_eq(d@, i as int, e as int, limit as int);
    }
    let n = name.len();
    if e - i != n {
        proof {
            assert(zname(d@, i as int, limit as int).len() != name@.len());
        }
        return false;
    }
    let mut j: usize = 0;
    while j < n
        invariant
            n == name@.len(),
            i <= limit <= d@.len(),
            e - i == n,
            i <= e <= limit,
            zend(d@, i as int, limit as int) == e,
            0 <= j <= n,
            forall|k: int| 0 <= k < j ==> #[trigger] name@[k] == d@[i + k],
        decreases n - j,
    {
        if d[i + j] != name[j] {
            proof {
                if zname(d@, i as int, limit as int) == name@ {
                    assert(zname(d@, i as int, limit as int)[j as int] == d@[i + j]);
                    assert(false);
                }
            }
            return false;
        }
        j += 1;
    }
    proof {
        assert forall|k: int| 0 <= k < n implies zname(d@, i as int, limit as int)[k]
            == name@[k] by {
            assert(name@[k] == d@[i + k]);
        }
        assert(zname(d@, i as int, limit as int) =~= name@);
    }
    true
}

// ---------------------------------------------------------------------------
// Container detection.
// ---------------------------------------------------------------------------

/// The buffer starts with the ELF magic.
pub open spec fn is_elf(d: Seq<u8>) -> bool {
    d.len() >= 4 && d[0] == 0x7f && d[1] == 0x45 && d[2] == 0x4c && d[3] == 0x46
}

/// The buffer starts with the MZ (PE image) magic.
pub open spec fn is_pe(d: Seq<u8>) -> bool {
    d.len() >= 2 && d[0] == 0x4d && d[1] == 0x5a
}

/// The buffer starts with a little-endian 32- or 64-bit Mach-O magic.
pub open spec fn is_macho(d: Seq<u8>) -> bool {
    d.len() >= 4 && (u32v(d, 0, true) == 0xfeedface || u32v(d, 0, true) == 0xfeedfacf)
}

/// The buffer starts with the static-archive magic `!<arch>\n`.
pub open spec fn is_archive(d: Seq<u8>) -> bool {
    d.len() >= 8 && d[0] == 0x21 && d[1] == 0x3c && d[2] == 0x61 && d[3] == 0x72 && d[4] == 0x63
        && d[5] == 0x68 && d[6] == 0x3e && d[7] == 0x0a
}

/// A buffer is recognized as structured when one of the supported magics
/// opens it; anything else is an unstructured (plain) buffer.
pub open spec fn is_recognized(d: Seq<u8>) -> bool {
    is_archive(d) || is_elf(d) || is_pe(d) || is_macho(d)
}

pub fn check_macho(d: &[u8]) -> (r: bool)
    ensures
        r == is_macho(d@),
{
    if d.len() < 4 {
        return false;
    }
    let m = read_u32(d, 0, true);
    m == 0xfeedface || m == 0xfeedfacf
}

pub fn check_elf(d: &[u8]) -> (r: bool)
    ensures
        r == is_elf(d@),
{
    d.len() >= 4 && d[0] == 0x7f && d[1] == 0x45 && d[2] == 0x4c && d[3] == 0x46
}

pub fn check_pe(d: &[u8]) -> (r: bool)
    ensures
        r == is_pe(d@),
{
    d.len() >= 2 && d[0] == 0x4d && d[1] == 0x5a
}

// ---------------------------------------------------------------------------
// ELF: section lookup through the section-header table and its string table.
// ---------------------------------------------------------------------------

/// A matching section's absolute file range, as integers.
pub open spec fn pairs_view(v: Seq<(usize, usize)>) -> Seq<(int, int)> {
    v.map_values(|p: (usize, usize)| (p.0 as int, p.1 as int))
}

pub open spec fn elf_class64(d: Seq<u8>) -> bool {
    d[4] == 2
}

pub open spec fn elf_le(d: Seq<u8>) -> bool {
    d[5] == 1
}

pub open spec fn elf_header_size(d: Seq<u8>) -> int {
    if elf_class64(d) {
        0x40
    } else {
        0x34
    }
}

/// The identification bytes declare a valid class and byte order and the
/// fixed header fits in the buffer.
pub open spec fn elf_header_ok(d: Seq<u8>) -> bool {
    &&& d.len() >= 6
    &&& (d[4] == 1 || d[4] == 2)
    &&& (d[5] == 1 || d[5] == 2)
    &&& d.len() >= elf_header_size(d)
}

pub open spec fn elf_shoff(d: Seq<u8>) -> int {
    if elf_class64(d) {
        u64v(d, 0x28, elf_le(d))
    } else {
        u32v(d, 0x20, elf_le(d))
    }
}

pub open spec fn elf_shentsize(d: Seq<u8>) -> int {
    u16v(
        d,
        if elf_class64(d) {
            0x3a
        } else {
            0x2e
        },
        elf_le(d),
    )
}

pub open spec fn elf_shnum(d: Seq<u8>) -> int {
    u16v(
        d,
        if elf_class64(d) {
            0x3c
        } else {
            0x30
        },
        elf_le(d),
    )
}

pub open spec fn elf_shstrndx(d: Seq<u8>) -> int {
    u16v(
        d,
        if elf_class64(d) {
            0x3e
        } else {
            0x32
        },
        elf_le(d),
    )
}

/// The section-header entry size the class prescribes.
pub open spec fn elf_entry_size(d: Seq<u8>) -> int {
    if elf_class64(d) {
        64
    } else {
        40
    }
}

/// The string-table offset of section `k`'s name.
pub open spec fn elf_sec_name_off(d: Seq<u8>, k: int) -> int {
    u32v(d, elf_shoff(d) + k * elf_entry_size(d), elf_le(d))
}

/// Section `k`'s file offset.
pub open spec fn elf_sec_off(d: Seq<u8>, k: int) -> int {
    if elf_class64(d) {
        u64v(d, elf_shoff(d) + k * elf_entry_size(d) + 0x18, elf_le(d))
    } else {
        u32v(d, elf_shoff(d) + k * elf_entry_size(d) + 0x10, elf_le(d))
    }
}

/// Section `k`'s size in the file.
pub open spec fn elf_sec_size(d: Seq<u8>, k: int) -> int {
    if elf_class64(d) {
        u64v(d, elf_shoff(d) + k * elf_entry_size(d) + 0x20, elf_le(d))
    } else {
        u32v(d, elf_shoff(d) + k * elf_entry_size(d) + 0x14, elf_le(d))
    }
}

/// The file offset of the section-name string table.
pub open spec fn elf_strtab_base(d: Seq<u8>) -> int {
    elf_sec_off(d, elf_shstrndx(d))
}

/// The whole section-header table is declared consistently and lies inside
/// the buffer (trivially so when there are no sections).
pub open spec fn elf_table_ok(d: Seq<u8>) -> bool {
    &&& elf_header_ok(d)
    &&& (elf_shnum(d) == 0 || {
        &&& elf_shentsize(d) == elf_entry_size(d)
        &&& elf_shoff(d) + elf_shnum(d) * elf_entry_size(d) <= d.len()
        &&& elf_shstrndx(d) < elf_shnum(d)
        &&& elf_strtab_base(d) <= d.len()
    })
}

/// Section `k` carries the requested name and its declared bytes lie inside
/// the buffer.
pub open spec fn elf_sec_matches(d: Seq<u8>, name: Seq<u8>, k: int) -> bool {
    &&& elf_strtab_base(d) + elf_sec_name_off(d, k) <= d.len()
    &&& zname(d, elf_strtab_base(d) + elf_sec_name_off(d, k), d.len() as int) == name
    &&& elf_sec_off(d, k) + elf_sec_size(d, k) <= d.len()
}

/// The file ranges of the sections named `name`, from section `k` on, in
/// table order.
pub open spec fn elf_collect(d: Seq<u8>, name: Seq<u8>, k: int) -> Seq<(int, int)>
    decreases elf_shnum(d) - k,
{
    if k < 0 || k >= elf_shnum(d) {
        seq![]
    } else {
        let rest = elf_collect(d, name, k + 1);
        if elf_sec_matches(d, name, k) {
            seq![(elf_sec_off(d, k), elf_sec_size(d, k))] + rest
        } else {
            rest
        }
    }
}

/// The ELF lookup model: `None` for a malformed top-level header, otherwise
/// the matching sections' absolute file ranges in table order.
pub open spec fn elf_lookup_spec(d: Seq<u8>, name: Seq<u8>) -> Option<Seq<(int, int)>> {
    if !elf_table_ok(d) {
        None
    } else {
        Some(elf_collect(d, name, 0))
    }
}

/// Looks the requested section name up in an ELF image's section-header
/// table. Returns the matching sections' `(file offset, length)` ranges, or
/// `None` when the header is malformed.
pub fn elf_lookup(d: &[u8], name: &[u8]) -> (r: Option<Vec<(usize, usize)>>)
    ensures
        r is Some <==> elf_lookup_spec(d@, name@) is Some,
        r matches Some(v) ==> Some(pairs_view(v@)) == elf_lookup_spec(d@, name@),
{
    let dlen = d.len();
    if dlen < 6 {
        return None;
    }
    let cls = d[4];
    let enc = d[5];
    if !(cls == 1 || cls == 2) || !(enc == 1 || enc == 2) {
        return None;
    }
    let c64 = cls == 2;
    let le = enc == 1;
    let hsz: usize = if c64 {
        0x40
    } else {
        0x34
    };
    if dlen < hsz {
        return None;
    }
    let shoff: u64 = if c64 {
        read_u64(d, 0x28, le)
    } else {
        read_u32(d, 0x20, le) as u64
    };
    let shentsize = read_u16(
        d,
        if c64 {
            0x3a
        } else {
            0x2e
        },
        le,
    );
    let shnum = read_u16(
        d,
        if c64 {
            0x3c
        } else {
            0x30
        },
        le,
    );
    let shstrndx = read_u16(
        d,
        if c64 {
            0x3e
        } else {
            0x32
        },
        le,
    );
    proof {
        assert(elf_header_ok(d@));
        assert(shoff as int == elf_shoff(d@));
        assert(shnum as int == elf_shnum(d@));
        assert(shentsize as int == elf_shentsize(d@));
        assert(shstrndx as int == elf_shstrndx(d@));
    }
    if shnum == 0 {
        proof {
            assert(elf_table_ok(d@));
            assert(elf_collect(d@, name@, 0) =~= Seq::<(int, int)>::empty());
            assert(pairs_view(Seq::<(usize, usize)>::empty()) =~= Seq::<(int, int)>::empty());
        }
        return Some(Vec::new());
    }
    let esz: u16 = if c64 {
        64
    } else {
        40
    };
    if shentsize != esz {
        return None;
    }
    let table_bytes: u64 = (shnum as u64) * (esz as u64);
    if shoff > dlen as u64 || (dlen as u64) - shoff < table_bytes {
        return None;
    }
    if shstrndx >= shnum {
        return None;
    }
    let shoff_us = shoff as usize;
    let esz_us = esz as usize;
    proof {
        assert((shstrndx as int) * (esz as int) + esz as int <= (shnum as int) * (esz as int))
            by (nonlinear_arith)
            requires
                shstrndx as int <= shnum as int - 1,
                esz as int >= 0,
        ;
        assert(table_bytes == (shnum as int) * (esz as int));
    }
    let strb_base = shoff_us + (shstrndx as usize) * esz_us;
    let strb: u64 = if c64 {
        read_u64(d, strb_base + 0x18, le)
    } else {
        read_u32(d, strb_base + 0x10, le) as u64
    };
    proof {
        assert(strb as int == elf_strtab_base(d@));
    }
    if strb > dlen as u64 {
        return None;
    }
    proof {
        assert(elf_table_ok(d@));
    }
    let mut acc: Vec<(usize, usize)> = Vec::new();
    let mut k: usize = 0;
    while k < shnum as usize
        invariant
            dlen == d@.len(),
            elf_table_ok(d@),
            cls == d@[4] && enc == d@[5],
            c64 == elf_class64(d@),
            le == elf_le(d@),
            esz as int == elf_entry_size(d@),
            esz_us == esz as int,
            shoff as int == elf_shoff(d@),
            shoff_us == shoff as int,
            shnum as int == elf_shnum(d@),
            shnum > 0,
            strb as int == elf_strtab_base(d@),
            strb <= dlen as u64,
            shoff as int + (shnum as int) * (esz as int) <= dlen,
            0 <= k <= shnum as usize,
            elf_collect(d@, name@, 0) =~= pairs_view(acc@) + elf_collect(d@, name@, k as int),
        decreases shnum as int - k,
    {
        proof {
            assert((k as int) * (esz as int) + esz as int <= (shnum as int) * (esz as int))
                by (nonlinear_arith)
                requires
                    k as int <= shnum as int - 1,
                    esz as int >= 0,
            ;
        }
        let base = shoff_us + k * esz_us;
        let noff: u64 = read_u32(d, base, le) as u64;
        let s_off: u64 = if c64 {
            read_u64(d, base + 0x18, le)
        } else {
            read_u32(d, base + 0x10, le) as u64
        };
        let s_size: u64 = if c64 {
            read_u64(d, base + 0x20, le)
        } else {
            read_u32(d, base + 0x14, le) as u64
        };
        proof {
            assert(noff as int == elf_sec_name_off(d@, k as int));
            assert(s_off as int == elf_sec_off(d@, k as int));
            assert(s_size as int == elf_sec_size(d@, k as int));
        }
        let name_in_range = noff <= (dlen as u64) - strb;
        let bytes_in_range = s_off <= dlen as u64 && s_size <= (dlen as u64) - s_off;
        let matched = name_in_range && bytes_in_range && name_eq(
            d,
            (strb + noff) as usize,
            dlen,
            name,
        );
        let ghost prev = acc@;
        if matched {
            acc.push((s_off as usize, s_size as usize));
        }
        proof {
            assert(matched == elf_sec_matches(d@, name@, k as int));
            if matched {
                assert(pairs_view(acc@) =~= pairs_view(prev) + seq![
                    (s_off as int, s_size as int),
                ]);
                assert(pairs_view(prev) + (seq![(s_off as int, s_size as int)] + elf_collect(
                    d@,
                    name@,
                    k as int + 1,
                )) =~= pairs_view(acc@) + elf_collect(d@, name@, k as int + 1));
            }
        }
        k += 1;
    }
    proof {
        assert(elf_collect(d@, name@, shnum as int) =~= Seq::<(int, int)>::empty());
        assert(pairs_view(acc@) + Seq::<(int, int)>::empty() =~= pairs_view(acc@));
    }
    Some(acc)
}

// ---------------------------------------------------------------------------
// PE: section lookup through the COFF section table.
// ---------------------------------------------------------------------------

/// The file offset of the PE signature, read from the DOS header.
pub open spec fn pe_lfanew(d: Seq<u8>) -> int {
    u32v(d, 0x3c, true)
}

/// The DOS header fits, and the PE signature is where the DOS header points.
pub open spec fn pe_header_ok(d: Seq<u8>) -> bool {
    &&& d.len() >= 0x40
    &&& pe_lfanew(d) + 24 <= d.len()
    &&& d[pe_lfanew(d)] == 0x50
    &&& d[pe_lfanew(d) + 1] == 0x45
    &&& d[pe_lfanew(d) + 2] == 0
    &&& d[pe_lfanew(d) + 3] == 0
}

pub open spec fn pe_nsects(d: Seq<u8>) -> int {
    u16v(d, pe_lfanew(d) + 6, true)
}

/// The file offset of the section table: right after the COFF header and the
/// optional header of the declared size.
pub open spec fn pe_table(d: Seq<u8>) -> int {
    pe_lfanew(d) + 24 + u16v(d, pe_lfanew(d) + 20, true)
}

pub open spec fn pe_table_ok(d: Seq<u8>) -> bool {
    pe_header_ok(d) && pe_table(d) + pe_nsects(d) * 40 <= d.len()
}

/// Section `k`'s 8-byte padded name equals `name`, and its raw data lies
/// inside the buffer.
pub open spec fn pe_sec_matches(d: Seq<u8>, name: Seq<u8>, k: int) -> bool {
    let base = pe_table(d) + k * 40;
    &&& zname(d, base, base + 8) == name
    &&& u32v(d, base + 20, true) + u32v(d, base + 16, true) <= d.len()
}

/// The raw-data file ranges of the sections named `name`, from section `k`
/// on, in table order.
pub open spec fn pe_collect(d: Seq<u8>, name: Seq<u8>, k: int) -> Seq<(int, int)>
    decreases pe_nsects(d) - k,
{
    if k < 0 || k >= pe_nsects(d) {
        seq![]
    } else {
        let base = pe_table(d) + k * 40;
        let rest = pe_collect(d, name, k + 1);
        if pe_sec_matches(d, name, k) {
            seq![(u32v(d, base + 20, true), u32v(d, base + 16, true))] + rest
        } else {
            rest
        }
    }
}

/// The PE lookup model.
pub open spec fn pe_lookup_spec(d: Seq<u8>, name: Seq<u8>) -> Option<Seq<(int, int)>> {
    if !pe_table_ok(d) {
        None
    } else {
        Some(pe_collect(d, name, 0))
    }
}

/// Looks the requested section name up in a PE image's section table.
pub fn pe_lookup(d: &[u8], name: &[u8]) -> (r: Option<Vec<(usize, usize)>>)
    ensures
        r is Some <==> pe_lookup_spec(d@, name@) is Some,
        r matches Some(v) ==> Some(pairs_view(v@)) == pe_lookup_spec(d@, name@),
{
    let dlen = d.len();
    if dlen < 0x40 {
        return None;
    }
    let lfanew = read_u32(d, 0x3c, true) as u64;
    if lfanew > dlen as u64 || (dlen as u64) - lfanew < 24 {
        return None;
    }
    let lf = lfanew as usize;
    if !(d[lf] == 0x50 && d[lf + 1] == 0x45 && d[lf + 2] == 0 && d[lf + 3] == 0) {
        return None;
    }
    let nsects = read_u16(d, lf + 6, true);
    let optsize = read_u16(d, lf + 20, true);
    let table: u64 = lfanew + 24 + optsize as u64;
    let table_bytes: u64 = (nsects as u64) * 40;
    if table > dlen as u64 || (dlen as u64) - table < table_bytes {
        return None;
    }
    let table_us = table as usize;
    proof {
        assert(table_bytes == (nsects as int) * 40);
        assert(pe_table_ok(d@));
    }
    let mut acc: Vec<(usize, usize)> = Vec::new();
    let mut k: usize = 0;
    while k < nsects as usize
        invariant
            dlen == d@.len(),
            pe_table_ok(d@),
            nsects as int == pe_nsects(d@),
            table_us == pe_table(d@),
            table_us + (nsects as int) * 40 <= dlen,
            0 <= k <= nsects as usize,
            pe_collect(d@, name@, 0) =~= pairs_view(acc@) + pe_collect(d@, name@, k as int),
        decreases nsects as int - k,
    {
        proof {
            assert((k as int) * 40 + 40 <= (nsects as int) * 40) by (nonlinear_arith)
                requires
                    k as int <= nsects as int - 1,
            ;
        }
        let base = table_us + k * 40;
        let s_size = read_u32(d, base + 16, true) as u64;
        let s_off = read_u32(d, base + 20, true) as u64;
        let bytes_in_range = s_off <= dlen as u64 && s_size <= (dlen as u64) - s_off;
        let matched = name_eq(d, base, base + 8, name) && bytes_in_range;
        let ghost prev = acc@;
        if matched {
            acc.push((s_off as usize, s_size as usize));
        }
        proof {
            assert(matched == pe_sec_matches(d@, name@, k as int));
            if matched {
                assert(pairs_view(acc@) =~= pairs_view(prev) + seq![
                    (s_off as int, s_size as int),
                ]);
                assert(pairs_view(prev) + (seq![(s_off as int, s_size as int)] + pe_collect(
                    d@,
                    name@,
                    k as int + 1,
                )) =~= pairs_view(acc@) + pe_collect(d@, name@, k as int + 1));
            }
        }
        k += 1;
    }
    proof {
        assert(pe_collect(d@, name@, nsects as int) =~= Seq::<(int, int)>::empty());
        assert(pairs_view(acc@) + Seq::<(int, int)>::empty() =~= pairs_view(acc@));
    }
    Some(acc)
}

pub fn check_archive(d: &[u8]) -> (r: bool)
    ensures
        r == is_archive(d@),
{
    d.len() >= 8 && d[0] == 0x21 && d[1] == 0x3c && d[2] == 0x61 && d[3] == 0x72 && d[4] == 0x63
        && d[5] == 0x68 && d[6] == 0x3e && d[7] == 0x0a
}

// ---------------------------------------------------------------------------
// Mach-O (little-endian): section lookup through the segment load commands.
// ---------------------------------------------------------------------------

/// The image uses the 64-bit Mach-O layout.
pub open spec fn macho64(d: Seq<u8>) -> bool {
    u32v(d, 0, true) == 0xfeedfacf
}

/// The sections of one segment command, from section `j` on: those whose
/// 16-byte padded name equals `name` and whose bytes lie inside the buffer.
pub open spec fn macho_secs(
    d: Seq<u8>,
    name: Seq<u8>,
    is64: bool,
    sbase: int,
    j: int,
    nsects: int,
) -> Seq<(int, int)>
    decreases nsects - j,
{
    if j < 0 || j >= nsects {
        seq![]
    } else {
        let entry = if is64 {
            80int
        } else {
            68int
        };
        let sb = sbase + j * entry;
        let off = u32v(
            d,
            sb + if is64 {
                48int
            } else {
                40int
            },
            true,
        );
        let size = if is64 {
            u64v(d, sb + 40, true)
        } else {
            u32v(d, sb + 36, true)
        };
        let rest = macho_secs(d, name, is64, sbase, j + 1, nsects);
        if zname(d, sb, sb + 16) == name && off + size <= d.len() {
            seq![(off, size)] + rest
        } else {
            rest
        }
    }
}

/// Walks the load commands from command `k` at offset `off` on, collecting
/// the matching sections of every segment command; `None` when a command is
/// malformed or runs outside the buffer.
pub open spec fn macho_cmds(
    d: Seq<u8>,
    name: Seq<u8>,
    is64: bool,
    k: int,
    ncmds: int,
    off: int,
) -> Option<Seq<(int, int)>>
    decreases ncmds - k,
{
    if k < 0 || k >= ncmds {
        Some(seq![])
    } else if off < 0 || off + 8 > d.len() {
        None
    } else {
        let cmd = u32v(d, off, true);
        let csize = u32v(d, off + 4, true);
        if csize < 8 || off + csize > d.len() {
            None
        } else if cmd == (if is64 {
            0x19int
        } else {
            1int
        }) {
            let secs_off = if is64 {
                72int
            } else {
                56int
            };
            let entry = if is64 {
                80int
            } else {
                68int
            };
            if csize < secs_off {
                None
            } else {
                let nsects = u32v(
                    d,
                    off + (if is64 {
                        64int
                    } else {
                        48int
                    }),
                    true,
                );
                if secs_off + nsects * entry > csize {
                    None
                } else {
                    match macho_cmds(d, name, is64, k + 1, ncmds, off + csize) {
                        Option::None => None,
                        Option::Some(rest) => Some(
                            macho_secs(d, name, is64, off + secs_off, 0, nsects) + rest,
                        ),
                    }
                }
            }
        } else {
            macho_cmds(d, name, is64, k + 1, ncmds, off + csize)
        }
    }
}

/// The Mach-O lookup model.
pub open spec fn macho_lookup_spec(d: Seq<u8>, name: Seq<u8>) -> Option<Seq<(int, int)>> {
    let h = if macho64(d) {
        32int
    } else {
        28int
    };
    if d.len() < h {
        None
    } else {
        macho_cmds(d, name, macho64(d), 0, u32v(d, 16, true), h)
    }
}

proof fn lemma_macho_secs_wf(d: Seq<u8>, name: Seq<u8>, is64: bool, sbase: int, j: int, nsects: int)
    ensures
        forall|q: int|
            0 <= q < macho_secs(d, name, is64, sbase, j, nsects).len() ==> {
                &&& 0 <= (#[trigger] macho_secs(d, name, is64, sbase, j, nsects)[q]).0
                &&& macho_secs(d, name, is64, sbase, j, nsects)[q].0 + macho_secs(
                    d,
                    name,
                    is64,
                    sbase,
                    j,
                    nsects,
                )[q].1 <= d.len()
            },
    decreases nsects - j,
{
    if !(j < 0 || j >= nsects) {
        lemma_macho_secs_wf(d, name, is64, sbase, j + 1, nsects);
        let rest = macho_secs(d, name, is64, sbase, j + 1, nsects);
        let cur = macho_secs(d, name, is64, sbase, j, nsects);
        assert forall|q: int| 0 <= q < cur.len() implies (0 <= (#[trigger] cur[q]).0 && cur[q].0
            + cur[q].1 <= d.len()) by {
            if cur.len() == rest.len() + 1 {
                if q > 0 {
                    assert(cur[q] == rest[q - 1]);
                }
            } else {
                assert(cur[q] == rest[q]);
            }
        }
    }
}

proof fn lemma_macho_cmds_wf(d: Seq<u8>, name: Seq<u8>, is64: bool, k: int, ncmds: int, off: int)
    ensures
        macho_cmds(d, name, is64, k, ncmds, off) matches Some(l) ==> forall|q: int|
            0 <= q < l.len() ==> 0 <= (#[trigger] l[q]).0 && l[q].0 + l[q].1 <= d.len(),
    decreases ncmds - k,
{
    if !(k < 0 || k >= ncmds) && !(off < 0 || off + 8 > d.len()) {
        let csize = u32v(d, off + 4, true);
        lemma_macho_cmds_wf(d, name, is64, k + 1, ncmds, off + csize);
        if macho_cmds(d, name, is64, k, ncmds, off) is Some {
            let secs_off = if is64 {
                72int
            } else {
                56int
            };
            let nsects = u32v(
                d,
                off + (if is64 {
                    64int
                } else {
                    48int
                }),
                true,
            );
            lemma_macho_secs_wf(d, name, is64, off + secs_off, 0, nsects);
        }
    }
}

/// Looks the requested section name up in a Mach-O image's segment load
/// commands.
pub fn macho_lookup(d: &[u8], name: &[u8]) -> (r: Option<Vec<(usize, usize)>>)
    requires
        is_macho(d@),
    ensures
        r is Some <==> macho_lookup_spec(d@, name@) is Some,
        r matches Some(v) ==> Some(pairs_view(v@)) == macho_lookup_spec(d@, name@),
{
    let dlen = d.len();
    let is64 = read_u32(d, 0, true) == 0xfeedfacf;
    let h: usize = if is64 {
        32
    } else {
        28
    };
    if dlen < h {
        return None;
    }
    let ncmds = read_u32(d, 16, true);
    let mut acc: Vec<(usize, usize)> = Vec::new();
    let mut off: usize = h;
    let mut k: u32 = 0;
    while k < ncmds
        invariant
            dlen == d@.len(),
            dlen >= h,
            is64 == macho64(d@),
            h == if is64 {
                32int
            } else {
                28int
            },
            ncmds as int == u32v(d@, 16, true),
            0 <= k <= ncmds,
            h <= off <= dlen,
            match macho_cmds(d@, name@, is64, k as int, ncmds as int, off as int) {
                Option::None => macho_lookup_spec(d@, name@) is None,
                Option::Some(rest) => macho_lookup_spec(d@, name@) == Some(
                    pairs_view(acc@) + rest,
                ),
            },
        decreases ncmds - k,
    {
        if dlen - off < 8 {
            return None;
        }
        let cmd = read_u32(d, off, true);
        let csize = read_u32(d, off + 4, true);
        if csize < 8 {
            return None;
        }
        if (csize as u64) > ((dlen - off) as u64) {
            return None;
        }
        let csize_us = csize as usize;
        let seg: u32 = if is64 {
            0x19
        } else {
            1
        };
        if cmd == seg {
            let secs_off: usize = if is64 {
                72
            } else {
                56
            };
            let entry: usize = if is64 {
                80
            } else {
                68
            };
            if csize_us < secs_off {
                return None;
            }
            let nsects = read_u32(
                d,
                off + (if is64 {
                    64
                } else {
                    48
                }),
                true,
            );
            let need: u64 = (nsects as u64) * (entry as u64);
            if need > ((csize_us - secs_off) as u64) {
                return None;
            }
            proof {
                assert(need == (nsects as int) * (entry as int));
            }
            let sbase = off + secs_off;
            let mut part: Vec<(usize, usize)> = Vec::new();
            let nsects_us = nsects as usize;
            let mut j: usize = 0;
            while j < nsects_us
                invariant
                    dlen == d@.len(),
                    is64 == macho64(d@),
                    entry == if is64 {
                        80int
                    } else {
                        68int
                    },
                    nsects_us == nsects as int,
                    sbase + (nsects as int) * (entry as int) <= dlen,
                    0 <= j <= nsects_us,
                    macho_secs(d@, name@, is64, sbase as int, 0, nsects as int) =~= pairs_view(
                        part@,
                    ) + macho_secs(d@, name@, is64, sbase as int, j as int, nsects as int),
                decreases nsects_us - j,
            {
                proof {
                    assert((j as int) * (entry as int) + entry as int <= (nsects as int) * (
                    entry as int)) by (nonlinear_arith)
                        requires
                            j as int <= nsects as int - 1,
                            entry as int >= 0,
                    ;
                }
                let sb = sbase + j * entry;
                let s_off = read_u32(
                    d,
                    sb + (if is64 {
                        48
                    } else {
                        40
                    }),
                    true,
                ) as u64;
                let s_size: u64 = if is64 {
                    read_u64(d, sb + 40, true)
                } else {
                    read_u32(d, sb + 36, true) as u64
                };
                let in_range = s_off <= dlen as u64 && s_size <= (dlen as u64) - s_off;
                let matched = name_eq(d, sb, sb + 16, name) && in_range;
                let ghost prev = part@;
                if matched {
                    part.push((s_off as usize, s_size as usize));
                }
                proof {
                    if matched {
                        assert(pairs_view(part@) =~= pairs_view(prev) + seq![
                            (s_off as int, s_size as int),
                        ]);
                        assert(pairs_view(prev) + (seq![(s_off as int, s_size as int)]
                            + macho_secs(
                            d@,
                            name@,
                            is64,
                            sbase as int,
                            j as int + 1,
                            nsects as int,
                        )) =~= pairs_view(part@) + macho_secs(
                            d@,
                            name@,
                            is64,
                            sbase as int,
                            j as int + 1,
                            nsects as int,
                        ));
                    }
                }
                j += 1;
            }
            let ghost acc_prev = acc@;
            let ghost part_seq = part@;
            let mut part_moved = part;
            acc.append(&mut part_moved);
            proof {
                assert(acc@ == acc_prev + part_seq);
                assert(pairs_view(acc@) =~= pairs_view(acc_prev) + pairs_view(part_seq));
                assert(macho_secs(d@, name@, is64, sbase as int, nsects as int, nsects as int)
                    =~= Seq::<(int, int)>::empty());
                assert(macho_secs(d@, name@, is64, sbase as int, 0, nsects as int) =~= pairs_view(
                    part_seq,
                ));
                let inner = macho_cmds(
                    d@,
                    name@,
                    is64,
                    k as int + 1,
                    ncmds as int,
                    off + csize_us,
                );
                if inner is Some {
                    assert(pairs_view(acc_prev) + (pairs_view(part_seq) + inner->Some_0)
                        =~= pairs_view(acc@) + inner->Some_0);
                }
            }
            off = off + csize_us;
        } else {
            off = off + csize_us;
        }
        k += 1;
    }
    proof {
        assert(pairs_view(acc@) + Seq::<(int, int)>::empty() =~= pairs_view(acc@));
    }
    Some(acc)
}

// ---------------------------------------------------------------------------
// Static archives: member enumeration and per-member lookup.
// ---------------------------------------------------------------------------

/// Ten to the `n`th power.
pub open spec fn pow10(n: int) -> int
    decreases n,
{
    if n <= 0 {
        1
    } else {
        10 * pow10(n - 1)
    }
}

proof fn lemma_pow10_mono(a: int, b: int)
    requires
        a <= b,
    ensures
        pow10(a) <= pow10(b),
    decreases b - a,
{
    if a < b {
        lemma_pow10_mono(a, b - 1);
        assert(pow10(b - 1) >= 1) by {
            lemma_pow10_pos(b - 1);
        }
    }
}

proof fn lemma_pow10_pos(n: int)
    ensures
        pow10(n) >= 1,
    decreases n,
{
    if n > 0 {
        lemma_pow10_pos(n - 1);
    }
}

/// Every byte of `[i, end)` is a space.
pub open spec fn all_spaces(d: Seq<u8>, i: int, end: int) -> bool
    decreases end - i,
{
    if i >= end {
        true
    } else {
        d[i] == 32 && all_spaces(d, i + 1, end)
    }
}

proof fn lemma_all_spaces_iff(d: Seq<u8>, i: int, end: int)
    ensures
        all_spaces(d, i, end) <==> (forall|k: int| i <= k < end ==> d[k] == 32),
    decreases end - i,
{
    if i < end {
        lemma_all_spaces_iff(d, i + 1, end);
    }
}

/// The value of the decimal digits from `i` on, on top of `acc`; the digits
/// may be followed by space padding only.
pub open spec fn ar_num_from(d: Seq<u8>, i: int, end: int, acc: int) -> Option<int>
    decreases end - i,
{
    if i >= end {
        Some(acc)
    } else if 48 <= d[i] && d[i] <= 57 {
        ar_num_from(d, i + 1, end, acc * 10 + (d[i] - 48))
    } else if d[i] == 32 {
        if all_spaces(d, i, end) {
            Some(acc)
        } else {
            None
        }
    } else {
        None
    }
}

/// The decimal member size stated in the archive member header at `hoff`:
/// at least one digit, space padded.
pub open spec fn ar_size(d: Seq<u8>, hoff: int) -> Option<int> {
    if 48 <= d[hoff + 48] && d[hoff + 48] <= 57 {
        ar_num_from(d, hoff + 48, hoff + 58, 0)
    } else {
        None
    }
}

proof fn lemma_ar_num_bound(d: Seq<u8>, i: int, end: int, acc: int)
    requires
        acc >= 0,
    ensures
        ar_num_from(d, i, end, acc) matches Some(v) ==> 0 <= v < (acc + 1) * pow10(end - i),
    decreases end - i,
{
    if i >= end {
        lemma_pow10_pos(end - i);
        assert((acc + 1) * pow10(end - i) >= acc + 1) by (nonlinear_arith)
            requires
                pow10(end - i) >= 1,
                acc >= 0,
        ;
    } else if 48 <= d[i] && d[i] <= 57 {
        let acc2 = acc * 10 + (d[i] - 48);
        lemma_ar_num_bound(d, i + 1, end, acc2);
        lemma_pow10_pos(end - i - 1);
        assert(pow10(end - i) == 10 * pow10(end - i - 1));
        assert((acc2 + 1) * pow10(end - i - 1) <= (acc + 1) * pow10(end - i)) by (nonlinear_arith)
            requires
                acc2 <= acc * 10 + 9,
                pow10(end - i) == 10 * pow10(end - i - 1),
                pow10(end - i - 1) >= 1,
                acc >= 0,
        ;
    } else {
        lemma_pow10_pos(end - i);
        assert((acc + 1) * pow10(end - i) >= acc + 1) by (nonlinear_arith)
            requires
                pow10(end - i) >= 1,
                acc >= 0,
        ;
    }
}

/// Reads the decimal size field of the member header at `hoff`.
pub fn parse_ar_size(d: &[u8], hoff: usize) -> (r: Option<u64>)
    requires
        hoff + 60 <= d@.len(),
    ensures
        r is Some <==> ar_size(d@, hoff as int) is Some,
        r matches Some(v) ==> ar_size(d@, hoff as int) == Some(v as int),
{
    let _buffer_len = d.len();
    let start = hoff + 48;
    let end = hoff + 58;
    let b0 = d[start];
    if !(48 <= b0 && b0 <= 57) {
        return None;
    }
    let mut acc: u64 = 0;
    let mut i = start;
    while i < end
        invariant
            start == hoff + 48,
            end == hoff + 58,
            end <= d@.len(),
            48 <= d@[start as int] <= 57,
            start <= i <= end,
            acc < pow10(i - start),
            ar_num_from(d@, start as int, end as int, 0) == ar_num_from(
                d@,
                i as int,
                end as int,
                acc as int,
            ),
        decreases end - i,
    {
        let b = d[i];
        if 48 <= b && b <= 57 {
            proof {
                lemma_pow10_mono(i - start + 1, 10);
                assert(pow10(10) == 10000000000) by {
                    reveal_with_fuel(pow10, 11);
                }
                assert(acc * 10 + 9 < pow10(i - start + 1)) by (nonlinear_arith)
                    requires
                        acc < pow10(i - start),
                        pow10(i - start + 1) == 10 * pow10(i - start),
                ;
            }
            acc = acc * 10 + ((b - 48) as u64);
        } else if b == 32 {
            let mut j = i;
            while j < end
                invariant
                    start == hoff + 48,
                    end == hoff + 58,
                    end <= d@.len(),
                    48 <= d@[start as int] <= 57,
                    start <= i < end,
                    d@[i as int] == 32,
                    ar_num_from(d@, start as int, end as int, 0) == ar_num_from(
                        d@,
                        i as int,
                        end as int,
                        acc as int,
                    ),
                    i <= j <= end,
                    forall|k: int| i <= k < j ==> d@[k] == 32,
                decreases end - j,
            {
                if d[j] != 32 {
                    proof {
                        lemma_all_spaces_iff(d@, i as int, end as int);
                    }
                    return None;
                }
                j += 1;
            }
            proof {
                lemma_all_spaces_iff(d@, i as int, end as int);
            }
            return Some(acc);
        } else {
            return None;
        }
        i += 1;
    }
    Some(acc)
}

/// The end of the member name at `off`, with trailing spaces dropped.
pub open spec fn trim_spaces_end(d: Seq<u8>, off: int, e: int) -> int
    decreases e - off,
{
    if e <= off {
        off
    } else if d[e - 1] == 32 {
        trim_spaces_end(d, off, e - 1)
    } else {
        e
    }
}

/// The end of the member identifier: the 16-byte name field with trailing
/// spaces dropped, and one trailing `/` (the GNU terminator) dropped.
pub open spec fn ar_id_end(d: Seq<u8>, off: int) -> int {
    let t = trim_spaces_end(d, off, off + 16);
    if t > off + 1 && d[t - 1] == 0x2f {
        t - 1
    } else {
        t
    }
}

/// The identifier of the member whose header starts at `off`.
pub open spec fn ar_member_id(d: Seq<u8>, off: int) -> Seq<u8> {
    d.subrange(off, ar_id_end(d, off))
}

proof fn lemma_trim_bounds(d: Seq<u8>, off: int, e: int)
    requires
        off <= e,
    ensures
        off <= trim_spaces_end(d, off, e) <= e,
    decreases e - off,
{
    if e > off && d[e - 1] == 32 {
        lemma_trim_bounds(d, off, e - 1);
    }
}

/// Computes the end of the member identifier at `off`.
pub fn member_id_end(d: &[u8], off: usize) -> (r: usize)
    requires
        off + 16 <= d@.len(),
    ensures
        r == ar_id_end(d@, off as int),
        off <= r <= off + 16,
{
    let _buffer_len = d.len();
    let mut e = off + 16;
    while e > off && d[e - 1] == 32
        invariant
            off <= e <= off + 16,
            off + 16 <= d@.len(),
            trim_spaces_end(d@, off as int, off as int + 16) == trim_spaces_end(
                d@,
                off as int,
                e as int,
            ),
        decreases e,
    {
        e -= 1;
    }
    proof {
        lemma_trim_bounds(d@, off as int, off as int + 16);
    }
    if e > off + 1 && d[e - 1] == 0x2f {
        e - 1
    } else {
        e
    }
}

/// The archive's member list from header offset `off` on: each member's
/// `(header offset, data start, data size)`. `None` when a header is
/// malformed or truncated.
pub open spec fn ar_members(d: Seq<u8>, off: int) -> Option<Seq<(int, int, int)>>
    decreases d.len() - off,
    when 0 <= off <= d.len()
{
    if off == d.len() {
        Some(seq![])
    } else if off + 60 > d.len() {
        None
    } else if !(d[off + 58] == 0x60 && d[off + 59] == 0x0a) {
        None
    } else {
        match ar_size(d, off) {
            Option::None => None,
            Option::Some(sz0) => {
                let sz = if sz0 < 0 {
                    0
                } else {
                    sz0
                };
                let start = off + 60;
                if start + sz > d.len() {
                    None
                } else {
                    let pad = if (start + sz) % 2 == 1 {
                        1int
                    } else {
                        0int
                    };
                    let noff = start + sz + pad;
                    if noff > d.len() {
                        Some(seq![(off, start, sz)])
                    } else {
                        match ar_members(d, noff) {
                            Option::None => None,
                            Option::Some(rest) => Some(seq![(off, start, sz)] + rest),
                        }
                    }
                }
            },
        }
    }
}

/// Every enumerated member lies inside the buffer, header included.
pub proof fn lemma_ar_members_wf(d: Seq<u8>, off: int)
    requires
        0 <= off <= d.len(),
    ensures
        ar_members(d, off) matches Some(ms) ==> forall|j: int|
            0 <= j < ms.len() ==> {
                &&& off <= (#[trigger] ms[j]).0
                &&& ms[j].0 + 60 <= d.len()
                &&& ms[j].1 == ms[j].0 + 60
                &&& ms[j].2 >= 0
                &&& ms[j].1 + ms[j].2 <= d.len()
            },
    decreases d.len() - off,
{
    if off < d.len() && off + 60 <= d.len() && d[off + 58] == 0x60 && d[off + 59] == 0x0a {
        if ar_size(d, off) is Some {
            let sz0 = ar_size(d, off)->Some_0;
            let sz = if sz0 < 0 {
                0
            } else {
                sz0
            };
            let start = off + 60;
            if start + sz <= d.len() {
                let pad = if (start + sz) % 2 == 1 {
                    1int
                } else {
                    0int
                };
                let noff = start + sz + pad;
                if noff <= d.len() {
                    lemma_ar_members_wf(d, noff);
                }
            }
        }
    }
}

/// The matching sections of one archive member, by the member's own format.
/// An unrecognized or malformed member is skipped, contributing nothing.
pub open spec fn member_lookup(sub: Seq<u8>, name: Seq<u8>) -> Seq<(int, int)> {
    if is_elf(sub) {
        match elf_lookup_spec(sub, name) {
            Option::None => seq![],
            Option::Some(l) => l,
        }
    } else if is_pe(sub) {
        match pe_lookup_spec(sub, name) {
            Option::None => seq![],
            Option::Some(l) => l,
        }
    } else if is_macho(sub) {
        match macho_lookup_spec(sub, name) {
            Option::None => seq![],
            Option::Some(l) => l,
        }
    } else {
        seq![]
    }
}

/// The matching sections of the members `ms`, in member order:
/// `(member header offset, absolute file offset, length)`.
pub open spec fn ar_collect(d: Seq<u8>, name: Seq<u8>, ms: Seq<(int, int, int)>) -> Seq<
    (int, int, int),
>
    decreases ms.len(),
{
    if ms.len() == 0 {
        seq![]
    } else {
        let m = ms[0];
        let sub = d.subrange(m.1, m.1 + m.2);
        member_lookup(sub, name).map_values(|p: (int, int)| (m.0, m.1 + p.0, p.1)) + ar_collect(
            d,
            name,
            ms.drop_first(),
        )
    }
}

proof fn lemma_ar_collect_concat(d: Seq<u8>, name: Seq<u8>, a: Seq<(int, int, int)>, b: Seq<
    (int, int, int)>)
    ensures
        ar_collect(d, name, a + b) == ar_collect(d, name, a) + ar_collect(d, name, b),
    decreases a.len(),
{
    if a.len() == 0 {
        assert(a + b =~= b);
        assert(ar_collect(d, name, a) + ar_collect(d, name, b) =~= ar_collect(d, name, b));
    } else {
        assert((a + b).drop_first() =~= a.drop_first() + b);
        lemma_ar_collect_concat(d, name, a.drop_first(), b);
        assert((a + b)[0] == a[0]);
        assert(ar_collect(d, name, a + b) =~= ar_collect(d, name, a) + ar_collect(d, name, b));
    }
}

/// The archive lookup model: the matching sections of every member, in
/// member order; `None` when the member chain itself is malformed.
pub open spec fn ar_lookup_spec(d: Seq<u8>, name: Seq<u8>) -> Option<Seq<(int, int, int)>> {
    match ar_members(d, 8) {
        Option::None => None,
        Option::Some(ms) => Some(ar_collect(d, name, ms)),
    }
}

/// Every range an ELF lookup model yields lies inside the buffer.
pub proof fn lemma_elf_collect_wf(d: Seq<u8>, name: Seq<u8>, k: int)
    ensures
        forall|j: int|
            0 <= j < elf_collect(d, name, k).len() ==> {
                &&& 0 <= (#[trigger] elf_collect(d, name, k)[j]).0
                &&& elf_collect(d, name, k)[j].0 + elf_collect(d, name, k)[j].1 <= d.len()
            },
    decreases elf_shnum(d) - k,
{
    if !(k < 0 || k >= elf_shnum(d)) {
        lemma_elf_collect_wf(d, name, k + 1);
        let rest = elf_collect(d, name, k + 1);
        let cur = elf_collect(d, name, k);
        assert forall|j: int| 0 <= j < cur.len() implies (0 <= (#[trigger] cur[j]).0 && cur[j].0
            + cur[j].1 <= d.len()) by {
            if elf_sec_matches(d, name, k) {
                if j > 0 {
                    assert(cur[j] == rest[j - 1]);
                }
            } else {
                assert(cur[j] == rest[j]);
            }
        }
    }
}

/// Every range a PE lookup model yields lies inside the buffer.
pub proof fn lemma_pe_collect_wf(d: Seq<u8>, name: Seq<u8>, k: int)
    ensures
        forall|j: int|
            0 <= j < pe_collect(d, name, k).len() ==> {
                &&& 0 <= (#[trigger] pe_collect(d, name, k)[j]).0
                &&& pe_collect(d, name, k)[j].0 + pe_collect(d, name, k)[j].1 <= d.len()
            },
    decreases pe_nsects(d) - k,
{
    if !(k < 0 || k >= pe_nsects(d)) {
        lemma_pe_collect_wf(d, name, k + 1);
        let rest = pe_collect(d, name, k + 1);
        let cur = pe_collect(d, name, k);
        assert forall|j: int| 0 <= j < cur.len() implies (0 <= (#[trigger] cur[j]).0 && cur[j].0
            + cur[j].1 <= d.len()) by {
            if pe_sec_matches(d, name, k) {
                if j > 0 {
                    assert(cur[j] == rest[j - 1]);
                }
            } else {
                assert(cur[j] == rest[j]);
            }
        }
    }
}

/// What one member contributes lies inside the member.
pub proof fn lemma_member_lookup_wf(sub: Seq<u8>, name: Seq<u8>)
    ensures
        forall|j: int|
            0 <= j < member_lookup(sub, name).len() ==> {
                &&& 0 <= (#[trigger] member_lookup(sub, name)[j]).0
                &&& member_lookup(sub, name)[j].0 + member_lookup(sub, name)[j].1 <= sub.len()
            },
{
    lemma_elf_collect_wf(sub, name, 0);
    lemma_pe_collect_wf(sub, name, 0);
    lemma_macho_cmds_wf(
        sub,
        name,
        macho64(sub),
        0,
        u32v(sub, 16, true),
        if macho64(sub) {
            32int
        } else {
            28int
        },
    );
}

/// The integer view of the enumerated member records.
pub open spec fn mems_iview(v: Seq<(usize, usize, usize)>) -> Seq<(int, int, int)> {
    v.map_values(|m: (usize, usize, usize)| (m.0 as int, m.1 as int, m.2 as int))
}

/// The descriptor `s` renders the archive lookup model element `t`:
/// the member's identifier, and the section's absolute range.
pub open spec fn desc_matches(d: Seq<u8>, s: SectionDescriptor, t: (int, int, int)) -> bool {
    &&& s.member_id is Some
    &&& s.member_id->0@ == ar_member_id(d, t.0)
    &&& s.file_offset == t.1
    &&& s.length == t.2
}

/// Looks the requested section name up in every member of a static archive.
/// Returns one descriptor per matching section, in member order, or `None`
/// when the member chain is malformed.
pub fn archive_lookup(d: &[u8], name: &[u8]) -> (r: Option<Vec<SectionDescriptor>>)
    requires
        is_archive(d@),
    ensures
        r is Some <==> ar_lookup_spec(d@, name@) is Some,
        r matches Some(v) ==> {
            let l = ar_lookup_spec(d@, name@)->Some_0;
            &&& v@.len() == l.len()
            &&& forall|j: int| 0 <= j < l.len() ==> desc_matches(d@, #[trigger] v@[j], l[j])
            &&& forall|j: int|
                0 <= j < v@.len() ==> (#[trigger] v@[j]).file_offset + v@[j].length <= d@.len()
        },
{
    let dlen = d.len();
    // First pass: enumerate the member chain.
    let mut mems: Vec<(usize, usize, usize)> = Vec::new();
    let mut off: usize = 8;
    while off < dlen
        invariant
            dlen == d@.len(),
            8 <= off <= dlen,
            ar_members(d@, off as int) is None ==> ar_members(d@, 8) is None,
            forall|rest: Seq<(int, int, int)>|
                ar_members(d@, off as int) == Some(rest) ==> ar_members(d@, 8) == Some(
                    mems_iview(mems@) + rest,
                ),
        decreases dlen - off,
    {
        if dlen - off < 60 {
            return None;
        }
        if !(d[off + 58] == 0x60 && d[off + 59] == 0x0a) {
            return None;
        }
        let sz64 = match parse_ar_size(d, off) {
            None => {
                return None;
            },
            Some(v) => v,
        };
        let start = off + 60;
        if sz64 > (dlen - start) as u64 {
            return None;
        }
        let sz = sz64 as usize;
        let ghost prev = mems@;
        mems.push((off, start, sz));
        proof {
            assert(mems_iview(mems@) =~= mems_iview(prev) + seq![
                (off as int, start as int, sz as int),
            ]);
        }
        let e = start + sz;
        if e == dlen {
            proof {
                reveal_with_fuel(ar_members, 3);
                let m = (off as int, start as int, sz as int);
                if ar_members(d@, off as int) is Some {
                    let rest0 = ar_members(d@, off as int)->Some_0;
                    assert(rest0 =~= seq![m]);
                    assert(mems_iview(prev) + seq![m] =~= mems_iview(mems@) + Seq::<
                        (int, int, int),
                    >::empty());
                }
            }
            off = dlen;
        } else {
            let pad: usize = if e % 2 == 1 {
                1
            } else {
                0
            };
            let noff = e + pad;
            proof {
                reveal_with_fuel(ar_members, 2);
                let m = (off as int, start as int, sz as int);
                if ar_members(d@, noff as int) is Some {
                    let rest = ar_members(d@, noff as int)->Some_0;
                    assert(ar_members(d@, off as int) == Some(seq![m] + rest));
                    assert(mems_iview(prev) + (seq![m] + rest) =~= mems_iview(mems@) + rest);
                }
            }
            off = noff;
        }
    }
    proof {
        assert(ar_members(d@, dlen as int) == Some(Seq::<(int, int, int)>::empty()));
        assert(mems_iview(mems@) + Seq::<(int, int, int)>::empty() =~= mems_iview(mems@));
        lemma_ar_members_wf(d@, 8);
    }
    let ghost ms = mems_iview(mems@);
    // Second pass: look the name up in each member.
    let mut out: Vec<SectionDescriptor> = Vec::new();
    let nm = mems.len();
    proof {
        assert forall|j: int|
            0 <= j < nm implies ((#[trigger] mems@[j]).0 + 60 <= dlen && mems@[j].1 == mems@[j].0
            + 60 && mems@[j].1 + mems@[j].2 <= dlen) by {
            assert(ms[j] == (mems@[j].0 as int, mems@[j].1 as int, mems@[j].2 as int));
            assert(0 <= ms[j].0 && ms[j].0 + 60 <= d@.len() && ms[j].1 == ms[j].0 + 60 && ms[j].2
                >= 0 && ms[j].1 + ms[j].2 <= d@.len());
        }
    }
    let mut k: usize = 0;
    while k < nm
        invariant
            dlen == d@.len(),
            nm == mems@.len(),
            0 <= k <= nm,
            ms == mems_iview(mems@),
            ar_members(d@, 8) == Some(ms),
            forall|j: int|
                0 <= j < nm ==> {
                    &&& (#[trigger] mems@[j]).0 + 60 <= dlen
                    &&& mems@[j].1 == mems@[j].0 + 60
                    &&& mems@[j].1 + mems@[j].2 <= dlen
                },
            out@.len() == ar_collect(d@, name@, ms.take(k as int)).len(),
            forall|q: int|
                0 <= q < out@.len() ==> desc_matches(
                    d@,
                    #[trigger] out@[q],
                    ar_collect(d@, name@, ms.take(k as int))[q],
                ),
            forall|q: int|
                0 <= q < out@.len() ==> (#[trigger] out@[q]).file_offset + out@[q].length <= dlen,
        decreases nm - k,
    {
        let m = mems[k];
        proof {
            assert(mems@[k as int] == m);
            assert(ms[k as int] == (m.0 as int, m.1 as int, m.2 as int));
        }
        let sub = slice_subrange(d, m.1, m.1 + m.2);
        let secs: Option<Vec<(usize, usize)>> = if check_elf(sub) {
            elf_lookup(sub, name)
        } else if check_pe(sub) {
            pe_lookup(sub, name)
        } else if check_macho(sub) {
            macho_lookup(sub, name)
        } else {
            None
        };
        let ghost t = ms[k as int];
        let ghost mdl = member_lookup(sub@, name@).map_values(
            |p: (int, int)| (t.0, t.1 + p.0, p.1),
        );
        proof {
            assert(ms.take(k as int + 1) =~= ms.take(k as int) + seq![t]);
            lemma_ar_collect_concat(d@, name@, ms.take(k as int), seq![t]);
            assert(seq![t].drop_first() =~= Seq::<(int, int, int)>::empty());
            assert(d@.subrange(t.1, t.1 + t.2) == sub@);
            assert(ar_collect(d@, name@, seq![t]) =~= mdl + ar_collect(
                d@,
                name@,
                Seq::<(int, int, int)>::empty(),
            ));
            assert(ar_collect(d@, name@, seq![t]) =~= mdl);
            lemma_member_lookup_wf(sub@, name@);
        }
        let ghost prev_out = out@;
        let ghost prev_take = ar_collect(d@, name@, ms.take(k as int));
        proof {
            assert(forall|q: int|
                0 <= q < prev_out.len() ==> (#[trigger] prev_out[q]).file_offset
                    + prev_out[q].length <= dlen);
            assert(forall|q: int|
                0 <= q < prev_out.len() ==> desc_matches(d@, #[trigger] prev_out[q], prev_take[q]));
        }
        match secs {
            None => {
                proof {
                    assert(member_lookup(sub@, name@) =~= Seq::<(int, int)>::empty());
                    assert(mdl =~= Seq::<(int, int, int)>::empty());
                    assert(ar_collect(d@, name@, ms.take(k as int + 1)) =~= ar_collect(
                        d@,
                        name@,
                        ms.take(k as int),
                    ));
                }
            },
            Some(l) => {
                proof {
                    assert(Some(pairs_view(l@)) == if is_elf(sub@) {
                        elf_lookup_spec(sub@, name@)
                    } else if is_pe(sub@) {
                        pe_lookup_spec(sub@, name@)
                    } else {
                        macho_lookup_spec(sub@, name@)
                    });
                    assert(pairs_view(l@) == member_lookup(sub@, name@));
                }
                let id_end = member_id_end(d, m.0);
                let idsrc = slice_subrange(d, m.0, id_end);
                let base_len = out.len();
                let nl = l.len();
                let mut j: usize = 0;
                while j < nl
                    invariant
                        dlen == d@.len(),
                        nl == l@.len(),
                        0 <= j <= nl,
                        pairs_view(l@) == member_lookup(sub@, name@),
                        sub@ == d@.subrange(t.1, t.1 + t.2),
                        sub@.len() == t.2,
                        t == (m.0 as int, m.1 as int, m.2 as int),
                        m.1 + m.2 <= dlen,
                        m.0 + 16 <= dlen,
                        mdl == member_lookup(sub@, name@).map_values(
                            |p: (int, int)| (t.0, t.1 + p.0, p.1),
                        ),
                        forall|q: int|
                            0 <= q < member_lookup(sub@, name@).len() ==> {
                                &&& 0 <= (#[trigger] member_lookup(sub@, name@)[q]).0
                                &&& member_lookup(sub@, name@)[q].0 + member_lookup(
                                    sub@,
                                    name@,
                                )[q].1 <= sub@.len()
                            },
                        idsrc@ == d@.subrange(m.0 as int, id_end as int),
                        id_end == ar_id_end(d@, m.0 as int),
                        out@.len() == base_len + j,
                        base_len == prev_out.len(),
                        forall|q: int| 0 <= q < base_len ==> out@[q] == prev_out[q],
                        forall|q: int|
                            0 <= q < j ==> desc_matches(d@, #[trigger] out@[base_len + q], mdl[q]),
                        forall|q: int|
                            base_len <= q < out@.len() ==> (#[trigger] out@[q]).file_offset
                                + out@[q].length <= dlen,
                    decreases nl - j,
                {
                    let p = l[j];
                    proof {
                        assert(pairs_view(l@)[j as int] == (p.0 as int, p.1 as int));
                        assert(mdl[j as int] == (t.0, t.1 + p.0, p.1 as int));
                    }
                    let idv = slice_to_vec(idsrc);
                    out.push(
                        SectionDescriptor {
                            member_id: Some(idv),
                            file_offset: m.1 + p.0,
                            length: p.1,
                        },
                    );
                    j += 1;
                }
                proof {
                    assert(out@.len() == base_len + mdl.len());
                    assert(ar_collect(d@, name@, ms.take(k as int + 1)) =~= prev_take + mdl);
                    let cc = ar_collect(d@, name@, ms.take(k as int + 1));
                    assert forall|q: int| 0 <= q < out@.len() implies desc_matches(
                        d@,
                        #[trigger] out@[q],
                        cc[q],
                    ) by {
                        if q < base_len {
                            assert(out@[q] == prev_out[q]);
                            assert(cc[q] == prev_take[q]);
                            assert(desc_matches(d@, prev_out[q], prev_take[q]));
                        } else {
                            assert(cc[q] == mdl[q - base_len]);
                            assert(desc_matches(d@, out@[base_len + (q - base_len)], mdl[q
                                - base_len]));
                        }
                    }
                    assert forall|q: int| 0 <= q < out@.len() implies ((#[trigger] out@[q]).file_offset
                        + out@[q].length <= dlen) by {
                        if q < base_len {
                            assert(out@[q] == prev_out[q]);
                            assert(prev_out[q].file_offset + prev_out[q].length <= dlen);
                        }
                    }
                }
            },
        }
        k += 1;
    }
    proof {
        assert(ms.take(nm as int) =~= ms);
    }
    Some(out)
}

/// The descriptor `s` renders the unified model element `t`.
pub open spec fn desc_view_matches(s: SectionDescriptor, t: (Option<Seq<u8>>, int, int)) -> bool {
    &&& (s.member_id is Some <==> t.0 is Some)
    &&& (s.member_id is Some ==> s.member_id->0@ == t.0->0)
    &&& s.file_offset == t.1
    &&& s.length == t.2
}

/// The unified lookup model over every recognized container kind: each
/// matching section's optional member identifier and absolute file range,
/// in member and table order; `None` for a malformed header.
pub open spec fn section_descs(d: Seq<u8>, name: Seq<u8>) -> Option<
    Seq<(Option<Seq<u8>>, int, int)>,
> {
    if is_archive(d) {
        match ar_lookup_spec(d, name) {
            Option::None => None,
            Option::Some(l) => Some(
                l.map_values(|t: (int, int, int)| (Some(ar_member_id(d, t.0)), t.1, t.2)),
            ),
        }
    } else if is_elf(d) {
        match elf_lookup_spec(d, name) {
            Option::None => None,
            Option::Some(l) => Some(
                l.map_values(|p: (int, int)| (Option::<Seq<u8>>::None, p.0, p.1)),
            ),
        }
    } else if is_pe(d) {
        match pe_lookup_spec(d, name) {
            Option::None => None,
            Option::Some(l) => Some(
                l.map_values(|p: (int, int)| (Option::<Seq<u8>>::None, p.0, p.1)),
            ),
        }
    } else if is_macho(d) {
        match macho_lookup_spec(d, name) {
            Option::None => None,
            Option::Some(l) => Some(
                l.map_values(|p: (int, int)| (Option::<Seq<u8>>::None, p.0, p.1)),
            ),
        }
    } else {
        None
    }
}

/// Why a section lookup yielded no descriptors.
#[derive(Clone, Copy, PartialEq, Eq, Structural, Debug)]
pub enum LookupFailure {
    /// The buffer is not a recognized structured format.
    Unsupported,
    /// The top-level header of the recognized format is malformed.
    Malformed,
    /// No section of the requested name exists in any member.
    NotFound,
}

/// Detects the container and returns the descriptors of every section named
/// `name`, across all members: the archive lookup for archives, the plain
/// object lookup (with no member identifier) for single-object files, and a
/// failure for unstructured buffers, malformed headers, or an absent name.
pub fn find_sections(d: &[u8], name: &[u8]) -> (r: Result<Vec<SectionDescriptor>, LookupFailure>)
    ensures
        !is_recognized(d@) <==> r == Result::<Vec<SectionDescriptor>, LookupFailure>::Err(
            LookupFailure::Unsupported,
        ),
        is_archive(d@) ==> match ar_lookup_spec(d@, name@) {
            Option::None => r == Result::<Vec<SectionDescriptor>, LookupFailure>::Err(
                LookupFailure::Malformed,
            ),
            Option::Some(l) => {
                if l.len() == 0 {
                    r == Result::<Vec<SectionDescriptor>, LookupFailure>::Err(
                        LookupFailure::NotFound,
                    )
                } else {
                    &&& r is Ok
                    &&& r->Ok_0@.len() == l.len()
                    &&& forall|j: int| 0 <= j < l.len() ==> desc_matches(d@, #[trigger] r->Ok_0@[j], l[j])
                }
            },
        },
        !is_archive(d@) && is_elf(d@) ==> single_lookup_post(d@, name@, elf_lookup_spec(d@, name@), r),
        !is_archive(d@) && !is_elf(d@) && is_pe(d@) ==> single_lookup_post(
            d@,
            name@,
            pe_lookup_spec(d@, name@),
            r,
        ),
        r matches Ok(v) ==> v@.len() >= 1 && forall|j: int|
            0 <= j < v@.len() ==> (#[trigger] v@[j]).file_offset + v@[j].length <= d@.len(),
        is_recognized(d@) ==> match section_descs(d@, name@) {
            Option::None => r == Result::<Vec<SectionDescriptor>, LookupFailure>::Err(
                LookupFailure::Malformed,
            ),
            Option::Some(l) => {
                if l.len() == 0 {
                    r == Result::<Vec<SectionDescriptor>, LookupFailure>::Err(
                        LookupFailure::NotFound,
                    )
                } else {
                    &&& r is Ok
                    &&& r->Ok_0@.len() == l.len()
                    &&& forall|j: int|
                        0 <= j < l.len() ==> desc_view_matches(#[trigger] r->Ok_0@[j], l[j])
                }
            },
        },
{
    let dlen = d.len();
    if check_archive(d) {
        match archive_lookup(d, name) {
            None => Err(LookupFailure::Malformed),
            Some(v) => {
                if v.len() == 0 {
                    Err(LookupFailure::NotFound)
                } else {
                    proof {
                        let la = ar_lookup_spec(d@, name@)->Some_0;
                        let dm = section_descs(d@, name@)->Some_0;
                        assert forall|j: int| 0 <= j < dm.len() implies desc_view_matches(
                            #[trigger] v@[j],
                            dm[j],
                        ) by {
                            assert(desc_matches(d@, v@[j], la[j]));
                            assert(dm[j] == (Some(ar_member_id(d@, la[j].0)), la[j].1, la[j].2));
                        }
                    }
                    Ok(v)
                }
            },
        }
    } else if check_elf(d) {
        match elf_lookup(d, name) {
            None => Err(LookupFailure::Malformed),
            Some(l) => {
                proof {
                    lemma_elf_collect_wf(d@, name@, 0);
                    let model = elf_collect(d@, name@, 0);
                    assert(pairs_view(l@) == model);
                    assert forall|j: int| 0 <= j < l@.len() implies ((#[trigger] l@[j]).0 + l@[j].1
                        <= d@.len()) by {
                        assert(pairs_view(l@)[j] == (l@[j].0 as int, l@[j].1 as int));
                        assert(0 <= model[j].0 && model[j].0 + model[j].1 <= d@.len());
                    }
                }
                let res = pairs_to_descriptors(d, l);
                proof {
                    if l@.len() > 0 {
                        let dm = section_descs(d@, name@)->Some_0;
                        assert forall|j: int| 0 <= j < dm.len() implies desc_view_matches(
                            #[trigger] res->Ok_0@[j],
                            dm[j],
                        ) by {
                            assert(pairs_view(l@)[j] == (l@[j].0 as int, l@[j].1 as int));
                            assert(dm[j] == (
                                Option::<Seq<u8>>::None,
                                elf_collect(d@, name@, 0)[j].0,
                                elf_collect(d@, name@, 0)[j].1,
                            ));
                        }
                    }
                }
                res
            },
        }
    } else if check_pe(d) {
        match pe_lookup(d, name) {
            None => Err(LookupFailure::Malformed),
            Some(l) => {
                proof {
                    lemma_pe_collect_wf(d@, name@, 0);
                    let model = pe_collect(d@, name@, 0);
                    assert(pairs_view(l@) == model);
                    assert forall|j: int| 0 <= j < l@.len() implies ((#[trigger] l@[j]).0 + l@[j].1
                        <= d@.len()) by {
                        assert(pairs_view(l@)[j] == (l@[j].0 as int, l@[j].1 as int));
                        assert(0 <= model[j].0 && model[j].0 + model[j].1 <= d@.len());
                    }
                }
                let res = pairs_to_descriptors(d, l);
                proof {
                    if l@.len() > 0 {
                        let dm = section_descs(d@, name@)->Some_0;
                        assert forall|j: int| 0 <= j < dm.len() implies desc_view_matches(
                            #[trigger] res->Ok_0@[j],
                            dm[j],
                        ) by {
                            assert(pairs_view(l@)[j] == (l@[j].0 as int, l@[j].1 as int));
                            assert(dm[j] == (
                                Option::<Seq<u8>>::None,
                                pe_collect(d@, name@, 0)[j].0,
                                pe_collect(d@, name@, 0)[j].1,
                            ));
                        }
                    }
                }
                res
            },
        }
    } else if check_macho(d) {
        match macho_lookup(d, name) {
            None => Err(LookupFailure::Malformed),
            Some(l) => {
                proof {
                    lemma_macho_cmds_wf(
                        d@,
                        name@,
                        macho64(d@),
                        0,
                        u32v(d@, 16, true),
                        if macho64(d@) {
                            32int
                        } else {
                            28int
                        },
                    );
                    let model = macho_lookup_spec(d@, name@)->Some_0;
                    assert(pairs_view(l@) == model);
                    assert forall|j: int| 0 <= j < l@.len() implies ((#[trigger] l@[j]).0 + l@[j].1
                        <= d@.len()) by {
                        assert(pairs_view(l@)[j] == (l@[j].0 as int, l@[j].1 as int));
                        assert(0 <= model[j].0 && model[j].0 + model[j].1 <= d@.len());
                    }
                }
                let res = pairs_to_descriptors(d, l);
                proof {
                    if l@.len() > 0 {
                        let dm = section_descs(d@, name@)->Some_0;
                        let model = macho_lookup_spec(d@, name@)->Some_0;
                        assert forall|j: int| 0 <= j < dm.len() implies desc_view_matches(
                            #[trigger] res->Ok_0@[j],
                            dm[j],
                        ) by {
                            assert(pairs_view(l@)[j] == (l@[j].0 as int, l@[j].1 as int));
                            assert(dm[j] == (Option::<Seq<u8>>::None, model[j].0, model[j].1));
                        }
                    }
                }
                res
            },
        }
    } else {
        Err(LookupFailure::Unsupported)
    }
}

/// What a single-object (non-archive) lookup must return for a model
/// outcome `spec_l`.
pub open spec fn single_lookup_post(
    d: Seq<u8>,
    name: Seq<u8>,
    spec_l: Option<Seq<(int, int)>>,
    r: Result<Vec<SectionDescriptor>, LookupFailure>,
) -> bool {
    match spec_l {
        Option::None => r == Result::<Vec<SectionDescriptor>, LookupFailure>::Err(
            LookupFailure::Malformed,
        ),
        Option::Some(l) => {
            if l.len() == 0 {
                r == Result::<Vec<SectionDescriptor>, LookupFailure>::Err(LookupFailure::NotFound)
            } else {
                &&& r is Ok
                &&& r->Ok_0@.len() == l.len()
                &&& forall|j: int|
                    0 <= j < l.len() ==> {
                        &&& (#[trigger] r->Ok_0@[j]).member_id is None
                        &&& r->Ok_0@[j].file_offset == l[j].0
                        &&& r->Ok_0@[j].length == l[j].1
                    }
            }
        },
    }
}

/// Wraps the ranges a single-object lookup found into descriptors with no
/// member identifier; an empty list is the not-found failure.
fn pairs_to_descriptors(d: &[u8], l: Vec<(usize, usize)>) -> (r: Result<
    Vec<SectionDescriptor>,
    LookupFailure,
>)
    requires
        forall|j: int|
            0 <= j < l@.len() ==> (#[trigger] l@[j]).0 + l@[j].1 <= d@.len(),
    ensures
        l@.len() == 0 ==> r == Result::<Vec<SectionDescriptor>, LookupFailure>::Err(
            LookupFailure::NotFound,
        ),
        l@.len() > 0 ==> {
            &&& r is Ok
            &&& r->Ok_0@.len() == l@.len()
            &&& forall|j: int|
                0 <= j < l@.len() ==> {
                    &&& (#[trigger] r->Ok_0@[j]).member_id is None
                    &&& r->Ok_0@[j].file_offset == l@[j].0
                    &&& r->Ok_0@[j].length == l@[j].1
                    &&& r->Ok_0@[j].file_offset + r->Ok_0@[j].length <= d@.len()
                }
        },
{
    let n = l.len();
    if n == 0 {
        return Err(LookupFailure::NotFound);
    }
    let mut out: Vec<SectionDescriptor> = Vec::new();
    let mut j: usize = 0;
    while j < n
        invariant
            n == l@.len(),
            0 <= j <= n,
            out@.len() == j,
            forall|q: int|
                0 <= q < l@.len() ==> (#[trigger] l@[q]).0 + l@[q].1 <= d@.len(),
            forall|q: int|
                0 <= q < j ==> {
                    &&& (#[trigger] out@[q]).member_id is None
                    &&& out@[q].file_offset == l@[q].0
                    &&& out@[q].length == l@[q].1
                    &&& out@[q].file_offset + out@[q].length <= d@.len()
                },
        decreases n - j,
    {
        let p = l[j];
        out.push(SectionDescriptor { member_id: None, file_offset: p.0, length: p.1 });
        j += 1;
    }
    Ok(out)
}

} // verus!
