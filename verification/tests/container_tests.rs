use aobscan::scan::{PatternBuilder, ScanError};

/// A minimal ELF64 little-endian image with a 4-byte `.text` section holding
/// `FF 00 FF 90`, a `.shstrtab`, and a null section.
fn minimal_elf() -> Vec<u8> {
    let mut d = vec![0u8; 277];
    d[0] = 0x7f;
    d[1] = b'E';
    d[2] = b'L';
    d[3] = b'F';
    d[4] = 2; // 64-bit
    d[5] = 1; // little endian
    d[0x28] = 85; // e_shoff
    d[0x3a] = 64; // e_shentsize
    d[0x3c] = 3; // e_shnum
    d[0x3e] = 2; // e_shstrndx
    // .text contents at 0x40
    d[0x40] = 0xFF;
    d[0x41] = 0x00;
    d[0x42] = 0xFF;
    d[0x43] = 0x90;
    // section-name string table at 0x44
    d[0x44..0x44 + 17].copy_from_slice(b"\0.text\0.shstrtab\0");
    // section header 1: .text
    d[149] = 1; // sh_name
    d[149 + 0x18] = 0x40; // sh_offset
    d[149 + 0x20] = 4; // sh_size
    // section header 2: .shstrtab
    d[213] = 7;
    d[213 + 0x18] = 0x44;
    d[213 + 0x20] = 17;
    d
}

/// The 32-bit little-endian counterpart of [`minimal_elf`].
fn minimal_elf32() -> Vec<u8> {
    let mut d = vec![0u8; 193];
    d[0] = 0x7f;
    d[1] = b'E';
    d[2] = b'L';
    d[3] = b'F';
    d[4] = 1; // 32-bit
    d[5] = 1; // little endian
    d[0x20] = 73; // e_shoff
    d[0x2e] = 40; // e_shentsize
    d[0x30] = 3; // e_shnum
    d[0x32] = 2; // e_shstrndx
    d[0x34] = 0xFF;
    d[0x35] = 0x00;
    d[0x36] = 0xFF;
    d[0x37] = 0x90;
    d[0x38..0x38 + 17].copy_from_slice(b"\0.text\0.shstrtab\0");
    d[113] = 1; // sh_name of .text
    d[113 + 0x10] = 0x34; // sh_offset
    d[113 + 0x14] = 4; // sh_size
    d[153] = 7;
    d[153 + 0x10] = 0x38;
    d[153 + 0x14] = 17;
    d
}

/// The big-endian counterpart of [`minimal_elf`].
fn minimal_elf_be() -> Vec<u8> {
    let mut d = vec![0u8; 277];
    d[0] = 0x7f;
    d[1] = b'E';
    d[2] = b'L';
    d[3] = b'F';
    d[4] = 2; // 64-bit
    d[5] = 2; // big endian
    d[0x28 + 7] = 85; // e_shoff
    d[0x3a + 1] = 64; // e_shentsize
    d[0x3c + 1] = 3; // e_shnum
    d[0x3e + 1] = 2; // e_shstrndx
    d[0x40] = 0xFF;
    d[0x41] = 0x00;
    d[0x42] = 0xFF;
    d[0x43] = 0x90;
    d[0x44..0x44 + 17].copy_from_slice(b"\0.text\0.shstrtab\0");
    d[149 + 3] = 1;
    d[149 + 0x18 + 7] = 0x40;
    d[149 + 0x20 + 7] = 4;
    d[213 + 3] = 7;
    d[213 + 0x18 + 7] = 0x44;
    d[213 + 0x20 + 7] = 17;
    d
}

#[test]
fn elf32_section_scan_reports_matches() {
    let elf = minimal_elf32();
    let p = PatternBuilder::from_ida_style("FF").unwrap().build();
    let (found, results) = p.scan_object(&elf, ".text", false).unwrap();
    assert!(found);
    assert_eq!(results.len(), 2);
    assert_eq!(results[0].raw_offset, 0x34);
    assert_eq!(results[0].section_offset, 0);
    assert_eq!(results[1].raw_offset, 0x36);
}

#[test]
fn big_endian_elf_section_scan_reports_matches() {
    let elf = minimal_elf_be();
    let p = PatternBuilder::from_ida_style("FF").unwrap().build();
    let (found, results) = p.scan_object(&elf, ".text", false).unwrap();
    assert!(found);
    assert_eq!(results.len(), 2);
    assert_eq!(results[0].raw_offset, 0x40);
    assert_eq!(results[1].raw_offset, 0x42);
}

/// A minimal PE image with one section `.data` holding `AB CD AB`.
fn minimal_pe() -> Vec<u8> {
    let mut d = vec![0u8; 131];
    d[0] = b'M';
    d[1] = b'Z';
    d[0x3c] = 0x40; // e_lfanew
    d[0x40] = b'P';
    d[0x41] = b'E';
    d[0x46] = 1; // NumberOfSections
    // SizeOfOptionalHeader stays 0; the section table starts at 0x58.
    d[0x58..0x5d].copy_from_slice(b".data");
    d[0x58 + 16] = 3; // SizeOfRawData
    d[0x58 + 20] = 0x80; // PointerToRawData
    d[128] = 0xAB;
    d[129] = 0xCD;
    d[130] = 0xAB;
    d
}

/// A static archive holding the minimal ELF as its only member, named `m.o`.
fn minimal_archive() -> Vec<u8> {
    let elf = minimal_elf();
    let mut d = Vec::new();
    d.extend_from_slice(b"!<arch>\n");
    let mut hdr = [0x20u8; 60];
    hdr[0..4].copy_from_slice(b"m.o/");
    hdr[48..51].copy_from_slice(b"277");
    hdr[58] = 0x60;
    hdr[59] = 0x0a;
    d.extend_from_slice(&hdr);
    d.extend_from_slice(&elf);
    d
}

/// A minimal 64-bit little-endian Mach-O image with one segment holding one
/// section `__text` whose file bytes are `FF 00 FF 90`.
fn minimal_macho() -> Vec<u8> {
    let mut d = vec![0u8; 196];
    d[0..4].copy_from_slice(&[0xcf, 0xfa, 0xed, 0xfe]); // MH_MAGIC_64, little endian
    d[16] = 1; // ncmds
    d[32] = 0x19; // LC_SEGMENT_64
    d[36] = 152; // cmdsize: 72-byte segment command + one 80-byte section
    d[96] = 1; // nsects
    d[104..110].copy_from_slice(b"__text"); // sectname, zero padded
    d[144] = 4; // size
    d[152] = 192; // file offset
    d[192] = 0xFF;
    d[193] = 0x00;
    d[194] = 0xFF;
    d[195] = 0x90;
    d
}

#[test]
fn macho_section_scan_reports_matches() {
    let macho = minimal_macho();
    let p = PatternBuilder::from_ida_style("FF").unwrap().build();
    let (found, results) = p.scan_object(&macho, "__text", false).unwrap();
    assert!(found);
    assert_eq!(results.len(), 2);
    assert_eq!(results[0].raw_offset, 192);
    assert_eq!(results[0].section_offset, 0);
    assert!(results[0].archive_id.is_none());
    assert_eq!(results[1].raw_offset, 194);
    assert_eq!(results[1].section_offset, 2);
    // A name no section carries.
    match p.scan_object(&macho, "__data", false).unwrap_err() {
        ScanError::SectionNotFound(name) => assert_eq!(name, "__data"),
        other => panic!("unexpected error: {:?}", other),
    }
}

#[test]
fn section_scan_on_plain_buffer_is_unsupported() {
    let buffer = [1u8, 2, 3];
    let p = PatternBuilder::from_hex_string("ff").unwrap().build();
    let err = p.scan_object(&buffer, ".text", false).unwrap_err();
    assert!(matches!(err, ScanError::UnsupportedContainer));
}

#[test]
fn missing_section_name_is_reported_with_the_name() {
    // A recognized but section-less image.
    let mut bare = vec![0u8; 64];
    bare[0] = 0x7f;
    bare[1] = b'E';
    bare[2] = b'L';
    bare[3] = b'F';
    bare[4] = 2;
    bare[5] = 1;
    let p = PatternBuilder::from_hex_string("ff").unwrap().build();
    match p.scan_object(&bare, ".nonexistent", false).unwrap_err() {
        ScanError::SectionNotFound(name) => assert_eq!(name, ".nonexistent"),
        other => panic!("unexpected error: {:?}", other),
    }
    // A recognized image whose sections carry other names.
    let elf = minimal_elf();
    match p.scan_object(&elf, ".nonexistent", false).unwrap_err() {
        ScanError::SectionNotFound(name) => assert_eq!(name, ".nonexistent"),
        other => panic!("unexpected error: {:?}", other),
    }
}

#[test]
fn malformed_elf_header_is_reported() {
    let mut bad = vec![0u8; 64];
    bad[0] = 0x7f;
    bad[1] = b'E';
    bad[2] = b'L';
    bad[3] = b'F';
    bad[4] = 5; // invalid class
    let p = PatternBuilder::from_hex_string("ff").unwrap().build();
    let err = p.scan_object(&bad, ".text", false).unwrap_err();
    assert!(matches!(err, ScanError::MalformedHeader));
}

#[test]
fn elf_section_scan_reports_raw_and_section_offsets() {
    let elf = minimal_elf();
    let p = PatternBuilder::from_ida_style("FF").unwrap().build();
    let (found, results) = p.scan_object(&elf, ".text", false).unwrap();
    assert!(found);
    assert_eq!(results.len(), 2);
    assert_eq!(results[0].raw_offset, 0x40);
    assert_eq!(results[0].section_offset, 0);
    assert!(results[0].archive_id.is_none());
    assert_eq!(results[1].raw_offset, 0x42);
    assert_eq!(results[1].section_offset, 2);
}

#[test]
fn elf_section_scan_is_restricted_to_the_section() {
    // 0x90 also occurs in the string table region; only `.text` is scanned.
    let elf = minimal_elf();
    let p = PatternBuilder::from_hex_string("74").unwrap().build();
    // 0x74 is 't', present in the string table but not in .text.
    let (found, results) = p.scan_object(&elf, ".text", false).unwrap();
    assert!(!found);
    assert!(results.is_empty());
}

#[test]
fn pe_section_scan_reports_matches() {
    let pe = minimal_pe();
    let p = PatternBuilder::from_hex_string("ab").unwrap().build();
    let (found, results) = p.scan_object(&pe, ".data", false).unwrap();
    assert!(found);
    assert_eq!(results.len(), 2);
    assert_eq!(results[0].raw_offset, 128);
    assert_eq!(results[0].section_offset, 0);
    assert_eq!(results[1].raw_offset, 130);
    assert_eq!(results[1].section_offset, 2);
    assert!(results[0].archive_id.is_none());
}

#[test]
fn archive_member_sections_carry_the_member_id() {
    let ar = minimal_archive();
    let p = PatternBuilder::from_ida_style("FF").unwrap().build();
    let (found, results) = p.scan_object(&ar, ".text", false).unwrap();
    assert!(found);
    assert_eq!(results.len(), 2);
    // The member's ELF starts at offset 68; its .text at 68 + 0x40.
    assert_eq!(results[0].raw_offset, 132);
    assert_eq!(results[0].section_offset, 0);
    assert_eq!(results[0].archive_id.as_deref(), Some(b"m.o".as_slice()));
    assert_eq!(results[1].raw_offset, 134);
    assert_eq!(results[1].section_offset, 2);
}

#[test]
fn recurring_section_name_is_found_in_every_member() {
    // Two members, each with a `.text` section; the member sizes are odd, so
    // the first member's data is followed by a padding byte.
    let elf = minimal_elf();
    let mut d = Vec::new();
    d.extend_from_slice(b"!<arch>\n");
    for name in [b"a.o/", b"b.o/"] {
        if d.len() % 2 == 1 {
            d.push(b'\n');
        }
        let mut hdr = [0x20u8; 60];
        hdr[0..4].copy_from_slice(name);
        hdr[48..51].copy_from_slice(b"277");
        hdr[58] = 0x60;
        hdr[59] = 0x0a;
        d.extend_from_slice(&hdr);
        d.extend_from_slice(&elf);
    }
    let first_elf = 8 + 60;
    let second_elf = first_elf + 277 + 1 + 60;
    let p = PatternBuilder::from_ida_style("FF").unwrap().build();
    let (found, results) = p.scan_object(&d, ".text", false).unwrap();
    assert!(found);
    assert_eq!(results.len(), 4);
    assert_eq!(results[0].archive_id.as_deref(), Some(b"a.o".as_slice()));
    assert_eq!(results[0].raw_offset, first_elf + 0x40);
    assert_eq!(results[1].raw_offset, first_elf + 0x42);
    assert_eq!(results[2].archive_id.as_deref(), Some(b"b.o".as_slice()));
    assert_eq!(results[2].raw_offset, second_elf + 0x40);
    assert_eq!(results[3].raw_offset, second_elf + 0x42);
}

#[test]
fn archive_stop_after_first_reports_one_match() {
    let ar = minimal_archive();
    let p = PatternBuilder::from_ida_style("FF").unwrap().build();
    let (found, results) = p.scan_object(&ar, ".text", true).unwrap();
    assert!(found);
    assert_eq!(results.len(), 1);
    assert_eq!(results[0].raw_offset, 132);
}

#[test]
fn section_scan_with_several_workers_matches_single_worker() {
    let elf = minimal_elf();
    let single = PatternBuilder::from_ida_style("FF")
        .unwrap()
        .with_threads(1, 4)
        .unwrap()
        .build();
    let many = PatternBuilder::from_ida_style("FF")
        .unwrap()
        .with_threads(4, 4)
        .unwrap()
        .build();
    let a = single.scan_object(&elf, ".text", false).unwrap();
    let b = many.scan_object(&elf, ".text", false).unwrap();
    assert_eq!(a.0, b.0);
    assert_eq!(a.1.len(), b.1.len());
    for (x, y) in a.1.iter().zip(b.1.iter()) {
        assert_eq!(x.raw_offset, y.raw_offset);
        assert_eq!(x.section_offset, y.section_offset);
    }
}
