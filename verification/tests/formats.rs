use bitterasm::formats::{check_entry, wrap, wrap_elf, wrap_macho, wrap_pe, Format};

#[test]
fn elf_header_reports_the_right_entry_point_and_file_size() {
    let code = [0x90, 0x90, 0x90]; // 3 NOPs
    let bytes = wrap_elf(&code, 0);
    assert_eq!(bytes.len(), 64 + 56 + code.len());
    assert_eq!(&bytes[0..4], &[0x7f, b'E', b'L', b'F']);
    let entry = u64::from_le_bytes(bytes[24..32].try_into().unwrap());
    assert_eq!(entry, 0x400000 + 64 + 56);
    assert_eq!(&bytes[64 + 56..], &code);
}

#[test]
fn pe_header_is_file_aligned_and_reports_the_entry_rva() {
    let code = [0x90, 0x90, 0x90];
    let bytes = wrap_pe(&code, 0);
    assert_eq!(&bytes[0..2], b"MZ");
    let lfanew = u32::from_le_bytes(bytes[0x3C..0x40].try_into().unwrap()) as usize;
    assert_eq!(&bytes[lfanew..lfanew + 4], b"PE\0\0");
    let opt_start = lfanew + 4 + 20;
    let entry_rva = u32::from_le_bytes(bytes[opt_start + 16..opt_start + 20].try_into().unwrap());
    assert_eq!(entry_rva, 0x1000);
    assert_eq!(bytes.len() % 0x200, 0, "file size must stay FileAlignment-rounded");
    assert_eq!(&bytes[0x200..0x200 + code.len()], &code);
}

#[test]
fn macho_header_reports_the_right_magic_and_entry_offset() {
    let code = [0x90, 0x90, 0x90];
    let bytes = wrap_macho(&code, 0);
    assert_eq!(u32::from_le_bytes(bytes[0..4].try_into().unwrap()), 0xfeedfacf);
    assert_eq!(&bytes[bytes.len() - code.len()..], &code);
}

#[test]
fn entry_offset_moves_every_format_s_entry_point() {
    let code = [0x90, 0x90, 0x90];

    let elf = wrap_elf(&code, 2);
    assert_eq!(u64::from_le_bytes(elf[24..32].try_into().unwrap()), 0x400000 + 64 + 56 + 2);

    let pe = wrap_pe(&code, 2);
    let opt_start = u32::from_le_bytes(pe[0x3C..0x40].try_into().unwrap()) as usize + 4 + 20;
    assert_eq!(u32::from_le_bytes(pe[opt_start + 16..opt_start + 20].try_into().unwrap()), 0x1000 + 2);

    let at_start = wrap_macho(&code, 0);
    let moved = wrap_macho(&code, 2);
    let diff: Vec<usize> = (0..at_start.len()).filter(|&i| at_start[i] != moved[i]).collect();
    assert!(!diff.is_empty(), "LC_MAIN's entryoff should change");
}

#[test]
fn format_names_parse_to_their_containers() {
    assert_eq!(Format::parse("elf"), Ok(Format::Elf));
    assert_eq!(Format::parse("pe"), Ok(Format::Pe));
    assert_eq!(Format::parse("macho"), Ok(Format::MachO));
    assert_eq!(Format::parse("mach-o"), Ok(Format::MachO));
    assert_eq!(
        Format::parse("coff"),
        Err("unknown format `coff` (expected `elf`, `pe`, or `macho`)".to_string())
    );
}

#[test]
fn only_pe_executables_have_an_extension() {
    assert_eq!(Format::Elf.extension(), "");
    assert_eq!(Format::MachO.extension(), "");
    assert_eq!(Format::Pe.extension(), "exe");
}

#[test]
fn each_os_gets_its_native_container() {
    assert_eq!(Format::for_os("linux"), Format::Elf);
    assert_eq!(Format::for_os("freebsd"), Format::Elf);
    assert_eq!(Format::for_os("windows"), Format::Pe);
    assert_eq!(Format::for_os("macos"), Format::MachO);
}

#[test]
fn wrap_dispatches_on_the_format() {
    let code = [0xc3];
    assert_eq!(wrap(&code, Format::Elf, 0), wrap_elf(&code, 0));
    assert_eq!(wrap(&code, Format::Pe, 0), wrap_pe(&code, 0));
    assert_eq!(wrap(&code, Format::MachO, 0), wrap_macho(&code, 0));
}

#[test]
fn elf_file_size_fields_count_headers_and_code() {
    let code = [1u8, 2, 3, 4, 5];
    let bytes = wrap_elf(&code, 0);
    let file_size = u64::from_le_bytes(bytes[64 + 32..64 + 40].try_into().unwrap());
    assert_eq!(file_size, 64 + 56 + 5);
}

#[test]
fn pe_pads_code_to_the_file_alignment() {
    let code = vec![0xccu8; 0x201];
    let bytes = wrap_pe(&code, 0);
    assert_eq!(bytes.len(), 0x200 + 0x400);
    assert!(bytes[0x200 + 0x201..].iter().all(|b| *b == 0));
}

#[test]
fn macho_headers_are_160_bytes() {
    let code = [0x90u8; 7];
    let bytes = wrap_macho(&code, 1);
    assert_eq!(bytes.len(), 160 + 7);
    assert_eq!(u64::from_le_bytes(bytes[144..152].try_into().unwrap()), 161);
    assert_eq!(&bytes[136 - 32 + 12..136 - 32 + 26], b"/usr/lib/dyld\0");
}

#[test]
fn an_entry_past_the_code_is_refused() {
    assert_eq!(check_entry(3, 2), None);
    assert_eq!(check_entry(0, 0), None);
    assert_eq!(
        check_entry(3, 3),
        Some("entry offset 3 is past the end of the 3-byte code".to_string())
    );
    assert_eq!(
        check_entry(0, 1),
        Some("entry offset 1 is past the end of the 0-byte code".to_string())
    );
}
