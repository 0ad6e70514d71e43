//! Wraps raw machine code in a minimal native executable container, so the
//! host OS's own loader can run it: a static ELF64 (Linux/BSD), a console
//! PE32+ (Windows) or a Mach-O 64 `MH_EXECUTE` (macOS). Every header field
//! is a fixed-width little-endian integer appended in file order; the
//! contracts give each container's whole byte image.
use vstd::prelude::*;

use crate::text::{concat3, decimal, decimal_string, str_eq};

verus! {


/// The three native executable containers.
#[derive(Debug, Clone, Copy, PartialEq, Eq, Structural)]
pub enum Format {
    Elf,
    Pe,
    MachO,
}

/// The format a `--format` name selects.
pub open spec fn format_named(name: Seq<char>) -> Option<Format> {
    if name == "elf"@ {
        Some(Format::Elf)
    } else if name == "pe"@ {
        Some(Format::Pe)
    } else if name == "macho"@ || name == "mach-o"@ {
        Some(Format::MachO)
    } else {
        None
    }
}

/// The container an OS (named as Rust's `target_os` names it) expects.
pub open spec fn format_for_os(os: Seq<char>) -> Format {
    if os == "windows"@ {
        Format::Pe
    } else if os == "macos"@ {
        Format::MachO
    } else {
        Format::Elf
    }
}

impl Format {
    /// The container an OS expects: PE on Windows, Mach-O on macOS, ELF
    /// everywhere else.
    pub fn for_os(os: &str) -> (format: Format)
        ensures
            format == format_for_os(os@),
    {
        if str_eq(os, "windows") {
            Format::Pe
        } else if str_eq(os, "macos") {
            Format::MachO
        } else {
            Format::Elf
        }
    }

    /// The format named `elf`, `pe`, `macho` or `mach-o`.
    pub fn parse(name: &str) -> (result: Result<Format, String>)
        ensures
            match format_named(name@) {
                Some(format) => result == Ok::<Format, String>(format),
                None => result matches Err(message) && message@ == "unknown format `"@ + name@
                    + "` (expected `elf`, `pe`, or `macho`)"@,
            },
    {
        if str_eq(name, "elf") {
            Ok(Format::Elf)
        } else if str_eq(name, "pe") {
            Ok(Format::Pe)
        } else if str_eq(name, "macho") || str_eq(name, "mach-o") {
            Ok(Format::MachO)
        } else {
            Err(concat3("unknown format `", name, "` (expected `elf`, `pe`, or `macho`)"))
        }
    }

    /// The conventional filename extension of an executable in this
    /// container: none for ELF and Mach-O, `exe` for PE.
    pub fn extension(self) -> (ext: &'static str)
        ensures
            ext@ == (if self == Format::Pe {
                "exe"@
            } else {
                ""@
            }),
    {
        match self {
            Format::Elf | Format::MachO => "",
            Format::Pe => "exe",
        }
    }
}

// =================
// little-endian fields
// =================

/// `v`'s low `n` bytes, least significant first.
pub open spec fn le_bytes(v: nat, n: nat) -> Seq<u8>
    decreases n,
{
    if n == 0 {
        Seq::empty()
    } else {
        seq![(v % 256) as u8] + le_bytes(v / 256, (n - 1) as nat)
    }
}

/// The number that little-endian bytes spell.
pub open spec fn le_value(s: Seq<u8>) -> nat
    decreases s.len(),
{
    if s.len() == 0 {
        0
    } else {
        s[0] as nat + 256 * le_value(s.drop_first())
    }
}

pub open spec fn pow256(n: nat) -> nat
    decreases n,
{
    if n == 0 {
        1
    } else {
        256 * pow256((n - 1) as nat)
    }
}

/// `n` zero bytes.
pub open spec fn zeros(n: nat) -> Seq<u8> {
    Seq::new(n, |i: int| 0u8)
}

pub broadcast proof fn lemma_le_bytes_len(v: nat, n: nat)
    ensures
        #[trigger] le_bytes(v, n).len() == n,
    decreases n,
{
    if n > 0 {
        lemma_le_bytes_len(v / 256, (n - 1) as nat);
    }
}

pub broadcast proof fn lemma_zeros_len(n: nat)
    ensures
        #[trigger] zeros(n).len() == n,
{
}

/// Reading back a little-endian field gives the number written, when the
/// number fits in the field.
pub proof fn lemma_le_round_trip(v: nat, n: nat)
    requires
        v < pow256(n),
    ensures
        le_value(le_bytes(v, n)) == v,
    decreases n,
{
    if n > 0 {
        let rest = le_bytes(v / 256, (n - 1) as nat);
        let p = pow256((n - 1) as nat);
        assert(v / 256 < p) by (nonlinear_arith)
            requires
                v < 256 * p,
        ;
        lemma_le_round_trip(v / 256, (n - 1) as nat);
        assert(le_bytes(v, n).drop_first() =~= rest);
        assert(v == (v % 256) + 256 * (v / 256)) by (nonlinear_arith);
    }
}

pub proof fn lemma_pow256_8()
    ensures
        pow256(2) == 0x1_0000,
        pow256(4) == 0x1_0000_0000,
        pow256(8) == 0x1_0000_0000_0000_0000,
{
    reveal_with_fuel(pow256, 9);
}

/// The zero-padding that takes a length `len` up to a multiple of `align`.
pub open spec fn pad_len(len: nat, align: nat) -> nat {
    if len % align == 0 {
        0
    } else {
        (align - len % align) as nat
    }
}

/// `n` rounded up to a multiple of `align`.
pub open spec fn round_up_spec(n: nat, align: nat) -> nat {
    n + pad_len(n, align)
}

fn round_up(n: usize, align: usize) -> (rounded: usize)
    requires
        align > 0,
        n + align <= usize::MAX,
    ensures
        rounded == round_up_spec(n as nat, align as nat),
        n <= rounded < n + align,
{
    let rem = n % align;
    if rem == 0 {
        n
    } else {
        n + (align - rem)
    }
}


// =================
// the byte writer
// =================

struct Writer {
    bytes: Vec<u8>,
}

impl Writer {
    fn new() -> (w: Writer)
        ensures
            w.bytes@ == Seq::<u8>::empty(),
    {
        Writer { bytes: Vec::new() }
    }

    fn u8(&mut self, v: u8)
        ensures
            final(self).bytes@ == old(self).bytes@.push(v),
    {
        self.bytes.push(v);
    }

    /// Appends `v`'s low `n` bytes, least significant first.
    fn le(&mut self, v: u64, n: usize)
        ensures
            final(self).bytes@ == old(self).bytes@ + le_bytes(v as nat, n as nat),
    {
        let ghost start = self.bytes@;
        let mut x: u64 = v;
        let mut i: usize = 0;
        while i < n
            invariant
                i <= n,
                start + le_bytes(v as nat, n as nat) == self.bytes@ + le_bytes(x as nat, (n - i) as nat),
            decreases n - i,
        {
            let ghost before = self.bytes@;
            let ghost rest = le_bytes((x / 256) as nat, (n - i - 1) as nat);
            assert(le_bytes(x as nat, (n - i) as nat) == seq![(x % 256) as u8] + rest);
            self.bytes.push((x % 256) as u8);
            assert(before + (seq![(x % 256) as u8] + rest) =~= self.bytes@ + rest);
            x = x / 256;
            i += 1;
        }
        assert(self.bytes@ + le_bytes(x as nat, 0) =~= self.bytes@);
    }

    fn u16(&mut self, v: u16)
        ensures
            final(self).bytes@ == old(self).bytes@ + le_bytes(v as nat, 2),
    {
        self.le(v as u64, 2);
    }

    fn u32(&mut self, v: u32)
        ensures
            final(self).bytes@ == old(self).bytes@ + le_bytes(v as nat, 4),
    {
        self.le(v as u64, 4);
    }

    fn u64(&mut self, v: u64)
        ensures
            final(self).bytes@ == old(self).bytes@ + le_bytes(v as nat, 8),
    {
        self.le(v, 8);
    }

    fn bytes(&mut self, v: &[u8])
        ensures
            final(self).bytes@ == old(self).bytes@ + v@,
    {
        let ghost start = self.bytes@;
        let mut i: usize = 0;
        while i < v.len()
            invariant
                i <= v@.len(),
                self.bytes@ == start + v@.take(i as int),
            decreases v@.len() - i,
        {
            self.bytes.push(v[i]);
            assert(v@.take(i + 1) =~= v@.take(i as int).push(v@[i as int]));
            i += 1;
        }
        assert(v@.take(v@.len() as int) =~= v@);
    }

    /// Appends `n` zero bytes.
    fn zeros(&mut self, n: usize)
        ensures
            final(self).bytes@ == old(self).bytes@ + zeros(n as nat),
    {
        let ghost start = self.bytes@;
        let mut i: usize = 0;
        while i < n
            invariant
                i <= n,
                self.bytes@ == start + zeros(i as nat),
            decreases n - i,
        {
            self.bytes.push(0);
            assert(zeros((i + 1) as nat) =~= zeros(i as nat).push(0u8));
            i += 1;
        }
    }

    /// A fixed-width field: `v`, cut to `len` bytes if longer, then zeros
    /// out to `len`.
    fn fixed(&mut self, v: &[u8], len: usize)
        ensures
            final(self).bytes@ == old(self).bytes@ + fixed_field(v@, len as nat),
    {
        let n = if v.len() < len {
            v.len()
        } else {
            len
        };
        let ghost start = self.bytes@;
        let mut i: usize = 0;
        while i < n
            invariant
                n <= v@.len(),
                n <= len,
                i <= n,
                self.bytes@ == start + v@.take(i as int),
            decreases n - i,
        {
            self.bytes.push(v[i]);
            assert(v@.take(i + 1) =~= v@.take(i as int).push(v@[i as int]));
            i += 1;
        }
        self.zeros(len - n);
        assert(self.bytes@ =~= start + fixed_field(v@, len as nat));
    }

    /// Zero-pads the output to a multiple of `align` bytes.
    fn pad_to(&mut self, align: usize)
        requires
            align > 0,
        ensures
            final(self).bytes@ == old(self).bytes@ + zeros(pad_len(old(self).bytes@.len(), align as nat)),
    {
        let rem = self.bytes.len() % align;
        if rem != 0 {
            self.zeros(align - rem);
        } else {
            self.zeros(0);
        }
    }

    fn len(&self) -> (n: usize)
        ensures
            n == self.bytes@.len(),
    {
        self.bytes.len()
    }
}

/// A fixed-width field holding `v`: cut to `len` bytes, or zero-padded to them.
pub open spec fn fixed_field(v: Seq<u8>, len: nat) -> Seq<u8> {
    if v.len() < len {
        v + zeros((len - v.len()) as nat)
    } else {
        v.take(len as int)
    }
}

// =================
// ELF64 (Linux/BSD)
// =================
// One 64-byte `Elf64_Ehdr` and one 56-byte `Elf64_Phdr` (a single `PT_LOAD`
// segment mapping the whole file, headers included, at a fixed address),
// then the code. No section headers and no dynamic linking.

const ELF_LOAD_ADDR: u64 = 0x400000;

const ELF_EHDR_SIZE: u64 = 64;

const ELF_PHDR_SIZE: u64 = 56;

/// The ELF header and program header in front of `code_len` bytes of code
/// entered `entry` bytes in.
pub open spec fn elf_headers(code_len: nat, entry: nat) -> Seq<u8> {
    let file_size = 120 + code_len;
    Seq::<u8>::empty().push(0x7f).push(0x45).push(0x4c).push(0x46).push(2).push(1).push(1).push(0)
        + zeros(8) + le_bytes(2, 2) + le_bytes(0x3e, 2) + le_bytes(1, 4) + le_bytes(0x400078 + entry, 8)
        + le_bytes(64, 8) + le_bytes(0, 8) + le_bytes(0, 4) + le_bytes(64, 2) + le_bytes(56, 2)
        + le_bytes(1, 2) + le_bytes(0, 2) + le_bytes(0, 2) + le_bytes(0, 2) + le_bytes(1, 4)
        + le_bytes(5, 4) + le_bytes(0, 8) + le_bytes(0x400000, 8) + le_bytes(0x400000, 8)
        + le_bytes(file_size, 8) + le_bytes(file_size, 8) + le_bytes(0x1000, 8)
}

pub open spec fn elf_image(code: Seq<u8>, entry: nat) -> Seq<u8> {
    elf_headers(code.len(), entry) + code
}

/// `code` as a static ELF64 executable entered `entry_offset` bytes in.
pub fn wrap_elf(code: &[u8], entry_offset: usize) -> (image: Vec<u8>)
    requires
        entry_offset + 0x400078 <= u64::MAX,
        code@.len() + 120 <= u64::MAX,
    ensures
        image@ == elf_image(code@, entry_offset as nat),
{
    let entry = ELF_LOAD_ADDR + ELF_EHDR_SIZE + ELF_PHDR_SIZE + entry_offset as u64;
    let file_size = ELF_EHDR_SIZE + ELF_PHDR_SIZE + code.len() as u64;
    let mut w = Writer::new();
    // e_ident: magic, ELFCLASS64, ELFDATA2LSB, EI_VERSION, ELFOSABI_SYSV
    w.u8(0x7f);
    w.u8(0x45);
    w.u8(0x4c);
    w.u8(0x46);
    w.u8(2);
    w.u8(1);
    w.u8(1);
    w.u8(0);
    w.zeros(8);  // EI_ABIVERSION + EI_PAD
    w.u16(2);  // e_type = ET_EXEC
    w.u16(0x3e);  // e_machine = EM_X86_64
    w.u32(1);  // e_version
    w.u64(entry);  // e_entry
    w.u64(ELF_EHDR_SIZE);  // e_phoff
    w.u64(0);  // e_shoff
    w.u32(0);  // e_flags
    w.u16(64);  // e_ehsize
    w.u16(56);  // e_phentsize
    w.u16(1);  // e_phnum
    w.u16(0);  // e_shentsize
    w.u16(0);  // e_shnum
    w.u16(0);  // e_shstrndx
    w.u32(1);  // p_type = PT_LOAD
    w.u32(5);  // p_flags = PF_R | PF_X
    w.u64(0);  // p_offset
    w.u64(ELF_LOAD_ADDR);  // p_vaddr
    w.u64(ELF_LOAD_ADDR);  // p_paddr
    w.u64(file_size);  // p_filesz
    w.u64(file_size);  // p_memsz
    w.u64(0x1000);  // p_align
    w.bytes(code);
    w.bytes
}

/// The ELF image's layout: the code follows the 120 header bytes, and the
/// header's `e_entry` field reads back as the load address plus the headers
/// plus the entry offset.
pub proof fn lemma_elf_layout(code: Seq<u8>, entry: nat)
    requires
        entry + 0x400078 <= u64::MAX,
    ensures
        elf_image(code, entry).len() == 120 + code.len(),
        elf_image(code, entry).subrange(0, 4) == seq![0x7fu8, 0x45u8, 0x4cu8, 0x46u8],
        le_value(elf_image(code, entry).subrange(24, 32)) == 0x400078 + entry,
        elf_image(code, entry).subrange(120, 120 + code.len() as int) == code,
{
    broadcast use lemma_le_bytes_len, lemma_zeros_len;

    let image = elf_image(code, entry);
    assert(image.subrange(0, 4) =~= seq![0x7fu8, 0x45u8, 0x4cu8, 0x46u8]);
    assert(image.subrange(24, 32) =~= le_bytes(0x400078 + entry, 8));
    lemma_pow256_8();
    lemma_le_round_trip(0x400078 + entry, 8);
    assert(image.subrange(120, 120 + code.len() as int) =~= code);
}

/// The ELF header declares a 64-bit little-endian (`ELFCLASS64`,
/// `ELFDATA2LSB`) executable (`e_type` = `ET_EXEC` = 2) for x86-64
/// (`e_machine` = 0x3e), with one 56-byte program header right after the
/// 64-byte ELF header, and no section headers.
pub proof fn lemma_elf_header_fields(code: Seq<u8>, entry: nat)
    requires
        entry + 0x400078 <= u64::MAX,
    ensures
        elf_image(code, entry)[4] == 2,
        elf_image(code, entry)[5] == 1,
        le_value(elf_image(code, entry).subrange(16, 18)) == 2,
        le_value(elf_image(code, entry).subrange(18, 20)) == 0x3e,
        le_value(elf_image(code, entry).subrange(32, 40)) == 64,
        le_value(elf_image(code, entry).subrange(40, 48)) == 0,
        le_value(elf_image(code, entry).subrange(52, 54)) == 64,
        le_value(elf_image(code, entry).subrange(54, 56)) == 56,
        le_value(elf_image(code, entry).subrange(56, 58)) == 1,
        le_value(elf_image(code, entry).subrange(60, 62)) == 0,
{
    broadcast use lemma_le_bytes_len, lemma_zeros_len;

    let image = elf_image(code, entry);
    lemma_pow256_8();
    reveal_with_fuel(pow256, 3);
    assert(image.subrange(16, 18) =~= le_bytes(2, 2));
    assert(image.subrange(18, 20) =~= le_bytes(0x3e, 2));
    assert(image.subrange(32, 40) =~= le_bytes(64, 8));
    assert(image.subrange(40, 48) =~= le_bytes(0, 8));
    assert(image.subrange(52, 54) =~= le_bytes(64, 2));
    assert(image.subrange(54, 56) =~= le_bytes(56, 2));
    assert(image.subrange(56, 58) =~= le_bytes(1, 2));
    assert(image.subrange(60, 62) =~= le_bytes(0, 2));
    lemma_le_round_trip(2, 2);
    lemma_le_round_trip(0x3e, 2);
    lemma_le_round_trip(64, 8);
    lemma_le_round_trip(0, 8);
    lemma_le_round_trip(64, 2);
    lemma_le_round_trip(56, 2);
    lemma_le_round_trip(1, 2);
    lemma_le_round_trip(0, 2);
}

/// The ELF image's one program header describes a loadable segment
/// (`p_type` = `PT_LOAD` = 1) that is readable and executable (`p_flags` =
/// `PF_R | PF_X` = 5), mapped from the start of the file (`p_offset` = 0)
/// at the load address, and covering the whole file, code included.
pub proof fn lemma_elf_segment_is_executable(code: Seq<u8>, entry: nat)
    requires
        entry + 0x400078 <= u64::MAX,
        code.len() + 120 <= u64::MAX,
    ensures
        le_value(elf_image(code, entry).subrange(64, 68)) == 1,
        le_value(elf_image(code, entry).subrange(68, 72)) == 5,
        le_value(elf_image(code, entry).subrange(72, 80)) == 0,
        le_value(elf_image(code, entry).subrange(80, 88)) == 0x400000,
        le_value(elf_image(code, entry).subrange(96, 104)) == elf_image(code, entry).len(),
        le_value(elf_image(code, entry).subrange(104, 112)) == elf_image(code, entry).len(),
{
    broadcast use lemma_le_bytes_len, lemma_zeros_len;

    let image = elf_image(code, entry);
    let file_size = 120 + code.len();
    lemma_pow256_8();
    assert(image.subrange(64, 68) =~= le_bytes(1, 4));
    assert(image.subrange(68, 72) =~= le_bytes(5, 4));
    assert(image.subrange(72, 80) =~= le_bytes(0, 8));
    assert(image.subrange(80, 88) =~= le_bytes(0x400000, 8));
    assert(image.subrange(96, 104) =~= le_bytes(file_size, 8));
    assert(image.subrange(104, 112) =~= le_bytes(file_size, 8));
    lemma_le_round_trip(1, 4);
    lemma_le_round_trip(5, 4);
    lemma_le_round_trip(0, 8);
    lemma_le_round_trip(0x400000, 8);
    lemma_le_round_trip(file_size, 8);
    lemma_elf_layout(code, entry);
}

// =================
// PE32+ (Windows)
// =================
// A 64-byte `IMAGE_DOS_HEADER` (only `e_magic` and `e_lfanew` matter), the
// `PE\0\0` signature, a 20-byte `IMAGE_FILE_HEADER`, a 240-byte
// `IMAGE_OPTIONAL_HEADER64` (its 16 data directories zeroed) and one 40-byte
// section header for `.text`. The headers are padded to the file alignment
// (0x200) and the section to the section alignment (0x1000).

const PE_FILE_ALIGN: usize = 0x200;

const PE_SECTION_ALIGN: usize = 0x1000;

const PE_IMAGE_BASE: u64 = 0x1_4000_0000;

const PE_SECTION_RVA: u32 = 0x1000;

/// DOS header + signature + file header + optional header + one section header.
const PE_HEADERS_LEN: usize = 368;

pub open spec fn max1(n: nat) -> nat {
    if n == 0 {
        1
    } else {
        n
    }
}

/// The `.text` section's size on disk: the code rounded up to the file alignment.
pub open spec fn pe_raw_size(code_len: nat) -> nat {
    round_up_spec(max1(code_len), 0x200)
}

/// The image's size in memory: the header page plus the section rounded up
/// to the section alignment.
pub open spec fn pe_image_size(code_len: nat) -> nat {
    round_up_spec(0x1000 + round_up_spec(max1(code_len), 0x1000), 0x1000)
}

/// The 32-bit value a header field of that width holds (the low 32 bits).
pub open spec fn field32(v: nat) -> nat {
    v % 0x1_0000_0000
}

/// The DOS header, the `PE\0\0` signature and the COFF file header,
/// appended to `s`.
#[verifier::opaque]
pub open spec fn pe_file_header(s: Seq<u8>) -> Seq<u8> {
    (s + le_bytes(0x5a4d, 2) + zeros(0x3a) + le_bytes(64, 4)).push(0x50).push(0x45).push(0).push(0)
        + le_bytes(0x8664, 2) + le_bytes(1, 2) + le_bytes(0, 4) + le_bytes(0, 4) + le_bytes(0, 4)
        + le_bytes(240, 2) + le_bytes(0x22, 2)
}

/// The 64-bit optional header, appended to `s`.
#[verifier::opaque]
pub open spec fn pe_optional_header(s: Seq<u8>, raw: nat, entry: nat, image: nat) -> Seq<u8> {
    (s + le_bytes(0x20b, 2)).push(0).push(0) + le_bytes(raw, 4) + le_bytes(0, 4) + le_bytes(0, 4)
        + le_bytes(0x1000 + entry, 4) + le_bytes(0x1000, 4) + le_bytes(0x1_4000_0000, 8)
        + le_bytes(0x1000, 4) + le_bytes(0x200, 4) + le_bytes(6, 2) + le_bytes(0, 2) + le_bytes(0, 2)
        + le_bytes(0, 2) + le_bytes(6, 2) + le_bytes(0, 2) + le_bytes(0, 4) + le_bytes(image, 4)
        + le_bytes(0x200, 4) + le_bytes(0, 4) + le_bytes(3, 2) + le_bytes(0, 2) + le_bytes(0x100000, 8)
        + le_bytes(0x1000, 8) + le_bytes(0x100000, 8) + le_bytes(0x1000, 8) + le_bytes(0, 4)
        + le_bytes(16, 4) + zeros(128)
}

/// The `.text` section header, appended to `s`.
#[verifier::opaque]
pub open spec fn pe_section_header(s: Seq<u8>, len: nat, raw: nat) -> Seq<u8> {
    s + fixed_field(seq![0x2eu8, 0x74u8, 0x65u8, 0x78u8, 0x74u8], 8) + le_bytes(len, 4)
        + le_bytes(0x1000, 4) + le_bytes(raw, 4) + le_bytes(0x200, 4) + le_bytes(0, 4) + le_bytes(0, 4)
        + le_bytes(0, 2) + le_bytes(0, 2) + le_bytes(0x60000020, 4)
}

/// The PE headers, padded to the file alignment, in front of `code_len`
/// bytes of code entered `entry` bytes in.
pub open spec fn pe_headers(code_len: nat, entry: nat) -> Seq<u8> {
    let raw = field32(pe_raw_size(code_len));
    pe_section_header(
        pe_optional_header(
            pe_file_header(Seq::empty()),
            raw,
            field32(entry),
            field32(pe_image_size(code_len)),
        ),
        field32(code_len),
        raw,
    ) + zeros(144)
}

pub open spec fn pe_image(code: Seq<u8>, entry: nat) -> Seq<u8> {
    pe_headers(code.len(), entry) + code + zeros(pad_len(code.len(), 0x200))
}

/// `code` as a console PE32+ executable entered `entry_offset` bytes into
/// its `.text` section. Header fields are 32 bits wide and hold the low 32
/// bits of the sizes they record.
pub fn wrap_pe(code: &[u8], entry_offset: usize) -> (image: Vec<u8>)
    requires
        0x1000 + field32(entry_offset as nat) <= u32::MAX,
        code@.len() + 0x3000 <= usize::MAX,
    ensures
        image@ == pe_image(code@, entry_offset as nat),
{
    let size_of_headers = round_up(PE_HEADERS_LEN, PE_FILE_ALIGN);
    let code_len_or_one = if code.len() == 0 {
        1
    } else {
        code.len()
    };
    let size_of_raw_data = round_up(code_len_or_one, PE_FILE_ALIGN);
    let size_of_image = round_up(
        PE_SECTION_RVA as usize + round_up(code_len_or_one, PE_SECTION_ALIGN),
        PE_SECTION_ALIGN,
    );
    let raw32 = truncate32(size_of_raw_data);
    let mut w = Writer::new();
    write_pe_file_header(&mut w);
    write_pe_optional_header(
        &mut w,
        raw32,
        truncate32(entry_offset),
        truncate32(size_of_image),
        truncate32(size_of_headers),
    );
    write_pe_section_header(&mut w, truncate32(code.len()), raw32, size_of_headers as u32);
    proof {
        lemma_pe_header_lengths(Seq::empty(), raw32 as nat, field32(entry_offset as nat), field32(size_of_image as nat), field32(code.len() as nat));
    }
    w.pad_to(PE_FILE_ALIGN);
    w.bytes(code);
    w.pad_to(PE_FILE_ALIGN);
    proof {
        assert(pad_len(512 + code@.len(), 0x200) == pad_len(code@.len(), 0x200));
    }
    w.bytes
}

proof fn lemma_pe_header_lengths(s: Seq<u8>, raw: nat, entry: nat, image: nat, len: nat)
    ensures
        pe_file_header(s).len() == s.len() + 88,
        pe_optional_header(s, raw, entry, image).len() == s.len() + 240,
        pe_section_header(s, len, raw).len() == s.len() + 40,
        pe_section_header(pe_optional_header(pe_file_header(s), raw, entry, image), len, raw).len()
            == s.len() + 368,
        pad_len(368, 0x200) == 144,
{
    broadcast use lemma_le_bytes_len, lemma_zeros_len;

    reveal(pe_file_header);
    reveal(pe_optional_header);
    reveal(pe_section_header);

    assert(fixed_field(seq![0x2eu8, 0x74u8, 0x65u8, 0x78u8, 0x74u8], 8).len() == 8);
}

fn write_pe_file_header(w: &mut Writer)
    ensures
        final(w).bytes@ == pe_file_header(old(w).bytes@),
{
    reveal(pe_file_header);
    // IMAGE_DOS_HEADER
    w.u16(0x5a4d);  // e_magic = "MZ"
    w.zeros(0x3c - 0x02);  // e_cblp..e_res2, unused by the PE loader
    w.u32(64);  // e_lfanew: the real header follows this 64-byte DOS header
    // "PE\0\0" + IMAGE_FILE_HEADER
    w.u8(0x50);
    w.u8(0x45);
    w.u8(0);
    w.u8(0);
    w.u16(0x8664);  // Machine = IMAGE_FILE_MACHINE_AMD64
    w.u16(1);  // NumberOfSections
    w.u32(0);  // TimeDateStamp
    w.u32(0);  // PointerToSymbolTable
    w.u32(0);  // NumberOfSymbols
    w.u16(240);  // SizeOfOptionalHeader
    w.u16(0x0022);  // Characteristics: EXECUTABLE_IMAGE (0x2) | LARGE_ADDRESS_AWARE (0x20)
}

fn write_pe_optional_header(w: &mut Writer, raw: u32, entry: u32, image: u32, headers: u32)
    requires
        0x1000 + entry <= u32::MAX,
        headers == 0x200,
    ensures
        final(w).bytes@ == pe_optional_header(old(w).bytes@, raw as nat, entry as nat, image as nat),
{
    reveal(pe_optional_header);
    broadcast use lemma_le_bytes_len, lemma_zeros_len;

    w.u16(0x20b);  // Magic = PE32+
    w.u8(0);  // MajorLinkerVersion
    w.u8(0);  // MinorLinkerVersion
    w.u32(raw);  // SizeOfCode
    w.u32(0);  // SizeOfInitializedData
    w.u32(0);  // SizeOfUninitializedData
    w.u32(PE_SECTION_RVA + entry);  // AddressOfEntryPoint: `entry` bytes into .text
    w.u32(PE_SECTION_RVA);  // BaseOfCode
    w.u64(PE_IMAGE_BASE);  // ImageBase
    w.u32(0x1000);  // SectionAlignment
    w.u32(0x200);  // FileAlignment
    w.u16(6);  // MajorOperatingSystemVersion
    w.u16(0);  // MinorOperatingSystemVersion
    w.u16(0);  // MajorImageVersion
    w.u16(0);  // MinorImageVersion
    w.u16(6);  // MajorSubsystemVersion
    w.u16(0);  // MinorSubsystemVersion
    w.u32(0);  // Win32VersionValue
    w.u32(image);  // SizeOfImage
    w.u32(headers);  // SizeOfHeaders
    w.u32(0);  // CheckSum
    w.u16(3);  // Subsystem = IMAGE_SUBSYSTEM_WINDOWS_CUI
    w.u16(0);  // DllCharacteristics
    w.u64(0x100000);  // SizeOfStackReserve
    w.u64(0x1000);  // SizeOfStackCommit
    w.u64(0x100000);  // SizeOfHeapReserve
    w.u64(0x1000);  // SizeOfHeapCommit
    w.u32(0);  // LoaderFlags
    w.u32(16);  // NumberOfRvaAndSizes
    let ghost before_dirs = w.bytes@;
    let mut i: usize = 0;
    while i < 16
        invariant
            i <= 16,
            w.bytes@ == before_dirs + zeros(8 * i as nat),
        decreases 16 - i,
    {
        // one zeroed (RVA, Size) data directory entry
        w.u64(0);
        proof {
            lemma_le_zero(8);
        }
        assert(before_dirs + zeros(8 * i as nat) + zeros(8) =~= before_dirs + zeros(8 * (i + 1) as nat));
        i += 1;
    }
}

fn write_pe_section_header(w: &mut Writer, len: u32, raw: u32, pointer: u32)
    requires
        pointer == 0x200,
    ensures
        final(w).bytes@ == pe_section_header(old(w).bytes@, len as nat, raw as nat),
{
    reveal(pe_section_header);
    let name: [u8; 5] = [0x2e, 0x74, 0x65, 0x78, 0x74];
    assert(name@ =~= seq![0x2eu8, 0x74u8, 0x65u8, 0x78u8, 0x74u8]);
    w.fixed(&name, 8);  // Name
    w.u32(len);  // VirtualSize
    w.u32(PE_SECTION_RVA);  // VirtualAddress
    w.u32(raw);  // SizeOfRawData
    w.u32(pointer);  // PointerToRawData
    w.u32(0);  // PointerToRelocations
    w.u32(0);  // PointerToLinenumbers
    w.u16(0);  // NumberOfRelocations
    w.u16(0);  // NumberOfLinenumbers
    w.u32(0x60000020);  // Characteristics: CNT_CODE | MEM_EXECUTE | MEM_READ
}

/// The low 32 bits of `n`, as a 32-bit header field holds them.
fn truncate32(n: usize) -> (v: u32)
    ensures
        v == field32(n as nat),
{
    ((n as u64) % 0x1_0000_0000u64) as u32
}

pub proof fn lemma_le_zero(n: nat)
    ensures
        le_bytes(0, n) == zeros(n),
    decreases n,
{
    if n > 0 {
        lemma_le_zero((n - 1) as nat);
        assert(le_bytes(0, n) =~= zeros(n));
    }
}

// =================
// Mach-O 64 (macOS)
// =================
// One `mach_header_64` and three load commands: an `LC_SEGMENT_64` for
// `__TEXT` mapping the whole file read+execute at a fixed address,
// `LC_LOAD_DYLINKER` naming `/usr/lib/dyld` (a modern kernel refuses an
// `MH_EXECUTE` without one), and `LC_MAIN` giving the entry point as a file
// offset into that segment.

const MACHO_VM_ADDR: u64 = 0x1_0000_0000;

/// `/usr/lib/dyld`, NUL-terminated.
pub open spec fn dyld_path() -> Seq<u8> {
    seq![0x2fu8, 0x75u8, 0x73u8, 0x72u8, 0x2fu8, 0x6cu8, 0x69u8, 0x62u8, 0x2fu8, 0x64u8, 0x79u8, 0x6cu8, 0x64u8, 0u8]
}

/// The `mach_header_64`, appended to `s`.
#[verifier::opaque]
pub open spec fn macho_header(s: Seq<u8>) -> Seq<u8> {
    s + le_bytes(0xfeedfacf, 4) + le_bytes(0x0100_0007, 4) + le_bytes(3, 4) + le_bytes(2, 4)
        + le_bytes(3, 4) + le_bytes(128, 4) + le_bytes(1, 4) + le_bytes(0, 4)
}

/// The `LC_SEGMENT_64` command for `__TEXT` over a file of `file_size`
/// bytes, appended to `s`.
#[verifier::opaque]
pub open spec fn macho_segment(s: Seq<u8>, file_size: nat) -> Seq<u8> {
    s + le_bytes(0x19, 4) + le_bytes(72, 4) + fixed_field(seq![0x5fu8, 0x5fu8, 0x54u8, 0x45u8, 0x58u8, 0x54u8], 16)
        + le_bytes(0x1_0000_0000, 8) + le_bytes(round_up_spec(file_size, 0x1000), 8) + le_bytes(0, 8)
        + le_bytes(file_size, 8) + le_bytes(7, 4) + le_bytes(5, 4) + le_bytes(0, 4) + le_bytes(0, 4)
}

/// The `LC_LOAD_DYLINKER` command, padded to 8 bytes, appended to `s`.
#[verifier::opaque]
pub open spec fn macho_dylinker(s: Seq<u8>) -> Seq<u8> {
    let t = s + le_bytes(0xe, 4) + le_bytes(32, 4) + le_bytes(12, 4) + dyld_path();
    t + zeros(pad_len(t.len(), 8))
}

/// The `LC_MAIN` command with the entry's file offset, appended to `s`.
#[verifier::opaque]
pub open spec fn macho_main(s: Seq<u8>, entryoff: nat) -> Seq<u8> {
    s + le_bytes(0x80000028, 4) + le_bytes(24, 4) + le_bytes(entryoff, 8) + le_bytes(0, 8)
}

/// The 160 header bytes in front of `code_len` bytes of code entered
/// `entry` bytes in.
pub open spec fn macho_headers(code_len: nat, entry: nat) -> Seq<u8> {
    macho_main(macho_dylinker(macho_segment(macho_header(Seq::empty()), 160 + code_len)), 160 + entry)
}

pub open spec fn macho_image(code: Seq<u8>, entry: nat) -> Seq<u8> {
    macho_headers(code.len(), entry) + code
}

/// `code` as a Mach-O 64 executable entered `entry_offset` bytes in.
pub fn wrap_macho(code: &[u8], entry_offset: usize) -> (image: Vec<u8>)
    requires
        code@.len() + 160 + 0x1000 <= usize::MAX,
        entry_offset + 160 <= usize::MAX,
    ensures
        image@ == macho_image(code@, entry_offset as nat),
{
    let dylinker_path: [u8; 14] = [
        0x2f, 0x75, 0x73, 0x72, 0x2f, 0x6c, 0x69, 0x62, 0x2f, 0x64, 0x79, 0x6c, 0x64, 0,
    ];
    assert(dylinker_path@ =~= dyld_path());
    // load_command header + lc_str offset field + path, 8-byte aligned
    let dylinker_cmdsize = round_up(8 + 4 + dylinker_path.len(), 8);
    let segment_cmdsize: usize = 72;  // segment_command_64 with no sections
    let main_cmdsize: usize = 24;  // entry_point_command
    let ncmds: u32 = 3;
    let sizeofcmds = (segment_cmdsize + dylinker_cmdsize + main_cmdsize) as u32;
    let header_len = 32 + sizeofcmds as usize;
    let file_size = header_len + code.len();
    let entryoff = (header_len + entry_offset) as u64;

    let mut w = Writer::new();
    write_macho_header(&mut w, ncmds, sizeofcmds);
    write_macho_segment(&mut w, file_size);
    write_macho_dylinker(&mut w, &dylinker_path, dylinker_cmdsize as u32);
    write_macho_main(&mut w, main_cmdsize as u32, entryoff);
    w.bytes(code);
    w.bytes
}

fn write_macho_header(w: &mut Writer, ncmds: u32, sizeofcmds: u32)
    requires
        ncmds == 3,
        sizeofcmds == 128,
    ensures
        final(w).bytes@ == macho_header(old(w).bytes@),
{
    reveal(macho_header);
    w.u32(0xfeedfacf);  // magic = MH_MAGIC_64
    w.u32(0x0100_0007);  // cputype = CPU_TYPE_X86_64 (CPU_TYPE_I386 | CPU_ARCH_ABI64)
    w.u32(3);  // cpusubtype = CPU_SUBTYPE_X86_64_ALL
    w.u32(2);  // filetype = MH_EXECUTE
    w.u32(ncmds);
    w.u32(sizeofcmds);
    w.u32(0x1);  // flags = MH_NOUNDEFS
    w.u32(0);  // reserved
}

fn write_macho_segment(w: &mut Writer, file_size: usize)
    requires
        file_size + 0x1000 <= usize::MAX,
    ensures
        final(w).bytes@ == macho_segment(old(w).bytes@, file_size as nat),
{
    reveal(macho_segment);
    let segname: [u8; 6] = [0x5f, 0x5f, 0x54, 0x45, 0x58, 0x54];
    assert(segname@ =~= seq![0x5fu8, 0x5fu8, 0x54u8, 0x45u8, 0x58u8, 0x54u8]);
    w.u32(0x19);  // cmd = LC_SEGMENT_64
    w.u32(72);  // cmdsize
    w.fixed(&segname, 16);  // segname = "__TEXT"
    w.u64(MACHO_VM_ADDR);  // vmaddr
    w.u64(round_up(file_size, 0x1000) as u64);  // vmsize
    w.u64(0);  // fileoff
    w.u64(file_size as u64);  // filesize
    w.u32(7);  // maxprot = VM_PROT_READ | WRITE | EXECUTE
    w.u32(5);  // initprot = VM_PROT_READ | EXECUTE
    w.u32(0);  // nsects
    w.u32(0);  // flags
}

fn write_macho_dylinker(w: &mut Writer, path: &[u8], cmdsize: u32)
    requires
        path@ == dyld_path(),
        cmdsize == 32,
    ensures
        final(w).bytes@ == macho_dylinker(old(w).bytes@),
{
    reveal(macho_dylinker);
    w.u32(0xe);  // cmd = LC_LOAD_DYLINKER
    w.u32(cmdsize);
    w.u32(12);  // lc_str.offset: the name follows this 12-byte prefix
    w.bytes(path);
    w.pad_to(8);
}

fn write_macho_main(w: &mut Writer, cmdsize: u32, entryoff: u64)
    requires
        cmdsize == 24,
    ensures
        final(w).bytes@ == macho_main(old(w).bytes@, entryoff as nat),
{
    reveal(macho_main);
    w.u32(0x80000028);  // cmd = LC_MAIN | LC_REQ_DYLD
    w.u32(cmdsize);
    w.u64(entryoff);
    w.u64(0);  // stacksize = 0: the default
}

/// The PE image's layout: a whole number of 0x200-byte file blocks, the
/// `MZ` magic, `e_lfanew` pointing at the `PE\0\0` signature at 64, the
/// optional header's `AddressOfEntryPoint` reading back as the section's
/// address plus the entry offset, and the code at the first file block.
pub proof fn lemma_pe_layout(code: Seq<u8>, entry: nat)
    requires
        0x1000 + field32(entry) <= u32::MAX,
    ensures
        pe_image(code, entry).len() % 0x200 == 0,
        pe_image(code, entry).subrange(0, 2) == seq![0x4du8, 0x5au8],
        le_value(pe_image(code, entry).subrange(0x3c, 0x40)) == 64,
        pe_image(code, entry).subrange(64, 68) == seq![0x50u8, 0x45u8, 0u8, 0u8],
        le_value(pe_image(code, entry).subrange(104, 108)) == 0x1000 + field32(entry),
        pe_image(code, entry).subrange(0x200, 0x200 + code.len() as int) == code,
{
    broadcast use lemma_le_bytes_len, lemma_zeros_len;

    let raw = field32(pe_raw_size(code.len()));
    let image_size = field32(pe_image_size(code.len()));
    lemma_pe_header_lengths(Seq::empty(), raw, field32(entry), image_size, field32(code.len()));
    let f = pe_file_header(Seq::empty());
    let o = pe_optional_header(f, raw, field32(entry), image_size);
    let image = pe_image(code, entry);
    lemma_pow256_8();
    assert(f.subrange(0, 2) =~= le_bytes(0x5a4d, 2) && f.subrange(0x3c, 0x40) =~= le_bytes(64, 4)
        && f.subrange(64, 68) =~= seq![0x50u8, 0x45u8, 0u8, 0u8]) by {
        reveal(pe_file_header);
    }
    assert(o.subrange(0, 88) =~= f && o.subrange(104, 108) =~= le_bytes(0x1000 + field32(entry), 4)) by {
        reveal(pe_optional_header);
    }
    let sec = pe_section_header(o, field32(code.len()), raw);
    assert(sec.subrange(0, 328) =~= o) by {
        reveal(pe_section_header);
    }
    let headers = pe_headers(code.len(), entry);
    assert(headers.subrange(0, 368) =~= sec);
    assert(image.subrange(0, 512) =~= headers);
    lemma_within_prefix(image, headers, 0, 108);
    lemma_within_prefix(headers, sec, 0, 108);
    lemma_within_prefix(sec, o, 0, 108);
    lemma_within_prefix(o, f, 0, 2);
    lemma_within_prefix(o, f, 0x3c, 0x40);
    lemma_within_prefix(o, f, 64, 68);
    assert(image.subrange(0, 108).subrange(0, 2) =~= image.subrange(0, 2));
    assert(image.subrange(0, 108).subrange(0x3c, 0x40) =~= image.subrange(0x3c, 0x40));
    assert(image.subrange(0, 108).subrange(64, 68) =~= image.subrange(64, 68));
    assert(image.subrange(0, 108).subrange(104, 108) =~= image.subrange(104, 108));
    assert(o.subrange(0, 108).subrange(0, 2) =~= o.subrange(0, 2));
    assert(o.subrange(0, 108).subrange(0x3c, 0x40) =~= o.subrange(0x3c, 0x40));
    assert(o.subrange(0, 108).subrange(64, 68) =~= o.subrange(64, 68));
    assert(o.subrange(0, 108).subrange(104, 108) =~= o.subrange(104, 108));
    assert(le_bytes(0x5a4d, 2) =~= seq![0x4du8, 0x5au8]) by {
        reveal_with_fuel(le_bytes, 3);
    }
    lemma_le_round_trip(64, 4);
    lemma_le_round_trip(0x1000 + field32(entry), 4);
    assert(image.subrange(0x200, 0x200 + code.len() as int) =~= code);
    assert((512 + code.len() + pad_len(code.len(), 0x200)) % 0x200 == 0);
}

/// The PE headers declare an x86-64 image (`Machine` = 0x8664) with one
/// section, a PE32+ optional header (magic 0x20b) for the console
/// subsystem (3) based at 0x1_4000_0000, and a `.text` section mapped at
/// 0x1000 from file offset 0x200 that holds code and is executable and
/// readable (characteristics 0x60000020).
pub proof fn lemma_pe_fields(code: Seq<u8>, entry: nat)
    requires
        0x1000 + field32(entry) <= u32::MAX,
    ensures
        le_value(pe_image(code, entry).subrange(68, 70)) == 0x8664,
        le_value(pe_image(code, entry).subrange(70, 72)) == 1,
        le_value(pe_image(code, entry).subrange(88, 90)) == 0x20b,
        le_value(pe_image(code, entry).subrange(112, 120)) == 0x1_4000_0000,
        le_value(pe_image(code, entry).subrange(156, 158)) == 3,
        le_value(pe_image(code, entry).subrange(340, 344)) == 0x1000,
        le_value(pe_image(code, entry).subrange(348, 352)) == 0x200,
        le_value(pe_image(code, entry).subrange(364, 368)) == 0x60000020,
{
    broadcast use lemma_le_bytes_len, lemma_zeros_len;

    let raw = field32(pe_raw_size(code.len()));
    let image_size = field32(pe_image_size(code.len()));
    let len = field32(code.len());
    lemma_pe_header_lengths(Seq::empty(), raw, field32(entry), image_size, len);
    let f = pe_file_header(Seq::empty());
    let o = pe_optional_header(f, raw, field32(entry), image_size);
    let sec = pe_section_header(o, len, raw);
    let headers = pe_headers(code.len(), entry);
    let image = pe_image(code, entry);
    lemma_pow256_8();
    reveal_with_fuel(pow256, 3);
    assert(f.subrange(68, 70) =~= le_bytes(0x8664, 2) && f.subrange(70, 72) =~= le_bytes(1, 2)) by {
        reveal(pe_file_header);
    }
    assert(o.subrange(0, 88) =~= f && o.subrange(88, 90) =~= le_bytes(0x20b, 2) && o.subrange(112, 120)
        =~= le_bytes(0x1_4000_0000, 8) && o.subrange(156, 158) =~= le_bytes(3, 2)) by {
        reveal(pe_optional_header);
    }
    assert(sec.subrange(0, 328) =~= o && sec.subrange(340, 344) =~= le_bytes(0x1000, 4) && sec.subrange(348, 352)
        =~= le_bytes(0x200, 4) && sec.subrange(364, 368) =~= le_bytes(0x60000020, 4)) by {
        reveal(pe_section_header);
    }
    assert(headers.subrange(0, 368) =~= sec);
    assert(image.subrange(0, 512) =~= headers);
    lemma_within_prefix(image, headers, 0, 368);
    lemma_within_prefix(headers, sec, 0, 368);
    assert(image.subrange(0, 368) == sec);
    lemma_within_prefix(image, sec, 340, 344);
    lemma_within_prefix(image, sec, 348, 352);
    lemma_within_prefix(image, sec, 364, 368);
    lemma_within_prefix(image, sec, 0, 328);
    lemma_within_prefix(sec, o, 0, 328);
    assert(image.subrange(0, 328) == o);
    lemma_within_prefix(image, o, 88, 90);
    lemma_within_prefix(image, o, 112, 120);
    lemma_within_prefix(image, o, 156, 158);
    lemma_within_prefix(o, f, 0, 88);
    lemma_within_prefix(image, o, 0, 88);
    assert(image.subrange(0, 88) == f);
    lemma_within_prefix(image, f, 68, 70);
    lemma_within_prefix(image, f, 70, 72);
    lemma_le_round_trip(0x8664, 2);
    lemma_le_round_trip(1, 2);
    lemma_le_round_trip(0x20b, 2);
    lemma_le_round_trip(0x1_4000_0000, 8);
    lemma_le_round_trip(3, 2);
    lemma_le_round_trip(0x1000, 4);
    lemma_le_round_trip(0x200, 4);
    lemma_le_round_trip(0x60000020, 4);
}

proof fn lemma_macho_header_lengths(code_len: nat, entry: nat)
    ensures
        macho_header(Seq::empty()).len() == 32,
        macho_segment(macho_header(Seq::empty()), 160 + code_len).len() == 104,
        macho_dylinker(macho_segment(macho_header(Seq::empty()), 160 + code_len)).len() == 136,
        macho_headers(code_len, entry).len() == 160,
{
    broadcast use lemma_le_bytes_len, lemma_zeros_len;

    reveal(macho_header);
    reveal(macho_segment);
    reveal(macho_dylinker);
    reveal(macho_main);
    assert(fixed_field(seq![0x5fu8, 0x5fu8, 0x54u8, 0x45u8, 0x58u8, 0x54u8], 16).len() == 16);
}

/// Where `small` starts `big`, a range inside `small` reads the same in both.
proof fn lemma_within_prefix(big: Seq<u8>, small: Seq<u8>, lo: int, hi: int)
    requires
        small.len() <= big.len(),
        big.subrange(0, small.len() as int) == small,
        0 <= lo <= hi <= small.len(),
    ensures
        big.subrange(lo, hi) == small.subrange(lo, hi),
{
    assert(big.subrange(lo, hi) =~= small.subrange(lo, hi)) by {
        assert forall|i: int| 0 <= i < hi - lo implies big.subrange(lo, hi)[i] == small[lo + i] by {
            assert(big.subrange(0, small.len() as int)[lo + i] == big[lo + i]);
        }
    }
}

/// The Mach-O header declares an x86-64 (`CPU_TYPE_X86_64` = 0x01000007)
/// executable (`MH_EXECUTE` = 2) with three load commands, the first an
/// `LC_SEGMENT_64` (0x19) mapping the whole file from offset 0 at
/// 0x1_0000_0000, readable and executable on load (`initprot` = 5) and at
/// most readable, writable and executable (`maxprot` = 7).
pub proof fn lemma_macho_fields(code: Seq<u8>, entry: nat)
    requires
        160 + entry < pow256(8),
        160 + code.len() < pow256(8),
    ensures
        le_value(macho_image(code, entry).subrange(4, 8)) == 0x0100_0007,
        le_value(macho_image(code, entry).subrange(12, 16)) == 2,
        le_value(macho_image(code, entry).subrange(16, 20)) == 3,
        le_value(macho_image(code, entry).subrange(32, 36)) == 0x19,
        le_value(macho_image(code, entry).subrange(56, 64)) == 0x1_0000_0000,
        le_value(macho_image(code, entry).subrange(72, 80)) == 0,
        le_value(macho_image(code, entry).subrange(80, 88)) == macho_image(code, entry).len(),
        le_value(macho_image(code, entry).subrange(88, 92)) == 7,
        le_value(macho_image(code, entry).subrange(92, 96)) == 5,
{
    broadcast use lemma_le_bytes_len, lemma_zeros_len;

    lemma_macho_header_lengths(code.len(), entry);
    let h = macho_header(Seq::empty());
    let g = macho_segment(h, 160 + code.len());
    let d = macho_dylinker(g);
    let m = macho_main(d, 160 + entry);
    let image = macho_image(code, entry);
    lemma_pow256_8();
    assert(h.subrange(4, 8) =~= le_bytes(0x0100_0007, 4) && h.subrange(12, 16) =~= le_bytes(2, 4)
        && h.subrange(16, 20) =~= le_bytes(3, 4)) by {
        reveal(macho_header);
    }
    assert(g.subrange(0, 32) =~= h && g.subrange(32, 36) =~= le_bytes(0x19, 4) && g.subrange(56, 64)
        =~= le_bytes(0x1_0000_0000, 8) && g.subrange(72, 80) =~= le_bytes(0, 8) && g.subrange(80, 88)
        =~= le_bytes(160 + code.len(), 8) && g.subrange(88, 92) =~= le_bytes(7, 4) && g.subrange(92, 96)
        =~= le_bytes(5, 4)) by {
        reveal(macho_segment);
    }
    assert(d.subrange(0, 104) =~= g) by {
        reveal(macho_dylinker);
    }
    assert(m.subrange(0, 136) =~= d) by {
        reveal(macho_main);
    }
    assert(image.subrange(0, 160) =~= m);
    lemma_within_prefix(image, m, 0, 136);
    lemma_within_prefix(m, d, 0, 104);
    assert(image.subrange(0, 104) == g) by {
        lemma_within_prefix(image, m, 0, 104);
        lemma_within_prefix(d, g, 0, 104);
    }
    assert(image.subrange(0, 32) == h) by {
        lemma_within_prefix(image, g, 0, 32);
        lemma_within_prefix(g, h, 0, 32);
    }
    lemma_within_prefix(image, h, 4, 8);
    lemma_within_prefix(image, h, 12, 16);
    lemma_within_prefix(image, h, 16, 20);
    lemma_within_prefix(image, g, 32, 36);
    lemma_within_prefix(image, g, 56, 64);
    lemma_within_prefix(image, g, 72, 80);
    lemma_within_prefix(image, g, 80, 88);
    lemma_within_prefix(image, g, 88, 92);
    lemma_within_prefix(image, g, 92, 96);
    lemma_le_round_trip(0x0100_0007, 4);
    lemma_le_round_trip(2, 4);
    lemma_le_round_trip(3, 4);
    lemma_le_round_trip(0x19, 4);
    lemma_le_round_trip(0x1_0000_0000, 8);
    lemma_le_round_trip(0, 8);
    lemma_le_round_trip(160 + code.len(), 8);
    lemma_le_round_trip(7, 4);
    lemma_le_round_trip(5, 4);
}

/// The Mach-O image's layout: the `MH_MAGIC_64` magic first, 160 header
/// bytes, `LC_MAIN`'s `entryoff` reading back as the headers plus the entry
/// offset, and the code right after the headers.
pub proof fn lemma_macho_layout(code: Seq<u8>, entry: nat)
    requires
        160 + entry < pow256(8),
    ensures
        macho_image(code, entry).len() == 160 + code.len(),
        le_value(macho_image(code, entry).subrange(0, 4)) == 0xfeedfacf,
        le_value(macho_image(code, entry).subrange(144, 152)) == 160 + entry,
        macho_image(code, entry).subrange(160, 160 + code.len() as int) == code,
{
    broadcast use lemma_le_bytes_len, lemma_zeros_len;

    lemma_macho_header_lengths(code.len(), entry);
    let h = macho_header(Seq::empty());
    let g = macho_segment(h, 160 + code.len());
    let d = macho_dylinker(g);
    let m = macho_main(d, 160 + entry);
    let image = macho_image(code, entry);
    lemma_pow256_8();
    assert(h =~= le_bytes(0xfeedfacf, 4) + le_bytes(0x0100_0007, 4) + le_bytes(3, 4) + le_bytes(2, 4)
        + le_bytes(3, 4) + le_bytes(128, 4) + le_bytes(1, 4) + le_bytes(0, 4)) by {
        reveal(macho_header);
    }
    assert(h.subrange(0, 4) =~= le_bytes(0xfeedfacf, 4));
    assert(g.subrange(0, 32) =~= h) by {
        reveal(macho_segment);
    }
    assert(d.subrange(0, 104) =~= g) by {
        reveal(macho_dylinker);
    }
    assert(m.subrange(0, 136) =~= d && m.subrange(144, 152) =~= le_bytes(160 + entry, 8)) by {
        reveal(macho_main);
    }
    assert(image.subrange(0, 160) =~= m);
    lemma_within_prefix(image, m, 0, 4);
    lemma_within_prefix(m, d, 0, 4);
    lemma_within_prefix(d, g, 0, 4);
    lemma_within_prefix(g, h, 0, 4);
    lemma_within_prefix(image, m, 144, 152);
    lemma_le_round_trip(0xfeedfacf, 4);
    lemma_le_round_trip(160 + entry, 8);
    assert(image.subrange(160, 160 + code.len() as int) =~= code);
}

// =================
// any container
// =================

/// What `wrap` needs of its inputs for `format`: each container's size and
/// entry fields must be computable without overflow.
pub open spec fn wrappable(code_len: nat, format: Format, entry: nat) -> bool {
    match format {
        Format::Elf => entry + 0x400078 <= u64::MAX && code_len + 120 <= u64::MAX,
        Format::Pe => 0x1000 + field32(entry) <= u32::MAX && code_len + 0x3000 <= usize::MAX,
        Format::MachO => code_len + 160 + 0x1000 <= usize::MAX && entry + 160 <= usize::MAX,
    }
}

pub open spec fn container_image(code: Seq<u8>, format: Format, entry: nat) -> Seq<u8> {
    match format {
        Format::Elf => elf_image(code, entry),
        Format::Pe => pe_image(code, entry),
        Format::MachO => macho_image(code, entry),
    }
}

/// `code` wrapped in `format`'s container, entered `entry` bytes in.
pub fn wrap(code: &[u8], format: Format, entry: usize) -> (image: Vec<u8>)
    requires
        wrappable(code@.len(), format, entry as nat),
    ensures
        image@ == container_image(code@, format, entry as nat),
{
    match format {
        Format::Elf => wrap_elf(code, entry),
        Format::Pe => wrap_pe(code, entry),
        Format::MachO => wrap_macho(code, entry),
    }
}

/// Why an entry offset cannot be used with `code_len` bytes of code: it must
/// fall inside the code (offset 0 is always allowed).
pub fn check_entry(code_len: usize, entry: usize) -> (error: Option<String>)
    ensures
        match error {
            None => entry < max1(code_len as nat),
            Some(message) => entry >= max1(code_len as nat) && message@ == "entry offset "@ + decimal(
                entry as nat,
            ) + " is past the end of the "@ + decimal(code_len as nat) + "-byte code"@,
        },
{
    let limit = if code_len == 0 {
        1
    } else {
        code_len
    };
    if entry >= limit {
        let mut message = String::from_str("entry offset ");
        let number = decimal_string(entry as u64);
        message.append(number.as_str());
        message.append(" is past the end of the ");
        let size = decimal_string(code_len as u64);
        message.append(size.as_str());
        message.append("-byte code");
        Some(message)
    } else {
        None
    }
}

} // verus!
