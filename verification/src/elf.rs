//! The ELF object model: header, program headers (segments), sections and
//! symbols, together with their mathematical views.

use vstd::prelude::*;

use crate::omap::{
    find_key, has_key, insert_all, lemma_find_key, section_entries, sect_map_new, sym_map_at,
    sym_map_insert, sym_map_len, sym_map_new, symbol_entries, unique_keys,
};

verus! {

/// ELF symbol-info byte that marks a global function symbol (binding GLOBAL,
/// type FUNC in the ELF symbol-info encoding): the class of symbol eligible
/// for extraction and linking.
pub const FUNCTION_SYMBOL_INFO: u8 = 0x12;

/// Chosen base virtual address for the loadable segment that carries
/// injected code.
pub const INJECTED_BASE_VADDR: u64 = 0x400000;

/// Target machine of an ELF image. Only AMD64 instruction encodings are
/// supported; every other machine code maps to `Unknown`.
#[derive(Debug, Clone, Copy, PartialEq, Eq, Structural)]
pub enum MachineType {
    Unknown,
    Amd64,
}

/// ELF word-size class: 32-bit or 64-bit, affecting field widths throughout
/// the format.
#[derive(Debug, Clone, Copy, PartialEq, Eq, Structural)]
pub enum Class {
    Class32,
    Class64,
}

/// Byte order of the multi-byte fields of an ELF image.
#[derive(Debug, Clone, Copy, PartialEq, Eq, Structural)]
pub enum Endian {
    Little,
    Big,
}

/// Type of a program header (segment). Unrecognized raw values are preserved
/// verbatim in `Unknown` and round-tripped as opaque.
#[derive(Debug, Clone, Copy, PartialEq, Eq, Structural)]
pub enum SegmentType {
    Load,
    Dynamic,
    Interp,
    Note,
    Shlib,
    Phdr,
    Tls,
    Num,
    Unknown(u32),
}

pub open spec fn spec_machine_code(m: MachineType) -> u16 {
    match m {
        MachineType::Unknown => 0,
        MachineType::Amd64 => 0x3E,
    }
}

pub fn machine_code(m: MachineType) -> (r: u16)
    ensures
        r == spec_machine_code(m),
{
    match m {
        MachineType::Unknown => 0,
        MachineType::Amd64 => 0x3E,
    }
}

pub open spec fn spec_machine_of(code: u16) -> MachineType {
    if code == 0x3E {
        MachineType::Amd64
    } else {
        MachineType::Unknown
    }
}

pub fn machine_of(code: u16) -> (r: MachineType)
    ensures
        r == spec_machine_of(code),
{
    if code == 0x3E {
        MachineType::Amd64
    } else {
        MachineType::Unknown
    }
}

pub open spec fn spec_class_code(c: Class) -> u8 {
    match c {
        Class::Class32 => 1,
        Class::Class64 => 2,
    }
}

pub fn class_code(c: Class) -> (r: u8)
    ensures
        r == spec_class_code(c),
{
    match c {
        Class::Class32 => 1,
        Class::Class64 => 2,
    }
}

/// Width in bytes of a "class word": 4 bytes under the 32-bit class, 8 bytes
/// under the 64-bit class.
pub open spec fn spec_class_size(c: Class) -> nat {
    match c {
        Class::Class32 => 4,
        Class::Class64 => 8,
    }
}

pub fn class_size(c: Class) -> (r: usize)
    ensures
        r == spec_class_size(c),
{
    match c {
        Class::Class32 => 4,
        Class::Class64 => 8,
    }
}

pub open spec fn spec_endian_code(e: Endian) -> u8 {
    match e {
        Endian::Little => 1,
        Endian::Big => 2,
    }
}

pub fn endian_code(e: Endian) -> (r: u8)
    ensures
        r == spec_endian_code(e),
{
    match e {
        Endian::Little => 1,
        Endian::Big => 2,
    }
}

pub open spec fn spec_segment_code(t: SegmentType) -> u32 {
    match t {
        SegmentType::Load => 1,
        SegmentType::Dynamic => 2,
        SegmentType::Interp => 3,
        SegmentType::Note => 4,
        SegmentType::Shlib => 5,
        SegmentType::Phdr => 6,
        SegmentType::Tls => 7,
        SegmentType::Num => 8,
        SegmentType::Unknown(x) => x,
    }
}

pub fn segment_code(t: SegmentType) -> (r: u32)
    ensures
        r == spec_segment_code(t),
{
    match t {
        SegmentType::Load => 1,
        SegmentType::Dynamic => 2,
        SegmentType::Interp => 3,
        SegmentType::Note => 4,
        SegmentType::Shlib => 5,
        SegmentType::Phdr => 6,
        SegmentType::Tls => 7,
        SegmentType::Num => 8,
        SegmentType::Unknown(x) => x,
    }
}

pub open spec fn spec_segment_of(code: u32) -> SegmentType {
    if code == 1 {
        SegmentType::Load
    } else if code == 2 {
        SegmentType::Dynamic
    } else if code == 3 {
        SegmentType::Interp
    } else if code == 4 {
        SegmentType::Note
    } else if code == 5 {
        SegmentType::Shlib
    } else if code == 6 {
        SegmentType::Phdr
    } else if code == 7 {
        SegmentType::Tls
    } else if code == 8 {
        SegmentType::Num
    } else {
        SegmentType::Unknown(code)
    }
}

pub fn segment_of(code: u32) -> (r: SegmentType)
    ensures
        r == spec_segment_of(code),
{
    if code == 1 {
        SegmentType::Load
    } else if code == 2 {
        SegmentType::Dynamic
    } else if code == 3 {
        SegmentType::Interp
    } else if code == 4 {
        SegmentType::Note
    } else if code == 5 {
        SegmentType::Shlib
    } else if code == 6 {
        SegmentType::Phdr
    } else if code == 7 {
        SegmentType::Tls
    } else if code == 8 {
        SegmentType::Num
    } else {
        SegmentType::Unknown(code)
    }
}

/// Every raw segment-type code survives a decode/encode round trip.
pub proof fn lemma_segment_code_round_trip(code: u32)
    ensures
        spec_segment_code(spec_segment_of(code)) == code,
{
}

/// Errors of the library: fatal format errors, truncation, sizes beyond what
/// the format's fields or this machine can hold, and linking conflicts.
#[derive(Debug, Clone, Copy, PartialEq, Eq, Structural)]
pub enum ElfError {
    /// The first four bytes are not the ELF magic.
    BadMagic,
    /// The class byte is neither 32-bit nor 64-bit.
    UnsupportedClass,
    /// The data-encoding byte is neither little- nor big-endian.
    UnsupportedEndianness,
    /// The ident or file version is not the supported version 1.
    UnsupportedVersion,
    /// A read ran past the end of the input bytes.
    Truncated,
    /// A mandatory section (`.symtab`, `.strtab`, `.dynsym`, `.dynstr`,
    /// `.shstrtab`) is missing.
    MissingSection,
    /// A symbol table section declares a zero entry size.
    BadSymbolEntrySize,
    /// Linking would overwrite an existing section of the same name.
    SectionCollision,
    /// A computed offset, count or size exceeds what its field or this
    /// machine can represent.
    TooLarge,
}

/// A named reference to an address or offset, plus size, type and binding.
///
/// `sym_value` has two meanings over a symbol's life: at parse time it is the
/// file offset where an extracted function body lies; after linking it is a
/// virtual address.
#[derive(Debug, Clone, PartialEq)]
pub struct Symbol {
    pub sym_name: u32,
    pub sym_info: u8,
    pub sym_other: u8,
    pub sym_shndx: u16,
    pub sym_value: u64,
    pub sym_size: u64,
    /// Raw instruction bytes copied out of the source file at parse time;
    /// empty unless the symbol is a global function symbol.
    pub sym_data: Vec<u8>,
}

/// Mathematical view of a [`Symbol`].
#[verifier::ext_equal]
pub ghost struct SymView {
    pub name: u32,
    pub info: u8,
    pub other: u8,
    pub shndx: u16,
    pub value: u64,
    pub size: u64,
    pub data: Seq<u8>,
}

impl View for Symbol {
    type V = SymView;

    open spec fn view(&self) -> SymView {
        SymView {
            name: self.sym_name,
            info: self.sym_info,
            other: self.sym_other,
            shndx: self.sym_shndx,
            value: self.sym_value,
            size: self.sym_size,
            data: self.sym_data@,
        }
    }
}

/// Link-time metadata of a named byte range of the file.
#[derive(Debug, Clone, Copy, PartialEq, Eq, Structural)]
pub struct SectionHeader {
    pub sh_name: u32,
    pub sh_type: u32,
    pub sh_flags: u64,
    pub sh_addr: u64,
    pub sh_offset: u64,
    pub sh_size: u64,
    pub sh_link: u32,
    pub sh_info: u32,
    pub sh_addralign: u64,
    pub sh_entsize: u64,
}

/// A section header together with the section's body bytes.
#[derive(Debug, Clone, PartialEq)]
pub struct Section {
    pub header: SectionHeader,
    pub body: Vec<u8>,
}

/// Mathematical view of a [`Section`].
#[verifier::ext_equal]
pub ghost struct SectView {
    pub header: SectionHeader,
    pub body: Seq<u8>,
}

impl View for Section {
    type V = SectView;

    open spec fn view(&self) -> SectView {
        SectView { header: self.header, body: self.body@ }
    }
}

impl Section {
    /// A fresh section holding `data`, with zeroed metadata, a size equal to
    /// the data's length and an entry size of one.
    pub fn new(data: Vec<u8>) -> (r: Self)
        ensures
            r@.body == data@,
            r@.header == (SectionHeader {
                sh_name: 0,
                sh_type: 0,
                sh_flags: 0,
                sh_addr: 0,
                sh_offset: 0,
                sh_size: data@.len() as u64,
                sh_link: 0,
                sh_info: 0,
                sh_addralign: 0,
                sh_entsize: 1,
            }),
    {
        let len = data.len();
        Self {
            header: SectionHeader {
                sh_name: 0,
                sh_type: 0,
                sh_flags: 0,
                sh_addr: 0,
                sh_offset: 0,
                sh_size: len as u64,
                sh_link: 0,
                sh_info: 0,
                sh_addralign: 0,
                sh_entsize: 1,
            },
            body: data,
        }
    }
}

/// A runtime-loadable region descriptor consumed by an OS loader.
#[derive(Debug, Clone, Copy, PartialEq, Eq, Structural)]
pub struct ProgramHeader {
    pub p_type: SegmentType,
    pub p_flags: u32,
    pub p_offset: u64,
    pub p_vaddr: u64,
    pub p_paddr: u64,
    pub p_filesz: u64,
    pub p_memsz: u64,
    pub p_align: u64,
}

/// A program header together with the names of the sections it covers.
#[derive(Debug, Clone, PartialEq)]
pub struct Program {
    pub header: ProgramHeader,
    pub sections: Vec<String>,
}

/// The fixed-size ELF file header.
#[derive(Debug, Clone, PartialEq)]
pub struct Header {
    pub ei_magic: [u8; 4],
    pub ei_class: Class,
    pub ei_data: Endian,
    pub ei_version: u8,
    pub ei_osabi: u8,
    pub ei_abiversion: u8,
    pub ei_pad: [u8; 7],
    pub e_type: u16,
    pub e_machine: MachineType,
    pub e_version: u32,
    pub e_entry: u64,
    pub e_phoff: u64,
    pub e_shoff: u64,
    pub e_flags: u32,
    pub e_ehsize: u16,
    pub e_phentsize: u16,
    pub e_phnum: u16,
    pub e_shentsize: u16,
    pub e_shnum: u16,
    pub e_shstrndx: u16,
}

/// Mathematical view of a [`Header`]: the two byte arrays become sequences.
#[verifier::ext_equal]
pub ghost struct HeaderView {
    pub magic: Seq<u8>,
    pub class: Class,
    pub data: Endian,
    pub ident_version: u8,
    pub osabi: u8,
    pub abiversion: u8,
    pub pad: Seq<u8>,
    pub e_type: u16,
    pub machine: MachineType,
    pub version: u32,
    pub entry: u64,
    pub phoff: u64,
    pub shoff: u64,
    pub flags: u32,
    pub ehsize: u16,
    pub phentsize: u16,
    pub phnum: u16,
    pub shentsize: u16,
    pub shnum: u16,
    pub shstrndx: u16,
}

impl View for Header {
    type V = HeaderView;

    open spec fn view(&self) -> HeaderView {
        HeaderView {
            magic: self.ei_magic@,
            class: self.ei_class,
            data: self.ei_data,
            ident_version: self.ei_version,
            osabi: self.ei_osabi,
            abiversion: self.ei_abiversion,
            pad: self.ei_pad@,
            e_type: self.e_type,
            machine: self.e_machine,
            version: self.e_version,
            entry: self.e_entry,
            phoff: self.e_phoff,
            shoff: self.e_shoff,
            flags: self.e_flags,
            ehsize: self.e_ehsize,
            phentsize: self.e_phentsize,
            phnum: self.e_phnum,
            shentsize: self.e_shentsize,
            shnum: self.e_shnum,
            shstrndx: self.e_shstrndx,
        }
    }
}

/// An in-memory ELF image: header, ordered program list, ordered section and
/// symbol tables, each keyed by name with insertion order defining on-disk
/// order. No entity is shared between two `Elf` values; linking copies.
#[derive(Debug)]
pub struct Elf {
    pub header: Header,
    pub programs: Vec<ProgramHeader>,
    pub sections: indexmap::IndexMap<String, Section>,
    pub symbols: indexmap::IndexMap<String, Symbol>,
    pub dynamic_symbols: indexmap::IndexMap<String, Symbol>,
}

/// Mathematical view of an [`Elf`]: the tables become entry sequences.
#[verifier::ext_equal]
pub ghost struct ElfView {
    pub header: HeaderView,
    pub programs: Seq<ProgramHeader>,
    pub sections: Seq<(Seq<char>, SectView)>,
    pub symbols: Seq<(Seq<char>, SymView)>,
    pub dynamic_symbols: Seq<(Seq<char>, SymView)>,
}

impl View for Elf {
    type V = ElfView;

    open spec fn view(&self) -> ElfView {
        ElfView {
            header: self.header@,
            programs: self.programs@,
            sections: section_entries(self.sections),
            symbols: symbol_entries(self.symbols),
            dynamic_symbols: symbol_entries(self.dynamic_symbols),
        }
    }
}

/// The header a fresh [`Elf`] starts from: 64-bit, little-endian,
/// executable type, with standard 64-bit header sizes.
pub open spec fn spec_default_header() -> HeaderView {
    HeaderView {
        magic: seq![0x7Fu8, 0x45u8, 0x4Cu8, 0x46u8],
        class: Class::Class64,
        data: Endian::Little,
        ident_version: 1,
        osabi: 0,
        abiversion: 0,
        pad: seq![0u8, 0u8, 0u8, 0u8, 0u8, 0u8, 0u8],
        e_type: 2,
        machine: MachineType::Unknown,
        version: 1,
        entry: 0,
        phoff: 0,
        shoff: 0,
        flags: 0,
        ehsize: 0x40,
        phentsize: 0x38,
        phnum: 1,
        shentsize: 0x40,
        shnum: 1,
        shstrndx: 0,
    }
}

/// The dynamic-symbol entries whose info byte marks a global function
/// symbol, in table order.
pub open spec fn fn_entries(s: Seq<(Seq<char>, SymView)>) -> Seq<(Seq<char>, SymView)>
    decreases s.len(),
{
    if s.len() == 0 {
        Seq::empty()
    } else if s.last().1.info == FUNCTION_SYMBOL_INFO {
        fn_entries(s.drop_last()).push(s.last())
    } else {
        fn_entries(s.drop_last())
    }
}

/// Every key of the function entries is a key of the full table, and keys
/// stay unique under filtering.
pub proof fn lemma_fn_entries_keys(s: Seq<(Seq<char>, SymView)>)
    ensures
        forall|k: Seq<char>| #[trigger] has_key(fn_entries(s), k) ==> has_key(s, k),
        unique_keys(s) ==> unique_keys(fn_entries(s)),
    decreases s.len(),
{
    if s.len() > 0 {
        let front = s.drop_last();
        lemma_fn_entries_keys(front);
        assert forall|k: Seq<char>| #[trigger] has_key(front, k) implies has_key(s, k) by {
            lemma_find_key(front, k);
            lemma_find_key(s, k);
            let i = find_key(front, k);
            assert(s[i].0 == k);
        }
        assert forall|k: Seq<char>| #[trigger] has_key(fn_entries(s), k) implies has_key(s, k) by {
            lemma_find_key(fn_entries(s), k);
            if s.last().1.info == FUNCTION_SYMBOL_INFO {
                let fe = fn_entries(front).push(s.last());
                let i = find_key(fe, k);
                assert(fe[i].0 == k);
                if i < fn_entries(front).len() {
                    assert(fn_entries(front)[i].0 == k);
                    lemma_find_key(fn_entries(front), k);
                    assert(has_key(fn_entries(front), k));
                } else {
                    assert(s.last().0 == k);
                    lemma_find_key(s, k);
                    assert(s[s.len() - 1].0 == k);
                }
            } else {
                assert(fn_entries(s) == fn_entries(front));
                assert(has_key(fn_entries(front), k));
            }
        }
        if unique_keys(s) {
            assert(unique_keys(front)) by {
                assert(forall|i: int, j: int|
                    0 <= i < j < front.len() ==> front[i].0 == s[i].0 && front[j].0 == s[j].0);
            }
            if s.last().1.info == FUNCTION_SYMBOL_INFO {
                let fe = fn_entries(front).push(s.last());
                assert forall|i: int, j: int| 0 <= i < j < fe.len() implies fe[i].0 != fe[j].0 by {
                    if j == fe.len() - 1 {
                        if fe[i].0 == s.last().0 {
                            assert(fn_entries(front)[i].0 == s.last().0);
                            lemma_find_key(fn_entries(front), s.last().0);
                            assert(has_key(fn_entries(front), s.last().0));
                            assert(has_key(front, s.last().0));
                            lemma_find_key(front, s.last().0);
                            let fi = find_key(front, s.last().0);
                            assert(s[fi].0 == s[s.len() - 1].0);
                        }
                    }
                }
            }
        }
    }
}

impl Elf {
    /// A default 64-bit little-endian executable model with no programs,
    /// sections or symbols.
    pub fn new() -> (r: Self)
        ensures
            r@.header == spec_default_header(),
            r@.programs == Seq::<ProgramHeader>::empty(),
            r@.sections == Seq::<(Seq<char>, SectView)>::empty(),
            r@.symbols == Seq::<(Seq<char>, SymView)>::empty(),
            r@.dynamic_symbols == Seq::<(Seq<char>, SymView)>::empty(),
    {
        let r = Self {
            header: Header {
                ei_magic: [0x7F, 0x45, 0x4C, 0x46],
                ei_class: Class::Class64,
                ei_data: Endian::Little,
                ei_version: 1,
                ei_osabi: 0,
                ei_abiversion: 0,
                ei_pad: [0, 0, 0, 0, 0, 0, 0],
                e_type: 2,
                e_machine: MachineType::Unknown,
                e_version: 1,
                e_entry: 0,
                e_phoff: 0,
                e_shoff: 0,
                e_flags: 0,
                e_ehsize: 0x40,
                e_phentsize: 0x38,
                e_phnum: 1,
                e_shentsize: 0x40,
                e_shnum: 1,
                e_shstrndx: 0,
            },
            programs: Vec::new(),
            sections: sect_map_new(),
            symbols: sym_map_new(),
            dynamic_symbols: sym_map_new(),
        };
        proof {
            assert(r.header.ei_magic@ =~= seq![0x7Fu8, 0x45u8, 0x4Cu8, 0x46u8]);
            assert(r.header.ei_pad@ =~= seq![0u8, 0u8, 0u8, 0u8, 0u8, 0u8, 0u8]);
            assert(r@.header =~= spec_default_header());
        }
        r
    }

    /// The exported-function symbols of this image: its dynamic-symbol
    /// entries with a global-function info byte, in table order.
    pub fn get_functions(&self) -> (r: indexmap::IndexMap<String, Symbol>)
        ensures
            symbol_entries(r) == insert_all(
                Seq::<(Seq<char>, SymView)>::empty(),
                fn_entries(self@.dynamic_symbols),
            ),
            unique_keys(self@.dynamic_symbols) ==> symbol_entries(r) == fn_entries(
                self@.dynamic_symbols,
            ),
    {
        let ghost dyns = symbol_entries(self.dynamic_symbols);
        let n = sym_map_len(&self.dynamic_symbols);
        let mut r = sym_map_new();
        let mut i: usize = 0;
        while i < n
            invariant
                n == dyns.len(),
                dyns == symbol_entries(self.dynamic_symbols),
                i <= n,
                symbol_entries(r) == insert_all(
                    Seq::<(Seq<char>, SymView)>::empty(),
                    fn_entries(dyns.subrange(0, i as int)),
                ),
            decreases n - i,
        {
            let (name, sym) = sym_map_at(&self.dynamic_symbols, i);
            proof {
                assert(dyns.subrange(0, i as int + 1).drop_last() =~= dyns.subrange(0, i as int));
                assert(dyns.subrange(0, i as int + 1).last() == dyns[i as int]);
            }
            if sym.sym_info == FUNCTION_SYMBOL_INFO {
                let ghost before = fn_entries(dyns.subrange(0, i as int));
                sym_map_insert(&mut r, name, sym);
                proof {
                    assert(before.push(dyns[i as int]).drop_last() =~= before);
                }
            }
            i += 1;
        }
        proof {
            assert(dyns.subrange(0, n as int) =~= dyns);
            if unique_keys(self@.dynamic_symbols) {
                lemma_fn_entries_keys(dyns);
                crate::omap::lemma_insert_all_identity(fn_entries(dyns));
            }
        }
        r
    }
}

} // verus!
