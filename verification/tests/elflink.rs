//! End-to-end and unit tests over the public API, run against the real
//! collections.

use elflink::codegen::get_instructions;
use elflink::elf::{Class, Elf, ElfError, Endian, MachineType, Section, SegmentType, Symbol};
use elflink::ext::{align, align_checked, read_cstr, read_u16, read_u32, word_to_vec};

fn symbol(info: u8, value: u64, size: u64, data: Vec<u8>) -> Symbol {
    Symbol {
        sym_name: 0,
        sym_info: info,
        sym_other: 0,
        sym_shndx: 0,
        sym_value: value,
        sym_size: size,
        sym_data: data,
    }
}

fn plain_section(data: Vec<u8>, sh_type: u32, entsize: u64) -> Section {
    let mut s = Section::new(data);
    s.header.sh_type = sh_type;
    s.header.sh_entsize = entsize;
    s
}

/// A minimal but conforming little-endian 64-bit executable model with the
/// five mandatory sections.
fn base_model() -> Elf {
    let mut m = Elf::new();
    m.header.e_phoff = 0x40;
    m.sections
        .insert(String::from(".symtab"), plain_section(Vec::new(), 2, 24));
    m.sections
        .insert(String::from(".strtab"), plain_section(vec![0], 3, 1));
    m.sections
        .insert(String::from(".dynsym"), plain_section(Vec::new(), 11, 24));
    m.sections
        .insert(String::from(".dynstr"), plain_section(vec![0], 3, 1));
    m.sections
        .insert(String::from(".shstrtab"), plain_section(vec![0], 3, 1));
    m
}

/// Sixteen bytes of machine code used as a sample function body.
fn sample_code() -> Vec<u8> {
    vec![
        0x55, 0xC3, 0x90, 0x90, 0x01, 0x02, 0x03, 0x04, 0x05, 0x06, 0x07, 0x08, 0x09, 0x0A, 0x0B,
        0x0C,
    ]
}

/// A serialized library image whose dynamic symbols export "add" with a
/// 16-byte body placed in a leading .text section (at file offset 0x40).
fn sample_library_image() -> Vec<u8> {
    let mut lib = Elf::new();
    lib.header.e_phoff = 0x40;
    let mut text = Section::new(sample_code());
    text.header.sh_type = 1;
    lib.sections.insert(String::from(".text"), text);
    // One 64-bit little-endian symbol record: name offset 1 into .dynstr,
    // info 0x12 (global function), value = file offset of .text, size 16.
    let mut rec: Vec<u8> = vec![1, 0, 0, 0, 0x12, 0, 0, 0];
    rec.extend_from_slice(&0x40u64.to_le_bytes());
    rec.extend_from_slice(&16u64.to_le_bytes());
    let mut dynsym = Section::new(rec);
    dynsym.header.sh_type = 11;
    dynsym.header.sh_entsize = 24;
    lib.sections.insert(String::from(".dynsym"), dynsym);
    let mut dynstr_body = vec![0u8];
    dynstr_body.extend_from_slice(b"add");
    dynstr_body.push(0);
    lib.sections
        .insert(String::from(".dynstr"), plain_section(dynstr_body, 3, 1));
    lib.sections
        .insert(String::from(".symtab"), plain_section(Vec::new(), 2, 24));
    lib.sections
        .insert(String::from(".strtab"), plain_section(vec![0], 3, 1));
    lib.sections
        .insert(String::from(".shstrtab"), plain_section(vec![0], 3, 1));
    lib.write().unwrap()
}

#[test]
fn trampoline_amd64_encodes_near_jump() {
    let t = get_instructions(MachineType::Amd64, 37);
    assert_eq!(t[0], 0xE9);
    assert_eq!(&t[1..5], &[32, 0, 0, 0]);
    for i in 5..16 {
        assert_eq!(t[i], 0x90);
    }
}

#[test]
fn trampoline_unknown_machine_is_inert() {
    let t = get_instructions(MachineType::Unknown, 37);
    assert_eq!(t, [0u8; 16]);
}

#[test]
fn trampoline_small_offset_wraps_as_signed() {
    let t = get_instructions(MachineType::Amd64, 0);
    assert_eq!(t[0], 0xE9);
    assert_eq!(&t[1..5], &(-5i32).to_le_bytes());
}

#[test]
fn align_basic_cases() {
    assert_eq!(align(13, 0), 13);
    assert_eq!(align(12, 4), 12);
    assert_eq!(align(13, 4), 16);
    assert_eq!(align(0, 16), 0);
    assert_eq!(align(1, 16), 16);
}

#[test]
fn align_checked_detects_overflow() {
    assert_eq!(align_checked(13, 4), Some(16));
    assert_eq!(align_checked(u64::MAX - 1, 16), None);
}

#[test]
fn words_read_in_both_byte_orders() {
    let data = vec![0x12u8, 0x34, 0x56, 0x78];
    let mut pos = 0u64;
    assert_eq!(read_u16(&data, &mut pos, Endian::Little), Ok(0x3412));
    pos = 0;
    assert_eq!(read_u16(&data, &mut pos, Endian::Big), Ok(0x1234));
    pos = 0;
    assert_eq!(read_u32(&data, &mut pos, Endian::Little), Ok(0x78563412));
    pos = 0;
    assert_eq!(read_u32(&data, &mut pos, Endian::Big), Ok(0x12345678));
    pos = 3;
    assert_eq!(read_u32(&data, &mut pos, Endian::Little), Err(ElfError::Truncated));
}

#[test]
fn words_encode_in_both_byte_orders() {
    assert_eq!(word_to_vec(0x3412, 2, Endian::Little), vec![0x12, 0x34]);
    assert_eq!(word_to_vec(0x1234, 2, Endian::Big), vec![0x12, 0x34]);
    assert_eq!(word_to_vec(0x0102030405060708, 8, Endian::Big), vec![1, 2, 3, 4, 5, 6, 7, 8]);
}

#[test]
fn cstr_reads_to_the_terminator() {
    let data = vec![b'h', b'i', 0, b'x'];
    let mut pos = 0u64;
    assert_eq!(read_cstr(&data, &mut pos), Ok(String::from("hi")));
    assert_eq!(pos, 3);
    let mut pos = 3u64;
    assert_eq!(read_cstr(&data, &mut pos), Err(ElfError::Truncated));
}

#[test]
fn section_new_sizes_itself() {
    let s = Section::new(vec![1, 2, 3]);
    assert_eq!(s.header.sh_size, 3);
    assert_eq!(s.header.sh_entsize, 1);
    assert_eq!(s.header.sh_addralign, 0);
    assert_eq!(s.body, vec![1, 2, 3]);
}

#[test]
fn new_model_defaults() {
    let m = Elf::new();
    assert_eq!(m.header.ei_magic, [0x7F, 0x45, 0x4C, 0x46]);
    assert_eq!(m.header.ei_class, Class::Class64);
    assert_eq!(m.header.ei_data, Endian::Little);
    assert_eq!(m.header.e_ehsize, 0x40);
    assert_eq!(m.header.e_phentsize, 0x38);
    assert!(m.programs.is_empty());
    assert!(m.sections.is_empty());
}

#[test]
fn get_functions_filters_by_info_byte() {
    let mut m = Elf::new();
    m.dynamic_symbols
        .insert(String::from("f"), symbol(0x12, 0, 0, Vec::new()));
    m.dynamic_symbols
        .insert(String::from("v"), symbol(0x11, 0, 0, Vec::new()));
    m.dynamic_symbols
        .insert(String::from("g"), symbol(0x12, 0, 0, Vec::new()));
    let fns = m.get_functions();
    let names: Vec<&String> = fns.keys().collect();
    assert_eq!(names, vec!["f", "g"]);
}

#[test]
fn update_requires_mandatory_sections() {
    let mut m = Elf::new();
    assert_eq!(m.update(), Err(ElfError::MissingSection));
}

#[test]
fn update_serializes_string_table() {
    let mut m = base_model();
    m.symbols.insert(String::from("main"), symbol(0, 0, 0, Vec::new()));
    m.update().unwrap();
    let strtab = &m.sections[".strtab"];
    let mut expected = vec![0u8];
    expected.extend_from_slice(b"main");
    expected.push(0);
    assert_eq!(strtab.body, expected);
    assert_eq!(strtab.header.sh_size, 6);
    assert_eq!(m.symbols["main"].sym_name, 1);
    // One 24-byte record per symbol under the 64-bit class.
    assert_eq!(m.sections[".symtab"].body.len(), 24);
    assert_eq!(m.header.e_shnum, 5);
    assert_eq!(m.header.e_shstrndx, 4);
}

#[test]
fn update_twice_settles() {
    let mut m = base_model();
    m.symbols.insert(String::from("main"), symbol(0, 0, 0, Vec::new()));
    m.update().unwrap();
    m.update().unwrap();
    let symtab_2 = m.sections[".symtab"].body.clone();
    let strtab_2 = m.sections[".strtab"].body.clone();
    let header_2 = m.header.clone();
    m.update().unwrap();
    assert_eq!(m.sections[".symtab"].body, symtab_2);
    assert_eq!(m.sections[".strtab"].body, strtab_2);
    assert_eq!(m.header, header_2);
}

#[test]
fn update_fixes_phdr_segment_size() {
    let mut m = base_model();
    m.programs.push(elflink::elf::ProgramHeader {
        p_type: SegmentType::Phdr,
        p_flags: 4,
        p_offset: 0x40,
        p_vaddr: 0,
        p_paddr: 0,
        p_filesz: 0,
        p_memsz: 0,
        p_align: 8,
    });
    m.programs.push(elflink::elf::ProgramHeader {
        p_type: SegmentType::Load,
        p_flags: 5,
        p_offset: 0,
        p_vaddr: 0,
        p_paddr: 0,
        p_filesz: 0,
        p_memsz: 0,
        p_align: 0x1000,
    });
    m.update().unwrap();
    assert_eq!(m.header.e_phnum, 2);
    assert_eq!(m.programs[0].p_filesz, 2 * 0x38);
    assert_eq!(m.programs[0].p_memsz, 2 * 0x38);
}

#[test]
fn update_shifts_interp_by_new_entries() {
    let mut m = base_model();
    m.header.e_phnum = 0;
    m.programs.push(elflink::elf::ProgramHeader {
        p_type: SegmentType::Interp,
        p_flags: 4,
        p_offset: 100,
        p_vaddr: 0,
        p_paddr: 0,
        p_filesz: 0,
        p_memsz: 0,
        p_align: 1,
    });
    m.update().unwrap();
    // One new entry of 0x38 bytes pushes the INTERP payload later.
    assert_eq!(m.programs[0].p_offset, 100 + 0x38);
}

#[test]
fn parse_rejects_bad_magic() {
    let bytes = vec![0x7F, b'E', b'L', b'Z', 2, 1, 1, 0];
    assert!(matches!(Elf::read(&bytes), Err(ElfError::BadMagic)));
}

#[test]
fn parse_rejects_short_input() {
    let bytes = vec![0x7F, b'E'];
    assert!(matches!(Elf::read(&bytes), Err(ElfError::Truncated)));
}

#[test]
fn parse_rejects_unknown_class_and_endianness() {
    let bytes = vec![0x7F, b'E', b'L', b'F', 3, 1, 1, 0];
    assert!(matches!(Elf::read(&bytes), Err(ElfError::UnsupportedClass)));
    let bytes = vec![0x7F, b'E', b'L', b'F', 2, 3, 1, 0];
    assert!(matches!(Elf::read(&bytes), Err(ElfError::UnsupportedEndianness)));
    let bytes = vec![0x7F, b'E', b'L', b'F', 2, 1, 9, 0];
    assert!(matches!(Elf::read(&bytes), Err(ElfError::UnsupportedVersion)));
}

#[test]
fn round_trip_preserves_name_sets() {
    let mut m = base_model();
    let mut text = Section::new(vec![0xDE, 0xAD, 0xBE, 0xEF]);
    text.header.sh_type = 1;
    m.sections.insert(String::from(".text"), text);
    m.symbols.insert(String::from("main"), symbol(0, 0, 0, Vec::new()));
    m.symbols.insert(String::from("helper"), symbol(0, 0, 0, Vec::new()));
    // One pass assigns the string-table offsets that the next pass's
    // serialized symbol table embeds.
    m.update().unwrap();
    let bytes = m.write().unwrap();
    let back = Elf::read(&bytes).unwrap();
    let sect_names: Vec<&String> = m.sections.keys().collect();
    let back_sect_names: Vec<&String> = back.sections.keys().collect();
    assert_eq!(sect_names, back_sect_names);
    let sym_names: Vec<&String> = m.symbols.keys().collect();
    let back_sym_names: Vec<&String> = back.symbols.keys().collect();
    assert_eq!(sym_names, back_sym_names);
    // And the round-tripped model parses again.
    let bytes2 = {
        let mut back2 = back;
        back2.write().unwrap()
    };
    assert!(Elf::read(&bytes2).is_ok());
}

#[test]
fn parse_extracts_function_bytes() {
    let image = sample_library_image();
    let lib = Elf::read(&image).unwrap();
    let fns = lib.get_functions();
    assert_eq!(fns.len(), 1);
    assert_eq!(fns["add"].sym_data, sample_code());
    assert_eq!(fns["add"].sym_size, 16);
}

#[test]
fn link_injects_matched_function() {
    let image = sample_library_image();
    let lib = Elf::read(&image).unwrap();

    let mut exe = base_model();
    exe.dynamic_symbols
        .insert(String::from("add"), symbol(0x12, 0, 0, Vec::new()));
    exe.dynamic_symbols
        .insert(String::from("unrelated"), symbol(0x12, 0, 0, Vec::new()));

    let matched = exe.link(&lib).unwrap();
    let names: Vec<&String> = matched.keys().collect();
    assert_eq!(names, vec!["add"]);

    let injected = &exe.sections[".fn_add"];
    assert_eq!(injected.body, sample_code());
    assert_eq!(injected.header.sh_addralign, 16);
    assert_eq!(injected.header.sh_type, 1);

    let seg = exe.programs.last().unwrap();
    assert_eq!(seg.p_type, SegmentType::Load);
    assert_eq!(seg.p_flags, 5);
    assert_eq!(seg.p_vaddr, 0x400000);
    assert_eq!(seg.p_filesz, 16);
}

#[test]
fn link_matches_only_names_on_both_sides() {
    let mut exe = Elf::new();
    exe.dynamic_symbols
        .insert(String::from("a"), symbol(0x12, 0, 0, Vec::new()));
    exe.dynamic_symbols
        .insert(String::from("b"), symbol(0x12, 0, 0, Vec::new()));
    let mut lib = Elf::new();
    lib.dynamic_symbols
        .insert(String::from("b"), symbol(0x12, 0, 0, vec![1, 2]));
    lib.dynamic_symbols
        .insert(String::from("c"), symbol(0x12, 0, 0, Vec::new()));
    let matched = exe.link(&lib).unwrap();
    let names: Vec<&String> = matched.keys().collect();
    assert_eq!(names, vec!["b"]);
}

#[test]
fn link_rejects_section_collision() {
    let mut exe = Elf::new();
    exe.dynamic_symbols
        .insert(String::from("add"), symbol(0x12, 0, 0, Vec::new()));
    let mut lib = Elf::new();
    lib.dynamic_symbols
        .insert(String::from("add"), symbol(0x12, 0, 16, sample_code()));
    assert!(exe.link(&lib).is_ok());
    // Linking the same library again collides on ".fn_add".
    assert_eq!(exe.link(&lib).unwrap_err(), ElfError::SectionCollision);
}

#[test]
fn link_rejects_oversized_total() {
    let mut exe = Elf::new();
    exe.dynamic_symbols
        .insert(String::from("a"), symbol(0x12, 0, 0, Vec::new()));
    exe.dynamic_symbols
        .insert(String::from("b"), symbol(0x12, 0, 0, Vec::new()));
    let mut lib = Elf::new();
    lib.dynamic_symbols
        .insert(String::from("a"), symbol(0x12, 0, u64::MAX, Vec::new()));
    lib.dynamic_symbols
        .insert(String::from("b"), symbol(0x12, 0, u64::MAX, Vec::new()));
    assert_eq!(exe.link(&lib).unwrap_err(), ElfError::TooLarge);
}

#[test]
fn parse_requires_symbol_tables() {
    let mut m = Elf::new();
    m.header.e_phoff = 0x40;
    m.sections
        .insert(String::from(".strtab"), plain_section(vec![0], 3, 1));
    m.sections
        .insert(String::from(".symtab"), plain_section(Vec::new(), 2, 24));
    m.sections
        .insert(String::from(".dynsym"), plain_section(Vec::new(), 11, 24));
    m.sections
        .insert(String::from(".dynstr"), plain_section(vec![0], 3, 1));
    m.sections
        .insert(String::from(".shstrtab"), plain_section(vec![0], 3, 1));
    let bytes = m.write().unwrap();
    // Corrupt the .symtab entry size to zero in a fresh model and re-emit.
    let mut broken = Elf::read(&bytes).unwrap();
    broken.sections[".symtab"].header.sh_entsize = 0;
    let bytes2 = broken.write().unwrap();
    assert!(matches!(Elf::read(&bytes2), Err(ElfError::BadSymbolEntrySize)));
}

#[test]
fn update_with_no_symbols_keeps_lone_nul() {
    let mut m = base_model();
    m.update().unwrap();
    assert_eq!(m.sections[".strtab"].body, vec![0]);
    assert_eq!(m.sections[".symtab"].body, Vec::<u8>::new());
    assert_eq!(m.sections[".symtab"].header.sh_size, 0);
}

#[test]
fn link_without_matches_still_appends_segment() {
    let mut exe = Elf::new();
    exe.dynamic_symbols
        .insert(String::from("a"), symbol(0x12, 0, 0, Vec::new()));
    let lib = Elf::new();
    let matched = exe.link(&lib).unwrap();
    assert!(matched.is_empty());
    assert_eq!(exe.programs.len(), 1);
    assert_eq!(exe.programs[0].p_filesz, 0);
    assert_eq!(exe.programs[0].p_type, SegmentType::Load);
}

#[test]
fn big_endian_round_trip() {
    let mut m = base_model();
    m.header.ei_data = Endian::Big;
    m.symbols.insert(String::from("main"), symbol(0, 0, 0, Vec::new()));
    m.update().unwrap();
    let bytes = m.write().unwrap();
    // The data-encoding byte marks a big-endian image.
    assert_eq!(bytes[5], 2);
    let back = Elf::read(&bytes).unwrap();
    assert_eq!(back.header.ei_data, Endian::Big);
    let names: Vec<&String> = back.symbols.keys().collect();
    assert_eq!(names, vec!["main"]);
}
