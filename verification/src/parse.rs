//! The parser: streams the bytes of an ELF image into the object model,
//! resolving every name-table indirection on the way.

use vstd::prelude::*;

use crate::elf::{
    Class, Elf, ElfError, Endian, Header, HeaderView, ProgramHeader, SectView,
    SectionHeader, SymView, Symbol, machine_of, segment_of, spec_class_size, spec_machine_of,
    spec_segment_of, FUNCTION_SYMBOL_INFO,
};
use crate::ext::{
    cstr_chars, find_nul, lemma_find_nul, read_bytes, read_class, read_cstr, read_u16, read_u32,
    read_u8, word_val,
};
use crate::omap::{
    find_key, sect_map_at, sect_map_index_of, sect_map_insert, sect_map_new, section_entries,
    sym_map_insert, sym_map_new, symbol_entries, table_insert,
};
use vstd::string::StringExecFns;

verus! {

/// The ELF magic: 0x7F and the letters "ELF".
pub open spec fn elf_magic() -> Seq<u8> {
    seq![0x7Fu8, 0x45u8, 0x4Cu8, 0x46u8]
}

/// The file header read from the front of the image, or the fatal format
/// error that stops the parse: a wrong magic, an unsupported class, data
/// encoding or version, or an image too short for the header. The first five
/// bytes are read raw; every multi-byte field after the data-encoding byte
/// uses the discovered byte order.
pub open spec fn read_header(s: Seq<u8>) -> Result<HeaderView, ElfError> {
    if s.len() < 4 {
        Err(ElfError::Truncated)
    } else if s.subrange(0, 4) != elf_magic() {
        Err(ElfError::BadMagic)
    } else if s.len() < 5 {
        Err(ElfError::Truncated)
    } else if s[4] != 1 && s[4] != 2 {
        Err(ElfError::UnsupportedClass)
    } else if s.len() < 6 {
        Err(ElfError::Truncated)
    } else if s[5] != 1 && s[5] != 2 {
        Err(ElfError::UnsupportedEndianness)
    } else if s.len() < 7 {
        Err(ElfError::Truncated)
    } else if s[6] != 1 {
        Err(ElfError::UnsupportedVersion)
    } else if s.len() < 24 {
        Err(ElfError::Truncated)
    } else {
        let class = if s[4] == 1 {
            Class::Class32
        } else {
            Class::Class64
        };
        let en = if s[5] == 1 {
            Endian::Little
        } else {
            Endian::Big
        };
        let cs = spec_class_size(class) as int;
        if word_val(s.subrange(20, 24), en) != 1 {
            Err(ElfError::UnsupportedVersion)
        } else if s.len() < 40 + 3 * cs {
            Err(ElfError::Truncated)
        } else {
            Ok(
                HeaderView {
                    magic: s.subrange(0, 4),
                    class,
                    data: en,
                    ident_version: 1,
                    osabi: s[7],
                    abiversion: s[8],
                    pad: s.subrange(9, 16),
                    e_type: word_val(s.subrange(16, 18), en) as u16,
                    machine: spec_machine_of(word_val(s.subrange(18, 20), en) as u16),
                    version: 1,
                    entry: word_val(s.subrange(24, 24 + cs), en) as u64,
                    phoff: word_val(s.subrange(24 + cs, 24 + 2 * cs), en) as u64,
                    shoff: word_val(s.subrange(24 + 2 * cs, 24 + 3 * cs), en) as u64,
                    flags: word_val(s.subrange(24 + 3 * cs, 28 + 3 * cs), en) as u32,
                    ehsize: word_val(s.subrange(28 + 3 * cs, 30 + 3 * cs), en) as u16,
                    phentsize: word_val(s.subrange(30 + 3 * cs, 32 + 3 * cs), en) as u16,
                    phnum: word_val(s.subrange(32 + 3 * cs, 34 + 3 * cs), en) as u16,
                    shentsize: word_val(s.subrange(34 + 3 * cs, 36 + 3 * cs), en) as u16,
                    shnum: word_val(s.subrange(36 + 3 * cs, 38 + 3 * cs), en) as u16,
                    shstrndx: word_val(s.subrange(38 + 3 * cs, 40 + 3 * cs), en) as u16,
                },
            )
        }
    }
}

/// Length of one program-header record under a class.
pub open spec fn phdr_len(class: Class) -> int {
    match class {
        Class::Class32 => 32,
        Class::Class64 => 56,
    }
}

/// One program header decoded at `off`. The position of the flags field
/// differs between the classes: the 64-bit class puts it right after the
/// type, the 32-bit class between the memory size and the alignment.
pub open spec fn read_phdr(s: Seq<u8>, class: Class, en: Endian, off: int) -> ProgramHeader {
    match class {
        Class::Class32 => ProgramHeader {
            p_type: spec_segment_of(word_val(s.subrange(off, off + 4), en) as u32),
            p_offset: word_val(s.subrange(off + 4, off + 8), en) as u64,
            p_vaddr: word_val(s.subrange(off + 8, off + 12), en) as u64,
            p_paddr: word_val(s.subrange(off + 12, off + 16), en) as u64,
            p_filesz: word_val(s.subrange(off + 16, off + 20), en) as u64,
            p_memsz: word_val(s.subrange(off + 20, off + 24), en) as u64,
            p_flags: word_val(s.subrange(off + 24, off + 28), en) as u32,
            p_align: word_val(s.subrange(off + 28, off + 32), en) as u64,
        },
        Class::Class64 => ProgramHeader {
            p_type: spec_segment_of(word_val(s.subrange(off, off + 4), en) as u32),
            p_flags: word_val(s.subrange(off + 4, off + 8), en) as u32,
            p_offset: word_val(s.subrange(off + 8, off + 16), en) as u64,
            p_vaddr: word_val(s.subrange(off + 16, off + 24), en) as u64,
            p_paddr: word_val(s.subrange(off + 24, off + 32), en) as u64,
            p_filesz: word_val(s.subrange(off + 32, off + 40), en) as u64,
            p_memsz: word_val(s.subrange(off + 40, off + 48), en) as u64,
            p_align: word_val(s.subrange(off + 48, off + 56), en) as u64,
        },
    }
}

/// The program-header table at `phoff`, or a truncation error when a record
/// runs past the image's end.
pub open spec fn read_phdrs(s: Seq<u8>, class: Class, en: Endian, phoff: int, n: int) -> Result<
    Seq<ProgramHeader>,
    ElfError,
> {
    if n > 0 && phoff + n * phdr_len(class) > s.len() {
        Err(ElfError::Truncated)
    } else {
        Ok(Seq::new(n as nat, |i: int| read_phdr(s, class, en, phoff + i * phdr_len(class))))
    }
}

/// Length of one section-header record under a class.
pub open spec fn shdr_len(class: Class) -> int {
    match class {
        Class::Class32 => 40,
        Class::Class64 => 64,
    }
}

/// One section header decoded at `off`.
pub open spec fn read_shdr(s: Seq<u8>, class: Class, en: Endian, off: int) -> SectionHeader {
    let cs = spec_class_size(class) as int;
    SectionHeader {
        sh_name: word_val(s.subrange(off, off + 4), en) as u32,
        sh_type: word_val(s.subrange(off + 4, off + 8), en) as u32,
        sh_flags: word_val(s.subrange(off + 8, off + 8 + cs), en) as u64,
        sh_addr: word_val(s.subrange(off + 8 + cs, off + 8 + 2 * cs), en) as u64,
        sh_offset: word_val(s.subrange(off + 8 + 2 * cs, off + 8 + 3 * cs), en) as u64,
        sh_size: word_val(s.subrange(off + 8 + 3 * cs, off + 8 + 4 * cs), en) as u64,
        sh_link: word_val(s.subrange(off + 8 + 4 * cs, off + 12 + 4 * cs), en) as u32,
        sh_info: word_val(s.subrange(off + 12 + 4 * cs, off + 16 + 4 * cs), en) as u32,
        sh_addralign: word_val(s.subrange(off + 16 + 4 * cs, off + 16 + 5 * cs), en) as u64,
        sh_entsize: word_val(s.subrange(off + 16 + 5 * cs, off + 16 + 6 * cs), en) as u64,
    }
}

/// The section body a header points at.
pub open spec fn sect_body(s: Seq<u8>, h: SectionHeader) -> Seq<u8> {
    s.subrange(h.sh_offset as int, h.sh_offset + h.sh_size)
}

/// Whether a section's declared body lies inside the image.
pub open spec fn sect_body_ok(s: Seq<u8>, h: SectionHeader) -> bool {
    h.sh_offset + h.sh_size <= s.len()
}

/// The section-header table and the body bytes of each section, or a
/// truncation error when a header or a body runs past the image's end.
pub open spec fn read_raw_sections(
    s: Seq<u8>,
    class: Class,
    en: Endian,
    shoff: int,
    n: int,
) -> Result<Seq<(SectionHeader, Seq<u8>)>, ElfError> {
    if n > 0 && shoff + n * shdr_len(class) > s.len() {
        Err(ElfError::Truncated)
    } else if exists|i: int|
        0 <= i < n && !sect_body_ok(s, #[trigger] read_shdr(s, class, en, shoff + i * shdr_len(class))) {
        Err(ElfError::Truncated)
    } else {
        Ok(
            Seq::new(
                n as nat,
                |i: int|
                    (
                        read_shdr(s, class, en, shoff + i * shdr_len(class)),
                        sect_body(s, read_shdr(s, class, en, shoff + i * shdr_len(class))),
                    ),
            ),
        )
    }
}

/// Insertion of named entries in order, dropping entries whose name is
/// empty: the first index of every string table is the empty name by the ELF
/// convention.
pub open spec fn insert_named<V>(
    acc: Seq<(Seq<char>, V)>,
    items: Seq<(Seq<char>, V)>,
) -> Seq<(Seq<char>, V)>
    decreases items.len(),
{
    if items.len() == 0 {
        acc
    } else {
        let rest = insert_named(acc, items.drop_last());
        if items.last().0.len() == 0 {
            rest
        } else {
            table_insert(rest, items.last().0, items.last().1)
        }
    }
}

/// Whether the NUL-terminated name at `off` can be read out of the image.
pub open spec fn name_ok(s: Seq<u8>, off: int) -> bool {
    off <= s.len() && find_nul(s, off) < s.len()
}

/// The name read at offset `name_off` into the string table at `str_off`.
pub open spec fn name_at(s: Seq<u8>, str_off: int, name_off: int) -> Seq<char> {
    cstr_chars(s, str_off + name_off)
}

/// The section table keyed by resolved names: each section's name is read
/// from the section-name string table at its own name offset, and sections
/// with an empty resolved name are dropped.
pub open spec fn resolve_sections(
    s: Seq<u8>,
    raw: Seq<(SectionHeader, Seq<u8>)>,
    str_off: int,
) -> Result<Seq<(Seq<char>, SectView)>, ElfError> {
    if exists|i: int| 0 <= i < raw.len() && !name_ok(s, str_off + (#[trigger] raw[i]).0.sh_name) {
        Err(ElfError::Truncated)
    } else {
        Ok(
            insert_named(
                Seq::<(Seq<char>, SectView)>::empty(),
                Seq::new(
                    raw.len(),
                    |i: int|
                        (
                            name_at(s, str_off, raw[i].0.sh_name as int),
                            SectView { header: raw[i].0, body: raw[i].1 },
                        ),
                ),
            ),
        )
    }
}

/// One symbol record decoded at `off`, in the class-dependent field order:
/// under the 32-bit class name, value, size, info, other, section index;
/// under the 64-bit class name, info, other, section index, value, size.
/// The body is filled in separately.
pub open spec fn read_sym(s: Seq<u8>, class: Class, en: Endian, off: int) -> SymView {
    match class {
        Class::Class32 => SymView {
            name: word_val(s.subrange(off, off + 4), en) as u32,
            value: word_val(s.subrange(off + 4, off + 8), en) as u64,
            size: word_val(s.subrange(off + 8, off + 12), en) as u64,
            info: s[off + 12],
            other: s[off + 13],
            shndx: word_val(s.subrange(off + 14, off + 16), en) as u16,
            data: Seq::empty(),
        },
        Class::Class64 => SymView {
            name: word_val(s.subrange(off, off + 4), en) as u32,
            info: s[off + 4],
            other: s[off + 5],
            shndx: word_val(s.subrange(off + 6, off + 8), en) as u16,
            value: word_val(s.subrange(off + 8, off + 16), en) as u64,
            size: word_val(s.subrange(off + 16, off + 24), en) as u64,
            data: Seq::empty(),
        },
    }
}

/// Length of one decoded symbol record under a class.
pub open spec fn sym_len(class: Class) -> int {
    match class {
        Class::Class32 => 16,
        Class::Class64 => 24,
    }
}

/// A symbol's extracted function body: a global function symbol's value is,
/// at parse time, the file offset of its machine code, of which exactly its
/// declared size is copied; any other symbol keeps no body.
pub open spec fn sym_body(s: Seq<u8>, v: SymView) -> Seq<u8> {
    if v.info == FUNCTION_SYMBOL_INFO {
        s.subrange(v.value as int, v.value + v.size)
    } else {
        Seq::empty()
    }
}

/// Whether a symbol's function body lies inside the image.
pub open spec fn sym_body_ok(s: Seq<u8>, v: SymView) -> bool {
    v.info == FUNCTION_SYMBOL_INFO ==> v.value + v.size <= s.len()
}

/// The number of symbol records a table holds: one per entry-size slice.
pub open spec fn sym_count(tab: SectionHeader) -> int {
    tab.sh_size as int / tab.sh_entsize as int
}

/// A symbol table decoded record by record — one record per entry-size
/// slice at the table's file offset — with function bodies extracted and
/// names resolved from the given string table, dropping empty-named symbols.
pub open spec fn read_symbols(
    s: Seq<u8>,
    class: Class,
    en: Endian,
    tab: SectionHeader,
    strtab: SectionHeader,
) -> Result<Seq<(Seq<char>, SymView)>, ElfError> {
    let n = sym_count(tab);
    if exists|i: int|
        0 <= i < n && tab.sh_offset + #[trigger] (i * tab.sh_entsize) + sym_len(class) > s.len() {
        Err(ElfError::Truncated)
    } else if exists|i: int|
        0 <= i < n && !sym_body_ok(
            s,
            #[trigger] read_sym(s, class, en, tab.sh_offset + i * tab.sh_entsize),
        ) {
        Err(ElfError::Truncated)
    } else if exists|i: int|
        0 <= i < n && !name_ok(
            s,
            strtab.sh_offset + (#[trigger] read_sym(
                s,
                class,
                en,
                tab.sh_offset + i * tab.sh_entsize,
            )).name,
        ) {
        Err(ElfError::Truncated)
    } else {
        Ok(
            insert_named(
                Seq::<(Seq<char>, SymView)>::empty(),
                Seq::new(
                    n as nat,
                    |i: int|
                        {
                            let v = read_sym(s, class, en, tab.sh_offset + i * tab.sh_entsize);
                            (
                                name_at(s, strtab.sh_offset as int, v.name as int),
                                SymView { data: sym_body(s, v), ..v },
                            )
                        },
                ),
            ),
        )
    }
}

/// Decodes one symbol table: one record per entry-size slice, function
/// bodies copied out of the image, names resolved through the given string
/// table, empty-named symbols dropped.
#[verifier::loop_isolation(false)]
#[verifier::rlimit(100)]
#[verifier::spinoff_prover]
fn read_symbol_table(
    s: &Vec<u8>,
    class: Class,
    en: Endian,
    tab: SectionHeader,
    strtab: SectionHeader,
) -> (r: Result<indexmap::IndexMap<String, Symbol>, ElfError>)
    requires
        tab.sh_entsize != 0,
    ensures
        match read_symbols(s@, class, en, tab, strtab) {
            Ok(es) => r matches Ok(m) && symbol_entries(m) == es,
            Err(e) => r matches Err(e2) && e == e2,
        },
{
    let len64: u64 = s.len() as u64;
    let e: u64 = tab.sh_entsize;
    let n: u64 = tab.sh_size / e;
    let ghost pairs = Seq::new(
        sym_count(tab) as nat,
        |i: int|
            {
                let v = read_sym(s@, class, en, tab.sh_offset + i * tab.sh_entsize);
                (
                    name_at(s@, strtab.sh_offset as int, v.name as int),
                    SymView { data: sym_body(s@, v), ..v },
                )
            },
    );
    proof {
        vstd::arithmetic::div_mod::lemma_fundamental_div_mod(
            tab.sh_size as int,
            tab.sh_entsize as int,
        );
        vstd::arithmetic::div_mod::lemma_mod_bound(tab.sh_size as int, tab.sh_entsize as int);
        assert((e as int) * (n as int) <= tab.sh_size as int);
    }
    let reclen: usize = match class {
        Class::Class32 => 16,
        Class::Class64 => 24,
    };
    let mut map = sym_map_new();
    let mut i: u64 = 0;
    while i < n
        invariant
            i <= n,
            symbol_entries(map) == insert_named(
                Seq::<(Seq<char>, SymView)>::empty(),
                pairs.subrange(0, i as int),
            ),
            forall|k: int|
                0 <= k < i as int ==> tab.sh_offset + #[trigger] (k * tab.sh_entsize) + sym_len(
                    class,
                ) <= s@.len(),
            forall|k: int|
                0 <= k < i as int ==> sym_body_ok(
                    s@,
                    #[trigger] read_sym(s@, class, en, tab.sh_offset + k * tab.sh_entsize),
                ),
            forall|k: int|
                0 <= k < i as int ==> name_ok(
                    s@,
                    strtab.sh_offset + (#[trigger] read_sym(
                        s@,
                        class,
                        en,
                        tab.sh_offset + k * tab.sh_entsize,
                    )).name,
                ),
        decreases n - i,
    {
        proof {
            assert((i as int) * (e as int) <= tab.sh_size - e) by (nonlinear_arith)
                requires
                    i as int <= n as int - 1,
                    (e as int) * (n as int) <= tab.sh_size as int,
                    e >= 1,
            ;
        }
        let off_in_tab: u64 = i * e;
        if tab.sh_offset > u64::MAX - off_in_tab {
            return Err(ElfError::Truncated);
        }
        let rec_off: u64 = tab.sh_offset + off_in_tab;
        if (reclen as u64) > len64 || rec_off > len64 - (reclen as u64) {
            return Err(ElfError::Truncated);
        }
        let ghost v = read_sym(s@, class, en, tab.sh_offset + (i as int) * tab.sh_entsize);
        let mut pos: u64 = rec_off;
        let sym = match class {
            Class::Class32 => {
                let sym_name = match read_u32(s, &mut pos, en) {
                    Ok(x) => x,
                    Err(er) => {
                        return Err(er);
                    },
                };
                let sym_value = match read_class(s, &mut pos, class, en) {
                    Ok(x) => x,
                    Err(er) => {
                        return Err(er);
                    },
                };
                let sym_size = match read_class(s, &mut pos, class, en) {
                    Ok(x) => x,
                    Err(er) => {
                        return Err(er);
                    },
                };
                let sym_info = match read_u8(s, &mut pos) {
                    Ok(x) => x,
                    Err(er) => {
                        return Err(er);
                    },
                };
                let sym_other = match read_u8(s, &mut pos) {
                    Ok(x) => x,
                    Err(er) => {
                        return Err(er);
                    },
                };
                let sym_shndx = match read_u16(s, &mut pos, en) {
                    Ok(x) => x,
                    Err(er) => {
                        return Err(er);
                    },
                };
                Symbol {
                    sym_name,
                    sym_info,
                    sym_other,
                    sym_shndx,
                    sym_value,
                    sym_size,
                    sym_data: Vec::new(),
                }
            },
            Class::Class64 => {
                let sym_name = match read_u32(s, &mut pos, en) {
                    Ok(x) => x,
                    Err(er) => {
                        return Err(er);
                    },
                };
                let sym_info = match read_u8(s, &mut pos) {
                    Ok(x) => x,
                    Err(er) => {
                        return Err(er);
                    },
                };
                let sym_other = match read_u8(s, &mut pos) {
                    Ok(x) => x,
                    Err(er) => {
                        return Err(er);
                    },
                };
                let sym_shndx = match read_u16(s, &mut pos, en) {
                    Ok(x) => x,
                    Err(er) => {
                        return Err(er);
                    },
                };
                let sym_value = match read_class(s, &mut pos, class, en) {
                    Ok(x) => x,
                    Err(er) => {
                        return Err(er);
                    },
                };
                let sym_size = match read_class(s, &mut pos, class, en) {
                    Ok(x) => x,
                    Err(er) => {
                        return Err(er);
                    },
                };
                Symbol {
                    sym_name,
                    sym_info,
                    sym_other,
                    sym_shndx,
                    sym_value,
                    sym_size,
                    sym_data: Vec::new(),
                }
            },
        };
        proof {
            assert(sym@ == v);
        }
        let sym = if sym.sym_info == FUNCTION_SYMBOL_INFO {
            if sym.sym_size > len64 || sym.sym_value > len64 - sym.sym_size {
                proof {
                    assert(!sym_body_ok(s@, v));
                }
                return Err(ElfError::Truncated);
            }
            let mut bpos: u64 = sym.sym_value;
            let data = match read_bytes(s, &mut bpos, sym.sym_size as usize) {
                Ok(d) => d,
                Err(er) => {
                    return Err(er);
                },
            };
            Symbol { sym_data: data, ..sym }
        } else {
            sym
        };
        proof {
            assert(sym@ == (SymView { data: sym_body(s@, v), ..v }));
        }
        if strtab.sh_offset > u64::MAX - (sym.sym_name as u64) {
            proof {
                assert(!name_ok(s@, strtab.sh_offset + v.name));
            }
            return Err(ElfError::Truncated);
        }
        let name_off: u64 = strtab.sh_offset + (sym.sym_name as u64);
        if name_off > len64 {
            proof {
                assert(!name_ok(s@, strtab.sh_offset + v.name));
            }
            return Err(ElfError::Truncated);
        }
        let mut npos: u64 = name_off;
        let name = match read_cstr(s, &mut npos) {
            Ok(nm) => nm,
            Err(er) => {
                proof {
                    lemma_find_nul(s@, name_off as int);
                    assert(!name_ok(s@, strtab.sh_offset + v.name));
                }
                return Err(er);
            },
        };
        proof {
            lemma_find_nul(s@, name_off as int);
            assert(find_nul(s@, name_off as int) < s@.len());
            assert(name_ok(s@, strtab.sh_offset + v.name));
            assert(name@ == pairs[i as int].0);
            assert(pairs.subrange(0, i as int + 1).drop_last() =~= pairs.subrange(0, i as int));
            assert(pairs.subrange(0, i as int + 1).last() == pairs[i as int]);
        }
        if !name.as_str().is_empty() {
            sym_map_insert(&mut map, name, sym);
        }
        i = i + 1;
    }
    proof {
        assert(pairs.subrange(0, n as int) =~= pairs);
        assert(read_symbols(s@, class, en, tab, strtab) == Ok::<Seq<(Seq<char>, SymView)>, ElfError>(
            insert_named(Seq::<(Seq<char>, SymView)>::empty(), pairs),
        ));
    }
    Ok(map)
}

/// The whole parse: header, program headers, sections with bodies, section
/// names, then the regular and the dynamic symbol table, each with its own
/// string table — in that order, since later steps read offsets the earlier
/// ones produced. The mandatory sections are `.symtab`, `.strtab`, `.dynsym`
/// and `.dynstr`, plus the section the header's string-table index names.
pub open spec fn read_view(s: Seq<u8>) -> Result<crate::elf::ElfView, ElfError> {
    match read_header(s) {
        Err(e) => Err(e),
        Ok(h) => match read_phdrs(s, h.class, h.data, h.phoff as int, h.phnum as int) {
            Err(e) => Err(e),
            Ok(progs) => match read_raw_sections(
                s,
                h.class,
                h.data,
                h.shoff as int,
                h.shnum as int,
            ) {
                Err(e) => Err(e),
                Ok(raw) => {
                    if h.shstrndx >= raw.len() {
                        Err(ElfError::MissingSection)
                    } else {
                        match resolve_sections(s, raw, raw[h.shstrndx as int].0.sh_offset as int) {
                            Err(e) => Err(e),
                            Ok(sections) => {
                                let symtab_i = find_key(sections, ".symtab"@);
                                let strtab_i = find_key(sections, ".strtab"@);
                                let dynsym_i = find_key(sections, ".dynsym"@);
                                let dynstr_i = find_key(sections, ".dynstr"@);
                                if symtab_i < 0 {
                                    Err(ElfError::MissingSection)
                                } else if sections[symtab_i].1.header.sh_entsize == 0 {
                                    Err(ElfError::BadSymbolEntrySize)
                                } else if strtab_i < 0 {
                                    Err(ElfError::MissingSection)
                                } else {
                                    match read_symbols(
                                        s,
                                        h.class,
                                        h.data,
                                        sections[symtab_i].1.header,
                                        sections[strtab_i].1.header,
                                    ) {
                                        Err(e) => Err(e),
                                        Ok(symbols) => {
                                            if dynsym_i < 0 {
                                                Err(ElfError::MissingSection)
                                            } else if sections[dynsym_i].1.header.sh_entsize
                                                == 0 {
                                                Err(ElfError::BadSymbolEntrySize)
                                            } else if dynstr_i < 0 {
                                                Err(ElfError::MissingSection)
                                            } else {
                                                match read_symbols(
                                                    s,
                                                    h.class,
                                                    h.data,
                                                    sections[dynsym_i].1.header,
                                                    sections[dynstr_i].1.header,
                                                ) {
                                                    Err(e) => Err(e),
                                                    Ok(dynamic_symbols) => Ok(
                                                        crate::elf::ElfView {
                                                            header: h,
                                                            programs: progs,
                                                            sections,
                                                            symbols,
                                                            dynamic_symbols,
                                                        },
                                                    ),
                                                }
                                            }
                                        },
                                    }
                                }
                            },
                        }
                    }
                },
            },
        },
    }
}

/// Reads and validates the fixed-size file header.
#[verifier::loop_isolation(false)]
#[verifier::rlimit(100)]
#[verifier::spinoff_prover]
fn read_header_exec(input: &Vec<u8>) -> (r: Result<Header, ElfError>)
    ensures
        match read_header(input@) {
            Ok(h) => r matches Ok(hd) && hd@ == h,
            Err(e) => r matches Err(e2) && e == e2,
        },
{
    let mut pos: u64 = 0;
    let magic = match read_bytes(input, &mut pos, 4) {
        Ok(v) => v,
        Err(e) => {
            return Err(e);
        },
    };
    if !(magic[0] == 0x7F && magic[1] == 0x45 && magic[2] == 0x4C && magic[3] == 0x46) {
        proof {
            assert(input@.subrange(0, 4) != elf_magic());
        }
        return Err(ElfError::BadMagic);
    }
    proof {
        assert(input@.subrange(0, 4) =~= elf_magic());
    }
    let class_b = match read_u8(input, &mut pos) {
        Ok(v) => v,
        Err(e) => {
            return Err(e);
        },
    };
    let class = if class_b == 1 {
        Class::Class32
    } else if class_b == 2 {
        Class::Class64
    } else {
        return Err(ElfError::UnsupportedClass);
    };
    let data_b = match read_u8(input, &mut pos) {
        Ok(v) => v,
        Err(e) => {
            return Err(e);
        },
    };
    let en = if data_b == 1 {
        Endian::Little
    } else if data_b == 2 {
        Endian::Big
    } else {
        return Err(ElfError::UnsupportedEndianness);
    };
    let ident_version = match read_u8(input, &mut pos) {
        Ok(v) => v,
        Err(e) => {
            return Err(e);
        },
    };
    if ident_version != 1 {
        return Err(ElfError::UnsupportedVersion);
    }
    let osabi = match read_u8(input, &mut pos) {
        Ok(v) => v,
        Err(_) => {
            return Err(ElfError::Truncated);
        },
    };
    let abiversion = match read_u8(input, &mut pos) {
        Ok(v) => v,
        Err(_) => {
            return Err(ElfError::Truncated);
        },
    };
    let pad = match read_bytes(input, &mut pos, 7) {
        Ok(v) => v,
        Err(_) => {
            return Err(ElfError::Truncated);
        },
    };
    let e_type = match read_u16(input, &mut pos, en) {
        Ok(v) => v,
        Err(_) => {
            return Err(ElfError::Truncated);
        },
    };
    let machine_code_v = match read_u16(input, &mut pos, en) {
        Ok(v) => v,
        Err(_) => {
            return Err(ElfError::Truncated);
        },
    };
    let e_machine = machine_of(machine_code_v);
    let e_version = match read_u32(input, &mut pos, en) {
        Ok(v) => v,
        Err(_) => {
            return Err(ElfError::Truncated);
        },
    };
    if e_version != 1 {
        return Err(ElfError::UnsupportedVersion);
    }
    let e_entry = match read_class(input, &mut pos, class, en) {
        Ok(v) => v,
        Err(_) => {
            return Err(ElfError::Truncated);
        },
    };
    let e_phoff = match read_class(input, &mut pos, class, en) {
        Ok(v) => v,
        Err(_) => {
            return Err(ElfError::Truncated);
        },
    };
    let e_shoff = match read_class(input, &mut pos, class, en) {
        Ok(v) => v,
        Err(_) => {
            return Err(ElfError::Truncated);
        },
    };
    let e_flags = match read_u32(input, &mut pos, en) {
        Ok(v) => v,
        Err(_) => {
            return Err(ElfError::Truncated);
        },
    };
    let e_ehsize = match read_u16(input, &mut pos, en) {
        Ok(v) => v,
        Err(_) => {
            return Err(ElfError::Truncated);
        },
    };
    let e_phentsize = match read_u16(input, &mut pos, en) {
        Ok(v) => v,
        Err(_) => {
            return Err(ElfError::Truncated);
        },
    };
    let e_phnum = match read_u16(input, &mut pos, en) {
        Ok(v) => v,
        Err(_) => {
            return Err(ElfError::Truncated);
        },
    };
    let e_shentsize = match read_u16(input, &mut pos, en) {
        Ok(v) => v,
        Err(_) => {
            return Err(ElfError::Truncated);
        },
    };
    let e_shnum = match read_u16(input, &mut pos, en) {
        Ok(v) => v,
        Err(_) => {
            return Err(ElfError::Truncated);
        },
    };
    let e_shstrndx = match read_u16(input, &mut pos, en) {
        Ok(v) => v,
        Err(_) => {
            return Err(ElfError::Truncated);
        },
    };
    let header = Header {
        ei_magic: [magic[0], magic[1], magic[2], magic[3]],
        ei_class: class,
        ei_data: en,
        ei_version: ident_version,
        ei_osabi: osabi,
        ei_abiversion: abiversion,
        ei_pad: [pad[0], pad[1], pad[2], pad[3], pad[4], pad[5], pad[6]],
        e_type,
        e_machine,
        e_version,
        e_entry,
        e_phoff,
        e_shoff,
        e_flags,
        e_ehsize,
        e_phentsize,
        e_phnum,
        e_shentsize,
        e_shnum,
        e_shstrndx,
    };
    proof {
        let h = read_header(input@)->Ok_0;
        assert(read_header(input@) is Ok);
        assert(header@.magic =~= h.magic);
        assert(header@.pad =~= h.pad);
        assert(header@ =~= h);
    }
    Ok(header)
}

/// Reads the program-header table.
#[verifier::loop_isolation(false)]
#[verifier::rlimit(100)]
#[verifier::spinoff_prover]
fn read_phdrs_exec(input: &Vec<u8>, class: Class, en: Endian, phoff: u64, n: usize) -> (r: Result<
    Vec<ProgramHeader>,
    ElfError,
>)
    ensures
        match read_phdrs(input@, class, en, phoff as int, n as int) {
            Ok(ps) => r matches Ok(v) && v@ == ps,
            Err(e) => r matches Err(e2) && e == e2,
        },
{
    let len64: u64 = input.len() as u64;
    let preclen: usize = match class {
        Class::Class32 => 32,
        Class::Class64 => 56,
    };
    let mut programs: Vec<ProgramHeader> = Vec::new();
    let mut pos: u64 = phoff;
    let mut i: usize = 0;
    while i < n
        invariant
            i <= n,
            pos == phoff + i as int * phdr_len(class),
            i > 0 ==> pos <= input@.len(),
            programs@ =~= Seq::new(
                i as nat,
                |k: int| read_phdr(input@, class, en, phoff + k * phdr_len(class)),
            ),
        decreases n - i,
    {
        if (preclen as u64) > len64 || pos > len64 - (preclen as u64) {
            proof {
                assert((i as int + 1) * phdr_len(class) <= n as int * phdr_len(class))
                    by (nonlinear_arith)
                    requires
                        i as int + 1 <= n as int,
                        phdr_len(class) >= 0,
                ;
                assert(phoff + n as int * phdr_len(class) > input@.len());
            }
            return Err(ElfError::Truncated);
        }
        let ghost rec = read_phdr(input@, class, en, pos as int);
        let prog = match class {
            Class::Class32 => {
                let p_type = match read_u32(input, &mut pos, en) {
                    Ok(v) => v,
                    Err(e) => {
                        return Err(e);
                    },
                };
                let p_offset = match read_class(input, &mut pos, class, en) {
                    Ok(v) => v,
                    Err(e) => {
                        return Err(e);
                    },
                };
                let p_vaddr = match read_class(input, &mut pos, class, en) {
                    Ok(v) => v,
                    Err(e) => {
                        return Err(e);
                    },
                };
                let p_paddr = match read_class(input, &mut pos, class, en) {
                    Ok(v) => v,
                    Err(e) => {
                        return Err(e);
                    },
                };
                let p_filesz = match read_class(input, &mut pos, class, en) {
                    Ok(v) => v,
                    Err(e) => {
                        return Err(e);
                    },
                };
                let p_memsz = match read_class(input, &mut pos, class, en) {
                    Ok(v) => v,
                    Err(e) => {
                        return Err(e);
                    },
                };
                let p_flags = match read_u32(input, &mut pos, en) {
                    Ok(v) => v,
                    Err(e) => {
                        return Err(e);
                    },
                };
                let p_align = match read_class(input, &mut pos, class, en) {
                    Ok(v) => v,
                    Err(e) => {
                        return Err(e);
                    },
                };
                ProgramHeader {
                    p_type: segment_of(p_type),
                    p_flags,
                    p_offset,
                    p_vaddr,
                    p_paddr,
                    p_filesz,
                    p_memsz,
                    p_align,
                }
            },
            Class::Class64 => {
                let p_type = match read_u32(input, &mut pos, en) {
                    Ok(v) => v,
                    Err(e) => {
                        return Err(e);
                    },
                };
                let p_flags = match read_u32(input, &mut pos, en) {
                    Ok(v) => v,
                    Err(e) => {
                        return Err(e);
                    },
                };
                let p_offset = match read_class(input, &mut pos, class, en) {
                    Ok(v) => v,
                    Err(e) => {
                        return Err(e);
                    },
                };
                let p_vaddr = match read_class(input, &mut pos, class, en) {
                    Ok(v) => v,
                    Err(e) => {
                        return Err(e);
                    },
                };
                let p_paddr = match read_class(input, &mut pos, class, en) {
                    Ok(v) => v,
                    Err(e) => {
                        return Err(e);
                    },
                };
                let p_filesz = match read_class(input, &mut pos, class, en) {
                    Ok(v) => v,
                    Err(e) => {
                        return Err(e);
                    },
                };
                let p_memsz = match read_class(input, &mut pos, class, en) {
                    Ok(v) => v,
                    Err(e) => {
                        return Err(e);
                    },
                };
                let p_align = match read_class(input, &mut pos, class, en) {
                    Ok(v) => v,
                    Err(e) => {
                        return Err(e);
                    },
                };
                ProgramHeader {
                    p_type: segment_of(p_type),
                    p_flags,
                    p_offset,
                    p_vaddr,
                    p_paddr,
                    p_filesz,
                    p_memsz,
                    p_align,
                }
            },
        };
        proof {
            assert(prog == rec);
        }
        programs.push(prog);
        i = i + 1;
    }
    Ok(programs)
}

/// Reads the section-header table, checking every body's range against the
/// image.
#[verifier::loop_isolation(false)]
#[verifier::rlimit(100)]
#[verifier::spinoff_prover]
fn read_shdrs_exec(input: &Vec<u8>, class: Class, en: Endian, shoff: u64, n: usize) -> (r: Result<
    Vec<SectionHeader>,
    ElfError,
>)
    ensures
        match read_raw_sections(input@, class, en, shoff as int, n as int) {
            Ok(raw) => r matches Ok(v) && v@.len() == raw.len() && (forall|k: int|
                0 <= k < raw.len() ==> v@[k] == (#[trigger] raw[k]).0),
            Err(e) => r matches Err(e2) && e == e2,
        },
{
    let len64: u64 = input.len() as u64;
    let sreclen: usize = match class {
        Class::Class32 => 40,
        Class::Class64 => 64,
    };
    let mut hdrs: Vec<SectionHeader> = Vec::new();
    let mut pos: u64 = shoff;
    let mut i: usize = 0;
    while i < n
        invariant
            i <= n,
            pos == shoff + i as int * shdr_len(class),
            i > 0 ==> pos <= input@.len(),
            hdrs@ =~= Seq::new(
                i as nat,
                |k: int| read_shdr(input@, class, en, shoff + k * shdr_len(class)),
            ),
            forall|k: int|
                0 <= k < i as int ==> sect_body_ok(
                    input@,
                    #[trigger] read_shdr(input@, class, en, shoff + k * shdr_len(class)),
                ),
        decreases n - i,
    {
        if (sreclen as u64) > len64 || pos > len64 - (sreclen as u64) {
            proof {
                assert((i as int + 1) * shdr_len(class) <= n as int * shdr_len(class))
                    by (nonlinear_arith)
                    requires
                        i as int + 1 <= n as int,
                        shdr_len(class) >= 0,
                ;
                assert(shoff + n as int * shdr_len(class) > input@.len());
            }
            return Err(ElfError::Truncated);
        }
        let sh_name = match read_u32(input, &mut pos, en) {
            Ok(v) => v,
            Err(e) => {
                return Err(e);
            },
        };
        let sh_type = match read_u32(input, &mut pos, en) {
            Ok(v) => v,
            Err(e) => {
                return Err(e);
            },
        };
        let sh_flags = match read_class(input, &mut pos, class, en) {
            Ok(v) => v,
            Err(e) => {
                return Err(e);
            },
        };
        let sh_addr = match read_class(input, &mut pos, class, en) {
            Ok(v) => v,
            Err(e) => {
                return Err(e);
            },
        };
        let sh_offset = match read_class(input, &mut pos, class, en) {
            Ok(v) => v,
            Err(e) => {
                return Err(e);
            },
        };
        let sh_size = match read_class(input, &mut pos, class, en) {
            Ok(v) => v,
            Err(e) => {
                return Err(e);
            },
        };
        let sh_link = match read_u32(input, &mut pos, en) {
            Ok(v) => v,
            Err(e) => {
                return Err(e);
            },
        };
        let sh_info = match read_u32(input, &mut pos, en) {
            Ok(v) => v,
            Err(e) => {
                return Err(e);
            },
        };
        let sh_addralign = match read_class(input, &mut pos, class, en) {
            Ok(v) => v,
            Err(e) => {
                return Err(e);
            },
        };
        let sh_entsize = match read_class(input, &mut pos, class, en) {
            Ok(v) => v,
            Err(e) => {
                return Err(e);
            },
        };
        let sh = SectionHeader {
            sh_name,
            sh_type,
            sh_flags,
            sh_addr,
            sh_offset,
            sh_size,
            sh_link,
            sh_info,
            sh_addralign,
            sh_entsize,
        };
        proof {
            assert(sh == read_shdr(input@, class, en, shoff + i as int * shdr_len(class)));
        }
        if sh.sh_size > len64 || sh.sh_offset > len64 - sh.sh_size {
            proof {
                assert(!sect_body_ok(input@, sh));
            }
            return Err(ElfError::Truncated);
        }
        hdrs.push(sh);
        i = i + 1;
    }
    Ok(hdrs)
}

/// Resolves every section's name out of the section-name string table and
/// keys the section table by the resolved names, rereading each body out of
/// the image.
#[verifier::loop_isolation(false)]
#[verifier::rlimit(100)]
#[verifier::spinoff_prover]
fn resolve_sections_exec(
    input: &Vec<u8>,
    hdrs: &Vec<SectionHeader>,
    str_off: u64,
    Ghost(raw): Ghost<Seq<(SectionHeader, Seq<u8>)>>,
) -> (r: Result<indexmap::IndexMap<String, crate::elf::Section>, ElfError>)
    requires
        raw.len() == hdrs@.len(),
        forall|k: int| 0 <= k < raw.len() ==> hdrs@[k] == (#[trigger] raw[k]).0,
        forall|k: int|
            0 <= k < raw.len() ==> (#[trigger] raw[k]).1 == sect_body(input@, raw[k].0)
                && sect_body_ok(input@, raw[k].0),
    ensures
        match resolve_sections(input@, raw, str_off as int) {
            Ok(es) => r matches Ok(m) && section_entries(m) == es,
            Err(e) => r matches Err(e2) && e == e2,
        },
{
    let len64: u64 = input.len() as u64;
    let n = hdrs.len();
    let ghost spairs = Seq::new(
        raw.len(),
        |k: int|
            (
                name_at(input@, str_off as int, raw[k].0.sh_name as int),
                SectView { header: raw[k].0, body: raw[k].1 },
            ),
    );
    let mut smap = sect_map_new();
    let mut i: usize = 0;
    while i < n
        invariant
            i <= n,
            section_entries(smap) == insert_named(
                Seq::<(Seq<char>, SectView)>::empty(),
                spairs.subrange(0, i as int),
            ),
            forall|k: int|
                0 <= k < i as int ==> name_ok(input@, str_off + (#[trigger] raw[k]).0.sh_name),
        decreases n - i,
    {
        let sh = hdrs[i];
        if str_off > u64::MAX - (sh.sh_name as u64) {
            proof {
                assert(!name_ok(input@, str_off + raw[i as int].0.sh_name));
            }
            return Err(ElfError::Truncated);
        }
        let name_off: u64 = str_off + (sh.sh_name as u64);
        if name_off > len64 {
            proof {
                assert(!name_ok(input@, str_off + raw[i as int].0.sh_name));
            }
            return Err(ElfError::Truncated);
        }
        let mut npos: u64 = name_off;
        let name = match read_cstr(input, &mut npos) {
            Ok(nm) => nm,
            Err(er) => {
                proof {
                    lemma_find_nul(input@, name_off as int);
                    assert(!name_ok(input@, str_off + raw[i as int].0.sh_name));
                }
                return Err(er);
            },
        };
        proof {
            assert(sh == raw[i as int].0);
            assert(sect_body_ok(input@, sh));
        }
        let mut bpos: u64 = sh.sh_offset;
        let body = match read_bytes(input, &mut bpos, sh.sh_size as usize) {
            Ok(b) => b,
            Err(er) => {
                proof {
                    assert(false);
                }
                return Err(er);
            },
        };
        proof {
            lemma_find_nul(input@, name_off as int);
            assert(name_ok(input@, str_off + raw[i as int].0.sh_name));
            assert(name@ == spairs[i as int].0);
            assert(body@ == raw[i as int].1);
            assert(spairs.subrange(0, i as int + 1).drop_last() =~= spairs.subrange(0, i as int));
            assert(spairs.subrange(0, i as int + 1).last() == spairs[i as int]);
        }
        if !name.as_str().is_empty() {
            sect_map_insert(&mut smap, name, crate::elf::Section { header: sh, body });
        }
        i = i + 1;
    }
    proof {
        assert(spairs.subrange(0, n as int) =~= spairs);
        assert(resolve_sections(input@, raw, str_off as int) is Ok);
    }
    Ok(smap)
}

impl Elf {
    /// Parses the bytes of an ELF image into an object model: the header is
    /// validated, program headers, sections, section names, symbols and
    /// dynamic symbols are decoded, function bodies are copied out, and the
    /// layout engine is run once to normalize table bookkeeping before the
    /// model is returned.
    #[verifier::loop_isolation(false)]
    #[verifier::rlimit(100)]
    #[verifier::spinoff_prover]
    pub fn read(input: &Vec<u8>) -> (r: Result<Elf, ElfError>)
        ensures
            match read_view(input@) {
                Err(e) => r matches Err(e2) && e == e2,
                Ok(m) => match crate::layout::update_view(m) {
                    Err(e) => r matches Err(e2) && e == e2,
                    Ok(m2) => r matches Ok(elf) && elf@ == m2,
                },
            },
    {
        let header = match read_header_exec(input) {
            Ok(h) => h,
            Err(e) => {
                return Err(e);
            },
        };
        let class = header.ei_class;
        let en = header.ei_data;
        let ghost h = read_header(input@)->Ok_0;

        let programs = match read_phdrs_exec(input, class, en, header.e_phoff, header.e_phnum as usize) {
            Ok(v) => v,
            Err(e) => {
                return Err(e);
            },
        };

        let hdrs = match read_shdrs_exec(input, class, en, header.e_shoff, header.e_shnum as usize) {
            Ok(v) => v,
            Err(e) => {
                return Err(e);
            },
        };
        let ghost raw = read_raw_sections(input@, class, en, h.shoff as int, h.shnum as int)->Ok_0;

        if header.e_shstrndx as usize >= hdrs.len() {
            return Err(ElfError::MissingSection);
        }
        let str_off: u64 = hdrs[header.e_shstrndx as usize].sh_offset;
        let smap = match resolve_sections_exec(input, &hdrs, str_off, Ghost(raw)) {
            Ok(m) => m,
            Err(e) => {
                return Err(e);
            },
        };
        let ghost sections = resolve_sections(
            input@,
            raw,
            raw[h.shstrndx as int].0.sh_offset as int,
        )->Ok_0;

        let key_symtab = String::from_str(".symtab");
        let symtab_i = match sect_map_index_of(&smap, &key_symtab) {
            Some(idx) => idx,
            None => {
                return Err(ElfError::MissingSection);
            },
        };
        proof {
            crate::omap::lemma_find_key(section_entries(smap), ".symtab"@);
        }
        let symtab_h = sect_map_at(&smap, symtab_i).1.header;
        if symtab_h.sh_entsize == 0 {
            return Err(ElfError::BadSymbolEntrySize);
        }
        let key_strtab = String::from_str(".strtab");
        let strtab_i = match sect_map_index_of(&smap, &key_strtab) {
            Some(idx) => idx,
            None => {
                return Err(ElfError::MissingSection);
            },
        };
        proof {
            crate::omap::lemma_find_key(section_entries(smap), ".strtab"@);
        }
        let strtab_h = sect_map_at(&smap, strtab_i).1.header;
        let symbols = match read_symbol_table(input, class, en, symtab_h, strtab_h) {
            Ok(m) => m,
            Err(e) => {
                return Err(e);
            },
        };

        let key_dynsym = String::from_str(".dynsym");
        let dynsym_i = match sect_map_index_of(&smap, &key_dynsym) {
            Some(idx) => idx,
            None => {
                return Err(ElfError::MissingSection);
            },
        };
        proof {
            crate::omap::lemma_find_key(section_entries(smap), ".dynsym"@);
        }
        let dynsym_h = sect_map_at(&smap, dynsym_i).1.header;
        if dynsym_h.sh_entsize == 0 {
            return Err(ElfError::BadSymbolEntrySize);
        }
        let key_dynstr = String::from_str(".dynstr");
        let dynstr_i = match sect_map_index_of(&smap, &key_dynstr) {
            Some(idx) => idx,
            None => {
                return Err(ElfError::MissingSection);
            },
        };
        proof {
            crate::omap::lemma_find_key(section_entries(smap), ".dynstr"@);
        }
        let dynstr_h = sect_map_at(&smap, dynstr_i).1.header;
        let dynamic_symbols = match read_symbol_table(input, class, en, dynsym_h, dynstr_h) {
            Ok(m) => m,
            Err(e) => {
                return Err(e);
            },
        };

        // Normalize table bookkeeping once before returning.
        let mut result = Elf { header, programs, sections: smap, symbols, dynamic_symbols };
        proof {
            assert(result@ =~= read_view(input@)->Ok_0);
        }
        match result.update() {
            Ok(_) => Ok(result),
            Err(e) => Err(e),
        }
    }
}

} // verus!
