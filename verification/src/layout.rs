//! The layout engine: recomputes all offsets, sizes and table contents from
//! the current in-memory state, making the model internally consistent
//! before every write.

use vstd::prelude::*;

use crate::elf::{
    Class, Elf, ElfError, ElfView, Endian, HeaderView, ProgramHeader, SectView, SectionHeader,
    SegmentType, SymView,
};
use crate::ext::{
    align_checked, append_class, append_word, copy_bytes, cstr_bytes, spec_align, word_bytes,
    write_cstr,
};
use crate::omap::{
    find_key, sect_map_at, sect_map_index_of, sect_map_len, sect_map_set_at, section_entries,
    sym_map_at, sym_map_len, sym_map_set_at, symbol_entries,
};
use vstd::string::StringExecFns;

verus! {

/// One serialized symbol record, in the class-dependent field order: under
/// the 32-bit class name, value, size, info, other, section index; under the
/// 64-bit class name, info, other, section index, value, size.
pub open spec fn sym_record_bytes(class: Class, en: Endian, s: SymView) -> Seq<u8> {
    match class {
        Class::Class32 => word_bytes(s.name as nat, 4, en) + word_bytes(s.value as nat, 4, en)
            + word_bytes(s.size as nat, 4, en) + seq![s.info, s.other] + word_bytes(
            s.shndx as nat,
            2,
            en,
        ),
        Class::Class64 => word_bytes(s.name as nat, 4, en) + seq![s.info, s.other] + word_bytes(
            s.shndx as nat,
            2,
            en,
        ) + word_bytes(s.value as nat, 8, en) + word_bytes(s.size as nat, 8, en),
    }
}

/// Width of one serialized symbol record under a class.
pub open spec fn sym_record_len(class: Class) -> nat {
    match class {
        Class::Class32 => 16,
        Class::Class64 => 24,
    }
}

/// The serialized symbol table: one record per entry, in table order.
pub open spec fn symtab_bytes(class: Class, en: Endian, syms: Seq<(Seq<char>, SymView)>) -> Seq<u8>
    decreases syms.len(),
{
    if syms.len() == 0 {
        Seq::empty()
    } else {
        symtab_bytes(class, en, syms.drop_last()) + sym_record_bytes(class, en, syms.last().1)
    }
}

/// The names of a table's entries, in order.
pub open spec fn entry_names<V>(s: Seq<(Seq<char>, V)>) -> Seq<Seq<char>> {
    s.map(|i: int, p: (Seq<char>, V)| p.0)
}

/// Offset of the i-th name inside a string table: a leading NUL byte, then
/// each earlier name followed by its own NUL terminator.
pub open spec fn strtab_off(names: Seq<Seq<char>>, i: int) -> int
    decreases i,
{
    if i <= 0 {
        1
    } else {
        strtab_off(names, i - 1) + names[i - 1].len() + 1
    }
}

/// The serialized string table: a leading NUL byte followed by each name +
/// NUL, in order.
pub open spec fn strtab_bytes(names: Seq<Seq<char>>) -> Seq<u8>
    decreases names.len(),
{
    if names.len() == 0 {
        seq![0u8]
    } else {
        strtab_bytes(names.drop_last()) + cstr_bytes(names.last())
    }
}

/// Every name's offset into its string table fits the 32-bit name field.
pub open spec fn name_offsets_fit(names: Seq<Seq<char>>) -> bool {
    forall|i: int| 0 <= i < names.len() ==> #[trigger] strtab_off(names, i) <= u32::MAX
}

/// String-table offsets grow with the index.
pub proof fn lemma_strtab_off_monotone(names: Seq<Seq<char>>, i: int, j: int)
    requires
        0 <= i <= j,
    ensures
        strtab_off(names, i) <= strtab_off(names, j),
        1 <= strtab_off(names, i),
    decreases j,
{
    if j > 0 {
        if i <= j - 1 {
            lemma_strtab_off_monotone(names, i, j - 1);
        } else {
            lemma_strtab_off_monotone(names, i - 1, j - 1);
        }
    }
}

/// The string table is as long as the offset just past its last name.
pub proof fn lemma_strtab_bytes_len(names: Seq<Seq<char>>)
    ensures
        strtab_bytes(names).len() == strtab_off(names, names.len() as int),
    decreases names.len(),
{
    if names.len() > 0 {
        lemma_strtab_bytes_len(names.drop_last());
        assert(strtab_off(names.drop_last(), names.len() - 1) == strtab_off(
            names,
            names.len() - 1,
        )) by {
            lemma_strtab_off_agrees(names.drop_last(), names, names.len() - 1);
        }
    }
}

/// An offset only depends on the names before it.
pub proof fn lemma_strtab_off_agrees(a: Seq<Seq<char>>, b: Seq<Seq<char>>, i: int)
    requires
        forall|k: int| 0 <= k < i ==> a[k] == b[k],
    ensures
        strtab_off(a, i) == strtab_off(b, i),
    decreases i,
{
    if i > 0 {
        lemma_strtab_off_agrees(a, b, i - 1);
    }
}

/// The body the section at index `i` has after the three tables are
/// re-serialized from canonical state: the symbol table, its string table
/// and the section-name string table get fresh bytes, every other section
/// keeps its own.
pub open spec fn rebuilt_body(m: ElfView, i: int) -> Seq<u8> {
    if i == find_key(m.sections, ".symtab"@) {
        symtab_bytes(m.header.class, m.header.data, m.symbols)
    } else if i == find_key(m.sections, ".strtab"@) {
        strtab_bytes(entry_names(m.symbols))
    } else if i == find_key(m.sections, ".shstrtab"@) {
        strtab_bytes(entry_names(m.sections))
    } else {
        m.sections[i].1.body
    }
}

/// The size field of the section at index `i` after the table rebuilds: the
/// three re-serialized tables are sized to their fresh bytes, every other
/// section keeps its declared size.
pub open spec fn rebuilt_size(m: ElfView, i: int) -> u64 {
    if i == find_key(m.sections, ".symtab"@) || i == find_key(m.sections, ".strtab"@) || i
        == find_key(m.sections, ".shstrtab"@) {
        rebuilt_body(m, i).len() as u64
    } else {
        m.sections[i].1.header.sh_size
    }
}

/// Sections after name-offset assignment, table re-serialization and size
/// updates, but before the file-offset walk.
pub open spec fn resized_sections(m: ElfView) -> Seq<(Seq<char>, SectView)> {
    Seq::new(
        m.sections.len(),
        |i: int|
            (
                m.sections[i].0,
                SectView {
                    header: SectionHeader {
                        sh_name: strtab_off(entry_names(m.sections), i) as u32,
                        sh_size: rebuilt_size(m, i),
                        ..m.sections[i].1.header
                    },
                    body: rebuilt_body(m, i),
                },
            ),
    )
}

/// Base of the section area: the file header followed by the program-header
/// table.
pub open spec fn layout_base(m: ElfView) -> int {
    m.header.ehsize + m.header.phentsize * m.programs.len()
}

/// The running file cursor after the first `i` sections are laid out: each
/// section is placed at the cursor rounded up to its own alignment, and the
/// cursor then advances by the section's body length.
pub open spec fn off_after(entries: Seq<(Seq<char>, SectView)>, base: int, i: int) -> int
    decreases i,
{
    if i <= 0 {
        base
    } else {
        spec_align(off_after(entries, base, i - 1), entries[i - 1].1.header.sh_addralign as int)
            + entries[i - 1].1.body.len()
    }
}

/// The file offset assigned to the section at index `i`.
pub open spec fn sect_off(entries: Seq<(Seq<char>, SectView)>, base: int, i: int) -> int {
    spec_align(off_after(entries, base, i), entries[i].1.header.sh_addralign as int)
}

/// The whole section walk, and the section-header table offset after it,
/// stay within the 64-bit offset fields.
pub open spec fn layout_fits(entries: Seq<(Seq<char>, SectView)>, base: int) -> bool {
    &&& forall|i: int|
        0 <= i < entries.len() ==> #[trigger] sect_off(entries, base, i) <= u64::MAX && off_after(
            entries,
            base,
            i + 1,
        ) <= u64::MAX
    &&& spec_align(off_after(entries, base, entries.len() as int), 16) <= u64::MAX
}

/// The file cursor never moves backwards during the walk.
pub proof fn lemma_off_after_monotone(
    entries: Seq<(Seq<char>, SectView)>,
    base: int,
    i: int,
    j: int,
)
    requires
        0 <= base,
        0 <= i <= j,
    ensures
        base <= off_after(entries, base, i) <= off_after(entries, base, j),
    decreases j,
{
    if j > 0 {
        if i <= j - 1 {
            lemma_off_after_monotone(entries, base, i, j - 1);
            let prev = off_after(entries, base, j - 1);
            crate::ext::lemma_align_nonneg(prev, entries[j - 1].1.header.sh_addralign as int);
        } else {
            lemma_off_after_monotone(entries, base, i - 1, j - 1);
            let prev = off_after(entries, base, j - 1);
            crate::ext::lemma_align_nonneg(prev, entries[j - 1].1.header.sh_addralign as int);
        }
    }
}

/// Sections after the file-offset walk.
pub open spec fn laid_out_sections(m: ElfView) -> Seq<(Seq<char>, SectView)> {
    let rs = resized_sections(m);
    let base = layout_base(m);
    Seq::new(
        rs.len(),
        |i: int|
            (
                rs[i].0,
                SectView {
                    header: SectionHeader {
                        sh_offset: sect_off(rs, base, i) as u64,
                        ..rs[i].1.header
                    },
                    ..rs[i].1
                },
            ),
    )
}

/// The byte shift that newly appended program-header entries introduce:
/// entries are inserted at the top of the table, pushing the payloads that
/// follow it later in the file.
pub open spec fn phdr_delta(m: ElfView) -> int {
    m.header.phentsize * (m.programs.len() - m.header.phnum)
}

/// A program header after the segment fixups: a PHDR-type segment's file and
/// memory size are reset to the table's true size; an INTERP-type segment's
/// payload offset shifts by the table's growth; everything else is kept.
pub open spec fn fix_program(p: ProgramHeader, phnum: int, phentsize: u16, delta: int) -> ProgramHeader {
    if p.p_type == SegmentType::Phdr {
        ProgramHeader {
            p_filesz: (phnum * phentsize) as u64,
            p_memsz: (phnum * phentsize) as u64,
            ..p
        }
    } else if p.p_type == SegmentType::Interp {
        ProgramHeader { p_offset: (p.p_offset + delta) as u64, ..p }
    } else {
        p
    }
}

/// Every INTERP segment's shifted offset stays within its 64-bit field.
pub open spec fn interp_offsets_fit(programs: Seq<ProgramHeader>, delta: int) -> bool {
    forall|i: int|
        0 <= i < programs.len() && programs[i].p_type == SegmentType::Interp ==> 0 <= (
        #[trigger] programs[i]).p_offset + delta <= u64::MAX
}

/// The layout engine's result on a model: the normalized model, or the error
/// a normalization pass stops with. Steps are strictly ordered because each
/// depends on the previous: counts first, then the symbol table, the two
/// string tables, the section file-offset walk, and the segment fixups.
pub open spec fn update_view(m: ElfView) -> Result<ElfView, ElfError> {
    let symtab_i = find_key(m.sections, ".symtab"@);
    let strtab_i = find_key(m.sections, ".strtab"@);
    let shstr_i = find_key(m.sections, ".shstrtab"@);
    let rs = resized_sections(m);
    let base = layout_base(m);
    let delta = phdr_delta(m);
    if m.programs.len() > 0xFFFF {
        Err(ElfError::TooLarge)
    } else if symtab_i < 0 {
        Err(ElfError::MissingSection)
    } else if !name_offsets_fit(entry_names(m.symbols)) {
        Err(ElfError::TooLarge)
    } else if strtab_i < 0 {
        Err(ElfError::MissingSection)
    } else if !name_offsets_fit(entry_names(m.sections)) {
        Err(ElfError::TooLarge)
    } else if shstr_i < 0 {
        Err(ElfError::MissingSection)
    } else if shstr_i > 0xFFFF || m.sections.len() > 0xFFFF {
        Err(ElfError::TooLarge)
    } else if !layout_fits(rs, base) {
        Err(ElfError::TooLarge)
    } else if !interp_offsets_fit(m.programs, delta) {
        Err(ElfError::TooLarge)
    } else {
        Ok(
            ElfView {
                header: HeaderView {
                    phnum: m.programs.len() as u16,
                    shnum: m.sections.len() as u16,
                    shstrndx: shstr_i as u16,
                    shoff: spec_align(off_after(rs, base, rs.len() as int), 16) as u64,
                    ..m.header
                },
                programs: Seq::new(
                    m.programs.len(),
                    |i: int|
                        fix_program(
                            m.programs[i],
                            m.programs.len() as int,
                            m.header.phentsize,
                            delta,
                        ),
                ),
                sections: laid_out_sections(m),
                symbols: Seq::new(
                    m.symbols.len(),
                    |i: int|
                        (
                            m.symbols[i].0,
                            SymView {
                                name: strtab_off(entry_names(m.symbols), i) as u32,
                                ..m.symbols[i].1
                            },
                        ),
                ),
                dynamic_symbols: m.dynamic_symbols,
            },
        )
    }
}

impl Elf {
    /// Normalizes the model before a write: the program and section counts,
    /// the serialized symbol table, both string tables with their recorded
    /// name offsets, the section file-offset walk, the section-header table
    /// offset, and the PHDR/INTERP segment fixups. On an error the model is
    /// left untouched.
    #[verifier::loop_isolation(false)]
    #[verifier::rlimit(100)]
    #[verifier::spinoff_prover]
    pub fn update(&mut self) -> (r: Result<(), ElfError>)
        ensures
            match update_view(old(self)@) {
                Ok(m) => r == Ok::<(), ElfError>(()) && final(self)@ == m,
                Err(e) => r == Err::<(), ElfError>(e) && final(self)@ == old(self)@,
            },
    {
        let ghost m0 = self@;
        let ghost names_s = entry_names(m0.symbols);
        let ghost names_c = entry_names(m0.sections);

        // Program count.
        let n_prog = self.programs.len();
        if n_prog > 0xFFFF {
            return Err(ElfError::TooLarge);
        }
        let key_symtab = String::from_str(".symtab");
        let symtab_i = match crate::omap::sect_map_index_of(&self.sections, &key_symtab) {
            Some(i) => i,
            None => {
                return Err(ElfError::MissingSection);
            },
        };

        // Serialize the symbol table from the live symbol mapping.
        let nsyms = sym_map_len(&self.symbols);
        let class = self.header.ei_class;
        let en = self.header.ei_data;
        let mut symtab_body: Vec<u8> = Vec::new();
        let mut i: usize = 0;
        while i < nsyms
            invariant
                i <= nsyms,
                symtab_body@ == symtab_bytes(class, en, m0.symbols.subrange(0, i as int)),
            decreases nsyms - i,
        {
            let (_sname, sym) = sym_map_at(&self.symbols, i);
            match class {
                Class::Class32 => {
                    append_word(&mut symtab_body, sym.sym_name as u64, 4, en);
                    append_class(&mut symtab_body, sym.sym_value, Class::Class32, en);
                    append_class(&mut symtab_body, sym.sym_size, Class::Class32, en);
                    symtab_body.push(sym.sym_info);
                    symtab_body.push(sym.sym_other);
                    append_word(&mut symtab_body, sym.sym_shndx as u64, 2, en);
                },
                Class::Class64 => {
                    append_word(&mut symtab_body, sym.sym_name as u64, 4, en);
                    symtab_body.push(sym.sym_info);
                    symtab_body.push(sym.sym_other);
                    append_word(&mut symtab_body, sym.sym_shndx as u64, 2, en);
                    append_class(&mut symtab_body, sym.sym_value, Class::Class64, en);
                    append_class(&mut symtab_body, sym.sym_size, Class::Class64, en);
                },
            }
            proof {
                let pre = m0.symbols.subrange(0, i as int);
                let post = m0.symbols.subrange(0, i as int + 1);
                assert(post.drop_last() =~= pre);
                assert(post.last() == m0.symbols[i as int]);
                assert(symtab_body@ =~= symtab_bytes(class, en, pre) + sym_record_bytes(
                    class,
                    en,
                    m0.symbols[i as int].1,
                ));
            }
            i = i + 1;
        }
        proof {
            assert(m0.symbols.subrange(0, nsyms as int) =~= m0.symbols);
        }

        // Symbol-name string table and each symbol's name offset.
        let mut sym_offs: Vec<u32> = Vec::new();
        let mut strtab_body: Vec<u8> = Vec::new();
        strtab_body.push(0);
        let mut i: usize = 0;
        while i < nsyms
            invariant
                i <= nsyms,
                sym_offs@.len() == i as int,
                forall|k: int| 0 <= k < i as int ==> sym_offs@[k] == strtab_off(names_s, k),
                strtab_body@ == strtab_bytes(names_s.subrange(0, i as int)),
            decreases nsyms - i,
        {
            proof {
                lemma_strtab_bytes_len(names_s.subrange(0, i as int));
                lemma_strtab_off_agrees(names_s.subrange(0, i as int), names_s, i as int);
            }
            if strtab_body.len() as u64 > 0xFFFFFFFFu64 {
                proof {
                    assert(strtab_off(names_s, i as int) > u32::MAX);
                    assert(!name_offsets_fit(names_s));
                }
                return Err(ElfError::TooLarge);
            }
            sym_offs.push(strtab_body.len() as u32);
            let (sname, _sym) = sym_map_at(&self.symbols, i);
            write_cstr(&mut strtab_body, &sname);
            proof {
                assert(names_s[i as int] == m0.symbols[i as int].0);
                let pre = names_s.subrange(0, i as int);
                let post = names_s.subrange(0, i as int + 1);
                assert(post.drop_last() =~= pre);
                assert(post.last() == names_s[i as int]);
                assert(strtab_body@ =~= strtab_bytes(post));
            }
            i = i + 1;
        }
        proof {
            assert(names_s.subrange(0, nsyms as int) =~= names_s);
            assert forall|k: int| 0 <= k < names_s.len() implies #[trigger] strtab_off(names_s, k)
                <= u32::MAX by {
                assert(sym_offs@[k] == strtab_off(names_s, k));
            }
            assert(name_offsets_fit(names_s));
        }
        let key_strtab = String::from_str(".strtab");
        let strtab_i = match crate::omap::sect_map_index_of(&self.sections, &key_strtab) {
            Some(i) => i,
            None => {
                return Err(ElfError::MissingSection);
            },
        };

        // Section-name string table and each section's name offset.
        let n_sect = sect_map_len(&self.sections);
        let mut sect_name_offs: Vec<u32> = Vec::new();
        let mut shstr_body: Vec<u8> = Vec::new();
        shstr_body.push(0);
        let mut i: usize = 0;
        while i < n_sect
            invariant
                i <= n_sect,
                sect_name_offs@.len() == i as int,
                forall|k: int| 0 <= k < i as int ==> sect_name_offs@[k] == strtab_off(names_c, k),
                shstr_body@ == strtab_bytes(names_c.subrange(0, i as int)),
            decreases n_sect - i,
        {
            proof {
                lemma_strtab_bytes_len(names_c.subrange(0, i as int));
                lemma_strtab_off_agrees(names_c.subrange(0, i as int), names_c, i as int);
            }
            if shstr_body.len() as u64 > 0xFFFFFFFFu64 {
                proof {
                    assert(strtab_off(names_c, i as int) > u32::MAX);
                    assert(!name_offsets_fit(names_c));
                }
                return Err(ElfError::TooLarge);
            }
            sect_name_offs.push(shstr_body.len() as u32);
            let (cname, _sect) = sect_map_at(&self.sections, i);
            write_cstr(&mut shstr_body, &cname);
            proof {
                assert(names_c[i as int] == m0.sections[i as int].0);
                let pre = names_c.subrange(0, i as int);
                let post = names_c.subrange(0, i as int + 1);
                assert(post.drop_last() =~= pre);
                assert(post.last() == names_c[i as int]);
                assert(shstr_body@ =~= strtab_bytes(post));
            }
            i = i + 1;
        }
        proof {
            assert(names_c.subrange(0, n_sect as int) =~= names_c);
            assert forall|k: int| 0 <= k < names_c.len() implies #[trigger] strtab_off(names_c, k)
                <= u32::MAX by {
                assert(sect_name_offs@[k] == strtab_off(names_c, k));
            }
            assert(name_offsets_fit(names_c));
        }
        let key_shstrtab = String::from_str(".shstrtab");
        let shstr_i = match crate::omap::sect_map_index_of(&self.sections, &key_shstrtab) {
            Some(i) => i,
            None => {
                return Err(ElfError::MissingSection);
            },
        };
        if shstr_i > 0xFFFF || n_sect > 0xFFFF {
            return Err(ElfError::TooLarge);
        }

        // Section file-offset walk.
        let phent_now = self.header.e_phentsize;
        proof {
            assert((phent_now as u64) * (n_prog as u64) <= 0xFFFFu64 * 0xFFFFu64)
                by (nonlinear_arith)
                requires
                    phent_now <= 0xFFFFu16,
                    n_prog <= 0xFFFF,
            ;
        }
        let base: u64 = self.header.e_ehsize as u64 + (phent_now as u64) * (n_prog as u64);
        let ghost rs = resized_sections(m0);
        proof {
            assert(rs.len() == n_sect);
            assert(base as int == layout_base(m0));
        }
        let mut sect_offs: Vec<u64> = Vec::new();
        let mut pos: u64 = base;
        let mut i: usize = 0;
        while i < n_sect
            invariant
                i <= n_sect,
                pos == off_after(rs, base as int, i as int),
                sect_offs@.len() == i as int,
                forall|k: int| 0 <= k < i as int ==> sect_offs@[k] == sect_off(rs, base as int, k),
                forall|k: int|
                    0 <= k < i as int ==> #[trigger] off_after(rs, base as int, k + 1) <= u64::MAX,
            decreases n_sect - i,
        {
            let (_cn, sect) = sect_map_at(&self.sections, i);
            proof {
                assert(rs[i as int].1.header.sh_addralign == sect.header.sh_addralign);
            }
            let pos2 = match align_checked(pos, sect.header.sh_addralign) {
                Some(p) => p,
                None => {
                    proof {
                        assert(sect_off(rs, base as int, i as int) > u64::MAX);
                        assert(!layout_fits(rs, base as int));
                    }
                    return Err(ElfError::TooLarge);
                },
            };
            sect_offs.push(pos2);
            let blen_u: usize = if i == symtab_i {
                symtab_body.len()
            } else if i == strtab_i {
                strtab_body.len()
            } else if i == shstr_i {
                shstr_body.len()
            } else {
                sect.body.len()
            };
            proof {
                assert(rs[i as int].1.body == rebuilt_body(m0, i as int));
                assert(blen_u as nat == rebuilt_body(m0, i as int).len());
            }
            if pos2 > u64::MAX - (blen_u as u64) {
                proof {
                    assert(off_after(rs, base as int, i as int + 1) > u64::MAX);
                    assert(!layout_fits(rs, base as int));
                }
                return Err(ElfError::TooLarge);
            }
            pos = pos2 + (blen_u as u64);
            proof {
                assert(pos == off_after(rs, base as int, i as int + 1));
            }
            i = i + 1;
        }
        let shoff = match align_checked(pos, 16) {
            Some(v) => v,
            None => {
                proof {
                    assert(!layout_fits(rs, base as int));
                }
                return Err(ElfError::TooLarge);
            },
        };
        proof {
            assert(layout_fits(rs, base as int));
        }

        // Segment fixups.
        let old_phnum = self.header.e_phnum;
        let phentsize = self.header.e_phentsize;
        let growing = n_prog >= old_phnum as usize;
        proof {
            assert((phentsize as int) * ((n_prog - old_phnum) as int) <= 0xFFFFu64 * 0xFFFFu64
                && (phentsize as int) * ((old_phnum - n_prog) as int) <= 0xFFFFu64 * 0xFFFFu64)
                by (nonlinear_arith)
                requires
                    phentsize <= 0xFFFFu16,
                    n_prog <= 0xFFFF,
                    old_phnum <= 0xFFFFu16,
            ;
        }
        let delta_mag: u64 = if growing {
            (phentsize as u64) * ((n_prog - old_phnum as usize) as u64)
        } else {
            (phentsize as u64) * ((old_phnum as usize - n_prog) as u64)
        };
        proof {
            if growing {
                assert(phdr_delta(m0) == delta_mag) by (nonlinear_arith)
                    requires
                        delta_mag == (phentsize as int) * ((n_prog - old_phnum) as int),
                        phdr_delta(m0) == (phentsize as int) * (n_prog - old_phnum),
                        n_prog >= old_phnum,
                ;
            } else {
                assert(phdr_delta(m0) == -(delta_mag as int)) by (nonlinear_arith)
                    requires
                        delta_mag == (phentsize as int) * ((old_phnum - n_prog) as int),
                        phdr_delta(m0) == (phentsize as int) * (n_prog - old_phnum),
                        n_prog < old_phnum,
                ;
            }
        }
        proof {
            assert((n_prog as u64) * (phentsize as u64) <= 0xFFFFu64 * 0xFFFFu64)
                by (nonlinear_arith)
                requires
                    phentsize <= 0xFFFFu16,
                    n_prog <= 0xFFFF,
            ;
        }
        let sz: u64 = (n_prog as u64) * (phentsize as u64);
        let mut new_programs: Vec<ProgramHeader> = Vec::new();
        let mut i: usize = 0;
        while i < n_prog
            invariant
                i <= n_prog,
                new_programs@.len() == i as int,
                forall|k: int|
                    0 <= k < i as int ==> new_programs@[k] == fix_program(
                        m0.programs[k],
                        n_prog as int,
                        phentsize,
                        phdr_delta(m0),
                    ),
                forall|k: int|
                    0 <= k < i as int && m0.programs[k].p_type == SegmentType::Interp ==> 0 <= (
                    #[trigger] m0.programs[k]).p_offset + phdr_delta(m0) <= u64::MAX,
            decreases n_prog - i,
        {
            let p = self.programs[i];
            let np = match p.p_type {
                SegmentType::Phdr => ProgramHeader { p_filesz: sz, p_memsz: sz, ..p },
                SegmentType::Interp => {
                    if growing {
                        if p.p_offset > u64::MAX - delta_mag {
                            proof {
                                assert(!interp_offsets_fit(m0.programs, phdr_delta(m0)));
                            }
                            return Err(ElfError::TooLarge);
                        }
                        ProgramHeader { p_offset: p.p_offset + delta_mag, ..p }
                    } else {
                        if p.p_offset < delta_mag {
                            proof {
                                assert(!interp_offsets_fit(m0.programs, phdr_delta(m0)));
                            }
                            return Err(ElfError::TooLarge);
                        }
                        ProgramHeader { p_offset: p.p_offset - delta_mag, ..p }
                    }
                },
                _ => p,
            };
            new_programs.push(np);
            i = i + 1;
        }
        proof {
            assert(interp_offsets_fit(m0.programs, phdr_delta(m0)));
        }

        // All checks passed: mutate the model.
        self.header.e_phnum = n_prog as u16;
        self.header.e_shnum = n_sect as u16;
        self.header.e_shstrndx = shstr_i as u16;
        self.header.e_shoff = shoff;
        self.programs = new_programs;

        let ghost header1 = self.header@;
        let ghost programs1 = self.programs@;

        let mut i: usize = 0;
        while i < nsyms
            invariant
                i <= nsyms,
                self.header@ == header1,
                self.programs@ == programs1,
                section_entries(self.sections) == m0.sections,
                symbol_entries(self.dynamic_symbols) == m0.dynamic_symbols,
                symbol_entries(self.symbols) == Seq::new(
                    nsyms as nat,
                    |k: int|
                        if k < i as int {
                            (
                                m0.symbols[k].0,
                                SymView { name: strtab_off(names_s, k) as u32, ..m0.symbols[k].1 },
                            )
                        } else {
                            m0.symbols[k]
                        },
                ),
            decreases nsyms - i,
        {
            let (_sn, mut sym) = sym_map_at(&self.symbols, i);
            sym.sym_name = sym_offs[i];
            sym_map_set_at(&mut self.symbols, i, sym);
            proof {
                assert(symbol_entries(self.symbols) =~= Seq::new(
                    nsyms as nat,
                    |k: int|
                        if k < i as int + 1 {
                            (
                                m0.symbols[k].0,
                                SymView { name: strtab_off(names_s, k) as u32, ..m0.symbols[k].1 },
                            )
                        } else {
                            m0.symbols[k]
                        },
                ));
            }
            i = i + 1;
        }

        let mut i: usize = 0;
        while i < n_sect
            invariant
                i <= n_sect,
                self.header@ == header1,
                self.programs@ == programs1,
                symbol_entries(self.dynamic_symbols) == m0.dynamic_symbols,
                symbol_entries(self.symbols) == Seq::new(
                    nsyms as nat,
                    |k: int|
                        (
                            m0.symbols[k].0,
                            SymView { name: strtab_off(names_s, k) as u32, ..m0.symbols[k].1 },
                        ),
                ),
                section_entries(self.sections) == Seq::new(
                    n_sect as nat,
                    |k: int|
                        if k < i as int {
                            laid_out_sections(m0)[k]
                        } else {
                            m0.sections[k]
                        },
                ),
            decreases n_sect - i,
        {
            let (_cn, mut sect) = sect_map_at(&self.sections, i);
            sect.header.sh_name = sect_name_offs[i];
            sect.header.sh_offset = sect_offs[i];
            if i == symtab_i {
                sect.body = copy_bytes(&symtab_body);
                sect.header.sh_size = sect.body.len() as u64;
            } else if i == strtab_i {
                sect.body = copy_bytes(&strtab_body);
                sect.header.sh_size = sect.body.len() as u64;
            } else if i == shstr_i {
                sect.body = copy_bytes(&shstr_body);
                sect.header.sh_size = sect.body.len() as u64;
            }
            proof {
                assert(sect@.body == rebuilt_body(m0, i as int));
                assert(sect@.header.sh_size == rebuilt_size(m0, i as int));
                assert(sect@ =~= laid_out_sections(m0)[i as int].1);
            }
            sect_map_set_at(&mut self.sections, i, sect);
            proof {
                assert(m0.sections[i as int].0 == laid_out_sections(m0)[i as int].0);
                assert(section_entries(self.sections) =~= Seq::new(
                    n_sect as nat,
                    |k: int|
                        if k < i as int + 1 {
                            laid_out_sections(m0)[k]
                        } else {
                            m0.sections[k]
                        },
                ));
            }
            i = i + 1;
        }

        proof {
            let target = update_view(m0)->Ok_0;
            assert(self@.header =~= target.header);
            assert(self@.programs =~= target.programs);
            assert(self@.sections =~= target.sections);
            assert(self@.symbols =~= target.symbols);
            assert(self@ =~= target);
        }
        Ok(())
    }
}

} // verus!
