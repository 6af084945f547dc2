//! The writer: serializes an object model back to a byte stream — header,
//! program headers, aligned section bodies, then section headers — always
//! after a fresh layout pass.

use vstd::prelude::*;

use crate::elf::{
    class_code, endian_code, machine_code, segment_code, spec_class_code, spec_class_size,
    spec_endian_code, spec_machine_code, spec_segment_code, Class, Elf, ElfError, ElfView, Endian,
    HeaderView, ProgramHeader, SectView, SectionHeader,
};
use crate::ext::{
    align_to, append_class, append_word, put_bytes, spec_align, store_at, word_bytes,
};
use crate::layout::update_view;
use crate::omap::{sect_map_at, sect_map_len, section_entries};

verus! {

/// The serialized fixed-size file header: the identification bytes raw, every
/// multi-byte field in the header's own byte order, class words at the
/// class's width.
pub open spec fn header_bytes(h: HeaderView) -> Seq<u8> {
    let en = h.data;
    let cs = spec_class_size(h.class);
    h.magic + seq![spec_class_code(h.class)] + seq![spec_endian_code(h.data)] + seq![
        h.ident_version,
    ] + seq![h.osabi] + seq![h.abiversion] + h.pad + word_bytes(h.e_type as nat, 2, en)
        + word_bytes(spec_machine_code(h.machine) as nat, 2, en) + word_bytes(h.version as nat, 4, en)
        + word_bytes(h.entry as nat, cs, en) + word_bytes(h.phoff as nat, cs, en) + word_bytes(
        h.shoff as nat,
        cs,
        en,
    ) + word_bytes(h.flags as nat, 4, en) + word_bytes(h.ehsize as nat, 2, en) + word_bytes(
        h.phentsize as nat,
        2,
        en,
    ) + word_bytes(h.phnum as nat, 2, en) + word_bytes(h.shentsize as nat, 2, en) + word_bytes(
        h.shnum as nat,
        2,
        en,
    ) + word_bytes(h.shstrndx as nat, 2, en)
}

/// One serialized program header, in the class-dependent field order.
pub open spec fn phdr_bytes(class: Class, en: Endian, p: ProgramHeader) -> Seq<u8> {
    let cs = spec_class_size(class);
    match class {
        Class::Class32 => word_bytes(spec_segment_code(p.p_type) as nat, 4, en) + word_bytes(
            p.p_offset as nat,
            cs,
            en,
        ) + word_bytes(p.p_vaddr as nat, cs, en) + word_bytes(p.p_paddr as nat, cs, en)
            + word_bytes(p.p_filesz as nat, cs, en) + word_bytes(p.p_memsz as nat, cs, en)
            + word_bytes(p.p_flags as nat, 4, en) + word_bytes(p.p_align as nat, cs, en),
        Class::Class64 => word_bytes(spec_segment_code(p.p_type) as nat, 4, en) + word_bytes(
            p.p_flags as nat,
            4,
            en,
        ) + word_bytes(p.p_offset as nat, cs, en) + word_bytes(p.p_vaddr as nat, cs, en)
            + word_bytes(p.p_paddr as nat, cs, en) + word_bytes(p.p_filesz as nat, cs, en)
            + word_bytes(p.p_memsz as nat, cs, en) + word_bytes(p.p_align as nat, cs, en),
    }
}

/// The serialized program-header table, in list order.
pub open spec fn phdrs_bytes(class: Class, en: Endian, ps: Seq<ProgramHeader>) -> Seq<u8>
    decreases ps.len(),
{
    if ps.len() == 0 {
        Seq::empty()
    } else {
        phdrs_bytes(class, en, ps.drop_last()) + phdr_bytes(class, en, ps.last())
    }
}

/// One serialized section header.
pub open spec fn shdr_bytes(class: Class, en: Endian, h: SectionHeader) -> Seq<u8> {
    let cs = spec_class_size(class);
    word_bytes(h.sh_name as nat, 4, en) + word_bytes(h.sh_type as nat, 4, en) + word_bytes(
        h.sh_flags as nat,
        cs,
        en,
    ) + word_bytes(h.sh_addr as nat, cs, en) + word_bytes(h.sh_offset as nat, cs, en) + word_bytes(
        h.sh_size as nat,
        cs,
        en,
    ) + word_bytes(h.sh_link as nat, 4, en) + word_bytes(h.sh_info as nat, 4, en) + word_bytes(
        h.sh_addralign as nat,
        cs,
        en,
    ) + word_bytes(h.sh_entsize as nat, cs, en)
}

/// The serialized section-header table, in table order.
pub open spec fn shdrs_bytes(class: Class, en: Endian, ss: Seq<(Seq<char>, SectView)>) -> Seq<u8>
    decreases ss.len(),
{
    if ss.len() == 0 {
        Seq::empty()
    } else {
        shdrs_bytes(class, en, ss.drop_last()) + shdr_bytes(class, en, ss.last().1.header)
    }
}

/// Section bodies written in order from `pos`, each preceded by a seek to
/// its own alignment, or the error the cursor stops with.
pub open spec fn ser_bodies(
    buf: Seq<u8>,
    pos: int,
    ss: Seq<(Seq<char>, SectView)>,
    i: int,
) -> Result<(Seq<u8>, int), ElfError>
    decreases ss.len() - i,
{
    if i < 0 || i >= ss.len() {
        Ok((buf, pos))
    } else {
        let a = spec_align(pos, ss[i].1.header.sh_addralign as int);
        if a > u64::MAX {
            Err(ElfError::TooLarge)
        } else if a + ss[i].1.body.len() > usize::MAX {
            Err(ElfError::TooLarge)
        } else {
            ser_bodies(store_at(buf, a, ss[i].1.body), a + ss[i].1.body.len(), ss, i + 1)
        }
    }
}

/// The whole serialization of a laid-out model: the header at the start of
/// the stream, the program-header table at the header's program-table
/// offset, the section bodies in order behind the table, each aligned, and
/// the section-header table at the header's section-table offset.
pub open spec fn write_bytes_view(m: ElfView) -> Result<Seq<u8>, ElfError> {
    let en = m.header.data;
    let class = m.header.class;
    let hb = header_bytes(m.header);
    let s1 = store_at(Seq::empty(), 0, hb);
    let pb = phdrs_bytes(class, en, m.programs);
    if m.header.phoff + pb.len() > usize::MAX {
        Err(ElfError::TooLarge)
    } else {
        let s2 = store_at(s1, m.header.phoff as int, pb);
        match ser_bodies(s2, m.header.phoff + pb.len(), m.sections, 0) {
            Err(e) => Err(e),
            Ok(res) => {
                let sb = shdrs_bytes(class, en, m.sections);
                if m.header.shoff + sb.len() > usize::MAX {
                    Err(ElfError::TooLarge)
                } else {
                    Ok(store_at(res.0, m.header.shoff as int, sb))
                }
            },
        }
    }
}

/// Builds the serialized fixed-size header.
#[verifier::rlimit(100)]
#[verifier::spinoff_prover]
fn build_header_bytes(h: &crate::elf::Header) -> (r: Vec<u8>)
    ensures
        r@ == header_bytes(h@),
{
    let class = h.ei_class;
    let en = h.ei_data;
    let mut hb: Vec<u8> = Vec::new();
    hb.push(h.ei_magic[0]);
    hb.push(h.ei_magic[1]);
    hb.push(h.ei_magic[2]);
    hb.push(h.ei_magic[3]);
    hb.push(class_code(class));
    hb.push(endian_code(en));
    hb.push(h.ei_version);
    hb.push(h.ei_osabi);
    hb.push(h.ei_abiversion);
    hb.push(h.ei_pad[0]);
    hb.push(h.ei_pad[1]);
    hb.push(h.ei_pad[2]);
    hb.push(h.ei_pad[3]);
    hb.push(h.ei_pad[4]);
    hb.push(h.ei_pad[5]);
    hb.push(h.ei_pad[6]);
    append_word(&mut hb, h.e_type as u64, 2, en);
    append_word(&mut hb, machine_code(h.e_machine) as u64, 2, en);
    append_word(&mut hb, h.e_version as u64, 4, en);
    append_class(&mut hb, h.e_entry, class, en);
    append_class(&mut hb, h.e_phoff, class, en);
    append_class(&mut hb, h.e_shoff, class, en);
    append_word(&mut hb, h.e_flags as u64, 4, en);
    append_word(&mut hb, h.e_ehsize as u64, 2, en);
    append_word(&mut hb, h.e_phentsize as u64, 2, en);
    append_word(&mut hb, h.e_phnum as u64, 2, en);
    append_word(&mut hb, h.e_shentsize as u64, 2, en);
    append_word(&mut hb, h.e_shnum as u64, 2, en);
    append_word(&mut hb, h.e_shstrndx as u64, 2, en);
    proof {
        assert(hb@ =~= header_bytes(h@));
    }
    hb
}

/// Builds the serialized program-header table.
#[verifier::loop_isolation(false)]
#[verifier::rlimit(100)]
#[verifier::spinoff_prover]
fn build_phdr_table(programs: &Vec<ProgramHeader>, class: Class, en: Endian) -> (r: Vec<u8>)
    ensures
        r@ == phdrs_bytes(class, en, programs@),
{
    let n_prog = programs.len();
    let mut ptab: Vec<u8> = Vec::new();
    let mut i: usize = 0;
    while i < n_prog
        invariant
            i <= n_prog,
            ptab@ == phdrs_bytes(class, en, programs@.subrange(0, i as int)),
        decreases n_prog - i,
    {
        let p = programs[i];
        match class {
            Class::Class32 => {
                append_word(&mut ptab, segment_code(p.p_type) as u64, 4, en);
                append_class(&mut ptab, p.p_offset, class, en);
                append_class(&mut ptab, p.p_vaddr, class, en);
                append_class(&mut ptab, p.p_paddr, class, en);
                append_class(&mut ptab, p.p_filesz, class, en);
                append_class(&mut ptab, p.p_memsz, class, en);
                append_word(&mut ptab, p.p_flags as u64, 4, en);
                append_class(&mut ptab, p.p_align, class, en);
            },
            Class::Class64 => {
                append_word(&mut ptab, segment_code(p.p_type) as u64, 4, en);
                append_word(&mut ptab, p.p_flags as u64, 4, en);
                append_class(&mut ptab, p.p_offset, class, en);
                append_class(&mut ptab, p.p_vaddr, class, en);
                append_class(&mut ptab, p.p_paddr, class, en);
                append_class(&mut ptab, p.p_filesz, class, en);
                append_class(&mut ptab, p.p_memsz, class, en);
                append_class(&mut ptab, p.p_align, class, en);
            },
        }
        proof {
            let pre = programs@.subrange(0, i as int);
            let post = programs@.subrange(0, i as int + 1);
            assert(post.drop_last() =~= pre);
            assert(post.last() == programs@[i as int]);
            assert(ptab@ =~= phdrs_bytes(class, en, pre) + phdr_bytes(
                class,
                en,
                programs@[i as int],
            ));
        }
        i = i + 1;
    }
    proof {
        assert(programs@.subrange(0, n_prog as int) =~= programs@);
    }
    ptab
}

/// Builds the serialized section-header table.
#[verifier::loop_isolation(false)]
#[verifier::rlimit(100)]
#[verifier::spinoff_prover]
fn build_shdr_table(
    sections: &indexmap::IndexMap<String, crate::elf::Section>,
    class: Class,
    en: Endian,
) -> (r: Vec<u8>)
    ensures
        r@ == shdrs_bytes(class, en, section_entries(*sections)),
{
    let ghost entries = section_entries(*sections);
    let n_sect = sect_map_len(sections);
    let mut stab: Vec<u8> = Vec::new();
    let mut i: usize = 0;
    while i < n_sect
        invariant
            i <= n_sect,
            n_sect == entries.len(),
            stab@ == shdrs_bytes(class, en, entries.subrange(0, i as int)),
        decreases n_sect - i,
    {
        let (_nm, sect) = sect_map_at(sections, i);
        let sh = sect.header;
        append_word(&mut stab, sh.sh_name as u64, 4, en);
        append_word(&mut stab, sh.sh_type as u64, 4, en);
        append_class(&mut stab, sh.sh_flags, class, en);
        append_class(&mut stab, sh.sh_addr, class, en);
        append_class(&mut stab, sh.sh_offset, class, en);
        append_class(&mut stab, sh.sh_size, class, en);
        append_word(&mut stab, sh.sh_link as u64, 4, en);
        append_word(&mut stab, sh.sh_info as u64, 4, en);
        append_class(&mut stab, sh.sh_addralign, class, en);
        append_class(&mut stab, sh.sh_entsize, class, en);
        proof {
            let pre = entries.subrange(0, i as int);
            let post = entries.subrange(0, i as int + 1);
            assert(post.drop_last() =~= pre);
            assert(post.last() == entries[i as int]);
            assert(stab@ =~= shdrs_bytes(class, en, pre) + shdr_bytes(
                class,
                en,
                entries[i as int].1.header,
            ));
        }
        i = i + 1;
    }
    proof {
        assert(entries.subrange(0, n_sect as int) =~= entries);
    }
    stab
}

/// Writes every section body at the cursor, each preceded by a seek to its
/// own alignment.
#[verifier::loop_isolation(false)]
#[verifier::rlimit(100)]
#[verifier::spinoff_prover]
fn write_section_bodies(
    out: &mut Vec<u8>,
    wpos: &mut u64,
    sections: &indexmap::IndexMap<String, crate::elf::Section>,
) -> (r: Result<(), ElfError>)
    ensures
        match ser_bodies(old(out)@, *old(wpos) as int, section_entries(*sections), 0) {
            Ok(res) => r == Ok::<(), ElfError>(()) && final(out)@ == res.0 && *final(wpos) == res.1,
            Err(e) => r matches Err(e2) && e == e2,
        },
{
    let ghost entries = section_entries(*sections);
    let ghost buf0 = out@;
    let ghost pos0 = *wpos as int;
    let n_sect = sect_map_len(sections);
    let mut i: usize = 0;
    while i < n_sect
        invariant
            i <= n_sect,
            n_sect == entries.len(),
            ser_bodies(out@, *wpos as int, entries, i as int) == ser_bodies(buf0, pos0, entries, 0),
        decreases n_sect - i,
    {
        let (_nm, sect) = sect_map_at(sections, i);
        proof {
            assert(sect@ == entries[i as int].1);
        }
        match align_to(wpos, sect.header.sh_addralign) {
            Ok(_) => (),
            Err(e) => {
                return Err(e);
            },
        }
        match put_bytes(out, wpos, &sect.body) {
            Ok(_) => (),
            Err(e) => {
                return Err(e);
            },
        }
        i = i + 1;
    }
    Ok(())
}

impl Elf {
    /// Serializes the model to bytes: a fresh layout pass first — a write is
    /// never valid without one — then the header, the program-header table
    /// at its recorded offset, every section body behind it at its own
    /// alignment, and the section-header table at the recorded section-table
    /// offset.
    #[verifier::rlimit(100)]
    #[verifier::spinoff_prover]
    pub fn write(&mut self) -> (r: Result<Vec<u8>, ElfError>)
        ensures
            match update_view(old(self)@) {
                Err(e) => r matches Err(e2) && e == e2 && final(self)@ == old(self)@,
                Ok(m2) => final(self)@ == m2 && (match write_bytes_view(m2) {
                    Err(e) => r matches Err(e2) && e == e2,
                    Ok(bs) => r matches Ok(v) && v@ == bs,
                }),
            },
    {
        match self.update() {
            Ok(_) => (),
            Err(e) => {
                return Err(e);
            },
        }
        let ghost m2 = self@;
        let class = self.header.ei_class;
        let en = self.header.ei_data;

        let hb = build_header_bytes(&self.header);
        let hb_len = hb.len();
        let mut out: Vec<u8> = Vec::new();
        let mut wpos: u64 = 0;
        match put_bytes(&mut out, &mut wpos, &hb) {
            Ok(_) => (),
            Err(e) => {
                proof {
                    assert(hb@.len() == hb_len as int);
                    assert(false);
                }
                return Err(e);
            },
        }

        let ptab = build_phdr_table(&self.programs, class, en);
        let mut wpos: u64 = self.header.e_phoff;
        match put_bytes(&mut out, &mut wpos, &ptab) {
            Ok(_) => (),
            Err(e) => {
                return Err(e);
            },
        }

        match write_section_bodies(&mut out, &mut wpos, &self.sections) {
            Ok(_) => (),
            Err(e) => {
                return Err(e);
            },
        }

        let stab = build_shdr_table(&self.sections, class, en);
        let mut wpos2: u64 = self.header.e_shoff;
        match put_bytes(&mut out, &mut wpos2, &stab) {
            Ok(_) => (),
            Err(e) => {
                return Err(e);
            },
        }
        Ok(out)
    }
}

} // verus!
