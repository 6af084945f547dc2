//! Laws of the library: properties that relate several functions, stated
//! over the same spec functions their contracts use and proved once for all
//! inputs.

use vstd::prelude::*;

use crate::elf::{Class, ElfView, Endian, SymView, FUNCTION_SYMBOL_INFO};
use crate::ext::{
    be_bytes, be_val, le_bytes, le_val, lemma_pow256, lemma_word_bytes_len, pow256, word_bytes,
    word_val,
};
use crate::layout::{
    entry_names, fix_program, layout_base, layout_fits, off_after, phdr_delta, rebuilt_body,
    rebuilt_size, resized_sections, sect_off, strtab_bytes, strtab_off, sym_record_bytes,
    sym_record_len, symtab_bytes, update_view,
};
use crate::link::{has_fn_symbol, lemma_has_key_filter_by_keys, lemma_has_key_fn_entries,
    lemma_has_key_insert_all, link_view};
use crate::omap::{find_key, has_key, insert_all, lemma_find_key, table_insert};
use crate::parse::{read_sym, read_view, sym_body_ok};
use crate::write::{header_bytes, shdr_bytes, shdrs_bytes, write_bytes_view};

verus! {

/// Law: symbol matching is name-exact and order-independent. Linking matches
/// a name exactly when the target's dynamic symbols hold a global function
/// symbol of that name and the source's do too — membership on each side is
/// an existence statement over the table, so the order of declarations in
/// either table cannot change the outcome.
pub proof fn lemma_link_matches_intersection(t: ElfView, s: ElfView, k: Seq<char>)
    requires
        link_view(t, s) is Ok,
    ensures
        has_key(link_view(t, s)->Ok_0.1, k) <==> (has_fn_symbol(t.dynamic_symbols, k)
            && has_fn_symbol(s.dynamic_symbols, k)),
{
    let empty = Seq::<(Seq<char>, SymView)>::empty();
    let tf = insert_all(empty, crate::elf::fn_entries(t.dynamic_symbols));
    let sf = insert_all(empty, crate::elf::fn_entries(s.dynamic_symbols));
    lemma_has_key_filter_by_keys(sf, tf, k);
    lemma_has_key_insert_all(empty, crate::elf::fn_entries(t.dynamic_symbols), k);
    lemma_has_key_insert_all(empty, crate::elf::fn_entries(s.dynamic_symbols), k);
    lemma_find_key(empty, k);
    lemma_has_key_fn_entries(t.dynamic_symbols, k);
    lemma_has_key_fn_entries(s.dynamic_symbols, k);
}

/// Every value stored in a table built by `insert_named` comes from the
/// given items (or the accumulator), so a property of all those values holds
/// of every stored value.
pub proof fn lemma_insert_named_values<V>(
    acc: Seq<(Seq<char>, V)>,
    items: Seq<(Seq<char>, V)>,
    p: spec_fn(V) -> bool,
)
    requires
        forall|i: int| 0 <= i < acc.len() ==> p(#[trigger] acc[i].1),
        forall|i: int| 0 <= i < items.len() ==> p(#[trigger] items[i].1),
    ensures
        forall|i: int|
            0 <= i < crate::parse::insert_named(acc, items).len() ==> p(
                #[trigger] crate::parse::insert_named(acc, items)[i].1,
            ),
    decreases items.len(),
{
    if items.len() > 0 {
        let front = items.drop_last();
        assert(forall|i: int| 0 <= i < front.len() ==> p(#[trigger] front[i].1)) by {
            assert(forall|i: int| 0 <= i < front.len() ==> front[i] == items[i]);
        }
        lemma_insert_named_values(acc, front, p);
        let rest = crate::parse::insert_named(acc, front);
        if items.last().0.len() != 0 {
            let k = items.last().0;
            let v = items.last().1;
            lemma_find_key(rest, k);
            let t = table_insert(rest, k, v);
            assert forall|i: int| 0 <= i < t.len() implies p(t[i].1) by {
                if find_key(rest, k) < 0 {
                    if i < rest.len() {
                        assert(t[i] == rest[i]);
                    } else {
                        assert(t[i].1 == v);
                    }
                } else {
                    if i == find_key(rest, k) {
                        assert(t[i].1 == v);
                    } else {
                        assert(t[i] == rest[i]);
                    }
                }
            }
        }
    }
}

/// Law: function extraction preserves bytes. In a parsed model, any symbol
/// whose info byte marks a global function symbol carries as its body
/// exactly the bytes its value points at in the source image, for exactly
/// its declared size — and the layout engine's pass at the end of parsing
/// does not touch those bytes.
pub proof fn lemma_extraction_preserves_bytes(s: Seq<u8>, i: int)
    requires
        read_view(s) is Ok,
        0 <= i < read_view(s)->Ok_0.symbols.len(),
        read_view(s)->Ok_0.symbols[i].1.info == FUNCTION_SYMBOL_INFO,
    ensures
        ({
            let v = read_view(s)->Ok_0.symbols[i].1;
            v.data == s.subrange(v.value as int, v.value + v.size) && v.data.len() == v.size
        }),
{
    let m = read_view(s)->Ok_0;
    let p = |v: SymView|
        v.info == FUNCTION_SYMBOL_INFO ==> v.data == s.subrange(v.value as int, v.value + v.size)
            && v.data.len() == v.size;
    lemma_symbols_extracted(s, m.symbols, p);
    assert(p(m.symbols[i].1));
}

/// The symbol table of a parsed model satisfies any per-value property that
/// all decoded symbol records satisfy; in particular the extraction
/// property.
proof fn lemma_symbols_extracted(s: Seq<u8>, syms: Seq<(Seq<char>, SymView)>, p: spec_fn(SymView) -> bool)
    requires
        read_view(s) is Ok,
        syms == read_view(s)->Ok_0.symbols,
        p == (|v: SymView|
            v.info == FUNCTION_SYMBOL_INFO ==> v.data == s.subrange(
                v.value as int,
                v.value + v.size,
            ) && v.data.len() == v.size),
    ensures
        forall|i: int| 0 <= i < syms.len() ==> p(#[trigger] syms[i].1),
{
    let h = crate::parse::read_header(s)->Ok_0;
    let raw = crate::parse::read_raw_sections(s, h.class, h.data, h.shoff as int, h.shnum as int)->Ok_0;
    let sections = crate::parse::resolve_sections(
        s,
        raw,
        raw[h.shstrndx as int].0.sh_offset as int,
    )->Ok_0;
    let symtab_i = find_key(sections, ".symtab"@);
    let strtab_i = find_key(sections, ".strtab"@);
    let tab = sections[symtab_i].1.header;
    let strtab = sections[strtab_i].1.header;
    let n = crate::parse::sym_count(tab);
    let pairs = Seq::new(
        n as nat,
        |j: int|
            {
                let v = read_sym(s, h.class, h.data, tab.sh_offset + j * tab.sh_entsize);
                (
                    crate::parse::name_at(s, strtab.sh_offset as int, v.name as int),
                    SymView { data: crate::parse::sym_body(s, v), ..v },
                )
            },
    );
    assert(syms == crate::parse::insert_named(Seq::<(Seq<char>, SymView)>::empty(), pairs));
    assert forall|j: int| 0 <= j < pairs.len() implies p(#[trigger] pairs[j].1) by {
        let v = read_sym(s, h.class, h.data, tab.sh_offset + j * tab.sh_entsize);
        assert(sym_body_ok(s, v));
    }
    lemma_insert_named_values(Seq::<(Seq<char>, SymView)>::empty(), pairs, p);
}

/// Law: function extraction preserves bytes in the dynamic-symbol table as
/// well — the table the linker draws its copied code from.
pub proof fn lemma_extraction_preserves_bytes_dynamic(s: Seq<u8>, i: int)
    requires
        read_view(s) is Ok,
        0 <= i < read_view(s)->Ok_0.dynamic_symbols.len(),
        read_view(s)->Ok_0.dynamic_symbols[i].1.info == FUNCTION_SYMBOL_INFO,
    ensures
        ({
            let v = read_view(s)->Ok_0.dynamic_symbols[i].1;
            v.data == s.subrange(v.value as int, v.value + v.size) && v.data.len() == v.size
        }),
{
    let m = read_view(s)->Ok_0;
    let p = |v: SymView|
        v.info == FUNCTION_SYMBOL_INFO ==> v.data == s.subrange(v.value as int, v.value + v.size)
            && v.data.len() == v.size;
    let h = crate::parse::read_header(s)->Ok_0;
    let raw = crate::parse::read_raw_sections(s, h.class, h.data, h.shoff as int, h.shnum as int)->Ok_0;
    let sections = crate::parse::resolve_sections(
        s,
        raw,
        raw[h.shstrndx as int].0.sh_offset as int,
    )->Ok_0;
    let dynsym_i = find_key(sections, ".dynsym"@);
    let dynstr_i = find_key(sections, ".dynstr"@);
    let tab = sections[dynsym_i].1.header;
    let strtab = sections[dynstr_i].1.header;
    let n = crate::parse::sym_count(tab);
    let pairs = Seq::new(
        n as nat,
        |j: int|
            {
                let v = read_sym(s, h.class, h.data, tab.sh_offset + j * tab.sh_entsize);
                (
                    crate::parse::name_at(s, strtab.sh_offset as int, v.name as int),
                    SymView { data: crate::parse::sym_body(s, v), ..v },
                )
            },
    );
    assert(m.dynamic_symbols == crate::parse::insert_named(
        Seq::<(Seq<char>, SymView)>::empty(),
        pairs,
    ));
    assert forall|j: int| 0 <= j < pairs.len() implies p(#[trigger] pairs[j].1) by {
        let v = read_sym(s, h.class, h.data, tab.sh_offset + j * tab.sh_entsize);
        assert(sym_body_ok(s, v));
    }
    lemma_insert_named_values(Seq::<(Seq<char>, SymView)>::empty(), pairs, p);
    assert(p(m.dynamic_symbols[i].1));
}

/// Law: segment fixups. After a layout pass, every PHDR-type segment
/// describes the program-header table exactly: its file size and its memory
/// size both equal the program count times the per-entry size.
pub proof fn lemma_phdr_fixup(m: ElfView, i: int)
    requires
        update_view(m) is Ok,
        0 <= i < m.programs.len(),
        m.programs[i].p_type == crate::elf::SegmentType::Phdr,
    ensures
        ({
            let m1 = update_view(m)->Ok_0;
            m1.programs[i].p_filesz == m1.header.phnum * m1.header.phentsize
                && m1.programs[i].p_memsz == m1.header.phnum * m1.header.phentsize
        }),
{
    let m1 = update_view(m)->Ok_0;
    assert(m1.programs[i] == fix_program(
        m.programs[i],
        m.programs.len() as int,
        m.header.phentsize,
        phdr_delta(m),
    ));
    assert((m.programs.len() as int) * (m.header.phentsize as int) <= 0xFFFF * 0xFFFF)
        by (nonlinear_arith)
        requires
            m.programs.len() <= 0xFFFF,
            m.header.phentsize <= 0xFFFFu16,
    ;
}

/// Law (round trip, value level): decoding an encoded word gives the value
/// back, in either byte order.
pub proof fn lemma_word_round_trip_val(v: nat, n: nat, en: Endian)
    requires
        v < pow256(n),
    ensures
        word_val(word_bytes(v, n, en), en) == v,
    decreases n,
{
    if n == 0 {
    } else {
        lemma_word_round_trip_val(v / 256, (n - 1) as nat, en);
        match en {
            Endian::Little => {
                let bs = le_bytes(v, n);
                assert(bs.drop_first() =~= le_bytes(v / 256, (n - 1) as nat));
                assert(le_val(bs) == (v % 256) + 256 * le_val(le_bytes(v / 256, (n - 1) as nat)));
            },
            Endian::Big => {
                let bs = be_bytes(v, n);
                lemma_word_bytes_len(v / 256, (n - 1) as nat, en);
                assert(bs.drop_last() =~= be_bytes(v / 256, (n - 1) as nat));
                assert(be_val(bs) == be_val(be_bytes(v / 256, (n - 1) as nat)) * 256 + (v % 256));
            },
        }
    }
}

/// Law (round trip, byte level): encoding a decoded word gives the bytes
/// back, in either byte order.
pub proof fn lemma_word_round_trip_bytes(s: Seq<u8>, en: Endian)
    ensures
        word_bytes(word_val(s, en), s.len(), en) == s,
    decreases s.len(),
{
    if s.len() == 0 {
        assert(word_bytes(word_val(s, en), s.len(), en) =~= s);
    } else {
        match en {
            Endian::Little => {
                lemma_word_round_trip_bytes(s.drop_first(), en);
                let v = le_val(s);
                assert(v == s[0] + 256 * le_val(s.drop_first()));
                assert(v % 256 == s[0] && v / 256 == le_val(s.drop_first())) by (nonlinear_arith)
                    requires
                        v == s[0] + 256 * le_val(s.drop_first()),
                        0 <= s[0] < 256,
                        le_val(s.drop_first()) >= 0,
                ;
                assert(le_bytes(v, s.len()) =~= s);
            },
            Endian::Big => {
                lemma_word_round_trip_bytes(s.drop_last(), en);
                let v = be_val(s);
                assert(v == be_val(s.drop_last()) * 256 + s.last());
                assert(v % 256 == s.last() && v / 256 == be_val(s.drop_last()))
                    by (nonlinear_arith)
                    requires
                        v == be_val(s.drop_last()) * 256 + s.last(),
                        0 <= s.last() < 256,
                        be_val(s.drop_last()) >= 0,
                ;
                lemma_word_bytes_len(v / 256, (s.len() - 1) as nat, en);
                assert(be_bytes(v, s.len()) =~= s);
            },
        }
    }
}

/// Law (round trip, record level): a serialized symbol record decodes back
/// to the symbol it came from. Under the 32-bit class the value and size
/// must fit their narrowed 32-bit fields.
pub proof fn lemma_sym_record_round_trip(class: Class, en: Endian, v: SymView)
    requires
        class == Class::Class64 || (v.value < 0x100000000 && v.size < 0x100000000),
    ensures
        read_sym(sym_record_bytes(class, en, v), class, en, 0) == (SymView {
            data: Seq::empty(),
            ..v
        }),
{
    let rec = sym_record_bytes(class, en, v);
    lemma_pow256();
    match class {
        Class::Class32 => {
            let w1 = word_bytes(v.name as nat, 4, en);
            let w2 = word_bytes(v.value as nat, 4, en);
            let w3 = word_bytes(v.size as nat, 4, en);
            let w4 = word_bytes(v.shndx as nat, 2, en);
            lemma_word_bytes_len(v.name as nat, 4, en);
            lemma_word_bytes_len(v.value as nat, 4, en);
            lemma_word_bytes_len(v.size as nat, 4, en);
            lemma_word_bytes_len(v.shndx as nat, 2, en);
            assert(rec.subrange(0, 4) =~= w1);
            assert(rec.subrange(4, 8) =~= w2);
            assert(rec.subrange(8, 12) =~= w3);
            assert(rec[12] == v.info);
            assert(rec[13] == v.other);
            assert(rec.subrange(14, 16) =~= w4);
            lemma_word_round_trip_val(v.name as nat, 4, en);
            lemma_word_round_trip_val(v.value as nat, 4, en);
            lemma_word_round_trip_val(v.size as nat, 4, en);
            lemma_word_round_trip_val(v.shndx as nat, 2, en);
            assert(read_sym(rec, class, en, 0) =~= (SymView { data: Seq::empty(), ..v }));
        },
        Class::Class64 => {
            let w1 = word_bytes(v.name as nat, 4, en);
            let w2 = word_bytes(v.shndx as nat, 2, en);
            let w3 = word_bytes(v.value as nat, 8, en);
            let w4 = word_bytes(v.size as nat, 8, en);
            lemma_word_bytes_len(v.name as nat, 4, en);
            lemma_word_bytes_len(v.shndx as nat, 2, en);
            lemma_word_bytes_len(v.value as nat, 8, en);
            lemma_word_bytes_len(v.size as nat, 8, en);
            assert(rec.subrange(0, 4) =~= w1);
            assert(rec[4] == v.info);
            assert(rec[5] == v.other);
            assert(rec.subrange(6, 8) =~= w2);
            assert(rec.subrange(8, 16) =~= w3);
            assert(rec.subrange(16, 24) =~= w4);
            lemma_word_round_trip_val(v.name as nat, 4, en);
            lemma_word_round_trip_val(v.shndx as nat, 2, en);
            lemma_word_round_trip_val(v.value as nat, 8, en);
            lemma_word_round_trip_val(v.size as nat, 8, en);
            assert(read_sym(rec, class, en, 0) =~= (SymView { data: Seq::empty(), ..v }));
        },
    }
}

/// Law (round trip, record level): a serialized program header decodes back
/// to the segment it came from, provided its type code survives decoding —
/// true of every decoded type, whose unknown raw codes are preserved
/// verbatim — and, under the 32-bit class, its fields fit their narrowed
/// 32-bit widths.
pub proof fn lemma_phdr_record_round_trip(class: Class, en: Endian, p: crate::elf::ProgramHeader)
    requires
        crate::elf::spec_segment_of(crate::elf::spec_segment_code(p.p_type)) == p.p_type,
        class == Class::Class64 || (p.p_offset < 0x100000000 && p.p_vaddr < 0x100000000
            && p.p_paddr < 0x100000000 && p.p_filesz < 0x100000000 && p.p_memsz < 0x100000000
            && p.p_align < 0x100000000),
    ensures
        crate::parse::read_phdr(crate::write::phdr_bytes(class, en, p), class, en, 0) == p,
{
    let rec = crate::write::phdr_bytes(class, en, p);
    let ty = crate::elf::spec_segment_code(p.p_type);
    lemma_pow256();
    match class {
        Class::Class32 => {
            lemma_word_bytes_len(ty as nat, 4, en);
            lemma_word_bytes_len(p.p_offset as nat, 4, en);
            lemma_word_bytes_len(p.p_vaddr as nat, 4, en);
            lemma_word_bytes_len(p.p_paddr as nat, 4, en);
            lemma_word_bytes_len(p.p_filesz as nat, 4, en);
            lemma_word_bytes_len(p.p_memsz as nat, 4, en);
            lemma_word_bytes_len(p.p_flags as nat, 4, en);
            lemma_word_bytes_len(p.p_align as nat, 4, en);
            assert(rec.subrange(0, 4) =~= word_bytes(ty as nat, 4, en));
            assert(rec.subrange(4, 8) =~= word_bytes(p.p_offset as nat, 4, en));
            assert(rec.subrange(8, 12) =~= word_bytes(p.p_vaddr as nat, 4, en));
            assert(rec.subrange(12, 16) =~= word_bytes(p.p_paddr as nat, 4, en));
            assert(rec.subrange(16, 20) =~= word_bytes(p.p_filesz as nat, 4, en));
            assert(rec.subrange(20, 24) =~= word_bytes(p.p_memsz as nat, 4, en));
            assert(rec.subrange(24, 28) =~= word_bytes(p.p_flags as nat, 4, en));
            assert(rec.subrange(28, 32) =~= word_bytes(p.p_align as nat, 4, en));
            lemma_word_round_trip_val(ty as nat, 4, en);
            lemma_word_round_trip_val(p.p_offset as nat, 4, en);
            lemma_word_round_trip_val(p.p_vaddr as nat, 4, en);
            lemma_word_round_trip_val(p.p_paddr as nat, 4, en);
            lemma_word_round_trip_val(p.p_filesz as nat, 4, en);
            lemma_word_round_trip_val(p.p_memsz as nat, 4, en);
            lemma_word_round_trip_val(p.p_flags as nat, 4, en);
            lemma_word_round_trip_val(p.p_align as nat, 4, en);
            assert(crate::parse::read_phdr(rec, class, en, 0) =~= p);
        },
        Class::Class64 => {
            lemma_word_bytes_len(ty as nat, 4, en);
            lemma_word_bytes_len(p.p_flags as nat, 4, en);
            lemma_word_bytes_len(p.p_offset as nat, 8, en);
            lemma_word_bytes_len(p.p_vaddr as nat, 8, en);
            lemma_word_bytes_len(p.p_paddr as nat, 8, en);
            lemma_word_bytes_len(p.p_filesz as nat, 8, en);
            lemma_word_bytes_len(p.p_memsz as nat, 8, en);
            lemma_word_bytes_len(p.p_align as nat, 8, en);
            assert(rec.subrange(0, 4) =~= word_bytes(ty as nat, 4, en));
            assert(rec.subrange(4, 8) =~= word_bytes(p.p_flags as nat, 4, en));
            assert(rec.subrange(8, 16) =~= word_bytes(p.p_offset as nat, 8, en));
            assert(rec.subrange(16, 24) =~= word_bytes(p.p_vaddr as nat, 8, en));
            assert(rec.subrange(24, 32) =~= word_bytes(p.p_paddr as nat, 8, en));
            assert(rec.subrange(32, 40) =~= word_bytes(p.p_filesz as nat, 8, en));
            assert(rec.subrange(40, 48) =~= word_bytes(p.p_memsz as nat, 8, en));
            assert(rec.subrange(48, 56) =~= word_bytes(p.p_align as nat, 8, en));
            lemma_word_round_trip_val(ty as nat, 4, en);
            lemma_word_round_trip_val(p.p_flags as nat, 4, en);
            lemma_word_round_trip_val(p.p_offset as nat, 8, en);
            lemma_word_round_trip_val(p.p_vaddr as nat, 8, en);
            lemma_word_round_trip_val(p.p_paddr as nat, 8, en);
            lemma_word_round_trip_val(p.p_filesz as nat, 8, en);
            lemma_word_round_trip_val(p.p_memsz as nat, 8, en);
            lemma_word_round_trip_val(p.p_align as nat, 8, en);
            assert(crate::parse::read_phdr(rec, class, en, 0) =~= p);
        },
    }
}

/// Law (round trip, name level): a name written as a NUL-terminated string
/// reads back unchanged, provided its characters are nonzero single bytes —
/// which every name produced by the parser is.
pub proof fn lemma_cstr_round_trip(name: Seq<char>)
    requires
        forall|i: int|
            0 <= i < name.len() ==> 0 < ((#[trigger] name[i]) as int) && (name[i] as int) < 256,
    ensures
        crate::ext::cstr_chars(crate::ext::cstr_bytes(name), 0) == name,
{
    let bs = crate::ext::cstr_bytes(name);
    assert(bs.len() == name.len() + 1);
    assert(bs[name.len() as int] == 0);
    assert(forall|i: int| 0 <= i < name.len() ==> (#[trigger] bs[i]) == name[i] as u8);
    crate::ext::lemma_find_nul(bs, 0);
    let f = crate::ext::find_nul(bs, 0);
    assert(f == name.len()) by {
        if f < name.len() {
            assert(bs[f] == 0);
            assert(bs[f] == name[f] as u8);
            assert((name[f] as u8) as int == name[f] as int);
        }
        if f > name.len() {
            assert(bs[name.len() as int] != 0);
        }
    }
    assert(crate::ext::cstr_chars(bs, 0) =~= name) by {
        assert forall|i: int| 0 <= i < name.len() implies crate::ext::cstr_chars(bs, 0)[i]
            == name[i] by {
            assert(bs.subrange(0, f)[i] == bs[i]);
            assert(bs[i] == name[i] as u8);
            assert((name[i] as u8) as int == name[i] as int);
            assert(((name[i] as u8) as char) == name[i]);
        }
    }
}

/// Law (round trip, header level): a serialized file header parses back to
/// the header it came from, provided it is a well-formed header to begin
/// with — the magic is the ELF magic, both version fields are the supported
/// version 1, and the padding is its seven bytes wide. Every header the
/// parser itself produces satisfies that.
#[verifier::rlimit(100)]
#[verifier::spinoff_prover]
pub proof fn lemma_header_round_trip(h: crate::elf::HeaderView)
    requires
        h.magic == crate::parse::elf_magic(),
        h.ident_version == 1,
        h.version == 1,
        h.pad.len() == 7,
        h.class == Class::Class64 || (h.entry < 0x100000000 && h.phoff < 0x100000000 && h.shoff
            < 0x100000000),
    ensures
        crate::parse::read_header(header_bytes(h)) == Ok::<crate::elf::HeaderView, crate::elf::ElfError>(h),
{
    let rec = header_bytes(h);
    let en = h.data;
    let cs = crate::elf::spec_class_size(h.class);
    let c = cs as int;
    lemma_pow256();
    lemma_word_bytes_len(h.e_type as nat, 2, en);
    lemma_word_bytes_len(crate::elf::spec_machine_code(h.machine) as nat, 2, en);
    lemma_word_bytes_len(h.version as nat, 4, en);
    lemma_word_bytes_len(h.entry as nat, cs, en);
    lemma_word_bytes_len(h.phoff as nat, cs, en);
    lemma_word_bytes_len(h.shoff as nat, cs, en);
    lemma_word_bytes_len(h.flags as nat, 4, en);
    lemma_word_bytes_len(h.ehsize as nat, 2, en);
    lemma_word_bytes_len(h.phentsize as nat, 2, en);
    lemma_word_bytes_len(h.phnum as nat, 2, en);
    lemma_word_bytes_len(h.shentsize as nat, 2, en);
    lemma_word_bytes_len(h.shnum as nat, 2, en);
    lemma_word_bytes_len(h.shstrndx as nat, 2, en);
    assert(rec.len() == 40 + 3 * c);
    assert(rec.subrange(0, 4) =~= h.magic);
    assert(rec[4] == crate::elf::spec_class_code(h.class));
    assert(rec[5] == crate::elf::spec_endian_code(h.data));
    assert(rec[6] == 1);
    assert(rec[7] == h.osabi);
    assert(rec[8] == h.abiversion);
    assert(rec.subrange(9, 16) =~= h.pad);
    assert(rec.subrange(16, 18) =~= word_bytes(h.e_type as nat, 2, en));
    assert(rec.subrange(18, 20) =~= word_bytes(
        crate::elf::spec_machine_code(h.machine) as nat,
        2,
        en,
    ));
    assert(rec.subrange(20, 24) =~= word_bytes(h.version as nat, 4, en));
    assert(rec.subrange(24, 24 + c) =~= word_bytes(h.entry as nat, cs, en));
    assert(rec.subrange(24 + c, 24 + 2 * c) =~= word_bytes(h.phoff as nat, cs, en));
    assert(rec.subrange(24 + 2 * c, 24 + 3 * c) =~= word_bytes(h.shoff as nat, cs, en));
    assert(rec.subrange(24 + 3 * c, 28 + 3 * c) =~= word_bytes(h.flags as nat, 4, en));
    assert(rec.subrange(28 + 3 * c, 30 + 3 * c) =~= word_bytes(h.ehsize as nat, 2, en));
    assert(rec.subrange(30 + 3 * c, 32 + 3 * c) =~= word_bytes(h.phentsize as nat, 2, en));
    assert(rec.subrange(32 + 3 * c, 34 + 3 * c) =~= word_bytes(h.phnum as nat, 2, en));
    assert(rec.subrange(34 + 3 * c, 36 + 3 * c) =~= word_bytes(h.shentsize as nat, 2, en));
    assert(rec.subrange(36 + 3 * c, 38 + 3 * c) =~= word_bytes(h.shnum as nat, 2, en));
    assert(rec.subrange(38 + 3 * c, 40 + 3 * c) =~= word_bytes(h.shstrndx as nat, 2, en));
    lemma_word_round_trip_val(h.e_type as nat, 2, en);
    lemma_word_round_trip_val(crate::elf::spec_machine_code(h.machine) as nat, 2, en);
    lemma_word_round_trip_val(h.version as nat, 4, en);
    lemma_word_round_trip_val(h.entry as nat, cs, en);
    lemma_word_round_trip_val(h.phoff as nat, cs, en);
    lemma_word_round_trip_val(h.shoff as nat, cs, en);
    lemma_word_round_trip_val(h.flags as nat, 4, en);
    lemma_word_round_trip_val(h.ehsize as nat, 2, en);
    lemma_word_round_trip_val(h.phentsize as nat, 2, en);
    lemma_word_round_trip_val(h.phnum as nat, 2, en);
    lemma_word_round_trip_val(h.shentsize as nat, 2, en);
    lemma_word_round_trip_val(h.shnum as nat, 2, en);
    lemma_word_round_trip_val(h.shstrndx as nat, 2, en);
    let parsed = crate::parse::read_header(rec)->Ok_0;
    assert(crate::parse::read_header(rec) is Ok);
    assert(parsed =~= h);
}

/// Law (round trip, record level): a serialized section header decodes back
/// to the header it came from, provided — under the 32-bit class — its
/// fields fit their narrowed 32-bit widths.
pub proof fn lemma_shdr_record_round_trip(class: Class, en: Endian, h: crate::elf::SectionHeader)
    requires
        class == Class::Class64 || (h.sh_flags < 0x100000000 && h.sh_addr < 0x100000000
            && h.sh_offset < 0x100000000 && h.sh_size < 0x100000000 && h.sh_addralign
            < 0x100000000 && h.sh_entsize < 0x100000000),
    ensures
        crate::parse::read_shdr(shdr_bytes(class, en, h), class, en, 0) == h,
{
    let rec = shdr_bytes(class, en, h);
    let cs = crate::elf::spec_class_size(class);
    lemma_pow256();
    lemma_word_bytes_len(h.sh_name as nat, 4, en);
    lemma_word_bytes_len(h.sh_type as nat, 4, en);
    lemma_word_bytes_len(h.sh_flags as nat, cs, en);
    lemma_word_bytes_len(h.sh_addr as nat, cs, en);
    lemma_word_bytes_len(h.sh_offset as nat, cs, en);
    lemma_word_bytes_len(h.sh_size as nat, cs, en);
    lemma_word_bytes_len(h.sh_link as nat, 4, en);
    lemma_word_bytes_len(h.sh_info as nat, 4, en);
    lemma_word_bytes_len(h.sh_addralign as nat, cs, en);
    lemma_word_bytes_len(h.sh_entsize as nat, cs, en);
    let c = cs as int;
    assert(rec.subrange(0, 4) =~= word_bytes(h.sh_name as nat, 4, en));
    assert(rec.subrange(4, 8) =~= word_bytes(h.sh_type as nat, 4, en));
    assert(rec.subrange(8, 8 + c) =~= word_bytes(h.sh_flags as nat, cs, en));
    assert(rec.subrange(8 + c, 8 + 2 * c) =~= word_bytes(h.sh_addr as nat, cs, en));
    assert(rec.subrange(8 + 2 * c, 8 + 3 * c) =~= word_bytes(h.sh_offset as nat, cs, en));
    assert(rec.subrange(8 + 3 * c, 8 + 4 * c) =~= word_bytes(h.sh_size as nat, cs, en));
    assert(rec.subrange(8 + 4 * c, 12 + 4 * c) =~= word_bytes(h.sh_link as nat, 4, en));
    assert(rec.subrange(12 + 4 * c, 16 + 4 * c) =~= word_bytes(h.sh_info as nat, 4, en));
    assert(rec.subrange(16 + 4 * c, 16 + 5 * c) =~= word_bytes(h.sh_addralign as nat, cs, en));
    assert(rec.subrange(16 + 5 * c, 16 + 6 * c) =~= word_bytes(h.sh_entsize as nat, cs, en));
    lemma_word_round_trip_val(h.sh_name as nat, 4, en);
    lemma_word_round_trip_val(h.sh_type as nat, 4, en);
    lemma_word_round_trip_val(h.sh_flags as nat, cs, en);
    lemma_word_round_trip_val(h.sh_addr as nat, cs, en);
    lemma_word_round_trip_val(h.sh_offset as nat, cs, en);
    lemma_word_round_trip_val(h.sh_size as nat, cs, en);
    lemma_word_round_trip_val(h.sh_link as nat, 4, en);
    lemma_word_round_trip_val(h.sh_info as nat, 4, en);
    lemma_word_round_trip_val(h.sh_addralign as nat, cs, en);
    lemma_word_round_trip_val(h.sh_entsize as nat, cs, en);
    assert(crate::parse::read_shdr(rec, class, en, 0) =~= h);
}

/// A serialized section header has the record width the parser expects.
pub proof fn lemma_shdr_bytes_len(class: Class, en: Endian, h: crate::elf::SectionHeader)
    ensures
        shdr_bytes(class, en, h).len() == crate::parse::shdr_len(class),
{
    let cs = crate::elf::spec_class_size(class);
    lemma_word_bytes_len(h.sh_name as nat, 4, en);
    lemma_word_bytes_len(h.sh_type as nat, 4, en);
    lemma_word_bytes_len(h.sh_flags as nat, cs, en);
    lemma_word_bytes_len(h.sh_addr as nat, cs, en);
    lemma_word_bytes_len(h.sh_offset as nat, cs, en);
    lemma_word_bytes_len(h.sh_size as nat, cs, en);
    lemma_word_bytes_len(h.sh_link as nat, 4, en);
    lemma_word_bytes_len(h.sh_info as nat, 4, en);
    lemma_word_bytes_len(h.sh_addralign as nat, cs, en);
    lemma_word_bytes_len(h.sh_entsize as nat, cs, en);
}

/// The serialized section-header table is one record per section.
pub proof fn lemma_shdrs_bytes_len(
    class: Class,
    en: Endian,
    ss: Seq<(Seq<char>, crate::elf::SectView)>,
)
    ensures
        shdrs_bytes(class, en, ss).len() == ss.len() * crate::parse::shdr_len(class),
    decreases ss.len(),
{
    if ss.len() > 0 {
        lemma_shdrs_bytes_len(class, en, ss.drop_last());
        lemma_shdr_bytes_len(class, en, ss.last().1.header);
        assert(ss.len() * crate::parse::shdr_len(class) == (ss.len() - 1) * crate::parse::shdr_len(
            class,
        ) + crate::parse::shdr_len(class)) by (nonlinear_arith);
    }
}

/// Law: the writer's stream covers the section-header table — its length is
/// at least the table offset plus one record per section.
pub proof fn lemma_write_covers_section_table(m: ElfView)
    requires
        write_bytes_view(m) is Ok,
    ensures
        write_bytes_view(m)->Ok_0.len() >= m.header.shoff + m.sections.len()
            * crate::parse::shdr_len(m.header.class),
{
    lemma_shdrs_bytes_len(m.header.class, m.header.data, m.sections);
}

/// One serialized symbol record has the width of its class.
pub proof fn lemma_sym_record_bytes_len(class: Class, en: Endian, v: SymView)
    ensures
        sym_record_bytes(class, en, v).len() == sym_record_len(class),
{
    let cs = crate::elf::spec_class_size(class);
    lemma_word_bytes_len(v.name as nat, 4, en);
    lemma_word_bytes_len(v.value as nat, cs, en);
    lemma_word_bytes_len(v.size as nat, cs, en);
    lemma_word_bytes_len(v.shndx as nat, 2, en);
}

/// The serialized symbol table is one record per symbol.
pub proof fn lemma_symtab_bytes_len(class: Class, en: Endian, syms: Seq<(Seq<char>, SymView)>)
    ensures
        symtab_bytes(class, en, syms).len() == syms.len() * sym_record_len(class),
    decreases syms.len(),
{
    if syms.len() > 0 {
        lemma_symtab_bytes_len(class, en, syms.drop_last());
        lemma_sym_record_bytes_len(class, en, syms.last().1);
        assert(syms.len() * sym_record_len(class) == (syms.len() - 1) * sym_record_len(class)
            + sym_record_len(class)) by (nonlinear_arith);
    }
}

/// Tables with the same keys in the same order agree on every key lookup.
pub proof fn lemma_find_key_same_keys<V>(
    a: Seq<(Seq<char>, V)>,
    b: Seq<(Seq<char>, V)>,
    k: Seq<char>,
)
    requires
        a.len() == b.len(),
        forall|i: int| 0 <= i < a.len() ==> (#[trigger] a[i]).0 == b[i].0,
    ensures
        find_key(a, k) == find_key(b, k),
    decreases a.len(),
{
    if a.len() > 0 && a[0].0 != k {
        let a2 = a.drop_first();
        let b2 = b.drop_first();
        assert(forall|i: int| 0 <= i < a2.len() ==> (#[trigger] a2[i]).0 == b2[i].0) by {
            assert(forall|i: int|
                0 <= i < a2.len() ==> a2[i] == a[i + 1] && b2[i] == b[i + 1]);
        }
        lemma_find_key_same_keys(a2, b2, k);
    }
}

/// Section walks over tables whose sections have the same alignments and
/// body lengths assign the same offsets.
pub proof fn lemma_off_after_congruent(
    a: Seq<(Seq<char>, crate::elf::SectView)>,
    b: Seq<(Seq<char>, crate::elf::SectView)>,
    base: int,
    i: int,
)
    requires
        a.len() == b.len(),
        i <= a.len(),
        forall|j: int|
            0 <= j < a.len() ==> (#[trigger] a[j]).1.header.sh_addralign
                == b[j].1.header.sh_addralign && a[j].1.body.len() == b[j].1.body.len(),
    ensures
        off_after(a, base, i) == off_after(b, base, i),
        0 <= i < a.len() ==> sect_off(a, base, i) == sect_off(b, base, i),
    decreases i,
{
    if i > 0 {
        lemma_off_after_congruent(a, b, base, i - 1);
        assert(a[i - 1].1.header.sh_addralign == b[i - 1].1.header.sh_addralign);
        assert(a[i - 1].1.body.len() == b[i - 1].1.body.len());
    }
}

/// What one layout pass makes of each component, spelled out.
proof fn lemma_update_shape(m: ElfView)
    requires
        update_view(m) is Ok,
    ensures
        ({
            let m1 = update_view(m)->Ok_0;
            let names_s = entry_names(m.symbols);
            let names_c = entry_names(m.sections);
            let rs = resized_sections(m);
            let base = layout_base(m);
            &&& entry_names(m1.symbols) == names_s
            &&& entry_names(m1.sections) == names_c
            &&& m1.symbols.len() == m.symbols.len()
            &&& m1.sections.len() == m.sections.len()
            &&& m1.programs.len() == m.programs.len()
            &&& forall|i: int|
                0 <= i < m.symbols.len() ==> #[trigger] m1.symbols[i] == (
                m.symbols[i].0,
                SymView { name: strtab_off(names_s, i) as u32, ..m.symbols[i].1 },
            )
            &&& forall|i: int|
                0 <= i < m.sections.len() ==> #[trigger] m1.sections[i] == (
                m.sections[i].0,
                crate::elf::SectView {
                    header: crate::elf::SectionHeader {
                        sh_name: strtab_off(names_c, i) as u32,
                        sh_size: rebuilt_size(m, i),
                        sh_offset: sect_off(rs, base, i) as u64,
                        ..m.sections[i].1.header
                    },
                    body: rebuilt_body(m, i),
                },
            )
            &&& forall|i: int|
                0 <= i < m.programs.len() ==> #[trigger] m1.programs[i] == fix_program(
                    m.programs[i],
                    m.programs.len() as int,
                    m.header.phentsize,
                    phdr_delta(m),
                )
            &&& m1.header == (crate::elf::HeaderView {
                phnum: m.programs.len() as u16,
                shnum: m.sections.len() as u16,
                shstrndx: find_key(m.sections, ".shstrtab"@) as u16,
                shoff: crate::ext::spec_align(off_after(rs, base, rs.len() as int), 16) as u64,
                ..m.header
            })
            &&& m1.dynamic_symbols == m.dynamic_symbols
        }),
{
    let m1 = update_view(m)->Ok_0;
    assert(entry_names(m1.symbols) =~= entry_names(m.symbols));
    assert(entry_names(m1.sections) =~= entry_names(m.sections));
    assert forall|i: int| 0 <= i < m.sections.len() implies #[trigger] m1.sections[i] == (
        m.sections[i].0,
        crate::elf::SectView {
            header: crate::elf::SectionHeader {
                sh_name: strtab_off(entry_names(m.sections), i) as u32,
                sh_size: rebuilt_size(m, i),
                sh_offset: sect_off(resized_sections(m), layout_base(m), i) as u64,
                ..m.sections[i].1.header
            },
            body: rebuilt_body(m, i),
        },
    ) by {
        assert(m1.sections[i].1 =~= crate::elf::SectView {
            header: crate::elf::SectionHeader {
                sh_name: strtab_off(entry_names(m.sections), i) as u32,
                sh_size: rebuilt_size(m, i),
                sh_offset: sect_off(resized_sections(m), layout_base(m), i) as u64,
                ..m.sections[i].1.header
            },
            body: rebuilt_body(m, i),
        });
    }
}

/// The resized tables of a model and of its one-pass normalization have the
/// same alignments and body lengths, so the second walk reproduces the first
/// one's offsets; and every rebuilt body other than the symbol table is
/// byte-identical the second time.
proof fn lemma_resized_congruent(m: ElfView)
    requires
        update_view(m) is Ok,
    ensures
        ({
            let m1 = update_view(m)->Ok_0;
            let ra = resized_sections(m1);
            let rb = resized_sections(m);
            &&& ra.len() == rb.len()
            &&& forall|j: int|
                0 <= j < ra.len() ==> (#[trigger] ra[j]).1.header.sh_addralign
                    == rb[j].1.header.sh_addralign && ra[j].1.body.len() == rb[j].1.body.len()
            &&& layout_base(m1) == layout_base(m)
        }),
{
    let m1 = update_view(m)->Ok_0;
    lemma_update_shape(m);
    let ra = resized_sections(m1);
    let rb = resized_sections(m);
    lemma_find_key_same_keys(m1.sections, m.sections, ".symtab"@);
    lemma_find_key_same_keys(m1.sections, m.sections, ".strtab"@);
    lemma_find_key_same_keys(m1.sections, m.sections, ".shstrtab"@);
    assert forall|j: int|
        0 <= j < ra.len() implies (#[trigger] ra[j]).1.header.sh_addralign
        == rb[j].1.header.sh_addralign && ra[j].1.body.len() == rb[j].1.body.len() by {
        assert(ra[j].1.body == rebuilt_body(m1, j));
        assert(rb[j].1.body == rebuilt_body(m, j));
        let symtab_i = find_key(m.sections, ".symtab"@);
        let strtab_i = find_key(m.sections, ".strtab"@);
        let shstr_i = find_key(m.sections, ".shstrtab"@);
        if j == symtab_i {
            lemma_symtab_bytes_len(m.header.class, m.header.data, m.symbols);
            lemma_symtab_bytes_len(m.header.class, m.header.data, m1.symbols);
        } else if j == strtab_i {
            assert(rebuilt_body(m1, j) == strtab_bytes(entry_names(m1.symbols)));
        } else if j == shstr_i {
            assert(rebuilt_body(m1, j) == strtab_bytes(entry_names(m1.sections)));
        } else {
            assert(rebuilt_body(m1, j) == m1.sections[j].1.body);
            assert(m1.sections[j].1.body == rebuilt_body(m, j));
        }
    }
}

/// One successful layout pass leaves a model that the next pass accepts.
pub proof fn lemma_update_stable(m: ElfView)
    requires
        update_view(m) is Ok,
    ensures
        update_view(update_view(m)->Ok_0) is Ok,
{
    let m1 = update_view(m)->Ok_0;
    lemma_update_shape(m);
    lemma_resized_congruent(m);
    lemma_find_key_same_keys(m1.sections, m.sections, ".symtab"@);
    lemma_find_key_same_keys(m1.sections, m.sections, ".strtab"@);
    lemma_find_key_same_keys(m1.sections, m.sections, ".shstrtab"@);
    let ra = resized_sections(m1);
    let rb = resized_sections(m);
    let base = layout_base(m);
    assert(layout_fits(ra, base)) by {
        assert forall|i: int|
            0 <= i < ra.len() implies #[trigger] sect_off(ra, base, i) <= u64::MAX && off_after(
            ra,
            base,
            i + 1,
        ) <= u64::MAX by {
            lemma_off_after_congruent(ra, rb, base, i);
            lemma_off_after_congruent(ra, rb, base, i + 1);
        }
        lemma_off_after_congruent(ra, rb, base, ra.len() as int);
    }
    assert(phdr_delta(m1) == 0);
    assert(crate::layout::interp_offsets_fit(m1.programs, 0));
}

/// After two passes, the stored tables are canonical: the third pass's
/// rebuilt bodies and sizes are exactly what the second pass stored, and the
/// symbol table no longer moves.
#[verifier::rlimit(100)]
#[verifier::spinoff_prover]
proof fn lemma_second_pass_canonical(m: ElfView)
    requires
        update_view(m) is Ok,
        update_view(update_view(m)->Ok_0) is Ok,
    ensures
        ({
            let m1 = update_view(m)->Ok_0;
            let m2 = update_view(m1)->Ok_0;
            &&& m2.symbols == m1.symbols
            &&& forall|j: int|
                0 <= j < m2.sections.len() ==> #[trigger] rebuilt_body(m2, j)
                    == m2.sections[j].1.body
            &&& forall|j: int|
                0 <= j < m2.sections.len() ==> #[trigger] rebuilt_size(m2, j)
                    == m2.sections[j].1.header.sh_size
        }),
{
    let m1 = update_view(m)->Ok_0;
    let m2 = update_view(m1)->Ok_0;
    lemma_update_shape(m);
    lemma_update_shape(m1);
    let names_s = entry_names(m.symbols);

    assert(m2.symbols =~= m1.symbols) by {
        assert forall|i: int| 0 <= i < m1.symbols.len() implies m2.symbols[i] == m1.symbols[i] by {
            assert(m1.symbols[i].1.name == strtab_off(names_s, i) as u32);
            assert(m2.symbols[i].1 =~= m1.symbols[i].1);
        }
    }

    let symtab_i = find_key(m.sections, ".symtab"@);
    let strtab_i = find_key(m.sections, ".strtab"@);
    let shstr_i = find_key(m.sections, ".shstrtab"@);
    lemma_find_key_same_keys(m1.sections, m.sections, ".symtab"@);
    lemma_find_key_same_keys(m1.sections, m.sections, ".strtab"@);
    lemma_find_key_same_keys(m1.sections, m.sections, ".shstrtab"@);
    lemma_find_key_same_keys(m2.sections, m1.sections, ".symtab"@);
    lemma_find_key_same_keys(m2.sections, m1.sections, ".strtab"@);
    lemma_find_key_same_keys(m2.sections, m1.sections, ".shstrtab"@);

    assert forall|j: int| 0 <= j < m2.sections.len() implies #[trigger] rebuilt_body(m2, j)
        == m2.sections[j].1.body by {
        if j == symtab_i {
            assert(rebuilt_body(m2, j) == symtab_bytes(
                m2.header.class,
                m2.header.data,
                m2.symbols,
            ));
            assert(rebuilt_body(m1, j) == symtab_bytes(
                m1.header.class,
                m1.header.data,
                m1.symbols,
            ));
            assert(m2.sections[j].1.body == rebuilt_body(m1, j));
        } else if j == strtab_i {
            assert(m2.sections[j].1.body == rebuilt_body(m1, j));
        } else if j == shstr_i {
            assert(m2.sections[j].1.body == rebuilt_body(m1, j));
        } else {
            assert(rebuilt_body(m2, j) == m2.sections[j].1.body);
        }
    }
    assert forall|j: int| 0 <= j < m2.sections.len() implies #[trigger] rebuilt_size(m2, j)
        == m2.sections[j].1.header.sh_size by {
        if j == symtab_i || j == strtab_i || j == shstr_i {
            assert(m2.sections[j].1.header.sh_size == rebuilt_size(m1, j));
            assert(rebuilt_size(m1, j) == rebuilt_body(m1, j).len() as u64);
            assert(rebuilt_body(m2, j) == m2.sections[j].1.body);
            assert(m2.sections[j].1.body == rebuilt_body(m1, j));
        } else {
            assert(rebuilt_size(m2, j) == m2.sections[j].1.header.sh_size);
        }
    }
}

/// The resized tables of the second and third pass agree in alignments and
/// body lengths, and their walks start from the same base.
#[verifier::rlimit(100)]
#[verifier::spinoff_prover]
proof fn lemma_third_walk_congruent(m: ElfView)
    requires
        update_view(m) is Ok,
        update_view(update_view(m)->Ok_0) is Ok,
    ensures
        ({
            let m1 = update_view(m)->Ok_0;
            let m2 = update_view(m1)->Ok_0;
            let r2 = resized_sections(m2);
            let r1 = resized_sections(m1);
            &&& r2.len() == r1.len()
            &&& forall|j: int|
                0 <= j < r2.len() ==> (#[trigger] r2[j]).1.header.sh_addralign
                    == r1[j].1.header.sh_addralign && r2[j].1.body.len() == r1[j].1.body.len()
            &&& layout_base(m2) == layout_base(m1)
        }),
{
    let m1 = update_view(m)->Ok_0;
    let m2 = update_view(m1)->Ok_0;
    lemma_update_shape(m);
    lemma_update_shape(m1);
    lemma_second_pass_canonical(m);
    let r2 = resized_sections(m2);
    let r1 = resized_sections(m1);
    assert forall|j: int|
        0 <= j < r2.len() implies (#[trigger] r2[j]).1.header.sh_addralign
        == r1[j].1.header.sh_addralign && r2[j].1.body.len() == r1[j].1.body.len() by {
        assert(r2[j].1.body == rebuilt_body(m2, j));
        assert(r1[j].1.body == rebuilt_body(m1, j));
        assert(rebuilt_body(m2, j) == m2.sections[j].1.body);
        assert(m2.sections[j].1.body == rebuilt_body(m1, j));
    }
}

/// The third pass leaves the section table unchanged.
#[verifier::rlimit(100)]
#[verifier::spinoff_prover]
proof fn lemma_fixed_point_sections(m: ElfView)
    requires
        update_view(m) is Ok,
        update_view(update_view(m)->Ok_0) is Ok,
        update_view(update_view(update_view(m)->Ok_0)->Ok_0) is Ok,
    ensures
        ({
            let m2 = update_view(update_view(m)->Ok_0)->Ok_0;
            update_view(m2)->Ok_0.sections == m2.sections
        }),
{
    let m1 = update_view(m)->Ok_0;
    let m2 = update_view(m1)->Ok_0;
    let m3 = update_view(m2)->Ok_0;
    lemma_update_shape(m);
    lemma_update_shape(m1);
    lemma_update_shape(m2);
    lemma_second_pass_canonical(m);
    lemma_third_walk_congruent(m);
    let names_c = entry_names(m.sections);
    let r2 = resized_sections(m2);
    let r1 = resized_sections(m1);
    let base = layout_base(m1);
    assert(m3.sections =~= m2.sections) by {
        assert forall|j: int| 0 <= j < m2.sections.len() implies m3.sections[j]
            == m2.sections[j] by {
            lemma_off_after_congruent(r2, r1, base, j);
            assert(m3.sections[j].1.header.sh_offset == sect_off(r2, base, j) as u64);
            assert(m2.sections[j].1.header.sh_offset == sect_off(r1, base, j) as u64);
            assert(m3.sections[j].1.header.sh_name == strtab_off(names_c, j) as u32);
            assert(m2.sections[j].1.header.sh_name == strtab_off(names_c, j) as u32);
            assert(m3.sections[j].1 =~= m2.sections[j].1);
        }
    }
}

/// The third pass leaves the programs, the header and the symbol tables
/// unchanged.
#[verifier::rlimit(100)]
#[verifier::spinoff_prover]
proof fn lemma_fixed_point_rest(m: ElfView)
    requires
        update_view(m) is Ok,
        update_view(update_view(m)->Ok_0) is Ok,
        update_view(update_view(update_view(m)->Ok_0)->Ok_0) is Ok,
    ensures
        ({
            let m2 = update_view(update_view(m)->Ok_0)->Ok_0;
            let m3 = update_view(m2)->Ok_0;
            &&& m3.programs == m2.programs
            &&& m3.header == m2.header
            &&& m3.symbols == m2.symbols
            &&& m3.dynamic_symbols == m2.dynamic_symbols
        }),
{
    let m1 = update_view(m)->Ok_0;
    let m2 = update_view(m1)->Ok_0;
    let m3 = update_view(m2)->Ok_0;
    lemma_update_shape(m);
    lemma_update_shape(m1);
    lemma_update_shape(m2);
    lemma_second_pass_canonical(m);
    lemma_third_walk_congruent(m);
    let names_s = entry_names(m.symbols);
    assert(m3.symbols =~= m2.symbols) by {
        assert forall|i: int| 0 <= i < m2.symbols.len() implies m3.symbols[i] == m2.symbols[i] by {
            assert(m2.symbols[i].1.name == strtab_off(names_s, i) as u32);
            assert(m3.symbols[i].1 =~= m2.symbols[i].1);
        }
    }
    assert(m.programs.len() <= 0xFFFF);
    assert(m1.header.phnum == m.programs.len());
    assert(m2.header.phnum == m1.programs.len());
    assert(phdr_delta(m1) == m1.header.phentsize * 0);
    assert(phdr_delta(m2) == m2.header.phentsize * 0);
    assert(m3.programs =~= m2.programs) by {
        assert forall|j: int| 0 <= j < m2.programs.len() implies m3.programs[j]
            == m2.programs[j] by {
            assert(phdr_delta(m2) == 0 && phdr_delta(m1) == 0);
            assert(m3.programs[j] == fix_program(
                m2.programs[j],
                m2.programs.len() as int,
                m2.header.phentsize,
                0,
            ));
            assert(m2.programs[j] == fix_program(
                m1.programs[j],
                m1.programs.len() as int,
                m1.header.phentsize,
                0,
            ));
        }
    }
    assert(m3.header =~= m2.header) by {
        lemma_find_key_same_keys(m2.sections, m1.sections, ".shstrtab"@);
        lemma_find_key_same_keys(m1.sections, m.sections, ".shstrtab"@);
        lemma_off_after_congruent(
            resized_sections(m2),
            resized_sections(m1),
            layout_base(m1),
            resized_sections(m2).len() as int,
        );
    }
}

/// Law: idempotent layout. One pass may still rewrite the serialized symbol
/// table (its records carry the name offsets the pass itself assigns), but
/// after two passes the model is a fixed point: a third pass returns it
/// unchanged, so repeated normalization settles after the second call.
#[verifier::rlimit(100)]
#[verifier::spinoff_prover]
pub proof fn lemma_layout_idempotent(m: ElfView)
    requires
        update_view(m) is Ok,
    ensures
        update_view(update_view(m)->Ok_0) is Ok,
        ({
            let m2 = update_view(update_view(m)->Ok_0)->Ok_0;
            update_view(m2) == Ok::<ElfView, crate::elf::ElfError>(m2)
        }),
{
    let m1 = update_view(m)->Ok_0;
    lemma_update_stable(m);
    let m2 = update_view(m1)->Ok_0;
    lemma_update_stable(m1);
    let m3 = update_view(m2)->Ok_0;
    lemma_fixed_point_sections(m);
    lemma_fixed_point_rest(m);
    assert(m3 =~= m2);
}

} // verus!
