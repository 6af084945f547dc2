//! The linker: matches exported function symbols across two object models by
//! name and materializes new sections and a loadable segment for the copied
//! code in the target model.

use vstd::prelude::*;

use crate::elf::{
    fn_entries, Elf, ElfError, ElfView, ProgramHeader, SectView, Section, SectionHeader,
    SegmentType, SymView, Symbol, INJECTED_BASE_VADDR,
};
use crate::omap::{
    find_key, has_key, insert_all, lemma_find_key, lemma_insert_all_unique, sect_map_index_of,
    sect_map_insert, section_entries, sym_map_at, sym_map_index_of, sym_map_insert, sym_map_len,
    sym_map_new, symbol_entries, table_insert, unique_keys,
};
use vstd::string::StringExecFns;

verus! {

/// The entries of `s` whose key also keys an entry of `keys`, in order.
pub open spec fn filter_by_keys(
    s: Seq<(Seq<char>, SymView)>,
    keys: Seq<(Seq<char>, SymView)>,
) -> Seq<(Seq<char>, SymView)>
    decreases s.len(),
{
    if s.len() == 0 {
        Seq::empty()
    } else if has_key(keys, s.last().0) {
        filter_by_keys(s.drop_last(), keys).push(s.last())
    } else {
        filter_by_keys(s.drop_last(), keys)
    }
}

/// The name of the section that carries an injected function's code.
pub open spec fn fn_section_name(name: Seq<char>) -> Seq<char> {
    ".fn_"@ + name
}

/// Distinct function names give distinct injected-section names.
pub proof fn lemma_fn_section_name_injective(a: Seq<char>, b: Seq<char>)
    requires
        fn_section_name(a) == fn_section_name(b),
    ensures
        a == b,
{
    let p = ".fn_"@;
    assert(fn_section_name(a).subrange(p.len() as int, fn_section_name(a).len() as int) =~= a);
    assert(fn_section_name(b).subrange(p.len() as int, fn_section_name(b).len() as int) =~= b);
}

/// The section materialized for one matched function symbol: named after the
/// function, holding its copied code, 16-byte aligned, with the executable
/// section type.
pub open spec fn fn_section(s: SymView) -> SectView {
    SectView {
        header: SectionHeader {
            sh_name: 0,
            sh_type: 1,
            sh_flags: 0,
            sh_addr: 0,
            sh_offset: 0,
            sh_size: s.data.len() as u64,
            sh_link: 0,
            sh_info: 0,
            sh_addralign: 16,
            sh_entsize: 1,
        },
        body: s.data,
    }
}

/// The sections materialized for the matched symbols, in match order.
pub open spec fn added_sections(matched: Seq<(Seq<char>, SymView)>) -> Seq<(Seq<char>, SectView)> {
    matched.map(|i: int, p: (Seq<char>, SymView)| (fn_section_name(p.0), fn_section(p.1)))
}

/// Total byte size of the matched function bodies, by their declared sizes.
pub open spec fn sum_sizes(matched: Seq<(Seq<char>, SymView)>) -> int
    decreases matched.len(),
{
    if matched.len() == 0 {
        0
    } else {
        sum_sizes(matched.drop_last()) + matched.last().1.size
    }
}

/// Partial sums never shrink.
pub proof fn lemma_sum_sizes_monotone(matched: Seq<(Seq<char>, SymView)>, i: int, j: int)
    requires
        0 <= i <= j <= matched.len(),
    ensures
        sum_sizes(matched.subrange(0, i)) <= sum_sizes(matched.subrange(0, j)),
        0 <= sum_sizes(matched.subrange(0, i)),
    decreases j - i,
{
    if i < j {
        lemma_sum_sizes_monotone(matched, i, j - 1);
        let pre = matched.subrange(0, j - 1);
        let post = matched.subrange(0, j);
        assert(post.drop_last() =~= pre);
        assert(sum_sizes(post) == sum_sizes(pre) + post.last().1.size);
    } else {
        if i > 0 {
            let pre = matched.subrange(0, i);
            assert(sum_sizes(pre) == sum_sizes(pre.drop_last()) + pre.last().1.size);
            lemma_sum_sizes_nonneg(pre);
        }
    }
}

pub proof fn lemma_sum_sizes_nonneg(matched: Seq<(Seq<char>, SymView)>)
    ensures
        0 <= sum_sizes(matched),
    decreases matched.len(),
{
    if matched.len() > 0 {
        lemma_sum_sizes_nonneg(matched.drop_last());
    }
}

/// A key of a table after an insertion is the inserted key or one the table
/// already had.
pub proof fn lemma_has_key_table_insert<V>(s: Seq<(Seq<char>, V)>, k2: Seq<char>, v: V, k: Seq<char>)
    ensures
        has_key(table_insert(s, k2, v), k) <==> (has_key(s, k) || k == k2),
{
    lemma_find_key(s, k);
    lemma_find_key(s, k2);
    lemma_find_key(table_insert(s, k2, v), k);
    let t = table_insert(s, k2, v);
    if has_key(s, k) || k == k2 {
        if !has_key(t, k) {
            if k == k2 {
                let i = if find_key(s, k2) < 0 {
                    s.len() as int
                } else {
                    find_key(s, k2)
                };
                assert(t[i].0 == k);
            } else {
                let i = find_key(s, k);
                assert(t[i].0 == k);
            }
        }
    } else {
        if has_key(t, k) {
            let i = find_key(t, k);
            assert(t[i].0 == k);
            if find_key(s, k2) < 0 {
                if i < s.len() {
                    assert(s[i].0 == k);
                }
            } else {
                if i != find_key(s, k2) {
                    assert(s[i].0 == k);
                }
            }
        }
    }
}

/// The key set of `insert_all` is the union of both key sets.
pub proof fn lemma_has_key_insert_all<V>(
    acc: Seq<(Seq<char>, V)>,
    items: Seq<(Seq<char>, V)>,
    k: Seq<char>,
)
    ensures
        has_key(insert_all(acc, items), k) <==> (has_key(acc, k) || has_key(items, k)),
    decreases items.len(),
{
    if items.len() == 0 {
        lemma_find_key(items, k);
    } else {
        lemma_has_key_insert_all(acc, items.drop_last(), k);
        lemma_has_key_table_insert(
            insert_all(acc, items.drop_last()),
            items.last().0,
            items.last().1,
            k,
        );
        lemma_find_key(items, k);
        lemma_find_key(items.drop_last(), k);
        if has_key(items, k) && k != items.last().0 {
            let i = find_key(items, k);
            if i < items.len() - 1 {
                assert(items.drop_last()[i].0 == k);
            }
        }
        if has_key(items.drop_last(), k) {
            let i = find_key(items.drop_last(), k);
            assert(items[i].0 == k);
        }
    }
}

/// Some dynamic symbol of name `k` carries the global-function info byte.
pub open spec fn has_fn_symbol(d: Seq<(Seq<char>, SymView)>, k: Seq<char>) -> bool {
    exists|i: int|
        0 <= i < d.len() && (#[trigger] d[i]).0 == k && d[i].1.info
            == crate::elf::FUNCTION_SYMBOL_INFO
}

/// A table holds a function entry for a name exactly when some dynamic
/// symbol of that name has the global-function info byte.
pub proof fn lemma_has_key_fn_entries(d: Seq<(Seq<char>, SymView)>, k: Seq<char>)
    ensures
        has_key(fn_entries(d), k) <==> has_fn_symbol(d, k),
    decreases d.len(),
{
    lemma_find_key(fn_entries(d), k);
    if d.len() > 0 {
        let front = d.drop_last();
        lemma_has_key_fn_entries(front, k);
        lemma_find_key(fn_entries(front), k);
        let last_matches = d.last().1.info == crate::elf::FUNCTION_SYMBOL_INFO;
        // Forward: a key of fn_entries(d) is a function symbol of d.
        if has_key(fn_entries(d), k) {
            if last_matches {
                let fe = fn_entries(front).push(d.last());
                let i = find_key(fe, k);
                assert(fe[i].0 == k);
                if i < fn_entries(front).len() {
                    assert(fn_entries(front)[i].0 == k);
                    assert(has_key(fn_entries(front), k));
                    let j = choose|j: int|
                        0 <= j < front.len() && (#[trigger] front[j]).0 == k && front[j].1.info
                            == crate::elf::FUNCTION_SYMBOL_INFO;
                    assert(d[j] == front[j]);
                    assert(has_fn_symbol(d, k));
                } else {
                    assert(d[d.len() - 1].0 == k);
                    assert(has_fn_symbol(d, k));
                }
            } else {
                assert(has_key(fn_entries(front), k));
                let j = choose|j: int|
                    0 <= j < front.len() && (#[trigger] front[j]).0 == k && front[j].1.info
                        == crate::elf::FUNCTION_SYMBOL_INFO;
                assert(d[j] == front[j]);
                assert(has_fn_symbol(d, k));
            }
        }
        // Backward: a function symbol of d keys fn_entries(d).
        if has_fn_symbol(d, k) {
            let i = choose|i: int|
                0 <= i < d.len() && (#[trigger] d[i]).0 == k && d[i].1.info
                    == crate::elf::FUNCTION_SYMBOL_INFO;
            if i < d.len() - 1 {
                assert(front[i] == d[i]);
                assert(has_fn_symbol(front, k));
                assert(has_key(fn_entries(front), k));
                let j = find_key(fn_entries(front), k);
                if last_matches {
                    let fe = fn_entries(front).push(d.last());
                    assert(fe[j].0 == k);
                    lemma_find_key(fe, k);
                    assert(has_key(fn_entries(d), k));
                }
            } else {
                assert(last_matches);
                let fe = fn_entries(front).push(d.last());
                assert(fe[fe.len() - 1].0 == k);
                lemma_find_key(fe, k);
                assert(has_key(fn_entries(d), k));
            }
        }
    }
}

/// A filtered table keeps exactly the keys present on both sides.
pub proof fn lemma_has_key_filter_by_keys(
    s: Seq<(Seq<char>, SymView)>,
    keys: Seq<(Seq<char>, SymView)>,
    k: Seq<char>,
)
    ensures
        has_key(filter_by_keys(s, keys), k) <==> (has_key(s, k) && has_key(keys, k)),
    decreases s.len(),
{
    lemma_find_key(s, k);
    lemma_find_key(filter_by_keys(s, keys), k);
    if s.len() > 0 {
        let front = s.drop_last();
        lemma_has_key_filter_by_keys(front, keys, k);
        lemma_find_key(front, k);
        lemma_find_key(filter_by_keys(front, keys), k);
        if has_key(front, k) {
            let i = find_key(front, k);
            assert(s[i].0 == k);
        }
        if has_key(s, k) && !has_key(front, k) {
            let i = find_key(s, k);
            if i < s.len() - 1 {
                assert(front[i].0 == k);
            }
            assert(s.last().0 == k);
        }
        if has_key(keys, s.last().0) {
            let fe = filter_by_keys(front, keys).push(s.last());
            if has_key(fe, k) {
                let i = find_key(fe, k);
                if i < fe.len() - 1 {
                    assert(filter_by_keys(front, keys)[i].0 == k);
                }
            }
            if has_key(filter_by_keys(front, keys), k) {
                let i = find_key(filter_by_keys(front, keys), k);
                assert(fe[i].0 == k);
            }
            if k == s.last().0 {
                assert(fe[fe.len() - 1].0 == k);
            }
        }
    }
}

/// Filtering keeps keys unique.
pub proof fn lemma_filter_by_keys_unique(
    s: Seq<(Seq<char>, SymView)>,
    keys: Seq<(Seq<char>, SymView)>,
)
    requires
        unique_keys(s),
    ensures
        unique_keys(filter_by_keys(s, keys)),
        forall|k: Seq<char>| #[trigger] has_key(filter_by_keys(s, keys), k) ==> has_key(s, k),
    decreases s.len(),
{
    assert forall|k: Seq<char>| #[trigger] has_key(filter_by_keys(s, keys), k) implies has_key(
        s,
        k,
    ) by {
        lemma_has_key_filter_by_keys(s, keys, k);
    }
    if s.len() > 0 {
        let front = s.drop_last();
        assert(unique_keys(front)) by {
            assert(forall|i: int, j: int|
                0 <= i < j < front.len() ==> front[i].0 == s[i].0 && front[j].0 == s[j].0);
        }
        lemma_filter_by_keys_unique(front, keys);
        if has_key(keys, s.last().0) {
            let fe = filter_by_keys(front, keys).push(s.last());
            assert forall|i: int, j: int| 0 <= i < j < fe.len() implies fe[i].0 != fe[j].0 by {
                if j == fe.len() - 1 {
                    if fe[i].0 == s.last().0 {
                        lemma_find_key(filter_by_keys(front, keys), s.last().0);
                        assert(has_key(filter_by_keys(front, keys), s.last().0));
                        lemma_has_key_filter_by_keys(front, keys, s.last().0);
                        lemma_find_key(front, s.last().0);
                        let fi = find_key(front, s.last().0);
                        assert(s[fi].0 == s[s.len() - 1].0);
                    }
                }
            }
        }
    }
}

/// A key of a concatenation is a key of one of its parts.
pub proof fn lemma_has_key_add<V>(a: Seq<(Seq<char>, V)>, b: Seq<(Seq<char>, V)>, k: Seq<char>)
    ensures
        has_key(a + b, k) <==> (has_key(a, k) || has_key(b, k)),
{
    lemma_find_key(a + b, k);
    lemma_find_key(a, k);
    lemma_find_key(b, k);
    if has_key(a + b, k) {
        let i = find_key(a + b, k);
        assert((a + b)[i].0 == k);
        if i < a.len() {
            assert(a[i].0 == k);
        } else {
            assert(b[i - a.len()].0 == k);
        }
    }
    if has_key(a, k) {
        let i = find_key(a, k);
        assert((a + b)[i].0 == k);
    }
    if has_key(b, k) {
        let i = find_key(b, k);
        assert((a + b)[a.len() + i].0 == k);
    }
}

/// The linker's result on a target and a source model: the mutated target
/// and the matched entries, or the error linking stops with.
pub open spec fn link_view(t: ElfView, s: ElfView) -> Result<
    (ElfView, Seq<(Seq<char>, SymView)>),
    ElfError,
> {
    let tf = insert_all(Seq::<(Seq<char>, SymView)>::empty(), fn_entries(t.dynamic_symbols));
    let sf = insert_all(Seq::<(Seq<char>, SymView)>::empty(), fn_entries(s.dynamic_symbols));
    let matched = filter_by_keys(sf, tf);
    if exists|i: int|
        0 <= i < matched.len() && has_key(t.sections, fn_section_name(#[trigger] matched[i].0)) {
        Err(ElfError::SectionCollision)
    } else if sum_sizes(matched) > u64::MAX {
        Err(ElfError::TooLarge)
    } else {
        Ok(
            (
                ElfView {
                    sections: t.sections + added_sections(matched),
                    programs: t.programs.push(
                        ProgramHeader {
                            p_type: SegmentType::Load,
                            p_flags: 5,
                            p_offset: (t.header.ehsize + t.header.phentsize
                                * t.header.phnum) as u64,
                            p_vaddr: INJECTED_BASE_VADDR,
                            p_paddr: INJECTED_BASE_VADDR,
                            p_filesz: sum_sizes(matched) as u64,
                            p_memsz: sum_sizes(matched) as u64,
                            p_align: 4096,
                        },
                    ),
                    ..t
                },
                matched,
            ),
        )
    }
}

impl Elf {
    /// Links another image into this one: intersects both images'
    /// exported-function dynamic symbols by name, adds one section per match
    /// holding the function's copied code, appends one read+execute loadable
    /// segment covering the injected code, and returns the matched symbols.
    /// A match whose section name already exists in the target is a linking
    /// conflict: the call is rejected and the target left untouched.
    /// Rewriting call sites to jump into the injected code is a distinct,
    /// optional step over the trampoline generator.
    #[verifier::loop_isolation(false)]
    #[verifier::rlimit(100)]
    #[verifier::spinoff_prover]
    pub fn link(&mut self, other: &Elf) -> (r: Result<
        indexmap::IndexMap<String, Symbol>,
        ElfError,
    >)
        ensures
            match link_view(old(self)@, other@) {
                Ok(res) => r matches Ok(map) && final(self)@ == res.0 && symbol_entries(map)
                    == res.1,
                Err(e) => r == Err::<indexmap::IndexMap<String, Symbol>, ElfError>(e)
                    && final(self)@ == old(self)@,
            },
    {
        let ghost m0 = self@;
        let ghost empty_syms = Seq::<(Seq<char>, SymView)>::empty();
        let ghost tf_g = insert_all(empty_syms, fn_entries(m0.dynamic_symbols));
        let ghost sf_g = insert_all(empty_syms, fn_entries(other@.dynamic_symbols));
        let ghost matched_g = filter_by_keys(sf_g, tf_g);

        let target_fns = self.get_functions();
        let source_fns = other.get_functions();
        proof {
            assert(unique_keys(empty_syms));
            lemma_insert_all_unique(empty_syms, fn_entries(other@.dynamic_symbols));
            assert(unique_keys(sf_g));
            lemma_filter_by_keys_unique(sf_g, tf_g);
        }

        // Intersect by name, in the source's table order.
        let n_src = sym_map_len(&source_fns);
        let mut matched = sym_map_new();
        let mut i: usize = 0;
        while i < n_src
            invariant
                i <= n_src,
                symbol_entries(matched) == filter_by_keys(sf_g.subrange(0, i as int), tf_g),
            decreases n_src - i,
        {
            let (name, sym) = sym_map_at(&source_fns, i);
            let hit = match sym_map_index_of(&target_fns, &name) {
                Some(_) => true,
                None => false,
            };
            proof {
                let pre = sf_g.subrange(0, i as int);
                let post = sf_g.subrange(0, i as int + 1);
                assert(post.drop_last() =~= pre);
                assert(post.last() == sf_g[i as int]);
            }
            if hit {
                proof {
                    let pre = sf_g.subrange(0, i as int);
                    let key = sf_g[i as int].0;
                    assert(!has_key(pre, key)) by {
                        lemma_find_key(pre, key);
                        if has_key(pre, key) {
                            let j = find_key(pre, key);
                            assert(pre[j].0 == key);
                            assert(sf_g[j].0 == sf_g[i as int].0);
                        }
                    }
                    assert(!has_key(filter_by_keys(pre, tf_g), key)) by {
                        lemma_has_key_filter_by_keys(pre, tf_g, key);
                    }
                }
                sym_map_insert(&mut matched, name, sym);
            }
            i = i + 1;
        }
        proof {
            assert(sf_g.subrange(0, n_src as int) =~= sf_g);
            assert(symbol_entries(matched) == matched_g);
        }

        // Reject a match whose section name the target already has.
        let n_m = sym_map_len(&matched);
        let mut i: usize = 0;
        while i < n_m
            invariant
                i <= n_m,
                forall|k: int|
                    0 <= k < i as int ==> !has_key(
                        m0.sections,
                        fn_section_name(#[trigger] matched_g[k].0),
                    ),
            decreases n_m - i,
        {
            let (name, _sym) = sym_map_at(&matched, i);
            let mut sect_name = String::from_str(".fn_");
            sect_name.append(name.as_str());
            proof {
                assert(sect_name@ == fn_section_name(matched_g[i as int].0));
            }
            let found = match sect_map_index_of(&self.sections, &sect_name) {
                Some(_) => true,
                None => false,
            };
            if found {
                return Err(ElfError::SectionCollision);
            }
            i = i + 1;
        }
        proof {
            assert(!(exists|i: int|
                0 <= i < matched_g.len() && has_key(
                    m0.sections,
                    fn_section_name(#[trigger] matched_g[i].0),
                )));
        }

        // Total size of the matched function bodies.
        let mut fn_size: u64 = 0;
        let mut i: usize = 0;
        while i < n_m
            invariant
                i <= n_m,
                fn_size == sum_sizes(matched_g.subrange(0, i as int)),
            decreases n_m - i,
        {
            let (_name, sym) = sym_map_at(&matched, i);
            proof {
                let pre = matched_g.subrange(0, i as int);
                let post = matched_g.subrange(0, i as int + 1);
                assert(post.drop_last() =~= pre);
                assert(post.last() == matched_g[i as int]);
            }
            if fn_size > u64::MAX - sym.sym_size {
                proof {
                    lemma_sum_sizes_monotone(matched_g, i as int + 1, matched_g.len() as int);
                    assert(matched_g.subrange(0, matched_g.len() as int) =~= matched_g);
                }
                return Err(ElfError::TooLarge);
            }
            fn_size = fn_size + sym.sym_size;
            i = i + 1;
        }
        proof {
            assert(matched_g.subrange(0, n_m as int) =~= matched_g);
            assert(fn_size == sum_sizes(matched_g));
        }

        // Materialize one section per matched function.
        let mut i: usize = 0;
        while i < n_m
            invariant
                i <= n_m,
                self.header@ == m0.header,
                self.programs@ == m0.programs,
                symbol_entries(self.symbols) == m0.symbols,
                symbol_entries(self.dynamic_symbols) == m0.dynamic_symbols,
                section_entries(self.sections) == m0.sections + added_sections(
                    matched_g.subrange(0, i as int),
                ),
            decreases n_m - i,
        {
            let (name, sym) = sym_map_at(&matched, i);
            let mut sect_name = String::from_str(".fn_");
            sect_name.append(name.as_str());
            let mut sect = Section::new(sym.sym_data);
            sect.header.sh_addralign = 16;
            sect.header.sh_type = 1;
            proof {
                assert(sect@ =~= fn_section(matched_g[i as int].1));
                assert(sect_name@ == fn_section_name(matched_g[i as int].0));
                let cur = m0.sections + added_sections(matched_g.subrange(0, i as int));
                assert(!has_key(cur, sect_name@)) by {
                    lemma_has_key_add(
                        m0.sections,
                        added_sections(matched_g.subrange(0, i as int)),
                        sect_name@,
                    );
                    let added = added_sections(matched_g.subrange(0, i as int));
                    lemma_find_key(added, sect_name@);
                    if has_key(added, sect_name@) {
                        let j = find_key(added, sect_name@);
                        assert(added[j].0 == fn_section_name(matched_g[j].0));
                        lemma_fn_section_name_injective(matched_g[j].0, matched_g[i as int].0);
                    }
                }
                lemma_find_key(cur, sect_name@);
                let pre = matched_g.subrange(0, i as int);
                let post = matched_g.subrange(0, i as int + 1);
                assert(added_sections(post) =~= added_sections(pre).push(
                    (fn_section_name(matched_g[i as int].0), fn_section(matched_g[i as int].1)),
                ));
                assert(cur.push((sect_name@, sect@)) =~= m0.sections + added_sections(post));
            }
            sect_map_insert(&mut self.sections, sect_name, sect);
            i = i + 1;
        }
        proof {
            assert(matched_g.subrange(0, n_m as int) =~= matched_g);
        }

        // One loadable segment covering the injected code, placed after the
        // header and the current program-header table.
        let ehsize = self.header.e_ehsize;
        let phentsize = self.header.e_phentsize;
        let phnum = self.header.e_phnum;
        proof {
            assert((phentsize as u64) * (phnum as u64) <= 0xFFFFu64 * 0xFFFFu64)
                by (nonlinear_arith)
                requires
                    phentsize <= 0xFFFFu16,
                    phnum <= 0xFFFFu16,
            ;
        }
        let p_off: u64 = ehsize as u64 + (phentsize as u64) * (phnum as u64);
        let ph = ProgramHeader {
            p_type: SegmentType::Load,
            p_flags: 5,
            p_offset: p_off,
            p_vaddr: INJECTED_BASE_VADDR,
            p_paddr: INJECTED_BASE_VADDR,
            p_filesz: fn_size,
            p_memsz: fn_size,
            p_align: 4096,
        };
        self.programs.push(ph);
        proof {
            let res = link_view(m0, other@)->Ok_0;
            assert(self@.sections =~= res.0.sections);
            assert(self@.programs =~= res.0.programs);
            assert(self@ =~= res.0);
        }
        Ok(matched)
    }
}

} // verus!
