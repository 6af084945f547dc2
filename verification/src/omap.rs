//! Ordered, name-keyed tables.
//!
//! On-disk order of sections and symbols is derived from the iteration order
//! of the live tables, so the model of a table is a sequence of (name, value)
//! entries, not an unordered map. The executable tables are
//! `indexmap::IndexMap` values, read and written through the trusted items
//! declared here; the spec functions give the insertion semantics that the
//! contracts are stated over.

use vstd::prelude::*;

use crate::elf::{SectView, Section, SymView, Symbol};

verus! {

/// Index of the first entry whose key is `k`, or -1 when no entry has it.
pub open spec fn find_key<V>(s: Seq<(Seq<char>, V)>, k: Seq<char>) -> int
    decreases s.len(),
{
    if s.len() == 0 {
        -1
    } else if s[0].0 == k {
        0
    } else {
        let r = find_key(s.drop_first(), k);
        if r < 0 {
            -1
        } else {
            r + 1
        }
    }
}

pub open spec fn has_key<V>(s: Seq<(Seq<char>, V)>, k: Seq<char>) -> bool {
    find_key(s, k) >= 0
}

/// Insertion into an ordered table: a fresh key is appended at the end; an
/// existing key keeps its position and has its value replaced.
pub open spec fn table_insert<V>(s: Seq<(Seq<char>, V)>, k: Seq<char>, v: V) -> Seq<
    (Seq<char>, V),
> {
    let i = find_key(s, k);
    if i < 0 {
        s.push((k, v))
    } else {
        s.update(i, (k, v))
    }
}

/// All entries of `items` inserted into `acc` in order.
pub open spec fn insert_all<V>(acc: Seq<(Seq<char>, V)>, items: Seq<(Seq<char>, V)>) -> Seq<
    (Seq<char>, V),
>
    decreases items.len(),
{
    if items.len() == 0 {
        acc
    } else {
        table_insert(insert_all(acc, items.drop_last()), items.last().0, items.last().1)
    }
}

/// No two entries share a key.
pub open spec fn unique_keys<V>(s: Seq<(Seq<char>, V)>) -> bool {
    forall|i: int, j: int| 0 <= i < j < s.len() ==> s[i].0 != s[j].0
}

/// `find_key` finds the first entry with the key, and fails exactly when no
/// entry has it.
pub proof fn lemma_find_key<V>(s: Seq<(Seq<char>, V)>, k: Seq<char>)
    ensures
        find_key(s, k) >= 0 ==> find_key(s, k) < s.len() && s[find_key(s, k)].0 == k,
        find_key(s, k) < 0 <==> (forall|i: int| 0 <= i < s.len() ==> s[i].0 != k),
        find_key(s, k) >= 0 ==> (forall|i: int| 0 <= i < find_key(s, k) ==> s[i].0 != k),
    decreases s.len(),
{
    if s.len() > 0 && s[0].0 != k {
        lemma_find_key(s.drop_first(), k);
        assert forall|i: int| 0 <= i < s.len() && s[i].0 == k implies find_key(s, k) >= 0 by {
            if i > 0 {
                assert(s.drop_first()[i - 1].0 == k);
            }
        }
        if find_key(s, k) >= 0 {
            assert forall|i: int| 0 <= i < find_key(s, k) implies s[i].0 != k by {
                if i > 0 {
                    assert(s.drop_first()[i - 1].0 == s[i].0);
                }
            }
        }
    }
}

/// Inserting keeps keys unique.
pub proof fn lemma_table_insert_unique<V>(s: Seq<(Seq<char>, V)>, k: Seq<char>, v: V)
    requires
        unique_keys(s),
    ensures
        unique_keys(table_insert(s, k, v)),
{
    lemma_find_key(s, k);
}

/// Inserting entries whose keys are unique and fresh appends them unchanged.
pub proof fn lemma_insert_all_identity<V>(s: Seq<(Seq<char>, V)>)
    requires
        unique_keys(s),
    ensures
        insert_all(Seq::<(Seq<char>, V)>::empty(), s) == s,
    decreases s.len(),
{
    if s.len() > 0 {
        let front = s.drop_last();
        assert(unique_keys(front)) by {
            assert(forall|i: int, j: int|
                0 <= i < j < front.len() ==> front[i].0 == s[i].0 && front[j].0 == s[j].0);
        }
        lemma_insert_all_identity(front);
        lemma_find_key(front, s.last().0);
        assert(forall|i: int| 0 <= i < front.len() ==> front[i].0 != s.last().0);
        assert(insert_all(Seq::<(Seq<char>, V)>::empty(), s) == front.push(s.last()));
        assert(front.push(s.last()) =~= s);
    } else {
        assert(insert_all(Seq::<(Seq<char>, V)>::empty(), s) =~= s);
    }
}

/// The result of inserting entries one by one always has unique keys.
pub proof fn lemma_insert_all_unique<V>(acc: Seq<(Seq<char>, V)>, items: Seq<(Seq<char>, V)>)
    requires
        unique_keys(acc),
    ensures
        unique_keys(insert_all(acc, items)),
    decreases items.len(),
{
    if items.len() > 0 {
        lemma_insert_all_unique(acc, items.drop_last());
        lemma_table_insert_unique(
            insert_all(acc, items.drop_last()),
            items.last().0,
            items.last().1,
        );
    }
}

#[verifier::external_type_specification]
#[verifier::external_body]
#[verifier::reject_recursive_types(K)]
#[verifier::reject_recursive_types(V)]
#[verifier::reject_recursive_types(S)]
pub struct ExIndexMap<K, V, S>(indexmap::IndexMap<K, V, S>);

/// The ordered (name, section) entries an `indexmap::IndexMap` holds.
pub uninterp spec fn section_entries(m: indexmap::IndexMap<String, Section>) -> Seq<
    (Seq<char>, SectView),
>;

/// The ordered (name, symbol) entries an `indexmap::IndexMap` holds.
pub uninterp spec fn symbol_entries(m: indexmap::IndexMap<String, Symbol>) -> Seq<
    (Seq<char>, SymView),
>;

/// Relies on indexmap::IndexMap::new: the new map is empty.
#[verifier::external_body]
pub(crate) fn sect_map_new() -> (r: indexmap::IndexMap<String, Section>)
    ensures
        section_entries(r) == Seq::<(Seq<char>, SectView)>::empty(),
{
    indexmap::IndexMap::new()
}

/// Relies on indexmap::IndexMap::len: the number of entries.
#[verifier::external_body]
pub(crate) fn sect_map_len(m: &indexmap::IndexMap<String, Section>) -> (r: usize)
    ensures
        r == section_entries(*m).len(),
{
    m.len()
}

/// Relies on indexmap::IndexMap::get_index: entries are ordered, and a
/// position below `len` holds a pair; key and value are cloned out.
#[verifier::external_body]
pub(crate) fn sect_map_at(m: &indexmap::IndexMap<String, Section>, i: usize) -> (r: (
    String,
    Section,
))
    requires
        i < section_entries(*m).len(),
    ensures
        r.0@ == section_entries(*m)[i as int].0,
        r.1@ == section_entries(*m)[i as int].1,
{
    let (k, v) = m.get_index(i).unwrap();
    (k.clone(), v.clone())
}

/// Relies on indexmap::IndexMap::get_index_mut: replaces the value at a
/// position, leaving the key and the order unchanged.
#[verifier::external_body]
pub(crate) fn sect_map_set_at(m: &mut indexmap::IndexMap<String, Section>, i: usize, v: Section)
    requires
        i < section_entries(*old(m)).len(),
    ensures
        section_entries(*final(m)) == section_entries(*old(m)).update(
            i as int,
            (section_entries(*old(m))[i as int].0, v@),
        ),
{
    *m.get_index_mut(i).unwrap().1 = v;
}

/// Relies on indexmap::IndexMap::insert: a fresh key is appended at the end
/// of the order; an existing key keeps its place and has its value replaced,
/// the older value being returned.
#[verifier::external_body]
pub(crate) fn sect_map_insert(
    m: &mut indexmap::IndexMap<String, Section>,
    k: String,
    v: Section,
) -> (r: Option<Section>)
    ensures
        section_entries(*final(m)) == table_insert(section_entries(*old(m)), k@, v@),
        r is Some <==> has_key(section_entries(*old(m)), k@),
{
    m.insert(k, v)
}

/// Relies on indexmap::IndexMap::get_index_of: the position of a key in the
/// entry order, `None` when the key is absent. Keys of a map are unique, so
/// the position is that of the first (only) match.
#[verifier::external_body]
pub(crate) fn sect_map_index_of(m: &indexmap::IndexMap<String, Section>, k: &String) -> (r: Option<
    usize,
>)
    ensures
        match r {
            Some(i) => i == find_key(section_entries(*m), k@),
            None => !has_key(section_entries(*m), k@),
        },
{
    m.get_index_of(k)
}

/// Relies on indexmap::IndexMap::new: the new map is empty.
#[verifier::external_body]
pub(crate) fn sym_map_new() -> (r: indexmap::IndexMap<String, Symbol>)
    ensures
        symbol_entries(r) == Seq::<(Seq<char>, SymView)>::empty(),
{
    indexmap::IndexMap::new()
}

/// Relies on indexmap::IndexMap::len: the number of entries.
#[verifier::external_body]
pub(crate) fn sym_map_len(m: &indexmap::IndexMap<String, Symbol>) -> (r: usize)
    ensures
        r == symbol_entries(*m).len(),
{
    m.len()
}

/// Relies on indexmap::IndexMap::get_index: entries are ordered, and a
/// position below `len` holds a pair; key and value are cloned out.
#[verifier::external_body]
pub(crate) fn sym_map_at(m: &indexmap::IndexMap<String, Symbol>, i: usize) -> (r: (String, Symbol))
    requires
        i < symbol_entries(*m).len(),
    ensures
        r.0@ == symbol_entries(*m)[i as int].0,
        r.1@ == symbol_entries(*m)[i as int].1,
{
    let (k, v) = m.get_index(i).unwrap();
    (k.clone(), v.clone())
}

/// Relies on indexmap::IndexMap::get_index_mut: replaces the value at a
/// position, leaving the key and the order unchanged.
#[verifier::external_body]
pub(crate) fn sym_map_set_at(m: &mut indexmap::IndexMap<String, Symbol>, i: usize, v: Symbol)
    requires
        i < symbol_entries(*old(m)).len(),
    ensures
        symbol_entries(*final(m)) == symbol_entries(*old(m)).update(
            i as int,
            (symbol_entries(*old(m))[i as int].0, v@),
        ),
{
    *m.get_index_mut(i).unwrap().1 = v;
}

/// Relies on indexmap::IndexMap::insert: a fresh key is appended at the end
/// of the order; an existing key keeps its place and has its value replaced,
/// the older value being returned.
#[verifier::external_body]
pub(crate) fn sym_map_insert(
    m: &mut indexmap::IndexMap<String, Symbol>,
    k: String,
    v: Symbol,
) -> (r: Option<Symbol>)
    ensures
        symbol_entries(*final(m)) == table_insert(symbol_entries(*old(m)), k@, v@),
        r is Some <==> has_key(symbol_entries(*old(m)), k@),
{
    m.insert(k, v)
}

/// Relies on indexmap::IndexMap::get_index_of: the position of a key in the
/// entry order, `None` when the key is absent. Keys of a map are unique, so
/// the position is that of the first (only) match.
#[verifier::external_body]
pub(crate) fn sym_map_index_of(m: &indexmap::IndexMap<String, Symbol>, k: &String) -> (r: Option<
    usize,
>)
    ensures
        match r {
            Some(i) => i == find_key(symbol_entries(*m), k@),
            None => !has_key(symbol_entries(*m), k@),
        },
{
    m.get_index_of(k)
}

} // verus!
