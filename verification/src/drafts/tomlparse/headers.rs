//! What table headers and arrays-of-tables headers do to the table, and
//! putting a key-value pair into the table a header selected.
use vstd::prelude::*;
use crate::errors::{ErrorKind, TomlError};
use crate::tomltypes::{TOMLTable, TOMLType, TomlValue, TableView, tv_index, tv_insert_dotted, lemma_entries_view, lemma_tables_view, lemma_index_from, entries_view, tables_view, value_view};
use super::KeyVal;
use super::values::{insert_keyval, partial_key};
use super::statements::{key_scan, eol_check};
use super::{Place, Failure};
use crate::text::{tok, join_with, split_on};

verus! {

broadcast use crate::tomltypes::TOMLTable::lemma_rows;

/// The effect of a table header `[k0.k1...]` on a table: the keys before
/// the last pass through header tables (created when missing), dotted-key
/// tables or the last table of an array of tables; the last key names a
/// header table, created when missing. `pure` tells whether only header
/// tables were passed so far; an existing last key is refused unless it was.
pub open spec fn header_walk(t: TableView, ks: Seq<Seq<char>>, pure: bool) -> Result<TableView, ErrorKind>
    decreases ks.len(),
{
    if ks.len() == 0 {
        Err(ErrorKind::NoKey)
    } else if ks.len() == 1 {
        match tv_index(t, ks[0]) {
            Some(i) => if !pure {
                Err(ErrorKind::TableHeaderRedefinesEntry)
            } else if t[i].1 is HTable {
                Ok(t)
            } else {
                Err(ErrorKind::TableHeaderLastNotTable)
            },
            None => Ok(t.push((ks[0], TomlValue::HTable(TableView::empty())))),
        }
    } else {
        let rest = ks.drop_first();
        match tv_index(t, ks[0]) {
            Some(i) => match t[i].1 {
                TomlValue::HTable(sub) => match header_walk(sub, rest, pure) {
                    Ok(s2) => Ok(t.update(i, (ks[0], TomlValue::HTable(s2)))),
                    Err(k) => Err(k),
                },
                TomlValue::DKTable(sub) => match header_walk(sub, rest, false) {
                    Ok(s2) => Ok(t.update(i, (ks[0], TomlValue::DKTable(s2)))),
                    Err(k) => Err(k),
                },
                TomlValue::AoT(ts) => if ts.len() > 0 {
                    match header_walk(ts.last(), rest, false) {
                        Ok(s2) => Ok(t.update(i, (ks[0], TomlValue::AoT(ts.update(ts.len() - 1, s2))))),
                        Err(k) => Err(k),
                    }
                } else {
                    Err(ErrorKind::TableHeaderNotTable)
                },
                _ => Err(ErrorKind::TableHeaderNotTable),
            },
            None => match header_walk(TableView::empty(), rest, pure) {
                Ok(s2) => Ok(t.push((ks[0], TomlValue::HTable(s2)))),
                Err(k) => Err(k),
            },
        }
    }
}

/// The effect of an array-of-tables header `[[k0.k1...]]`: every key names
/// an array of tables (created with one empty table when missing); the keys
/// before the last pass through the last table of theirs, and the last
/// array gets a new empty table.
pub open spec fn aot_walk(t: TableView, ks: Seq<Seq<char>>) -> Result<TableView, ErrorKind>
    decreases ks.len(),
{
    if ks.len() == 0 {
        Err(ErrorKind::NoKey)
    } else if ks.len() == 1 {
        match tv_index(t, ks[0]) {
            Some(i) => match t[i].1 {
                TomlValue::AoT(ts) => Ok(t.update(i, (ks[0], TomlValue::AoT(ts.push(TableView::empty()))))),
                _ => Err(ErrorKind::ArrayOfTablesParentNotArray),
            },
            None => Ok(t.push((ks[0], TomlValue::AoT(seq![TableView::empty()])))),
        }
    } else {
        let rest = ks.drop_first();
        match tv_index(t, ks[0]) {
            Some(i) => match t[i].1 {
                TomlValue::AoT(ts) => if ts.len() > 0 {
                    match aot_walk(ts.last(), rest) {
                        Ok(s2) => Ok(t.update(i, (ks[0], TomlValue::AoT(ts.update(ts.len() - 1, s2))))),
                        Err(k) => Err(k),
                    }
                } else {
                    Err(ErrorKind::ArrayOfTablesParentNotArray)
                },
                _ => Err(ErrorKind::ArrayOfTablesParentNotArray),
            },
            None => match aot_walk(TableView::empty(), rest) {
                Ok(s2) => Ok(t.push((ks[0], TomlValue::AoT(seq![s2])))),
                Err(k) => Err(k),
            },
        }
    }
}

/// The rest of an array-of-tables header from a place (after `[[`): its
/// keys and the place of the first closing bracket, checked up to the end
/// of the line.
pub open spec fn aot_scan(lines: Seq<Seq<char>>, pl: Place) -> Result<(Seq<Seq<char>>, Place), Failure> {
    match key_scan(lines, pl, Seq::empty(), Seq::empty(), false) {
        Err(f) => Err(f),
        Ok((segs, pk)) => {
            let g = pk.graphs;
            let j = pk.pos;
            if segs.len() == 0 {
                Err((ErrorKind::NoKey, pk.read, Seq::empty()))
            } else if g[j] != tok(']') || j + 1 >= g.len() || g[j + 1] != tok(']') {
                Err((ErrorKind::ArrayOfTablesUnclosed, pk.line, Seq::empty()))
            } else if j + 2 >= g.len() {
                Err((ErrorKind::MissingLineEnd, pk.line, Seq::empty()))
            } else {
                match eol_check(g, j + 2) {
                    Ok(_) => Ok((segs, pk)),
                    Err((k, d)) => Err((k, pk.line, d)),
                }
            }
        },
    }
}

/// A table header read from a place (the opening `[`): its keys, whether
/// it is an array-of-tables header, and the place of the closing bracket,
/// checked up to the end of the line.
pub open spec fn header_scan(lines: Seq<Seq<char>>, pl: Place) -> Result<(Seq<Seq<char>>, bool, Place), Failure> {
    let g0 = pl.graphs;
    let i = pl.pos;
    if i + 1 < g0.len() && g0[i + 1] == tok('[') {
        match aot_scan(lines, Place { pos: i + 2, ..pl }) {
            Err(f) => Err(f),
            Ok((segs, pk)) => Ok((segs, true, pk)),
        }
    } else {
        match key_scan(lines, Place { pos: i + 1, ..pl }, Seq::empty(), Seq::empty(), false) {
            Err(f) => Err(f),
            Ok((segs, pk)) => {
                let g = pk.graphs;
                let j = pk.pos;
                if segs.len() == 0 {
                    Err((ErrorKind::NoKey, pk.read, Seq::empty()))
                } else if g[j] != tok(']') {
                    Err((ErrorKind::TableHeaderUnclosed, pl.line, Seq::empty()))
                } else if j + 1 >= g.len() {
                    Err((ErrorKind::MissingLineEnd, pl.line, Seq::empty()))
                } else {
                    match eol_check(g, j + 1) {
                        Ok(_) => Ok((segs, false, pk)),
                        Err((k, d)) => Err((k, pk.line, d)),
                    }
                }
            },
        }
    }
}

/// The path text of header keys: joined by a NUL character.
pub open spec fn path_text(segs: Seq<Seq<char>>) -> Seq<char> {
    join_with(segs, seq!['\0'])
}

/// What a header with the given keys does to the table and to the list of
/// header paths met so far.
pub open spec fn header_effect(t: TableView, heads: Seq<Seq<char>>, segs: Seq<Seq<char>>, aot: bool) -> Result<(TableView, Seq<Seq<char>>), (ErrorKind, Seq<char>)> {
    let keys = split_on(path_text(segs), seq!['\0']);
    if aot {
        match aot_walk(t, keys) {
            Ok(t2) => Ok((t2, heads)),
            Err(k) => Err((k, Seq::empty())),
        }
    } else if heads.contains(path_text(segs)) {
        Err((ErrorKind::TableHeaderRedefined, path_text(segs)))
    } else {
        match header_walk(t, keys, true) {
            Ok(t2) => Ok((t2, heads.push(path_text(segs)))),
            Err(k) => Err((k, Seq::empty())),
        }
    }
}

/// Law: a table header is defined once: after a plain header has been
/// applied, the same header again is refused as a redefinition.
pub proof fn law_header_defined_once(t: TableView, heads: Seq<Seq<char>>, segs: Seq<Seq<char>>)
    requires
        header_effect(t, heads, segs, false) is Ok,
    ensures
        ({
            let (t2, h2) = header_effect(t, heads, segs, false)->Ok_0;
            header_effect(t2, h2, segs, false) == Err::<(TableView, Seq<Seq<char>>), (ErrorKind, Seq<char>)>(
                (ErrorKind::TableHeaderRedefined, path_text(segs)),
            )
        }),
{
    let (t2, h2) = header_effect(t, heads, segs, false)->Ok_0;
    assert(h2[h2.len() - 1] == path_text(segs));
}

/// The table that a path of keys selects: each key passes through a header
/// table, a dotted-key table, or the last table of an array of tables.
pub open spec fn descend(t: TableView, path: Seq<Seq<char>>) -> Option<TableView>
    decreases path.len(),
{
    if path.len() == 0 {
        Some(t)
    } else {
        match tv_index(t, path[0]) {
            Some(i) => match t[i].1 {
                TomlValue::HTable(sub) => descend(sub, path.drop_first()),
                TomlValue::DKTable(sub) => descend(sub, path.drop_first()),
                TomlValue::AoT(ts) => if ts.len() > 0 {
                    descend(ts.last(), path.drop_first())
                } else {
                    None
                },
                _ => None,
            },
            None => None,
        }
    }
}

/// Inserting a value under a dotted key into the table a path selects:
/// `Err(None)` when the path selects none, `Err(Some(level))` when the key
/// at that level is taken.
pub open spec fn tv_insert_at(t: TableView, path: Seq<Seq<char>>, keys: Seq<Seq<char>>, v: TomlValue) -> Result<TableView, Option<int>>
    decreases path.len(),
{
    if path.len() == 0 {
        match tv_insert_dotted(t, keys, v) {
            Ok(t2) => Ok(t2),
            Err(l) => Err(Some(l)),
        }
    } else {
        match tv_index(t, path[0]) {
            Some(i) => match t[i].1 {
                TomlValue::HTable(sub) => match tv_insert_at(sub, path.drop_first(), keys, v) {
                    Ok(s2) => Ok(t.update(i, (path[0], TomlValue::HTable(s2)))),
                    Err(e) => Err(e),
                },
                TomlValue::DKTable(sub) => match tv_insert_at(sub, path.drop_first(), keys, v) {
                    Ok(s2) => Ok(t.update(i, (path[0], TomlValue::DKTable(s2)))),
                    Err(e) => Err(e),
                },
                TomlValue::AoT(ts) => if ts.len() > 0 {
                    match tv_insert_at(ts.last(), path.drop_first(), keys, v) {
                        Ok(s2) => Ok(t.update(i, (path[0], TomlValue::AoT(ts.update(ts.len() - 1, s2))))),
                        Err(e) => Err(e),
                    }
                } else {
                    Err(None)
                },
                _ => Err(None),
            },
            None => Err(None),
        }
    }
}

} // verus!

verus! {

/// A table's model after its entry at `i` is replaced.
proof fn lemma_replace_entry(old_es: Seq<(String, TOMLType)>, new_es: Seq<(String, TOMLType)>, i: int, e: (String, TOMLType))
    requires
        0 <= i < old_es.len(),
        new_es == old_es.update(i, e),
    ensures
        entries_view(new_es) == entries_view(old_es).update(i, (e.0@, value_view(e.1))),
{
    lemma_entries_view(old_es);
    lemma_entries_view(new_es);
    assert(entries_view(new_es) =~= entries_view(old_es).update(i, (e.0@, value_view(e.1))));
}

/// A table's model after an entry is appended.
proof fn lemma_push_entry(old_es: Seq<(String, TOMLType)>, e: (String, TOMLType))
    ensures
        entries_view(old_es.push(e)) == entries_view(old_es).push((e.0@, value_view(e.1))),
{
    lemma_entries_view(old_es);
    lemma_entries_view(old_es.push(e));
    assert(entries_view(old_es.push(e)) =~= entries_view(old_es).push((e.0@, value_view(e.1))));
}

/// The model of an array of tables after its last table is replaced.
proof fn lemma_replace_last(ts: Seq<TOMLTable>, t: TOMLTable)
    requires
        ts.len() > 0,
    ensures
        tables_view(ts.drop_last().push(t)) == tables_view(ts).update(ts.len() - 1, t@),
{
    lemma_tables_view(ts);
    lemma_tables_view(ts.drop_last().push(t));
    assert(tables_view(ts.drop_last().push(t)) =~= tables_view(ts).update(ts.len() - 1, t@));
}

/// Applies a table header's walk to a table.
pub fn header_walk_exec(t: &mut TOMLTable, keys: &Vec<String>, idx: usize, pure: bool) -> (r: Result<(), ErrorKind>)
    requires
        idx < keys.len(),
    ensures
        match header_walk(old(t)@, keys.deep_view().skip(idx as int), pure) {
            Ok(t2) => r is Ok && final(t)@ == t2,
            Err(k) => r == Err::<(), ErrorKind>(k) && final(t)@ == old(t)@,
        },
    decreases keys.len() - idx,
{
    let ghost ks = keys.deep_view().skip(idx as int);
    let ghost t0 = t@;
    proof { lemma_entries_view(t.entries@); }
    let key = &keys[idx];
    assert(ks[0] == key@);
    let found = t.find(key);
    if idx + 1 == keys.len() {
        assert(ks.len() == 1);
        match found {
            Some(i) => {
                if !pure {
                    return Err(ErrorKind::TableHeaderRedefinesEntry);
                }
                proof { lemma_entries_view(t.entries@); }
                if let TOMLType::HTable(_) = &t.entries[i].1 {
                    Ok(())
                } else {
                    Err(ErrorKind::TableHeaderLastNotTable)
                }
            },
            None => {
                let ghost before = t.entries@;
                t.push_entry(key.clone(), TOMLType::HTable(TOMLTable::new()));
                proof {
                    let e = t.entries@.last();
                    assert(t.entries@ =~= before.push(e));
                    lemma_push_entry(before, e);
                    assert(t@ =~= t0.push((key@, TomlValue::HTable(TableView::empty()))));
                }
                Ok(())
            },
        }
    } else {
        assert(ks.drop_first() =~= keys.deep_view().skip(idx + 1));
        match found {
            Some(i) => {
                let ghost before = t.entries@;
                let ghost k = t.entries@[i as int].0;
                let v = t.replace_value(i, TOMLType::Bool(false));
                match v {
                    TOMLType::HTable(mut sub) => {
                        let r = header_walk_exec(&mut sub, keys, idx + 1, pure);
                        t.replace_value(i, TOMLType::HTable(sub));
                        proof {
                            assert(t.entries@ =~= before.update(i as int, (k, TOMLType::HTable(sub))));
                            lemma_replace_entry(before, t.entries@, i as int, (k, TOMLType::HTable(sub)));
                            lemma_index_from(t0, key@, 0);
                        }
                        r
                    },
                    TOMLType::DKTable(mut sub) => {
                        let r = header_walk_exec(&mut sub, keys, idx + 1, false);
                        t.replace_value(i, TOMLType::DKTable(sub));
                        proof {
                            assert(t.entries@ =~= before.update(i as int, (k, TOMLType::DKTable(sub))));
                            lemma_replace_entry(before, t.entries@, i as int, (k, TOMLType::DKTable(sub)));
                            lemma_index_from(t0, key@, 0);
                        }
                        r
                    },
                    TOMLType::AoT(mut ts) => {
                        if ts.len() == 0 {
                            t.replace_value(i, TOMLType::AoT(ts));
                            proof {
                                assert(t.entries@ =~= before);
                                lemma_tables_view(ts@);
                            }
                            return Err(ErrorKind::TableHeaderNotTable);
                        }
                        let ghost ts0 = ts@;
                        let mut last = ts.pop().unwrap();
                        let r = header_walk_exec(&mut last, keys, idx + 1, false);
                        ts.push(last);
                        proof { lemma_replace_last(ts0, last); }
                        t.replace_value(i, TOMLType::AoT(ts));
                        proof {
                            assert(t.entries@ =~= before.update(i as int, (k, TOMLType::AoT(ts))));
                            lemma_replace_entry(before, t.entries@, i as int, (k, TOMLType::AoT(ts)));
                            lemma_index_from(t0, key@, 0);
                            lemma_tables_view(ts0);
                            if r is Err {
                                assert(tables_view(ts@) =~= tables_view(ts0));
                            }
                        }
                        r
                    },
                    other => {
                        t.replace_value(i, other);
                        proof { assert(t.entries@ =~= before); }
                        Err(ErrorKind::TableHeaderNotTable)
                    },
                }
            },
            None => {
                let mut sub = TOMLTable::new();
                let r = header_walk_exec(&mut sub, keys, idx + 1, pure);
                match r {
                    Ok(()) => {
                        let ghost before = t.entries@;
                        t.push_entry(key.clone(), TOMLType::HTable(sub));
                        proof {
                            let e = t.entries@.last();
                            assert(t.entries@ =~= before.push(e));
                            lemma_push_entry(before, e);
                        }
                        Ok(())
                    },
                    Err(k) => Err(k),
                }
            },
        }
    }
}

} // verus!

verus! {

/// Applies an array-of-tables header's walk to a table.
pub fn aot_walk_exec(t: &mut TOMLTable, keys: &Vec<String>, idx: usize) -> (r: Result<(), ErrorKind>)
    requires
        idx < keys.len(),
    ensures
        match aot_walk(old(t)@, keys.deep_view().skip(idx as int)) {
            Ok(t2) => r is Ok && final(t)@ == t2,
            Err(k) => r == Err::<(), ErrorKind>(k) && final(t)@ == old(t)@,
        },
    decreases keys.len() - idx,
{
    let ghost ks = keys.deep_view().skip(idx as int);
    let ghost t0 = t@;
    proof { lemma_entries_view(t.entries@); }
    let key = &keys[idx];
    assert(ks[0] == key@);
    let found = t.find(key);
    let last_key = idx + 1 == keys.len();
    if !last_key {
        assert(ks.drop_first() =~= keys.deep_view().skip(idx + 1));
    } else {
        assert(ks.len() == 1);
    }
    match found {
        Some(i) => {
            let ghost before = t.entries@;
            let ghost k = t.entries@[i as int].0;
                let v = t.replace_value(i, TOMLType::Bool(false));
            match v {
                TOMLType::AoT(mut ts) => {
                    let ghost ts0 = ts@;
                    proof { lemma_tables_view(ts0); }
                    if last_key {
                        ts.push(TOMLTable::new());
                        proof {
                            lemma_tables_view(ts@);
                            assert(tables_view(ts@) =~= tables_view(ts0).push(TableView::empty()));
                        }
                        t.replace_value(i, TOMLType::AoT(ts));
                        proof {
                            assert(t.entries@ =~= before.update(i as int, (k, TOMLType::AoT(ts))));
                            lemma_replace_entry(before, t.entries@, i as int, (k, TOMLType::AoT(ts)));
                            lemma_index_from(t0, key@, 0);
                        }
                        return Ok(());
                    }
                    if ts.len() == 0 {
                        t.replace_value(i, TOMLType::AoT(ts));
                        proof { assert(t.entries@ =~= before); }
                        return Err(ErrorKind::ArrayOfTablesParentNotArray);
                    }
                    let mut last = ts.pop().unwrap();
                    let r = aot_walk_exec(&mut last, keys, idx + 1);
                    ts.push(last);
                    proof { lemma_replace_last(ts0, last); }
                    t.replace_value(i, TOMLType::AoT(ts));
                    proof {
                        assert(t.entries@ =~= before.update(i as int, (k, TOMLType::AoT(ts))));
                        lemma_replace_entry(before, t.entries@, i as int, (k, TOMLType::AoT(ts)));
                        lemma_index_from(t0, key@, 0);
                        if r is Err {
                            assert(tables_view(ts@) =~= tables_view(ts0));
                        }
                    }
                    r
                },
                other => {
                    t.replace_value(i, other);
                    proof { assert(t.entries@ =~= before); }
                    Err(ErrorKind::ArrayOfTablesParentNotArray)
                },
            }
        },
        None => {
            let mut sub = TOMLTable::new();
            if !last_key {
                let r = aot_walk_exec(&mut sub, keys, idx + 1);
                if let Err(k) = r {
                    return Err(k);
                }
            }
            let mut ts: Vec<TOMLTable> = Vec::new();
            ts.push(sub);
            proof {
                lemma_tables_view(ts@);
                assert(tables_view(ts@) =~= seq![sub@]);
            }
            let ghost before = t.entries@;
            t.push_entry(key.clone(), TOMLType::AoT(ts));
            proof {
                let e = t.entries@.last();
                assert(t.entries@ =~= before.push(e));
                lemma_push_entry(before, e);
            }
            Ok(())
        },
    }
}

/// Inserts a key-value pair into the table that `path[idx..]` selects.
pub fn insert_at(t: &mut TOMLTable, path: &Vec<String>, idx: usize, kv: KeyVal) -> (r: Result<(), TomlError>)
    requires
        idx <= path.len(),
    ensures
        match tv_insert_at(old(t)@, path.deep_view().skip(idx as int), kv.0.keys(), kv.1@) {
            Ok(t2) => r is Ok && final(t)@ == t2,
            Err(None) => (r matches Err(e) && e.kind == ErrorKind::TableHeaderNotTable && e.detail@ == Seq::<char>::empty())
                && final(t)@ == old(t)@,
            Err(Some(l)) => (r matches Err(e) && e.kind == ErrorKind::KeyAlreadyDefined && e.detail@ == partial_key(kv.0.keys(), l))
                && final(t)@ == old(t)@,
        },
    decreases path.len() - idx,
{
    let ghost ps = path.deep_view().skip(idx as int);
    let ghost t0 = t@;
    proof { lemma_entries_view(t.entries@); }
    if idx == path.len() {
        assert(ps.len() == 0);
        return insert_keyval(kv, t);
    }
    let key = &path[idx];
    assert(ps[0] == key@);
    assert(ps.drop_first() =~= path.deep_view().skip(idx + 1));
    match t.find(key) {
        Some(i) => {
            let ghost before = t.entries@;
            let ghost k = t.entries@[i as int].0;
                let v = t.replace_value(i, TOMLType::Bool(false));
            match v {
                TOMLType::HTable(mut sub) => {
                    let r = insert_at(&mut sub, path, idx + 1, kv);
                    t.replace_value(i, TOMLType::HTable(sub));
                    proof {
                        assert(t.entries@ =~= before.update(i as int, (k, TOMLType::HTable(sub))));
                        lemma_replace_entry(before, t.entries@, i as int, (k, TOMLType::HTable(sub)));
                        lemma_index_from(t0, key@, 0);
                    }
                    r
                },
                TOMLType::DKTable(mut sub) => {
                    let r = insert_at(&mut sub, path, idx + 1, kv);
                    t.replace_value(i, TOMLType::DKTable(sub));
                    proof {
                        assert(t.entries@ =~= before.update(i as int, (k, TOMLType::DKTable(sub))));
                        lemma_replace_entry(before, t.entries@, i as int, (k, TOMLType::DKTable(sub)));
                        lemma_index_from(t0, key@, 0);
                    }
                    r
                },
                TOMLType::AoT(mut ts) => {
                    let ghost ts0 = ts@;
                    proof { lemma_tables_view(ts0); }
                    if ts.len() == 0 {
                        t.replace_value(i, TOMLType::AoT(ts));
                        proof { assert(t.entries@ =~= before); }
                        return Err(TomlError::plain(0, ErrorKind::TableHeaderNotTable));
                    }
                    let mut last = ts.pop().unwrap();
                    let r = insert_at(&mut last, path, idx + 1, kv);
                    ts.push(last);
                    proof { lemma_replace_last(ts0, last); }
                    t.replace_value(i, TOMLType::AoT(ts));
                    proof {
                        assert(t.entries@ =~= before.update(i as int, (k, TOMLType::AoT(ts))));
                        lemma_replace_entry(before, t.entries@, i as int, (k, TOMLType::AoT(ts)));
                        lemma_index_from(t0, key@, 0);
                        if r is Err {
                            assert(tables_view(ts@) =~= tables_view(ts0));
                        }
                    }
                    r
                },
                other => {
                    t.replace_value(i, other);
                    proof { assert(t.entries@ =~= before); }
                    Err(TomlError::plain(0, ErrorKind::TableHeaderNotTable))
                },
            }
        },
        None => Err(TomlError::plain(0, ErrorKind::TableHeaderNotTable)),
    }
}

} // verus!

verus! {

/// Law: a value inserted under a key into the table that a header path
/// selects is found again under that key in the table the path selects.
pub proof fn law_insert_at_then_lookup(t: TableView, path: Seq<Seq<char>>, keys: Seq<Seq<char>>, v: TomlValue)
    requires
        tv_insert_at(t, path, keys, v) is Ok,
    ensures
        descend(tv_insert_at(t, path, keys, v)->Ok_0, path) matches Some(sub) && crate::tomltypes::lookup_path(sub, keys) == Some(v),
    decreases path.len(),
{
    let t2 = tv_insert_at(t, path, keys, v)->Ok_0;
    if path.len() == 0 {
        crate::tomltypes::law_insert_then_lookup(t, keys, v);
    } else {
        let k = path[0];
        let i = tv_index(t, k)->Some_0;
        lemma_index_from(t, k, 0);
        match t[i].1 {
            TomlValue::HTable(sub) => {
                law_insert_at_then_lookup(sub, path.drop_first(), keys, v);
                crate::tomltypes::lemma_index_is(t2, k, i);
            },
            TomlValue::DKTable(sub) => {
                law_insert_at_then_lookup(sub, path.drop_first(), keys, v);
                crate::tomltypes::lemma_index_is(t2, k, i);
            },
            TomlValue::AoT(ts) => {
                law_insert_at_then_lookup(ts.last(), path.drop_first(), keys, v);
                crate::tomltypes::lemma_index_is(t2, k, i);
            },
            _ => {},
        }
    }
}

/// Law: after a table header is applied, its path selects a table, and
/// that table is empty when the header created it.
pub proof fn law_header_selects_table(t: TableView, ks: Seq<Seq<char>>, pure: bool)
    requires
        header_walk(t, ks, pure) is Ok,
    ensures
        descend(header_walk(t, ks, pure)->Ok_0, ks) is Some,
        descend(t, ks) is None && ks.len() == 1 ==> descend(header_walk(t, ks, pure)->Ok_0, ks) == Some(TableView::empty()),
    decreases ks.len(),
{
    let t2 = header_walk(t, ks, pure)->Ok_0;
    let k = ks[0];
    lemma_index_from(t, k, 0);
    if ks.len() == 1 {
        assert(ks.drop_first().len() == 0);
        match tv_index(t, k) {
            Some(i) => {
                assert(t2 == t);
                if let TomlValue::HTable(sub) = t[i].1 {
                    assert(descend(sub, ks.drop_first()) == Some(sub));
                    assert(descend(t2, ks) == Some(sub));
                }
            },
            None => {
                crate::tomltypes::lemma_index_is(t2, k, t.len() as int);
                assert(t2[t.len() as int].1 == TomlValue::HTable(TableView::empty()));
                assert(descend(TableView::empty(), ks.drop_first()) == Some(TableView::empty()));
                assert(descend(t2, ks) == Some(TableView::empty()));
            },
        }
    } else {
        match tv_index(t, k) {
            Some(i) => {
                match t[i].1 {
                    TomlValue::HTable(sub) => {
                        law_header_selects_table(sub, ks.drop_first(), pure);
                        crate::tomltypes::lemma_index_is(t2, k, i);
                    },
                    TomlValue::DKTable(sub) => {
                        law_header_selects_table(sub, ks.drop_first(), false);
                        crate::tomltypes::lemma_index_is(t2, k, i);
                    },
                    TomlValue::AoT(ts) => {
                        law_header_selects_table(ts.last(), ks.drop_first(), false);
                        crate::tomltypes::lemma_index_is(t2, k, i);
                    },
                    _ => {},
                }
            },
            None => {
                law_header_selects_table(TableView::empty(), ks.drop_first(), pure);
                crate::tomltypes::lemma_index_is(t2, k, t.len() as int);
            },
        }
    }
}

/// Law: an array-of-tables header selects a new, empty last table.
pub proof fn law_aot_selects_new_table(t: TableView, ks: Seq<Seq<char>>)
    requires
        aot_walk(t, ks) is Ok,
    ensures
        descend(aot_walk(t, ks)->Ok_0, ks) == Some(TableView::empty()),
    decreases ks.len(),
{
    let t2 = aot_walk(t, ks)->Ok_0;
    let k = ks[0];
    lemma_index_from(t, k, 0);
    if ks.len() == 1 {
        assert(ks.drop_first().len() == 0);
        assert(descend(TableView::empty(), ks.drop_first()) == Some(TableView::empty()));
        match tv_index(t, k) {
            Some(i) => {
                crate::tomltypes::lemma_index_is(t2, k, i);
                if let TomlValue::AoT(ts) = t[i].1 {
                    let ts2 = ts.push(TableView::empty());
                    assert(t2[i].1 == TomlValue::AoT(ts2));
                    assert(ts2.last() == TableView::empty());
                    assert(descend(t2, ks) == Some(TableView::empty()));
                }
            },
            None => {
                crate::tomltypes::lemma_index_is(t2, k, t.len() as int);
                assert(t2[t.len() as int].1 == TomlValue::AoT(seq![TableView::empty()]));
                assert(descend(t2, ks) == Some(TableView::empty()));
            },
        }
    } else {
        match tv_index(t, k) {
            Some(i) => {
                if let TomlValue::AoT(ts) = t[i].1 {
                    law_aot_selects_new_table(ts.last(), ks.drop_first());
                    crate::tomltypes::lemma_index_is(t2, k, i);
                }
            },
            None => {
                law_aot_selects_new_table(TableView::empty(), ks.drop_first());
                crate::tomltypes::lemma_index_is(t2, k, t.len() as int);
            },
        }
    }
}

} // verus!
