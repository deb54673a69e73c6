//! What the values of a TOML file read as: the pairs of an inline table
//! all end up in it, escapes stand for their characters, and `true` and
//! `false` read as the booleans they spell.
use vstd::prelude::*;
use crate::text::{tok, split_on};
use crate::tomltypes::{TomlValue, TableView, tv_insert_dotted, lookup_path, law_insert_then_lookup, lemma_insert_keeps_value};
use crate::drafts::parsetools::{seg_end_at, seg_rest_at, count_ws};
use super::Place;
use super::multiline::advances;
use super::values::{value_at, value_scan, array_items, inline_items, keyval_scan};
use super::scalars::{numeric_parse_at, segment_text_at};
use super::dates::dt_parse;
use super::headers::path_text;
use super::strings::{basic_scan, simple_escape};
use super::multiline::mesc_scan;

verus! {

/// An array read from a place is an array.
proof fn lemma_array_items_kind(lines: Seq<Seq<char>>, pl: Place, acc: Seq<TomlValue>)
    ensures
        array_items(lines, pl, acc) matches Some(Ok((v, _))) ==> v is Array,
    decreases lines.len() - pl.read, pl.graphs.len() - pl.pos,
{
    let g = pl.graphs;
    let q = pl.pos;
    if 0 <= q < g.len() && g[q] != tok(']') && g[q] != tok(',') {
        if let Some(Ok((v, pe))) = value_at(lines, pl) {
            if advances(lines, pl, pe) && pe.pos < pe.graphs.len() {
                let pe2 = if pe.graphs[pe.pos] == tok(',') { Place { pos: pe.pos + 1, ..pe } } else { pe };
                if let Ok(q2) = super::seek_scan(lines, pe2) {
                    if advances(lines, pl, q2) {
                        lemma_array_items_kind(lines, q2, acc.push(v));
                    }
                }
            }
        }
    }
}

/// An inline table read from a place is an inline table.
proof fn lemma_inline_items_kind(lines: Seq<Seq<char>>, pl: Place, acc: TableView, comma: bool)
    ensures
        inline_items(lines, pl, acc, comma) matches Some(Ok((v, _))) ==> v is InlineTable,
    decreases lines.len() - pl.read, pl.graphs.len() - pl.pos,
{
    let g = pl.graphs;
    let q = pl.pos;
    if 0 <= q < g.len() {
        if g[q] == tok(' ') || g[q] == tok('\t') {
            lemma_inline_items_kind(lines, Place { pos: q + 1, ..pl }, acc, comma);
        } else if g[q] != tok(',') && g[q] != tok('\n') && g[q] != tok('}') {
            if let Some(Ok((segs, v, pe))) = keyval_scan(lines, pl) {
                if advances(lines, pl, pe) && pe.pos < pe.graphs.len() {
                    let keys = split_on(path_text(segs), seq!['\0']);
                    if let Ok(acc2) = tv_insert_dotted(acc, keys, v) {
                        if pe.graphs[pe.pos] == tok(',') {
                            lemma_inline_items_kind(lines, Place { pos: pe.pos + 1, ..pe }, acc2, true);
                        } else {
                            lemma_inline_items_kind(lines, pe, acc2, false);
                        }
                    }
                }
            }
        }
    }
}

/// No value read from a place is a dotted-key table.
proof fn lemma_value_at_kind(lines: Seq<Seq<char>>, pl: Place)
    ensures
        value_at(lines, pl) matches Some(Ok((v, _))) ==> !(v is DKTable),
{
    let g = pl.graphs;
    let i = pl.pos;
    if 0 <= i < g.len() && count_ws(seg_rest_at(g, i)) != seg_rest_at(g, i).len() {
        let p2 = Place { pos: i + count_ws(seg_rest_at(g, i)), ..pl };
        let g2 = p2.graphs;
        let p = p2.pos;
        if 0 <= p < g2.len() {
            if g2[p] == tok('[') {
                if let Ok(q) = super::seek_scan(lines, Place { pos: p + 1, ..p2 }) {
                    lemma_array_items_kind(lines, q, Seq::empty());
                }
            } else if g2[p] == tok('{') {
                lemma_inline_items_kind(lines, Place { pos: p + 1, ..p2 }, Seq::empty(), false);
            } else {
                if let Some((v, n)) = numeric_parse_at(g2, p) {
                    if let Some(w) = dt_parse(segment_text_at(g2, p)) {
                        assert(!(w is DKTable));
                    }
                }
            }
        }
    }
}

/// The tables after reading the pairs of an inline table keep every path
/// that led to a value other than a dotted-key table.
proof fn lemma_inline_items_keep(lines: Seq<Seq<char>>, pl: Place, acc: TableView, comma: bool, p: Seq<Seq<char>>, x: TomlValue)
    requires
        lookup_path(acc, p) == Some(x),
        !(x is DKTable),
    ensures
        inline_items(lines, pl, acc, comma) matches Some(Ok((TomlValue::InlineTable(t), _))) ==> lookup_path(t, p) == Some(x),
    decreases lines.len() - pl.read, pl.graphs.len() - pl.pos,
{
    let g = pl.graphs;
    let q = pl.pos;
    if 0 <= q < g.len() {
        if g[q] == tok(' ') || g[q] == tok('\t') {
            lemma_inline_items_keep(lines, Place { pos: q + 1, ..pl }, acc, comma, p, x);
        } else if g[q] != tok(',') && g[q] != tok('\n') && g[q] != tok('}') {
            if let Some(Ok((segs, v, pe))) = keyval_scan(lines, pl) {
                if advances(lines, pl, pe) && pe.pos < pe.graphs.len() {
                    let keys = split_on(path_text(segs), seq!['\0']);
                    if let Ok(acc2) = tv_insert_dotted(acc, keys, v) {
                        lemma_insert_keeps_value(acc, keys, v, p, x);
                        if pe.graphs[pe.pos] == tok(',') {
                            lemma_inline_items_keep(lines, Place { pos: pe.pos + 1, ..pe }, acc2, true, p, x);
                        } else {
                            lemma_inline_items_keep(lines, pe, acc2, false, p, x);
                        }
                    }
                }
            }
        }
    }
}

/// Law: every key-value pair of an inline table is in the table read: where
/// a pair starts at the place and reads as keys and a value, and the pairs
/// from the place on make up an inline table, that table gives the pair's
/// value under its keys, whether a comma follows the pair or not. The
/// pairs before the place keep their values too.
pub proof fn law_inline_pairs_kept(lines: Seq<Seq<char>>, pl: Place, acc: TableView, comma: bool)
    ensures
        forall|p: Seq<Seq<char>>|
            #[trigger] lookup_path(acc, p) matches Some(x) && !(x is DKTable) ==> (inline_items(lines, pl, acc, comma) matches Some(
                Ok((TomlValue::InlineTable(t), _)),
            ) ==> lookup_path(t, p) == lookup_path(acc, p)),
        ({
            let g = pl.graphs;
            let q = pl.pos;
            0 <= q < g.len() && g[q] != tok(' ') && g[q] != tok('\t') && g[q] != tok(',') && g[q] != tok('\n') && g[q]
                != tok('}') ==> (keyval_scan(lines, pl) matches Some(Ok((segs, v, _))) ==> (inline_items(
                lines,
                pl,
                acc,
                comma,
            ) matches Some(Ok((TomlValue::InlineTable(t), _))) ==> lookup_path(t, split_on(path_text(segs), seq!['\0']))
                == Some(v)))
        }),
{
    assert forall|p: Seq<Seq<char>>|
        #[trigger] lookup_path(acc, p) matches Some(x) && !(x is DKTable) implies (inline_items(lines, pl, acc, comma) matches Some(
            Ok((TomlValue::InlineTable(t), _)),
        ) ==> lookup_path(t, p) == lookup_path(acc, p)) by {
        let x = lookup_path(acc, p)->Some_0;
        lemma_inline_items_keep(lines, pl, acc, comma, p, x);
    }
    let g = pl.graphs;
    let q = pl.pos;
    if 0 <= q < g.len() && g[q] != tok(' ') && g[q] != tok('\t') && g[q] != tok(',') && g[q] != tok('\n') && g[q] != tok('}') {
        if let Some(Ok((segs, v, pe))) = keyval_scan(lines, pl) {
            let keys = split_on(path_text(segs), seq!['\0']);
            if advances(lines, pl, pe) && pe.pos < pe.graphs.len() {
                if let Ok(acc2) = tv_insert_dotted(acc, keys, v) {
                    law_insert_then_lookup(acc, keys, v);
                    assert(!(v is DKTable)) by {
                        let pk = super::statements::key_scan(lines, pl, Seq::empty(), Seq::empty(), false)->Ok_0.1;
                        lemma_value_at_kind(lines, Place { pos: pk.pos + 1, ..pk });
                    }
                    if pe.graphs[pe.pos] == tok(',') {
                        lemma_inline_items_keep(lines, Place { pos: pe.pos + 1, ..pe }, acc2, true, keys, v);
                    } else {
                        lemma_inline_items_keep(lines, pe, acc2, false, keys, v);
                    }
                }
            }
        }
    }
}

} // verus!

verus! {

/// The one-letter escapes, as literal pairs.
proof fn lemma_escape_pairs(h: Seq<char>)
    ensures
        h == tok('b') ==> simple_escape(h) == Some('\u{0008}'),
        h == tok('t') ==> simple_escape(h) == Some('\u{0009}'),
        h == tok('n') ==> simple_escape(h) == Some('\u{000A}'),
        h == tok('f') ==> simple_escape(h) == Some('\u{000C}'),
        h == tok('r') ==> simple_escape(h) == Some('\u{000D}'),
        h == tok('"') ==> simple_escape(h) == Some('\u{0022}'),
        h == tok('\\') ==> simple_escape(h) == Some('\u{005C}'),
{
    assert(tok('b')[0] == 'b' && tok('t')[0] == 't' && tok('n')[0] == 'n' && tok('f')[0] == 'f');
    assert(tok('r')[0] == 'r' && tok('"')[0] == '"' && tok('\\')[0] == '\\');
    assert(h == tok('t') ==> h != tok('b'));
    assert(h == tok('n') ==> h != tok('b') && h != tok('t'));
    assert(h == tok('f') ==> h != tok('b') && h != tok('t') && h != tok('n'));
    assert(h == tok('r') ==> h != tok('b') && h != tok('t') && h != tok('n') && h != tok('f'));
    assert(h == tok('"') ==> h != tok('b') && h != tok('t') && h != tok('n') && h != tok('f') && h != tok('r'));
    assert(h == tok('\\') ==> h != tok('b') && h != tok('t') && h != tok('n') && h != tok('f') && h != tok('r') && h != tok('"'));
}

/// Law: in a multi-line basic string, after a backslash the letters `b`,
/// `t`, `n`, `f`, `r`, a quote and a backslash stand for backspace
/// (U+0008), tab (U+0009), line feed (U+000A), form feed (U+000C), carriage
/// return (U+000D), the quote and the backslash, and reading goes on right
/// after the letter.
pub proof fn law_multi_escapes(lines: Seq<Seq<char>>, pl: Place)
    requires
        0 <= pl.pos < pl.graphs.len(),
    ensures
        pl.graphs[pl.pos] == tok('b') ==> mesc_scan(lines, pl) == Ok::<(char, Place, bool), super::Failure>(('\u{0008}', Place { pos: pl.pos + 1, ..pl }, false)),
        pl.graphs[pl.pos] == tok('t') ==> mesc_scan(lines, pl) == Ok::<(char, Place, bool), super::Failure>(('\u{0009}', Place { pos: pl.pos + 1, ..pl }, false)),
        pl.graphs[pl.pos] == tok('n') ==> mesc_scan(lines, pl) == Ok::<(char, Place, bool), super::Failure>(('\u{000A}', Place { pos: pl.pos + 1, ..pl }, false)),
        pl.graphs[pl.pos] == tok('f') ==> mesc_scan(lines, pl) == Ok::<(char, Place, bool), super::Failure>(('\u{000C}', Place { pos: pl.pos + 1, ..pl }, false)),
        pl.graphs[pl.pos] == tok('r') ==> mesc_scan(lines, pl) == Ok::<(char, Place, bool), super::Failure>(('\u{000D}', Place { pos: pl.pos + 1, ..pl }, false)),
        pl.graphs[pl.pos] == tok('"') ==> mesc_scan(lines, pl) == Ok::<(char, Place, bool), super::Failure>(('\u{0022}', Place { pos: pl.pos + 1, ..pl }, false)),
        pl.graphs[pl.pos] == tok('\\') ==> mesc_scan(lines, pl) == Ok::<(char, Place, bool), super::Failure>(('\u{005C}', Place { pos: pl.pos + 1, ..pl }, false)),
{
    lemma_escape_pairs(pl.graphs[pl.pos]);
}

/// Law: in a basic string, a backslash and one of the letters `b`, `t`,
/// `n`, `f`, `r`, or a quote or a backslash, stand for backspace (U+0008),
/// tab (U+0009), line feed (U+000A), form feed (U+000C), carriage return
/// (U+000D), the quote and the backslash: reading on from the backslash is
/// reading on after the pair with that character added to the text.
pub proof fn law_basic_escapes(g: Seq<Seq<char>>, i: int, acc: Seq<char>)
    requires
        0 <= i,
        i + 1 < g.len(),
        g[i] == tok('\\'),
    ensures
        g[i + 1] == tok('b') ==> basic_scan(g, i, acc) == basic_scan(g, i + 2, acc.push('\u{0008}')),
        g[i + 1] == tok('t') ==> basic_scan(g, i, acc) == basic_scan(g, i + 2, acc.push('\u{0009}')),
        g[i + 1] == tok('n') ==> basic_scan(g, i, acc) == basic_scan(g, i + 2, acc.push('\u{000A}')),
        g[i + 1] == tok('f') ==> basic_scan(g, i, acc) == basic_scan(g, i + 2, acc.push('\u{000C}')),
        g[i + 1] == tok('r') ==> basic_scan(g, i, acc) == basic_scan(g, i + 2, acc.push('\u{000D}')),
        g[i + 1] == tok('"') ==> basic_scan(g, i, acc) == basic_scan(g, i + 2, acc.push('\u{0022}')),
        g[i + 1] == tok('\\') ==> basic_scan(g, i, acc) == basic_scan(g, i + 2, acc.push('\u{005C}')),
{
    lemma_escape_pairs(g[i + 1]);
    assert(g[i] != tok('"')) by {
        assert(tok('\\')[0] != tok('"')[0]);
    }
}

} // verus!

verus! {

/// Law: a value starting with `t` or `f` whose segment reads `true` (spaces
/// around it aside) is the boolean true, one that reads `false` is the
/// boolean false, and any other such value is refused as no boolean; the
/// reading goes on after the segment.
pub proof fn law_bool_values(lines: Seq<Seq<char>>, pl: Place)
    requires
        0 <= pl.pos < pl.graphs.len(),
        pl.graphs[pl.pos] == tok('t') || pl.graphs[pl.pos] == tok('f'),
    ensures
        value_at(lines, pl) == value_scan(lines, pl),
        segment_text_at(pl.graphs, pl.pos) == seq!['t', 'r', 'u', 'e'] ==> value_at(lines, pl) == Some(
            Ok::<(TomlValue, Place), super::Failure>((TomlValue::Bool(true), Place { pos: seg_end_at(pl.graphs, pl.pos), ..pl })),
        ),
        segment_text_at(pl.graphs, pl.pos) == seq!['f', 'a', 'l', 's', 'e'] ==> value_at(lines, pl) == Some(
            Ok::<(TomlValue, Place), super::Failure>((TomlValue::Bool(false), Place { pos: seg_end_at(pl.graphs, pl.pos), ..pl })),
        ),
        segment_text_at(pl.graphs, pl.pos) != seq!['t', 'r', 'u', 'e'] && segment_text_at(pl.graphs, pl.pos) != seq![
            'f',
            'a',
            'l',
            's',
            'e',
        ] ==> (value_at(lines, pl) matches Some(Err((k, _, _))) && k == crate::errors::ErrorKind::BoolFormat),
{
    let g = pl.graphs;
    let i = pl.pos;
    crate::drafts::parsetools::lemma_seg_end_bounds(g, i);
    let r = seg_rest_at(g, i);
    assert(r[0] == g[i]);
    assert(tok('t')[0] == 't' && tok('f')[0] == 'f' && tok(' ')[0] == ' ' && tok('\t')[0] == '\t');
    assert(tok('t') != tok(' ') && tok('t') != tok('\t') && tok('f') != tok(' ') && tok('f') != tok('\t'));
    assert(count_ws(r) == 0);
    assert(Place { pos: i + 0, ..pl } == pl);
    assert(tok('[')[0] == '[' && tok('{')[0] == '{' && tok('"')[0] == '"' && tok('\'')[0] == '\'');
    assert(g[i] != tok('[') && g[i] != tok('{') && g[i] != tok('"') && g[i] != tok('\''));
    assert(seq!['t', 'r', 'u', 'e'] != seq!['f', 'a', 'l', 's', 'e']) by {
        assert(seq!['t', 'r', 'u', 'e'].len() != seq!['f', 'a', 'l', 's', 'e'].len());
    }
}

} // verus!

verus! {

/// Law: reading the items of an array keeps the items read before and adds
/// the item read at the place, if any, right after them: where the items
/// from the place on make up an array, it begins with `acc`, and a value
/// that reads at the place stands next in it, whether a comma follows it
/// or not.
pub proof fn law_array_items_kept(lines: Seq<Seq<char>>, pl: Place, acc: Seq<TomlValue>)
    ensures
        array_items(lines, pl, acc) matches Some(Ok((TomlValue::Array(vs), _))) ==> vs.len() >= acc.len()
            && vs.take(acc.len() as int) == acc,
        ({
            let g = pl.graphs;
            let q = pl.pos;
            0 <= q < g.len() && g[q] != tok(']') && g[q] != tok(',') ==> (value_at(lines, pl) matches Some(Ok((v, _)))
                ==> (array_items(lines, pl, acc) matches Some(Ok((TomlValue::Array(vs), _))) ==> vs.len() > acc.len()
                && vs[acc.len() as int] == v))
        }),
    decreases lines.len() - pl.read, pl.graphs.len() - pl.pos,
{
    let g = pl.graphs;
    let q = pl.pos;
    if 0 <= q < g.len() {
        if g[q] == tok(']') {
            assert(acc.take(acc.len() as int) =~= acc);
        } else if g[q] != tok(',') {
            if let Some(Ok((v, pe))) = value_at(lines, pl) {
                if advances(lines, pl, pe) && pe.pos < pe.graphs.len() {
                    let pe2 = if pe.graphs[pe.pos] == tok(',') { Place { pos: pe.pos + 1, ..pe } } else { pe };
                    if let Ok(q2) = super::seek_scan(lines, pe2) {
                        if advances(lines, pl, q2) {
                            law_array_items_kept(lines, q2, acc.push(v));
                            if let Some(Ok((TomlValue::Array(vs), _))) = array_items(lines, pl, acc) {
                                assert(vs.take(acc.len() as int + 1) == acc.push(v));
                                assert(vs[acc.len() as int] == vs.take(acc.len() as int + 1)[acc.len() as int]);
                                assert(vs.take(acc.len() as int) =~= vs.take(acc.len() as int + 1).take(acc.len() as int));
                                assert(acc.push(v).take(acc.len() as int) =~= acc);
                            }
                        }
                    }
                }
            }
        }
    }
}

} // verus!
