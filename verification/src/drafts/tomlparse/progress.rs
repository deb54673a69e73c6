//! Every reading step makes progress, so the outcome of parsing a file is
//! always determined.
use vstd::prelude::*;
use crate::text::tok;
use crate::errors::ErrorKind;
use crate::drafts::parsetools::{count_ws, lemma_count_ws_bounds, seg_end_at, seg_rest_at, lemma_seg_end_bounds};
use super::numbers::{int_parse, dec_scan, radix_scan, nondec_scan, shift, radix_digit, int_step, is_int_end, prefix_radix};
use super::strings::hex_scan;
use super::{Place, next_line_place, seek_scan, line_step, line_start, file_scan};
use super::headers::header_scan;
use super::statements::skip_blanks;
use crate::text::grapheme_clusters;
use crate::drafts::parsetools::ends_properly;
use super::multiline::{gnw_scan, mesc_scan, mlb_scan, ml_start, ml_finish, advances, reaches, non_ws_grapheme};
use super::strings::{simple_escape, utf8_escape};
use super::statements::{is_gap_grapheme, first_bad_comment, key_scan, lemma_key_scan_pos};
use super::multiline::{mll_scan, lemma_mll_progress, opens_triple};
use super::strings::{basic_scan, lit_scan, lemma_basic_scan_progress, lemma_lit_scan_progress};
use super::values::{value_at, value_scan, array_scan, array_items, inline_scan, inline_items, keyval_scan};
use super::scalars::{numeric_parse_at, float_parse_at};
use crate::tomltypes::{TomlValue, TableView, tv_insert_dotted};
use super::headers::path_text;
use crate::text::split_on;

verus! {

/// Scanning decimal digits from inside a sequence stops inside it.
proof fn lemma_dec_scan_le(s: Seq<Seq<char>>, i: int, acc: i64, us: bool)
    requires
        0 <= i <= s.len(),
    ensures
        dec_scan(s, i, acc, us) matches Ok((_, j)) ==> i <= j <= s.len(),
    decreases s.len() - i,
{
    if i < s.len() {
        let g = s[i];
        match radix_digit(g, 10) {
            Some(d) => {
                lemma_dec_scan_le(s, i + 1, int_step(acc as int, 10, d) as i64, false);
            },
            None => {
                if g == tok('_') && !us {
                    lemma_dec_scan_le(s, i + 1, acc, true);
                }
            },
        }
    }
}

/// Scanning digits of a radix from inside a sequence stops inside it.
proof fn lemma_radix_scan_le(s: Seq<Seq<char>>, i: int, acc: i64, us: bool, radix: int)
    requires
        0 <= i <= s.len(),
    ensures
        radix_scan(s, i, acc, us, radix) matches Ok((_, j)) ==> i <= j <= s.len(),
    decreases s.len() - i,
{
    if i < s.len() {
        let g = s[i];
        match radix_digit(g, radix) {
            Some(d) => {
                lemma_radix_scan_le(s, i + 1, int_step(acc as int, radix, d) as i64, false, radix);
            },
            None => {
                if g == tok('_') && !us {
                    lemma_radix_scan_le(s, i + 1, acc, true, radix);
                }
            },
        }
    }
}

/// An integer takes at least one grapheme, and no more than there are.
pub proof fn lemma_int_parse_bound(s: Seq<Seq<char>>)
    ensures
        int_parse(s) matches Ok((_, n)) ==> 0 < n <= s.len(),
{
    super::scalars::lemma_int_parse_progress(s);
    lemma_count_ws_bounds(s);
    let w = count_ws(s);
    let neg = w < s.len() && s[w] == tok('-');
    let plus = w < s.len() && s[w] == tok('+');
    let p = if neg || plus { w + 1 } else { w };
    if p < s.len() {
        if s[p] == tok('0') {
            if p + 1 < s.len() && !is_int_end(s[p + 1]) && (s[p + 1] == tok('b') || s[p + 1] == tok('o') || s[p + 1] == tok('x')) {
                let t = s.skip(p + 2);
                if 0 < t.len() && radix_digit(t[0], 16) is Some {
                    lemma_radix_scan_le(t, 0, 0, false, prefix_radix(s[p + 1][0]));
                }
            }
        } else if radix_digit(s[p], 10) is Some {
            lemma_dec_scan_le(s.skip(p), 0, 0, false);
        }
    }
}

/// The digits of a `\u` or `\U` escape lie inside the line.
pub proof fn lemma_hex_scan_bound(g: Seq<Seq<char>>, i: int, d: int, v: int)
    requires
        0 <= d <= 8,
        0 <= i,
        i + d <= g.len(),
    ensures
        hex_scan(g, i, d, v) matches Ok((_, n)) ==> d <= n && i + n <= g.len(),
    decreases 8 - d,
{
    if d < 8 && 0 <= i + d < g.len() && super::strings::hex_start(g[i + d]) && g[i + d].len() == 1 {
        lemma_hex_scan_bound(g, i, d + 1, 16 * v + super::strings::hex_value(g[i + d][0]));
    }
}

/// Skipping to the next grapheme of interest ends on a grapheme of a line,
/// at or after where it began.
pub proof fn lemma_seek_progress(lines: Seq<Seq<char>>, pl: Place)
    ensures
        seek_scan(lines, pl) matches Ok(q) ==> reaches(lines, pl, q) && 0 <= q.pos < q.graphs.len(),
    decreases lines.len() - pl.read, pl.graphs.len() - pl.pos,
{
    if pl.pos < 0 || pl.pos >= pl.graphs.len() {
        if let Ok(p2) = next_line_place(lines, pl.read) {
            lemma_seek_progress(lines, p2);
        }
    } else if is_gap_grapheme(pl.graphs[pl.pos]) {
        lemma_seek_progress(lines, Place { pos: pl.pos + 1, ..pl });
    } else if pl.graphs[pl.pos] == tok('#') {
        if pl.pos + 1 < pl.graphs.len() && first_bad_comment(pl.graphs, pl.pos + 1) is None {
            lemma_seek_progress(lines, Place { pos: pl.graphs.len() as int, ..pl });
        }
    }
}

/// Moving to the next non-whitespace grapheme ends after where it began.
pub proof fn lemma_gnw_progress(lines: Seq<Seq<char>>, pl: Place)
    ensures
        gnw_scan(lines, pl) matches Ok((_, q)) ==> advances(lines, pl, q) && 0 <= q.pos <= q.graphs.len(),
    decreases lines.len() - pl.read, pl.graphs.len() - pl.pos,
{
    if pl.pos < 0 || pl.pos >= pl.graphs.len() {
        if let Ok(p2) = next_line_place(lines, pl.read) {
            lemma_gnw_progress(lines, p2);
        }
    } else if !non_ws_grapheme(pl.graphs[pl.pos]) {
        lemma_gnw_progress(lines, Place { pos: pl.pos + 1, ..pl });
    }
}

/// An escape in a multi-line string, read from the grapheme after the
/// backslash, ends after that grapheme.
pub proof fn lemma_mesc_progress(lines: Seq<Seq<char>>, pl: Place)
    requires
        0 <= pl.pos,
    ensures
        mesc_scan(lines, pl) matches Ok((_, q, _)) ==> advances(lines, pl, q) && 0 <= q.pos <= q.graphs.len(),
{
    let g = pl.graphs;
    let i = pl.pos;
    if i < g.len() && simple_escape(g[i]) is None {
        if g[i] == tok('u') || g[i] == tok('U') {
            lemma_hex_scan_bound(g, i + 1, 0, 0);
        } else if !non_ws_grapheme(g[i]) {
            lemma_gnw_progress(lines, Place { pos: i + 1, ..pl });
        }
    }
}

/// Reading the body of a multi-line basic string always has an outcome,
/// which ends at or after where the reading began.
pub proof fn lemma_mlb_progress(lines: Seq<Seq<char>>, pl: Place, count: nat, pool: Seq<char>)
    requires
        0 <= pl.pos <= pl.graphs.len(),
    ensures
        mlb_scan(lines, pl, count, pool) is Some,
        mlb_scan(lines, pl, count, pool) matches Some(Ok((_, q))) ==> reaches(lines, pl, q) && 0 <= q.pos
            <= q.graphs.len(),
    decreases lines.len() - pl.read, pl.graphs.len() - pl.pos,
{
    if count >= 3 {
    } else if pl.pos >= pl.graphs.len() {
        if let Ok(p2) = next_line_place(lines, pl.read) {
            lemma_mlb_progress(lines, p2, count, pool);
        }
    } else {
        let c = pl.graphs[pl.pos];
        if c == tok('"') {
            lemma_mlb_progress(lines, Place { pos: pl.pos + 1, ..pl }, count + 1, pool + c);
        } else if c == tok('\\') {
            lemma_mesc_progress(lines, Place { pos: pl.pos + 1, ..pl });
            if let Ok((ch, p2, inc)) = mesc_scan(lines, Place { pos: pl.pos + 1, ..pl }) {
                assert(advances(lines, pl, p2));
                if p2.pos == p2.graphs.len() {
                    if let Ok(p3) = next_line_place(lines, p2.read) {
                        lemma_mlb_progress(lines, p3, if inc { count + 1 } else { 0 }, pool.push(ch));
                    }
                } else {
                    lemma_mlb_progress(lines, p2, if inc { count + 1 } else { 0 }, pool.push(ch));
                }
            }
        } else if c.len() > 0 {
            lemma_mlb_progress(lines, Place { pos: pl.pos + 1, ..pl }, 0, pool + c);
        } else {
            lemma_mlb_progress(lines, Place { pos: pl.pos + 1, ..pl }, count, pool);
        }
    }
}

/// A value read from a place always has an outcome, which ends after the
/// place, inside a line.
pub proof fn lemma_value_at_total(lines: Seq<Seq<char>>, pl: Place)
    ensures
        value_at(lines, pl) is Some,
        value_at(lines, pl) matches Some(Ok((_, q))) ==> advances(lines, pl, q) && 0 <= q.pos <= q.graphs.len(),
    decreases lines.len() - pl.read, pl.graphs.len() - pl.pos, 3int,
{
    let g = pl.graphs;
    let i = pl.pos;
    if 0 <= i < g.len() && count_ws(seg_rest_at(g, i)) != seg_rest_at(g, i).len() {
        lemma_seg_end_bounds(g, i);
        lemma_count_ws_bounds(seg_rest_at(g, i));
        lemma_value_scan_total(lines, Place { pos: i + count_ws(seg_rest_at(g, i)), ..pl });
    }
}

/// A value whose first grapheme is at the place always has an outcome,
/// which ends after the place, inside a line.
pub proof fn lemma_value_scan_total(lines: Seq<Seq<char>>, pl: Place)
    requires
        0 <= pl.pos < pl.graphs.len(),
    ensures
        value_scan(lines, pl) is Some,
        value_scan(lines, pl) matches Some(Ok((_, q))) ==> advances(lines, pl, q) && 0 <= q.pos <= q.graphs.len(),
    decreases lines.len() - pl.read, pl.graphs.len() - pl.pos, 2int,
{
    let g = pl.graphs;
    let p = pl.pos;
    let f = g[p];
    let rest = seg_rest_at(g, p);
    lemma_seg_end_bounds(g, p);
    if f == tok('[') {
        lemma_array_scan_total(lines, pl);
    } else if f == tok('{') {
        lemma_inline_scan_total(lines, pl);
    } else if f == tok('"') {
        if opens_triple(rest, '"') {
            lemma_mlb_progress(lines, ml_start(pl), 0, Seq::empty());
        } else {
            lemma_basic_scan_progress(g, p + 1, Seq::empty());
        }
    } else if f == tok('\'') {
        if opens_triple(rest, '\'') {
            lemma_mll_progress(lines, ml_start(pl), 0, Seq::empty());
        } else {
            lemma_lit_scan_progress(g, p + 1, Seq::empty());
        }
    } else if f == tok('t') || f == tok('f') {
    } else {
        lemma_int_parse_bound(rest);
    }
}

/// An array whose `[` is at the place always has an outcome, which ends
/// after the place, inside a line.
pub proof fn lemma_array_scan_total(lines: Seq<Seq<char>>, pl: Place)
    requires
        0 <= pl.pos < pl.graphs.len(),
    ensures
        array_scan(lines, pl) is Some,
        array_scan(lines, pl) matches Some(Ok((_, q))) ==> advances(lines, pl, q) && 0 <= q.pos <= q.graphs.len(),
    decreases lines.len() - pl.read, pl.graphs.len() - pl.pos, 1int,
{
    lemma_seek_progress(lines, Place { pos: pl.pos + 1, ..pl });
    if let Ok(q) = seek_scan(lines, Place { pos: pl.pos + 1, ..pl }) {
        assert(advances(lines, pl, q));
        lemma_array_items_total(lines, q, Seq::empty());
    }
}

/// The items of an array from a grapheme of a line always have an
/// outcome, which ends after the place, inside a line.
pub proof fn lemma_array_items_total(lines: Seq<Seq<char>>, pl: Place, acc: Seq<TomlValue>)
    requires
        0 <= pl.pos < pl.graphs.len(),
    ensures
        array_items(lines, pl, acc) is Some,
        array_items(lines, pl, acc) matches Some(Ok((_, q))) ==> advances(lines, pl, q) && 0 <= q.pos
            <= q.graphs.len(),
    decreases lines.len() - pl.read, pl.graphs.len() - pl.pos, 4int,
{
    let g = pl.graphs;
    let q = pl.pos;
    if g[q] != tok(']') && g[q] != tok(',') {
        lemma_value_at_total(lines, pl);
        if let Some(Ok((v, pe))) = value_at(lines, pl) {
            if pe.pos < pe.graphs.len() {
                let pe2 = if pe.graphs[pe.pos] == tok(',') { Place { pos: pe.pos + 1, ..pe } } else { pe };
                lemma_seek_progress(lines, pe2);
                if let Ok(q2) = seek_scan(lines, pe2) {
                    assert(advances(lines, pl, q2));
                    lemma_array_items_total(lines, q2, acc.push(v));
                }
            }
        }
    }
}

/// An inline table whose `{` is at the place always has an outcome, which
/// ends after the place, inside a line.
pub proof fn lemma_inline_scan_total(lines: Seq<Seq<char>>, pl: Place)
    requires
        0 <= pl.pos < pl.graphs.len(),
    ensures
        inline_scan(lines, pl) is Some,
        inline_scan(lines, pl) matches Some(Ok((_, q))) ==> advances(lines, pl, q) && 0 <= q.pos <= q.graphs.len(),
    decreases lines.len() - pl.read, pl.graphs.len() - pl.pos, 1int,
{
    lemma_inline_items_total(lines, Place { pos: pl.pos + 1, ..pl }, Seq::empty(), false);
}

/// The pairs of an inline table from a place always have an outcome, which
/// ends after the place, inside a line.
pub proof fn lemma_inline_items_total(lines: Seq<Seq<char>>, pl: Place, acc: TableView, comma: bool)
    requires
        0 <= pl.pos <= pl.graphs.len(),
    ensures
        inline_items(lines, pl, acc, comma) is Some,
        inline_items(lines, pl, acc, comma) matches Some(Ok((_, q))) ==> advances(lines, pl, q) && 0 <= q.pos
            <= q.graphs.len(),
    decreases lines.len() - pl.read, pl.graphs.len() - pl.pos, 4int,
{
    let g = pl.graphs;
    let q = pl.pos;
    if q < g.len() {
        if g[q] == tok(' ') || g[q] == tok('\t') {
            lemma_inline_items_total(lines, Place { pos: q + 1, ..pl }, acc, comma);
        } else if g[q] != tok(',') && g[q] != tok('\n') && g[q] != tok('}') {
            lemma_keyval_scan_total(lines, pl);
            if let Some(Ok((segs, v, pe))) = keyval_scan(lines, pl) {
                if pe.pos < pe.graphs.len() {
                    let keys = split_on(path_text(segs), seq!['\0']);
                    if let Ok(acc2) = tv_insert_dotted(acc, keys, v) {
                        if pe.graphs[pe.pos] == tok(',') {
                            lemma_inline_items_total(lines, Place { pos: pe.pos + 1, ..pe }, acc2, true);
                        } else {
                            lemma_inline_items_total(lines, pe, acc2, false);
                        }
                    }
                }
            }
        }
    }
}

/// A key-value pair read from a place always has an outcome, which ends
/// after the place, inside a line.
pub proof fn lemma_keyval_scan_total(lines: Seq<Seq<char>>, pl: Place)
    ensures
        keyval_scan(lines, pl) is Some,
        keyval_scan(lines, pl) matches Some(Ok((_, _, q))) ==> advances(lines, pl, q) && 0 <= q.pos <= q.graphs.len(),
    decreases lines.len() - pl.read, pl.graphs.len() - pl.pos, 1int,
{
    lemma_key_scan_pos(lines, pl, Seq::empty(), Seq::empty(), false);
    if let Ok((segs, pk)) = key_scan(lines, pl, Seq::empty(), Seq::empty(), false) {
        if segs.len() > 0 && pk.graphs[pk.pos] == tok('=') {
            lemma_value_at_total(lines, Place { pos: pk.pos + 1, ..pk });
        }
    }
}

/// A line always has an outcome, and a statement that succeeds leaves the
/// reading on that line or a later one that was read.
pub proof fn lemma_line_step_total(lines: Seq<Seq<char>>, pl: Place, t: TableView, target: Seq<Seq<char>>, heads: Seq<Seq<char>>)
    requires
        pl.read <= lines.len(),
    ensures
        line_step(lines, pl, t, target, heads) is Some,
        line_step(lines, pl, t, target, heads) matches Some(Ok((_, _, _, k2))) ==> pl.read <= k2 <= lines.len(),
{
    let g = pl.graphs;
    let p = skip_blanks(g, 0);
    if p >= g.len() || g[p] == tok('\n') || g[p] == tok('#') {
    } else if g[p] == tok('[') {
        lemma_key_scan_pos(lines, Place { pos: p + 1, ..pl }, Seq::empty(), Seq::empty(), false);
        lemma_key_scan_pos(lines, Place { pos: p + 2, ..pl }, Seq::empty(), Seq::empty(), false);
    } else {
        lemma_keyval_scan_total(lines, Place { pos: p, ..pl });
    }
}

/// Law: parsing the lines of a file from any state always has a determined
/// outcome, a table or a failure: every statement makes progress.
pub proof fn law_parse_outcome_defined(lines: Seq<Seq<char>>, k: int, t: TableView, target: Seq<Seq<char>>, heads: Seq<Seq<char>>)
    ensures
        file_scan(lines, k, t, target, heads) is Some,
    decreases lines.len() - k,
{
    if 0 <= k < lines.len() && ends_properly(grapheme_clusters(lines[k])) {
        lemma_line_step_total(lines, line_start(lines, k), t, target, heads);
        if let Some(Ok((t2, tg2, h2, k2))) = line_step(lines, line_start(lines, k), t, target, heads) {
            law_parse_outcome_defined(lines, k2 as int, t2, tg2, h2);
        }
    }
}

} // verus!
