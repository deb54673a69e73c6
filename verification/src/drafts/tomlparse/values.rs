//! Values and key-value pairs: the choice of value kind, arrays, inline
//! tables, and putting a pair into a table.
use vstd::prelude::*;
use crate::text::{Grapheme, tok, is_tok, string_from_chars, join_with, lemma_join_push};
use crate::errors::{ErrorKind, TomlError};
use crate::tomltypes::{TOMLTable, TOMLType, TomlValue, TableView, tv_insert_dotted, values_view, lemma_values_view};
use crate::drafts::parsetools::{ParserLine, LineCursor, TPath, TOMLSeg, count_ws, lemma_count_ws_bounds, seg_end_at, seg_rest_at, lemma_seg_end_bounds};
use super::{TOMLParser, KeyVal, InnerParseResult, err_view, err_at, progressed, moved_on, Place, Failure, place_of, reached, seek_scan};
use super::multiline::{mlb_scan, mll_scan, ml_start, advances};
use super::numbers::resumed;
use super::scalars::{numeric_parse, lemma_int_parse_progress, numeric_parse_at, segment_text_at, bool_parse, lemma_scalars_at};
use super::strings::{basic_scan, lit_scan};
use super::multiline::opens_triple;
use super::strings::moved_to;
use super::statements::{is_gap_grapheme, key_scan, lemma_key_scan_pos};
use super::headers::path_text;
use crate::text::split_on;

verus! {

/// The kind of value that its first grapheme announces.
pub open spec fn kind_fits(first: Seq<char>, v: TomlValue) -> bool {
    if first == tok('[') {
        v is Array
    } else if first == tok('{') {
        v is InlineTable
    } else if first == tok('"') {
        v is BasicStr || v is MultiStr
    } else if first == tok('\'') {
        v is LitStr || v is MultiLitStr
    } else if first == tok('t') || first == tok('f') {
        v is Bool
    } else {
        v is Int || v is Float || v is Date || v is Time || v is NaiveDateTime || v is TimeStamp
    }
}

/// The value whose first grapheme is at the place, and the place after it,
/// reading further lines as needed. `None` only where a step that must make
/// progress does not, which never happens (see `progress`).
pub open spec fn value_scan(lines: Seq<Seq<char>>, pl: Place) -> Option<Result<(TomlValue, Place), Failure>>
    decreases lines.len() - pl.read, pl.graphs.len() - pl.pos, 2int,
{
    let g = pl.graphs;
    let p = pl.pos;
    if p < 0 || p >= g.len() {
        None
    } else {
        let f = g[p];
        let rest = seg_rest_at(g, p);
        if f == tok('[') {
            array_scan(lines, pl)
        } else if f == tok('{') {
            inline_scan(lines, pl)
        } else if f == tok('"') {
            if opens_triple(rest, '"') {
                match mlb_scan(lines, ml_start(pl), 0, Seq::empty()) {
                    None => None,
                    Some(Ok((text, p2))) => Some(Ok((TomlValue::MultiStr(text), p2))),
                    Some(Err(e)) => Some(Err(e)),
                }
            } else {
                match basic_scan(g, p + 1, Seq::empty()) {
                    Ok((v, j)) => Some(Ok((TomlValue::BasicStr(v), Place { pos: j, ..pl }))),
                    Err((k, d)) => Some(Err((k, pl.read, d))),
                }
            }
        } else if f == tok('\'') {
            if opens_triple(rest, '\'') {
                match mll_scan(lines, ml_start(pl), 0, Seq::empty()) {
                    Ok((text, p2)) => Some(Ok((TomlValue::MultiLitStr(text), p2))),
                    Err(e) => Some(Err(e)),
                }
            } else {
                match lit_scan(g, p + 1, Seq::empty()) {
                    Ok((v, j)) => Some(Ok((TomlValue::LitStr(v), Place { pos: j, ..pl }))),
                    Err((k, d)) => Some(Err((k, pl.read, d))),
                }
            }
        } else if f == tok('t') || f == tok('f') {
            match bool_parse(segment_text_at(g, p)) {
                Some(b) => Some(Ok((TomlValue::Bool(b), Place { pos: seg_end_at(g, p), ..pl }))),
                None => Some(Err((ErrorKind::BoolFormat, pl.line, Seq::empty()))),
            }
        } else {
            match numeric_parse_at(g, p) {
                Some((v, n)) => Some(Ok((v, Place { pos: p + n, ..pl }))),
                None => Some(Err((ErrorKind::NotNumeric, pl.line, Seq::empty()))),
            }
        }
    }
}

/// The value read from a place: spaces and tabs are skipped within the
/// segment, then the value follows (see `value_scan`).
pub open spec fn value_at(lines: Seq<Seq<char>>, pl: Place) -> Option<Result<(TomlValue, Place), Failure>>
    decreases lines.len() - pl.read, pl.graphs.len() - pl.pos, 3int,
{
    let g = pl.graphs;
    let i = pl.pos;
    if i < 0 || i >= g.len() {
        Some(Err((ErrorKind::EndOfFile, pl.read, Seq::empty())))
    } else if count_ws(seg_rest_at(g, i)) == seg_rest_at(g, i).len() {
        Some(Err((ErrorKind::EmptyValueSegment, pl.line, Seq::empty())))
    } else {
        proof {
            lemma_seg_end_bounds(g, i);
            lemma_count_ws_bounds(seg_rest_at(g, i));
        }
        value_scan(lines, Place { pos: i + count_ws(seg_rest_at(g, i)), ..pl })
    }
}

/// An array whose `[` is at the place: the items start at the first
/// grapheme after it that is no space, tab, line feed or comment.
pub open spec fn array_scan(lines: Seq<Seq<char>>, pl: Place) -> Option<Result<(TomlValue, Place), Failure>>
    decreases lines.len() - pl.read, pl.graphs.len() - pl.pos, 1int,
{
    match seek_scan(lines, Place { pos: pl.pos + 1, ..pl }) {
        Err(e) => Some(Err(e)),
        Ok(q) => if advances(lines, pl, q) {
            array_items(lines, q, Seq::empty())
        } else {
            None
        },
    }
}

/// The items of an array from a place on, after the items `acc`: a `]`
/// closes it; each value may be followed by a comma, then spaces, line
/// feeds and comments up to the next item.
pub open spec fn array_items(lines: Seq<Seq<char>>, pl: Place, acc: Seq<TomlValue>) -> Option<Result<(TomlValue, Place), Failure>>
    decreases lines.len() - pl.read, pl.graphs.len() - pl.pos, 4int,
{
    let g = pl.graphs;
    let q = pl.pos;
    if q < 0 || q >= g.len() {
        None
    } else if g[q] == tok(']') {
        Some(Ok((TomlValue::Array(acc), Place { pos: q + 1, ..pl })))
    } else if g[q] == tok(',') {
        Some(Err((ErrorKind::ArrayMisplacedComma, pl.line, Seq::empty())))
    } else {
        match value_at(lines, pl) {
            None => None,
            Some(Err(e)) => Some(Err(e)),
            Some(Ok((v, pe))) => if !advances(lines, pl, pe) {
                None
            } else if pe.pos >= pe.graphs.len() {
                Some(Err((ErrorKind::ArrayEndedEarly, pe.line, Seq::empty())))
            } else {
                let pe2 = if pe.graphs[pe.pos] == tok(',') { Place { pos: pe.pos + 1, ..pe } } else { pe };
                match seek_scan(lines, pe2) {
                    Err(e) => Some(Err(e)),
                    Ok(q2) => if advances(lines, pl, q2) {
                        array_items(lines, q2, acc.push(v))
                    } else {
                        None
                    },
                }
            },
        }
    }
}

/// An inline table whose `{` is at the place.
pub open spec fn inline_scan(lines: Seq<Seq<char>>, pl: Place) -> Option<Result<(TomlValue, Place), Failure>>
    decreases lines.len() - pl.read, pl.graphs.len() - pl.pos, 1int,
{
    if pl.pos < 0 || pl.pos >= pl.graphs.len() {
        None
    } else {
        inline_items(lines, Place { pos: pl.pos + 1, ..pl }, Seq::empty(), false)
    }
}

/// The pairs of an inline table from a place on, after the table `acc`
/// built so far; `comma` tells whether a comma followed the last pair.
pub open spec fn inline_items(lines: Seq<Seq<char>>, pl: Place, acc: TableView, comma: bool) -> Option<Result<(TomlValue, Place), Failure>>
    decreases lines.len() - pl.read, pl.graphs.len() - pl.pos, 4int,
{
    let g = pl.graphs;
    let q = pl.pos;
    if q < 0 || q >= g.len() {
        Some(Err((ErrorKind::EndOfFile, pl.read, Seq::empty())))
    } else if g[q] == tok(' ') || g[q] == tok('\t') {
        inline_items(lines, Place { pos: q + 1, ..pl }, acc, comma)
    } else if g[q] == tok(',') {
        Some(Err((ErrorKind::InlineTableMisplacedComma, pl.line, Seq::empty())))
    } else if g[q] == tok('\n') {
        Some(Err((ErrorKind::InlineTableNewline, pl.line, Seq::empty())))
    } else if g[q] == tok('}') {
        if comma {
            Some(Err((ErrorKind::InlineTableTrailingComma, pl.line, Seq::empty())))
        } else {
            Some(Ok((TomlValue::InlineTable(acc), Place { pos: q + 1, ..pl })))
        }
    } else {
        match keyval_scan(lines, pl) {
            None => None,
            Some(Err(e)) => Some(Err(e)),
            Some(Ok((segs, v, pe))) => if !advances(lines, pl, pe) {
                None
            } else if pe.pos >= pe.graphs.len() {
                Some(Err((ErrorKind::InlineTableEndedEarly, pe.line, Seq::empty())))
            } else {
                let keys = split_on(path_text(segs), seq!['\0']);
                match tv_insert_dotted(acc, keys, v) {
                    Err(l) => Some(Err((ErrorKind::KeyAlreadyDefined, pe.line, partial_key(keys, l)))),
                    Ok(acc2) => if pe.graphs[pe.pos] == tok(',') {
                        inline_items(lines, Place { pos: pe.pos + 1, ..pe }, acc2, true)
                    } else {
                        inline_items(lines, pe, acc2, false)
                    },
                }
            },
        }
    }
}

/// A key-value pair read from a place: the keys, the value and the place
/// after it.
pub open spec fn keyval_scan(lines: Seq<Seq<char>>, pl: Place) -> Option<Result<(Seq<Seq<char>>, TomlValue, Place), Failure>>
    decreases lines.len() - pl.read, pl.graphs.len() - pl.pos, 1int,
{
    proof { lemma_key_scan_pos(lines, pl, Seq::empty(), Seq::empty(), false); }
    match key_scan(lines, pl, Seq::empty(), Seq::empty(), false) {
        Err(f) => Some(Err(f)),
        Ok((segs, pk)) => if segs.len() == 0 {
            Some(Err((ErrorKind::NoKey, pk.read, Seq::empty())))
        } else if pk.graphs[pk.pos] != tok('=') {
            Some(Err((ErrorKind::MissingEquals, pk.line, Seq::empty())))
        } else {
            match value_at(lines, Place { pos: pk.pos + 1, ..pk }) {
                None => None,
                Some(Err(e)) => Some(Err(e)),
                Some(Ok((v, pe))) => Some(Ok((segs, v, pe))),
            }
        },
    }
}

/// The key written out when it is already taken at `level`: the keys up to
/// it joined by `|`, with a `|` after it unless it is the last key.
pub open spec fn partial_key(keys: Seq<Seq<char>>, level: int) -> Seq<char> {
    if level + 1 < keys.len() {
        join_with(keys.take(level + 1), seq!['|']) + seq!['|']
    } else {
        join_with(keys, seq!['|'])
    }
}

/// Joins the first `n` keys with `|`.
fn join_keys(keys: &Vec<String>, n: usize) -> (r: Vec<char>)
    requires
        0 < n <= keys.len(),
    ensures
        r@ == join_with(keys.deep_view().take(n as int), seq!['|']),
{
    let ghost ks = keys.deep_view();
    let mut out = crate::text::chars_of(keys[0].as_str());
    assert(ks.take(1) =~= seq![ks[0]]);
    let mut i: usize = 1;
    while i < n
        invariant
            ks == keys.deep_view(),
            1 <= i <= n,
            n <= keys.len(),
            out@ == join_with(ks.take(i as int), seq!['|']),
        decreases n - i,
    {
        out.push('|');
        let next = crate::text::chars_of(keys[i].as_str());
        let mut j: usize = 0;
        let ghost before = out@;
        while j < next.len()
            invariant
                j <= next.len(),
                out@ == before + next@.take(j as int),
            decreases next.len() - j,
        {
            out.push(next[j]);
            j = j + 1;
            assert(out@ =~= before + next@.take(j as int));
        }
        proof {
            assert(next@.take(next.len() as int) =~= next@);
            lemma_join_push(ks.take(i as int), ks[i as int], seq!['|']);
            assert(ks.take(i as int).push(ks[i as int]) =~= ks.take(i + 1));
            assert(out@ =~= join_with(ks.take(i as int), seq!['|']) + seq!['|'] + ks[i as int]);
        }
        i = i + 1;
    }
    out
}

/// The text that names a taken key.
fn partial_key_text(keys: &Vec<String>, level: usize) -> (r: String)
    requires
        level < keys.len(),
    ensures
        r@ == partial_key(keys.deep_view(), level as int),
{
    if level + 1 < keys.len() {
        let mut v = join_keys(keys, level + 1);
        v.push('|');
        string_from_chars(&v)
    } else {
        let v = join_keys(keys, keys.len());
        assert(keys.deep_view().take(keys.len() as int) =~= keys.deep_view());
        string_from_chars(&v)
    }
}

/// Puts a key-value pair into a table, creating the dotted-key tables its
/// key passes through; a key that is already taken is refused and the
/// table left as it was.
pub fn insert_keyval(kv: KeyVal, table_head: &mut TOMLTable) -> (r: Result<(), TomlError>)
    ensures
        match tv_insert_dotted(old(table_head)@, kv.0.keys(), kv.1@) {
            Ok(t2) => r is Ok && final(table_head)@ == t2,
            Err(l) => (r matches Err(e) && e.kind == ErrorKind::KeyAlreadyDefined && e.detail@ == partial_key(kv.0.keys(), l))
                && final(table_head)@ == old(table_head)@,
        },
{
    let KeyVal(key_path, val) = kv;
    let keys = key_path.segments();
    proof { crate::text::lemma_split_nonempty(key_path.content(), key_path.delim()); }
    assert(keys.deep_view().skip(0) =~= keys.deep_view());
    assert(keys.deep_view() == kv.0.keys());
    assert(keys.len() > 0);
    assert(val@ == kv.1@);
    proof { crate::tomltypes::lemma_insert_err_level(table_head@, keys.deep_view(), kv.1@); }
    let res = table_head.insert_dotted(&keys, 0, val);
    match res {
        Ok(()) => {
            Ok(())
        },
        Err(level) => {
            Err(TomlError { line: 0, kind: ErrorKind::KeyAlreadyDefined, detail: partial_key_text(&keys, level) })
        },
    }
}

impl TOMLParser {
    /// Puts a key-value pair into a table (see `insert_keyval`).
    pub fn insert(kv: KeyVal, table_head: &mut TOMLTable) -> (r: Result<(), TomlError>)
        ensures
            match tv_insert_dotted(old(table_head)@, kv.0.keys(), kv.1@) {
                Ok(t2) => r is Ok && final(table_head)@ == t2,
                Err(l) => (r matches Err(e) && e.kind == ErrorKind::KeyAlreadyDefined && e.detail@ == partial_key(kv.0.keys(), l))
                    && final(table_head)@ == old(table_head)@,
            },
    {
        insert_keyval(kv, table_head)
    }

    /// Parses a key, the `=` after it, and the value after that.
    pub fn parse_keyval(&mut self, context: ParserLine) -> (r: InnerParseResult<KeyVal>)
        requires
            old(self).wf(),
            context.wf(),
        ensures
            progressed(*old(self), *final(self)),
            r matches Ok((_, c)) ==> c.wf() && moved_on(*old(self), context, *final(self), c),
            match keyval_scan(old(self).lines(), place_of(*old(self), context)) {
                Some(Ok((segs, v, pl))) => r matches Ok((kv, c)) && kv.0.content() == join_with(segs, seq!['\0'])
                    && kv.0.delim() == seq!['\0'] && kv.1@ == v && reached(*old(self), context, *final(self), c, pl),
                Some(Err(f)) => r matches Err(e) && err_view(e) == f,
                None => false,
            },
        decreases old(self).lines().len() - old(self).read_count(), context.graphs().len() - context.cursor(), 3nat,
    {
        let ghost p0 = *self;
        proof {
            context.lemma_wf();
            super::progress::lemma_keyval_scan_total(self.lines(), place_of(*self, context));
        }
        let (key, pline) = self.parse_key(context)?;
        let ghost p1 = *self;
        let line = pline.line_num();
        let mut cur = LineCursor::start(pline);
        proof { cur.lemma_bounds(); }
        match cur.next() {
            Some(g) => {
                if !is_tok(&g, '=') {
                    return Err(TomlError::plain(line, ErrorKind::MissingEquals));
                }
            },
            None => {
                return Err(TomlError::plain(line, ErrorKind::MissingEquals));
            },
        }
        proof { cur.lemma_bounds(); }
        if cur.peek().is_none() {
            return Err(TomlError::plain(self.line_num(), ErrorKind::EndOfFile));
        }
        let pl = cur.finish();
        proof { pl.lemma_wf(); }
        let (val, c) = self.parse_value(pl)?;
        Ok((KeyVal(key, val), c))
    }

    /// Parses a value: the first grapheme after spaces and tabs in the
    /// current segment tells its kind.
    #[verifier::spinoff_prover]
    pub fn parse_value(&mut self, context: ParserLine) -> (r: InnerParseResult<TOMLType>)
        requires
            old(self).wf(),
            context.wf(),
        ensures
            progressed(*old(self), *final(self)),
            r matches Ok((t, c)) ==> c.wf() && moved_on(*old(self), context, *final(self), c)
                && kind_fits(context.seg_rest()[count_ws(context.seg_rest())], t@),
            match value_at(old(self).lines(), place_of(*old(self), context)) {
                Some(Ok((v, pl))) => r matches Ok((t, c)) && t@ == v && reached(*old(self), context, *final(self), c, pl),
                Some(Err(f)) => r matches Err(e) && err_view(e) == f,
                None => false,
            },
        decreases old(self).lines().len() - old(self).read_count(), context.graphs().len() - context.cursor(), 2nat,
    {
        let ghost s = context.seg_rest();
        proof {
            super::progress::lemma_value_at_total(self.lines(), place_of(*self, context));
            context.lemma_wf();
            lemma_count_ws_bounds(s);
            if context.cursor() < context.graphs().len() {
                context.lemma_position();
            }
        }
        let mut ctx = context;
        let mut seg = match ctx.next_seg() {
            Some(next) => next,
            None => {
                return Err(TomlError::plain(self.line_num(), ErrorKind::EndOfFile));
            },
        };
        seg.skip_ws();
        let first = match seg.peek() {
            Some(c) => c.clone(),
            None => {
                return Err(TomlError::plain(ctx.line_num(), ErrorKind::EmptyValueSegment));
            },
        };
        proof { crate::text::lemma_chars_deep_view(first); }
        assert(first@ == s[count_ws(s)]);
        let count = seg.count();
        let c1 = ParserLine::freeze(ctx, count);
        proof {
            ParserLine::lemma_same_segment(context, c1);
            assert(c1.seg_rest() =~= s.skip(count_ws(s)));
            assert(c1.graphs()[c1.cursor()] == first@);
            c1.lemma_wf();
            lemma_count_ws_bounds(c1.seg_rest());
            lemma_int_parse_progress(c1.seg_rest());
            context.lemma_position();
            lemma_scalars_at(c1);
            crate::drafts::parsetools::lemma_seg_end_step(context.graphs(), context.cursor(), c1.cursor());
        }
        if is_tok(&first, '[') {
            self.parse_array(c1)
        } else if is_tok(&first, '\'') {
            self.parse_literal_string(c1)
        } else if is_tok(&first, '"') {
            self.parse_string(c1)
        } else if is_tok(&first, 't') || is_tok(&first, 'f') {
            Self::parse_bool(c1)
        } else if is_tok(&first, '{') {
            self.parse_inline_table(c1)
        } else {
            Self::parse_numeric(c1)
        }
    }

    /// Parses an array, reading further lines as needed; the cursor is on
    /// the opening `[`.
    pub fn parse_array(&mut self, context: ParserLine) -> (r: InnerParseResult<TOMLType>)
        requires
            old(self).wf(),
            context.wf(),
            context.cursor() < context.graphs().len(),
        ensures
            progressed(*old(self), *final(self)),
            r matches Ok((t, c)) ==> t@ is Array && c.wf() && moved_on(*old(self), context, *final(self), c),
            match array_scan(old(self).lines(), place_of(*old(self), context)) {
                Some(Ok((v, pl))) => r matches Ok((t, c)) && t@ == v && reached(*old(self), context, *final(self), c, pl),
                Some(Err(f)) => r matches Err(e) && err_view(e) == f,
                None => false,
            },
        decreases old(self).lines().len() - old(self).read_count(), context.graphs().len() - context.cursor(), 1nat,
    {
        let ghost p0 = *self;
        let ghost g = context.graphs();
        let ghost outcome = array_scan(p0.lines(), place_of(p0, context));
        proof {
            context.lemma_wf();
            super::progress::lemma_array_scan_total(p0.lines(), place_of(p0, context));
        }
        let mut cur = LineCursor::start(context);
        cur.next();
        let (_, ctx) = self.seek_nonws(cur.finish())?;
        cur = LineCursor::start(ctx);
        let mut array: Vec<TOMLType> = Vec::new();
        proof {
            assert(values_view(array@) =~= Seq::<TomlValue>::empty());
        }
        loop
            invariant_except_break
                cur.pos() < cur.graphs().len(),
                outcome == array_items(self.lines(), Place {
                    read: self.read_count(),
                    line: cur.line(),
                    graphs: cur.graphs(),
                    pos: cur.pos(),
                }, values_view(array@)),
            invariant
                self.wf(),
                progressed(p0, *self),
                p0 == *old(self),
                cur.wf(),
                g == context.graphs(),
                outcome == array_scan(p0.lines(), place_of(p0, context)),
                outcome is Some,
                self.read_count() == p0.read_count() ==> cur.graphs() == context.graphs() && cur.pos()
                    > context.cursor() && cur.segments() == context.segments() && cur.line() == context.line(),
            ensures
                outcome == Some(
                    Ok::<(TomlValue, Place), Failure>((TomlValue::Array(values_view(array@)), Place {
                        read: self.read_count(),
                        line: cur.line(),
                        graphs: cur.graphs(),
                        pos: cur.pos(),
                    })),
                ),
            decreases self.lines().len() - self.read_count(), cur.graphs().len() - cur.pos(),
        {
            let ghost rc = self.read_count();
            let ghost c0 = cur;
            let ghost acc = values_view(array@);
            proof { cur.lemma_bounds(); }
            let ch = cur.peek().unwrap();
            if is_tok(&ch, ']') {
                cur.next();
                break;
            } else if is_tok(&ch, ',') {
                return Err(TomlError::plain(cur_line(&cur), ErrorKind::ArrayMisplacedComma));
            } else {
                let pl = cur.finish();
                proof { pl.lemma_wf(); }
                let (val, pline) = self.parse_value(pl)?;
                let ghost before = array@;
                array.push(val);
                proof {
                    lemma_values_view(before);
                    lemma_values_view(array@);
                    assert(values_view(array@) =~= acc.push(val@));
                }
                if pline.is_exhausted() {
                    return Err(TomlError::plain(pline.line_num(), ErrorKind::ArrayEndedEarly));
                }
                cur = LineCursor::start(pline);
                proof { cur.lemma_bounds(); }
                if let Some(g) = cur.peek() {
                    if is_tok(&g, ',') {
                        cur.next();
                    }
                }
                let (_, pl) = self.seek_nonws(cur.finish())?;
                cur = LineCursor::start(pl);
            }
            proof { cur.lemma_bounds(); }
            assert(self.read_count() > rc || (self.read_count() == rc && cur.graphs() == c0.graphs() && cur.pos() > c0.pos()));
        }
        Ok((TOMLType::Array(array), cur.finish()))
    }

    /// Parses an inline table (`{ key = value, ... }`); the cursor is on the
    /// opening `{`.
    pub fn parse_inline_table(&mut self, context: ParserLine) -> (r: InnerParseResult<TOMLType>)
        requires
            old(self).wf(),
            context.wf(),
            context.cursor() < context.graphs().len(),
        ensures
            progressed(*old(self), *final(self)),
            r matches Ok((t, c)) ==> t@ is InlineTable && c.wf() && moved_on(*old(self), context, *final(self), c),
            match inline_scan(old(self).lines(), place_of(*old(self), context)) {
                Some(Ok((v, pl))) => r matches Ok((t, c)) && t@ == v && reached(*old(self), context, *final(self), c, pl),
                Some(Err(f)) => r matches Err(e) && err_view(e) == f,
                None => false,
            },
        decreases old(self).lines().len() - old(self).read_count(), context.graphs().len() - context.cursor(), 1nat,
    {
        let ghost p0 = *self;
        let ghost g = context.graphs();
        let ghost outcome = inline_scan(p0.lines(), place_of(p0, context));
        proof {
            context.lemma_wf();
            super::progress::lemma_inline_scan_total(p0.lines(), place_of(p0, context));
        }
        let mut table = TOMLTable::new();
        let mut cur = LineCursor::start(context);
        cur.next();
        let mut trailing_comma = false;
        loop
            invariant_except_break
                outcome == inline_items(self.lines(), Place {
                    read: self.read_count(),
                    line: cur.line(),
                    graphs: cur.graphs(),
                    pos: cur.pos(),
                }, table@, trailing_comma),
            invariant
                self.wf(),
                progressed(p0, *self),
                p0 == *old(self),
                cur.wf(),
                g == context.graphs(),
                outcome == inline_scan(p0.lines(), place_of(p0, context)),
                outcome is Some,
                self.read_count() == p0.read_count() ==> cur.graphs() == context.graphs() && cur.pos()
                    > context.cursor() && cur.segments() == context.segments() && cur.line() == context.line(),
            ensures
                trailing_comma ==> outcome == Some(
                    Err::<(TomlValue, Place), Failure>((ErrorKind::InlineTableTrailingComma, cur.line(), Seq::empty())),
                ),
                !trailing_comma ==> outcome == Some(
                    Ok::<(TomlValue, Place), Failure>((TomlValue::InlineTable(table@), Place {
                        read: self.read_count(),
                        line: cur.line(),
                        graphs: cur.graphs(),
                        pos: cur.pos(),
                    })),
                ),
            decreases self.lines().len() - self.read_count(), cur.graphs().len() - cur.pos(),
        {
            let ghost rc = self.read_count();
            let ghost c0 = cur;
            proof { cur.lemma_bounds(); }
            match cur.peek() {
                None => {
                    return Err(TomlError::plain(self.line_num(), ErrorKind::EndOfFile));
                },
                Some(ch) => {
                    if is_tok(&ch, ' ') || is_tok(&ch, '\t') {
                        cur.next();
                    } else if is_tok(&ch, ',') {
                        return Err(TomlError::plain(cur_line(&cur), ErrorKind::InlineTableMisplacedComma));
                    } else if is_tok(&ch, '\n') {
                        return Err(TomlError::plain(cur_line(&cur), ErrorKind::InlineTableNewline));
                    } else if is_tok(&ch, '}') {
                        cur.next();
                        break;
                    } else {
                        let pl = cur.finish();
                        proof { pl.lemma_wf(); }
                        let (key_val, pline) = self.parse_keyval(pl)?;
                        trailing_comma = false;
                        if pline.is_exhausted() {
                            return Err(TomlError::plain(pline.line_num(), ErrorKind::InlineTableEndedEarly));
                        }
                        let line = pline.line_num();
                        proof { pline.lemma_wf(); }
                        match Self::insert(key_val, &mut table) {
                            Ok(()) => {},
                            Err(e) => {
                                return Err(TomlError { line, kind: e.kind, detail: e.detail });
                            },
                        }
                        cur = LineCursor::start(pline);
                        proof { cur.lemma_bounds(); }
                        if let Some(g) = cur.peek() {
                            if is_tok(&g, ',') {
                                cur.next();
                                trailing_comma = true;
                            }
                        }
                    }
                },
            }
            proof { cur.lemma_bounds(); }
            assert(self.read_count() > rc || (self.read_count() == rc && cur.graphs() == c0.graphs() && cur.pos() > c0.pos()));
        }
        if trailing_comma {
            return Err(TomlError::plain(cur_line(&cur), ErrorKind::InlineTableTrailingComma));
        }
        Ok((TOMLType::InlineTable(table), cur.finish()))
    }
}

/// The number of the line a cursor is on.
fn cur_line(cur: &LineCursor) -> (r: usize)
    ensures
        r == cur.line(),
{
    cur.line_num()
}

} // verus!
