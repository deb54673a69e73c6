//! Values that may run over several lines: multi-line strings and their
//! escapes, and the choice between single- and multi-line strings.
use vstd::prelude::*;
use crate::text::{Grapheme, tok, is_tok, is_whitespace_char, is_unicode_ws, string_from_chars};
use crate::errors::{ErrorKind, TomlError};
use crate::tomltypes::{TOMLType, TomlValue};
use crate::drafts::parsetools::{ParserLine, LineCursor};
use super::{TOMLParser, InnerParseResult, err_view, err_at, progressed, moved_on, Place, Failure, place_of, reached, next_line_place};
use super::strings::{simple_escape, utf8_escape, moved_to, basic_scan, lit_scan, escape_utf8, push_grapheme, is_valid_multi_litstr_grapheme};

verus! {

/// The segment's rest begins with three copies of the grapheme `q`.
pub open spec fn opens_triple(s: Seq<Seq<char>>, q: char) -> bool {
    s.len() >= 3 && s[0] == tok(q) && s[1] == tok(q) && s[2] == tok(q)
}

/// Three copies of `q` at position `i` of the line.
pub open spec fn triple_at(g: Seq<Seq<char>>, i: int, q: char) -> bool {
    0 <= i && i + 3 <= g.len() && g[i] == tok(q) && g[i + 1] == tok(q) && g[i + 2] == tok(q)
}

/// For a quote character, looking at the segment's rest or at the line's
/// rest tells the same about an opening triple: segments break only at
/// `#`, `=` and `,`.
pub proof fn lemma_triple_in_line(c: ParserLine, q: char)
    requires
        c.wf(),
        c.cursor() < c.graphs().len(),
        c.graphs()[c.cursor()] == tok(q),
        q != '#' && q != '=' && q != ',',
    ensures
        opens_triple(c.seg_rest(), q) == triple_at(c.graphs(), c.cursor(), q),
{
    c.lemma_wf();
    let g = c.graphs();
    let i = c.cursor();
    let e = c.seg_end();
    if e >= i + 3 {
        assert(c.seg_rest()[0] == g[i]);
        assert(c.seg_rest()[1] == g[i + 1]);
        assert(c.seg_rest()[2] == g[i + 2]);
    } else if e < g.len() {
        assert(crate::drafts::parsetools::is_seg_point(g, e));
        assert(tok(q)[0] == q);
        assert(tok('#')[0] == '#' && tok('=')[0] == '=' && tok(',')[0] == ',');
        if e == i + 2 {
            if g[i + 1] == tok(q) {
                assert(g[e - 1] != tok('=') && g[e - 1] != tok(','));
                assert(g[i + 2] != tok(q));
            }
        } else {
            assert(e == i + 1);
            assert(g[e - 1] != tok('=') && g[e - 1] != tok(','));
            assert(g[i + 1] != tok(q));
        }
    }
}

/// Whether a grapheme is not whitespace (judged by its first character).
pub open spec fn non_ws_grapheme(g: Seq<char>) -> bool {
    g.len() > 0 && !is_unicode_ws(g[0])
}

/// The text collected for a multi-line string, without the three
/// characters of its closing delimiter.
pub(crate) fn text_without_delimiter(pool: &Vec<char>) -> (r: String)
    requires
        pool.len() >= 3,
    ensures
        r@ == ml_text(pool@),
{
    let n = pool.len() - 3;
    let mut out: Vec<char> = Vec::new();
    let mut i: usize = 0;
    while i < n
        invariant
            n == pool.len() - 3,
            i <= n,
            out@ == pool@.take(i as int),
        decreases n - i,
    {
        out.push(pool[i]);
        i = i + 1;
        assert(out@ =~= pool@.take(i as int));
    }
    string_from_chars(&out)
}

/// Moving on from a place to the next grapheme that is not whitespace,
/// reading further lines as needed: its first character and the place
/// after it.
pub open spec fn gnw_scan(lines: Seq<Seq<char>>, pl: Place) -> Result<(char, Place), Failure>
    decreases lines.len() - pl.read, pl.graphs.len() - pl.pos,
{
    if pl.pos < 0 || pl.pos >= pl.graphs.len() {
        match next_line_place(lines, pl.read) {
            Ok(p2) => gnw_scan(lines, p2),
            Err(e) => Err(e),
        }
    } else if non_ws_grapheme(pl.graphs[pl.pos]) {
        Ok((pl.graphs[pl.pos][0], Place { pos: pl.pos + 1, ..pl }))
    } else {
        gnw_scan(lines, Place { pos: pl.pos + 1, ..pl })
    }
}

/// The escape sequence after a backslash in a multi-line string, read from
/// a place: the character, the place after it, and whether it is a quote
/// that counts towards the closing delimiter. A line-ending backslash skips
/// all whitespace, over further lines, to the next character.
pub open spec fn mesc_scan(lines: Seq<Seq<char>>, pl: Place) -> Result<(char, Place, bool), Failure> {
    let g = pl.graphs;
    let i = pl.pos;
    if i < 0 || i >= g.len() {
        Err((ErrorKind::EndOfFile, pl.read, Seq::empty()))
    } else {
        match simple_escape(g[i]) {
            Some(ch) => Ok((ch, Place { pos: i + 1, ..pl }, false)),
            None => if g[i] == tok('u') || g[i] == tok('U') {
                match utf8_escape(g, i + 1) {
                    Ok((ch, n)) => Ok((ch, Place { pos: i + 1 + n, ..pl }, false)),
                    Err(ErrorKind::HexDigitCluster) => Err((ErrorKind::HexDigitCluster, pl.line, Seq::empty())),
                    Err(_) => Err((ErrorKind::InvalidUnicodeEscape, pl.line, Seq::empty())),
                }
            } else if non_ws_grapheme(g[i]) {
                Err((ErrorKind::InvalidEscape, pl.line, Seq::empty()))
            } else {
                match gnw_scan(lines, Place { pos: i + 1, ..pl }) {
                    Ok((ch, p2)) => Ok((ch, p2, ch == '"')),
                    Err(e) => Err(e),
                }
            },
        }
    }
}

/// The text of a multi-line string: what was collected, without the three
/// characters of the closing delimiter.
pub open spec fn ml_text(pool: Seq<char>) -> Seq<char> {
    if pool.len() >= 3 {
        pool.take(pool.len() - 3)
    } else {
        Seq::empty()
    }
}

/// Where the body of a multi-line string starts, its opening delimiter at
/// the place: after the three quotes and a line feed right after them.
pub open spec fn ml_start(pl: Place) -> Place {
    let s = pl.pos + 3;
    Place { pos: if 0 <= s < pl.graphs.len() && pl.graphs[s] == tok('\n') { s + 1 } else { s }, ..pl }
}

/// The end of a multi-line string once its closing delimiter was read: a
/// further quote at the place still belongs to the string. Gives the text
/// (all but the last three characters) and the place after it.
pub open spec fn ml_finish(pl: Place, q: char, pool: Seq<char>) -> (Seq<char>, Place) {
    if 0 <= pl.pos < pl.graphs.len() && pl.graphs[pl.pos] == tok(q) {
        (ml_text(pool + pl.graphs[pl.pos]), Place { pos: pl.pos + 1, ..pl })
    } else {
        (ml_text(pool), pl)
    }
}

/// Reading the body of a multi-line literal string from a place, reading
/// further lines as needed, with `count` apostrophes just read, the text
/// `pool` collected.
pub open spec fn mll_scan(lines: Seq<Seq<char>>, pl: Place, count: nat, pool: Seq<char>) -> Result<(Seq<char>, Place), Failure>
    decreases lines.len() - pl.read, pl.graphs.len() - pl.pos,
{
    if count >= 3 {
        Ok(ml_finish(pl, '\'', pool))
    } else if pl.pos < 0 || pl.pos >= pl.graphs.len() {
        match next_line_place(lines, pl.read) {
            Ok(p2) => mll_scan(lines, p2, count, pool),
            Err(e) => Err(e),
        }
    } else {
        let c = pl.graphs[pl.pos];
        if c.len() > 0 {
            mll_scan(lines, Place { pos: pl.pos + 1, ..pl }, if c == tok('\'') { count + 1 } else { 0 }, pool + c)
        } else {
            mll_scan(lines, Place { pos: pl.pos + 1, ..pl }, count, pool)
        }
    }
}

/// `b` lies after `a`: on a later line that was read, or further along the
/// same line.
pub open spec fn advances(lines: Seq<Seq<char>>, a: Place, b: Place) -> bool {
    ||| a.read < b.read <= lines.len()
    ||| (b.read == a.read && b.graphs == a.graphs && a.pos < b.pos <= b.graphs.len())
}

/// `b` lies at or after `a`: on a later line that was read, or at or
/// after it on the same line.
pub open spec fn reaches(lines: Seq<Seq<char>>, a: Place, b: Place) -> bool {
    ||| a.read < b.read <= lines.len()
    ||| (b.read == a.read && b.graphs == a.graphs && a.pos <= b.pos <= b.graphs.len())
}

/// Reading a multi-line literal string ends at or after where it began.
pub proof fn lemma_mll_progress(lines: Seq<Seq<char>>, pl: Place, count: nat, pool: Seq<char>)
    requires
        0 <= pl.pos <= pl.graphs.len(),
    ensures
        mll_scan(lines, pl, count, pool) matches Ok((_, p2)) ==> reaches(lines, pl, p2) && 0 <= p2.pos
            <= p2.graphs.len(),
    decreases lines.len() - pl.read, pl.graphs.len() - pl.pos,
{
    if count >= 3 {
    } else if pl.pos >= pl.graphs.len() {
        if let Ok(p2) = next_line_place(lines, pl.read) {
            lemma_mll_progress(lines, p2, count, pool);
        }
    } else {
        let c = pl.graphs[pl.pos];
        if c.len() > 0 {
            lemma_mll_progress(lines, Place { pos: pl.pos + 1, ..pl }, if c == tok('\'') { count + 1 } else { 0 }, pool + c);
        } else {
            lemma_mll_progress(lines, Place { pos: pl.pos + 1, ..pl }, count, pool);
        }
    }
}

/// Reading the body of a multi-line basic string from a place, reading
/// further lines as needed, with `count` quotes just read (an escaped quote
/// after a line-ending backslash counts too) and the text `pool` collected.
/// An escape must make progress for the reading to go on.
pub open spec fn mlb_scan(lines: Seq<Seq<char>>, pl: Place, count: nat, pool: Seq<char>) -> Option<Result<(Seq<char>, Place), Failure>>
    decreases lines.len() - pl.read, pl.graphs.len() - pl.pos,
{
    if count >= 3 {
        Some(Ok(ml_finish(pl, '"', pool)))
    } else if pl.pos < 0 || pl.pos >= pl.graphs.len() {
        match next_line_place(lines, pl.read) {
            Ok(p2) => mlb_scan(lines, p2, count, pool),
            Err(e) => Some(Err(e)),
        }
    } else {
        let c = pl.graphs[pl.pos];
        if c == tok('"') {
            mlb_scan(lines, Place { pos: pl.pos + 1, ..pl }, count + 1, pool + c)
        } else if c == tok('\\') {
            match mesc_scan(lines, Place { pos: pl.pos + 1, ..pl }) {
                Err(e) => Some(Err(e)),
                Ok((ch, p2, inc)) => if !advances(lines, pl, p2) {
                    None
                } else if p2.pos == p2.graphs.len() {
                    match next_line_place(lines, p2.read) {
                        Ok(p3) => mlb_scan(lines, p3, if inc { count + 1 } else { 0 }, pool.push(ch)),
                        Err(e) => Some(Err(e)),
                    }
                } else {
                    mlb_scan(lines, p2, if inc { count + 1 } else { 0 }, pool.push(ch))
                },
            }
        } else if c.len() > 0 {
            mlb_scan(lines, Place { pos: pl.pos + 1, ..pl }, 0, pool + c)
        } else {
            mlb_scan(lines, Place { pos: pl.pos + 1, ..pl }, count, pool)
        }
    }
}

impl TOMLParser {
    /// Moves to the next grapheme that is not whitespace, reading further
    /// lines as needed; gives its first character and the context after it.
    fn get_nonwhitespace(&mut self, context: ParserLine) -> (r: InnerParseResult<char>)
        requires
            old(self).wf(),
            context.wf(),
        ensures
            progressed(*old(self), *final(self)),
            r matches Ok((ch, c)) ==> c.wf() && !is_unicode_ws(ch) && moved_on(*old(self), context, *final(self), c),
            match gnw_scan(old(self).lines(), place_of(*old(self), context)) {
                Ok((ch, pl)) => r matches Ok((x, c)) && x == ch && reached(*old(self), context, *final(self), c, pl),
                Err(f) => r matches Err(e) && err_view(e) == f,
            },
    {
        let ghost p0 = *self;
        let mut cur = LineCursor::start(context);
        loop
            invariant
                self.wf(),
                progressed(p0, *self),
                p0 == *old(self),
                cur.wf(),
                self.read_count() == p0.read_count() ==> cur.graphs() == context.graphs() && cur.pos()
                    >= context.cursor() && cur.segments() == context.segments() && cur.line() == context.line(),
                gnw_scan(p0.lines(), place_of(p0, context)) == gnw_scan(self.lines(), Place {
                    read: self.read_count(),
                    line: cur.line(),
                    graphs: cur.graphs(),
                    pos: cur.pos(),
                }),
            decreases self.lines().len() - self.read_count(), cur.graphs().len() - cur.pos(),
        {
            proof { cur.lemma_bounds(); }
            match cur.next() {
                Some(g) => {
                    if g.len() > 0 && !is_whitespace_char(g[0]) {
                        let c = cur.finish();
                        return Ok((g[0], c));
                    }
                },
                None => {
                    let pl = self.next_parserline()?;
                    cur = LineCursor::start(pl);
                },
            }
        }
    }

    /// Reads the escape sequence after a backslash in a multi-line string:
    /// the character, the context after it, and whether the character is a
    /// quote that counts towards the closing delimiter (one reached by a
    /// line-ending backslash).
    pub fn parse_multi_escape_sequence(&mut self, context: ParserLine) -> (r: Result<(char, ParserLine, bool), TomlError>)
        requires
            old(self).wf(),
            context.wf(),
        ensures
            progressed(*old(self), *final(self)),
            r matches Ok((_, c, _)) ==> c.wf() && moved_on(*old(self), context, *final(self), c),
            match mesc_scan(old(self).lines(), place_of(*old(self), context)) {
                Ok((ch, pl, inc)) => r matches Ok((x, c, i2)) && x == ch && i2 == inc && reached(*old(self), context, *final(self), c, pl),
                Err(f) => r matches Err(e) && err_view(e) == f,
            },
    {
        let line = context.line_num();
        let mut cur = LineCursor::start(context);
        proof { cur.lemma_bounds(); }
        let c = match cur.next() {
            Some(c) => c,
            None => {
                return Err(TomlError::plain(self.line_num(), ErrorKind::EndOfFile));
            },
        };
        if let Some(ch) = super::strings::simple_escape_exec(&c) {
            return Ok((ch, cur.finish(), false));
        }
        if is_tok(&c, 'u') || is_tok(&c, 'U') {
            proof { super::strings::lemma_hex_scan_count(cur.graphs(), cur.pos(), 0, 0); }
            match escape_utf8(&mut cur) {
                Ok(ch) => {
                    return Ok((ch, cur.finish(), false));
                },
                Err(ErrorKind::HexDigitCluster) => {
                    return Err(TomlError::plain(line, ErrorKind::HexDigitCluster));
                },
                Err(_) => {
                    return Err(TomlError::plain(line, ErrorKind::InvalidUnicodeEscape));
                },
            }
        }
        if c.len() > 0 && !is_whitespace_char(c[0]) {
            return Err(TomlError::plain(line, ErrorKind::InvalidEscape));
        }
        let (ch, pl) = self.get_nonwhitespace(cur.finish())?;
        Ok((ch, pl, ch == '"'))
    }

    /// Parses a multi-line basic string (`"""..."""`), reading further lines
    /// as needed; the cursor is on the opening delimiter.
    fn parse_multi_string(&mut self, context: ParserLine) -> (r: InnerParseResult<TOMLType>)
        requires
            old(self).wf(),
            context.wf(),
            opens_triple(context.seg_rest(), '"'),
        ensures
            progressed(*old(self), *final(self)),
            r matches Ok((t, c)) ==> t@ is MultiStr && c.wf() && moved_on(*old(self), context, *final(self), c),
            match mlb_scan(old(self).lines(), ml_start(place_of(*old(self), context)), 0, Seq::empty()) {
                Some(Ok((text, pl))) => r matches Ok((t, c)) && t@ == TomlValue::MultiStr(text) && reached(
                    *old(self),
                    context,
                    *final(self),
                    c,
                    pl,
                ),
                Some(Err(f)) => r matches Err(e) && err_view(e) == f,
                None => false,
            },
    {
        let ghost p0 = *self;
        let ghost outcome = mlb_scan(p0.lines(), ml_start(place_of(p0, context)), 0, Seq::empty());
        proof {
            context.lemma_wf();
            super::progress::lemma_mlb_progress(p0.lines(), ml_start(place_of(p0, context)), 0, Seq::empty());
        }
        let mut cur = LineCursor::start(context);
        cur.next();
        cur.next();
        cur.next();
        proof { cur.lemma_bounds(); }
        if let Some(g) = cur.peek() {
            if is_tok(&g, '\n') {
                cur.next();
            }
        }
        let mut quote_count: usize = 0;
        let mut pool: Vec<char> = Vec::new();
        assert(pool@ =~= Seq::<char>::empty());
        while quote_count < 3
            invariant
                self.wf(),
                progressed(p0, *self),
                p0 == *old(self),
                cur.wf(),
                quote_count <= 3,
                quote_count <= pool.len(),
                self.read_count() == p0.read_count() ==> cur.graphs() == context.graphs() && cur.pos()
                    > context.cursor() && cur.segments() == context.segments() && cur.line() == context.line(),
                outcome == mlb_scan(p0.lines(), ml_start(place_of(p0, context)), 0, Seq::empty()),
                outcome is Some,
                outcome == mlb_scan(self.lines(), Place {
                    read: self.read_count(),
                    line: cur.line(),
                    graphs: cur.graphs(),
                    pos: cur.pos(),
                }, quote_count as nat, pool@),
            decreases self.lines().len() - self.read_count(), cur.graphs().len() - cur.pos(),
        {
            proof { cur.lemma_bounds(); }
            match cur.next() {
                Some(ch) => {
                    if is_tok(&ch, '"') {
                        quote_count = quote_count + 1;
                        push_grapheme(&mut pool, &ch);
                    } else if is_tok(&ch, '\\') {
                        let (c, pline, inc_delim) = self.parse_multi_escape_sequence(cur.finish())?;
                        if inc_delim {
                            quote_count = quote_count + 1;
                        } else {
                            quote_count = 0;
                        }
                        pool.push(c);
                        let mut ctx = pline;
                        if ctx.is_exhausted() {
                            ctx = self.next_parserline()?;
                        }
                        cur = LineCursor::start(ctx);
                    } else if ch.len() > 0 {
                        quote_count = 0;
                        push_grapheme(&mut pool, &ch);
                    }
                },
                None => {
                    let ctx = self.next_parserline()?;
                    cur = LineCursor::start(ctx);
                },
            }
            proof { cur.lemma_bounds(); }
        }
        proof { cur.lemma_bounds(); }
        if let Some(g) = cur.peek() {
            if is_tok(&g, '"') {
                cur.next();
                push_grapheme(&mut pool, &g);
            }
        }
        let text = text_without_delimiter(&pool);
        Ok((TOMLType::MultiStr(text), cur.finish()))
    }

    /// Parses a multi-line literal string (`'''...'''`), reading further
    /// lines as needed; the cursor is on the opening delimiter.
    fn parse_multi_litstr(&mut self, context: ParserLine) -> (r: InnerParseResult<TOMLType>)
        requires
            old(self).wf(),
            context.wf(),
            opens_triple(context.seg_rest(), '\''),
        ensures
            progressed(*old(self), *final(self)),
            r matches Ok((t, c)) ==> t@ is MultiLitStr && c.wf() && moved_on(*old(self), context, *final(self), c),
            match mll_scan(old(self).lines(), ml_start(place_of(*old(self), context)), 0, Seq::empty()) {
                Ok((text, pl)) => r matches Ok((t, c)) && t@ == TomlValue::MultiLitStr(text) && reached(
                    *old(self),
                    context,
                    *final(self),
                    c,
                    pl,
                ),
                Err(f) => r matches Err(e) && err_view(e) == f,
            },
    {
        let ghost p0 = *self;
        let ghost outcome = mll_scan(p0.lines(), ml_start(place_of(p0, context)), 0, Seq::empty());
        proof { context.lemma_wf(); }
        let mut cur = LineCursor::start(context);
        cur.next();
        cur.next();
        cur.next();
        proof { cur.lemma_bounds(); }
        if let Some(g) = cur.peek() {
            if is_tok(&g, '\n') {
                cur.next();
            }
        }
        let mut apostrophe_count: usize = 0;
        let mut pool: Vec<char> = Vec::new();
        assert(pool@ =~= Seq::<char>::empty());
        while apostrophe_count < 3
            invariant
                self.wf(),
                progressed(p0, *self),
                p0 == *old(self),
                cur.wf(),
                apostrophe_count <= 3,
                apostrophe_count <= pool.len(),
                self.read_count() == p0.read_count() ==> cur.graphs() == context.graphs() && cur.pos()
                    > context.cursor() && cur.segments() == context.segments() && cur.line() == context.line(),
                outcome == mll_scan(p0.lines(), ml_start(place_of(p0, context)), 0, Seq::empty()),
                outcome == mll_scan(self.lines(), Place {
                    read: self.read_count(),
                    line: cur.line(),
                    graphs: cur.graphs(),
                    pos: cur.pos(),
                }, apostrophe_count as nat, pool@),
            decreases self.lines().len() - self.read_count(), cur.graphs().len() - cur.pos(),
        {
            proof { cur.lemma_bounds(); }
            match cur.next() {
                Some(ch) => {
                    if ch.len() > 0 {
                        if is_tok(&ch, '\'') {
                            apostrophe_count = apostrophe_count + 1;
                        } else {
                            apostrophe_count = 0;
                        }
                        push_grapheme(&mut pool, &ch);
                    }
                },
                None => {
                    let ctx = self.next_parserline()?;
                    cur = LineCursor::start(ctx);
                },
            }
            proof { cur.lemma_bounds(); }
        }
        proof { cur.lemma_bounds(); }
        if let Some(g) = cur.peek() {
            if is_tok(&g, '\'') {
                cur.next();
                push_grapheme(&mut pool, &g);
            }
        }
        let text = text_without_delimiter(&pool);
        Ok((TOMLType::MultiLitStr(text), cur.finish()))
    }

    /// Whether the current segment opens with three copies of `q`.
    fn opens_with_triple(context: &ParserLine, q: char) -> (r: bool)
        requires
            context.wf(),
            context.cursor() < context.graphs().len(),
        ensures
            r == opens_triple(context.seg_rest(), q),
    {
        let mut seg = context.peek().unwrap();
        let mut i: usize = 0;
        while i < 3
            invariant
                i <= 3,
                seg.wf(),
                seg.rest() == context.seg_rest().skip(i as int),
                i <= context.seg_rest().len(),
                forall|j: int| 0 <= j < i ==> context.seg_rest()[j] == tok(q),
            decreases 3 - i,
        {
            if crate::text::is_some_tok(seg.peek(), q) {
                seg.next();
                assert(seg.rest() =~= context.seg_rest().skip(i + 1));
            } else {
                return false;
            }
            i = i + 1;
        }
        true
    }

    /// Parses a basic or multi-line basic string; the cursor is on the
    /// opening quote.
    pub fn parse_string(&mut self, context: ParserLine) -> (r: InnerParseResult<TOMLType>)
        requires
            old(self).wf(),
            context.wf(),
            context.cursor() < context.graphs().len(),
        ensures
            progressed(*old(self), *final(self)),
            r matches Ok((_, c)) ==> c.wf() && moved_on(*old(self), context, *final(self), c),
            !opens_triple(context.seg_rest(), '"') ==> *final(self) == *old(self) && match basic_scan(context.graphs(), context.cursor() + 1, Seq::empty()) {
                Ok((v, j)) => r matches Ok((t, c)) && t@ == TomlValue::BasicStr(v) && moved_to(context, c, j),
                Err((k, d)) => r matches Err(e) && err_view(e) == err_at(old(self).read_count(), k, d),
            },
            opens_triple(context.seg_rest(), '"') ==> (r matches Ok((t, _)) ==> t@ is MultiStr),
            opens_triple(context.seg_rest(), '"') ==> match mlb_scan(
                old(self).lines(),
                ml_start(place_of(*old(self), context)),
                0,
                Seq::empty(),
            ) {
                Some(Ok((text, pl))) => r matches Ok((t, c)) && t@ == TomlValue::MultiStr(text) && reached(
                    *old(self),
                    context,
                    *final(self),
                    c,
                    pl,
                ),
                Some(Err(f)) => r matches Err(e) && err_view(e) == f,
                None => false,
            },
    {
        proof {
            super::strings::lemma_basic_scan_progress(context.graphs(), context.cursor() + 1, Seq::empty());
            context.lemma_wf();
            if opens_triple(context.seg_rest(), '"') {
                super::progress::lemma_mlb_progress(self.lines(), ml_start(place_of(*self, context)), 0, Seq::empty());
            }
        }
        if Self::opens_with_triple(&context, '"') {
            self.parse_multi_string(context)
        } else {
            self.parse_basic_string(context)
        }
    }

    /// Parses a literal or multi-line literal string; the cursor is on the
    /// opening apostrophe.
    pub fn parse_literal_string(&mut self, context: ParserLine) -> (r: InnerParseResult<TOMLType>)
        requires
            old(self).wf(),
            context.wf(),
            context.cursor() < context.graphs().len(),
        ensures
            progressed(*old(self), *final(self)),
            r matches Ok((_, c)) ==> c.wf() && moved_on(*old(self), context, *final(self), c),
            !opens_triple(context.seg_rest(), '\'') ==> *final(self) == *old(self) && match lit_scan(context.graphs(), context.cursor() + 1, Seq::empty()) {
                Ok((v, j)) => r matches Ok((t, c)) && t@ == TomlValue::LitStr(v) && moved_to(context, c, j),
                Err((k, d)) => r matches Err(e) && err_view(e) == err_at(old(self).read_count(), k, d),
            },
            opens_triple(context.seg_rest(), '\'') ==> (r matches Ok((t, _)) ==> t@ is MultiLitStr),
            opens_triple(context.seg_rest(), '\'') ==> match mll_scan(
                old(self).lines(),
                ml_start(place_of(*old(self), context)),
                0,
                Seq::empty(),
            ) {
                Ok((text, pl)) => r matches Ok((t, c)) && t@ == TomlValue::MultiLitStr(text) && reached(
                    *old(self),
                    context,
                    *final(self),
                    c,
                    pl,
                ),
                Err(f) => r matches Err(e) && err_view(e) == f,
            },
    {
        proof { super::strings::lemma_lit_scan_progress(context.graphs(), context.cursor() + 1, Seq::empty()); }
        if Self::opens_with_triple(&context, '\'') {
            self.parse_multi_litstr(context)
        } else {
            self.parse_basic_litstr(context)
        }
    }
}

} // verus!
