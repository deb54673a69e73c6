//! Comments, line ends, the gaps between values, and keys.
use vstd::prelude::*;
use crate::text::{Grapheme, tok, is_tok, string_from_chars, join_with, lemma_join_push};
use crate::errors::{ErrorKind, TomlError};
use crate::drafts::parsetools::{ParserLine, LineCursor, TPath, is_ws_grapheme};
use super::{TOMLParser, InnerParseResult, err_view, err_at, progressed, moved_on, Place, Failure, place_of, reached, seek_scan};
use super::strings::{valid_str, moved_to, is_valid_comment_grapheme, basic_scan, lit_scan, barekey_char, is_barekey_char, push_grapheme};
use super::multiline::{triple_at, lemma_triple_in_line, mll_scan, ml_start, lemma_mll_progress, reaches};
use super::strings::{lemma_basic_scan_progress, lemma_lit_scan_progress};
use crate::tomltypes::{TOMLType, TomlValue};

verus! {

/// The position of the first grapheme from `i` on that a comment may not
/// hold (line feeds are allowed), if any.
pub open spec fn first_bad_comment(g: Seq<Seq<char>>, i: int) -> Option<int>
    decreases g.len() - i,
{
    if i < 0 || i >= g.len() {
        None
    } else if g[i] != tok('\n') && !valid_str(g[i]) {
        Some(i)
    } else {
        first_bad_comment(g, i + 1)
    }
}

/// The position after the spaces and tabs from `i` on.
pub open spec fn skip_blanks(g: Seq<Seq<char>>, i: int) -> int
    decreases g.len() - i,
{
    if 0 <= i < g.len() && is_ws_grapheme(g[i]) {
        skip_blanks(g, i + 1)
    } else {
        i
    }
}

/// What ending a line from position `i` gives: nothing but spaces and
/// tabs, then a line feed, a comment, or the end of the line.
pub open spec fn eol_check(g: Seq<Seq<char>>, i: int) -> Result<(), (ErrorKind, Seq<char>)> {
    let p = skip_blanks(g, i);
    if p >= g.len() {
        Ok(())
    } else if g[p] == tok('\n') {
        if p + 1 >= g.len() {
            Ok(())
        } else {
            Err((ErrorKind::EolNotReached, Seq::empty()))
        }
    } else if g[p] == tok('#') {
        if p + 1 >= g.len() {
            Err((ErrorKind::EmptyComment, Seq::empty()))
        } else {
            match first_bad_comment(g, p + 1) {
                Some(j) => Err((ErrorKind::InvalidCommentChar, g[j])),
                None => Ok(()),
            }
        }
    } else {
        Err((ErrorKind::RogueCharacter, g[p]))
    }
}

/// A grapheme that the gap between values skips: space, tab, line feed.
pub open spec fn is_gap_grapheme(g: Seq<char>) -> bool {
    g == tok(' ') || g == tok('\t') || g == tok('\n')
}

/// The first position from `i` on that is not a space, tab or line feed,
/// when it lies on this line and is not a comment sign.
pub open spec fn seek_in_line(g: Seq<Seq<char>>, i: int) -> Option<int>
    decreases g.len() - i,
{
    if i < 0 || i >= g.len() {
        None
    } else if is_gap_grapheme(g[i]) {
        seek_in_line(g, i + 1)
    } else if g[i] == tok('#') {
        None
    } else {
        Some(i)
    }
}

/// Reading a key from a place: the keys read so far, the bare key being
/// read, and whether a quoted key was just read. The outcome is the keys
/// and the place of the `=` or `]` that ends them, or the failure. A
/// multi-line literal string may carry the key over further lines.
pub open spec fn key_scan(lines: Seq<Seq<char>>, pl: Place, segs: Seq<Seq<char>>, buf: Seq<char>, quoted: bool)
    -> Result<(Seq<Seq<char>>, Place), Failure>
    decreases lines.len() - pl.read, pl.graphs.len() - pl.pos,
{
    let g = pl.graphs;
    let i = pl.pos;
    if i < 0 || i >= g.len() {
        Err((ErrorKind::EndOfFile, pl.read, Seq::empty()))
    } else {
        let c = g[i];
        let next = Place { pos: i + 1, ..pl };
        if c == tok(']') || c == tok('=') {
            Ok((if buf.len() > 0 { segs.push(buf) } else { segs }, pl))
        } else if c == tok('.') {
            if buf.len() == 0 && !quoted {
                Err((ErrorKind::EmptyBareKey, pl.read, Seq::empty()))
            } else if quoted {
                key_scan(lines, next, segs, buf, false)
            } else {
                key_scan(lines, next, segs.push(buf), Seq::empty(), false)
            }
        } else if is_ws_grapheme(c) {
            key_scan(lines, next, segs, buf, quoted)
        } else if c == tok('"') {
            proof { lemma_basic_scan_progress(g, i + 1, Seq::empty()); }
            match basic_scan(g, i + 1, Seq::empty()) {
                Ok((v, j)) => if j >= g.len() {
                    Err((ErrorKind::KeyNotTerminated, pl.read, Seq::empty()))
                } else {
                    key_scan(lines, Place { pos: j, ..pl }, segs.push(v), buf, true)
                },
                Err((k, d)) => Err((k, pl.read, d)),
            }
        } else if c == tok('\'') {
            if triple_at(g, i, '\'') {
                proof { lemma_mll_progress(lines, ml_start(pl), 0, Seq::empty()); }
                match mll_scan(lines, ml_start(pl), 0, Seq::empty()) {
                    Ok((v, p2)) => if p2.pos >= p2.graphs.len() {
                        Err((ErrorKind::KeyNotTerminated, p2.read, Seq::empty()))
                    } else {
                        key_scan(lines, p2, segs.push(v), buf, true)
                    },
                    Err(e) => Err(e),
                }
            } else {
                proof { lemma_lit_scan_progress(g, i + 1, Seq::empty()); }
                match lit_scan(g, i + 1, Seq::empty()) {
                    Ok((v, j)) => if j >= g.len() {
                        Err((ErrorKind::KeyNotTerminated, pl.read, Seq::empty()))
                    } else {
                        key_scan(lines, Place { pos: j, ..pl }, segs.push(v), buf, true)
                    },
                    Err((k, d)) => Err((k, pl.read, d)),
                }
            }
        } else if !(c.len() > 0 && barekey_char(c[0])) {
            Err((ErrorKind::InvalidBareKeyChar, pl.read, c))
        } else {
            key_scan(lines, next, segs, buf + c, quoted)
        }
    }
}

/// A grapheme that may stand in a key made of bare keys only: a bare-key
/// grapheme, a dot, a space or a tab.
pub open spec fn plain_key_grapheme(c: Seq<char>) -> bool {
    c == tok('.') || is_ws_grapheme(c) || (c.len() > 0 && barekey_char(c[0]))
}

/// The text of key graphemes without the spaces and tabs.
pub open spec fn key_text(t: Seq<Seq<char>>) -> Seq<char>
    decreases t.len(),
{
    if t.len() == 0 {
        Seq::empty()
    } else {
        (if is_ws_grapheme(t[0]) { Seq::empty() } else { t[0] }) + key_text(t.drop_first())
    }
}

proof fn lemma_join_extend(segs: Seq<Seq<char>>, buf: Seq<char>, c: Seq<char>, d: Seq<char>)
    ensures
        join_with(segs.push(buf + c), d) == join_with(segs.push(buf), d) + c,
{
    if segs.len() == 0 {
        assert(segs.push(buf + c) =~= seq![buf + c]);
        assert(segs.push(buf) =~= seq![buf]);
    } else {
        lemma_join_push(segs, buf + c, d);
        lemma_join_push(segs, buf, d);
        assert(join_with(segs, d) + d + (buf + c) =~= join_with(segs, d) + d + buf + c);
    }
}

proof fn lemma_plain_key_scan(lines: Seq<Seq<char>>, pl: Place, segs: Seq<Seq<char>>, buf: Seq<char>)
    requires
        0 <= pl.pos <= pl.graphs.len(),
    ensures
        key_scan(lines, pl, segs, buf, false) matches Ok((r, pk)) ==> (pk.read == pl.read && pk.graphs == pl.graphs
            && pl.pos <= pk.pos && (forall|k: int| pl.pos <= k < pk.pos ==> #[trigger] plain_key_grapheme(pl.graphs[k]))
            && !((join_with(segs.push(buf), seq!['.']) + key_text(pl.graphs.subrange(pl.pos, pk.pos))).last() == '.'
                && (join_with(segs.push(buf), seq!['.']) + key_text(pl.graphs.subrange(pl.pos, pk.pos))).len() > 0)
            ==> join_with(r, seq!['.']) == join_with(segs.push(buf), seq!['.']) + key_text(pl.graphs.subrange(pl.pos, pk.pos))),
    decreases pl.graphs.len() - pl.pos,
{
    let g = pl.graphs;
    let i = pl.pos;
    let d = seq!['.'];
    let acc = join_with(segs.push(buf), d);
    if i < g.len() {
        let c = g[i];
        let next = Place { pos: i + 1, ..pl };
        match key_scan(lines, pl, segs, buf, false) {
            Ok((r, pk)) => {
                if pk.read == pl.read && pk.graphs == g && i <= pk.pos && (forall|k: int| i <= k < pk.pos ==> #[trigger] plain_key_grapheme(g[k])) {
                    let whole = g.subrange(i, pk.pos);
                    if c == tok(']') || c == tok('=') {
                        assert(pk.pos == i);
                        assert(whole =~= Seq::<Seq<char>>::empty());
                        assert(acc + key_text(whole) =~= acc);
                        if buf.len() == 0 && segs.len() > 0 {
                            lemma_join_push(segs, buf, d);
                            assert(acc.last() == '.');
                        }
                        if buf.len() == 0 && segs.len() == 0 {
                            assert(segs.push(buf) =~= seq![buf]);
                            assert(segs =~= Seq::<Seq<char>>::empty());
                        }
                    } else if c == tok('.') || is_ws_grapheme(c) || (c.len() > 0 && barekey_char(c[0])) {
                        if c == tok('.') {
                            lemma_key_scan_pos(lines, next, segs.push(buf), Seq::empty(), false);
                        } else if is_ws_grapheme(c) {
                            lemma_key_scan_pos(lines, next, segs, buf, false);
                        } else {
                            assert(c != tok('"') && c != tok('\''));
                            lemma_key_scan_pos(lines, next, segs, buf + c, false);
                        }
                        assert(i < pk.pos);
                        assert(whole.drop_first() =~= g.subrange(i + 1, pk.pos));
                        assert(whole[0] == c);
                        if c == tok('.') {
                            lemma_plain_key_scan(lines, next, segs.push(buf), Seq::empty());
                            lemma_join_push(segs.push(buf), Seq::empty(), d);
                            assert(join_with(segs.push(buf).push(Seq::empty()), d) =~= acc + c);
                            assert(tok('.')[0] == '.' && tok(' ')[0] == ' ' && tok('\t')[0] == '\t');
                            assert(!is_ws_grapheme(c));
                            assert(key_text(whole) == c + key_text(whole.drop_first()));
                            assert(acc + c + key_text(g.subrange(i + 1, pk.pos)) =~= acc + key_text(whole));
                        } else if is_ws_grapheme(c) {
                            lemma_plain_key_scan(lines, next, segs, buf);
                            assert(key_text(whole) == key_text(g.subrange(i + 1, pk.pos)));
                        } else {
                            lemma_plain_key_scan(lines, next, segs, buf + c);
                            lemma_join_extend(segs, buf, c, d);
                            assert(acc + c + key_text(g.subrange(i + 1, pk.pos)) =~= acc + key_text(whole));
                        }
                    } else {
                        if c == tok('"') {
                            lemma_basic_scan_progress(g, i + 1, Seq::empty());
                            if let Ok((v, j)) = basic_scan(g, i + 1, Seq::empty()) {
                                if j < g.len() {
                                    lemma_key_scan_pos(lines, Place { pos: j, ..pl }, segs.push(v), buf, true);
                                }
                            }
                        } else if c == tok('\'') {
                            if triple_at(g, i, '\'') {
                                lemma_mll_progress(lines, ml_start(pl), 0, Seq::empty());
                                if let Ok((v, p2)) = mll_scan(lines, ml_start(pl), 0, Seq::empty()) {
                                    if p2.pos < p2.graphs.len() {
                                        lemma_key_scan_pos(lines, p2, segs.push(v), buf, true);
                                    }
                                }
                            } else {
                                lemma_lit_scan_progress(g, i + 1, Seq::empty());
                                if let Ok((v, j)) = lit_scan(g, i + 1, Seq::empty()) {
                                    if j < g.len() {
                                        lemma_key_scan_pos(lines, Place { pos: j, ..pl }, segs.push(v), buf, true);
                                    }
                                }
                            }
                        }
                        assert(i < pk.pos);
                        assert(plain_key_grapheme(g[i]));
                    }
                }
            },
            Err(_) => {},
        }
    }
}

/// A key made of bare keys, dots, spaces and tabs reads as its parts:
/// joined again by dots they give the key's text without the spaces and
/// tabs. (A key whose text ends in a dot reads without the empty last part.)
pub proof fn law_bare_key_parts(lines: Seq<Seq<char>>, pl: Place)
    requires
        0 <= pl.pos <= pl.graphs.len(),
    ensures
        key_scan(lines, pl, Seq::empty(), Seq::empty(), false) matches Ok((r, pk)) ==> (pk.read == pl.read
            && pk.graphs == pl.graphs && pl.pos <= pk.pos && (forall|k: int| pl.pos <= k < pk.pos ==> #[trigger] plain_key_grapheme(pl.graphs[k]))
            && !(key_text(pl.graphs.subrange(pl.pos, pk.pos)).len() > 0 && key_text(pl.graphs.subrange(pl.pos, pk.pos)).last() == '.')
            ==> join_with(r, seq!['.']) == key_text(pl.graphs.subrange(pl.pos, pk.pos))),
{
    lemma_plain_key_scan(lines, pl, Seq::empty(), Seq::empty());
    let e: Seq<Seq<char>> = Seq::empty();
    assert(e.push(Seq::<char>::empty()) =~= seq![Seq::<char>::empty()]);
    assert(join_with(e.push(Seq::<char>::empty()), seq!['.']) == Seq::<char>::empty());
    assert(forall|t: Seq<char>| Seq::<char>::empty() + t =~= t);
}

/// The text that a string value holds.
pub open spec fn string_text(v: TomlValue) -> Seq<char> {
    match v {
        TomlValue::BasicStr(s) => s,
        TomlValue::MultiStr(s) => s,
        TomlValue::LitStr(s) => s,
        TomlValue::MultiLitStr(s) => s,
        _ => Seq::empty(),
    }
}

/// A key read from a place ends at a grapheme of a line, at or after the
/// place.
pub proof fn lemma_key_scan_pos(lines: Seq<Seq<char>>, pl: Place, segs: Seq<Seq<char>>, buf: Seq<char>, quoted: bool)
    ensures
        key_scan(lines, pl, segs, buf, quoted) matches Ok((_, pk)) ==> reaches(lines, pl, pk) && 0 <= pk.pos
            < pk.graphs.len(),
    decreases lines.len() - pl.read, pl.graphs.len() - pl.pos,
{
    let g = pl.graphs;
    let i = pl.pos;
    if 0 <= i < g.len() {
        let c = g[i];
        let next = Place { pos: i + 1, ..pl };
        if c == tok(']') || c == tok('=') {
        } else if c == tok('.') {
            if buf.len() == 0 && !quoted {
            } else if quoted {
                lemma_key_scan_pos(lines, next, segs, buf, false);
            } else {
                lemma_key_scan_pos(lines, next, segs.push(buf), Seq::empty(), false);
            }
        } else if is_ws_grapheme(c) {
            lemma_key_scan_pos(lines, next, segs, buf, quoted);
        } else if c == tok('"') {
            lemma_basic_scan_progress(g, i + 1, Seq::empty());
            if let Ok((v, j)) = basic_scan(g, i + 1, Seq::empty()) {
                if j < g.len() {
                    lemma_key_scan_pos(lines, Place { pos: j, ..pl }, segs.push(v), buf, true);
                }
            }
        } else if c == tok('\'') {
            if triple_at(g, i, '\'') {
                lemma_mll_progress(lines, ml_start(pl), 0, Seq::empty());
                if let Ok((v, p2)) = mll_scan(lines, ml_start(pl), 0, Seq::empty()) {
                    if p2.pos < p2.graphs.len() {
                        lemma_key_scan_pos(lines, p2, segs.push(v), buf, true);
                    }
                }
            } else {
                lemma_lit_scan_progress(g, i + 1, Seq::empty());
                if let Ok((v, j)) = lit_scan(g, i + 1, Seq::empty()) {
                    if j < g.len() {
                        lemma_key_scan_pos(lines, Place { pos: j, ..pl }, segs.push(v), buf, true);
                    }
                }
            }
        } else if c.len() > 0 && barekey_char(c[0]) {
            lemma_key_scan_pos(lines, next, segs, buf + c, quoted);
        }
    }
}

pub proof fn lemma_skip_blanks(g: Seq<Seq<char>>, i: int)
    requires
        0 <= i <= g.len(),
    ensures
        i <= skip_blanks(g, i) <= g.len(),
        forall|j: int| i <= j < skip_blanks(g, i) ==> #[trigger] is_ws_grapheme(g[j]),
        skip_blanks(g, i) < g.len() ==> !is_ws_grapheme(g[skip_blanks(g, i)]),
    decreases g.len() - i,
{
    if i < g.len() && is_ws_grapheme(g[i]) {
        lemma_skip_blanks(g, i + 1);
    }
}

} // verus!

verus! {

impl TOMLParser {
    /// Checks the rest of a comment (the cursor is just after `#`): every
    /// grapheme but line feeds must be allowed in a comment.
    pub fn process_comment(context: ParserLine) -> (r: InnerParseResult<()>)
        requires
            context.wf(),
            context.cursor() < context.graphs().len(),
        ensures
            match first_bad_comment(context.graphs(), context.cursor()) {
                Some(j) => r matches Err(e) && err_view(e) == err_at(
                    context.line(),
                    ErrorKind::InvalidCommentChar,
                    context.graphs()[j],
                ),
                None => r matches Ok((_, c)) && moved_to(context, c, context.graphs().len() as int),
            },
    {
        let ghost g = context.graphs();
        let line = context.line_num();
        let mut cur = LineCursor::start(context);
        loop
            invariant
                cur.wf(),
                cur.graphs() == g,
                g == context.graphs(),
                cur.segments() == context.segments(),
                cur.line() == context.line(),
                line == context.line(),
                first_bad_comment(g, context.cursor()) == first_bad_comment(g, cur.pos()),
            ensures
                cur.wf(),
                cur.graphs() == g,
                cur.segments() == context.segments(),
                cur.line() == context.line(),
                first_bad_comment(g, context.cursor()) == first_bad_comment(g, cur.pos()),
                cur.pos() == g.len(),
            decreases g.len() - cur.pos(),
        {
            proof { cur.lemma_bounds(); }
            match cur.next() {
                Some(ch) => {
                    if !is_tok(&ch, '\n') && !is_valid_comment_grapheme(&ch) {
                        return Err(TomlError { line, kind: ErrorKind::InvalidCommentChar, detail: string_from_chars(&ch) });
                    }
                },
                None => {
                    break;
                },
            }
        }
        Ok(((), cur.finish()))
    }

    /// Checks that the line ends properly from the cursor on: spaces and
    /// tabs, then a line feed, a comment, or the end of the line.
    pub(crate) fn process_eol(context: ParserLine) -> (r: Result<(), TomlError>)
        requires
            context.wf(),
        ensures
            match eol_check(context.graphs(), context.cursor()) {
                Ok(_) => r is Ok,
                Err((k, d)) => r matches Err(e) && err_view(e) == err_at(context.line(), k, d),
            },
    {
        let ghost g = context.graphs();
        let line = context.line_num();
        let mut cur = LineCursor::start(context);
        proof { cur.lemma_bounds(); lemma_skip_blanks(g, cur.pos()); }
        loop
            invariant
                cur.wf(),
                cur.graphs() == g,
                g == context.graphs(),
                cur.line() == context.line(),
                line == context.line(),
                context.cursor() <= cur.pos() <= skip_blanks(g, context.cursor()),
                skip_blanks(g, context.cursor()) <= g.len(),
                forall|j: int| context.cursor() <= j < skip_blanks(g, context.cursor()) ==> #[trigger] is_ws_grapheme(g[j]),
                skip_blanks(g, context.cursor()) < g.len() ==> !is_ws_grapheme(g[skip_blanks(g, context.cursor())]),
            ensures
                cur.wf(),
                cur.graphs() == g,
                cur.line() == context.line(),
                cur.pos() == skip_blanks(g, context.cursor()),
            decreases g.len() - cur.pos(),
        {
            proof { cur.lemma_bounds(); }
            match cur.peek() {
                Some(ch) => {
                    if is_tok(&ch, ' ') || is_tok(&ch, '\t') {
                        cur.next();
                    } else {
                        assert(!is_ws_grapheme(g[cur.pos()]));
                        break;
                    }
                },
                None => {
                    break;
                },
            }
        }
        proof { cur.lemma_bounds(); }
        match cur.next() {
            None => Ok(()),
            Some(ch) => {
                if is_tok(&ch, '\n') {
                    proof { cur.lemma_bounds(); }
                    if cur.peek().is_none() {
                        Ok(())
                    } else {
                        Err(TomlError::plain(line, ErrorKind::EolNotReached))
                    }
                } else if is_tok(&ch, '#') {
                    proof { cur.lemma_bounds(); }
                    if cur.peek().is_none() {
                        return Err(TomlError::plain(line, ErrorKind::EmptyComment));
                    }
                    match Self::process_comment(cur.finish()) {
                        Ok(_) => Ok(()),
                        Err(e) => Err(e),
                    }
                } else {
                    Err(TomlError { line, kind: ErrorKind::RogueCharacter, detail: string_from_chars(&ch) })
                }
            },
        }
    }

    /// Moves past spaces, tabs, line feeds, comments and blank lines, reading
    /// further lines as needed, to the next grapheme of interest.
    pub(crate) fn seek_nonws(&mut self, context: ParserLine) -> (r: InnerParseResult<()>)
        requires
            old(self).wf(),
            context.wf(),
        ensures
            progressed(*old(self), *final(self)),
            r matches Ok((_, c)) ==> c.wf() && c.cursor() < c.graphs().len() && !is_gap_grapheme(c.graphs()[c.cursor()])
                && c.graphs()[c.cursor()] != tok('#') && (final(self).read_count() == old(self).read_count()
                ==> c.graphs() == context.graphs() && c.cursor() >= context.cursor() && c.segments() == context.segments()
                && c.line() == context.line()),
            seek_in_line(context.graphs(), context.cursor()) matches Some(p) ==> (r matches Ok((_, c)) && moved_to(context, c, p)
                && *final(self) == *old(self)),
            match seek_scan(old(self).lines(), place_of(*old(self), context)) {
                Ok(pl) => r matches Ok((_, c)) && reached(*old(self), context, *final(self), c, pl),
                Err(f) => r matches Err(e) && err_view(e) == f,
            },
    {
        let ghost p0 = *self;
        let ghost g0 = context.graphs();
        let mut cur = LineCursor::start(context);
        loop
            invariant
                self.wf(),
                progressed(p0, *self),
                p0 == *old(self),
                g0 == context.graphs(),
                cur.wf(),
                self.read_count() == p0.read_count() ==> cur.graphs() == g0 && cur.pos() >= context.cursor()
                    && cur.segments() == context.segments() && cur.line() == context.line(),
                self.read_count() == p0.read_count() ==> seek_in_line(g0, context.cursor()) == seek_in_line(g0, cur.pos())
                    || seek_in_line(g0, context.cursor()) is None,
                seek_in_line(g0, context.cursor()) is Some ==> *self == p0,
                seek_scan(p0.lines(), place_of(p0, context)) == seek_scan(self.lines(), Place {
                    read: self.read_count(),
                    line: cur.line(),
                    graphs: cur.graphs(),
                    pos: cur.pos(),
                }),
            ensures
                self.wf(),
                progressed(p0, *self),
                cur.wf(),
                cur.pos() < cur.graphs().len() && !is_gap_grapheme(cur.graphs()[cur.pos()]) && cur.graphs()[cur.pos()] != tok('#'),
                self.read_count() == p0.read_count() ==> cur.graphs() == g0 && cur.pos() >= context.cursor()
                    && cur.segments() == context.segments() && cur.line() == context.line(),
                seek_in_line(g0, context.cursor()) matches Some(p) ==> *self == p0 && cur.pos() == p,
                seek_scan(p0.lines(), place_of(p0, context)) == Ok::<Place, Failure>(Place {
                    read: self.read_count(),
                    line: cur.line(),
                    graphs: cur.graphs(),
                    pos: cur.pos(),
                }),
            decreases self.lines().len() - self.read_count(), cur.graphs().len() - cur.pos(),
        {
            proof { cur.lemma_bounds(); }
            match cur.peek() {
                None => {
                    let ctx = self.next_parserline()?;
                    cur = LineCursor::start(ctx);
                },
                Some(ch) => {
                    if is_tok(&ch, ' ') || is_tok(&ch, '\t') || is_tok(&ch, '\n') {
                        cur.next();
                    } else if is_tok(&ch, '#') {
                        cur.next();
                        proof { cur.lemma_bounds(); }
                        if cur.peek().is_none() {
                            return Err(TomlError::plain(self.line_num(), ErrorKind::EmptyComment));
                        }
                        let (_, pl) = Self::process_comment(cur.finish())?;
                        cur = LineCursor::start(pl);
                    } else {
                        break;
                    }
                },
            }
            proof { cur.lemma_bounds(); }
        }
        Ok(((), cur.finish()))
    }

    /// Parses a key: bare keys, quoted keys and dotted keys, up to the `=`
    /// or `]` that ends it. The path's keys are joined by a NUL character.
    pub fn parse_key(&mut self, context: ParserLine) -> (r: InnerParseResult<TPath>)
        requires
            old(self).wf(),
            context.wf(),
        ensures
            progressed(*old(self), *final(self)),
            r matches Ok((_, c)) ==> c.wf() && c.cursor() < c.graphs().len() && (final(self).read_count()
                == old(self).read_count() ==> c.graphs() == context.graphs() && c.segments() == context.segments()
                && c.line() == context.line() && c.cursor() >= context.cursor()),
            match key_scan(old(self).lines(), place_of(*old(self), context), Seq::empty(), Seq::empty(), false) {
                Ok((segs, pk)) => if segs.len() == 0 {
                    r matches Err(e) && err_view(e) == err_at(pk.read, ErrorKind::NoKey, Seq::empty())
                } else {
                    r matches Ok((p, c)) && p.content() == crate::text::join_with(segs, seq!['\0']) && p.delim()
                        == seq!['\0'] && reached(*old(self), context, *final(self), c, pk)
                },
                Err(f) => r matches Err(e) && err_view(e) == f,
            },
    {
        let ghost p0 = *self;
        let ghost g = context.graphs();
        let ghost ks = key_scan(p0.lines(), place_of(p0, context), Seq::empty(), Seq::empty(), false);
        let mut key_segs: Vec<String> = Vec::new();
        let mut temp_buf: Vec<char> = Vec::new();
        let mut found_quoted_str = false;
        let mut cur = LineCursor::start(context);
        assert(key_segs.deep_view() =~= Seq::<Seq<char>>::empty());
        assert(temp_buf@ =~= Seq::<char>::empty());
        loop
            invariant_except_break
                ks == key_scan(self.lines(), Place {
                    read: self.read_count(),
                    line: cur.line(),
                    graphs: cur.graphs(),
                    pos: cur.pos(),
                }, key_segs.deep_view(), temp_buf@, found_quoted_str),
            invariant
                ks == key_scan(p0.lines(), place_of(p0, context), Seq::empty(), Seq::empty(), false),
                self.wf(),
                progressed(p0, *self),
                p0 == *old(self),
                g == context.graphs(),
                cur.wf(),
                self.read_count() == p0.read_count() ==> cur.graphs() == g && cur.segments() == context.segments()
                    && cur.line() == context.line() && cur.pos() >= context.cursor(),
            ensures
                self.wf(),
                progressed(p0, *self),
                cur.wf(),
                cur.pos() < cur.graphs().len(),
                self.read_count() == p0.read_count() ==> cur.graphs() == g && cur.segments() == context.segments()
                    && cur.line() == context.line() && cur.pos() >= context.cursor(),
                ks == Ok::<(Seq<Seq<char>>, Place), Failure>((key_segs.deep_view(), Place {
                    read: self.read_count(),
                    line: cur.line(),
                    graphs: cur.graphs(),
                    pos: cur.pos(),
                })),
            decreases self.lines().len() - self.read_count(), cur.graphs().len() - cur.pos(),
        {
            proof { cur.lemma_bounds(); }
            let ghost i = cur.pos();
            match cur.peek() {
                None => {
                    return Err(TomlError::plain(self.line_num(), ErrorKind::EndOfFile));
                },
                Some(c) => {
                    if is_tok(&c, ']') || is_tok(&c, '=') {
                        if temp_buf.len() > 0 {
                            let ghost before = key_segs.deep_view();
                            key_segs.push(string_from_chars(&temp_buf));
                            assert(key_segs.deep_view() =~= before.push(temp_buf@));
                        }
                        break;
                    } else if is_tok(&c, '.') {
                        cur.next();
                        if temp_buf.len() == 0 && !found_quoted_str {
                            return Err(TomlError::plain(self.line_num(), ErrorKind::EmptyBareKey));
                        } else if found_quoted_str {
                            found_quoted_str = false;
                        } else {
                            let ghost before = key_segs.deep_view();
                            key_segs.push(string_from_chars(&temp_buf));
                            assert(key_segs.deep_view() =~= before.push(temp_buf@));
                            temp_buf = Vec::new();
                        }
                    } else if is_tok(&c, ' ') || is_tok(&c, '\t') {
                        cur.next();
                    } else if is_tok(&c, '"') || is_tok(&c, '\'') {
                        let is_basic = is_tok(&c, '"');
                        let ghost rc = self.read_count();
                        let ghost old_cur = cur;
                        let pl = cur.finish();
                        proof {
                            super::strings::lemma_basic_scan_progress(old_cur.graphs(), i + 1, Seq::empty());
                            super::strings::lemma_lit_scan_progress(old_cur.graphs(), i + 1, Seq::empty());
                            if !is_basic {
                                lemma_triple_in_line(pl, '\'');
                            }
                        }
                        let (result, pline) = if is_basic {
                            self.parse_basic_string(pl)?
                        } else {
                            self.parse_literal_string(pl)?
                        };
                        let text = match result {
                            TOMLType::BasicStr(s) => s,
                            TOMLType::MultiStr(s) => s,
                            TOMLType::LitStr(s) => s,
                            TOMLType::MultiLitStr(s) => s,
                            _ => String::new(),
                        };
                        let ghost before = key_segs.deep_view();
                        key_segs.push(text);
                        assert(key_segs.deep_view() =~= before.push(key_segs@[key_segs.len() - 1]@));
                        found_quoted_str = true;
                        if pline.is_exhausted() {
                            return Err(TomlError::plain(self.line_num(), ErrorKind::KeyNotTerminated));
                        }
                        cur = LineCursor::start(pline);
                        assert(self.read_count() > rc || (self.read_count() == rc && cur.graphs() == old_cur.graphs() && cur.pos() > old_cur.pos()));
                    } else {
                        if !is_barekey_char(&c) {
                            return Err(TomlError { line: self.line_num(), kind: ErrorKind::InvalidBareKeyChar, detail: string_from_chars(&c) });
                        }
                        push_grapheme(&mut temp_buf, &c);
                        cur.next();
                    }
                },
            }
            proof { cur.lemma_bounds(); }
        }
        if key_segs.len() == 0 {
            return Err(TomlError::plain(self.line_num(), ErrorKind::NoKey));
        }
        let ghost segs = key_segs.deep_view();
        proof { reveal_strlit("\0"); }
        assert("\0"@ == seq!['\0']);
        let tpath = TPath::new(key_segs, "\0").unwrap();
        assert(tpath.content() == crate::text::join_with(segs, seq!['\0']));
        let c = cur.finish();
        Ok((tpath, c))
    }
}

} // verus!
