//! The TOML parser.
use vstd::prelude::*;
use crate::text::{Grapheme, grapheme_clusters, graphemes_of, is_tok, lemma_chars_deep_view};
use crate::errors::{ErrorKind, TomlError};
use crate::tomltypes::{TOMLTable, TOMLType, TableView};
use super::parsetools::{ParserLine, TPath, LineCursor, ends_properly};
use crate::text::tok;
use crate::tomltypes::TomlValue;
use headers::{header_walk, aot_walk, header_walk_exec, aot_walk_exec, insert_at, tv_insert_at, header_scan, header_effect, path_text, aot_scan};
use crate::text::split_on;
use values::{keyval_scan, partial_key};
use statements::{skip_blanks, eol_check, lemma_skip_blanks, is_gap_grapheme, first_bad_comment};
use strings::moved_to;
use super::parsetools::is_ws_grapheme;
use headers::descend;
use crate::tomltypes::lookup_path;

pub mod numbers;
pub mod dates;
pub mod scalars;
pub mod strings;
pub mod multiline;
pub mod statements;
pub mod values;
pub mod headers;
pub mod invalid_chars;
pub mod progress;
pub mod value_laws;

pub use strings::is_hexdigit;

verus! {

/// The result of a parsing step: the value and the context to resume from.
pub type InnerParseResult<T> = Result<(T, ParserLine), TomlError>;

/// A key path with the value it is given.
pub struct KeyVal(pub TPath, pub TOMLType);

/// The parser state: the lines of a file, how many of them have been read,
/// the table headers met so far and the table built so far.
pub struct TOMLParser {
    buffer: String,
    lines: Vec<String>,
    line_num: usize,
    table_heads: Vec<TPath>,
    main_table: TOMLTable,
}

/// The end of the line that begins at `i`: just after its line feed, or
/// the end of the text.
pub open spec fn line_end(s: Seq<char>, i: int) -> int
    decreases s.len() - i,
{
    if i < 0 || i >= s.len() {
        s.len() as int
    } else if s[i] == '\n' {
        i + 1
    } else {
        line_end(s, i + 1)
    }
}

/// The lines of `s` from position `i` on, each with its line feed.
pub open spec fn lines_from(s: Seq<char>, i: int) -> Seq<Seq<char>>
    decreases s.len() - i,
{
    if i < 0 || i >= s.len() {
        Seq::empty()
    } else {
        let e = line_end(s, i);
        if e <= i || e > s.len() {
            Seq::empty()
        } else {
            seq![s.subrange(i, e)] + lines_from(s, e)
        }
    }
}

/// The lines of a text, as reading it line by line gives them.
pub open spec fn split_lines(s: Seq<char>) -> Seq<Seq<char>> {
    lines_from(s, 0)
}

pub proof fn lemma_line_end(s: Seq<char>, i: int)
    requires
        0 <= i < s.len(),
    ensures
        i < line_end(s, i) <= s.len(),
        forall|j: int| i <= j < line_end(s, i) - 1 ==> s[j] != '\n',
        line_end(s, i) < s.len() ==> s[line_end(s, i) - 1] == '\n',
    decreases s.len() - i,
{
    if s[i] != '\n' {
        assert(line_end(s, i) == line_end(s, i + 1));
        if i + 1 < s.len() {
            lemma_line_end(s, i + 1);
        }
    }
}

/// Every line read from a text is non-empty.
pub proof fn lemma_lines_nonempty(s: Seq<char>, i: int)
    requires
        0 <= i <= s.len(),
    ensures
        forall|k: int| 0 <= k < lines_from(s, i).len() ==> (#[trigger] lines_from(s, i)[k]).len() > 0,
        lines_from(s, i).flatten() == s.skip(i),
    decreases s.len() - i,
{
    if i < s.len() {
        lemma_line_end(s, i);
        let e = line_end(s, i);
        lemma_lines_nonempty(s, e);
        let rest = lines_from(s, e);
        assert(lines_from(s, i) == seq![s.subrange(i, e)] + rest);
        assert forall|k: int| 0 <= k < lines_from(s, i).len() implies (#[trigger] lines_from(s, i)[k]).len() > 0 by {
            if k > 0 {
                assert(lines_from(s, i)[k] == rest[k - 1]);
            }
        }
        vstd::seq_lib::lemma_flatten_concat(seq![s.subrange(i, e)], rest);
        assert(seq![s.subrange(i, e)].flatten() =~= s.subrange(i, e)) by {
            crate::text::lemma_flatten_push(Seq::<Seq<char>>::empty(), s.subrange(i, e));
            assert(Seq::<Seq<char>>::empty().push(s.subrange(i, e)) =~= seq![s.subrange(i, e)]);
            assert(Seq::<Seq<char>>::empty().flatten() =~= Seq::<char>::empty());
        }
        assert(s.skip(i) =~= s.subrange(i, e) + s.skip(e));
    } else {
        assert(s.skip(i) =~= Seq::<char>::empty());
    }
}

/// A parse error on the given line.
pub open spec fn err_at(line: nat, kind: ErrorKind, detail: Seq<char>) -> (ErrorKind, nat, Seq<char>) {
    (kind, line, detail)
}

/// The model of an error: its kind, line and detail text.
pub open spec fn err_view(e: TomlError) -> (ErrorKind, nat, Seq<char>) {
    (e.kind, e.line as nat, e.detail@)
}

/// An error with the line of the context it happened in.
pub fn error_at(context: &ParserLine, kind: ErrorKind) -> (r: TomlError)
    ensures
        err_view(r) == err_at(context.line(), kind, Seq::empty()),
{
    TomlError::plain(context.line_num(), kind)
}

/// An error about the given grapheme.
pub fn error_with(context: &ParserLine, kind: ErrorKind, g: &Grapheme) -> (r: TomlError)
    ensures
        err_view(r) == err_at(context.line(), kind, g@),
{
    TomlError { line: context.line_num(), kind, detail: crate::text::string_from_chars(g) }
}

impl TOMLParser {
    /// The lines of the file, each with its line feed.
    pub closed spec fn lines(self) -> Seq<Seq<char>> {
        self.lines.deep_view()
    }

    /// How many lines have been read.
    pub closed spec fn read_count(self) -> nat {
        self.line_num as nat
    }

    /// The line last read.
    pub closed spec fn buffer(self) -> Seq<char> {
        self.buffer@
    }

    /// The key paths of the table headers met so far, each written out.
    pub closed spec fn heads(self) -> Seq<Seq<char>> {
        Seq::new(self.table_heads.len() as nat, |i: int| self.table_heads@[i].content())
    }

    /// The table built so far.
    pub closed spec fn table(self) -> TableView {
        self.main_table@
    }

    pub closed spec fn wf(self) -> bool {
        &&& self.line_num <= self.lines.len()
        &&& forall|k: int| 0 <= k < self.lines.len() ==> (#[trigger] self.lines@[k])@.len() > 0
    }

    /// A parser over the lines of a text.
    pub fn from_text(text: &str) -> (r: Self)
        ensures
            r.wf(),
            r.lines() == split_lines(text@),
            r.read_count() == 0,
            r.heads().len() == 0,
            r.table() == TableView::empty(),
    {
        let chars = crate::text::chars_of(text);
        let n = chars.len();
        let mut lines: Vec<String> = Vec::new();
        let mut i: usize = 0;
        proof { lemma_lines_nonempty(text@, 0); }
        while i < n
            invariant
                n == chars.len(),
                chars@ == text@,
                i <= n,
                lines.deep_view() + lines_from(text@, i as int) == split_lines(text@),
                forall|k: int| 0 <= k < lines.len() ==> (#[trigger] lines@[k])@.len() > 0,
            decreases n - i,
        {
            proof { lemma_line_end(text@, i as int); }
            let mut j: usize = i;
            while j < n && chars[j] != '\n'
                invariant
                    n == chars.len(),
                    chars@ == text@,
                    i <= j <= n,
                    i < n,
                    line_end(text@, i as int) == line_end(text@, j as int),
                decreases n - j,
            {
                j = j + 1;
            }
            let e: usize = if j < n { j + 1 } else { n };
            assert(e == line_end(text@, i as int));
            let piece = crate::text::sub_chars(&chars, i, e);
            let line = crate::text::string_from_chars(&piece);
            let ghost before = lines.deep_view();
            lines.push(line);
            proof {
                assert(lines.deep_view() =~= before.push(text@.subrange(i as int, e as int)));
                assert(lines_from(text@, i as int) == seq![text@.subrange(i as int, e as int)] + lines_from(text@, e as int));
                assert(lines.deep_view() + lines_from(text@, e as int) =~= before + lines_from(text@, i as int));
            }
            i = e;
        }
        assert(lines.deep_view() =~= split_lines(text@));
        let r = TOMLParser {
            buffer: String::new(),
            lines,
            line_num: 0,
            table_heads: Vec::new(),
            main_table: TOMLTable::new(),
        };
        assert(r.heads() =~= Seq::<Seq<char>>::empty());
        r
    }

    /// The table built so far.
    pub fn view_table(&self) -> (r: &TOMLTable)
        ensures
            r@ == self.table(),
    {
        &self.main_table
    }

    /// How many lines have been read (the number of the line last read).
    pub fn line_num(&self) -> (r: usize)
        ensures
            r == self.read_count(),
    {
        self.line_num
    }

    /// Reads the next line into the buffer; `false` at the end of the file.
    pub fn next_line(&mut self) -> (r: bool)
        requires
            old(self).wf(),
        ensures
            final(self).wf(),
            final(self).lines() == old(self).lines(),
            final(self).heads() == old(self).heads(),
            final(self).table() == old(self).table(),
            r == (old(self).read_count() < old(self).lines().len()),
            r ==> final(self).read_count() == old(self).read_count() + 1 && final(self).buffer() == old(self).lines()[old(self).read_count() as int],
            !r ==> final(self).read_count() == old(self).read_count() && final(self).buffer() == Seq::<char>::empty(),
    {
        if self.line_num < self.lines.len() {
            self.buffer = self.lines[self.line_num].clone();
            self.line_num = self.line_num + 1;
            true
        } else {
            self.buffer = String::new();
            false
        }
    }

    /// A context over the line in the buffer.
    fn curr_parserline(&self) -> (r: Result<ParserLine, TomlError>)
        ensures
            ends_properly(grapheme_clusters(self.buffer())) ==> (r matches Ok(c) && c.wf() && c.graphs()
                == grapheme_clusters(self.buffer()) && c.line() == self.read_count() && c.cursor() == 0),
            !ends_properly(grapheme_clusters(self.buffer())) ==> (r matches Err(e) && err_view(e) == err_at(
                self.read_count(),
                ErrorKind::LineEndsWithSeparator,
                Seq::empty(),
            )),
    {
        let graphs = graphemes_of(self.buffer.as_str());
        let n = graphs.len();
        if n > 0 {
            proof { lemma_chars_deep_view(graphs@[n - 1]); }
            if is_tok(&graphs[n - 1], '=') || is_tok(&graphs[n - 1], ',') {
                return Err(TomlError::plain(self.line_num, ErrorKind::LineEndsWithSeparator));
            }
        }
        Ok(ParserLine::from_graphemes(graphs, self.line_num))
    }

    /// A context over the next line; fails at the end of the file.
    pub fn next_parserline(&mut self) -> (r: Result<ParserLine, TomlError>)
        requires
            old(self).wf(),
        ensures
            final(self).wf(),
            final(self).lines() == old(self).lines(),
            final(self).heads() == old(self).heads(),
            final(self).table() == old(self).table(),
            match next_line_outcome(old(self).lines(), old(self).read_count()) {
                Ok(g) => r matches Ok(c) && c.wf() && c.graphs() == g && c.line() == old(self).read_count() + 1
                    && c.cursor() == 0 && final(self).read_count() == old(self).read_count() + 1,
                Err(k) => r matches Err(e) && err_view(e) == err_at(final(self).read_count(), k, Seq::empty())
                    && final(self).read_count() == old(self).read_count() + (if k == ErrorKind::EndOfFile { 0int } else { 1int }),
            },
    {
        if !self.next_line() {
            Err(TomlError::plain(self.line_num, ErrorKind::EndOfFile))
        } else {
            self.curr_parserline()
        }
    }
}

/// The parser after a step that may have read further lines: same lines,
/// headers and table, and no fewer lines read.
pub open spec fn progressed(before: TOMLParser, after: TOMLParser) -> bool {
    &&& after.wf()
    &&& after.lines() == before.lines()
    &&& after.heads() == before.heads()
    &&& after.table() == before.table()
    &&& after.read_count() >= before.read_count()
}

/// A step from the context `c0` to `c1` moved on: to a later line, or
/// further along the same line.
pub open spec fn moved_on(p0: TOMLParser, c0: ParserLine, p1: TOMLParser, c1: ParserLine) -> bool {
    ||| p1.read_count() > p0.read_count()
    ||| (p1.read_count() == p0.read_count() && c1.graphs() == c0.graphs() && c1.segments() == c0.segments()
        && c1.line() == c0.line() && c1.cursor() > c0.cursor())
}

/// What reading the line after `count` lines gives: its graphemes, or the
/// end of the file, or a line that ends with `=` or `,`.
pub open spec fn next_line_outcome(lines: Seq<Seq<char>>, count: nat) -> Result<Seq<Seq<char>>, ErrorKind> {
    if count >= lines.len() {
        Err(ErrorKind::EndOfFile)
    } else if !ends_properly(grapheme_clusters(lines[count as int])) {
        Err(ErrorKind::LineEndsWithSeparator)
    } else {
        Ok(grapheme_clusters(lines[count as int]))
    }
}


/// What one line does to the parse state (the table, the keys of the table
/// the last header selected, the header paths met so far), the line's
/// start being at the place: a blank or comment line nothing, a header line
/// what its header does, a key-value line the insertion of the pair into
/// the selected table. Gives the new state and how many lines have been
/// read by the end of the statement (a value or a key may go on over
/// further lines). `None` only where a step that must make progress does
/// not, which never happens (see `progress`).
pub open spec fn line_step(lines: Seq<Seq<char>>, pl: Place, t: TableView, target: Seq<Seq<char>>, heads: Seq<Seq<char>>)
    -> Option<Result<(TableView, Seq<Seq<char>>, Seq<Seq<char>>, nat), Failure>>
{
    let g = pl.graphs;
    let p = skip_blanks(g, 0);
    if p >= g.len() || g[p] == tok('\n') || g[p] == tok('#') {
        match eol_check(g, p) {
            Ok(_) => Some(Ok((t, target, heads, pl.read))),
            Err((k, d)) => Some(Err((k, pl.line, d))),
        }
    } else if g[p] == tok('[') {
        match header_scan(lines, Place { pos: p, ..pl }) {
            Err(f) => Some(Err(f)),
            Ok((segs, aot, pk)) => match header_effect(t, heads, segs, aot) {
                Ok((t2, h2)) => Some(Ok((t2, split_on(path_text(segs), seq!['\0']), h2, pk.read))),
                Err((k, d)) => Some(Err((k, if aot { pk.line } else { pl.line }, d))),
            },
        }
    } else {
        match keyval_scan(lines, Place { pos: p, ..pl }) {
            None => None,
            Some(Err(f)) => Some(Err(f)),
            Some(Ok((segs, v, pe))) => {
                let keys = split_on(path_text(segs), seq!['\0']);
                match tv_insert_at(t, target, keys, v) {
                    Err(None) => Some(Err((ErrorKind::TableHeaderNotTable, pe.line, Seq::empty()))),
                    Err(Some(l)) => Some(Err((ErrorKind::KeyAlreadyDefined, pe.line, partial_key(keys, l)))),
                    Ok(t2) => match eol_check(pe.graphs, pe.pos) {
                        Ok(_) => Some(Ok((t2, target, heads, pe.read))),
                        Err((k, d)) => Some(Err((k, pe.line, d))),
                    },
                }
            },
        }
    }
}

/// The place at the start of the line after the first `k` lines.
pub open spec fn line_start(lines: Seq<Seq<char>>, k: int) -> Place {
    Place { read: (k + 1) as nat, line: (k + 1) as nat, graphs: grapheme_clusters(lines[k]), pos: 0 }
}

/// The outcome of parsing the lines from the `k`-th on, from the given
/// state: the table, or the failure. `None` only where a statement makes no
/// progress, which never happens (`law_parse_outcome_defined`).
pub open spec fn file_scan(lines: Seq<Seq<char>>, k: int, t: TableView, target: Seq<Seq<char>>, heads: Seq<Seq<char>>)
    -> Option<Result<TableView, Failure>>
    decreases lines.len() - k,
{
    if k < 0 || k >= lines.len() {
        Some(Ok(t))
    } else if !ends_properly(grapheme_clusters(lines[k])) {
        Some(Err((ErrorKind::LineEndsWithSeparator, (k + 1) as nat, Seq::empty())))
    } else {
        match line_step(lines, line_start(lines, k), t, target, heads) {
            None => None,
            Some(Err(f)) => Some(Err(f)),
            Some(Ok((t2, tg2, h2, k2))) => if k < k2 <= lines.len() {
                file_scan(lines, k2 as int, t2, tg2, h2)
            } else {
                None
            },
        }
    }
}

/// Law: when a key-value line succeeds, the table that the last header
/// selected holds the line's value under the line's keys.
pub proof fn law_pair_line_then_lookup(lines: Seq<Seq<char>>, pl: Place, t: TableView, target: Seq<Seq<char>>, heads: Seq<Seq<char>>)
    requires
        skip_blanks(pl.graphs, 0) < pl.graphs.len(),
        pl.graphs[skip_blanks(pl.graphs, 0)] != tok('\n'),
        pl.graphs[skip_blanks(pl.graphs, 0)] != tok('#'),
        pl.graphs[skip_blanks(pl.graphs, 0)] != tok('['),
        line_step(lines, pl, t, target, heads) matches Some(Ok(_)),
    ensures
        ({
            let (segs, v, _) = keyval_scan(lines, Place { pos: skip_blanks(pl.graphs, 0), ..pl })->Some_0->Ok_0;
            let t2 = line_step(lines, pl, t, target, heads)->Some_0->Ok_0.0;
            descend(t2, target) matches Some(sub) && lookup_path(sub, split_on(path_text(segs), seq!['\0'])) == Some(v)
        }),
{
    let (segs, v, _) = keyval_scan(lines, Place { pos: skip_blanks(pl.graphs, 0), ..pl })->Some_0->Ok_0;
    headers::law_insert_at_then_lookup(t, target, split_on(path_text(segs), seq!['\0']), v);
}

/// Law: a file made of one key-value pair (which may go on over several
/// lines) parses to a table in which the pair's keys lead to its value.
pub proof fn law_parse_pair_then_lookup(lines: Seq<Seq<char>>)
    requires
        lines.len() > 0,
        ends_properly(grapheme_clusters(lines[0])),
        skip_blanks(line_start(lines, 0).graphs, 0) < line_start(lines, 0).graphs.len(),
        line_start(lines, 0).graphs[skip_blanks(line_start(lines, 0).graphs, 0)] != tok('\n'),
        line_start(lines, 0).graphs[skip_blanks(line_start(lines, 0).graphs, 0)] != tok('#'),
        line_start(lines, 0).graphs[skip_blanks(line_start(lines, 0).graphs, 0)] != tok('['),
        line_step(lines, line_start(lines, 0), TableView::empty(), Seq::empty(), Seq::empty()) matches Some(
            Ok((_, _, _, k2)),
        ) && k2 == lines.len(),
    ensures
        ({
            let pl = line_start(lines, 0);
            let (segs, v, _) = keyval_scan(lines, Place { pos: skip_blanks(pl.graphs, 0), ..pl })->Some_0->Ok_0;
            file_scan(lines, 0, TableView::empty(), Seq::empty(), Seq::empty()) matches Some(Ok(t)) && lookup_path(
                t,
                split_on(path_text(segs), seq!['\0']),
            ) == Some(v)
        }),
{
    let pl = line_start(lines, 0);
    let (t2, tg2, h2, k2) = line_step(lines, pl, TableView::empty(), Seq::empty(), Seq::empty())->Some_0->Ok_0;
    law_pair_line_then_lookup(lines, pl, TableView::empty(), Seq::empty(), Seq::empty());
    assert(file_scan(lines, k2 as int, t2, tg2, h2) == Some(Ok::<TableView, Failure>(t2)));
}

/// Law: a header line that succeeds selects a table, the path of its keys;
/// for an array-of-tables header, a new and empty one.
pub proof fn law_header_line_selects(lines: Seq<Seq<char>>, pl: Place, t: TableView, target: Seq<Seq<char>>, heads: Seq<Seq<char>>)
    requires
        skip_blanks(pl.graphs, 0) < pl.graphs.len(),
        pl.graphs[skip_blanks(pl.graphs, 0)] == tok('['),
        line_step(lines, pl, t, target, heads) matches Some(Ok(_)),
    ensures
        ({
            let (t2, tg2, _, _) = line_step(lines, pl, t, target, heads)->Some_0->Ok_0;
            &&& descend(t2, tg2) is Some
            &&& (header_scan(lines, Place { pos: skip_blanks(pl.graphs, 0), ..pl })->Ok_0.1 ==> descend(t2, tg2) == Some(
                TableView::empty(),
            ))
        }),
{
    let p = skip_blanks(pl.graphs, 0);
    let (segs, aot, _) = header_scan(lines, Place { pos: p, ..pl })->Ok_0;
    let keys = split_on(path_text(segs), seq!['\0']);
    if aot {
        headers::law_aot_selects_new_table(t, keys);
    } else {
        headers::law_header_selects_table(t, keys, true);
    }
}

/// Where a parse stands: how many lines have been read, the number and the
/// graphemes of the line under the cursor, and the cursor's position.
pub struct Place {
    pub read: nat,
    pub line: nat,
    pub graphs: Seq<Seq<char>>,
    pub pos: int,
}

/// A failure: its kind, its line number and its detail text.
pub type Failure = (ErrorKind, nat, Seq<char>);

/// The place of a parser and a context on one of its lines.
pub open spec fn place_of(p: TOMLParser, c: ParserLine) -> Place {
    Place { read: p.read_count(), line: c.line(), graphs: c.graphs(), pos: c.cursor() }
}

/// Moving on to the next line after `read` lines: the start of that line,
/// or the failure that reading it gives.
pub open spec fn next_line_place(lines: Seq<Seq<char>>, read: nat) -> Result<Place, Failure> {
    match next_line_outcome(lines, read) {
        Ok(g) => Ok(Place { read: read + 1, line: read + 1, graphs: g, pos: 0 }),
        Err(k) => Err((k, if k == ErrorKind::EndOfFile { read } else { read + 1 }, Seq::empty())),
    }
}

/// A step took the parser `p0` with context `c0` to `p1` with `c1`, which
/// stand at the place `pl`: the lines, headers and table are unchanged, and
/// on the same line the context only moved its cursor.
pub open spec fn reached(p0: TOMLParser, c0: ParserLine, p1: TOMLParser, c1: ParserLine, pl: Place) -> bool {
    &&& p1.wf()
    &&& c1.wf()
    &&& p1.lines() == p0.lines()
    &&& p1.heads() == p0.heads()
    &&& p1.table() == p0.table()
    &&& place_of(p1, c1) == pl
    &&& pl.read == p0.read_count() ==> moved_to(c0, c1, pl.pos)
}

/// Skipping spaces, tabs, line feeds, comments and blank lines from a
/// place, reading further lines as needed, to the next grapheme of
/// interest.
pub open spec fn seek_scan(lines: Seq<Seq<char>>, pl: Place) -> Result<Place, Failure>
    decreases lines.len() - pl.read, pl.graphs.len() - pl.pos,
{
    if pl.pos < 0 || pl.pos >= pl.graphs.len() {
        match next_line_place(lines, pl.read) {
            Ok(p2) => seek_scan(lines, p2),
            Err(e) => Err(e),
        }
    } else if is_gap_grapheme(pl.graphs[pl.pos]) {
        seek_scan(lines, Place { pos: pl.pos + 1, ..pl })
    } else if pl.graphs[pl.pos] == tok('#') {
        if pl.pos + 1 >= pl.graphs.len() {
            Err((ErrorKind::EmptyComment, pl.read, Seq::empty()))
        } else {
            match first_bad_comment(pl.graphs, pl.pos + 1) {
                Some(j) => Err((ErrorKind::InvalidCommentChar, pl.line, pl.graphs[j])),
                None => seek_scan(lines, Place { pos: pl.graphs.len() as int, ..pl }),
            }
        }
    } else {
        Ok(pl)
    }
}

/// The parser after a header: same lines, no fewer lines read.
pub open spec fn same_source(before: TOMLParser, after: TOMLParser) -> bool {
    &&& after.wf()
    &&& after.lines() == before.lines()
    &&& after.read_count() >= before.read_count()
}

impl TOMLParser {
    /// Whether no table header so far has the given path.
    fn is_unique_table_header(&self, path: &TPath) -> (r: bool)
        ensures
            r == !self.heads().contains(path.content()),
    {
        let mut answer = true;
        let mut i: usize = 0;
        while i < self.table_heads.len()
            invariant
                i <= self.table_heads.len(),
                self.heads().len() == self.table_heads.len(),
                answer <==> forall|j: int| 0 <= j < i ==> #[trigger] self.heads()[j] != path.content(),
            decreases self.table_heads.len() - i,
        {
            assert(self.heads()[i as int] == self.table_heads@[i as int].content());
            if *path == self.table_heads[i] {
                answer = false;
            }
            i = i + 1;
        }
        proof {
            if !answer {
                let j = choose|j: int| 0 <= j < i && !(#[trigger] self.heads()[j] != path.content());
                assert(self.heads()[j] == path.content());
            }
        }
        answer
    }

    /// Parses a table header `[key.path]` (or, after `[[`, an array-of-tables
    /// header), checks the rest of the line, and applies it to the table:
    /// gives the path of the table that the following key-value pairs go to.
    pub fn parse_table_header(&mut self, context: ParserLine) -> (r: Result<TPath, TomlError>)
        requires
            old(self).wf(),
            context.wf(),
            context.cursor() < context.graphs().len(),
        ensures
            same_source(*old(self), *final(self)),
            r is Err ==> final(self).table() == old(self).table() && final(self).heads() == old(self).heads(),
            match header_scan(old(self).lines(), place_of(*old(self), context)) {
                Ok((segs, aot, pk)) => final(self).read_count() == pk.read && match header_effect(
                    old(self).table(),
                    old(self).heads(),
                    segs,
                    aot,
                ) {
                    Ok((t2, h2)) => r matches Ok(p) && p.content() == path_text(segs) && p.delim() == seq!['\0']
                        && final(self).table() == t2 && final(self).heads() == h2,
                    Err((k, d)) => r matches Err(e) && err_view(e) == (k, if aot { pk.line } else { context.line() }, d),
                },
                Err(f) => r matches Err(e) && err_view(e) == f,
            },
    {
        let line = context.line_num();
        let mut cur = LineCursor::start(context);
        cur.next();
        proof { cur.lemma_bounds(); }
        if let Some(g) = cur.peek() {
            if crate::text::is_tok(&g, '[') {
                cur.next();
                return self.parse_aot_header(cur.finish());
            }
        }
        let (path, pline) = self.parse_key(cur.finish())?;
        cur = LineCursor::start(pline);
        proof { cur.lemma_bounds(); }
        match cur.peek() {
            Some(g) => {
                if !crate::text::is_tok(&g, ']') {
                    return Err(TomlError::plain(line, ErrorKind::TableHeaderUnclosed));
                }
            },
            None => {
                return Err(TomlError::plain(line, ErrorKind::TableHeaderUnclosed));
            },
        }
        cur.next();
        proof { cur.lemma_bounds(); }
        if cur.peek().is_none() {
            return Err(TomlError::plain(line, ErrorKind::MissingLineEnd));
        }
        Self::process_eol(cur.finish())?;
        if !self.is_unique_table_header(&path) {
            return Err(TomlError { line, kind: ErrorKind::TableHeaderRedefined, detail: path.as_string() });
        }
        let keys = path.segments();
        proof {
            crate::text::lemma_split_nonempty(path.content(), path.delim());
            assert(keys.deep_view().skip(0) =~= keys.deep_view());
        }
        match header_walk_exec(&mut self.main_table, &keys, 0, true) {
            Ok(()) => {},
            Err(k) => {
                return Err(TomlError::plain(line, k));
            },
        }
        let ghost heads0 = self.heads();
        self.table_heads.push(path.duplicate());
        proof {
            assert(self.heads() =~= heads0.push(path.content()));
        }
        Ok(path)
    }

    /// Parses an array-of-tables header (the cursor is after `[[`), checks
    /// the rest of the line, and applies it to the table.
    fn parse_aot_header(&mut self, context: ParserLine) -> (r: Result<TPath, TomlError>)
        requires
            old(self).wf(),
            context.wf(),
        ensures
            same_source(*old(self), *final(self)),
            final(self).heads() == old(self).heads(),
            r is Err ==> final(self).table() == old(self).table(),
            r matches Ok(p) ==> aot_walk(old(self).table(), p.keys()) == Ok::<TableView, ErrorKind>(final(self).table()),
            match aot_scan(old(self).lines(), place_of(*old(self), context)) {
                Ok((segs, pk)) => final(self).read_count() == pk.read && match aot_walk(
                    old(self).table(),
                    split_on(path_text(segs), seq!['\0']),
                ) {
                    Ok(t2) => r matches Ok(p) && p.content() == path_text(segs) && p.delim() == seq!['\0']
                        && final(self).table() == t2,
                    Err(k) => r matches Err(e) && err_view(e) == (k, pk.line, Seq::<char>::empty()),
                },
                Err(f) => r matches Err(e) && err_view(e) == f,
            },
    {
        let (path, pline) = self.parse_key(context)?;
        let line = pline.line_num();
        let mut cur = LineCursor::start(pline);
        proof { cur.lemma_bounds(); }
        let closed = match cur.peek() {
            Some(g) => crate::text::is_tok(&g, ']'),
            None => false,
        };
        if !closed {
            return Err(TomlError::plain(line, ErrorKind::ArrayOfTablesUnclosed));
        }
        cur.next();
        proof { cur.lemma_bounds(); }
        let closed2 = match cur.peek() {
            Some(g) => crate::text::is_tok(&g, ']'),
            None => false,
        };
        if !closed2 {
            return Err(TomlError::plain(line, ErrorKind::ArrayOfTablesUnclosed));
        }
        cur.next();
        proof { cur.lemma_bounds(); }
        if cur.peek().is_none() {
            return Err(TomlError::plain(line, ErrorKind::MissingLineEnd));
        }
        Self::process_eol(cur.finish())?;
        let keys = path.segments();
        proof {
            crate::text::lemma_split_nonempty(path.content(), path.delim());
            assert(keys.deep_view().skip(0) =~= keys.deep_view());
        }
        match aot_walk_exec(&mut self.main_table, &keys, 0) {
            Ok(()) => Ok(path),
            Err(k) => Err(TomlError::plain(line, k)),
        }
    }

    /// Parses the whole file: blank lines and comments, table headers, and
    /// key-value pairs, each pair going into the table the last header
    /// selected. Gives the table.
    pub fn parse_toml(self) -> (r: Result<TOMLTable, TomlError>)
        requires
            self.wf(),
        ensures
            match file_scan(self.lines(), self.read_count() as int, self.table(), Seq::empty(), self.heads()) {
                Some(Ok(t)) => r matches Ok(tt) && tt@ == t,
                Some(Err((k, l, d))) => r matches Err(e) && e.kind == k && e.line == l && e.detail@ == d,
                None => false,
            },
    {
        proof {
            progress::law_parse_outcome_defined(self.lines(), self.read_count() as int, self.table(), Seq::empty(), self.heads());
        }
        let mut parser = self;
        let mut target: Vec<String> = Vec::new();
        let ghost outcome = file_scan(self.lines(), self.read_count() as int, self.table(), Seq::empty(), self.heads());
        assert(target.deep_view() =~= Seq::<Seq<char>>::empty());
        loop
            invariant
                parser.wf(),
                parser.lines() == self.lines(),
                outcome == file_scan(self.lines(), self.read_count() as int, self.table(), Seq::empty(), self.heads()),
                outcome is Some,
                outcome == file_scan(
                    parser.lines(),
                    parser.read_count() as int,
                    parser.table(),
                    target.deep_view(),
                    parser.heads(),
                ),
            ensures
                outcome == Some(Ok::<TableView, (ErrorKind, nat, Seq<char>)>(parser.table())),
            decreases parser.lines().len() - parser.read_count(),
        {
            let ghost rc = parser.read_count();
            let ghost st = (parser.table(), target.deep_view(), parser.heads());
            let pline = match parser.next_parserline() {
                Ok(p) => p,
                Err(e) => {
                    if e.kind == ErrorKind::EndOfFile {
                        break;
                    }
                    return Err(e);
                },
            };
            let ghost g = pline.graphs();
            assert(g == grapheme_clusters(parser.lines()[rc as int]));
            let mut cur = LineCursor::start(pline);
            proof { cur.lemma_bounds(); lemma_skip_blanks(g, 0); }
            loop
                invariant
                    cur.wf(),
                    cur.graphs() == g,
                    cur.line() == pline.line(),
                    cur.segments() == pline.segments(),
                    0 <= cur.pos() <= skip_blanks(g, 0),
                    skip_blanks(g, 0) <= g.len(),
                    forall|j: int| 0 <= j < skip_blanks(g, 0) ==> #[trigger] is_ws_grapheme(g[j]),
                    skip_blanks(g, 0) < g.len() ==> !is_ws_grapheme(g[skip_blanks(g, 0)]),
                ensures
                    cur.wf(),
                    cur.graphs() == g,
                    cur.line() == pline.line(),
                    cur.segments() == pline.segments(),
                    cur.pos() == skip_blanks(g, 0),
                decreases cur.graphs().len() - cur.pos(),
            {
                proof { cur.lemma_bounds(); }
                match cur.peek() {
                    Some(g) => {
                        if crate::text::is_tok(&g, ' ') || crate::text::is_tok(&g, '\t') {
                            cur.next();
                        } else {
                            assert(!is_ws_grapheme(cur.graphs()[cur.pos()]));
                            break;
                        }
                    },
                    None => {
                        break;
                    },
                }
            }
            proof { cur.lemma_bounds(); }
            let first = cur.peek();
            let is_gap = match &first {
                Some(g) => crate::text::is_tok(g, '\n') || crate::text::is_tok(g, '#'),
                None => true,
            };
            if is_gap {
                Self::process_eol(cur.finish())?;
            } else if crate::text::is_some_tok(first.as_ref(), '[') {
                let path = parser.parse_table_header(cur.finish())?;
                target = path.segments();
            } else {
                let (kv, pl) = parser.parse_keyval(cur.finish())?;
                let line = pl.line_num();
                proof { assert(target.deep_view().skip(0) =~= target.deep_view()); }
                match insert_at(&mut parser.main_table, &target, 0, kv) {
                    Ok(()) => {},
                    Err(e) => {
                        return Err(TomlError { line, kind: e.kind, detail: e.detail });
                    },
                }
                Self::process_eol(pl)?;
            }
        }
        Ok(parser.main_table)
    }
}

} // verus!
