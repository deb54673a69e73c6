//! The sketch's line splitter: a line and the column positions that
//! delimit its semantic segments.
use vstd::prelude::*;
use crate::text::{Grapheme, tok, is_tok, graphemes_of, slice_graphemes, grapheme_clusters, lemma_chars_deep_view};
use crate::drafts::parsetools::TOMLSeg;

verus! {

/// A grapheme the sketch starts a segment at.
pub open spec fn sketch_delim(g: Seq<char>) -> bool {
    g == tok('#') || g == tok('[') || g == tok(']') || g == tok('{') || g == tok('}') || g == tok('"') || g == tok('\'')
}

/// The sketch's segment delimiters found from position `i` on, after `acc`.
pub open spec fn sketch_delims_from(g: Seq<Seq<char>>, i: int, acc: Seq<usize>) -> Seq<usize>
    decreases g.len() - i,
{
    if i < 0 || i >= g.len() {
        acc
    } else if sketch_delim(g[i]) {
        sketch_delims_from(g, i + 1, acc.push(i as usize))
    } else if g[i] == tok('=') {
        sketch_delims_from(g, i + 1, acc.push(i as usize).push((i + 1) as usize))
    } else {
        sketch_delims_from(g, i + 1, acc)
    }
}

/// A line and its segment delimiters.
#[derive(Debug)]
pub struct ParserLine {
    line: String,
    segment_delims: Vec<usize>,
}

impl ParserLine {
    /// The text of the line.
    pub closed spec fn text(self) -> Seq<char> {
        self.line@
    }

    /// The segment delimiters.
    pub closed spec fn delims(self) -> Seq<usize> {
        self.segment_delims@
    }

    /// An empty line with no delimiters.
    pub fn new() -> (r: Self)
        ensures
            r.text() == Seq::<char>::empty(),
            r.delims() == Seq::<usize>::empty(),
    {
        ParserLine { line: String::new(), segment_delims: Vec::new() }
    }

    /// The grapheme clusters of the line.
    pub fn graphemes(&self) -> (r: Vec<Grapheme>)
        ensures
            r.deep_view() == grapheme_clusters(self.text()),
            r.deep_view().flatten() == self.text(),
            forall|i: int| 0 <= i < r.len() ==> (#[trigger] r@[i])@.len() > 0,
    {
        graphemes_of(self.line.as_str())
    }

    fn seg_delims(&self) -> (r: &Vec<usize>)
        ensures
            r@ == self.delims(),
    {
        &self.segment_delims
    }

    /// The segments of the line, handed out one by one.
    pub fn seg_iter(&self) -> (r: PLIterator)
        requires
            self.delims().len() > 0,
        ensures
            r.done() == 0,
            r.limit() == self.delims().len() - 1,
            r.line_text() == self.text(),
            r.delims() == self.delims(),
    {
        PLIterator::new(self)
    }

    /// Finds the segment delimiters of the line: 0, each bracket, brace,
    /// quote and comment sign, both sides of each `=`, and the length of the
    /// line in bytes.
    pub fn find_segments(&mut self)
        ensures
            final(self).text() == old(self).text(),
            utf8_len(old(self).text()) <= usize::MAX ==> final(self).delims() == sketch_delims_from(
                grapheme_clusters(old(self).text()),
                0,
                seq![0usize],
            ).push(utf8_len(old(self).text()) as usize),
    {
        let graphs = graphemes_of(self.line.as_str());
        let ghost g = graphs.deep_view();
        let mut segments: Vec<usize> = Vec::new();
        segments.push(0);
        let mut i: usize = 0;
        while i < graphs.len()
            invariant
                g == graphs.deep_view(),
                i <= graphs.len(),
                sketch_delims_from(g, 0, seq![0usize]) == sketch_delims_from(g, i as int, segments@),
            decreases graphs.len() - i,
        {
            proof { lemma_chars_deep_view(graphs@[i as int]); }
            let c = &graphs[i];
            if is_tok(c, '#') || is_tok(c, '[') || is_tok(c, ']') || is_tok(c, '{') || is_tok(c, '}') || is_tok(c, '"')
                || is_tok(c, '\'') {
                segments.push(i);
            } else if is_tok(c, '=') {
                segments.push(i);
                segments.push(i + 1);
            }
            i = i + 1;
        }
        let chars = crate::text::chars_of(self.line.as_str());
        let n = byte_length(&chars);
        segments.push(n);
        self.segment_delims = segments;
    }
}

/// An iterator over the segments of a sketch line.
pub struct PLIterator<'a> {
    curr_delim_num: usize,
    limit: usize,
    pline: &'a ParserLine,
}

impl<'a> PLIterator<'a> {
    /// How many segments were handed out.
    pub closed spec fn done(self) -> nat {
        self.curr_delim_num as nat
    }

    /// How many segments there are.
    pub closed spec fn limit(self) -> nat {
        self.limit as nat
    }

    /// The text of the line.
    pub closed spec fn line_text(self) -> Seq<char> {
        self.pline.text()
    }

    /// The delimiters of the line.
    pub closed spec fn delims(self) -> Seq<usize> {
        self.pline.delims()
    }

    fn new(pline: &'a ParserLine) -> (r: Self)
        requires
            pline.delims().len() > 0,
        ensures
            r.done() == 0,
            r.limit() == pline.delims().len() - 1,
            r.line_text() == pline.text(),
            r.delims() == pline.delims(),
    {
        let limit: usize = pline.seg_delims().len() - 1;
        PLIterator { curr_delim_num: 0, limit, pline }
    }

    /// The next segment of the line: the graphemes between the next two
    /// delimiters (as far as the line has graphemes).
    pub fn next(&mut self) -> (r: Option<TOMLSeg>)
        ensures
            final(self).limit() == old(self).limit(),
            final(self).line_text() == old(self).line_text(),
            final(self).delims() == old(self).delims(),
            old(self).done() == old(self).limit() ==> (r is None && final(self).done() == old(self).done()),
            old(self).done() < old(self).limit() && old(self).limit() < old(self).delims().len() ==> (r matches Some(seg)
                && seg.wf() && final(self).done() == old(self).done() + 1 && seg.rest() == grapheme_clusters(
                old(self).line_text(),
            ).subrange(
                bounded(old(self).delims()[old(self).done() as int] as int, grapheme_clusters(old(self).line_text()).len() as int),
                bounded_hi(
                    old(self).delims()[old(self).done() as int] as int,
                    old(self).delims()[old(self).done() as int + 1] as int,
                    grapheme_clusters(old(self).line_text()).len() as int,
                ),
            )),
    {
        let n = self.curr_delim_num;
        if n == self.limit {
            return None;
        }
        let delims = self.pline.seg_delims();
        if delims.len() == 0 || n >= delims.len() - 1 {
            return None;
        }
        let (lb, ub) = (delims[n], delims[n + 1]);
        let graphs = self.pline.graphemes();
        let lo = if lb <= graphs.len() { lb } else { graphs.len() };
        let hi = if ub <= graphs.len() { if ub >= lo { ub } else { lo } } else { graphs.len() };
        let seg = TOMLSeg::from_graphemes(slice_graphemes(&graphs, lo, hi));
        self.curr_delim_num = n + 1;
        Some(seg)
    }
}

/// The number of bytes a character takes in UTF-8.
pub open spec fn utf8_width(c: char) -> nat {
    if (c as u32) < 0x80 {
        1
    } else if (c as u32) < 0x800 {
        2
    } else if (c as u32) < 0x10000 {
        3
    } else {
        4
    }
}

/// The number of bytes a text takes in UTF-8.
pub open spec fn utf8_len(s: Seq<char>) -> nat
    decreases s.len(),
{
    if s.len() == 0 {
        0
    } else {
        utf8_len(s.drop_last()) + utf8_width(s.last())
    }
}

/// The length of a text in UTF-8 bytes (saturating at the largest `usize`).
fn byte_length(s: &Vec<char>) -> (r: usize)
    ensures
        utf8_len(s@) <= usize::MAX ==> r == utf8_len(s@),
{
    let mut total: usize = 0;
    let mut i: usize = 0;
    while i < s.len()
        invariant
            i <= s.len(),
            utf8_len(s@.take(i as int)) <= usize::MAX ==> total == utf8_len(s@.take(i as int)),
            utf8_len(s@.take(i as int)) > usize::MAX ==> total == usize::MAX,
        decreases s.len() - i,
    {
        let c = s[i] as u32;
        let w: usize = if c < 0x80 { 1 } else if c < 0x800 { 2 } else if c < 0x10000 { 3 } else { 4 };
        proof {
            assert(s@.take(i + 1).drop_last() =~= s@.take(i as int));
            assert(s@.take(i + 1).last() == s@[i as int]);
        }
        total = total.saturating_add(w);
        i = i + 1;
    }
    assert(s@.take(s.len() as int) =~= s@);
    total
}

/// A position clipped to the end of the line.
pub open spec fn bounded(x: int, n: int) -> int {
    if x <= n { x } else { n }
}

/// The end of a segment clipped to the line and to its start.
pub open spec fn bounded_hi(lo: int, hi: int, n: int) -> int {
    if hi <= n {
        if hi >= bounded(lo, n) { hi } else { bounded(lo, n) }
    } else {
        n
    }
}

} // verus!
