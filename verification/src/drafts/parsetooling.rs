//! An earlier form of the per-line parsing context, whose segment
//! boundaries follow brackets, quotes, commas, comment signs and `=`.
use vstd::prelude::*;
use crate::text::{Grapheme, tok, is_tok, graphemes_of, slice_graphemes, lemma_chars_deep_view, grapheme_clusters};
use crate::drafts::parsetools::TOMLSeg;

verus! {

/// A grapheme that starts a segment: for this context `#`, braces, quotes
/// and commas; with `brackets`, square brackets, braces, `#` and commas.
pub open spec fn opens_segment(g: Seq<char>, brackets: bool) -> bool {
    if brackets {
        g == tok('[') || g == tok(']') || g == tok('#') || g == tok('{') || g == tok('}') || g == tok(',')
    } else {
        g == tok('#') || g == tok('}') || g == tok('{') || g == tok('"') || g == tok('\'') || g == tok(',')
    }
}

/// The segment starts found from position `i` on, after `acc`; `skip` tells
/// that the grapheme at `i` follows an `=` and is passed over.
pub open spec fn spots_from(g: Seq<Seq<char>>, i: int, skip: bool, acc: Seq<usize>, brackets: bool) -> Seq<usize>
    decreases g.len() - i,
{
    if i < 0 || i >= g.len() {
        acc
    } else if skip {
        spots_from(g, i + 1, false, acc, brackets)
    } else if opens_segment(g[i], brackets) {
        spots_from(g, i + 1, false, acc.push(i as usize), brackets)
    } else if g[i] == tok('=') {
        spots_from(g, i + 1, true, acc.push(i as usize).push((i + 1) as usize), brackets)
    } else if i == 0 {
        spots_from(g, i + 1, false, acc.push(0), brackets)
    } else {
        spots_from(g, i + 1, false, acc, brackets)
    }
}

/// The segment boundaries of a line: the starts found, and the line's end
/// when any was found.
pub open spec fn segment_spots(g: Seq<Seq<char>>, brackets: bool) -> Seq<usize> {
    let s = spots_from(g, 0, false, Seq::empty(), brackets);
    if s.len() > 0 { s.push(g.len() as usize) } else { s }
}

/// Non-decreasing boundaries within the line.
pub open spec fn spots_ok(s: Seq<usize>, n: int) -> bool {
    &&& forall|a: int, b: int| 0 <= a <= b < s.len() ==> s[a] <= s[b]
    &&& forall|a: int| 0 <= a < s.len() ==> s[a] <= n
}

/// Finds the segment boundaries of a line.
pub fn find_spots(g: &Vec<Grapheme>, brackets: bool) -> (r: Vec<usize>)
    ensures
        r@ == segment_spots(g.deep_view(), brackets),
        spots_ok(r@, g.len() as int),
        g.len() > 0 ==> r.len() > 0 && r@[0] == 0,
{
    let ghost s = g.deep_view();
    let mut spots: Vec<usize> = Vec::new();
    let mut skip = false;
    let mut i: usize = 0;
    while i < g.len()
        invariant
            s == g.deep_view(),
            i <= g.len(),
            spots_from(s, 0, false, Seq::empty(), brackets) == spots_from(s, i as int, skip, spots@, brackets),
            forall|a: int, b: int| 0 <= a <= b < spots.len() ==> spots@[a] <= spots@[b],
            forall|a: int| 0 <= a < spots.len() ==> spots@[a] <= i + (if skip { 0int } else { 0int }),
            skip ==> i > 0,
            i > 0 ==> spots.len() > 0 && spots@[0] == 0,
            i == 0 ==> spots.len() == 0 && !skip,
        decreases g.len() - i,
    {
        proof { lemma_chars_deep_view(g@[i as int]); }
        let gi = &g[i];
        if skip {
            skip = false;
        } else if (brackets && (is_tok(gi, '[') || is_tok(gi, ']') || is_tok(gi, '#') || is_tok(gi, '{') || is_tok(gi, '}') || is_tok(gi, ',')))
            || (!brackets && (is_tok(gi, '#') || is_tok(gi, '}') || is_tok(gi, '{') || is_tok(gi, '"') || is_tok(gi, '\'') || is_tok(gi, ','))) {
            spots.push(i);
        } else if is_tok(gi, '=') {
            spots.push(i);
            spots.push(i + 1);
            skip = true;
        } else if i == 0 {
            spots.push(0);
        }
        i = i + 1;
    }
    if spots.len() > 0 {
        spots.push(g.len());
    }
    spots
}

/// A line of TOML under parsing, split into segments.
#[derive(Debug)]
pub struct ParserLine {
    line_num: usize,
    data: String,
    graphs: Vec<Grapheme>,
    seg_nums: Vec<usize>,
    iter_limit: usize,
    curr_seg_num: usize,
    remaining_graphemes: usize,
}

impl ParserLine {
    /// The graphemes of the line.
    pub closed spec fn graphs(self) -> Seq<Seq<char>> {
        self.graphs.deep_view()
    }

    /// The segment boundaries.
    pub closed spec fn segments(self) -> Seq<usize> {
        self.seg_nums@
    }

    /// The number of segments handed out.
    pub closed spec fn handed_out(self) -> nat {
        self.curr_seg_num as nat
    }

    /// How many graphemes of the last segment handed out remain to be read.
    pub closed spec fn remaining(self) -> nat {
        self.remaining_graphemes as nat
    }

    /// The number of segments.
    pub closed spec fn limit(self) -> nat {
        self.iter_limit as nat
    }

    pub closed spec fn line(self) -> nat {
        self.line_num as nat
    }

    pub closed spec fn wf(self) -> bool {
        &&& spots_ok(self.seg_nums@, self.graphs.len() as int)
        &&& self.iter_limit == (if self.seg_nums.len() == 0 { 0 } else { self.seg_nums.len() - 1 })
        &&& self.curr_seg_num <= self.iter_limit
        &&& self.remaining_graphemes > 0 ==> self.curr_seg_num >= 1 && self.remaining_graphemes
            <= self.seg_nums@[self.curr_seg_num as int] - self.seg_nums@[self.curr_seg_num - 1]
    }

    /// The state with `count` graphemes of the last segment left to read.
    pub closed spec fn continued(self, count: usize) -> Self {
        ParserLine { remaining_graphemes: count, ..self }
    }

    /// Continuing keeps the line, its graphemes, segments and how many have
    /// been handed out, and replaces only how many graphemes are left:
    /// continuing twice is continuing once with the second count. With some
    /// graphemes left the line is not used up.
    pub proof fn law_continue_twice(self, a: usize, c: usize)
        ensures
            self.continued(a).continued(c) == self.continued(c),
            self.continued(c).line() == self.line(),
            self.continued(c).graphs() == self.graphs(),
            self.continued(c).segments() == self.segments(),
            self.continued(c).handed_out() == self.handed_out(),
            self.continued(c).limit() == self.limit(),
            self.continued(c).remaining() == c,
            c > 0 ==> !(self.continued(c).handed_out() == self.continued(c).limit() && self.continued(c).remaining() == 0),
    {
    }

    /// No more segments are handed out than there are.
    pub proof fn lemma_wf(self)
        requires
            self.wf(),
        ensures
            self.handed_out() <= self.limit(),
    {
    }

    /// Splits a (non-empty) line into segments.
    pub fn new(input: String, line_num: usize) -> (r: Self)
        requires
            input@.len() > 0,
        ensures
            r.wf(),
            r.graphs() == grapheme_clusters(input@),
            r.segments() == segment_spots(grapheme_clusters(input@), false),
            r.handed_out() == 0,
            r.remaining() == 0,
            r.line() == line_num,
    {
        let graphs = graphemes_of(input.as_str());
        proof {
            if graphs.len() == 0 {
                assert(graphs.deep_view() =~= Seq::<Seq<char>>::empty());
                assert(input@ == Seq::<Seq<char>>::empty().flatten());
            }
        }
        let seg_nums = find_spots(&graphs, false);
        let iter_limit = seg_nums.len() - 1;
        ParserLine { data: input, line_num, graphs, seg_nums, iter_limit, curr_seg_num: 0, remaining_graphemes: 0 }
    }

    /// The same state with `count` graphemes of the last segment left to read.
    pub fn continuation(pline: Self, count: usize) -> (r: Self)
        ensures
            r == pline.continued(count),
            r.graphs() == pline.graphs(),
            r.segments() == pline.segments(),
            r.handed_out() == pline.handed_out(),
            r.line() == pline.line(),
            r.remaining() == count,
            pline.wf() && pline.handed_out() >= 1 && count <= pline.segments()[pline.handed_out() as int]
                - pline.segments()[pline.handed_out() - 1] ==> r.wf(),
    {
        ParserLine { remaining_graphemes: count, ..pline }
    }

    /// The segment the next call of `next_seg` hands out, without handing it
    /// out.
    pub fn peek(&self) -> (r: Option<TOMLSeg>)
        requires
            self.wf(),
        ensures
            self.remaining() > 0 ==> (r matches Some(seg) && seg.wf() && seg.rest() == self.graphs().subrange(
                self.segments()[self.handed_out() as int] - self.remaining(),
                self.segments()[self.handed_out() as int] as int,
            )),
            self.remaining() == 0 && self.handed_out() == self.limit() ==> r is None,
            self.remaining() == 0 && self.handed_out() < self.limit() ==> (r matches Some(seg) && seg.wf() && seg.rest()
                == self.graphs().subrange(
                self.segments()[self.handed_out() as int] as int,
                self.segments()[self.handed_out() as int + 1] as int,
            )),
    {
        if self.remaining_graphemes != 0 {
            let k = self.curr_seg_num - 1;
            let lb = self.seg_nums[k];
            let ub = self.seg_nums[k + 1];
            let skips = ub - lb - self.remaining_graphemes;
            let graphs = slice_graphemes(&self.graphs, lb + skips, ub);
            Some(TOMLSeg::from_graphemes(graphs))
        } else if self.curr_seg_num == self.iter_limit {
            None
        } else {
            let k = self.curr_seg_num;
            let graphs = slice_graphemes(&self.graphs, self.seg_nums[k], self.seg_nums[k + 1]);
            Some(TOMLSeg::from_graphemes(graphs))
        }
    }

    /// Hands out the rest of the current segment, or the next segment.
    pub fn next_seg(&mut self) -> (r: Option<TOMLSeg>)
        requires
            old(self).wf(),
        ensures
            final(self).wf(),
            final(self).graphs() == old(self).graphs(),
            final(self).segments() == old(self).segments(),
            final(self).line() == old(self).line(),
            final(self).limit() == old(self).limit(),
            final(self).remaining() == 0,
            old(self).remaining() > 0 ==> (r matches Some(seg) && seg.wf() && seg.rest() == old(self).graphs().subrange(
                old(self).segments()[old(self).handed_out() as int] - old(self).remaining(),
                old(self).segments()[old(self).handed_out() as int] as int,
            ) && final(self).handed_out() == old(self).handed_out()),
            old(self).remaining() == 0 && old(self).handed_out() == old(self).limit() ==> (r is None && final(self).handed_out()
                == old(self).handed_out()),
            old(self).remaining() == 0 && old(self).handed_out() < old(self).limit() ==> (r matches Some(seg) && seg.wf()
                && seg.rest() == old(self).graphs().subrange(
                old(self).segments()[old(self).handed_out() as int] as int,
                old(self).segments()[old(self).handed_out() as int + 1] as int,
            ) && final(self).handed_out() == old(self).handed_out() + 1),
    {
        let r = self.peek();
        if self.remaining_graphemes != 0 {
            self.remaining_graphemes = 0;
        } else if self.curr_seg_num != self.iter_limit {
            self.curr_seg_num = self.curr_seg_num + 1;
        }
        r
    }

    /// Whether every segment has been handed out and read.
    pub fn is_exhausted(&self) -> (r: bool)
        ensures
            r == (self.handed_out() == self.limit() && self.remaining() == 0),
    {
        self.curr_seg_num == self.iter_limit && self.remaining_graphemes == 0
    }

    pub fn line_num(&self) -> (r: usize)
        ensures
            r == self.line(),
    {
        self.line_num
    }

    /// An empty line.
    pub fn replacement() -> (r: Self)
        ensures
            r.wf(),
            r.graphs().len() == 0,
            r.segments().len() == 0,
            r.line() == 0,
            r.handed_out() == 0,
            r.remaining() == 0,
    {
        let r = ParserLine {
            data: String::new(),
            graphs: Vec::new(),
            seg_nums: Vec::new(),
            line_num: 0,
            iter_limit: 0,
            curr_seg_num: 0,
            remaining_graphemes: 0,
        };
        assert(r.graphs.deep_view() =~= Seq::<Seq<char>>::empty());
        r
    }

    /// Finds the segment boundaries of a line.
    fn find_segments(input_str: &str) -> (r: Vec<usize>)
        ensures
            r@ == segment_spots(grapheme_clusters(input_str@), false),
    {
        let graphs = graphemes_of(input_str);
        find_spots(&graphs, false)
    }
}

} // verus!
