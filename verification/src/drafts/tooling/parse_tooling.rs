//! A per-line context whose segments are handed out whole, in order.
use vstd::prelude::*;
use crate::text::{Grapheme, graphemes_of, slice_graphemes, grapheme_clusters, clone_graphemes};
use crate::drafts::parsetools::{TOMLSeg, count_ws};
use crate::drafts::parsetooling::{find_spots, segment_spots, spots_ok};

verus! {

/// A line of TOML split into segments at brackets, braces, comment signs,
/// commas and `=`.
#[derive(Debug)]
pub struct ParserLine {
    data: String,
    graphs: Vec<Grapheme>,
    line_num: usize,
    seg_nums: Vec<usize>,
    iter_limit: usize,
    curr_seg_num: usize,
}

impl ParserLine {
    /// The graphemes of the line.
    pub closed spec fn graphs(self) -> Seq<Seq<char>> {
        self.graphs.deep_view()
    }

    /// The segment boundaries.
    pub closed spec fn segments(self) -> Seq<usize> {
        self.seg_nums@
    }

    /// The number of segments handed out.
    pub closed spec fn handed_out(self) -> nat {
        self.curr_seg_num as nat
    }

    /// The number of segments.
    pub closed spec fn limit(self) -> nat {
        self.iter_limit as nat
    }

    pub closed spec fn line(self) -> nat {
        self.line_num as nat
    }

    pub closed spec fn wf(self) -> bool {
        &&& spots_ok(self.seg_nums@, self.graphs.len() as int)
        &&& self.iter_limit == (if self.seg_nums.len() == 0 { 0 } else { self.seg_nums.len() - 1 })
        &&& self.curr_seg_num <= self.iter_limit
    }

    /// Splits a (non-empty) line into segments.
    pub fn new(input: String, line_num: usize) -> (r: Self)
        requires
            input@.len() > 0,
        ensures
            r.wf(),
            r.graphs() == grapheme_clusters(input@),
            r.segments() == segment_spots(grapheme_clusters(input@), true),
            r.handed_out() == 0,
            r.line() == line_num,
    {
        let graphs = graphemes_of(input.as_str());
        proof {
            if graphs.len() == 0 {
                assert(graphs.deep_view() =~= Seq::<Seq<char>>::empty());
                assert(input@ == Seq::<Seq<char>>::empty().flatten());
            }
        }
        let seg_nums = find_spots(&graphs, true);
        let iter_limit = seg_nums.len() - 1;
        ParserLine { data: input, graphs, line_num, seg_nums, iter_limit, curr_seg_num: 0 }
    }

    /// All the graphemes of the line, for reading one by one.
    pub fn iter(&self) -> (r: TOMLSeg)
        ensures
            r.wf(),
            r.rest() == self.graphs(),
    {
        let r = TOMLSeg::from_graphemes(clone_graphemes(&self.graphs));
        r
    }

    /// The next segment, without handing it out.
    pub fn peek(&self) -> (r: Option<TOMLSeg>)
        requires
            self.wf(),
        ensures
            self.handed_out() == self.limit() ==> r is None,
            self.handed_out() < self.limit() ==> (r matches Some(seg) && seg.wf() && seg.rest() == self.graphs().subrange(
                self.segments()[self.handed_out() as int] as int,
                self.segments()[self.handed_out() as int + 1] as int,
            )),
    {
        let k = self.curr_seg_num;
        if k == self.iter_limit {
            return None;
        }
        let graphs = slice_graphemes(&self.graphs, self.seg_nums[k], self.seg_nums[k + 1]);
        Some(TOMLSeg::from_graphemes(graphs))
    }

    /// Hands out the next segment.
    pub fn next_seg(&mut self) -> (r: Option<TOMLSeg>)
        requires
            old(self).wf(),
        ensures
            final(self).wf(),
            final(self).graphs() == old(self).graphs(),
            final(self).segments() == old(self).segments(),
            final(self).limit() == old(self).limit(),
            final(self).line() == old(self).line(),
            old(self).handed_out() == old(self).limit() ==> (r is None && final(self).handed_out() == old(self).handed_out()),
            old(self).handed_out() < old(self).limit() ==> (r matches Some(seg) && seg.wf() && seg.rest() == old(
                self,
            ).graphs().subrange(
                old(self).segments()[old(self).handed_out() as int] as int,
                old(self).segments()[old(self).handed_out() as int + 1] as int,
            ) && final(self).handed_out() == old(self).handed_out() + 1),
    {
        let r = self.peek();
        if self.curr_seg_num != self.iter_limit {
            self.curr_seg_num = self.curr_seg_num + 1;
        }
        r
    }

    /// An empty line.
    pub fn replacement() -> (r: Self)
        ensures
            r.wf(),
            r.graphs().len() == 0,
            r.segments().len() == 0,
            r.handed_out() == 0,
            r.line() == 0,
    {
        let r = ParserLine {
            data: String::new(),
            graphs: Vec::new(),
            seg_nums: Vec::new(),
            line_num: 0,
            iter_limit: 0,
            curr_seg_num: 0,
        };
        assert(r.graphs.deep_view() =~= Seq::<Seq<char>>::empty());
        r
    }

    /// Finds the segment boundaries of a line.
    fn find_segments(input_str: &str) -> (r: Vec<usize>)
        ensures
            r@ == segment_spots(grapheme_clusters(input_str@), true),
    {
        let graphs = graphemes_of(input_str);
        find_spots(&graphs, true)
    }
}

/// Skips the spaces and tabs at the start of a segment.
pub fn skip_ws(iter: &mut TOMLSeg)
    requires
        old(iter).wf(),
    ensures
        final(iter).wf(),
        final(iter).rest() == old(iter).rest().skip(count_ws(old(iter).rest())),
{
    iter.skip_ws();
}

} // verus!
