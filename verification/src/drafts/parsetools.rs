//! Tools for walking a TOML line: line segments, the per-line parsing
//! context, and paths of keys.
use vstd::prelude::*;
use crate::text::{Grapheme, slice_graphemes, clone_graphemes, chars_of, split_chars, split_on, join_with, lemma_join_push, string_from_chars, lemma_split_nonempty, grapheme_clusters, graphemes_of, is_tok, lemma_chars_deep_view, lemma_flatten_push, tok, free_of, law_split_join};

verus! {

/// A segment of a line, handed out grapheme by grapheme.
pub struct TOMLSeg {
    content: Vec<Grapheme>,
    pos: usize,
}

impl TOMLSeg {
    /// All graphemes of the segment.
    pub closed spec fn contents(self) -> Seq<Seq<char>> {
        self.content.deep_view()
    }

    /// How many graphemes were handed out already.
    pub closed spec fn position(self) -> int {
        self.pos as int
    }

    /// The graphemes still to be handed out.
    pub open spec fn rest(self) -> Seq<Seq<char>> {
        self.contents().skip(self.position())
    }

    pub closed spec fn wf(self) -> bool {
        self.pos <= self.content.len()
    }

    /// A segment over the given graphemes, positioned at its first grapheme.
    pub fn from_graphemes(content: Vec<Grapheme>) -> (r: Self)
        ensures
            r.wf(),
            r.contents() == content.deep_view(),
            r.position() == 0,
            r.rest() == content.deep_view(),
    {
        let r = TOMLSeg { content, pos: 0 };
        assert(r.rest() =~= content.deep_view());
        r
    }

    /// A segment over the graphemes of `s`.
    pub fn new(s: &str) -> (r: Self)
        ensures
            r.wf(),
            r.contents() == grapheme_clusters(s@),
            r.position() == 0,
    {
        Self::from_graphemes(graphemes_of(s))
    }

    /// The text of the whole segment, whatever has been handed out.
    pub fn content(&self) -> (r: Vec<char>)
        requires
            self.wf(),
        ensures
            r@ == self.contents().flatten(),
    {
        let mut out: Vec<char> = Vec::new();
        let mut i: usize = 0;
        while i < self.content.len()
            invariant
                i <= self.content.len(),
                out@ == self.content.deep_view().take(i as int).flatten(),
            decreases self.content.len() - i,
        {
            let g = &self.content[i];
            let ghost before = out@;
            let mut j: usize = 0;
            while j < g.len()
                invariant
                    j <= g.len(),
                    out@ == before + g@.take(j as int),
                decreases g.len() - j,
            {
                out.push(g[j]);
                j = j + 1;
                assert(out@ =~= before + g@.take(j as int));
            }
            proof {
                lemma_chars_deep_view(*g);
                lemma_flatten_push(self.content.deep_view().take(i as int), g@);
                assert(self.content.deep_view().take(i + 1) =~= self.content.deep_view().take(
                    i as int,
                ).push(g@));
                assert(g@.take(g@.len() as int) =~= g@);
            }
            i = i + 1;
        }
        assert(self.content.deep_view().take(self.content.len() as int) =~= self.content.deep_view());
        out
    }


    /// The graphemes still to be handed out, copied.
    pub fn rest_graphemes(&self) -> (r: Vec<Grapheme>)
        requires
            self.wf(),
        ensures
            r.deep_view() == self.rest(),
    {
        let r = slice_graphemes(&self.content, self.pos, self.content.len());
        assert(r.deep_view() =~= self.rest());
        r
    }

    /// The next grapheme, without handing it out.
    pub fn peek(&self) -> (r: Option<&Grapheme>)
        requires
            self.wf(),
        ensures
            self.rest().len() == 0 <==> r is None,
            r matches Some(g) ==> g@ == self.rest()[0],
    {
        if self.pos < self.content.len() {
            proof { lemma_chars_deep_view(self.content@[self.pos as int]); }
            Some(&self.content[self.pos])
        } else {
            None
        }
    }

    /// Hands out the next grapheme.
    pub fn next(&mut self) -> (r: Option<Grapheme>)
        requires
            old(self).wf(),
        ensures
            final(self).wf(),
            final(self).contents() == old(self).contents(),
            old(self).rest().len() == 0 ==> r is None && final(self).rest() == old(self).rest()
                && final(self).position() == old(self).position(),
            old(self).rest().len() > 0 ==> (r matches Some(g) && g@ == old(self).rest()[0])
                && final(self).rest() == old(self).rest().drop_first() && final(self).position()
                == old(self).position() + 1,
    {
        if self.pos < self.content.len() {
            let g = self.content[self.pos].clone();
            proof {
                lemma_chars_deep_view(self.content@[self.pos as int]);
                assert(g@ =~= self.content@[self.pos as int]@);
            }
            self.pos = self.pos + 1;
            assert(self.rest() =~= old(self).rest().drop_first());
            Some(g)
        } else {
            None
        }
    }

    /// Skips spaces and tabs.
    pub fn skip_ws(&mut self)
        requires
            old(self).wf(),
        ensures
            final(self).wf(),
            final(self).contents() == old(self).contents(),
            final(self).position() == old(self).position() + count_ws(old(self).rest()),
            final(self).rest() == old(self).rest().skip(count_ws(old(self).rest())),
    {
        while self.pos < self.content.len() && (is_tok(&self.content[self.pos], ' ') || is_tok(
            &self.content[self.pos],
            '\t',
        ))
            invariant
                self.wf(),
                self.contents() == old(self).contents(),
                old(self).position() <= self.position(),
                count_ws(old(self).rest()) == (self.position() - old(self).position()) + count_ws(
                    self.rest(),
                ),
            decreases self.content.len() - self.pos,
        {
            proof {
                lemma_chars_deep_view(self.content@[self.pos as int]);
                assert(self.rest().drop_first() =~= self.contents().skip(self.position() + 1));
            }
            self.pos = self.pos + 1;
        }
        proof {
            if self.pos < self.content.len() {
                lemma_chars_deep_view(self.content@[self.pos as int]);
            }
            assert(self.rest() =~= old(self).rest().skip(count_ws(old(self).rest())));
        }
    }

    /// Consumes the segment, giving the number of graphemes not handed out.
    pub fn count(self) -> (r: usize)
        requires
            self.wf(),
        ensures
            r == self.rest().len(),
    {
        self.content.len() - self.pos
    }
}

impl Default for TOMLSeg {
    fn default() -> (r: Self)
        ensures
            r.wf(),
            r.contents() == Seq::<Seq<char>>::empty(),
            r.position() == 0,
    {
        let r = TOMLSeg { content: Vec::new(), pos: 0 };
        assert(r.contents() =~= Seq::<Seq<char>>::empty());
        r
    }
}

/// Whether a grapheme is a TOML whitespace grapheme (space or tab).
pub open spec fn is_ws_grapheme(g: Seq<char>) -> bool {
    g == tok(' ') || g == tok('\t')
}

/// The number of leading space and tab graphemes.
pub open spec fn count_ws(s: Seq<Seq<char>>) -> int
    decreases s.len(),
{
    if s.len() > 0 && is_ws_grapheme(s[0]) {
        1 + count_ws(s.drop_first())
    } else {
        0
    }
}

pub proof fn lemma_count_ws_bounds(s: Seq<Seq<char>>)
    ensures
        0 <= count_ws(s) <= s.len(),
        forall|i: int| 0 <= i < count_ws(s) ==> #[trigger] is_ws_grapheme(s[i]),
        count_ws(s) < s.len() ==> !is_ws_grapheme(s[count_ws(s)]),
    decreases s.len(),
{
    if s.len() > 0 && is_ws_grapheme(s[0]) {
        lemma_count_ws_bounds(s.drop_first());
        assert forall|i: int| 0 <= i < count_ws(s) implies #[trigger] is_ws_grapheme(s[i]) by {
            if i > 0 {
                assert(s[i] == s.drop_first()[i - 1]);
            }
        }
    }
}

} // verus!

verus! {

/// Whether `x` is a segment boundary of the (non-empty) line `g`: the line's
/// two ends, each `#`, and both sides of each `=` and `,`.
pub open spec fn is_seg_point(g: Seq<Seq<char>>, x: int) -> bool {
    ||| x == 0
    ||| x == g.len()
    ||| (0 <= x < g.len() && g[x] == tok('#'))
    ||| (0 <= x < g.len() && (g[x] == tok('=') || g[x] == tok(',')))
    ||| (1 <= x <= g.len() && (g[x - 1] == tok('=') || g[x - 1] == tok(',')))
}

/// The segment boundaries of a line, in increasing order.
pub open spec fn is_segmentation(g: Seq<Seq<char>>, segs: Seq<usize>) -> bool {
    &&& (g.len() == 0 <==> segs.len() == 0)
    &&& forall|i: int, j: int| 0 <= i < j < segs.len() ==> segs[i] < segs[j]
    &&& forall|i: int| 0 <= i < segs.len() ==> is_seg_point(g, #[trigger] segs[i] as int)
    &&& g.len() > 0 ==> forall|x: int|
        0 <= x <= g.len() && is_seg_point(g, x) ==> exists|i: int|
            0 <= i < segs.len() && #[trigger] segs[i] == x
}

/// The end of the segment that holds position `i` of the line `g`: the
/// first segment boundary after `i`.
pub open spec fn seg_end_at(g: Seq<Seq<char>>, i: int) -> int
    decreases g.len() - i,
{
    if i < 0 || i >= g.len() {
        g.len() as int
    } else if is_seg_point(g, i + 1) {
        i + 1
    } else {
        seg_end_at(g, i + 1)
    }
}

/// The start of the segment that holds position `i`: the last segment
/// boundary at or before `i`.
pub open spec fn seg_start_at(g: Seq<Seq<char>>, i: int) -> int
    decreases i,
{
    if i <= 0 {
        0
    } else if is_seg_point(g, i) {
        i
    } else {
        seg_start_at(g, i - 1)
    }
}

/// The rest of the segment from position `i` on.
pub open spec fn seg_rest_at(g: Seq<Seq<char>>, i: int) -> Seq<Seq<char>> {
    g.subrange(i, seg_end_at(g, i))
}

/// The segment that holds a position of the line ends after it, within
/// the line.
pub proof fn lemma_seg_end_bounds(g: Seq<Seq<char>>, i: int)
    requires
        0 <= i < g.len(),
    ensures
        i < seg_end_at(g, i) <= g.len(),
    decreases g.len() - i,
{
    if !is_seg_point(g, i + 1) {
        lemma_seg_end_bounds(g, i + 1);
    }
}

/// `seg_end_at` is the first boundary after `i`.
pub proof fn lemma_seg_end_at(g: Seq<Seq<char>>, i: int, e: int)
    requires
        0 <= i < e <= g.len(),
        is_seg_point(g, e),
        forall|x: int| i < x < e ==> !is_seg_point(g, x),
    ensures
        seg_end_at(g, i) == e,
    decreases e - i,
{
    if !is_seg_point(g, i + 1) {
        lemma_seg_end_at(g, i + 1, e);
    }
}

/// `seg_start_at` is the last boundary at or before `i`.
pub proof fn lemma_seg_start_at(g: Seq<Seq<char>>, i: int, s: int)
    requires
        0 <= s <= i,
        is_seg_point(g, s),
        forall|x: int| s < x <= i ==> !is_seg_point(g, x),
    ensures
        seg_start_at(g, i) == s,
    decreases i - s,
{
    if i > s {
        lemma_seg_start_at(g, i - 1, s);
    }
}

/// A position inside a segment lies in the same segment as its start.
pub proof fn lemma_seg_end_step(g: Seq<Seq<char>>, i: int, j: int)
    requires
        0 <= i <= j < seg_end_at(g, i),
        i < g.len(),
    ensures
        seg_end_at(g, j) == seg_end_at(g, i),
    decreases j - i,
{
    if j > i {
        assert(!is_seg_point(g, i + 1));
        lemma_seg_end_step(g, i + 1, j);
    }
}

/// A line may not end with `=` or `,`: such a line is refused outright.
pub open spec fn ends_properly(g: Seq<Seq<char>>) -> bool {
    g.len() > 0 ==> !(g.last() == tok('=') || g.last() == tok(','))
}

/// A line of TOML under parsing: its graphemes split into segments, and how
/// far the parse has got.
#[derive(Debug)]
pub struct ParserLine {
    data: Vec<Grapheme>,
    line_num: usize,
    seg_nums: Vec<usize>,
    iter_limit: usize,
    curr_seg_num: usize,
    remaining_graphemes: usize,
}

impl ParserLine {
    /// The graphemes of the line.
    pub closed spec fn graphs(self) -> Seq<Seq<char>> {
        self.data.deep_view()
    }

    /// The segment boundaries of the line.
    pub closed spec fn segments(self) -> Seq<usize> {
        self.seg_nums@
    }

    /// The line's number in its file.
    pub closed spec fn line(self) -> nat {
        self.line_num as nat
    }

    pub closed spec fn structure_ok(self) -> bool {
        &&& is_segmentation(self.data.deep_view(), self.seg_nums@)
        &&& self.seg_nums.len() > 0 ==> self.seg_nums@[0] == 0 && self.seg_nums@.last()
            == self.data.len()
        &&& self.iter_limit == (if self.seg_nums.len() == 0 {
            0
        } else {
            self.seg_nums.len() - 1
        })
        &&& self.curr_seg_num <= self.iter_limit
    }

    /// The end of the segment most recently handed out (where the parse
    /// resumes after a freeze with no graphemes left over).
    pub closed spec fn anchor(self) -> int {
        if self.seg_nums.len() == 0 {
            0
        } else {
            self.seg_nums@[self.curr_seg_num as int] as int
        }
    }

    /// The length of the segment most recently handed out (0 if none was).
    pub closed spec fn anchor_len(self) -> int {
        if self.curr_seg_num == 0 || self.seg_nums.len() == 0 {
            0
        } else {
            self.seg_nums@[self.curr_seg_num as int] - self.seg_nums@[self.curr_seg_num - 1]
        }
    }

    /// The state is one from which segments can be handed out.
    pub closed spec fn wf(self) -> bool {
        &&& self.structure_ok()
        &&& self.remaining_graphemes <= self.anchor_len()
    }

    /// The position of the next grapheme in the line.
    pub closed spec fn cursor(self) -> int {
        self.anchor() - self.remaining_graphemes
    }

    /// The end of the segment that the next call of `next_seg` hands out.
    pub closed spec fn seg_end(self) -> int {
        if self.remaining_graphemes > 0 {
            self.anchor()
        } else if self.curr_seg_num < self.iter_limit {
            self.seg_nums@[self.curr_seg_num + 1] as int
        } else {
            self.data.len() as int
        }
    }

    /// The start of the segment the cursor is in.
    pub closed spec fn seg_start(self) -> int {
        if self.remaining_graphemes > 0 {
            self.seg_nums@[self.curr_seg_num - 1] as int
        } else {
            self.cursor()
        }
    }

    /// The graphemes still to be parsed on this line.
    pub open spec fn rest(self) -> Seq<Seq<char>> {
        self.graphs().skip(self.cursor())
    }

    /// The graphemes still to be parsed in the current segment.
    pub open spec fn seg_rest(self) -> Seq<Seq<char>> {
        self.graphs().subrange(self.cursor(), self.seg_end())
    }

    /// The state with `count` graphemes of the segment most recently handed
    /// out left to parse.
    pub closed spec fn frozen(self, count: usize) -> Self {
        ParserLine { remaining_graphemes: count, ..self }
    }

    /// The state after the rest of the current segment is handed out.
    pub closed spec fn advanced(self) -> Self {
        if self.remaining_graphemes != 0 {
            ParserLine { remaining_graphemes: 0, ..self }
        } else if self.curr_seg_num == self.iter_limit {
            self
        } else {
            ParserLine { curr_seg_num: (self.curr_seg_num + 1) as usize, ..self }
        }
    }

    /// What a hand-out does to a well-formed state that has graphemes left.
    pub proof fn lemma_advanced(self)
        requires
            self.wf(),
        ensures
            self.advanced().wf(),
            self.advanced().graphs() == self.graphs(),
            self.advanced().segments() == self.segments(),
            self.advanced().line() == self.line(),
            self.cursor() < self.graphs().len() ==> self.advanced().cursor() == self.seg_end()
                && self.advanced().anchor() == self.seg_end() && self.cursor() < self.seg_end(),
            self.cursor() == self.graphs().len() ==> self.advanced() == self,
    {
        self.lemma_wf();
    }

    /// Facts about a well-formed state.
    pub proof fn lemma_wf(self)
        requires
            self.wf(),
        ensures
            0 <= self.cursor() <= self.seg_end() <= self.graphs().len(),
            self.cursor() == self.graphs().len() <==> self.seg_end() == self.graphs().len()
                && self.cursor() == self.seg_end(),
            self.cursor() < self.graphs().len() ==> self.cursor() < self.seg_end(),
            0 <= self.anchor_len(),
            self.anchor() >= self.cursor(),
            self.anchor() <= self.graphs().len(),
            is_segmentation(self.graphs(), self.segments()),
            is_seg_point(self.graphs(), self.seg_end()) || self.graphs().len() == 0,
            forall|x: int| self.cursor() < x < self.seg_end() ==> !is_seg_point(self.graphs(), x),
            0 <= self.seg_start() <= self.cursor(),
            is_seg_point(self.graphs(), self.seg_start()) || self.graphs().len() == 0,
            forall|x: int| self.seg_start() < x <= self.cursor() ==> !is_seg_point(self.graphs(), x),
    {
        let n = self.seg_nums.len();
        if n > 0 {
            assert(self.seg_nums@[n - 1] == self.data.len());
            let k = self.curr_seg_num as int;
            assert(self.seg_nums@[k] <= self.data.len()) by {
                if k < n - 1 {
                    assert(self.seg_nums@[k] < self.seg_nums@[n - 1]);
                }
            }
            if k + 1 < n {
                assert(self.seg_nums@[k] < self.seg_nums@[k + 1]);
                assert(self.seg_nums@[k + 1] <= self.data.len()) by {
                    if k + 1 < n - 1 {
                        assert(self.seg_nums@[k + 1] < self.seg_nums@[n - 1]);
                    }
                }
            }
            if k > 0 {
                assert(self.seg_nums@[k - 1] < self.seg_nums@[k]);
                assert(self.seg_nums@[k - 1] >= 0);
                assert(is_seg_point(self.graphs(), self.seg_nums@[k - 1] as int));
            }
            assert(is_seg_point(self.graphs(), self.seg_nums@[k] as int));
            if k + 1 < n {
                assert(is_seg_point(self.graphs(), self.seg_nums@[k + 1] as int));
            }
        }
    }


    /// The segment around the cursor, in terms of the line and the cursor.
    pub proof fn lemma_position(self)
        requires
            self.wf(),
            self.cursor() < self.graphs().len(),
        ensures
            self.seg_end() == seg_end_at(self.graphs(), self.cursor()),
            self.seg_start() == seg_start_at(self.graphs(), self.cursor()),
            self.seg_rest() == seg_rest_at(self.graphs(), self.cursor()),
    {
        self.lemma_wf();
        lemma_seg_end_at(self.graphs(), self.cursor(), self.seg_end());
        lemma_seg_start_at(self.graphs(), self.cursor(), self.seg_start());
    }

    /// Two states on the same line whose cursors lie in one segment share
    /// that segment's end.
    pub proof fn lemma_same_segment(a: Self, b: Self)
        requires
            a.wf(),
            b.wf(),
            a.graphs() == b.graphs(),
            a.cursor() <= b.cursor() < a.seg_end(),
        ensures
            b.seg_end() == a.seg_end(),
            b.seg_start() == a.seg_start(),
            b.seg_rest() == a.seg_rest().skip(b.cursor() - a.cursor()),
    {
        a.lemma_wf();
        b.lemma_wf();
        if b.seg_end() < a.seg_end() {
            assert(is_seg_point(a.graphs(), b.seg_end()));
        } else if b.seg_end() > a.seg_end() {
            assert(is_seg_point(a.graphs(), a.seg_end()));
        }
        if a.graphs().len() > 0 {
            if b.seg_start() < a.seg_start() {
                assert(is_seg_point(a.graphs(), a.seg_start()));
            } else if b.seg_start() > a.seg_start() {
                assert(is_seg_point(b.graphs(), b.seg_start()));
            }
        }
        assert(b.seg_rest() =~= a.seg_rest().skip(b.cursor() - a.cursor()));
    }


    /// A copy of this state.
    pub fn duplicate(&self) -> (r: Self)
        ensures
            r.graphs() == self.graphs(),
            r.segments() == self.segments(),
            r.line() == self.line(),
            r.cursor() == self.cursor(),
            r.seg_end() == self.seg_end(),
            r.seg_start() == self.seg_start(),
            r.anchor() == self.anchor(),
            r.anchor_len() == self.anchor_len(),
            self.wf() ==> r.wf(),
    {
        let data = clone_graphemes(&self.data);
        let seg_nums = self.seg_nums.clone();
        assert(seg_nums@ =~= self.seg_nums@);
        ParserLine {
            data,
            line_num: self.line_num,
            seg_nums,
            iter_limit: self.iter_limit,
            curr_seg_num: self.curr_seg_num,
            remaining_graphemes: self.remaining_graphemes,
        }
    }

    /// Splits a line into segments.
    pub fn new(input: &str, line_num: usize) -> (r: Self)
        requires
            ends_properly(grapheme_clusters(input@)),
        ensures
            r.wf(),
            r.graphs() == grapheme_clusters(input@),
            r.graphs().flatten() == input@,
            forall|i: int| 0 <= i < r.graphs().len() ==> #[trigger] r.graphs()[i].len() > 0,
            r.line() == line_num,
            r.cursor() == 0,
    {
        let data = graphemes_of(input);
        proof {
            assert forall|i: int| 0 <= i < data.deep_view().len() implies #[trigger] data.deep_view()[i].len() > 0 by {
                assert(data.deep_view()[i] == data@[i]@);
            }
        }
        Self::from_graphemes(data, line_num)
    }

    /// A parser line over `input`, where its last grapheme is neither `=`
    /// nor `,`; `None` where it is.
    pub fn try_new(input: &str, line_num: usize) -> (r: Option<Self>)
        ensures
            r is Some <==> ends_properly(grapheme_clusters(input@)),
            r matches Some(p) ==> {
                &&& p.wf()
                &&& p.graphs() == grapheme_clusters(input@)
                &&& p.graphs().flatten() == input@
                &&& forall|i: int| 0 <= i < p.graphs().len() ==> #[trigger] p.graphs()[i].len() > 0
                &&& p.line() == line_num
                &&& p.cursor() == 0
            },
    {
        let data = graphemes_of(input);
        let n = data.len();
        proof {
            if n > 0 {
                assert(data.deep_view().last() == data@[n - 1]@);
            }
        }
        if n > 0 && (is_tok(&data[n - 1], '=') || is_tok(&data[n - 1], ',')) {
            return None;
        }
        Some(Self::new(input, line_num))
    }

    /// Splits a line, given as graphemes, into segments.
    pub fn from_graphemes(data: Vec<Grapheme>, line_num: usize) -> (r: Self)
        requires
            ends_properly(data.deep_view()),
        ensures
            r.wf(),
            r.graphs() == data.deep_view(),
            r.line() == line_num,
            r.cursor() == 0,
    {
        let seg_nums = Self::find_segments(&data);
        let iter_limit = if seg_nums.len() == 0 {
            0
        } else {
            seg_nums.len() - 1
        };
        let r = ParserLine {
            data,
            line_num,
            seg_nums,
            iter_limit,
            curr_seg_num: 0,
            remaining_graphemes: 0,
        };
        r
    }

    /// A state where `count` graphemes of the segment most recently handed
    /// out are still to be parsed.
    pub fn freeze(pline: Self, count: usize) -> (r: Self)
        ensures
            r == pline.frozen(count),
            r.graphs() == pline.graphs(),
            r.segments() == pline.segments(),
            r.line() == pline.line(),
            r.anchor() == pline.anchor(),
            r.anchor_len() == pline.anchor_len(),
            pline.structure_ok() ==> r.structure_ok(),
            (pline.wf() || pline.structure_ok()) && count <= pline.anchor_len() ==> r.wf() && r.cursor()
                == pline.anchor() - count,
    {
        ParserLine { remaining_graphemes: count, ..pline }
    }

    /// The segment that `next_seg` would hand out, without handing it out.
    pub fn peek(&self) -> (r: Option<TOMLSeg>)
        requires
            self.wf(),
        ensures
            self.cursor() == self.graphs().len() <==> r is None,
            r matches Some(seg) ==> seg.wf() && seg.rest() == self.seg_rest() && seg.contents().len()
                <= self.graphs().len() && seg.contents() == self.graphs().subrange(self.seg_start(), self.seg_end()),
    {
        proof { self.lemma_wf(); }
        if self.remaining_graphemes != 0 {
            let k = self.curr_seg_num - 1;
            let lb = self.seg_nums[k];
            let ub = self.seg_nums[k + 1];
            let graphs = slice_graphemes(&self.data, lb, ub);
            let mut seg = TOMLSeg::from_graphemes(graphs);
            seg.pos = ub - lb - self.remaining_graphemes;
            assert(seg.rest() =~= self.seg_rest());
            Some(seg)
        } else if self.curr_seg_num == self.iter_limit {
            None
        } else {
            let k = self.curr_seg_num;
            let lb = self.seg_nums[k];
            let ub = self.seg_nums[k + 1];
            let graphs = slice_graphemes(&self.data, lb, ub);
            let seg = TOMLSeg::from_graphemes(graphs);
            assert(seg.rest() =~= self.seg_rest());
            Some(seg)
        }
    }

    /// Hands out the rest of the current segment.
    pub fn next_seg(&mut self) -> (r: Option<TOMLSeg>)
        requires
            old(self).wf(),
        ensures
            final(self).wf(),
            final(self).graphs() == old(self).graphs(),
            final(self).segments() == old(self).segments(),
            final(self).line() == old(self).line(),
            *final(self) == old(self).advanced(),
            old(self).cursor() == old(self).graphs().len() <==> r is None,
            r is None ==> *final(self) == *old(self),
            r matches Some(seg) ==> {
                &&& seg.wf()
                &&& seg.rest() == old(self).seg_rest()
                &&& seg.contents() == old(self).graphs().subrange(old(self).seg_start(), old(self).seg_end())
                &&& final(self).cursor() == old(self).seg_end()
                &&& final(self).anchor() == old(self).seg_end()
                &&& seg.rest().len() <= final(self).anchor_len()
            },
    {
        proof { self.lemma_wf(); }
        if self.remaining_graphemes != 0 {
            let k = self.curr_seg_num - 1;
            let lb = self.seg_nums[k];
            let ub = self.seg_nums[k + 1];
            let graphs = slice_graphemes(&self.data, lb, ub);
            let mut seg = TOMLSeg::from_graphemes(graphs);
            seg.pos = ub - lb - self.remaining_graphemes;
            assert(seg.rest() =~= old(self).seg_rest());
            self.remaining_graphemes = 0;
            Some(seg)
        } else if self.curr_seg_num == self.iter_limit {
            None
        } else {
            let k = self.curr_seg_num;
            let lb = self.seg_nums[k];
            let ub = self.seg_nums[k + 1];
            let graphs = slice_graphemes(&self.data, lb, ub);
            let seg = TOMLSeg::from_graphemes(graphs);
            assert(seg.rest() =~= old(self).seg_rest());
            self.curr_seg_num = self.curr_seg_num + 1;
            Some(seg)
        }
    }

    /// Whether the whole line has been handed out.
    pub fn is_exhausted(&self) -> (r: bool)
        requires
            self.wf(),
        ensures
            r == (self.cursor() == self.graphs().len()),
    {
        proof { self.lemma_wf(); }
        self.curr_seg_num == self.iter_limit && self.remaining_graphemes == 0
    }

    pub fn line_num(&self) -> (r: usize)
        ensures
            r == self.line(),
    {
        self.line_num
    }

    /// An empty line.
    pub fn replacement() -> (r: Self)
        ensures
            r.wf(),
            r.graphs().len() == 0,
            r.line() == 0,
            r.cursor() == 0,
    {
        let r = ParserLine {
            data: Vec::new(),
            seg_nums: Vec::new(),
            line_num: 0,
            iter_limit: 0,
            curr_seg_num: 0,
            remaining_graphemes: 0,
        };
        assert(r.data.deep_view() =~= Seq::<Seq<char>>::empty());
        r
    }

    /// Partitions the line into TOML-semantic segments: given
    /// `key = value # comment`, the segments are `|key |=| value |# comment|`.
    fn find_segments(s: &Vec<Grapheme>) -> (r: Vec<usize>)
        requires
            ends_properly(s.deep_view()),
        ensures
            is_segmentation(s.deep_view(), r@),
            r.len() > 0 ==> r@[0] == 0 && r@.last() == s.len(),
    {
        let ghost g = s.deep_view();
        let mut seg_nums: Vec<usize> = Vec::new();
        let n = s.len();
        let mut i: usize = 0;
        while i < n
            invariant
                n == s.len(),
                g == s.deep_view(),
                i <= n,
                i == 0 ==> seg_nums.len() == 0,
                i > 0 ==> seg_nums.len() > 0 && seg_nums@[0] == 0,
                forall|a: int, b: int| 0 <= a < b < seg_nums.len() ==> seg_nums@[a] < seg_nums@[b],
                forall|a: int| 0 <= a < seg_nums.len() ==> is_seg_point(g, #[trigger] seg_nums@[a] as int),
                forall|a: int| 0 <= a < seg_nums.len() ==> #[trigger] seg_nums@[a] <= i,
                forall|x: int| 0 <= x < i && (#[trigger] g[x] == tok('#') || g[x] == tok('=') || g[x] == tok(',')) ==> exists|a: int|
                    0 <= a < seg_nums.len() && #[trigger] seg_nums@[a] == x,
                forall|y: int| 0 <= y < i && (#[trigger] g[y] == tok('=') || g[y] == tok(',')) ==> exists|a: int|
                    0 <= a < seg_nums.len() && #[trigger] seg_nums@[a] == y + 1,
            decreases n - i,
        {
            proof { lemma_chars_deep_view(s@[i as int]); }
            let ghost old_segs = seg_nums@;
            let g_i = &s[i];
            let special = is_tok(g_i, '#') || is_tok(g_i, '=') || is_tok(g_i, ',');
            if i == 0 {
                seg_nums.push(0);
            } else if special && seg_nums[seg_nums.len() - 1] < i {
                seg_nums.push(i);
            }
            let ghost mid_segs = seg_nums@;
            assert(mid_segs.len() > 0 && mid_segs.last() == i ==> forall|a: int| 0 <= a < mid_segs.len() ==> #[trigger] mid_segs[a] <= i);
            assert(special ==> mid_segs.last() == i);
            if is_tok(g_i, '=') || is_tok(g_i, ',') {
                seg_nums.push(i + 1);
            }
            proof {
                assert forall|x: int| 0 <= x < i + 1 && (#[trigger] g[x] == tok('#') || g[x] == tok('=') || g[x] == tok(',')) implies exists|a: int|
                    0 <= a < seg_nums.len() && #[trigger] seg_nums@[a] == x by {
                    if x < i {
                        let a = choose|a: int| 0 <= a < old_segs.len() && #[trigger] old_segs[a] == x;
                        assert(seg_nums@[a] == x);
                    } else {
                        assert(seg_nums@[mid_segs.len() - 1] == x);
                    }
                }
                assert forall|y: int| 0 <= y < i + 1 && (#[trigger] g[y] == tok('=') || g[y] == tok(',')) implies exists|a: int|
                    0 <= a < seg_nums.len() && #[trigger] seg_nums@[a] == y + 1 by {
                    if y < i {
                        let a = choose|a: int| 0 <= a < old_segs.len() && #[trigger] old_segs[a] == y + 1;
                        assert(seg_nums@[a] == y + 1);
                    } else {
                        assert(seg_nums@[seg_nums.len() - 1] == y + 1);
                    }
                }
            }
            i = i + 1;
        }
        let ghost pre = seg_nums@;
        if n > 0 && seg_nums[seg_nums.len() - 1] < n {
            seg_nums.push(n);
        }
        proof {
            if n > 0 {
                assert(seg_nums@.last() == n);
                assert forall|x: int| 0 <= x <= n && is_seg_point(g, x) implies exists|a: int|
                    0 <= a < seg_nums.len() && #[trigger] seg_nums@[a] == x by {
                    if x == n {
                        assert(seg_nums@[seg_nums.len() - 1] == n);
                    } else if x == 0 {
                        assert(seg_nums@[0] == 0);
                    } else if g[x] == tok('#') || g[x] == tok('=') || g[x] == tok(',') {
                        let a = choose|a: int| 0 <= a < pre.len() && #[trigger] pre[a] == x;
                        assert(seg_nums@[a] == x);
                    } else {
                        let y = x - 1;
                        assert(g[y] == tok('=') || g[y] == tok(','));
                        let a = choose|a: int| 0 <= a < pre.len() && #[trigger] pre[a] == y + 1;
                        assert(seg_nums@[a] == x);
                    }
                }
            }
        }
        seg_nums
    }
}

} // verus!

verus! {

/// The segments that successive hand-outs give from `p` until the line is
/// used up.
pub open spec fn segments_from(p: ParserLine) -> Seq<Seq<Seq<char>>>
    decreases p.graphs().len() - p.cursor(),
{
    if p.wf() && p.cursor() < p.graphs().len() {
        proof {
            p.lemma_wf();
            p.lemma_advanced();
        }
        seq![p.seg_rest()] + segments_from(p.advanced())
    } else {
        Seq::empty()
    }
}

/// The segments handed out one after another make up the rest of the line,
/// none of them empty; each ends at a segment boundary of the line.
pub proof fn law_segments_make_up_line(p: ParserLine)
    requires
        p.wf(),
    ensures
        segments_from(p).flatten() == p.rest(),
        forall|i: int| 0 <= i < segments_from(p).len() ==> #[trigger] segments_from(p)[i].len() > 0,
        segments_from(p).len() == 0 <==> p.rest().len() == 0,
    decreases p.graphs().len() - p.cursor(),
{
    p.lemma_wf();
    p.lemma_advanced();
    let s = segments_from(p);
    if p.cursor() < p.graphs().len() {
        let q = p.advanced();
        law_segments_make_up_line(q);
        let t = segments_from(q);
        assert(s == seq![p.seg_rest()] + t);
        assert(s.drop_first() =~= t);
        assert(s.first() == p.seg_rest());
        assert(p.seg_rest() + q.rest() =~= p.rest());
        assert forall|i: int| 0 <= i < s.len() implies #[trigger] s[i].len() > 0 by {
            if i > 0 {
                assert(s[i] == t[i - 1]);
            }
        }
    } else {
        assert(p.rest() =~= Seq::<Seq<char>>::empty());
    }
}

/// Freezing after a hand-out, with `k` graphemes of the segment left,
/// makes the next hand-out give exactly those `k` graphemes, and leaves the
/// state that the first hand-out left.
pub proof fn law_freeze_resumes(q: ParserLine, k: usize)
    requires
        q.wf(),
        q.cursor() == q.anchor(),
        0 < k <= q.anchor_len(),
    ensures
        q.frozen(k).wf(),
        q.frozen(k).seg_rest() == q.graphs().subrange(q.anchor() - k, q.anchor()),
        q.frozen(k).advanced() == q,
{
    q.lemma_wf();
    let f = q.frozen(k);
    f.lemma_wf();
    f.lemma_advanced();
    assert(f.seg_end() == q.anchor());
    assert(f.advanced() =~= q);
}

/// Freezing keeps the line, its graphemes and segments, and sets only how
/// much of the last segment is left: freezing twice is freezing once with
/// the second count. With some graphemes left the line is not used up.
pub proof fn law_freeze_twice(p: ParserLine, a: usize, c: usize)
    ensures
        p.frozen(a).frozen(c) == p.frozen(c),
        p.frozen(c).line() == p.line(),
        p.frozen(c).graphs() == p.graphs(),
        p.frozen(c).segments() == p.segments(),
        p.wf() && 0 < c <= p.anchor_len() ==> p.frozen(c).wf() && p.frozen(c).cursor() < p.graphs().len(),
{
    if p.wf() && 0 < c <= p.anchor_len() {
        p.lemma_wf();
        p.frozen(c).lemma_wf();
    }
}

} // verus!

verus! {

/// A path of keys through a table structure, held as the keys joined by a
/// delimiter.
#[derive(Clone, Debug)]
pub struct TPath {
    delimiter: String,
    content: String,
}

impl TPath {
    /// The keys joined by the delimiter.
    pub closed spec fn content(self) -> Seq<char> {
        self.content@
    }

    /// The delimiter.
    pub closed spec fn delim(self) -> Seq<char> {
        self.delimiter@
    }

    /// The keys of the path, as iterating it yields them.
    pub open spec fn keys(self) -> Seq<Seq<char>> {
        split_on(self.content(), self.delim())
    }

    /// A path made of the given keys; `None` when there are none.
    pub fn new(segments: Vec<String>, delimiter: &str) -> (r: Option<TPath>)
        ensures
            segments.len() == 0 <==> r is None,
            r matches Some(p) ==> p.content() == join_with(segments.deep_view(), delimiter@)
                && p.delim() == delimiter@,
    {
        if segments.len() == 0 {
            return None;
        }
        let ghost segs = segments.deep_view();
        let num_delimiters = segments.len() - 1;
        let mut content = String::new();
        content.append(segments[0].as_str());
        assert(segs.take(1) =~= seq![segs[0]]);
        let mut i: usize = 1;
        while i <= num_delimiters
            invariant
                segs == segments.deep_view(),
                num_delimiters + 1 == segments.len(),
                1 <= i <= num_delimiters + 1,
                content@ == join_with(segs.take(i as int), delimiter@),
            decreases num_delimiters + 1 - i,
        {
            content.append(delimiter);
            content.append(segments[i].as_str());
            proof {
                lemma_join_push(segs.take(i as int), segs[i as int], delimiter@);
                assert(segs.take(i as int).push(segs[i as int]) =~= segs.take(i + 1));
            }
            i = i + 1;
        }
        assert(segs.take(segments.len() as int) =~= segs);
        Some(TPath { delimiter: String::from_str(delimiter), content })
    }

    /// A path that `new` made from keys none of which holds its
    /// one-character delimiter gives those keys back.
    pub proof fn law_keys_of_new(self, segs: Seq<Seq<char>>)
        requires
            segs.len() > 0,
            self.delim().len() == 1,
            free_of(segs, self.delim()),
            self.content() == join_with(segs, self.delim()),
        ensures
            self.keys() == segs,
    {
        law_split_join(segs, self.delim());
    }

    /// The keys of the path.
    pub fn segments(&self) -> (r: Vec<String>)
        ensures
            r.deep_view() == self.keys(),
    {
        let c = chars_of(self.content.as_str());
        let d = chars_of(self.delimiter.as_str());
        let parts = split_chars(&c, &d);
        let mut out: Vec<String> = Vec::new();
        let mut i: usize = 0;
        while i < parts.len()
            invariant
                i <= parts.len(),
                out.len() == i,
                forall|j: int| 0 <= j < i ==> (#[trigger] out@[j])@ == parts@[j]@,
            decreases parts.len() - i,
        {
            out.push(string_from_chars(&parts[i]));
            i = i + 1;
        }
        proof {
            assert forall|j: int| 0 <= j < out.len() implies out.deep_view()[j] == parts.deep_view()[j] by {
                lemma_chars_deep_view(parts@[j]);
            }
            assert(out.deep_view() =~= parts.deep_view());
        }
        out
    }

    /// The first key of the path.
    pub fn first(&self) -> (r: String)
        ensures
            r@ == self.keys()[0],
    {
        let parts = self.segments();
        proof { lemma_split_nonempty(self.content(), self.delim()); }
        parts[0].clone()
    }

    /// The last key of the path.
    pub fn last(&self) -> (r: String)
        ensures
            r@ == self.keys().last(),
    {
        let parts = self.segments();
        proof { lemma_split_nonempty(self.content(), self.delim()); }
        parts[parts.len() - 1].clone()
    }

    /// A copy of the path.
    pub fn duplicate(&self) -> (r: TPath)
        ensures
            r.content() == self.content(),
            r.delim() == self.delim(),
    {
        TPath { delimiter: self.delimiter.clone(), content: self.content.clone() }
    }

    /// The path written out, keys joined by the delimiter.
    pub fn as_string(&self) -> (r: String)
        ensures
            r@ == self.content(),
    {
        self.content.clone()
    }
}

impl PartialEq for TPath {
    fn eq(&self, other: &Self) -> (r: bool) {
        self.content == other.content
    }
}

impl vstd::std_specs::cmp::PartialEqSpecImpl for TPath {
    open spec fn obeys_eq_spec() -> bool {
        true
    }

    open spec fn eq_spec(&self, other: &Self) -> bool {
        self.content() == other.content()
    }
}

impl Eq for TPath {
}

} // verus!

verus! {

/// A reading position on one line that runs on across its segments: the
/// context and the segment last handed out from it.
pub struct LineCursor {
    ctx: ParserLine,
    seg: TOMLSeg,
}

impl LineCursor {
    /// The graphemes of the line.
    pub closed spec fn graphs(self) -> Seq<Seq<char>> {
        self.ctx.graphs()
    }

    /// The segment boundaries of the line.
    pub closed spec fn segments(self) -> Seq<usize> {
        self.ctx.segments()
    }

    /// The line's number in its file.
    pub closed spec fn line(self) -> nat {
        self.ctx.line()
    }

    /// The position of the next grapheme to be read.
    pub closed spec fn pos(self) -> int {
        self.ctx.anchor() - self.seg.rest().len()
    }

    pub closed spec fn wf(self) -> bool {
        &&& self.ctx.wf()
        &&& self.seg.wf()
        &&& self.ctx.cursor() == self.ctx.anchor()
        &&& 0 <= self.pos()
        &&& self.seg.rest() == self.ctx.graphs().subrange(self.pos(), self.ctx.anchor())
        &&& self.seg.rest().len() <= self.ctx.anchor_len()
    }

    /// The graphemes not read yet.
    pub open spec fn rest(self) -> Seq<Seq<char>> {
        self.graphs().skip(self.pos())
    }

    pub proof fn lemma_bounds(self)
        requires
            self.wf(),
        ensures
            0 <= self.pos() <= self.graphs().len(),
    {
        self.ctx.lemma_wf();
    }

    /// A cursor at the context's position.
    pub fn start(context: ParserLine) -> (r: Self)
        requires
            context.wf(),
        ensures
            r.wf(),
            r.graphs() == context.graphs(),
            r.segments() == context.segments(),
            r.line() == context.line(),
            r.pos() == context.cursor(),
    {
        let mut ctx = context;
        proof { context.lemma_wf(); }
        match ctx.next_seg() {
            Some(seg) => {
                proof { ctx.lemma_wf(); }
                let r = LineCursor { ctx, seg };
                assert(r.pos() == context.cursor());
                assert(r.seg.rest() =~= r.ctx.graphs().subrange(r.pos(), r.ctx.anchor()));
                r
            },
            None => {
                let seg = TOMLSeg::default();
                assert(seg.rest() =~= Seq::<Seq<char>>::empty());
                proof { ctx.lemma_wf(); }
                let r = LineCursor { ctx, seg };
                assert(r.seg.rest() =~= r.ctx.graphs().subrange(r.pos(), r.ctx.anchor()));
                r
            },
        }
    }

    /// Reads the next grapheme of the line, if any is left.
    pub fn next(&mut self) -> (r: Option<Grapheme>)
        requires
            old(self).wf(),
        ensures
            final(self).wf(),
            final(self).graphs() == old(self).graphs(),
            final(self).segments() == old(self).segments(),
            final(self).line() == old(self).line(),
            old(self).pos() < old(self).graphs().len() ==> (r matches Some(g) && g@ == old(self).graphs()[old(self).pos()])
                && final(self).pos() == old(self).pos() + 1,
            old(self).pos() >= old(self).graphs().len() ==> r is None && final(self).pos() == old(self).pos(),
    {
        proof { self.lemma_bounds(); self.ctx.lemma_wf(); }
        match self.seg.next() {
            Some(g) => {
                assert(self.seg.rest() =~= self.ctx.graphs().subrange(self.pos(), self.ctx.anchor()));
                Some(g)
            },
            None => {
                match self.ctx.next_seg() {
                    None => None,
                    Some(s) => {
                        self.seg = s;
                        proof { self.ctx.lemma_wf(); }
                        let g = self.seg.next();
                        assert(self.seg.rest() =~= self.ctx.graphs().subrange(self.pos(), self.ctx.anchor()));
                        g
                    },
                }
            },
        }
    }

    /// The next grapheme of the line, without reading it.
    pub fn peek(&mut self) -> (r: Option<Grapheme>)
        requires
            old(self).wf(),
        ensures
            final(self).wf(),
            final(self).graphs() == old(self).graphs(),
            final(self).segments() == old(self).segments(),
            final(self).line() == old(self).line(),
            final(self).pos() == old(self).pos(),
            old(self).pos() < old(self).graphs().len() ==> (r matches Some(g) && g@ == old(self).graphs()[old(self).pos()]),
            old(self).pos() >= old(self).graphs().len() ==> r is None,
    {
        proof { self.lemma_bounds(); self.ctx.lemma_wf(); }
        if self.seg.peek().is_none() {
            match self.ctx.next_seg() {
                None => {
                    return None;
                },
                Some(s) => {
                    self.seg = s;
                    proof { self.ctx.lemma_wf(); }
                    assert(self.seg.rest() =~= self.ctx.graphs().subrange(self.pos(), self.ctx.anchor()));
                },
            }
        }
        match self.seg.peek() {
            Some(g) => {
                let r = g.clone();
                proof {
                    lemma_chars_deep_view(*g);
                    assert(r@ =~= g@);
                }
                Some(r)
            },
            None => None,
        }
    }

    /// The number of the line.
    pub fn line_num(&self) -> (r: usize)
        ensures
            r == self.line(),
    {
        self.ctx.line_num()
    }

    /// The context resumed at the cursor's position.
    pub fn finish(self) -> (r: ParserLine)
        requires
            self.wf(),
        ensures
            r.wf(),
            r.graphs() == self.graphs(),
            r.segments() == self.segments(),
            r.line() == self.line(),
            r.cursor() == self.pos(),
    {
        let count = self.seg.count();
        ParserLine::freeze(self.ctx, count)
    }
}

} // verus!
