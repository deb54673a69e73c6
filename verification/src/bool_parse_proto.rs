//! Reading a boolean from a line, without allocating for its words.
use vstd::prelude::*;
use crate::text::{Grapheme, tok, is_tok, grapheme_clusters, graphemes_of, slice_graphemes, lemma_chars_deep_view};

verus! {

/// Space, tab or line feed.
pub open spec fn is_blank(g: Seq<char>) -> bool {
    g == tok(' ') || g == tok('\t') || g == tok('\n')
}

/// The number of blank graphemes at the start of `s`.
pub open spec fn lead_blank_count(s: Seq<Seq<char>>) -> int
    decreases s.len(),
{
    if s.len() > 0 && is_blank(s[0]) {
        1 + lead_blank_count(s.drop_first())
    } else {
        0
    }
}

/// The graphemes of the word `w` stand in `s` from position `i` on.
pub open spec fn word_at(s: Seq<Seq<char>>, i: int, w: Seq<char>) -> bool {
    0 <= i && i + w.len() <= s.len() && forall|j: int| 0 <= j < w.len() ==> #[trigger] s[i + j] == tok(w[j])
}

/// What the first hundred graphemes of a line make of a boolean: `true` or
/// `false` between blanks, else nothing.
pub open spec fn proto_bool(s: Seq<Seq<char>>) -> Option<bool> {
    let w = lead_blank_count(s);
    if w >= s.len() {
        None
    } else if s[w] == tok('t') {
        if word_at(s, w, seq!['t', 'r', 'u', 'e']) && forall|j: int| w + 4 <= j < s.len() ==> #[trigger] is_blank(s[j]) {
            Some(true)
        } else {
            None
        }
    } else if s[w] == tok('f') {
        if word_at(s, w, seq!['f', 'a', 'l', 's', 'e']) && forall|j: int| w + 5 <= j < s.len() ==> #[trigger] is_blank(s[j]) {
            Some(false)
        } else {
            None
        }
    } else {
        None
    }
}

/// The graphemes of a line that the reading looks at: the first hundred.
pub open spec fn first_hundred(s: Seq<char>) -> Seq<Seq<char>> {
    let g = grapheme_clusters(s);
    if g.len() <= 100 { g } else { g.take(100) }
}

proof fn lemma_lead_blank_count(s: Seq<Seq<char>>)
    ensures
        0 <= lead_blank_count(s) <= s.len(),
        forall|i: int| 0 <= i < lead_blank_count(s) ==> #[trigger] is_blank(s[i]),
        lead_blank_count(s) < s.len() ==> !is_blank(s[lead_blank_count(s)]),
    decreases s.len(),
{
    if s.len() > 0 && is_blank(s[0]) {
        lemma_lead_blank_count(s.drop_first());
        assert forall|i: int| 0 <= i < lead_blank_count(s) implies #[trigger] is_blank(s[i]) by {
            if i > 0 {
                assert(s[i] == s.drop_first()[i - 1]);
            }
        }
    }
}

fn is_blank_exec(g: &Grapheme) -> (r: bool)
    ensures
        r == is_blank(g@),
{
    is_tok(g, ' ') || is_tok(g, '\t') || is_tok(g, '\n')
}

/// Whether the word's graphemes stand at position `i`, and the rest after
/// it is blank.
fn word_then_blanks(g: &Vec<Grapheme>, i: usize, w: &[char]) -> (r: bool)
    requires
        i <= g.len(),
    ensures
        r == (word_at(g.deep_view(), i as int, w@) && forall|j: int| i + w@.len() <= j < g.len() ==> #[trigger] is_blank(g.deep_view()[j])),
{
    let ghost s = g.deep_view();
    if w.len() > g.len() - i {
        return false;
    }
    let mut j: usize = 0;
    while j < w.len()
        invariant
            s == g.deep_view(),
            i + w.len() <= g.len(),
            j <= w.len(),
            forall|m: int| 0 <= m < j ==> #[trigger] s[i + m] == tok(w@[m]),
        decreases w.len() - j,
    {
        proof { lemma_chars_deep_view(g@[i + j]); }
        if !is_tok(&g[i + j], w[j]) {
            assert(!(s[i + j as int] == tok(w@[j as int])));
            return false;
        }
        j = j + 1;
    }
    let mut k: usize = i + w.len();
    while k < g.len()
        invariant
            s == g.deep_view(),
            i + w.len() <= k <= g.len(),
            forall|m: int| i + w@.len() <= m < k ==> #[trigger] is_blank(s[m]),
        decreases g.len() - k,
    {
        proof { lemma_chars_deep_view(g@[k as int]); }
        if !is_blank_exec(&g[k]) {
            assert(!is_blank(s[k as int]));
            return false;
        }
        k = k + 1;
    }
    true
}

/// Reads `true` or `false`, between blanks, from the first hundred
/// graphemes of a line.
pub fn parse_bool(s: &str) -> (r: Option<bool>)
    ensures
        r == proto_bool(first_hundred(s@)),
{
    let all = graphemes_of(s);
    let n = if all.len() <= 100 { all.len() } else { 100 };
    let seg = slice_graphemes(&all, 0, n);
    assert(seg.deep_view() =~= first_hundred(s@));
    bool_of_graphemes(&seg)
}

/// Reads `true` or `false`, between blanks, from graphemes.
pub fn bool_of_graphemes(seg: &Vec<Grapheme>) -> (r: Option<bool>)
    ensures
        r == proto_bool(seg.deep_view()),
{
    let ghost g = seg.deep_view();
    proof { lemma_lead_blank_count(g); }
    let mut w: usize = 0;
    while w < seg.len() && is_blank_exec(&seg[w])
        invariant
            g == seg.deep_view(),
            w <= seg.len(),
            w <= lead_blank_count(g),
            forall|i: int| 0 <= i < lead_blank_count(g) ==> #[trigger] is_blank(g[i]),
            lead_blank_count(g) < g.len() ==> !is_blank(g[lead_blank_count(g)]),
            lead_blank_count(g) <= g.len(),
        decreases seg.len() - w,
    {
        proof { lemma_chars_deep_view(seg@[w as int]); }
        w = w + 1;
    }
    proof {
        if w < seg.len() {
            lemma_chars_deep_view(seg@[w as int]);
            assert(!is_blank(g[w as int]));
        }
        if w < lead_blank_count(g) {
            assert(is_blank(g[w as int]));
        }
    }
    assert(w == lead_blank_count(g));
    if w >= seg.len() {
        return None;
    }
    proof { lemma_chars_deep_view(seg@[w as int]); }
    if is_tok(&seg[w], 't') {
        if word_then_blanks(seg, w, &['t', 'r', 'u', 'e']) {
            Some(true)
        } else {
            None
        }
    } else if is_tok(&seg[w], 'f') {
        if word_then_blanks(seg, w, &['f', 'a', 'l', 's', 'e']) {
            Some(false)
        } else {
            None
        }
    } else {
        None
    }
}

} // verus!
