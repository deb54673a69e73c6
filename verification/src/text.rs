//! Text utilities: grapheme clusters, characters and strings.
//!
//! Lines of TOML are handled as sequences of extended grapheme clusters,
//! each of which is held as a vector of `char`s.
use unicode_segmentation::UnicodeSegmentation;
use vstd::prelude::*;

verus! {

/// A single extended grapheme cluster.
pub type Grapheme = Vec<char>;

/// The extended grapheme clusters of a string, as computed by the
/// `unicode-segmentation` crate.
pub uninterp spec fn grapheme_clusters(s: Seq<char>) -> Seq<Seq<char>>;

/// `UnicodeSegmentation::graphemes(s, true)` of `unicode-segmentation`.
///
/// Claimed: the clusters are the named `grapheme_clusters(s@)`; they are
/// non-empty, and in order they make up the whole string (the crate hands
/// out consecutive slices `s[start..next]` from the first byte to the last).
#[verifier::external_body]
fn split_graphemes(s: &str) -> (r: Vec<String>)
    ensures
        r.deep_view() == grapheme_clusters(s@),
        r.deep_view().flatten() == s@,
        forall|i: int| 0 <= i < r.len() ==> (#[trigger] r@[i])@.len() > 0,
{
    s.graphemes(true).map(|g| g.to_string()).collect()
}

/// `<Vec<char> as Iterator<Item = char>>::collect::<String>()` of std.
///
/// Claimed: the string holds exactly the given characters in order.
#[verifier::external_body]
pub fn string_from_chars(v: &Vec<char>) -> (r: String)
    ensures
        r@ == v@,
{
    v.iter().collect()
}

/// `std::char::from_u32` of std.
///
/// Claimed, as its documentation states: `Some` exactly for the Unicode
/// scalar values (below 0x110000 and outside the surrogate range).
#[verifier::external_body]
pub fn char_from_u32(v: u32) -> (r: Option<char>)
    ensures
        r == (if is_scalar_value(v as int) { Some(v as char) } else { None::<char> }),
{
    std::char::from_u32(v)
}

/// A Unicode scalar value: a code point that is not a surrogate.
pub open spec fn is_scalar_value(v: int) -> bool {
    &&& 0 <= v < 0x110000
    &&& !(0xD800 <= v <= 0xDFFF)
}

/// The characters of a string slice, in order.
pub fn chars_of(s: &str) -> (r: Vec<char>)
    ensures
        r@ == s@,
{
    let n = s.unicode_len();
    let mut out: Vec<char> = Vec::new();
    let mut i: usize = 0;
    while i < n
        invariant
            n == s@.len(),
            i <= n,
            out@ == s@.subrange(0, i as int),
        decreases n - i,
    {
        out.push(s.get_char(i));
        i = i + 1;
    }
    assert(out@ == s@);
    out
}

/// The grapheme clusters of a string, each as a vector of characters.
pub fn graphemes_of(s: &str) -> (r: Vec<Grapheme>)
    ensures
        r.deep_view() == grapheme_clusters(s@),
        r.deep_view().flatten() == s@,
        forall|i: int| 0 <= i < r.len() ==> (#[trigger] r@[i])@.len() > 0,
{
    let strings = split_graphemes(s);
    let mut out: Vec<Grapheme> = Vec::new();
    let mut i: usize = 0;
    while i < strings.len()
        invariant
            i <= strings.len(),
            out.len() == i,
            forall|j: int| 0 <= j < i ==> (#[trigger] out@[j])@ == strings@[j]@,
        decreases strings.len() - i,
    {
        let g = chars_of(strings[i].as_str());
        out.push(g);
        i = i + 1;
    }
    assert forall|j: int| 0 <= j < out.len() implies out.deep_view()[j] == strings.deep_view()[j] by {
        lemma_chars_deep_view(out@[j]);
    }
    assert(out.deep_view() =~= strings.deep_view());
    out
}

/// For a vector of characters the deep view and the view agree.
pub proof fn lemma_chars_deep_view(v: Vec<char>)
    ensures
        v.deep_view() == v@,
{
    assert(v.deep_view() =~= v@);
}

} // verus!

verus! {

/// The grapheme made of the single character `c`.
pub open spec fn tok(c: char) -> Seq<char> {
    seq![c]
}

/// Whether the grapheme `g` is exactly the single character `c`.
pub fn is_tok(g: &Grapheme, c: char) -> (r: bool)
    ensures
        r == (g@ == tok(c)),
{
    if g.len() == 1 {
        let r = g[0] == c;
        assert(r ==> g@ =~= tok(c));
        r
    } else {
        assert(g@.len() != tok(c).len());
        false
    }
}

/// Whether the optional grapheme is exactly the single character `c`.
pub fn is_some_tok(g: Option<&Grapheme>, c: char) -> (r: bool)
    ensures
        r == (g matches Some(x) && x@ == tok(c)),
{
    match g {
        Some(x) => is_tok(x, c),
        None => false,
    }
}

/// A copy of a vector of graphemes.
pub fn clone_graphemes(v: &Vec<Grapheme>) -> (r: Vec<Grapheme>)
    ensures
        r.deep_view() == v.deep_view(),
{
    let mut out: Vec<Grapheme> = Vec::new();
    let mut i: usize = 0;
    while i < v.len()
        invariant
            i <= v.len(),
            out.len() == i,
            forall|j: int| 0 <= j < i ==> (#[trigger] out@[j])@ == v@[j]@,
        decreases v.len() - i,
    {
        let g = v[i].clone();
        assert(g@ =~= v@[i as int]@);
        out.push(g);
        i = i + 1;
    }
    assert forall|j: int| 0 <= j < out.len() implies out.deep_view()[j] == v.deep_view()[j] by {
        lemma_chars_deep_view(out@[j]);
        lemma_chars_deep_view(v@[j]);
    }
    assert(out.deep_view() =~= v.deep_view());
    out
}

/// The graphemes `v[lo..hi]`, copied.
pub fn slice_graphemes(v: &Vec<Grapheme>, lo: usize, hi: usize) -> (r: Vec<Grapheme>)
    requires
        lo <= hi <= v.len(),
    ensures
        r.deep_view() == v.deep_view().subrange(lo as int, hi as int),
{
    let mut out: Vec<Grapheme> = Vec::new();
    let mut i: usize = lo;
    while i < hi
        invariant
            lo <= i <= hi <= v.len(),
            out.len() == i - lo,
            forall|j: int| 0 <= j < i - lo ==> (#[trigger] out@[j])@ == v@[j + lo]@,
        decreases hi - i,
    {
        let g = v[i].clone();
        assert(g@ =~= v@[i as int]@);
        out.push(g);
        i = i + 1;
    }
    assert forall|j: int| 0 <= j < out.len() implies out.deep_view()[j] == v.deep_view().subrange(
        lo as int,
        hi as int,
    )[j] by {
        lemma_chars_deep_view(out@[j]);
        lemma_chars_deep_view(v@[j + lo]);
    }
    assert(out.deep_view() =~= v.deep_view().subrange(lo as int, hi as int));
    out
}

} // verus!

verus! {

/// Flattening a sequence extended by one element appends that element.
pub proof fn lemma_flatten_push(s: Seq<Seq<char>>, x: Seq<char>)
    ensures
        s.push(x).flatten() == s.flatten() + x,
    decreases s.len(),
{
    if s.len() == 0 {
        assert(s.push(x).drop_first() =~= Seq::<Seq<char>>::empty());
        assert(s.push(x).flatten() =~= x + Seq::<Seq<char>>::empty().flatten());
        assert(s.flatten() + x =~= x);
    } else {
        lemma_flatten_push(s.drop_first(), x);
        assert(s.push(x).drop_first() =~= s.drop_first().push(x));
        assert(s.push(x).flatten() =~= s.first() + (s.drop_first().flatten() + x));
    }
}

} // verus!

verus! {

/// `s` has the (non-empty) pattern `d` at position `i`.
pub open spec fn matches_at(s: Seq<char>, d: Seq<char>, i: int) -> bool {
    0 <= i && i + d.len() <= s.len() && s.subrange(i, i + d.len()) == d
}

/// The leftmost position of the pattern `d` in `s`, if any.
pub open spec fn find_from(s: Seq<char>, d: Seq<char>, i: int) -> Option<int>
    decreases s.len() - i,
{
    if i < 0 || i + d.len() > s.len() {
        None
    } else if matches_at(s, d, i) {
        Some(i)
    } else {
        proof {
            assert(d.len() > 0) by {
                if d.len() == 0 {
                    assert(s.subrange(i, i + d.len()) =~= d);
                }
            }
        }
        find_from(s, d, i + 1)
    }
}

/// The pieces of `s` between the non-overlapping, leftmost-first occurrences
/// of `d`; an empty pattern splits before and after every character, as
/// `str::split` does.
pub open spec fn split_on(s: Seq<char>, d: Seq<char>) -> Seq<Seq<char>>
    decreases s.len(),
{
    if d.len() == 0 {
        seq![Seq::<char>::empty()] + Seq::new(s.len(), |i: int| seq![s[i]]) + seq![
            Seq::<char>::empty(),
        ]
    } else {
        match find_from(s, d, 0) {
            None => seq![s],
            Some(i) => if 0 <= i && i + d.len() <= s.len() {
                proof {
                    assert(s.subrange(i + d.len(), s.len() as int).len() < s.len());
                }
                seq![s.subrange(0, i)] + split_on(s.subrange(i + d.len(), s.len() as int), d)
            } else {
                seq![s]
            },
        }
    }
}

/// The pieces joined with `d` between neighbours.
pub open spec fn join_with(segs: Seq<Seq<char>>, d: Seq<char>) -> Seq<char>
    decreases segs.len(),
{
    if segs.len() == 0 {
        Seq::empty()
    } else if segs.len() == 1 {
        segs[0]
    } else {
        segs[0] + d + join_with(segs.drop_first(), d)
    }
}

pub proof fn lemma_find_from_bounds(s: Seq<char>, d: Seq<char>, i: int)
    requires
        0 <= i,
    ensures
        find_from(s, d, i) matches Some(j) ==> i <= j && matches_at(s, d, j) && forall|k: int|
            i <= k < j ==> !#[trigger] matches_at(s, d, k),
        find_from(s, d, i) is None ==> forall|k: int| i <= k ==> !#[trigger] matches_at(s, d, k),
    decreases s.len() - i,
{
    if i + d.len() > s.len() {
    } else if matches_at(s, d, i) {
    } else {
        assert(d.len() > 0) by {
            if d.len() == 0 {
                assert(s.subrange(i, i + d.len()) =~= d);
            }
        }
        lemma_find_from_bounds(s, d, i + 1);
    }
}

} // verus!

verus! {

proof fn lemma_find_first(s: Seq<char>, d: Seq<char>, m: int, j: int)
    requires
        0 <= m <= j,
        matches_at(s, d, j),
        forall|k: int| m <= k < j ==> !#[trigger] matches_at(s, d, k),
    ensures
        find_from(s, d, m) == Some(j),
    decreases j - m,
{
    if m < j {
        assert(!matches_at(s, d, m));
        lemma_find_first(s, d, m + 1, j);
    }
}

proof fn lemma_find_none(s: Seq<char>, d: Seq<char>, m: int)
    requires
        0 <= m,
        forall|k: int| m <= k ==> !#[trigger] matches_at(s, d, k),
    ensures
        find_from(s, d, m) is None,
    decreases s.len() - m,
{
    if m + d.len() <= s.len() {
        assert(!matches_at(s, d, m));
        assert(d.len() > 0) by {
            if d.len() == 0 {
                assert(s.subrange(m, m + d.len()) =~= d);
            }
        }
        lemma_find_none(s, d, m + 1);
    }
}

/// Whether `s` has the pattern `d` at position `i`.
fn matches_at_exec(s: &Vec<char>, d: &Vec<char>, i: usize) -> (r: bool)
    requires
        i <= s.len(),
    ensures
        r == matches_at(s@, d@, i as int),
{
    if d.len() > s.len() - i {
        return false;
    }
    let mut k: usize = 0;
    while k < d.len()
        invariant
            i + d.len() <= s.len(),
            k <= d.len(),
            forall|t: int| 0 <= t < k ==> s@[i + t] == d@[t],
        decreases d.len() - k,
    {
        if s[i + k] != d[k] {
            assert(s@.subrange(i as int, i + d.len())[k as int] != d@[k as int]);
            return false;
        }
        k = k + 1;
    }
    assert(s@.subrange(i as int, i + d.len()) =~= d@);
    true
}

/// The characters `s[lo..hi]`.
pub fn sub_chars(s: &Vec<char>, lo: usize, hi: usize) -> (r: Vec<char>)
    requires
        lo <= hi <= s.len(),
    ensures
        r@ == s@.subrange(lo as int, hi as int),
{
    let mut out: Vec<char> = Vec::new();
    let mut i = lo;
    while i < hi
        invariant
            lo <= i <= hi <= s.len(),
            out@ == s@.subrange(lo as int, i as int),
        decreases hi - i,
    {
        out.push(s[i]);
        i = i + 1;
        assert(out@ =~= s@.subrange(lo as int, i as int));
    }
    out
}

/// Splits `s` on the pattern `d`, as `str::split` does.
pub fn split_chars(s: &Vec<char>, d: &Vec<char>) -> (r: Vec<Vec<char>>)
    ensures
        r.deep_view() == split_on(s@, d@),
{
    let mut out: Vec<Vec<char>> = Vec::new();
    if d.len() == 0 {
        out.push(Vec::new());
        let mut i: usize = 0;
        while i < s.len()
            invariant
                i <= s.len(),
                out.len() == i + 1,
                out@[0]@ == Seq::<char>::empty(),
                forall|t: int| 1 <= t <= i ==> (#[trigger] out@[t])@ == seq![s@[t - 1]],
            decreases s.len() - i,
        {
            let mut piece: Vec<char> = Vec::new();
            piece.push(s[i]);
            out.push(piece);
            i = i + 1;
        }
        out.push(Vec::new());
        proof {
            assert forall|t: int| 0 <= t < out.len() implies out.deep_view()[t] == split_on(s@, d@)[t] by {
                lemma_chars_deep_view(out@[t]);
            }
        }
        assert(out.deep_view() =~= split_on(s@, d@));
        return out;
    }
    let n = s.len();
    let mut start: usize = 0;
    let mut i: usize = 0;
    assert(s@.subrange(0, n as int) =~= s@);
    assert(out.deep_view() =~= Seq::<Seq<char>>::empty());
    while d.len() <= n - i
        invariant
            n == s.len(),
            d.len() > 0,
            start <= i <= n,
            forall|k: int| start <= k < i ==> !#[trigger] matches_at(s@, d@, k),
            out.deep_view() + split_on(s@.subrange(start as int, n as int), d@) == split_on(s@, d@),
        decreases n - i,
    {
        if matches_at_exec(s, d, i) {
            let ghost rest = s@.subrange(start as int, n as int);
            proof {
                assert forall|k: int| 0 <= k < i - start implies !#[trigger] matches_at(rest, d@, k) by {
                    assert(rest.subrange(k, k + d@.len()) =~= s@.subrange(k + start, k + start + d@.len()));
                    assert(!matches_at(s@, d@, k + start));
                }
                assert(rest.subrange(i - start, i - start + d@.len()) =~= s@.subrange(i as int, i + d@.len()));
                lemma_find_first(rest, d@, 0, i - start);
                assert(rest.subrange(0, i - start) =~= s@.subrange(start as int, i as int));
                assert(rest.subrange(i - start + d@.len(), rest.len() as int) =~= s@.subrange(i + d@.len(), n as int));
            }
            let piece = sub_chars(s, start, i);
            let ghost before = out.deep_view();
            out.push(piece);
            proof {
                lemma_chars_deep_view(piece);
                assert(out.deep_view() =~= before.push(piece@));
                assert(out.deep_view() + split_on(s@.subrange(i + d@.len(), n as int), d@) =~= before + (seq![s@.subrange(start as int, i as int)] + split_on(s@.subrange(i + d@.len(), n as int), d@)));
            }
            start = i + d.len();
            i = start;
        } else {
            i = i + 1;
        }
    }
    let ghost rest = s@.subrange(start as int, n as int);
    proof {
        assert forall|k: int| 0 <= k implies !#[trigger] matches_at(rest, d@, k) by {
            if k < i - start && k + d@.len() <= rest.len() {
                assert(rest.subrange(k, k + d@.len()) =~= s@.subrange(k + start, k + start + d@.len()));
                assert(!matches_at(s@, d@, k + start));
            }
        }
        lemma_find_none(rest, d@, 0);
    }
    let piece = sub_chars(s, start, n);
    let ghost before = out.deep_view();
    out.push(piece);
    proof {
        lemma_chars_deep_view(piece);
        assert(out.deep_view() =~= before.push(piece@));
        assert(out.deep_view() =~= before + split_on(rest, d@));
    }
    out
}

} // verus!

verus! {

/// Joining one more piece appends the pattern and that piece.
pub proof fn lemma_join_push(segs: Seq<Seq<char>>, x: Seq<char>, d: Seq<char>)
    requires
        segs.len() > 0,
    ensures
        join_with(segs.push(x), d) == join_with(segs, d) + d + x,
    decreases segs.len(),
{
    if segs.len() == 1 {
        assert(segs.push(x).drop_first() =~= seq![x]);
        assert(join_with(seq![x], d) == x);
        assert(join_with(segs.push(x), d) =~= segs[0] + d + x);
    } else {
        lemma_join_push(segs.drop_first(), x, d);
        assert(segs.push(x).drop_first() =~= segs.drop_first().push(x));
        assert(join_with(segs.push(x), d) =~= segs[0] + d + (join_with(segs.drop_first(), d) + d + x));
    }
}

} // verus!

verus! {

/// No piece holds the character of a one-character delimiter.
pub open spec fn free_of(segs: Seq<Seq<char>>, d: Seq<char>) -> bool {
    forall|i: int, j: int| 0 <= i < segs.len() && 0 <= j < segs[i].len() ==> #[trigger] segs[i][j] != d[0]
}

/// Splitting pieces joined by a one-character delimiter that none of them
/// holds gives the pieces back.
pub proof fn law_split_join(segs: Seq<Seq<char>>, d: Seq<char>)
    requires
        segs.len() > 0,
        d.len() == 1,
        free_of(segs, d),
    ensures
        split_on(join_with(segs, d), d) == segs,
    decreases segs.len(),
{
    let s = join_with(segs, d);
    let n0 = segs[0].len() as int;
    lemma_find_from_bounds(s, d, 0);
    if segs.len() == 1 {
        assert(s == segs[0]);
        assert forall|k: int| !#[trigger] matches_at(s, d, k) by {
            if matches_at(s, d, k) {
                assert(s.subrange(k, k + 1)[0] == s[k]);
                assert(segs[0][k] != d[0]);
            }
        }
        assert(split_on(s, d) =~= segs);
    } else {
        let rest = segs.drop_first();
        assert(s == segs[0] + d + join_with(rest, d));
        assert(s.subrange(n0, n0 + 1) =~= d);
        assert(matches_at(s, d, n0));
        assert forall|k: int| 0 <= k < n0 implies !#[trigger] matches_at(s, d, k) by {
            if matches_at(s, d, k) {
                assert(s.subrange(k, k + 1)[0] == s[k]);
                assert(s[k] == segs[0][k]);
            }
        }
        assert(find_from(s, d, 0) == Some(n0));
        assert(s.subrange(0, n0) =~= segs[0]);
        assert(s.subrange(n0 + 1, s.len() as int) =~= join_with(rest, d));
        assert forall|i: int, j: int| 0 <= i < rest.len() && 0 <= j < rest[i].len() implies #[trigger] rest[i][j] != d[0] by {
            assert(rest[i] == segs[i + 1]);
        }
        law_split_join(rest, d);
        assert(split_on(s, d) =~= seq![segs[0]] + rest);
        assert(seq![segs[0]] + rest =~= segs);
    }
}

/// Splitting always gives at least one piece.
pub proof fn lemma_split_nonempty(s: Seq<char>, d: Seq<char>)
    ensures
        split_on(s, d).len() >= 1,
    decreases s.len(),
{
    if d.len() > 0 {
        match find_from(s, d, 0) {
            None => {},
            Some(i) => {
                if 0 <= i && i + d.len() <= s.len() {
                    lemma_split_nonempty(s.subrange(i + d.len(), s.len() as int), d);
                }
            },
        }
    }
}

} // verus!

verus! {

/// The Unicode `White_Space` property, which `char::is_whitespace` and
/// `str::trim` go by.
pub open spec fn is_unicode_ws(c: char) -> bool {
    ||| ('\u{9}' <= c && c <= '\u{d}')
    ||| c == ' '
    ||| c == '\u{85}'
    ||| c == '\u{a0}'
    ||| c == '\u{1680}'
    ||| ('\u{2000}' <= c && c <= '\u{200a}')
    ||| c == '\u{2028}'
    ||| c == '\u{2029}'
    ||| c == '\u{202f}'
    ||| c == '\u{205f}'
    ||| c == '\u{3000}'
}

/// Whether `c` is whitespace in the sense of Unicode's `White_Space`.
pub fn is_whitespace_char(c: char) -> (r: bool)
    ensures
        r == is_unicode_ws(c),
{
    ('\u{9}' <= c && c <= '\u{d}') || c == ' ' || c == '\u{85}' || c == '\u{a0}' || c == '\u{1680}'
        || ('\u{2000}' <= c && c <= '\u{200a}') || c == '\u{2028}' || c == '\u{2029}' || c
        == '\u{202f}' || c == '\u{205f}' || c == '\u{3000}'
}

/// The number of leading whitespace characters.
pub open spec fn lead_ws(s: Seq<char>) -> int
    decreases s.len(),
{
    if s.len() > 0 && is_unicode_ws(s[0]) {
        1 + lead_ws(s.drop_first())
    } else {
        0
    }
}

/// The number of trailing whitespace characters.
pub open spec fn trail_ws(s: Seq<char>) -> int
    decreases s.len(),
{
    if s.len() > 0 && is_unicode_ws(s.last()) {
        1 + trail_ws(s.drop_last())
    } else {
        0
    }
}

/// `s` without leading and trailing whitespace, as `str::trim` gives it.
pub open spec fn trim(s: Seq<char>) -> Seq<char> {
    let a = lead_ws(s);
    if a == s.len() {
        Seq::empty()
    } else {
        s.subrange(a, s.len() - trail_ws(s))
    }
}

pub proof fn lemma_lead_ws(s: Seq<char>)
    ensures
        0 <= lead_ws(s) <= s.len(),
        forall|i: int| 0 <= i < lead_ws(s) ==> is_unicode_ws(#[trigger] s[i]),
        lead_ws(s) < s.len() ==> !is_unicode_ws(s[lead_ws(s)]),
    decreases s.len(),
{
    if s.len() > 0 && is_unicode_ws(s[0]) {
        lemma_lead_ws(s.drop_first());
        assert forall|i: int| 0 <= i < lead_ws(s) implies is_unicode_ws(#[trigger] s[i]) by {
            if i > 0 {
                assert(s[i] == s.drop_first()[i - 1]);
            }
        }
    }
}

pub proof fn lemma_trail_ws(s: Seq<char>)
    ensures
        0 <= trail_ws(s) <= s.len(),
        forall|i: int| s.len() - trail_ws(s) <= i < s.len() ==> is_unicode_ws(#[trigger] s[i]),
        trail_ws(s) < s.len() ==> !is_unicode_ws(s[s.len() - trail_ws(s) - 1]),
    decreases s.len(),
{
    if s.len() > 0 && is_unicode_ws(s.last()) {
        lemma_trail_ws(s.drop_last());
        assert forall|i: int| s.len() - trail_ws(s) <= i < s.len() implies is_unicode_ws(#[trigger] s[i]) by {
            if i < s.len() - 1 {
                assert(s[i] == s.drop_last()[i]);
            }
        }
    }
}

proof fn lemma_lead_ws_is(s: Seq<char>, k: int)
    requires
        0 <= k <= s.len(),
        forall|i: int| 0 <= i < k ==> is_unicode_ws(#[trigger] s[i]),
        k < s.len() ==> !is_unicode_ws(s[k]),
    ensures
        lead_ws(s) == k,
    decreases k,
{
    if k > 0 {
        assert(is_unicode_ws(s[0]));
        assert forall|i: int| 0 <= i < k - 1 implies is_unicode_ws(#[trigger] s.drop_first()[i]) by {
            assert(s.drop_first()[i] == s[i + 1]);
        }
        lemma_lead_ws_is(s.drop_first(), k - 1);
    }
}

proof fn lemma_trail_ws_is(s: Seq<char>, k: int)
    requires
        0 <= k <= s.len(),
        forall|i: int| s.len() - k <= i < s.len() ==> is_unicode_ws(#[trigger] s[i]),
        k < s.len() ==> !is_unicode_ws(s[s.len() - k - 1]),
    ensures
        trail_ws(s) == k,
    decreases k,
{
    if k > 0 {
        assert(is_unicode_ws(s.last()));
        assert forall|i: int| s.drop_last().len() - (k - 1) <= i < s.drop_last().len() implies is_unicode_ws(#[trigger] s.drop_last()[i]) by {
            assert(s.drop_last()[i] == s[i]);
        }
        lemma_trail_ws_is(s.drop_last(), k - 1);
    }
}

/// `s` without leading and trailing whitespace.
pub fn trim_chars(s: &Vec<char>) -> (r: Vec<char>)
    ensures
        r@ == trim(s@),
{
    let n = s.len();
    let mut a: usize = 0;
    while a < n && is_whitespace_char(s[a])
        invariant
            n == s.len(),
            a <= n,
            forall|i: int| 0 <= i < a ==> is_unicode_ws(#[trigger] s@[i]),
        decreases n - a,
    {
        a = a + 1;
    }
    proof { lemma_lead_ws_is(s@, a as int); }
    if a == n {
        return Vec::new();
    }
    let mut b: usize = n;
    while b > a && is_whitespace_char(s[b - 1])
        invariant
            n == s.len(),
            a < n,
            a <= b <= n,
            !is_unicode_ws(s@[a as int]),
            forall|i: int| b <= i < n ==> is_unicode_ws(#[trigger] s@[i]),
        decreases b,
    {
        b = b - 1;
    }
    proof { lemma_trail_ws_is(s@, (n - b) as int); }
    sub_chars(s, a, b)
}

} // verus!

verus! {

/// The character of a decimal digit.
pub open spec fn digit_char(d: nat) -> char {
    (('0' as int) + d) as char
}

/// A natural number in decimal.
pub open spec fn nat_text(n: nat) -> Seq<char>
    decreases n,
{
    if n < 10 {
        seq![digit_char(n)]
    } else {
        nat_text(n / 10) + seq![digit_char(n % 10)]
    }
}

/// An integer in decimal, with a `-` when negative.
pub open spec fn int_text(i: int) -> Seq<char> {
    if i < 0 {
        seq!['-'] + nat_text((-i) as nat)
    } else {
        nat_text(i as nat)
    }
}

fn digit_to_char(d: u64) -> (r: char)
    requires
        d < 10,
    ensures
        r == digit_char(d as nat),
{
    if d == 0 { '0' } else if d == 1 { '1' } else if d == 2 { '2' } else if d == 3 { '3' } else if d == 4 { '4' }
    else if d == 5 { '5' } else if d == 6 { '6' } else if d == 7 { '7' } else if d == 8 { '8' } else { '9' }
}

/// Appends a natural number in decimal.
pub fn push_nat_text(out: &mut Vec<char>, n: u64)
    ensures
        final(out)@ == old(out)@ + nat_text(n as nat),
    decreases n,
{
    if n >= 10 {
        push_nat_text(out, n / 10);
    }
    out.push(digit_to_char(n % 10));
    assert(final(out)@ =~= old(out)@ + nat_text(n as nat));
}

/// An integer in decimal, as `i64::to_string` writes it.
pub fn int_to_text(i: i64) -> (r: String)
    ensures
        r@ == int_text(i as int),
{
    let mut out: Vec<char> = Vec::new();
    if i < 0 {
        out.push('-');
        let m: u64 = (0 - (i as i128)) as u64;
        push_nat_text(&mut out, m);
    } else {
        push_nat_text(&mut out, i as u64);
    }
    assert(out@ =~= int_text(i as int));
    string_from_chars(&out)
}

} // verus!
