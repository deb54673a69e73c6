//! Floats, booleans, dates, and the choice among numeric kinds.
use vstd::prelude::*;
use crate::text::{Grapheme, is_tok, tok, trim, trim_chars, string_from_chars, lemma_chars_deep_view};
use crate::errors::ErrorKind;
use crate::tomltypes::{TOMLType, TomlValue};
use crate::drafts::parsetools::{ParserLine, TOMLSeg, count_ws, seg_end_at, seg_start_at, seg_rest_at};
use super::{TOMLParser, InnerParseResult, err_view, err_at, error_at};
use super::numbers::{int_parse, radix_digit, resumed, dec_scan, radix_scan, int_step, is_int_end, prefix_radix};
use crate::drafts::parsetools::lemma_count_ws_bounds;
use super::dates::{dt_parse, try_naive_dtparse};

verus! {

/// Graphemes that the float format check looks at (all but spaces, tabs,
/// line feeds and underscores).
pub open spec fn float_keep(g: Seq<char>) -> bool {
    !(g == tok(' ') || g == tok('\t') || g == tok('\n') || g == tok('_'))
}

/// The graphemes of `s` that the float format check looks at.
pub open spec fn float_kept(s: Seq<Seq<char>>) -> Seq<Seq<char>> {
    s.filter(|g: Seq<char>| float_keep(g))
}

/// A decimal point at `i` not followed by a digit.
pub open spec fn bad_point(k: Seq<Seq<char>>, i: int) -> bool {
    0 <= i < k.len() && k[i] == tok('.') && !(i + 1 < k.len() && radix_digit(k[i + 1], 10) is Some)
}

/// The format failure of a float's graphemes, if any.
pub open spec fn float_format_error(s: Seq<Seq<char>>) -> Option<ErrorKind> {
    let k = float_kept(s);
    if k.len() > 0 && k[0] == tok('.') {
        Some(ErrorKind::FloatLeadingPoint)
    } else if exists|i: int| #[trigger] bad_point(k, i) {
        Some(ErrorKind::FloatPointWithoutDigit)
    } else {
        None
    }
}

pub open spec fn is_digit_char(c: char) -> bool {
    '0' <= c && c <= '9'
}

/// `s` spells the (lower-case) word `w`, ignoring the case of ASCII letters.
pub open spec fn spells(s: Seq<char>, w: Seq<char>) -> bool {
    s.len() == w.len() && forall|i: int| 0 <= i < s.len() ==> (s[i] == w[i] || (#[trigger] s[i] as u32)
        + 32 == w[i] as u32 && 'A' <= s[i] && s[i] <= 'Z')
}

/// The mantissa of a float: digits with at most one decimal point and at
/// least one digit.
pub open spec fn mantissa_ok(m: Seq<char>) -> bool {
    &&& forall|i: int| 0 <= i < m.len() ==> is_digit_char(#[trigger] m[i]) || m[i] == '.'
    &&& forall|i: int, j: int| 0 <= i < j < m.len() ==> !(m[i] == '.' && m[j] == '.')
    &&& exists|i: int| 0 <= i < m.len() && is_digit_char(#[trigger] m[i])
}

/// An exponent after `e`: an optional sign and at least one digit.
pub open spec fn exponent_ok(x: Seq<char>) -> bool {
    let y = unsigned_part(x);
    y.len() > 0 && forall|i: int| 0 <= i < y.len() ==> is_digit_char(#[trigger] y[i])
}

/// The text after a leading `+` or `-`, if there is one.
pub open spec fn unsigned_part(x: Seq<char>) -> Seq<char> {
    if x.len() > 0 && (x[0] == '+' || x[0] == '-') { x.drop_first() } else { x }
}

/// The position of the first `e` or `E`, or the length.
pub open spec fn exp_index(b: Seq<char>, i: int) -> int
    decreases b.len() - i,
{
    if i < 0 || i >= b.len() {
        b.len() as int
    } else if b[i] == 'e' || b[i] == 'E' {
        i
    } else {
        exp_index(b, i + 1)
    }
}

/// The float syntax that `str::parse::<f64>` accepts, as its documentation
/// gives it: an optional sign, then `inf`, `infinity` or `nan` in any case,
/// or a decimal number with an optional exponent.
pub open spec fn is_rust_float(t: Seq<char>) -> bool {
    let b = unsigned_part(t);
    let e = exp_index(b, 0);
    ||| spells(b, seq!['i', 'n', 'f'])
    ||| spells(b, seq!['i', 'n', 'f', 'i', 'n', 'i', 't', 'y'])
    ||| spells(b, seq!['n', 'a', 'n'])
    ||| (mantissa_ok(b.subrange(0, e)) && (e == b.len() || exponent_ok(b.subrange(e + 1, b.len() as int))))
}

/// The text without its underscores.
pub open spec fn without_underscores(s: Seq<char>) -> Seq<char> {
    s.filter(|c: char| c != '_')
}

/// The text of the whole segment that the context is in, trimmed.
pub open spec fn segment_text(c: ParserLine) -> Seq<char> {
    trim(c.graphs().subrange(c.seg_start(), c.seg_end()).flatten())
}

/// The text of a float: the segment's trimmed text without underscores.
pub open spec fn float_text(c: ParserLine) -> Seq<char> {
    without_underscores(segment_text(c))
}

/// What a float parse gives: the float's text, or the kind of failure.
pub open spec fn float_parse(c: ParserLine) -> Result<Seq<char>, ErrorKind> {
    match float_format_error(c.seg_rest()) {
        Some(k) => Err(k),
        None => if is_rust_float(float_text(c)) {
            Ok(float_text(c))
        } else {
            Err(ErrorKind::FloatFormat)
        },
    }
}

/// What a boolean parse gives: exactly `true` or `false`, else nothing.
pub open spec fn bool_parse(t: Seq<char>) -> Option<bool> {
    if t == seq!['t', 'r', 'u', 'e'] {
        Some(true)
    } else if t == seq!['f', 'a', 'l', 's', 'e'] {
        Some(false)
    } else {
        None
    }
}

/// What a numeric value becomes: an integer if the segment reads as one,
/// else a float, else a date or time.
pub open spec fn numeric_parse(c: ParserLine) -> Option<(TomlValue, int)> {
    match int_parse(c.seg_rest()) {
        Ok((v, n)) => Some((TomlValue::Int(v), n)),
        Err(_) => match float_parse(c) {
            Ok(t) => Some((TomlValue::Float(t), c.seg_rest().len() as int)),
            Err(_) => match dt_parse(segment_text(c)) {
                Some(v) => Some((v, c.seg_rest().len() as int)),
                None => None,
            },
        },
    }
}

/// The text of the whole segment that holds position `i`, trimmed.
pub open spec fn segment_text_at(g: Seq<Seq<char>>, i: int) -> Seq<char> {
    trim(g.subrange(seg_start_at(g, i), seg_end_at(g, i)).flatten())
}

/// What a float parse from position `i` gives.
pub open spec fn float_parse_at(g: Seq<Seq<char>>, i: int) -> Result<Seq<char>, ErrorKind> {
    match float_format_error(seg_rest_at(g, i)) {
        Some(k) => Err(k),
        None => if is_rust_float(without_underscores(segment_text_at(g, i))) {
            Ok(without_underscores(segment_text_at(g, i)))
        } else {
            Err(ErrorKind::FloatFormat)
        },
    }
}

/// What a numeric value from position `i` becomes, and how many graphemes
/// it takes (see `numeric_parse`).
pub open spec fn numeric_parse_at(g: Seq<Seq<char>>, i: int) -> Option<(TomlValue, int)> {
    match int_parse(seg_rest_at(g, i)) {
        Ok((v, n)) => Some((TomlValue::Int(v), n)),
        Err(_) => match float_parse_at(g, i) {
            Ok(t) => Some((TomlValue::Float(t), seg_rest_at(g, i).len() as int)),
            Err(_) => match dt_parse(segment_text_at(g, i)) {
                Some(v) => Some((v, seg_rest_at(g, i).len() as int)),
                None => None,
            },
        },
    }
}

/// The scalar parses of a context depend only on its line and cursor.
pub proof fn lemma_scalars_at(c: ParserLine)
    requires
        c.wf(),
        c.cursor() < c.graphs().len(),
    ensures
        c.seg_rest() == seg_rest_at(c.graphs(), c.cursor()),
        segment_text(c) == segment_text_at(c.graphs(), c.cursor()),
        float_parse(c) == float_parse_at(c.graphs(), c.cursor()),
        numeric_parse(c) == numeric_parse_at(c.graphs(), c.cursor()),
{
    c.lemma_position();
}

} // verus!

verus! {

/// The graphemes that the float format check looks at.
fn kept_graphemes(v: &Vec<Grapheme>) -> (r: Vec<Grapheme>)
    ensures
        r.deep_view() == float_kept(v.deep_view()),
{
    let ghost s = v.deep_view();
    let mut out: Vec<Grapheme> = Vec::new();
    let mut i: usize = 0;
    assert(s.take(0) =~= Seq::<Seq<char>>::empty());
    proof { reveal(Seq::filter); }
    assert(float_kept(s.take(0)) =~= Seq::<Seq<char>>::empty());
    while i < v.len()
        invariant
            s == v.deep_view(),
            i <= v.len(),
            out.deep_view() == float_kept(s.take(i as int)),
        decreases v.len() - i,
    {
        let g = &v[i];
        proof {
            lemma_chars_deep_view(*g);
            reveal(Seq::filter);
            assert(s.take(i + 1).drop_last() =~= s.take(i as int));
            assert(s.take(i + 1).last() == g@);
        }
        if !(is_tok(g, ' ') || is_tok(g, '\t') || is_tok(g, '\n') || is_tok(g, '_')) {
            let ghost before = out.deep_view();
            out.push(g.clone());
            proof {
                let last = out@[out.len() - 1];
                lemma_chars_deep_view(last);
                assert(last@ =~= g@);
                assert(out.deep_view() =~= before.push(g@));
            }
        }
        i = i + 1;
    }
    assert(s.take(v.len() as int) =~= s);
    out
}

/// The format failure of a float's graphemes, if any.
fn float_format_check(rest: &Vec<Grapheme>) -> (r: Option<ErrorKind>)
    ensures
        r == float_format_error(rest.deep_view()),
{
    let k = kept_graphemes(rest);
    let ghost kv = k.deep_view();
    if k.len() > 0 && is_tok(&k[0], '.') {
        proof { lemma_chars_deep_view(k@[0]); }
        return Some(ErrorKind::FloatLeadingPoint);
    }
    proof {
        if k.len() > 0 {
            lemma_chars_deep_view(k@[0]);
        }
    }
    let mut i: usize = 0;
    while i < k.len()
        invariant
            kv == k.deep_view(),
            kv == float_kept(rest.deep_view()),
            i <= k.len(),
            !(kv.len() > 0 && kv[0] == tok('.')),
            forall|j: int| 0 <= j < i ==> !#[trigger] bad_point(kv, j),
        decreases k.len() - i,
    {
        proof { lemma_chars_deep_view(k@[i as int]); }
        if is_tok(&k[i], '.') {
            let followed = i + 1 < k.len() && is_digit_grapheme(&k[i + 1]);
            proof {
                if i + 1 < k.len() {
                    lemma_chars_deep_view(k@[i + 1]);
                }
            }
            if !followed {
                assert(bad_point(kv, i as int));
                assert(exists|j: int| #[trigger] bad_point(kv, j));
                assert(kv == float_kept(rest.deep_view()));
                assert(exists|j: int| #[trigger] bad_point(float_kept(rest.deep_view()), j));
                assert(float_format_error(rest.deep_view()) == Some(ErrorKind::FloatPointWithoutDigit));
                return Some(ErrorKind::FloatPointWithoutDigit);
            }
        }
        i = i + 1;
    }
    assert forall|j: int| !#[trigger] bad_point(kv, j) by {
        if 0 <= j < kv.len() {
        }
    }
    None
}

/// Whether a grapheme is a single decimal digit.
fn is_digit_grapheme(g: &Grapheme) -> (r: bool)
    ensures
        r == (radix_digit(g@, 10) is Some),
{
    if g.len() == 1 {
        let c = g[0];
        '0' <= c && c <= '9'
    } else {
        false
    }
}

} // verus!

verus! {

/// Whether `s` spells the lower-case word `w`, ignoring ASCII case.
fn spells_exec(s: &Vec<char>, w: &Vec<char>) -> (r: bool)
    ensures
        r == spells(s@, w@),
{
    if s.len() != w.len() {
        return false;
    }
    let mut i: usize = 0;
    while i < s.len()
        invariant
            s.len() == w.len(),
            i <= s.len(),
            forall|j: int| 0 <= j < i ==> (s@[j] == w@[j] || (#[trigger] s@[j] as u32) + 32 == w@[j] as u32
                && 'A' <= s@[j] && s@[j] <= 'Z'),
        decreases s.len() - i,
    {
        let c = s[i];
        let ok = c == w[i] || ('A' <= c && c <= 'Z' && (c as u32) + 32 == (w[i] as u32));
        if !ok {
            return false;
        }
        i = i + 1;
    }
    true
}

fn word(a: &[char]) -> (r: Vec<char>)
    ensures
        r@ == a@,
{
    let mut v: Vec<char> = Vec::new();
    let mut i: usize = 0;
    while i < a.len()
        invariant
            i <= a.len(),
            v@ == a@.take(i as int),
        decreases a.len() - i,
    {
        v.push(a[i]);
        i = i + 1;
        assert(v@ =~= a@.take(i as int));
    }
    assert(a@.take(a.len() as int) =~= a@);
    v
}

/// Whether `m` is a float mantissa.
fn mantissa_check(m: &Vec<char>) -> (r: bool)
    ensures
        r == mantissa_ok(m@),
{
    let mut points: usize = 0;
    let mut digits: bool = false;
    let mut i: usize = 0;
    while i < m.len()
        invariant
            i <= m.len(),
            points <= 1,
            forall|j: int| 0 <= j < i ==> is_digit_char(#[trigger] m@[j]) || m@[j] == '.',
            forall|a: int, b: int| 0 <= a < b < i ==> !(m@[a] == '.' && m@[b] == '.'),
            points == 1 <==> exists|j: int| 0 <= j < i && #[trigger] m@[j] == '.',
            digits <==> exists|j: int| 0 <= j < i && is_digit_char(#[trigger] m@[j]),
        decreases m.len() - i,
    {
        let c = m[i];
        if '0' <= c && c <= '9' {
            digits = true;
        } else if c == '.' {
            if points == 1 {
                let ghost j = choose|j: int| 0 <= j < i && #[trigger] m@[j] == '.';
                assert(!mantissa_ok(m@)) by {
                    assert(m@[j] == '.' && m@[i as int] == '.');
                }
                return false;
            }
            points = 1;
        } else {
            assert(!mantissa_ok(m@)) by {
                assert(!(is_digit_char(m@[i as int]) || m@[i as int] == '.'));
            }
            return false;
        }
        i = i + 1;
    }
    digits
}

/// Whether `x` is a float exponent (after the `e`).
fn exponent_check(x: &Vec<char>) -> (r: bool)
    ensures
        r == exponent_ok(x@),
{
    let start: usize = if x.len() > 0 && (x[0] == '+' || x[0] == '-') { 1 } else { 0 };
    let y = crate::text::sub_chars(x, start, x.len());
    assert(y@ =~= unsigned_part(x@));
    if y.len() == 0 {
        return false;
    }
    let mut i: usize = 0;
    while i < y.len()
        invariant
            i <= y.len(),
            y@ == unsigned_part(x@),
            forall|j: int| 0 <= j < i ==> is_digit_char(#[trigger] y@[j]),
        decreases y.len() - i,
    {
        if !('0' <= y[i] && y[i] <= '9') {
            assert(!is_digit_char(y@[i as int]));
            return false;
        }
        i = i + 1;
    }
    true
}

/// Whether `t` is in the float syntax of `str::parse::<f64>`.
pub fn is_rust_float_exec(t: &Vec<char>) -> (r: bool)
    ensures
        r == is_rust_float(t@),
{
    let start: usize = if t.len() > 0 && (t[0] == '+' || t[0] == '-') { 1 } else { 0 };
    let b = crate::text::sub_chars(t, start, t.len());
    assert(b@ =~= unsigned_part(t@));
    let inf = word(&['i', 'n', 'f']);
    let infinity = word(&['i', 'n', 'f', 'i', 'n', 'i', 't', 'y']);
    let nan = word(&['n', 'a', 'n']);
    assert(inf@ =~= seq!['i', 'n', 'f']);
    assert(infinity@ =~= seq!['i', 'n', 'f', 'i', 'n', 'i', 't', 'y']);
    assert(nan@ =~= seq!['n', 'a', 'n']);
    if spells_exec(&b, &inf) || spells_exec(&b, &infinity) || spells_exec(&b, &nan) {
        return true;
    }
    let mut e: usize = 0;
    while e < b.len() && !(b[e] == 'e' || b[e] == 'E')
        invariant
            e <= b.len(),
            exp_index(b@, 0) == exp_index(b@, e as int),
        decreases b.len() - e,
    {
        e = e + 1;
    }
    let m = crate::text::sub_chars(&b, 0, e);
    if !mantissa_check(&m) {
        return false;
    }
    if e == b.len() {
        return true;
    }
    let x = crate::text::sub_chars(&b, e + 1, b.len());
    exponent_check(&x)
}

/// The text without its underscores.
pub fn remove_underscores(t: &Vec<char>) -> (r: Vec<char>)
    ensures
        r@ == without_underscores(t@),
{
    let mut out: Vec<char> = Vec::new();
    let mut i: usize = 0;
    proof { reveal(Seq::filter); }
    assert(t@.take(0) =~= Seq::<char>::empty());
    while i < t.len()
        invariant
            i <= t.len(),
            out@ == without_underscores(t@.take(i as int)),
        decreases t.len() - i,
    {
        proof {
            reveal(Seq::filter);
            assert(t@.take(i + 1).drop_last() =~= t@.take(i as int));
        }
        if t[i] != '_' {
            out.push(t[i]);
        }
        i = i + 1;
    }
    assert(t@.take(t.len() as int) =~= t@);
    out
}

} // verus!

verus! {

/// Whether the text is exactly `true` or `false`, and which.
fn bool_from_text(t: &Vec<char>) -> (r: Option<bool>)
    ensures
        r == bool_parse(t@),
{
    let tw = word(&['t', 'r', 'u', 'e']);
    let fw = word(&['f', 'a', 'l', 's', 'e']);
    if chars_equal(t, &tw) {
        Some(true)
    } else if chars_equal(t, &fw) {
        Some(false)
    } else {
        None
    }
}

/// Whether two texts are equal.
fn chars_equal(a: &Vec<char>, b: &Vec<char>) -> (r: bool)
    ensures
        r == (a@ == b@),
{
    if a.len() != b.len() {
        return false;
    }
    let mut i: usize = 0;
    while i < a.len()
        invariant
            a.len() == b.len(),
            i <= a.len(),
            forall|j: int| 0 <= j < i ==> a@[j] == b@[j],
        decreases a.len() - i,
    {
        if a[i] != b[i] {
            return false;
        }
        i = i + 1;
    }
    assert(a@ =~= b@);
    true
}

impl TOMLParser {
    /// Parses a float from the current segment. The digits after the cursor
    /// must not begin with `.` and every `.` must be followed by a digit;
    /// then the whole segment, trimmed and without underscores, must be in
    /// the float syntax of `str::parse::<f64>`. The float is kept as that
    /// text.
    pub fn parse_float(context: ParserLine) -> (r: InnerParseResult<TOMLType>)
        requires
            context.wf(),
            context.cursor() < context.graphs().len(),
        ensures
            match float_parse(context) {
                Ok(t) => r matches Ok((v, c)) && v@ == TomlValue::Float(t) && resumed(
                    context,
                    c,
                    context.seg_rest().len() as int,
                ),
                Err(k) => r matches Err(e) && err_view(e) == err_at(context.line(), k, Seq::empty()),
            },
    {
        let mut ctx = context;
        proof { context.lemma_wf(); }
        let ahead = ctx.peek().unwrap();
        let rest = ahead.rest_graphemes();
        if let Some(kind) = float_format_check(&rest) {
            return Err(error_at(&ctx, kind));
        }
        let seg = ctx.next_seg().unwrap();
        let text = remove_underscores(&trim_chars(&seg.content()));
        assert(text@ == float_text(context));
        if is_rust_float_exec(&text) {
            Ok((TOMLType::Float(string_from_chars(&text)), ctx))
        } else {
            Err(error_at(&ctx, ErrorKind::FloatFormat))
        }
    }

    /// Parses a date, a time, or a date and time from the whole current
    /// segment, trimmed.
    pub fn parse_date(context: ParserLine) -> (r: InnerParseResult<TOMLType>)
        requires
            context.wf(),
            context.cursor() < context.graphs().len(),
        ensures
            match dt_parse(segment_text(context)) {
                Some(v) => r matches Ok((t, c)) && t@ == v && resumed(
                    context,
                    c,
                    context.seg_rest().len() as int,
                ),
                None => r matches Err(e) && err_view(e) == err_at(
                    context.line(),
                    ErrorKind::DateFormat,
                    Seq::empty(),
                ),
            },
    {
        let mut ctx = context;
        proof { context.lemma_wf(); }
        let seg = ctx.next_seg().unwrap();
        let text = string_from_chars(&trim_chars(&seg.content()));
        match try_naive_dtparse(text.as_str()) {
            Some(date) => Ok((date, ParserLine::freeze(ctx, 0))),
            None => Err(error_at(&ctx, ErrorKind::DateFormat)),
        }
    }

    /// Parses `true` or `false` from the whole current segment, trimmed.
    pub fn parse_bool(context: ParserLine) -> (r: InnerParseResult<TOMLType>)
        requires
            context.wf(),
            context.cursor() < context.graphs().len(),
        ensures
            match bool_parse(segment_text(context)) {
                Some(b) => r matches Ok((t, c)) && t@ == TomlValue::Bool(b) && resumed(
                    context,
                    c,
                    context.seg_rest().len() as int,
                ),
                None => r matches Err(e) && err_view(e) == err_at(
                    context.line(),
                    ErrorKind::BoolFormat,
                    Seq::empty(),
                ),
            },
    {
        let mut ctx = context;
        proof { context.lemma_wf(); }
        let seg = ctx.next_seg().unwrap();
        let text = trim_chars(&seg.content());
        match bool_from_text(&text) {
            Some(val) => Ok((TOMLType::Bool(val), ParserLine::freeze(ctx, 0))),
            None => Err(error_at(&ctx, ErrorKind::BoolFormat)),
        }
    }

    /// Parses an integer, a float or a date, whichever reads first in that
    /// order.
    pub fn parse_numeric(context: ParserLine) -> (r: InnerParseResult<TOMLType>)
        requires
            context.wf(),
            context.cursor() < context.graphs().len(),
            count_ws(context.seg_rest()) < context.seg_rest().len(),
        ensures
            match numeric_parse(context) {
                Some((v, n)) => r matches Ok((t, c)) && t@ == v && resumed(context, c, n),
                None => r matches Err(e) && err_view(e) == err_at(
                    context.line(),
                    ErrorKind::NotNumeric,
                    Seq::empty(),
                ),
            },
    {
        match Self::parse_integer(context.duplicate()) {
            Ok(out) => return Ok(out),
            Err(_) => {},
        }
        match Self::parse_float(context.duplicate()) {
            Ok(out) => return Ok(out),
            Err(_) => {},
        }
        match Self::parse_date(context.duplicate()) {
            Ok(out) => Ok(out),
            Err(_) => Err(error_at(&context, ErrorKind::NotNumeric)),
        }
    }
}

} // verus!

verus! {

proof fn lemma_dec_scan_pos(s: Seq<Seq<char>>, i: int, acc: i64, us: bool)
    ensures
        dec_scan(s, i, acc, us) matches Ok((_, j)) ==> j >= i,
    decreases s.len() - i,
{
    if 0 <= i < s.len() {
        let g = s[i];
        match radix_digit(g, 10) {
            Some(d) => {
                lemma_dec_scan_pos(s, i + 1, int_step(acc as int, 10, d) as i64, false);
            },
            None => {
                if g == tok('_') && !us {
                    lemma_dec_scan_pos(s, i + 1, acc, true);
                }
            },
        }
    }
}

proof fn lemma_radix_scan_pos(s: Seq<Seq<char>>, i: int, acc: i64, us: bool, radix: int)
    ensures
        radix_scan(s, i, acc, us, radix) matches Ok((_, j)) ==> j >= i,
    decreases s.len() - i,
{
    if 0 <= i < s.len() {
        let g = s[i];
        match radix_digit(g, radix) {
            Some(d) => {
                lemma_radix_scan_pos(s, i + 1, int_step(acc as int, radix, d) as i64, false, radix);
            },
            None => {
                if g == tok('_') && !us {
                    lemma_radix_scan_pos(s, i + 1, acc, true, radix);
                }
            },
        }
    }
}

/// An integer that reads takes at least one grapheme.
pub proof fn lemma_int_parse_progress(s: Seq<Seq<char>>)
    ensures
        int_parse(s) matches Ok((_, n)) ==> n > 0,
{
    lemma_count_ws_bounds(s);
    let w = count_ws(s);
    let neg = w < s.len() && s[w] == tok('-');
    let plus = w < s.len() && s[w] == tok('+');
    let p = if neg || plus { w + 1 } else { w };
    if p < s.len() {
        if s[p] == tok('0') {
            if p + 1 < s.len() && !is_int_end(s[p + 1]) && (s[p + 1] == tok('b') || s[p + 1] == tok('o') || s[p + 1] == tok('x')) {
                lemma_radix_scan_pos(s.skip(p + 2), 0, 0, false, prefix_radix(s[p + 1][0]));
            }
        } else if radix_digit(s[p], 10) is Some {
            let t = s.skip(p);
            assert(t[0] == s[p]);
            let d = radix_digit(t[0], 10)->Some_0;
            lemma_dec_scan_pos(t, 1, int_step(0, 10, d) as i64, false);
        }
    }
}

} // verus!
