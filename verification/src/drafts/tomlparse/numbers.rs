//! Integers: decimal, and hexadecimal, octal and binary after a `0x`, `0o`
//! or `0b` prefix.
use vstd::prelude::*;
use crate::text::{Grapheme, is_tok, tok, lemma_chars_deep_view};
use crate::errors::{ErrorKind, TomlError};
use crate::tomltypes::{TOMLType, TomlValue};
use crate::drafts::parsetools::{ParserLine, TOMLSeg, count_ws, lemma_count_ws_bounds, is_seg_point};
use super::{TOMLParser, InnerParseResult, err_view, err_at, error_at, error_with};

verus! {

/// The outcome of scanning a number: its value and where the scan stopped,
/// or the kind of failure with the grapheme it concerns.
pub type ScanResult = Result<(i64, int), (ErrorKind, Seq<char>)>;

/// The value of a single-character digit in the given radix (2, 8, 10 or 16).
pub open spec fn radix_digit(g: Seq<char>, radix: int) -> Option<int> {
    if g.len() != 1 {
        None
    } else {
        let c = g[0];
        if '0' <= c <= '9' && (c as int) - ('0' as int) < radix {
            Some((c as int) - ('0' as int))
        } else if radix == 16 && 'a' <= c <= 'f' {
            Some((c as int) - ('a' as int) + 10)
        } else if radix == 16 && 'A' <= c <= 'F' {
            Some((c as int) - ('A' as int) + 10)
        } else {
            None
        }
    }
}

/// One more digit: `acc * radix + d`, as an unbounded integer.
pub open spec fn int_step(acc: int, radix: int, d: int) -> int {
    acc * radix + d
}

/// A grapheme that ends a number: space, tab or line feed.
pub open spec fn is_int_end(g: Seq<char>) -> bool {
    g == tok(' ') || g == tok('\t') || g == tok('\n')
}

/// Scanning decimal digits from position `i` with the value `acc` so far;
/// `us` tells whether the previous grapheme was an underscore.
pub open spec fn dec_scan(s: Seq<Seq<char>>, i: int, acc: i64, us: bool) -> ScanResult
    decreases s.len() - i,
{
    if i < 0 || i >= s.len() {
        if us {
            Err((ErrorKind::IntegerTrailingUnderscore, Seq::empty()))
        } else {
            Ok((acc, i))
        }
    } else {
        let g = s[i];
        match radix_digit(g, 10) {
            Some(d) => {
                let next = int_step(acc as int, 10, d);
                if next > i64::MAX {
                    Err((ErrorKind::IntegerOverflow, Seq::empty()))
                } else {
                    dec_scan(s, i + 1, next as i64, false)
                }
            },
            None => if g == tok('_') {
                if us {
                    Err((ErrorKind::IntegerDoubleUnderscore, Seq::empty()))
                } else {
                    dec_scan(s, i + 1, acc, true)
                }
            } else if us {
                Err((ErrorKind::IntegerTrailingUnderscore, Seq::empty()))
            } else if is_int_end(g) {
                Ok((acc, i))
            } else {
                Err((ErrorKind::IntegerBadDigit, g))
            },
        }
    }
}

/// Scanning digits of radix 16, 8 or 2 from position `i`.
pub open spec fn radix_scan(s: Seq<Seq<char>>, i: int, acc: i64, us: bool, radix: int) -> ScanResult
    decreases s.len() - i,
{
    if i < 0 || i >= s.len() {
        Ok((acc, i))
    } else {
        let g = s[i];
        match radix_digit(g, radix) {
            Some(d) => {
                let next = int_step(acc as int, radix, d);
                if next > i64::MAX {
                    Err((ErrorKind::IntegerOverflow, Seq::empty()))
                } else {
                    radix_scan(s, i + 1, next as i64, false, radix)
                }
            },
            None => if g == tok('_') {
                if us {
                    Err((ErrorKind::IntegerDoubleUnderscore, Seq::empty()))
                } else {
                    radix_scan(s, i + 1, acc, true, radix)
                }
            } else if is_int_end(g) {
                Ok((acc, i))
            } else {
                Err((ErrorKind::IntegerBadDigit, g))
            },
        }
    }
}

/// The radix that a prefix letter selects.
pub open spec fn prefix_radix(c: char) -> int {
    if c == 'x' {
        16
    } else if c == 'o' {
        8
    } else {
        2
    }
}

/// Scanning after a `0x`, `0o` or `0b` prefix, from position `i`.
pub open spec fn nondec_scan(s: Seq<Seq<char>>, i: int, mode: char) -> ScanResult {
    if i < 0 || i >= s.len() || radix_digit(s[i], 16) is None {
        Err((ErrorKind::IntegerFormat, Seq::empty()))
    } else {
        radix_scan(s, i, 0, false, prefix_radix(mode))
    }
}

/// A scan result with the stopping position moved on by `p`.
pub open spec fn shift(r: ScanResult, p: int) -> ScanResult {
    match r {
        Ok((v, n)) => Ok((v, n + p)),
        Err(e) => Err(e),
    }
}

/// An integer at the start of `s` (after spaces and tabs), with an optional
/// sign; its value and how many graphemes it takes.
pub open spec fn int_parse(s: Seq<Seq<char>>) -> ScanResult {
    let w = count_ws(s);
    let neg = w < s.len() && s[w] == tok('-');
    let plus = w < s.len() && s[w] == tok('+');
    let p = if neg || plus { w + 1 } else { w };
    let r = if p >= s.len() {
        Err((ErrorKind::IntegerFormat, Seq::empty()))
    } else if s[p] == tok('0') {
        if p + 1 >= s.len() {
            Ok((0i64, p + 1))
        } else if is_int_end(s[p + 1]) {
            Ok((0i64, p + 2))
        } else if s[p + 1] == tok('b') || s[p + 1] == tok('o') || s[p + 1] == tok('x') {
            if neg || plus {
                Err((ErrorKind::IntegerSignedPrefix, Seq::empty()))
            } else {
                shift(nondec_scan(s.skip(p + 2), 0, s[p + 1][0]), p + 2)
            }
        } else {
            Err((ErrorKind::IntegerLeadingZero, Seq::empty()))
        }
    } else if radix_digit(s[p], 10) is Some {
        shift(dec_scan(s.skip(p), 0, 0, false), p)
    } else {
        Err((ErrorKind::IntegerBadStart, s[p]))
    };
    match r {
        Ok((v, n)) => Ok((if neg { (-v) as i64 } else { v }, n)),
        Err(e) => Err(e),
    }
}

/// An integer whose digits are decimal reads as their value, negated
/// after a `-` sign.
proof fn lemma_int_parse_decimal(s: Seq<Seq<char>>, w: int, neg: bool, plus: bool, p: int, v: i64, n: int)
    requires
        w == count_ws(s),
        neg == (w < s.len() && s[w] == tok('-')),
        plus == (w < s.len() && s[w] == tok('+')),
        p == (if neg || plus { w + 1 } else { w }),
        0 <= p < s.len(),
        s[p] != tok('0'),
        radix_digit(s[p], 10) is Some,
        dec_scan(s.skip(p), 0, 0, false) == Ok::<(i64, int), (ErrorKind, Seq<char>)>((v, n)),
    ensures
        int_parse(s) == Ok::<(i64, int), (ErrorKind, Seq<char>)>(((if neg { (-v) as i64 } else { v }), p + n)),
{
}

/// The value of the digits of the given radix among the graphemes `t`,
/// the last digit the least significant; other graphemes (underscores) do
/// not count.
pub open spec fn digits_value(t: Seq<Seq<char>>, radix: int) -> int
    decreases t.len(),
{
    if t.len() == 0 {
        0
    } else {
        match radix_digit(t.last(), radix) {
            Some(d) => digits_value(t.drop_last(), radix) * radix + d,
            None => digits_value(t.drop_last(), radix),
        }
    }
}

proof fn lemma_digits_value_step(s: Seq<Seq<char>>, i: int, radix: int)
    requires
        0 <= i < s.len(),
    ensures
        digits_value(s.take(i + 1), radix) == match radix_digit(s[i], radix) {
            Some(d) => digits_value(s.take(i), radix) * radix + d,
            None => digits_value(s.take(i), radix),
        },
{
    assert(s.take(i + 1).drop_last() =~= s.take(i));
}

proof fn lemma_dec_scan_value(s: Seq<Seq<char>>, i: int, acc: i64, us: bool)
    requires
        0 <= i <= s.len(),
        0 <= acc,
        acc == digits_value(s.take(i), 10),
    ensures
        dec_scan(s, i, acc, us) matches Ok((v, n)) ==> v == digits_value(s.take(n), 10),
        dec_scan(s, i, acc, us) matches Err((k, _)) && k == ErrorKind::IntegerOverflow ==> exists|n: int|
            i < n <= s.len() && #[trigger] digits_value(s.take(n), 10) > i64::MAX,
    decreases s.len() - i,
{
    if i < s.len() {
        lemma_digits_value_step(s, i, 10);
        match radix_digit(s[i], 10) {
            Some(d) => {
                let next = int_step(acc as int, 10, d);
                if next <= i64::MAX {
                    lemma_dec_scan_value(s, i + 1, next as i64, false);
                } else {
                    assert(digits_value(s.take(i + 1), 10) > i64::MAX);
                }
            },
            None => {
                if s[i] == tok('_') && !us {
                    lemma_dec_scan_value(s, i + 1, acc, true);
                }
            },
        }
    }
}

proof fn lemma_radix_scan_value(s: Seq<Seq<char>>, i: int, acc: i64, us: bool, radix: int)
    requires
        0 <= i <= s.len(),
        2 <= radix <= 16,
        0 <= acc,
        acc == digits_value(s.take(i), radix),
    ensures
        radix_scan(s, i, acc, us, radix) matches Ok((v, n)) ==> v == digits_value(s.take(n), radix),
        radix_scan(s, i, acc, us, radix) matches Err((k, _)) && k == ErrorKind::IntegerOverflow ==> exists|n: int|
            i < n <= s.len() && #[trigger] digits_value(s.take(n), radix) > i64::MAX,
    decreases s.len() - i,
{
    if i < s.len() {
        lemma_digits_value_step(s, i, radix);
        match radix_digit(s[i], radix) {
            Some(d) => {
                let next = int_step(acc as int, radix, d);
                assert(acc * radix >= 0) by (nonlinear_arith)
                    requires
                        acc >= 0,
                        radix >= 2,
                ;
                if next <= i64::MAX {
                    lemma_radix_scan_value(s, i + 1, next as i64, false, radix);
                } else {
                    assert(digits_value(s.take(i + 1), radix) > i64::MAX);
                }
            },
            None => {
                if s[i] == tok('_') && !us {
                    lemma_radix_scan_value(s, i + 1, acc, true, radix);
                }
            },
        }
    }
}

/// Digits read in any radix are worth what their digits are worth, never
/// more than `i64::MAX`: a scan gives the value of the digits up to where it
/// stopped, and refuses with `IntegerOverflow` only after digits worth more
/// than `i64::MAX`.
pub proof fn law_digits_value(s: Seq<Seq<char>>, radix: int)
    requires
        radix == 2 || radix == 8 || radix == 10 || radix == 16,
    ensures
        radix == 10 ==> (dec_scan(s, 0, 0, false) matches Ok((v, n)) ==> v == digits_value(s.take(n), 10)),
        radix == 10 ==> (dec_scan(s, 0, 0, false) matches Err((k, _)) && k == ErrorKind::IntegerOverflow
            ==> exists|n: int| 0 < n <= s.len() && #[trigger] digits_value(s.take(n), 10) > i64::MAX),
        radix != 10 ==> (radix_scan(s, 0, 0, false, radix) matches Ok((v, n)) ==> v == digits_value(s.take(n), radix)),
        radix != 10 ==> (radix_scan(s, 0, 0, false, radix) matches Err((k, _)) && k == ErrorKind::IntegerOverflow
            ==> exists|n: int| 0 < n <= s.len() && #[trigger] digits_value(s.take(n), radix) > i64::MAX),
{
    assert(s.take(0) =~= Seq::<Seq<char>>::empty());
    if radix == 10 {
        lemma_dec_scan_value(s, 0, 0, false);
    } else {
        lemma_radix_scan_value(s, 0, 0, false, radix);
    }
}

/// `after` is `before` moved on by `n` graphemes on the same line.
pub open spec fn resumed(before: ParserLine, after: ParserLine, n: int) -> bool {
    &&& after.wf()
    &&& after.graphs() == before.graphs()
    &&& after.segments() == before.segments()
    &&& after.line() == before.line()
    &&& after.cursor() == before.cursor() + n
}

/// The value of a single-character digit, exec version of `radix_digit`.
fn digit_value(g: &Grapheme, radix: u32) -> (r: Option<i64>)
    requires
        radix == 2 || radix == 8 || radix == 10 || radix == 16,
    ensures
        r matches Some(d) ==> radix_digit(g@, radix as int) == Some(d as int) && 0 <= d < radix,
        r is None ==> radix_digit(g@, radix as int) is None,
{
    if g.len() != 1 {
        return None;
    }
    let c = g[0];
    if '0' <= c && c <= '9' && (c as u32) - ('0' as u32) < radix {
        Some(((c as u32) - ('0' as u32)) as i64)
    } else if radix == 16 && 'a' <= c && c <= 'f' {
        Some(((c as u32) - ('a' as u32) + 10) as i64)
    } else if radix == 16 && 'A' <= c && c <= 'F' {
        Some(((c as u32) - ('A' as u32) + 10) as i64)
    } else {
        None
    }
}

fn is_int_end_exec(g: &Grapheme) -> (r: bool)
    ensures
        r == is_int_end(g@),
{
    is_tok(g, ' ') || is_tok(g, '\t') || is_tok(g, '\n')
}

/// Whether a grapheme is a single decimal digit.
fn is_decimal_digit(g: &Grapheme) -> (r: bool)
    ensures
        r == (radix_digit(g@, 10) is Some),
{
    digit_value(g, 10).is_some()
}

/// Whether a grapheme is a single hexadecimal digit.
fn is_hexdigit_grapheme(g: &Grapheme) -> (r: bool)
    ensures
        r == (radix_digit(g@, 16) is Some),
{
    digit_value(g, 16).is_some()
}

impl TOMLParser {
    /// Parses decimal digits from the start of the current segment.
    fn dec_parse(context: ParserLine) -> (r: InnerParseResult<i64>)
        requires
            context.wf(),
            context.cursor() < context.graphs().len(),
        ensures
            match dec_scan(context.seg_rest(), 0, 0, false) {
                Ok((v, n)) => r matches Ok((x, c)) && x == v && resumed(context, c, n),
                Err((k, d)) => r matches Err(e) && err_view(e) == err_at(context.line(), k, d),
            },
            r matches Ok((x, _)) ==> x >= 0,
    {
        let mut ctx = context;
        let ghost c0 = context;
        let ghost s = ctx.seg_rest();
        proof { c0.lemma_wf(); }
        let mut seg = ctx.next_seg().unwrap();
        let mut found_underscore = false;
        let mut output: i64 = 0;
        let ghost mut i: int = 0;
        assert(s.skip(0) =~= s);
        loop
            invariant
                seg.wf(),
                0 <= i <= s.len(),
                seg.rest() == s.skip(i),
                output >= 0,
                dec_scan(s, 0, 0, false) == dec_scan(s, i, output, found_underscore),
                s == context.seg_rest(),
                c0 == context,
                ctx.line() == context.line(),
                ctx.wf(),
                ctx.graphs() == c0.graphs(),
                ctx.segments() == c0.segments(),
                ctx.line() == c0.line(),
                ctx.anchor() == c0.seg_end(),
                s.len() <= ctx.anchor_len(),
                s == c0.seg_rest(),
                0 <= c0.cursor() <= c0.seg_end(),
                s.len() == c0.seg_end() - c0.cursor(),
            ensures
                dec_scan(s, 0, 0, false) == Ok::<(i64, int), (ErrorKind, Seq<char>)>((output, i)),
            decreases s.len() - i,
        {
            let previous = output;
            match seg.peek() {
                None => {
                    assert(i >= s.len());
                    if found_underscore {
                        assert(dec_scan(s, i, output, found_underscore) == Err::<(i64, int), (ErrorKind, Seq<char>)>((ErrorKind::IntegerTrailingUnderscore, Seq::empty())));
                        let e = error_at(&ctx, ErrorKind::IntegerTrailingUnderscore);
                        assert(err_view(e) == err_at(c0.line(), ErrorKind::IntegerTrailingUnderscore, Seq::empty()));
                        return Err(e);
                    } else {
                        assert(dec_scan(s, i, output, found_underscore) == Ok::<(i64, int), (ErrorKind, Seq<char>)>((output, i)));
                        break;
                    }
                },
                Some(ch) => {
                    assert(ch@ == s[i]);
                    match digit_value(ch, 10) {
                        Some(d) => {
                            let ghost us0 = found_underscore;
                            found_underscore = false;
                            let next = match output.checked_mul(10) {
                                Some(m) => m.checked_add(d),
                                None => None,
                            };
                            match next {
                                Some(v) => {
                                    assert(v == int_step(previous as int, 10, d as int));
                                    output = v;
                                    assert(dec_scan(s, i, previous, us0) == dec_scan(s, i + 1, output, false));
                                },
                                None => {
                                    assert(int_step(previous as int, 10, d as int) > i64::MAX);
                                    assert(dec_scan(s, i, previous, us0) == Err::<(i64, int), (ErrorKind, Seq<char>)>((ErrorKind::IntegerOverflow, Seq::empty())));
                                    let e = error_at(&ctx, ErrorKind::IntegerOverflow);
                                    assert(err_view(e) == err_at(context.line(), ErrorKind::IntegerOverflow, Seq::empty()));
                                    return Err(e);
                                },
                            }
                        },
                        None => {
                            if is_tok(ch, '_') {
                                if found_underscore {
                                    assert(dec_scan(s, i, output, found_underscore) == Err::<(i64, int), (ErrorKind, Seq<char>)>((ErrorKind::IntegerDoubleUnderscore, Seq::empty())));
                                    return Err(error_at(&ctx, ErrorKind::IntegerDoubleUnderscore));
                                } else {
                                    assert(dec_scan(s, i, output, false) == dec_scan(s, i + 1, output, true));
                                    found_underscore = true;
                                }
                            } else if found_underscore {
                                assert(dec_scan(s, i, output, found_underscore) == Err::<(i64, int), (ErrorKind, Seq<char>)>((ErrorKind::IntegerTrailingUnderscore, Seq::empty())));
                                return Err(error_at(&ctx, ErrorKind::IntegerTrailingUnderscore));
                            } else if is_int_end_exec(ch) {
                                assert(dec_scan(s, i, output, found_underscore) == Ok::<(i64, int), (ErrorKind, Seq<char>)>((output, i)));
                                break;
                            } else {
                                assert(dec_scan(s, i, output, found_underscore) == Err::<(i64, int), (ErrorKind, Seq<char>)>((ErrorKind::IntegerBadDigit, ch@)));
                                return Err(error_with(&ctx, ErrorKind::IntegerBadDigit, ch));
                            }
                        },
                    }
                    seg.next();
                    proof {
                        i = i + 1;
                        assert(seg.rest() =~= s.skip(i));
                    }
                },
            }
        }
        let count = seg.count();
        assert(count == s.len() - i);
        let r = ParserLine::freeze(ctx, count);
        assert(r.cursor() == context.cursor() + i);
        assert(resumed(context, r, i));
        Ok((output, r))
    }

    /// Parses digits of the given radix from the start of the current segment.
    fn radix_parse(context: ParserLine, radix: u32) -> (r: InnerParseResult<i64>)
        requires
            context.wf(),
            context.cursor() < context.graphs().len(),
            radix == 2 || radix == 8 || radix == 16,
        ensures
            match radix_scan(context.seg_rest(), 0, 0, false, radix as int) {
                Ok((v, n)) => r matches Ok((x, c)) && x == v && resumed(context, c, n),
                Err((k, d)) => r matches Err(e) && err_view(e) == err_at(context.line(), k, d),
            },
            r matches Ok((x, _)) ==> x >= 0,
    {
        let mut ctx = context;
        let ghost c0 = context;
        let ghost s = ctx.seg_rest();
        proof { c0.lemma_wf(); }
        let mut seg = ctx.next_seg().unwrap();
        let mut found_underscore = false;
        let mut output: i64 = 0;
        let ghost mut i: int = 0;
        assert(s.skip(0) =~= s);
        loop
            invariant
                seg.wf(),
                0 <= i <= s.len(),
                seg.rest() == s.skip(i),
                output >= 0,
                radix == 2 || radix == 8 || radix == 16,
                radix_scan(s, 0, 0, false, radix as int) == radix_scan(s, i, output, found_underscore, radix as int),
                s == context.seg_rest(),
                c0 == context,
                ctx.line() == context.line(),
                ctx.wf(),
                ctx.graphs() == c0.graphs(),
                ctx.segments() == c0.segments(),
                ctx.line() == c0.line(),
                ctx.anchor() == c0.seg_end(),
                s.len() <= ctx.anchor_len(),
                0 <= c0.cursor() <= c0.seg_end(),
                s.len() == c0.seg_end() - c0.cursor(),
            ensures
                radix_scan(s, 0, 0, false, radix as int) == Ok::<(i64, int), (ErrorKind, Seq<char>)>((output, i)),
            decreases s.len() - i,
        {
            let previous = output;
            match seg.peek() {
                None => {
                    assert(i >= s.len());
                    assert(radix_scan(s, i, output, found_underscore, radix as int) == Ok::<(i64, int), (ErrorKind, Seq<char>)>((output, i)));
                    break;
                },
                Some(ch) => {
                    assert(ch@ == s[i]);
                    match digit_value(ch, radix) {
                        Some(d) => {
                            let ghost us0 = found_underscore;
                            found_underscore = false;
                            let next = match output.checked_mul(radix as i64) {
                                Some(m) => m.checked_add(d),
                                None => None,
                            };
                            match next {
                                Some(v) => {
                                    assert(v == int_step(previous as int, radix as int, d as int));
                                    output = v;
                                    assert(radix_scan(s, i, previous, us0, radix as int) == radix_scan(s, i + 1, output, false, radix as int));
                                },
                                None => {
                                    assert(int_step(previous as int, radix as int, d as int) > i64::MAX);
                                    assert(radix_scan(s, i, previous, us0, radix as int) == Err::<(i64, int), (ErrorKind, Seq<char>)>((ErrorKind::IntegerOverflow, Seq::empty())));
                                    return Err(error_at(&ctx, ErrorKind::IntegerOverflow));
                                },
                            }
                        },
                        None => {
                            if is_tok(ch, '_') {
                                if found_underscore {
                                    assert(radix_scan(s, i, output, found_underscore, radix as int) == Err::<(i64, int), (ErrorKind, Seq<char>)>((ErrorKind::IntegerDoubleUnderscore, Seq::empty())));
                                    return Err(error_at(&ctx, ErrorKind::IntegerDoubleUnderscore));
                                } else {
                                    assert(radix_scan(s, i, output, false, radix as int) == radix_scan(s, i + 1, output, true, radix as int));
                                    found_underscore = true;
                                }
                            } else if is_int_end_exec(ch) {
                                assert(radix_scan(s, i, output, found_underscore, radix as int) == Ok::<(i64, int), (ErrorKind, Seq<char>)>((output, i)));
                                break;
                            } else {
                                assert(radix_scan(s, i, output, found_underscore, radix as int) == Err::<(i64, int), (ErrorKind, Seq<char>)>((ErrorKind::IntegerBadDigit, ch@)));
                                return Err(error_with(&ctx, ErrorKind::IntegerBadDigit, ch));
                            }
                        },
                    }
                    seg.next();
                    proof {
                        i = i + 1;
                        assert(seg.rest() =~= s.skip(i));
                    }
                },
            }
        }
        let count = seg.count();
        assert(count == s.len() - i);
        let r = ParserLine::freeze(ctx, count);
        assert(r.cursor() == context.cursor() + i);
        Ok((output, r))
    }

    /// Parses hexadecimal digits into their value.
    fn hex_parse(context: ParserLine) -> (r: InnerParseResult<i64>)
        requires
            context.wf(),
            context.cursor() < context.graphs().len(),
        ensures
            match radix_scan(context.seg_rest(), 0, 0, false, 16) {
                Ok((v, n)) => r matches Ok((x, c)) && x == v && resumed(context, c, n),
                Err((k, d)) => r matches Err(e) && err_view(e) == err_at(context.line(), k, d),
            },
            r matches Ok((x, _)) ==> x >= 0,
    {
        Self::radix_parse(context, 16)
    }

    /// Parses octal digits into their value.
    fn oct_parse(context: ParserLine) -> (r: InnerParseResult<i64>)
        requires
            context.wf(),
            context.cursor() < context.graphs().len(),
        ensures
            match radix_scan(context.seg_rest(), 0, 0, false, 8) {
                Ok((v, n)) => r matches Ok((x, c)) && x == v && resumed(context, c, n),
                Err((k, d)) => r matches Err(e) && err_view(e) == err_at(context.line(), k, d),
            },
            r matches Ok((x, _)) ==> x >= 0,
    {
        Self::radix_parse(context, 8)
    }

    /// Parses binary digits into their value.
    fn bin_parse(context: ParserLine) -> (r: InnerParseResult<i64>)
        requires
            context.wf(),
            context.cursor() < context.graphs().len(),
        ensures
            match radix_scan(context.seg_rest(), 0, 0, false, 2) {
                Ok((v, n)) => r matches Ok((x, c)) && x == v && resumed(context, c, n),
                Err((k, d)) => r matches Err(e) && err_view(e) == err_at(context.line(), k, d),
            },
            r matches Ok((x, _)) ==> x >= 0,
    {
        Self::radix_parse(context, 2)
    }

    /// Parses the digits after a `0x`, `0o` or `0b` prefix (`mode` is the
    /// prefix letter).
    fn nondec_parse(mode: char, context: ParserLine) -> (r: InnerParseResult<i64>)
        requires
            context.wf(),
            mode == 'x' || mode == 'o' || mode == 'b',
        ensures
            match nondec_scan(context.seg_rest(), 0, mode) {
                Ok((v, n)) => r matches Ok((x, c)) && x == v && resumed(context, c, n),
                Err((k, d)) => r matches Err(e) && err_view(e) == err_at(context.line(), k, d),
            },
            r matches Ok((x, _)) ==> x >= 0,
    {
        proof { context.lemma_wf(); }
        let first_is_digit = match context.peek() {
            Some(seg) => match seg.peek() {
                Some(g) => is_hexdigit_grapheme(g),
                None => false,
            },
            None => false,
        };
        if !first_is_digit {
            return Err(error_at(&context, ErrorKind::IntegerFormat));
        }
        if mode == 'x' {
            Self::hex_parse(context)
        } else if mode == 'o' {
            Self::oct_parse(context)
        } else {
            Self::bin_parse(context)
        }
    }


    /// Parses an integer from the current segment: optional spaces and tabs,
    /// an optional sign, then decimal digits, or `0x`, `0o` or `0b` and
    /// digits of that base; underscores may separate digits.
    pub fn parse_integer(context: ParserLine) -> (r: InnerParseResult<TOMLType>)
        requires
            context.wf(),
            context.cursor() < context.graphs().len(),
            count_ws(context.seg_rest()) < context.seg_rest().len(),
        ensures
            match int_parse(context.seg_rest()) {
                Ok((v, n)) => r matches Ok((t, c)) && t@ == TomlValue::Int(v) && resumed(context, c, n),
                Err((k, d)) => r matches Err(e) && err_view(e) == err_at(context.line(), k, d),
            },
    {
        let mut ctx = context;
        let ghost s = context.seg_rest();
        proof { context.lemma_wf(); lemma_count_ws_bounds(s); }
        let mut seg = ctx.next_seg().unwrap();
        seg.skip_ws();
        let ghost w = count_ws(s);
        let mut is_negative = false;
        let mut plus_found = false;
        {
            let ch = seg.peek().unwrap();
            if is_tok(ch, '+') {
                plus_found = true;
                seg.next();
            } else if is_tok(ch, '-') {
                is_negative = true;
                seg.next();
            }
        }
        let ghost p: int = if is_negative || plus_found { w + 1 } else { w };
        assert(seg.rest() =~= s.skip(p));
        assert(tok('+')[0] == '+' && tok('-')[0] == '-');
        assert(is_negative == (w < s.len() && s[w] == tok('-')));
        assert(plus_found == (w < s.len() && s[w] == tok('+')));
        let mut output: i64 = 0;
        let ghost mut consumed: int = 0;
        match seg.peek() {
            Some(ch) => {
                if is_tok(ch, '0') {
                    seg.next();
                    match seg.next() {
                        None => {
                            proof {
                                consumed = p + 1;
                                assert(int_parse(s) == Ok::<(i64, int), (ErrorKind, Seq<char>)>((0i64, consumed)));
                            }
                        },
                        Some(prefix) => {
                            if is_int_end_exec(&prefix) {
                                proof {
                                    consumed = p + 2;
                                    assert(int_parse(s) == Ok::<(i64, int), (ErrorKind, Seq<char>)>((0i64, consumed)));
                                }
                            } else if is_tok(&prefix, 'b') || is_tok(&prefix, 'o') || is_tok(&prefix, 'x') {
                                if is_negative || plus_found {
                                    return Err(error_at(&ctx, ErrorKind::IntegerSignedPrefix));
                                }
                                let count = seg.count();
                                let c1 = ParserLine::freeze(ctx, count);
                                let ghost rest = s.skip(p + 2);
                                proof {
                                    assert(c1.cursor() == context.cursor() + p + 2);
                                    if count > 0 {
                                        ParserLine::lemma_same_segment(context, c1);
                                        assert(c1.seg_rest() =~= rest);
                                        assert(nondec_scan(c1.seg_rest(), 0, prefix@[0]) == nondec_scan(rest, 0, prefix@[0]));
                                    } else {
                                        c1.lemma_wf();
                                        assert(rest.len() == 0);
                                        let x = c1.cursor();
                                        if x < c1.graphs().len() {
                                            assert(x == context.seg_end());
                                            assert(is_seg_point(c1.graphs(), x));
                                            assert(c1.graphs()[x - 1] == prefix@);
                                            assert(c1.seg_rest()[0] == c1.graphs()[x]);
                                            assert(radix_digit(c1.seg_rest()[0], 16) is None);
                                        }
                                        assert(nondec_scan(c1.seg_rest(), 0, prefix@[0]) == nondec_scan(rest, 0, prefix@[0]));
                                    }
                                }
                                let (value, c2) = Self::nondec_parse(prefix[0], c1)?;
                                output = value;
                                ctx = c2;
                                proof {
                                    let n = nondec_scan(s.skip(p + 2), 0, prefix@[0])->Ok_0.1;
                                    consumed = p + 2 + n;
                                    assert(int_parse(s) == Ok::<(i64, int), (ErrorKind, Seq<char>)>((output, consumed)));
                                }
                                let ghost c2c = ctx.cursor();
                                proof { ctx.lemma_wf(); }
                                seg = match ctx.next_seg() {
                                    Some(next) => next,
                                    None => TOMLSeg::default(),
                                };
                                assert(ctx.anchor() - seg.rest().len() == c2c);
                            } else {
                                return Err(error_at(&ctx, ErrorKind::IntegerLeadingZero));
                            }
                        },
                    }
                } else if is_decimal_digit(ch) {
                    let count = seg.count();
                    let c1 = ParserLine::freeze(ctx, count);
                    proof {
                        ParserLine::lemma_same_segment(context, c1);
                        assert(c1.seg_rest() =~= s.skip(p));
                    }
                    let (value, c2) = Self::dec_parse(c1)?;
                    output = value;
                    ctx = c2;
                    proof {
                        let n = dec_scan(s.skip(p), 0, 0, false)->Ok_0.1;
                        consumed = p + n;
                        lemma_int_parse_decimal(s, w, is_negative, plus_found, p, output, n);
                        assert(int_parse(s) == Ok::<(i64, int), (ErrorKind, Seq<char>)>(((if is_negative { (-output) as i64 } else { output }), consumed)));
                    }
                    let ghost c2c = ctx.cursor();
                    proof { ctx.lemma_wf(); }
                    seg = match ctx.next_seg() {
                        Some(next) => next,
                        None => TOMLSeg::default(),
                    };
                    assert(ctx.anchor() - seg.rest().len() == c2c);
                } else {
                    return Err(error_with(&ctx, ErrorKind::IntegerBadStart, ch));
                }
            },
            None => {
                return Err(error_at(&ctx, ErrorKind::IntegerFormat));
            },
        }
        let ghost unsigned = output;
        if is_negative {
            output = -output;
        }
        let count = seg.count();
        let r = ParserLine::freeze(ctx, count);
        assert(r.cursor() == context.cursor() + consumed);
        assert(int_parse(s) == Ok::<(i64, int), (ErrorKind, Seq<char>)>((output, consumed)));
        Ok((TOMLType::Int(output), r))
    }

}

} // verus!


verus! {

proof fn lemma_count_ws_is(s: Seq<Seq<char>>, w: int)
    requires
        0 <= w < s.len(),
        forall|k: int| 0 <= k < w ==> #[trigger] crate::drafts::parsetools::is_ws_grapheme(s[k]),
        !crate::drafts::parsetools::is_ws_grapheme(s[w]),
    ensures
        count_ws(s) == w,
    decreases w,
{
    if w > 0 {
        assert forall|k: int| 0 <= k < w - 1 implies #[trigger] crate::drafts::parsetools::is_ws_grapheme(s.drop_first()[k]) by {
            assert(s.drop_first()[k] == s[k + 1]);
        }
        lemma_count_ws_is(s.drop_first(), w - 1);
    }
}

/// Law: a minus sign negates. After the same spaces and tabs, an integer
/// written with `-` reads as the negation of the integer written with `+`
/// in its place, over as many graphemes, and fails exactly as that one does.
pub proof fn law_int_minus_negates(s: Seq<Seq<char>>, w: int)
    requires
        0 <= w < s.len(),
        forall|k: int| 0 <= k < w ==> #[trigger] crate::drafts::parsetools::is_ws_grapheme(s[k]),
        s[w] == tok('-'),
    ensures
        match int_parse(s.update(w, tok('+'))) {
            Ok((v, n)) => int_parse(s) == Ok::<(i64, int), (ErrorKind, Seq<char>)>((((-v) as i64), n)),
            Err(e) => int_parse(s) == Err::<(i64, int), (ErrorKind, Seq<char>)>(e),
        },
{
    let s2 = s.update(w, tok('+'));
    assert(tok('-')[0] == '-' && tok('+')[0] == '+' && tok(' ')[0] == ' ' && tok('\t')[0] == '\t');
    assert(tok('-') != tok('+'));
    lemma_count_ws_is(s, w);
    assert forall|k: int| 0 <= k < w implies #[trigger] crate::drafts::parsetools::is_ws_grapheme(s2[k]) by {
        assert(s2[k] == s[k]);
    }
    lemma_count_ws_is(s2, w);
    assert(s2.skip(w + 1) =~= s.skip(w + 1));
    assert forall|k: int| w + 1 <= k < s.len() implies s2[k] == s[k] by {}
}

} // verus!
