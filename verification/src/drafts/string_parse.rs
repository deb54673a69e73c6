//! Strings read from plain text: basic, literal and multi-line basic
//! strings, with their escape sequences.
use vstd::prelude::*;
use crate::text::{Grapheme, tok, is_tok, is_whitespace_char, is_unicode_ws, grapheme_clusters, graphemes_of, clone_graphemes, string_from_chars, char_from_u32, is_scalar_value, lemma_chars_deep_view};
use crate::drafts::parsetools::TOMLSeg;
use crate::drafts::tomlparse::multiline::{ml_text, text_without_delimiter};
use crate::drafts::tomlparse::strings::{hex_char, hex_start, hex_value, hex_scan, simple_escape, simple_escape_exec, push_grapheme, pow16, lemma_hex_scan_count};

verus! {

/// A grapheme whose first character is a space or a tab.
pub open spec fn ws_start(g: Seq<char>) -> bool {
    g.len() > 0 && (g[0] == ' ' || g[0] == '\t')
}

/// The number of graphemes at the start of `s` that begin with a space or
/// a tab.
pub open spec fn lead_blanks(s: Seq<Seq<char>>) -> int
    decreases s.len(),
{
    if s.len() > 0 && ws_start(s[0]) {
        1 + lead_blanks(s.drop_first())
    } else {
        0
    }
}

/// A `\u` or `\U` escape read from the start of `s`: the character and the
/// number of digits.
pub open spec fn sp_utf8(s: Seq<Seq<char>>) -> Option<(char, int)> {
    match hex_scan(s, 0, 0, 0) {
        Ok((v, n)) => if is_scalar_value(v) { Some((v as char, n)) } else { None },
        Err(_) => None,
    }
}

/// The escape sequence at the start of `s` (just after a backslash): the
/// character and how many graphemes it takes.
pub open spec fn sp_escape(s: Seq<Seq<char>>) -> Option<(char, int)> {
    if s.len() == 0 {
        None
    } else {
        match simple_escape(s[0]) {
            Some(c) => Some((c, 1)),
            None => if s[0] == tok('u') || s[0] == tok('U') {
                match sp_utf8(s.drop_first()) {
                    Some((c, n)) => Some((c, n + 1)),
                    None => None,
                }
            } else {
                None
            },
        }
    }
}

/// Reading a basic string from position `i` of `g` with `acc` read so far.
pub open spec fn sp_basic_scan(g: Seq<Seq<char>>, i: int, acc: Seq<char>) -> Option<Seq<char>>
    decreases g.len() - i,
{
    if i < 0 || i >= g.len() {
        None
    } else if g[i] == tok('"') {
        Some(acc)
    } else if g[i] == tok('\\') {
        match sp_escape(g.skip(i + 1)) {
            Some((c, n)) => if 0 < n && i + 1 + n <= g.len() {
                sp_basic_scan(g, i + 1 + n, acc.push(c))
            } else {
                None
            },
            None => None,
        }
    } else {
        sp_basic_scan(g, i + 1, acc + g[i])
    }
}

/// Reading a literal string from position `i` of `g`.
pub open spec fn sp_literal_scan(g: Seq<Seq<char>>, i: int, acc: Seq<char>) -> Option<Seq<char>>
    decreases g.len() - i,
{
    if i < 0 || i >= g.len() {
        None
    } else if g[i] == tok('\'') {
        Some(acc)
    } else {
        sp_literal_scan(g, i + 1, acc + g[i])
    }
}

/// A basic string after leading blanks: its text, or `None` when the text
/// does not hold one.
pub open spec fn basic_str_of(g: Seq<Seq<char>>) -> Option<Seq<char>> {
    let w = lead_blanks(g);
    if w < g.len() && g[w] == tok('"') {
        sp_basic_scan(g, w + 1, Seq::empty())
    } else {
        None
    }
}

/// A literal string after leading blanks.
pub open spec fn literal_str_of(g: Seq<Seq<char>>) -> Option<Seq<char>> {
    let w = lead_blanks(g);
    if w < g.len() && g[w] == tok('\'') {
        sp_literal_scan(g, w + 1, Seq::empty())
    } else {
        None
    }
}

proof fn lemma_lead_blanks(s: Seq<Seq<char>>)
    ensures
        0 <= lead_blanks(s) <= s.len(),
        forall|i: int| 0 <= i < lead_blanks(s) ==> #[trigger] ws_start(s[i]),
        lead_blanks(s) < s.len() ==> !ws_start(s[lead_blanks(s)]),
    decreases s.len(),
{
    if s.len() > 0 && ws_start(s[0]) {
        lemma_lead_blanks(s.drop_first());
        assert forall|i: int| 0 <= i < lead_blanks(s) implies #[trigger] ws_start(s[i]) by {
            if i > 0 {
                assert(s[i] == s.drop_first()[i - 1]);
            }
        }
    }
}

} // verus!

verus! {

/// The grapheme clusters of a line, for reading one by one.
pub fn utf8_peek(line: &str) -> (r: TOMLSeg)
    ensures
        r.wf(),
        r.rest() == grapheme_clusters(line@),
        r.position() == 0,
{
    let r = TOMLSeg::new(line);
    assert(r.rest() =~= r.contents());
    r
}

/// Whether the text, if there is one, begins with a hexadecimal digit.
pub fn is_hexdigit(query: Option<&&str>) -> (r: bool)
    ensures
        r == (query matches Some(t) && t@.len() > 0 && hex_char(t@[0])),
{
    crate::drafts::tomlparse::strings::is_hexdigit(query)
}

/// Whether the text, if there is one, begins with a space or a tab.
pub fn is_whitespace(query: Option<&&str>) -> (r: bool)
    ensures
        r == (query matches Some(t) && t@.len() > 0 && (t@[0] == ' ' || t@[0] == '\t')),
{
    match query {
        Some(text) => {
            if text.unicode_len() == 0 {
                false
            } else {
                let c = text.get_char(0);
                c == ' ' || c == '\t'
            }
        },
        None => false,
    }
}

fn ws_grapheme(g: Option<&Grapheme>) -> (r: bool)
    ensures
        r == (g matches Some(x) && ws_start(x@)),
{
    match g {
        Some(x) => x.len() > 0 && (x[0] == ' ' || x[0] == '\t'),
        None => false,
    }
}

/// Skips the graphemes that begin with a space or a tab.
fn skip_blanks(iter: &mut TOMLSeg)
    requires
        old(iter).wf(),
    ensures
        final(iter).wf(),
        final(iter).contents() == old(iter).contents(),
        final(iter).rest() == old(iter).rest().skip(lead_blanks(old(iter).rest())),
{
    proof { lemma_lead_blanks(old(iter).rest()); }
    let ghost s0 = old(iter).rest();
    let ghost mut k: int = 0;
    assert(s0.skip(0) =~= s0);
    while ws_grapheme(iter.peek())
        invariant
            iter.wf(),
            iter.contents() == old(iter).contents(),
            s0 == old(iter).rest(),
            0 <= k <= s0.len(),
            lead_blanks(s0) == lead_blanks(iter.rest()) + k,
            iter.rest() == s0.skip(k),
        decreases iter.rest().len(),
    {
        let ghost r0 = iter.rest();
        iter.next();
        proof {
            k = k + 1;
            assert(iter.rest() =~= s0.skip(k));
        }
    }
    assert(iter.rest() == s0.skip(k));
    proof {
        lemma_lead_blanks(iter.rest());
        assert(lead_blanks(iter.rest()) == 0);
    }
}

/// Reads the four or eight hexadecimal digits of a `\u` or `\U` escape and
/// gives the character they name. A digit grapheme that carries further
/// characters is refused.
pub fn utf8_escape(iter: &mut TOMLSeg) -> (r: Option<char>)
    requires
        old(iter).wf(),
    ensures
        final(iter).wf(),
        final(iter).contents() == old(iter).contents(),
        match sp_utf8(old(iter).rest()) {
            Some((c, n)) => r == Some(c) && final(iter).rest() == old(iter).rest().skip(n),
            None => r is None,
        },
{
    let ghost s = iter.rest();
    let mut hex_val: u64 = 0;
    let mut digits: usize = 0;
    proof { crate::drafts::tomlparse::strings::lemma_pow16_bounds(); }
    while digits < 8
        invariant
            iter.wf(),
            iter.contents() == old(iter).contents(),
            s == old(iter).rest(),
            digits <= 8,
            digits <= s.len(),
            iter.rest() == s.skip(digits as int),
            hex_val < pow16(digits as nat),
            pow16(digits as nat) <= 0x1_0000_0000,
            hex_scan(s, 0, 0, 0) == hex_scan(s, 0, digits as int, hex_val as int),
        ensures
            hex_scan(s, 0, 0, 0) == Ok::<(int, int), crate::errors::ErrorKind>((hex_val as int, digits as int)),
            iter.wf(),
            iter.contents() == old(iter).contents(),
            iter.rest() == s.skip(digits as int),
            hex_val < 0x1_0000_0000,
        decreases 8 - digits,
    {
        let next = iter.peek();
        let is_digit = match next {
            Some(d) => d.len() > 0 && crate::drafts::tomlparse::strings::is_hex_char_pub(d[0]),
            None => false,
        };
        if is_digit {
            let d = iter.next().unwrap();
            if d.len() != 1 {
                return None;
            }
            let v = crate::drafts::tomlparse::strings::hex_digit_value_pub(d[0]);
            proof {
                crate::drafts::tomlparse::strings::lemma_pow16_next(digits as nat, hex_val as int, v as int);
                assert(iter.rest() =~= s.skip(digits + 1));
            }
            hex_val = 16 * hex_val + v;
        } else if digits == 4 {
            break;
        } else {
            return None;
        }
        digits = digits + 1;
    }
    char_from_u32(hex_val as u32)
}

/// Reads the escape sequence after a backslash.
fn process_basic_escape_sequence(iter: &mut TOMLSeg) -> (r: Option<char>)
    requires
        old(iter).wf(),
    ensures
        final(iter).wf(),
        final(iter).contents() == old(iter).contents(),
        match sp_escape(old(iter).rest()) {
            Some((c, n)) => r == Some(c) && final(iter).rest() == old(iter).rest().skip(n),
            None => r is None,
        },
{
    let ghost s = iter.rest();
    match iter.next() {
        Some(c) => {
            match simple_escape_exec(&c) {
                Some(ch) => Some(ch),
                None => {
                    if is_tok(&c, 'u') || is_tok(&c, 'U') {
                        proof { assert(iter.rest() == s.drop_first()); }
                        let r = utf8_escape(iter);
                        proof {
                            lemma_hex_scan_within(s.drop_first(), 0, 0, 0);
                            lemma_hex_scan_count(s.drop_first(), 0, 0, 0);
                            if let Some((ch, n)) = sp_utf8(s.drop_first()) {
                                assert(0 <= n <= s.drop_first().len());
                                assert(s.drop_first().skip(n) =~= s.skip(n + 1));
                            }
                        }
                        r
                    } else {
                        None
                    }
                },
            }
        },
        None => None,
    }
}

/// Reads the escape sequence after a backslash.
pub fn process_basic_escape_sequence_pub(iter: &mut TOMLSeg) -> (r: Option<char>)
    requires
        old(iter).wf(),
    ensures
        final(iter).wf(),
        final(iter).contents() == old(iter).contents(),
        match sp_escape(old(iter).rest()) {
            Some((c, n)) => r == Some(c) && final(iter).rest() == old(iter).rest().skip(n),
            None => r is None,
        },
{
    process_basic_escape_sequence(iter)
}

/// The text of the basic string in the input (after leading blanks), or
/// `None` when there is none or it does not close.
pub fn process_basic_str(input: &str) -> (r: Option<String>)
    ensures
        match basic_str_of(grapheme_clusters(input@)) {
            Some(t) => r matches Some(s) && s@ == t,
            None => r is None,
        },
{
    basic_str_from(graphemes_of(input))
}

/// The text of the basic string in the graphemes (after leading blanks),
/// or `None` when there is none or it does not close.
pub fn basic_str_from(content: Vec<Grapheme>) -> (r: Option<String>)
    ensures
        match basic_str_of(content.deep_view()) {
            Some(t) => r matches Some(s) && s@ == t,
            None => r is None,
        },
{
    let ghost g = content.deep_view();
    let mut out: Vec<char> = Vec::new();
    let mut graphemes = TOMLSeg::from_graphemes(content);
    skip_blanks(&mut graphemes);
    proof { lemma_lead_blanks(g); }
    let ghost w = lead_blanks(g);
    if !crate::text::is_some_tok(graphemes.peek(), '"') {
        return None;
    }
    graphemes.next();
    assert(graphemes.rest() =~= g.skip(w + 1));
    loop
        invariant
            graphemes.wf(),
            g == content.deep_view(),
            graphemes.contents() == g,
            w == lead_blanks(g),
            w < g.len() && g[w] == tok('"'),
            0 <= w + 1 <= g.len(),
            graphemes.rest() == g.skip(g.len() - graphemes.rest().len()),
            g.len() - graphemes.rest().len() >= w + 1,
            sp_basic_scan(g, w + 1, Seq::empty()) == sp_basic_scan(g, g.len() - graphemes.rest().len(), out@),
        decreases graphemes.rest().len(),
    {
        let ghost i = g.len() - graphemes.rest().len();
        match graphemes.next() {
            Some(c) => {
                if is_tok(&c, '"') {
                    return Some(string_from_chars(&out));
                } else if is_tok(&c, '\\') {
                    proof { assert(graphemes.rest() =~= g.skip(i + 1)); }
                    match process_basic_escape_sequence(&mut graphemes) {
                        Some(ch) => {
                            proof {
                                let n = sp_escape(g.skip(i + 1))->Some_0.1;
                                lemma_sp_escape_len(g.skip(i + 1));
                                assert(g.skip(i + 1).skip(n) =~= g.skip(i + 1 + n));
                            }
                            out.push(ch);
                        },
                        None => {
                            return None;
                        },
                    }
                } else {
                    push_grapheme(&mut out, &c);
                    proof { assert(graphemes.rest() =~= g.skip(i + 1)); }
                }
            },
            None => {
                return None;
            },
        }
    }
}

/// The text of the literal string in the input (after leading blanks), or
/// `None` when there is none or it does not close.
pub fn process_literal_str(input: &str) -> (r: Option<String>)
    ensures
        match literal_str_of(grapheme_clusters(input@)) {
            Some(t) => r matches Some(s) && s@ == t,
            None => r is None,
        },
{
    literal_str_from(graphemes_of(input))
}

/// The text of the literal string in the graphemes (after leading blanks),
/// or `None` when there is none or it does not close.
pub fn literal_str_from(content: Vec<Grapheme>) -> (r: Option<String>)
    ensures
        match literal_str_of(content.deep_view()) {
            Some(t) => r matches Some(s) && s@ == t,
            None => r is None,
        },
{
    let ghost g = content.deep_view();
    let mut out: Vec<char> = Vec::new();
    let mut graphemes = TOMLSeg::from_graphemes(content);
    skip_blanks(&mut graphemes);
    proof { lemma_lead_blanks(g); }
    let ghost w = lead_blanks(g);
    if !crate::text::is_some_tok(graphemes.peek(), '\'') {
        return None;
    }
    graphemes.next();
    assert(graphemes.rest() =~= g.skip(w + 1));
    loop
        invariant
            graphemes.wf(),
            g == content.deep_view(),
            graphemes.contents() == g,
            w == lead_blanks(g),
            w < g.len() && g[w] == tok('\''),
            0 <= w + 1 <= g.len(),
            graphemes.rest() == g.skip(g.len() - graphemes.rest().len()),
            g.len() - graphemes.rest().len() >= w + 1,
            sp_literal_scan(g, w + 1, Seq::empty()) == sp_literal_scan(g, g.len() - graphemes.rest().len(), out@),
        decreases graphemes.rest().len(),
    {
        let ghost i = g.len() - graphemes.rest().len();
        match graphemes.next() {
            Some(c) => {
                if is_tok(&c, '\'') {
                    return Some(string_from_chars(&out));
                }
                push_grapheme(&mut out, &c);
                proof { assert(graphemes.rest() =~= g.skip(i + 1)); }
            },
            None => {
                return None;
            },
        }
    }
}

proof fn lemma_sp_escape_len(s: Seq<Seq<char>>)
    ensures
        sp_escape(s) matches Some((_, n)) ==> 1 <= n <= s.len(),
{
    if s.len() > 0 && simple_escape(s[0]) is None && (s[0] == tok('u') || s[0] == tok('U')) {
        lemma_hex_scan_count(s.drop_first(), 0, 0, 0);
        lemma_hex_scan_within(s.drop_first(), 0, 0, 0);
    }
}

/// The digits a `\u` escape reads lie within the text.
proof fn lemma_hex_scan_within(g: Seq<Seq<char>>, i: int, d: int, v: int)
    requires
        0 <= d <= 8,
        0 <= i,
        i + d <= g.len(),
    ensures
        hex_scan(g, i, d, v) matches Ok((_, n)) ==> i + n <= g.len(),
    decreases 8 - d,
{
    if d < 8 && 0 <= i + d < g.len() && hex_start(g[i + d]) && g[i + d].len() == 1 {
        lemma_hex_scan_within(g, i, d + 1, 16 * v + hex_value(g[i + d][0]));
    }
}

} // verus!

verus! {

/// Moving to the next grapheme that does not begin with whitespace, in the
/// rest `cur` of the current line and then in the lines from `next` on:
/// its first character, and what is left after it.
pub open spec fn gnw(lines: Seq<Seq<Seq<char>>>, cur: Seq<Seq<char>>, next: int) -> Option<(char, Seq<Seq<char>>, int)>
    decreases lines.len() - next, cur.len(),
{
    if cur.len() > 0 {
        let g = cur[0];
        if g.len() > 0 && !is_unicode_ws(g[0]) {
            Some((g[0], cur.drop_first(), next))
        } else {
            gnw(lines, cur.drop_first(), next)
        }
    } else if 0 <= next < lines.len() {
        gnw(lines, lines[next], next + 1)
    } else {
        None
    }
}

/// The escape sequence after a backslash in a multi-line string: a
/// one-letter or `\u` escape, or, after whitespace, the next character that
/// is not whitespace, perhaps on a later line.
pub open spec fn ml_escape(lines: Seq<Seq<Seq<char>>>, cur: Seq<Seq<char>>, next: int) -> Option<(char, Seq<Seq<char>>, int)> {
    if cur.len() == 0 {
        gnw(lines, cur, next)
    } else {
        let c = cur[0];
        let rest = cur.drop_first();
        match simple_escape(c) {
            Some(ch) => Some((ch, rest, next)),
            None => if c == tok('u') || c == tok('U') {
                match sp_utf8(rest) {
                    Some((ch, n)) => Some((ch, rest.skip(n), next)),
                    None => None,
                }
            } else if c.len() > 0 && !is_unicode_ws(c[0]) {
                None
            } else {
                gnw(lines, rest, next)
            },
        }
    }
}

/// Reading a multi-line string until three quotes in a row: the text read,
/// quotes included.
pub open spec fn ml_scan(
    lines: Seq<Seq<Seq<char>>>,
    cur: Seq<Seq<char>>,
    next: int,
    out: Seq<char>,
    count: int,
) -> Option<Seq<char>>
    decreases lines.len() - next, cur.len(),
{
    if count >= 3 {
        Some(out)
    } else if cur.len() == 0 {
        if 0 <= next < lines.len() {
            ml_scan(lines, lines[next], next + 1, out, count)
        } else {
            None
        }
    } else {
        let c = cur[0];
        let rest = cur.drop_first();
        if c == tok('\\') {
            match ml_escape(lines, rest, next) {
                Some((ch, cur2, next2)) => if (next < next2 <= lines.len()) || (next2 == next && cur2.len()
                    < cur.len()) {
                    ml_scan(lines, cur2, next2, out.push(ch), if ch == '"' { count + 1 } else { 0 })
                } else {
                    None
                },
                None => None,
            }
        } else if c == tok('"') {
            ml_scan(lines, rest, next, out + c, count + 1)
        } else if c.len() == 0 {
            None
        } else {
            ml_scan(lines, rest, next, out + c, 0)
        }
    }
}

/// The lines with a line feed put back at the end of each.
pub open spec fn with_line_feeds(lines: Seq<Seq<char>>) -> Seq<Seq<char>> {
    Seq::new(lines.len(), |i: int| lines[i] + seq!['\n'])
}

/// The grapheme clusters of each line.
pub open spec fn line_graphemes(lines: Seq<Seq<char>>) -> Seq<Seq<Seq<char>>> {
    Seq::new(lines.len(), |i: int| grapheme_clusters(lines[i]))
}

/// A multi-line basic string whose opening `"""` begins the first line,
/// each line given as its graphemes (line feed included): its text, or
/// `None` when it does not open or does not close.
pub open spec fn multi_string_in(gl: Seq<Seq<Seq<char>>>) -> Option<Seq<char>> {
    if gl.len() == 0 {
        None
    } else {
        let g0 = gl[0];
        if !(g0.len() >= 3 && g0[0] == tok('"') && g0[1] == tok('"') && g0[2] == tok('"')) {
            None
        } else {
            let c1 = g0.skip(3);
            let c2 = if c1.len() > 0 && c1[0] == tok('\n') { c1.drop_first() } else { c1 };
            match ml_scan(gl, c2, 1, Seq::empty(), 0) {
                Some(out) => Some(ml_text(out)),
                None => None,
            }
        }
    }
}

/// A multi-line basic string whose opening `"""` begins the first line:
/// its text, or `None` when it does not open or does not close.
pub open spec fn multi_string_of(lines: Seq<Seq<char>>) -> Option<Seq<char>> {
    multi_string_in(line_graphemes(with_line_feeds(lines)))
}

proof fn lemma_gnw_progress(lines: Seq<Seq<Seq<char>>>, cur: Seq<Seq<char>>, next: int)
    requires
        0 <= next <= lines.len(),
    ensures
        gnw(lines, cur, next) matches Some((_, cur2, next2)) ==> (next < next2 <= lines.len()) || (next2 == next
            && cur2.len() < cur.len()),
    decreases lines.len() - next, cur.len(),
{
    if cur.len() > 0 {
        let g = cur[0];
        if !(g.len() > 0 && !is_unicode_ws(g[0])) {
            lemma_gnw_progress(lines, cur.drop_first(), next);
        }
    } else if 0 <= next < lines.len() {
        lemma_gnw_progress(lines, lines[next], next + 1);
    }
}

/// The grapheme clusters of each line.
pub fn split_lines(lines: &Vec<String>) -> (r: Vec<Vec<Grapheme>>)
    ensures
        r.deep_view() == line_graphemes(lines.deep_view()),
        r.len() == lines.len(),
{
    let mut out: Vec<Vec<Grapheme>> = Vec::new();
    let mut i: usize = 0;
    while i < lines.len()
        invariant
            i <= lines.len(),
            out.len() == i,
            forall|j: int| 0 <= j < i ==> (#[trigger] out@[j]).deep_view() == grapheme_clusters(lines@[j]@),
        decreases lines.len() - i,
    {
        out.push(graphemes_of(lines[i].as_str()));
        i = i + 1;
    }
    assert(out.deep_view() =~= line_graphemes(lines.deep_view()));
    out
}

/// Moves to the next grapheme that does not begin with whitespace, in the
/// rest of the current line and then in the lines (given as graphemes) from
/// `next` on: its first character, the rest of its line, and the index of
/// the line to read after that.
pub fn nonwhitespace_in(currline_iter: TOMLSeg, glines: &Vec<Vec<Grapheme>>, next: usize) -> (r: Option<(char, TOMLSeg, usize)>)
    requires
        currline_iter.wf(),
        next <= glines.len(),
    ensures
        match gnw(glines.deep_view(), currline_iter.rest(), next as int) {
            Some((c, cur2, n2)) => r matches Some((x, it, k)) && x == c && it.wf() && it.rest() == cur2 && k == n2,
            None => r is None,
        },
{
    let ghost gl = glines.deep_view();
    let mut iter = currline_iter;
    let mut k = next;
    loop
        invariant
            gl == glines.deep_view(),
            iter.wf(),
            k <= glines.len(),
            gnw(gl, currline_iter.rest(), next as int) == gnw(gl, iter.rest(), k as int),
        decreases glines.len() - k, iter.rest().len(),
    {
        match iter.next() {
            Some(g) => {
                if g.len() > 0 && !is_whitespace_char(g[0]) {
                    return Some((g[0], iter, k));
                }
            },
            None => {
                if k >= glines.len() {
                    return None;
                }
                iter = TOMLSeg::from_graphemes(clone_graphemes(&glines[k]));
                k = k + 1;
            },
        }
    }
}

/// Moves to the next grapheme that does not begin with whitespace, reading
/// further lines as needed: its first character, the rest of its line,
/// and the index of the line to read after that.
pub fn get_nonwhitespace(currline_iter: TOMLSeg, lines: &Vec<String>, next: usize) -> (r: Option<(char, TOMLSeg, usize)>)
    requires
        currline_iter.wf(),
        next <= lines.len(),
    ensures
        match gnw(line_graphemes(lines.deep_view()), currline_iter.rest(), next as int) {
            Some((c, cur2, n2)) => r matches Some((x, it, k)) && x == c && it.wf() && it.rest() == cur2 && k == n2,
            None => r is None,
        },
{
    let gl = split_lines(lines);
    nonwhitespace_in(currline_iter, &gl, next)
}

/// Reads the escape sequence after a backslash in a multi-line string, the
/// lines given as graphemes: a one-letter or `\u` escape, or, after
/// whitespace, the next character that is not whitespace.
pub fn multi_escape_in(currline_iter: TOMLSeg, glines: &Vec<Vec<Grapheme>>, next: usize) -> (r: Option<(char, TOMLSeg, usize)>)
    requires
        currline_iter.wf(),
        next <= glines.len(),
    ensures
        match ml_escape(glines.deep_view(), currline_iter.rest(), next as int) {
            Some((c, cur2, n2)) => r matches Some((x, it, k)) && x == c && it.wf() && it.rest() == cur2 && k == n2,
            None => r is None,
        },
{
    let mut iter = currline_iter;
    match iter.next() {
        Some(c) => {
            match simple_escape_exec(&c) {
                Some(ch) => Some((ch, iter, next)),
                None => {
                    if is_tok(&c, 'u') || is_tok(&c, 'U') {
                        match utf8_escape(&mut iter) {
                            Some(ch) => Some((ch, iter, next)),
                            None => None,
                        }
                    } else if c.len() > 0 && !is_whitespace_char(c[0]) {
                        None
                    } else {
                        nonwhitespace_in(iter, glines, next)
                    }
                },
            }
        },
        None => nonwhitespace_in(iter, glines, next),
    }
}

/// Reads the escape sequence after a backslash in a multi-line string: a
/// one-letter or `\u` escape, or, after whitespace, the next character that
/// is not whitespace.
pub fn process_multi_escape_sequence(currline_iter: TOMLSeg, lines: &Vec<String>, next: usize) -> (r: Option<(char, TOMLSeg, usize)>)
    requires
        currline_iter.wf(),
        next <= lines.len(),
    ensures
        match ml_escape(line_graphemes(lines.deep_view()), currline_iter.rest(), next as int) {
            Some((c, cur2, n2)) => r matches Some((x, it, k)) && x == c && it.wf() && it.rest() == cur2 && k == n2,
            None => r is None,
        },
{
    let gl = split_lines(lines);
    multi_escape_in(currline_iter, &gl, next)
}

/// The text of a multi-line basic string whose opening `"""` begins the
/// first line, the lines given without their line feeds; `None` when it
/// does not open, an escape is invalid, or it does not close.
pub fn process_multi_string(lines: Vec<String>) -> (r: Option<String>)
    ensures
        match multi_string_of(lines.deep_view()) {
            Some(t) => r matches Some(s) && s@ == t,
            None => r is None,
        },
{
    let ghost ls = with_line_feeds(lines.deep_view());
    let mut lines2: Vec<String> = Vec::new();
    let mut i: usize = 0;
    while i < lines.len()
        invariant
            i <= lines.len(),
            lines2.len() == i,
            forall|j: int| 0 <= j < i ==> (#[trigger] lines2@[j])@ == lines@[j]@ + seq!['\n'],
        decreases lines.len() - i,
    {
        let mut line = lines[i].clone();
        line.append("\n");
        proof { reveal_strlit("\n"); }
        lines2.push(line);
        i = i + 1;
    }
    assert(lines2.deep_view() =~= ls);
    let gl = split_lines(&lines2);
    multi_string_from(&gl)
}

/// The text of a multi-line basic string whose opening `"""` begins the
/// first line, each line given as its graphemes (line feed included);
/// `None` when it does not open, an escape is invalid, or it does not close.
pub fn multi_string_from(glines: &Vec<Vec<Grapheme>>) -> (r: Option<String>)
    ensures
        match multi_string_in(glines.deep_view()) {
            Some(t) => r matches Some(s) && s@ == t,
            None => r is None,
        },
{
    let ghost gl = glines.deep_view();
    if glines.len() == 0 {
        return None;
    }
    let mut graphs = TOMLSeg::from_graphemes(clone_graphemes(&glines[0]));
    let ghost g0 = graphs.rest();
    assert(g0 == gl[0]);
    let mut count: usize = 0;
    while count < 3
        invariant
            gl == glines.deep_view(),
            gl.len() > 0,
            g0 == gl[0],
            graphs.wf(),
            count <= 3,
            count <= g0.len(),
            graphs.rest() == g0.skip(count as int),
            forall|j: int| 0 <= j < count ==> g0[j] == tok('"'),
        decreases 3 - count,
    {
        match graphs.next() {
            Some(g) => {
                if !is_tok(&g, '"') {
                    return None;
                }
                count = count + 1;
                assert(graphs.rest() =~= g0.skip(count as int));
            },
            None => {
                return None;
            },
        }
    }
    assert(g0.skip(3) == graphs.rest());
    if crate::text::is_some_tok(graphs.peek(), '\n') {
        graphs.next();
    }
    let ghost c2 = graphs.rest();
    assert(c2 == (if g0.skip(3).len() > 0 && g0.skip(3)[0] == tok('\n') { g0.skip(3).drop_first() } else { g0.skip(3) }));
    let ghost result = multi_string_in(gl);
    assert(result == match ml_scan(gl, c2, 1, Seq::empty(), 0) {
        Some(out) => Some(ml_text(out)),
        None => None,
    });
    count = 0;
    let mut output: Vec<char> = Vec::new();
    let mut k: usize = 1;
    while count < 3
        invariant
            gl == glines.deep_view(),
            result == multi_string_in(gl),
            result == match ml_scan(gl, c2, 1, Seq::empty(), 0) {
                Some(out) => Some(ml_text(out)),
                None => None,
            },
            graphs.wf(),
            count <= 3,
            1 <= k <= glines.len(),
            count <= output.len(),
            ml_scan(gl, c2, 1, Seq::empty(), 0) == ml_scan(gl, graphs.rest(), k as int, output@, count as int),
        decreases glines.len() - k, graphs.rest().len(),
    {
        let ghost r0 = graphs.rest();
        match graphs.next() {
            None => {
                if k >= glines.len() {
                    return None;
                }
                graphs = TOMLSeg::from_graphemes(clone_graphemes(&glines[k]));
                k = k + 1;
            },
            Some(c) => {
                if is_tok(&c, '\\') {
                    proof { lemma_ml_escape_progress(gl, graphs.rest(), k as int); }
                    match multi_escape_in(graphs, glines, k) {
                        Some((ch, it, k2)) => {
                            if ch == '"' {
                                count = count + 1;
                            } else {
                                count = 0;
                            }
                            output.push(ch);
                            graphs = it;
                            k = k2;
                        },
                        None => {
                            return None;
                        },
                    }
                } else if c.len() > 0 {
                    if is_tok(&c, '"') {
                        count = count + 1;
                    } else {
                        count = 0;
                    }
                    push_grapheme(&mut output, &c);
                } else {
                    return None;
                }
            },
        }
    }
    let text = text_without_delimiter(&output);
    Some(text)
}

proof fn lemma_ml_escape_progress(lines: Seq<Seq<Seq<char>>>, cur: Seq<Seq<char>>, next: int)
    requires
        0 <= next <= lines.len(),
    ensures
        ml_escape(lines, cur, next) matches Some((_, cur2, next2)) ==> (next < next2 <= lines.len()) || (next2 == next
            && cur2.len() <= cur.len()),
{
    lemma_gnw_progress(lines, cur, next);
    if cur.len() > 0 {
        lemma_gnw_progress(lines, cur.drop_first(), next);
        lemma_hex_scan_within(cur.drop_first(), 0, 0, 0);
        lemma_hex_scan_count(cur.drop_first(), 0, 0, 0);
    }
}

} // verus!
