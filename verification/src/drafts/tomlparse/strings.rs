//! Strings on one line: the character classes TOML allows, escape
//! sequences, basic strings and literal strings.
use vstd::prelude::*;
use crate::text::{Grapheme, tok, is_tok, is_scalar_value, char_from_u32, lemma_chars_deep_view};
use crate::errors::{ErrorKind, TomlError};
use crate::tomltypes::{TOMLType, TomlValue};
use crate::drafts::parsetools::{ParserLine, LineCursor};
use super::{TOMLParser, InnerParseResult, err_view, err_at};

verus! {

/// A single control character that TOML strings may not hold: U+0000 to
/// U+0008, U+000A to U+001F, and U+007F.
pub open spec fn is_control_token(g: Seq<char>) -> bool {
    g.len() == 1 && ((g[0] as u32) <= 0x8 || (0xA <= (g[0] as u32) && (g[0] as u32) <= 0x1F) || (g[0] as u32)
        == 0x7F)
}

pub open spec fn valid_str(g: Seq<char>) -> bool {
    !is_control_token(g)
}

pub open spec fn valid_multstr(g: Seq<char>) -> bool {
    g == tok('\n') || g == tok('\r') || valid_str(g)
}

pub open spec fn valid_litstr(g: Seq<char>) -> bool {
    g == tok('\t') || valid_str(g)
}

pub open spec fn valid_multi_litstr(g: Seq<char>) -> bool {
    g == tok('\t') || g == tok('\n') || valid_str(g)
}

/// A character of a bare key: ASCII letters and digits, `_` and `-`.
pub open spec fn barekey_char(c: char) -> bool {
    ('A' <= c <= 'Z') || ('a' <= c <= 'z') || ('0' <= c <= '9') || c == '_' || c == '-'
}

/// A hexadecimal digit character.
pub open spec fn hex_char(c: char) -> bool {
    ('0' <= c <= '9') || ('a' <= c <= 'f') || ('A' <= c <= 'F')
}

/// The value of a hexadecimal digit character.
pub open spec fn hex_value(c: char) -> int {
    if '0' <= c <= '9' {
        (c as int) - ('0' as int)
    } else if 'a' <= c <= 'f' {
        (c as int) - ('a' as int) + 10
    } else {
        (c as int) - ('A' as int) + 10
    }
}

/// A grapheme whose first character is a hexadecimal digit.
pub open spec fn hex_start(g: Seq<char>) -> bool {
    g.len() > 0 && hex_char(g[0])
}

/// The character that a one-letter escape stands for.
pub open spec fn simple_escape(g: Seq<char>) -> Option<char> {
    if g == tok('b') {
        Some('\u{8}')
    } else if g == tok('t') {
        Some('\t')
    } else if g == tok('n') {
        Some('\n')
    } else if g == tok('f') {
        Some('\u{c}')
    } else if g == tok('r') {
        Some('\r')
    } else if g == tok('"') {
        Some('"')
    } else if g == tok('\\') {
        Some('\\')
    } else {
        None
    }
}

/// Reading the hexadecimal digits of a `\u` or `\U` escape in `g` from
/// position `i`: `d` digits read so far with value `v`. Four digits followed
/// by a non-digit, or eight digits, make the escape. A grapheme that begins
/// with a digit but holds more than one character cannot be read as a digit.
pub open spec fn hex_scan(g: Seq<Seq<char>>, i: int, d: int, v: int) -> Result<(int, int), ErrorKind>
    decreases 8 - d,
{
    if d >= 8 {
        Ok((v, 8))
    } else if 0 <= i + d < g.len() && hex_start(g[i + d]) {
        if g[i + d].len() != 1 {
            Err(ErrorKind::HexDigitCluster)
        } else {
            hex_scan(g, i, d + 1, 16 * v + hex_value(g[i + d][0]))
        }
    } else if d == 4 {
        Ok((v, 4))
    } else {
        Err(ErrorKind::InvalidUnicodeEscape)
    }
}

/// A `\u` or `\U` escape whose digits begin at `i`: the character and how
/// many digits it takes.
pub open spec fn utf8_escape(g: Seq<Seq<char>>, i: int) -> Result<(char, int), ErrorKind> {
    match hex_scan(g, i, 0, 0) {
        Ok((v, n)) => if is_scalar_value(v) {
            Ok((v as char, n))
        } else {
            Err(ErrorKind::InvalidUnicodeEscape)
        },
        Err(k) => Err(k),
    }
}

/// The escape sequence of a basic string whose letter is at `j` (just
/// after the backslash): the character and the position after it.
pub open spec fn basic_escape(g: Seq<Seq<char>>, j: int) -> Result<(char, int), ErrorKind> {
    if j < 0 || j >= g.len() {
        Err(ErrorKind::InvalidStringEscape)
    } else {
        match simple_escape(g[j]) {
            Some(c) => Ok((c, j + 1)),
            None => if g[j] == tok('u') || g[j] == tok('U') {
                match utf8_escape(g, j + 1) {
                    Ok((c, n)) => Ok((c, j + 1 + n)),
                    Err(ErrorKind::HexDigitCluster) => Err(ErrorKind::HexDigitCluster),
                    Err(_) => Err(ErrorKind::InvalidStringEscape),
                }
            } else {
                Err(ErrorKind::InvalidStringEscape)
            },
        }
    }
}

/// Reading a basic string from position `i` of the line `g`, with `acc`
/// read so far: its text and the position after the closing quote, or the
/// failure with the text it concerns.
pub open spec fn basic_scan(g: Seq<Seq<char>>, i: int, acc: Seq<char>) -> Result<(Seq<char>, int), (ErrorKind, Seq<char>)>
    decreases g.len() - i, 1int,
{
    if i < 0 || i >= g.len() {
        Err((ErrorKind::UnterminatedBasicString, Seq::empty()))
    } else if g[i] == tok('"') {
        Ok((acc, i + 1))
    } else if g[i] == tok('\\') {
        match basic_escape(g, i + 1) {
            Ok((c, j)) => if i < j <= g.len() {
                basic_scan(g, j, acc.push(c))
            } else {
                Err((ErrorKind::InvalidStringEscape, Seq::empty()))
            },
            Err(k) => Err((k, Seq::empty())),
        }
    } else if !valid_multstr(g[i]) {
        Err((ErrorKind::InvalidStringChar, first_of(g[i])))
    } else {
        basic_scan(g, i + 1, acc + g[i])
    }
}

/// Reading a literal string from position `i` of the line `g`.
pub open spec fn lit_scan(g: Seq<Seq<char>>, i: int, acc: Seq<char>) -> Result<(Seq<char>, int), (ErrorKind, Seq<char>)>
    decreases g.len() - i,
{
    if i < 0 || i >= g.len() {
        Err((ErrorKind::UnterminatedLiteralString, Seq::empty()))
    } else if g[i] == tok('\'') {
        Ok((acc, i + 1))
    } else if !valid_litstr(g[i]) {
        Err((ErrorKind::InvalidLiteralStringChar, first_of(g[i])))
    } else {
        lit_scan(g, i + 1, acc + g[i])
    }
}

/// The first character of a grapheme, as text (empty for an empty one).
pub open spec fn first_of(g: Seq<char>) -> Seq<char> {
    if g.len() > 0 {
        seq![g[0]]
    } else {
        Seq::empty()
    }
}

/// A `\u` escape takes four or eight digits.
pub proof fn lemma_hex_scan_count(g: Seq<Seq<char>>, i: int, d: int, v: int)
    requires
        0 <= d <= 8,
    ensures
        hex_scan(g, i, d, v) matches Ok((_, n)) ==> n == 4 || n == 8,
    decreases 8 - d,
{
    if d < 8 && 0 <= i + d < g.len() && hex_start(g[i + d]) && g[i + d].len() == 1 {
        lemma_hex_scan_count(g, i, d + 1, 16 * v + hex_value(g[i + d][0]));
    }
}

/// A basic string read from `i` ends after `i`.
pub proof fn lemma_basic_scan_progress(g: Seq<Seq<char>>, i: int, acc: Seq<char>)
    ensures
        basic_scan(g, i, acc) matches Ok((_, j)) ==> i < j <= g.len(),
    decreases g.len() - i,
{
    if 0 <= i < g.len() && g[i] != tok('"') {
        if g[i] == tok('\\') {
            if let Ok((c, j)) = basic_escape(g, i + 1) {
                if i < j <= g.len() {
                    lemma_basic_scan_progress(g, j, acc.push(c));
                }
            }
        } else if valid_multstr(g[i]) {
            lemma_basic_scan_progress(g, i + 1, acc + g[i]);
        }
    }
}

/// A literal string read from `i` ends after `i`.
pub proof fn lemma_lit_scan_progress(g: Seq<Seq<char>>, i: int, acc: Seq<char>)
    ensures
        lit_scan(g, i, acc) matches Ok((_, j)) ==> i < j <= g.len(),
    decreases g.len() - i,
{
    if 0 <= i < g.len() && g[i] != tok('\'') && valid_litstr(g[i]) {
        lemma_lit_scan_progress(g, i + 1, acc + g[i]);
    }
}

/// `after` is `before` moved to position `j` of the same line.
pub open spec fn moved_to(before: ParserLine, after: ParserLine, j: int) -> bool {
    &&& after.wf()
    &&& after.graphs() == before.graphs()
    &&& after.segments() == before.segments()
    &&& after.line() == before.line()
    &&& after.cursor() == j
}

} // verus!

verus! {

fn is_control_grapheme(g: &Grapheme) -> (r: bool)
    ensures
        r == is_control_token(g@),
{
    if g.len() != 1 {
        return false;
    }
    let c = g[0] as u32;
    c <= 0x8 || (0xA <= c && c <= 0x1F) || c == 0x7F
}

/// Whether a grapheme may stand in a basic string.
pub fn is_valid_str_grapheme(g: &Grapheme) -> (r: bool)
    ensures
        r == valid_str(g@),
{
    !is_control_grapheme(g)
}

/// Whether a grapheme may stand in a multi-line basic string.
pub fn is_valid_multstr_grapheme(g: &Grapheme) -> (r: bool)
    ensures
        r == valid_multstr(g@),
{
    if is_tok(g, '\n') || is_tok(g, '\r') {
        true
    } else {
        is_valid_str_grapheme(g)
    }
}

/// Whether a grapheme may stand in a literal string.
pub fn is_valid_litstr_grapheme(g: &Grapheme) -> (r: bool)
    ensures
        r == valid_litstr(g@),
{
    if is_tok(g, '\t') {
        true
    } else {
        is_valid_str_grapheme(g)
    }
}

/// Whether a grapheme may stand in a multi-line literal string.
pub fn is_valid_multi_litstr_grapheme(g: &Grapheme) -> (r: bool)
    ensures
        r == valid_multi_litstr(g@),
{
    if is_tok(g, '\t') || is_tok(g, '\n') {
        true
    } else {
        is_valid_str_grapheme(g)
    }
}

/// Whether a grapheme may stand in a comment.
pub fn is_valid_comment_grapheme(g: &Grapheme) -> (r: bool)
    ensures
        r == valid_str(g@),
{
    is_valid_str_grapheme(g)
}

/// Whether a grapheme begins a bare key character (its first character
/// decides).
pub fn is_barekey_char(g: &Grapheme) -> (r: bool)
    ensures
        r == (g@.len() > 0 && barekey_char(g@[0])),
{
    if g.len() == 0 {
        false
    } else {
        let c = g[0];
        ('A' <= c && c <= 'Z') || ('a' <= c && c <= 'z') || ('0' <= c && c <= '9') || c == '_' || c == '-'
    }
}

fn is_hex_char(c: char) -> (r: bool)
    ensures
        r == hex_char(c),
{
    ('0' <= c && c <= '9') || ('a' <= c && c <= 'f') || ('A' <= c && c <= 'F')
}

/// Whether the text, if there is one, begins with a hexadecimal digit.
pub fn is_hexdigit(query: Option<&&str>) -> (r: bool)
    ensures
        r == (query matches Some(t) && t@.len() > 0 && hex_char(t@[0])),
{
    match query {
        Some(text) => {
            if text.unicode_len() == 0 {
                false
            } else {
                is_hex_char(text.get_char(0))
            }
        },
        None => false,
    }
}

/// Whether the text is a single decimal digit.
pub fn is_numeric(s: &str) -> (r: bool)
    ensures
        r == (s@.len() == 1 && '0' <= s@[0] <= '9'),
{
    if s.unicode_len() != 1 {
        false
    } else {
        let c = s.get_char(0);
        '0' <= c && c <= '9'
    }
}

/// Whether the text is a single octal digit.
pub fn is_octal(s: &str) -> (r: bool)
    ensures
        r == (s@.len() == 1 && '0' <= s@[0] <= '7'),
{
    if s.unicode_len() != 1 {
        false
    } else {
        let c = s.get_char(0);
        '0' <= c && c <= '7'
    }
}

/// The character a one-letter escape stands for.
pub fn simple_escape_exec(g: &Grapheme) -> (r: Option<char>)
    ensures
        r == simple_escape(g@),
{
    if is_tok(g, 'b') {
        Some('\u{8}')
    } else if is_tok(g, 't') {
        Some('\t')
    } else if is_tok(g, 'n') {
        Some('\n')
    } else if is_tok(g, 'f') {
        Some('\u{c}')
    } else if is_tok(g, 'r') {
        Some('\r')
    } else if is_tok(g, '"') {
        Some('"')
    } else if is_tok(g, '\\') {
        Some('\\')
    } else {
        None
    }
}

fn hex_digit_value(c: char) -> (r: u64)
    requires
        hex_char(c),
    ensures
        r == hex_value(c),
        r < 16,
{
    if '0' <= c && c <= '9' {
        (c as u64) - ('0' as u64)
    } else if 'a' <= c && c <= 'f' {
        (c as u64) - ('a' as u64) + 10
    } else {
        (c as u64) - ('A' as u64) + 10
    }
}

/// Reads the four or eight hexadecimal digits of a `\u` or `\U` escape at
/// the cursor and gives the character they name.
pub fn escape_utf8(cur: &mut LineCursor) -> (r: Result<char, ErrorKind>)
    requires
        old(cur).wf(),
    ensures
        final(cur).wf(),
        final(cur).graphs() == old(cur).graphs(),
        final(cur).segments() == old(cur).segments(),
        final(cur).line() == old(cur).line(),
        match utf8_escape(old(cur).graphs(), old(cur).pos()) {
            Ok((c, n)) => r == Ok::<char, ErrorKind>(c) && final(cur).pos() == old(cur).pos() + n,
            Err(k) => r == Err::<char, ErrorKind>(k),
        },
{
    let ghost g = cur.graphs();
    let ghost i = cur.pos();
    let mut hex_val: u64 = 0;
    let mut digits: usize = 0;
    proof { lemma_pow16_mono(0, 8); }
    while digits < 8
        invariant
            cur.wf(),
            cur.graphs() == g,
            cur.segments() == old(cur).segments(),
            cur.line() == old(cur).line(),
            g == old(cur).graphs(),
            i == old(cur).pos(),
            cur.pos() == i + digits,
            digits <= 8,
            hex_val < pow16(digits as nat),
            pow16(digits as nat) <= pow16(8),
            hex_scan(g, i, 0, 0) == hex_scan(g, i, digits as int, hex_val as int),
        ensures
            hex_scan(g, i, 0, 0) == Ok::<(int, int), ErrorKind>((hex_val as int, digits as int)),
            cur.pos() == i + digits,
            hex_val < pow16(8),
        decreases 8 - digits,
    {
        proof { cur.lemma_bounds(); }
        let next = cur.peek();
        match next {
            Some(d) => {
                if d.len() > 0 && is_hex_char(d[0]) {
                    if d.len() != 1 {
                        return Err(ErrorKind::HexDigitCluster);
                    }
                    cur.next();
                    let v = hex_digit_value(d[0]);
                    proof {
                        lemma_pow16_step(digits as nat);
                        assert(16 * hex_val + v < pow16((digits + 1) as nat)) by (nonlinear_arith)
                            requires
                                hex_val < pow16(digits as nat),
                                v < 16,
                                pow16((digits + 1) as nat) == 16 * pow16(digits as nat),
                        ;
                        lemma_pow16_mono((digits + 1) as nat, 8);
                        lemma_pow16_8();
                    }
                    hex_val = 16 * hex_val + v;
                } else if digits == 4 {
                    break;
                } else {
                    return Err(ErrorKind::InvalidUnicodeEscape);
                }
            },
            None => {
                if digits == 4 {
                    break;
                } else {
                    return Err(ErrorKind::InvalidUnicodeEscape);
                }
            },
        }
        digits = digits + 1;
    }
    proof { lemma_pow16_8(); }
    match char_from_u32(hex_val as u32) {
        Some(c) => Ok(c),
        None => Err(ErrorKind::InvalidUnicodeEscape),
    }
}

/// Sixteen to the power `n`.
pub open spec fn pow16(n: nat) -> int
    decreases n,
{
    if n == 0 {
        1
    } else {
        16 * pow16((n - 1) as nat)
    }
}

/// Sixteen to the power of eight is two to the power of thirty-two, and the
/// powers grow.
pub proof fn lemma_pow16_bounds()
    ensures
        pow16(8) == 0x1_0000_0000,
        forall|a: nat, b: nat| a <= b ==> 0 < #[trigger] pow16(a) <= #[trigger] pow16(b),
{
    lemma_pow16_8();
    assert forall|a: nat, b: nat| a <= b implies 0 < #[trigger] pow16(a) <= #[trigger] pow16(b) by {
        lemma_pow16_mono(a, b);
    }
}

/// One more hexadecimal digit stays below the next power of sixteen.
pub proof fn lemma_pow16_next(d: nat, v: int, x: int)
    requires
        d < 8,
        0 <= v < pow16(d),
        0 <= x < 16,
    ensures
        16 * v + x < pow16(d + 1),
        pow16(d + 1) <= 0x1_0000_0000,
{
    lemma_pow16_step(d);
    assert(16 * v + x < pow16(d + 1)) by (nonlinear_arith)
        requires
            v < pow16(d),
            x < 16,
            pow16(d + 1) == 16 * pow16(d),
    ;
    lemma_pow16_mono(d + 1, 8);
    lemma_pow16_8();
}

/// Whether a character is a hexadecimal digit.
pub fn is_hex_char_pub(c: char) -> (r: bool)
    ensures
        r == hex_char(c),
{
    is_hex_char(c)
}

/// The value of a hexadecimal digit character.
pub fn hex_digit_value_pub(c: char) -> (r: u64)
    requires
        hex_char(c),
    ensures
        r == hex_value(c),
        r < 16,
{
    hex_digit_value(c)
}

proof fn lemma_pow16_step(n: nat)
    ensures
        pow16(n + 1) == 16 * pow16(n),
{
}

proof fn lemma_pow16_mono(a: nat, b: nat)
    requires
        a <= b,
    ensures
        0 < pow16(a) <= pow16(b),
    decreases b,
{
    if a < b {
        lemma_pow16_mono(a, (b - 1) as nat);
    } else if a > 0 {
        lemma_pow16_mono((a - 1) as nat, (a - 1) as nat);
    }
}

proof fn lemma_pow16_8()
    ensures
        pow16(8) == 0x1_0000_0000,
{
    reveal_with_fuel(pow16, 9);
}

} // verus!

verus! {

/// The text of a grapheme, appended to `out`.
pub fn push_grapheme(out: &mut Vec<char>, g: &Grapheme)
    ensures
        final(out)@ == old(out)@ + g@,
{
    let mut j: usize = 0;
    while j < g.len()
        invariant
            j <= g.len(),
            out@ == old(out)@ + g@.take(j as int),
        decreases g.len() - j,
    {
        out.push(g[j]);
        j = j + 1;
        assert(out@ =~= old(out)@ + g@.take(j as int));
    }
    assert(g@.take(g.len() as int) =~= g@);
}

/// The first character of a grapheme, as text.
fn first_char_text(g: &Grapheme) -> (r: String)
    ensures
        r@ == first_of(g@),
{
    let mut v: Vec<char> = Vec::new();
    if g.len() > 0 {
        v.push(g[0]);
    }
    assert(v@ =~= first_of(g@));
    crate::text::string_from_chars(&v)
}

impl TOMLParser {
    /// Reads the escape sequence after a backslash in a basic string: the
    /// character it stands for and the context after it.
    fn parse_basic_escape_sequence(context: ParserLine) -> (r: Result<(char, ParserLine), ErrorKind>)
        requires
            context.wf(),
        ensures
            match basic_escape(context.graphs(), context.cursor()) {
                Ok((c, j)) => r matches Ok((x, p)) && x == c && moved_to(context, p, j),
                Err(k) => r == Err::<(char, ParserLine), ErrorKind>(k),
            },
    {
        let ghost g = context.graphs();
        let mut cur = LineCursor::start(context);
        proof { cur.lemma_bounds(); }
        match cur.next() {
            None => Err(ErrorKind::InvalidStringEscape),
            Some(c) => {
                match simple_escape_exec(&c) {
                    Some(ch) => Ok((ch, cur.finish())),
                    None => {
                        if is_tok(&c, 'u') || is_tok(&c, 'U') {
                            match escape_utf8(&mut cur) {
                                Ok(ch) => Ok((ch, cur.finish())),
                                Err(ErrorKind::HexDigitCluster) => Err(ErrorKind::HexDigitCluster),
                                Err(_) => Err(ErrorKind::InvalidStringEscape),
                            }
                        } else {
                            Err(ErrorKind::InvalidStringEscape)
                        }
                    },
                }
            },
        }
    }

    /// Parses a basic string (`"..."`) that closes on its line; the cursor
    /// is on the opening quote.
    pub(crate) fn parse_basic_string(&self, context: ParserLine) -> (r: InnerParseResult<TOMLType>)
        requires
            context.wf(),
            context.cursor() < context.graphs().len(),
        ensures
            match basic_scan(context.graphs(), context.cursor() + 1, Seq::empty()) {
                Ok((v, j)) => r matches Ok((t, c)) && t@ == TomlValue::BasicStr(v) && moved_to(context, c, j),
                Err((k, d)) => r matches Err(e) && err_view(e) == err_at(self.read_count(), k, d),
            },
    {
        let ghost g = context.graphs();
        let ghost start = context.cursor() + 1;
        let mut cur = LineCursor::start(context);
        cur.next();
        let mut pool: Vec<char> = Vec::new();
        loop
            invariant_except_break
                basic_scan(g, start, Seq::empty()) == basic_scan(g, cur.pos(), pool@),
            invariant
                cur.wf(),
                cur.graphs() == g,
                g == context.graphs(),
                cur.segments() == context.segments(),
                cur.line() == context.line(),
                start == context.cursor() + 1,
            ensures
                basic_scan(g, start, Seq::empty()) == Ok::<(Seq<char>, int), (ErrorKind, Seq<char>)>((pool@, cur.pos())),
                cur.wf(),
                cur.graphs() == g,
                cur.segments() == context.segments(),
                cur.line() == context.line(),
            decreases g.len() - cur.pos(),
        {
            proof { cur.lemma_bounds(); }
            let ghost i = cur.pos();
            match cur.next() {
                None => {
                    return Err(TomlError::plain(self.line_num(), ErrorKind::UnterminatedBasicString));
                },
                Some(ch) => {
                    if is_tok(&ch, '"') {
                        break;
                    } else if is_tok(&ch, '\\') {
                        let pl = cur.finish();
                        match Self::parse_basic_escape_sequence(pl) {
                            Ok((c, pline)) => {
                                proof {
                                    pline.lemma_wf();
                                    lemma_hex_scan_count(g, i + 2, 0, 0);
                                }
                                cur = LineCursor::start(pline);
                                pool.push(c);
                            },
                            Err(k) => {
                                return Err(TomlError::plain(self.line_num(), k));
                            },
                        }
                    } else if !is_valid_multstr_grapheme(&ch) {
                        return Err(TomlError { line: self.line_num(), kind: ErrorKind::InvalidStringChar, detail: first_char_text(&ch) });
                    } else {
                        push_grapheme(&mut pool, &ch);
                    }
                },
            }
        }
        let s = crate::text::string_from_chars(&pool);
        Ok((TOMLType::BasicStr(s), cur.finish()))
    }

    /// Parses a literal string (`'...'`) that closes on its line; the cursor
    /// is on the opening apostrophe.
    pub(crate) fn parse_basic_litstr(&self, context: ParserLine) -> (r: InnerParseResult<TOMLType>)
        requires
            context.wf(),
            context.cursor() < context.graphs().len(),
        ensures
            match lit_scan(context.graphs(), context.cursor() + 1, Seq::empty()) {
                Ok((v, j)) => r matches Ok((t, c)) && t@ == TomlValue::LitStr(v) && moved_to(context, c, j),
                Err((k, d)) => r matches Err(e) && err_view(e) == err_at(self.read_count(), k, d),
            },
    {
        let ghost g = context.graphs();
        let ghost start = context.cursor() + 1;
        let mut cur = LineCursor::start(context);
        cur.next();
        let mut pool: Vec<char> = Vec::new();
        loop
            invariant_except_break
                lit_scan(g, start, Seq::empty()) == lit_scan(g, cur.pos(), pool@),
            invariant
                start == context.cursor() + 1,
                cur.wf(),
                cur.graphs() == g,
                g == context.graphs(),
                cur.segments() == context.segments(),
                cur.line() == context.line(),
            ensures
                lit_scan(g, start, Seq::empty()) == Ok::<(Seq<char>, int), (ErrorKind, Seq<char>)>((pool@, cur.pos())),
                cur.wf(),
                cur.graphs() == g,
                cur.segments() == context.segments(),
                cur.line() == context.line(),
            decreases g.len() - cur.pos(),
        {
            proof { cur.lemma_bounds(); }
            match cur.next() {
                None => {
                    return Err(TomlError::plain(self.line_num(), ErrorKind::UnterminatedLiteralString));
                },
                Some(ch) => {
                    if is_tok(&ch, '\'') {
                        break;
                    } else if !is_valid_litstr_grapheme(&ch) {
                        return Err(TomlError { line: self.line_num(), kind: ErrorKind::InvalidLiteralStringChar, detail: first_char_text(&ch) });
                    } else {
                        push_grapheme(&mut pool, &ch);
                    }
                },
            }
        }
        let s = crate::text::string_from_chars(&pool);
        Ok((TOMLType::LitStr(s), cur.finish()))
    }
}

} // verus!
