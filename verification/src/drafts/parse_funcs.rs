//! Early parsing helpers: comments, blanks and escapes over the segments of
//! the earlier per-line context.
use vstd::prelude::*;
use crate::text::{Grapheme, tok, is_tok, graphemes_of, grapheme_clusters, string_from_chars};
use crate::drafts::parsetools::TOMLSeg;
use crate::drafts::parsetooling::ParserLine;
use crate::drafts::string_parse::{sp_escape, utf8_escape};
use crate::drafts::tomlparse::strings::{hex_char, is_control_token};

verus! {

/// Skips the graphemes that are a space or a tab.
pub fn skip_ws(seg: TOMLSeg) -> (r: TOMLSeg)
    requires
        seg.wf(),
    ensures
        r.wf(),
        r.rest() == seg.rest().skip(crate::drafts::parsetools::count_ws(seg.rest())),
{
    let mut seg = seg;
    let ghost s0 = seg.rest();
    seg.skip_ws();
    seg
}

/// Reads the escape sequence after a backslash.
pub fn process_basic_escape_sequence(iter: &mut TOMLSeg) -> (r: Option<char>)
    requires
        old(iter).wf(),
    ensures
        final(iter).wf(),
        match sp_escape(old(iter).rest()) {
            Some((c, n)) => r == Some(c) && final(iter).rest() == old(iter).rest().skip(n),
            None => r is None,
        },
{
    crate::drafts::string_parse::process_basic_escape_sequence_pub(iter)
}

/// Checks the rest of a comment; every character is allowed in a comment
/// here, so it always succeeds.
pub fn process_comment(pline: ParserLine) -> (r: Result<(), String>)
    requires
        pline.wf(),
        pline.remaining() > 0 || pline.handed_out() < pline.limit(),
    ensures
        r is Ok,
{
    let mut pline = pline;
    proof { pline.lemma_wf(); }
    let mut seg = pline.next_seg().unwrap();
    loop
        invariant
            pline.wf(),
            seg.wf(),
            pline.remaining() == 0,
        decreases pline.limit() - pline.handed_out(), seg.rest().len(),
    {
        match seg.next() {
            Some(ch) => {
                let text = string_from_chars(&ch);
                if !is_valid_comment(text.as_str()) {
                    return Err(String::new());
                }
            },
            None => {
                proof { pline.lemma_wf(); }
                if pline.peek().is_none() {
                    return Ok(());
                }
                seg = pline.next_seg().unwrap();
                proof { pline.lemma_wf(); }
            },
        }
    }
}

/// Whether a grapheme may stand in a comment: here every one may.
pub fn is_valid_comment(c: &str) -> (r: bool)
    ensures
        r,
{
    true
}

/// Whether the text, if there is one, is a single space or tab.
pub fn is_whitespace(query: Option<&&str>) -> (r: bool)
    ensures
        r == (query matches Some(t) && (t@ == seq![' '] || t@ == seq!['\t'])),
{
    match query {
        Some(text) => {
            if text.unicode_len() != 1 {
                assert(!(text@ == seq![' '] || text@ == seq!['\t']));
                false
            } else {
                let c = text.get_char(0);
                let r = c == ' ' || c == '\t';
                assert(r ==> (text@ =~= seq![' '] || text@ =~= seq!['\t']));
                r
            }
        },
        None => false,
    }
}

/// Reads the four or eight hexadecimal digits of a `\u` escape.
pub fn escape_utf8(iter: &mut TOMLSeg) -> (r: Option<char>)
    requires
        old(iter).wf(),
    ensures
        final(iter).wf(),
        match crate::drafts::string_parse::sp_utf8(old(iter).rest()) {
            Some((c, n)) => r == Some(c) && final(iter).rest() == old(iter).rest().skip(n),
            None => r is None,
        },
{
    utf8_escape(iter)
}

/// Whether the text, if there is one, begins with a hexadecimal digit.
pub fn is_hexdigit(query: Option<&&str>) -> (r: bool)
    ensures
        r == (query matches Some(t) && t@.len() > 0 && hex_char(t@[0])),
{
    crate::drafts::tomlparse::strings::is_hexdigit(query)
}

/// Whether the text is one of the control characters that a comment may
/// not hold (U+0000 to U+0008, U+000A to U+001F, U+007F).
pub fn invalid_comment_char(s: &str) -> (r: bool)
    ensures
        r == is_control_token(s@),
{
    if s.unicode_len() != 1 {
        return false;
    }
    let c = s.get_char(0) as u32;
    c <= 0x8 || (0xA <= c && c <= 0x1F) || c == 0x7F
}

/// The grapheme clusters of a text.
pub fn get_graphemes(s: &str) -> (r: Vec<Grapheme>)
    ensures
        r.deep_view() == grapheme_clusters(s@),
{
    graphemes_of(s)
}

/// The control characters a comment may not hold, in order.
pub open spec fn invalid_comment_chars() -> Seq<char> {
    Seq::new(9nat, |i: int| i as char) + Seq::new(22nat, |i: int| (i + 0xA) as char) + seq![0x7F as char]
}

/// The control characters a comment may not hold, as one text.
pub fn get_invalid_comment_chars() -> (r: String)
    ensures
        r@ == invalid_comment_chars(),
{
    let mut out: Vec<char> = Vec::new();
    let mut b: u8 = 0;
    while b <= 8
        invariant
            b <= 9,
            out@ == Seq::new(b as nat, |i: int| i as char),
        decreases 9 - b,
    {
        out.push(b as char);
        b = b + 1;
        assert(out@ =~= Seq::new(b as nat, |i: int| i as char));
    }
    let ghost first = out@;
    let mut c: u8 = 0xA;
    while c <= 0x1F
        invariant
            0xA <= c <= 0x20,
            out@ == first + Seq::new((c - 0xA) as nat, |i: int| (i + 0xA) as char),
        decreases 0x20 - c,
    {
        out.push(c as char);
        c = c + 1;
        assert(out@ =~= first + Seq::new((c - 0xA) as nat, |i: int| (i + 0xA) as char));
    }
    out.push(0x7Fu8 as char);
    assert(out@ =~= invalid_comment_chars());
    string_from_chars(&out)
}

} // verus!
