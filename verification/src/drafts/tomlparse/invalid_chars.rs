//! The characters that TOML strings may not hold.
use vstd::prelude::*;
use crate::text::{Grapheme, graphemes_of, grapheme_clusters};
use crate::drafts::parse_funcs::{get_invalid_comment_chars, invalid_comment_chars};

verus! {

/// The control characters a string may not hold, as one text.
pub fn get_invalid_str_graphemes() -> (r: String)
    ensures
        r@ == invalid_comment_chars(),
{
    get_invalid_comment_chars()
}

/// The grapheme clusters of a text.
pub fn get_graphemes(s: &str) -> (r: Vec<Grapheme>)
    ensures
        r.deep_view() == grapheme_clusters(s@),
{
    graphemes_of(s)
}

} // verus!
