//! The first sketch of the parser: an entry point and a line splitter.
pub mod parserline;

use std::collections::HashMap;
use vstd::prelude::*;
use crate::text::{Grapheme, graphemes_of, grapheme_clusters};

verus! {

/// The kinds of tokens of the sketch (none yet).
#[derive(Debug)]
pub enum TokenType {
    Unknown,
}

/// The sketch's entry point: it reads nothing yet and gives an empty table.
pub fn parse(file_path: &str) -> (r: Result<HashMap<String, TokenType>, String>)
    ensures
        r matches Ok(m) && m@ == Map::<String, TokenType>::empty(),
{
    Ok(HashMap::new())
}

/// The grapheme clusters of a text.
pub fn get_graphemes(s: &str) -> (r: Vec<Grapheme>)
    ensures
        r.deep_view() == grapheme_clusters(s@),
{
    graphemes_of(s)
}

} // verus!
