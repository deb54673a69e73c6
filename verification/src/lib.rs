//! A TOML parser whose parsing logic is verified with Verus.
pub mod text;
pub mod errors;
pub mod tomltypes;
pub mod drafts;
pub mod parsedtoml;
pub mod bool_parse_proto;
pub mod prototype;

pub use parsedtoml::ParsedTOML;
pub use tomltypes::{TOMLTable, TOMLType, ValFromTOMLKey};
pub use errors::{ErrorKind, TomlError};
use vstd::prelude::*;
use drafts::tomlparse::{TOMLParser, file_scan, split_lines};
use tomltypes::TableView;

verus! {

/// Parses the text of a TOML file into its table: line by line, as
/// `file_scan` describes, from an empty table. An empty text gives an
/// empty table.
pub fn parse(text: &str) -> (r: Result<ParsedTOML, TomlError>)
    ensures
        match file_scan(split_lines(text@), 0, TableView::empty(), Seq::empty(), Seq::empty()) {
            Some(Ok(t)) => r matches Ok(p) && p.table_model() == t,
            Some(Err((k, l, d))) => r matches Err(e) && e.kind == k && e.line == l && e.detail@ == d,
            None => false,
        },
        text@.len() == 0 ==> (r matches Ok(p) && p.table_model() == TableView::empty()),
{
    let parser = TOMLParser::from_text(text);
    proof {
        assert(parser.heads() =~= Seq::<Seq<char>>::empty());
        if text@.len() == 0 {
            assert(split_lines(text@).len() == 0);
        }
    }
    let table = parser.parse_toml()?;
    Ok(ParsedTOML::from(table))
}

} // verus!
