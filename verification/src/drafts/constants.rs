//! Characters of interest to the parser.
use vstd::prelude::*;

verus! {

pub const COMMENT_TOKEN: char = '#';
pub const KEY_VAL_SEP: char = '=';
pub const SEQUENCE_DELIM: char = ',';
pub const TABLE_OPEN_TOKEN: char = '[';
pub const TABLE_CLOSE_TOKEN: char = ']';
pub const INLINETAB_OPEN_TOKEN: char = '{';
pub const INLINETAB_CLOSE_TOKEN: char = '}';
pub const STR_TOKEN: char = '"';
pub const LITERAL_STR_TOKEN: char = '\'';

} // verus!
