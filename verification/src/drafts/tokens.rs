//! The value types of the parser.
pub use crate::tomltypes::{TOMLTable, TOMLType};
