//! Parser for `.env`-style configuration lines.
//!
//! Each line of a configuration source holds `KEY=value` with shell-like
//! quoting, backslash escapes and `$VAR` / `${VAR}` substitution. The parser
//! resolves substitutions first against the process environment — handed in
//! by the caller as an [`Environment`] snapshot — and then against the keys
//! parsed earlier from the same source, which the caller accumulates in a
//! [`SubstitutionTable`]. An undefined name expands to the empty string,
//! never to an error.

pub mod chars;
pub mod errors;
pub mod laws;
pub mod machine;
pub mod parse;
pub mod table;

pub use crate::errors::Error;
pub use crate::machine::ValueState;
pub use crate::parse::parse_line;
pub use crate::table::Environment;
pub use crate::table::SubstitutionTable;
