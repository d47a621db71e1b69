//! A small command-line argument parser.
//!
//! A schema of options and required positional arguments is declared through
//! [`vars::vars`]; the matching engine [`matches::matches`] walks a raw token
//! list against that schema and yields a mapping from canonical names to the
//! string values found, or a typed error.

pub mod errors;
pub mod matches;
pub mod strutil;
pub mod vars;
