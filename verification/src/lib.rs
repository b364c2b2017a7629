//! A compile-time front end for a small markup template language.
//!
//! The parser walks an already-tokenized input once, dispatching on short
//! token prefixes, and pushes output-construction operations to an
//! accumulator as it goes: literals become escaped text appends, `$`-splices
//! become expression appends, identifiers open elements with attributes, and
//! `$if`/`$else` chains become conditional operations whose branches are
//! captured in isolation.

pub mod tokens;
pub mod ops;
pub mod text;
pub mod parse;
pub mod laws;
