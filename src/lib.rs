//! A parser for a small bracket-delimited notation: `[..]` lists, `{..}`
//! blocks and `(..)` items holding identifiers, numbers, quoted text,
//! comments and further groups.
//!
//! The accepted language is defined by the spec functions of [`grammar`];
//! the executable parser in [`scan`] is proved to compute exactly that
//! definition.

pub mod cursor;
pub mod grammar;
pub mod laws;
pub mod scan;
pub mod syntax;
