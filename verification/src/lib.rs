//! Line grammar of a combat log: a date, a time and a comma-separated payload,
//! recognised character by character with every failure reported as a value.
//!
//! [`grammar`] is the mathematical model of the grammar over `Seq<char>`;
//! [`scan`] holds the primitive scanners, [`parse`] the composite parsers,
//! and [`laws`] the facts that follow from the model.

pub mod grammar;
pub mod laws;
pub mod parse;
pub mod record;
pub mod scan;
