//! Bitfield packing recovery for C headers.
//!
//! A C compiler packs consecutive bit-field struct members into fixed-width
//! storage units.  This library recovers that packing from a parsed
//! declaration tree, replaces each storage group in the original source text
//! with a single placeholder field, and extracts a name-indexed table of the
//! grouped bit-field widths, so that a bit-field-oblivious struct-layout
//! extractor can still produce byte-layout-compatible declarations.

pub mod ast;
pub mod grouping;
pub mod splice;
pub mod info;
pub mod driver;
pub mod platform;
pub mod guards;
