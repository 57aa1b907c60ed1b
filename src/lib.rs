//! A schema-driven codec for a subset of ASN.1: a lexer and parser for
//! `SEQUENCE` schemas, a resolver that turns them into a wire layout, and
//! an Octet Encoding Rules (X.696) decoder and encoder over that layout.
use vstd::prelude::*;

pub mod bounds;
pub mod lexer;
pub mod oer;
pub mod schema;

verus! {

} // verus!
