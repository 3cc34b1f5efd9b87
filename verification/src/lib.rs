//! An in-memory JSON value with deferred numbers, a JSON / JSON5 parser, a
//! compact serialiser, a total order over values, JSON-Pointer access and a
//! small operator algebra.
//!
//! The library never touches floating-point hardware. A float is carried as
//! its IEEE-754 binary64 bit pattern; turning a literal into that pattern,
//! printing a pattern, and float arithmetic are asked of the embedding
//! program through plain values.

pub mod compare;
pub mod convert;
pub mod crud;
pub mod error;
pub mod float;
pub mod jptr;
pub mod json;
pub mod jsons;
pub mod laws;
pub mod lex;
pub mod num;
pub mod ops;
pub mod order;
pub mod parse;
pub mod property;
pub mod render;
pub mod roundtrip;
pub mod text;

pub use crate::error::{Error, ErrorKind};
pub use crate::json::{Json, Member, Value};
pub use crate::lex::Lex;
pub use crate::num::{Floating, Integral};
pub use crate::order::Order;
pub use crate::property::Property;
