//! Arrays of SQL values, as PostgreSQL has them.
//!
//! An array is stored as a record, and read and written as a literal such as
//! `{1,hello,NULL}`. The modules hold, from the ground up:
//!
//! - values: [`order`], [`floats`], [`numerals`], [`text`], [`value`],
//!   [`ordered`], [`error`];
//! - records: [`varint`], [`bigendian`], [`record`];
//! - literals: [`literal`] reads them, [`render`] writes them;
//! - functions and operators: [`coercion`], [`array`], [`membership`],
//!   [`joining`], [`comparison`], [`unnest`];
//! - functions for PostgreSQL clients: [`aliases`];
//! - what holds of them: [`laws`] and [`roundtrip`] of several together, and
//!   [`value_laws`], [`numeral_laws`], [`record_laws`], [`literal_laws`],
//!   [`render_laws`], [`array_laws`], [`search_laws`] and [`string_laws`] of each
//!   kind.

pub mod aliases;
pub mod array;
pub mod array_laws;
pub mod bigendian;
pub mod coercion;
pub mod comparison;
pub mod error;
pub mod floats;
pub mod joining;
pub mod laws;
pub mod literal;
pub mod literal_laws;
pub mod membership;
pub mod numeral_laws;
pub mod numerals;
pub mod order;
pub mod ordered;
pub mod record;
pub mod record_laws;
pub mod render;
pub mod render_laws;
pub mod roundtrip;
pub mod search_laws;
pub mod string_laws;
pub mod text;
pub mod unnest;
pub mod value;
pub mod value_laws;
pub mod varint;
