//! A parser-combinator library with a verified JSON grammar built on top of it.
//!
//! The building blocks live in [`parser::traits`] and [`parser::impls`]:
//! a minimal [`parser::traits::Input`] capability for parseable subjects,
//! a [`parser::traits::Parser`] capability whose contract ties every
//! executable parser to a mathematical denotation, and the usual
//! combinators (sequencing, ordered choice, repetition, separated lists,
//! delimiter wrapping, lookahead recovery). [`parser::json`] composes them
//! into a JSON value grammar with escape and numeric literal decoding.

pub mod parser;
