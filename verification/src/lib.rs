//! Parsing of C declarations.
//!
//! A [`parse::Parser`] takes the lexemes of a source text and hands out its
//! declarations one at a time: the specifiers of each declaration are folded
//! into a storage class, qualifiers and a type, and each declarator composes
//! its own type around that type. Errors are handed out among the
//! statements; warnings and lexical errors are collected as diagnostics.
//!
//! Every function is specified over a mathematical model of the parser:
//!
//! - [`data`]: tokens, keywords, types, symbols and statements;
//! - [`text`] and [`message`]: how they are spelled, and the wording of the
//!   diagnostics;
//! - [`specifiers`]: how one specifier keyword combines with the earlier
//!   ones;
//! - [`resolution`]: what a run of specifiers resolves to, and the laws of
//!   order independence and repetition;
//! - [`state`]: the model of a parser's state and of its token cursor;
//! - [`grammar`]: the model of the grammar of declarations;
//! - [`laws`]: what holds of that grammar;
//! - [`consumed`]: what reading consumes of the tokens;
//! - [`parse`]: the parser itself.

pub mod consumed;
pub mod data;
pub mod grammar;
pub mod laws;
pub mod message;
pub mod parse;
pub mod resolution;
pub mod specifiers;
pub mod state;
pub mod text;
