//! Lexical scanner for a small dynamic scripting language.
//!
//! The scanner walks a source text once, left to right, with one character of
//! lookahead, and turns it into an ordered sequence of [`token::Token`]
//! values ending in exactly one end-of-input token.  Lexical errors are
//! non-fatal: each one is recorded as a [`diagnostics::Diagnostic`] and the
//! scan continues, so one pass can surface several independent errors.

pub mod diagnostics;
pub mod scanner;
pub mod token;
