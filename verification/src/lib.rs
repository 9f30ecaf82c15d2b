//! Schema-diff resolution: a base record type plus variants expressed as
//! field additions and removals, resolved into complete field lists.
//!
//! The pipeline runs strictly one way: text is lexed into tokens, tokens are
//! parsed into declarations, declarations are resolved against the base, and
//! the resolved types are rendered for the surrounding generator.

pub mod ast;
pub mod bytes;
pub mod emitter;
pub mod lexer;
pub mod parser;
pub mod pipeline;
pub mod resolver;
