//! Parsing, formatting, name identities, dependency analysis and the typed
//! constraint-model vocabulary of the LightNix configuration language.

pub mod names;
pub mod scope;
pub mod resolver;
pub mod graph;
pub mod graph_order;
pub mod builder;
pub mod text;
pub mod pattern;
pub mod lexer;
pub mod ast;
pub mod parse_error;
pub mod parser;
pub mod syntax;
pub mod comments;
pub mod model;
pub mod formatter;
