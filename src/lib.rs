//! A single-user relational store: typed tables with ordered secondary
//! indexes, filtered retrieval, and a flat-file text format for each table.

pub mod codec;
pub mod database;
pub mod index;
pub mod lexer;
pub mod plan;
pub mod text;
pub mod value;
