//! Data structures and parsers of the kilojoule query language, with their proofs.

pub mod byte_vec;
pub mod heap_allocator;
pub mod reader;
pub mod obj_core;
pub mod json_lexer;
pub mod object_collector;
pub mod ring_buffer;
pub mod ast_node_pool;
pub mod parser;
pub mod syntax;
pub mod grammar;
pub mod obj_pool;
pub mod val;
pub mod parser_reducers;
pub mod list_access;
