//! Parsers for Apache-style and Nginx-style configuration files, a shared
//! directive tree, resolution of inclusion directives and a small path query
//! language.

pub mod apache;
pub mod ast;
pub mod cpath;
pub mod inclusion;
pub mod lexer;
pub mod nginx;
pub mod utils;
