//! Generation core for a C-compatible foreign-function header: a symbol
//! table over classified declarations, a transitive dependency collector
//! rooted at the exported functions, generic specialization, deterministic
//! ordering, and textual emission.

pub mod items;
pub mod library;
pub mod name_map;
pub mod text;
pub mod ty;
