use vstd::prelude::*;

pub mod value;
pub mod path;
pub mod tree;
pub mod text;
pub mod pattern;
pub mod query;
pub mod schema;
pub mod wal;
pub mod keyed;
pub mod btree;
pub mod lock;
pub mod store;
pub mod config;
pub mod laws;
pub mod undo;
