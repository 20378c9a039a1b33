//! A storage engine that maps a directory tree of CSV files onto a
//! hierarchical, typed table namespace.

pub mod codec;
pub mod error;
pub mod line_injector;
pub mod lines;
pub mod names;
pub mod numbers;
pub mod schema;
pub mod store;
pub mod text;
