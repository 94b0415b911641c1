//! A read-only query engine over database files in the SQLite3 format:
//! varint and record decoding, table and index B-tree walks, the schema
//! table, and a small `SELECT` subset, each with its contract.

pub mod ast;
pub mod btree;
pub mod codec;
pub mod command;
pub mod error;
pub mod index;
pub mod pager;
pub mod parser;
pub mod query;
pub mod record;
pub mod schema;
