//! A read-only decoder and B-tree walker for SQLite 3 database files.
//!
//! The file is held in memory as bytes. `varint`, `record` and `page`
//! decode the format; `database` presents the file as numbered pages and
//! holds its schema; `btree` walks table and index B-trees; `schema`, `sql`,
//! `row` and `query` answer `SELECT` statements. `encode` writes records,
//! and states that decoding undoes it. `table_tree`, `index_tree` and
//! `consistency` state what the walks find in trees that are in order.

pub mod btree;
pub mod bytes;
pub mod consistency;
pub mod database;
pub mod encode;
pub mod error;
pub mod float;
pub mod header;
pub mod index_tree;
pub mod order;
pub mod page;
pub mod pattern;
pub mod query;
pub mod record;
pub mod row;
pub mod schema;
pub mod sql;
pub mod table_tree;
pub mod text;
pub mod value;
pub mod varint;
