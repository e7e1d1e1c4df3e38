//! An in-memory columnar database: typed columns, a SQL planner and executor,
//! a write-ahead log with snapshots, and the pieces a replica needs.

pub mod ast;
pub mod bench;
pub mod cli;
pub mod client;
pub mod codec;
pub mod column;
pub mod db;
pub mod exec;
pub mod float;
pub mod grpc;
pub mod http;
pub mod json;
pub mod laws;
pub mod like;
pub mod parse;
pub mod plan;
pub mod replication;
pub mod simd;
pub mod size;
pub mod sql;
pub mod storage;
pub mod table;
pub mod text;
pub mod token;

pub use crate::column::{Column, DataType, StrColumn, Value};
pub use crate::db::Database;
pub use crate::table::{Field, Schema, Table};
