//! A small relational storage and query engine.
//!
//! Storage: little-endian layouts of rows, slotted record pages and B+Tree
//! nodes; a first-fit free-space tracker; a buffer pool with CLOCK
//! replacement; the node-level logic of the B+Tree index; the catalogs.
//! Transactions: the lock table with deadlock detection, the write-ahead
//! log's records and buffering, and the recovery passes over the log.
//! Queries: lexer, parser, binder, logical planner, optimizer, physical
//! planner and the Volcano executor.
//!
//! Files are read and written by the caller: where a component needs a page
//! or appends to the log, it says which bytes to read or write.

pub mod bytes;
pub mod text;

pub mod row;
pub mod record;
pub mod free_list;
pub mod buffer_pool;
pub mod node;
pub mod btree;
pub mod storage;

pub mod lock_manager;
pub mod log_manager;
pub mod recovery_manager;

pub mod lexer;
pub mod parser;
pub mod binder;
pub mod planner;
pub mod optimizer;
pub mod physical_planner;
pub mod executor;
