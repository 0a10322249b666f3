pub mod config;
pub mod engine;
pub mod key;
pub mod lock;
pub mod mvcc;
pub mod reader;
pub mod scan;
