pub mod config;
pub mod keys;
pub mod log;
pub mod node;
pub mod region;
pub mod router;
pub mod state;
