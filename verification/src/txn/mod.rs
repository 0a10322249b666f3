pub mod clock;
pub mod coordinator;
pub mod hlc;
pub mod lock_resolver;
pub mod records;
pub mod laws;
