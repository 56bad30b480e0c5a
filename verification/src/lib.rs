//! Reads loot messages out of a game client's memory, tells which of them are
//! new between two reads, and filters their items against a wish list.
pub mod client;
pub mod configuration;
pub mod loot;
pub mod memory;
pub mod message;
pub mod notify;
pub mod number;
pub mod text;
pub mod watch;
