//! What a server decides; the sockets themselves are elsewhere.

pub mod conn;
pub mod steps;
pub mod table;
pub mod tuning;
