//! The verified core of a distributed game server: its wire messages, the
//! map grid, the registry center's cluster bookkeeping and the server's
//! client sessions.
pub mod decimal;
pub mod map_tool;
pub mod node;
pub mod message;
pub mod table;
pub mod outside;
pub mod registry;
pub mod registry_laws;
pub mod config;
pub mod server;
pub mod server_laws;
