//! Framing codec and per-connection protocol state machine for a game
//! server's network front end.

pub mod connection;
pub mod data;
pub mod frame;
pub mod packet;
pub mod varint;
