//! Link protocol engine for a serial connection between a desktop
//! application and a remote boat: wire framing, the connection handshake,
//! the session state, the table of active links, health monitoring and the
//! acknowledged transfer of a planned path.
//!
//! The engine performs no input or output. Every operation is a step from a
//! state and an observed event to the next state and the action to carry out.

pub mod varint;
pub mod wire;
pub mod packet;
pub mod frame;
pub mod data;
pub mod connection;
pub mod error;
pub mod event;
pub mod port;
pub mod exchange;
pub mod handshake;
pub mod path;
pub mod registry;
pub mod monitor;
