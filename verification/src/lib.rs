//! Stateless TCP scanning for Terraria servers: target ranges, the wire
//! codec, and the flow bookkeeping that drives a handshake without a socket.

pub mod exclusion;
pub mod iteration;
pub mod model;
pub mod net;
pub mod order;
pub mod outside;
pub mod packet;
pub mod parse;
pub mod ranges;
pub mod scanner;
pub mod targets;
pub mod throttle;
pub mod types;
