//! Connection multiplexer for a chess site's WebSocket gateway.
//!
//! The library holds the verified core of the gateway: identifier types,
//! the pub/sub wire codec, the routing tables with their authentication
//! state machine, the per-IP rate limiter, the watched-game cache and the
//! chess analysis responder.

pub mod analysis;
pub mod cache;
pub mod gateway;
pub mod ids;
pub mod ipc;
pub mod limiter;
pub mod protocol;
pub mod registry;
pub mod session;
pub mod text;

pub use ids::{Flag, GameId, InvalidGameId, InvalidUserId, UserId};
