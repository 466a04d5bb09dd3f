//! Control-plane logic of an RTP audio mixing server: port allocation for
//! mixing sessions, length-prefixed message framing over a byte buffer, and
//! the bookkeeping around sessions and outgoing messages.

pub mod port_range_manager;
pub mod buffer;
pub mod codec;
pub mod session_manager;
pub mod error;
pub mod write_queue;
pub mod config;
pub mod message;
pub mod handler;
pub mod pipeline;
