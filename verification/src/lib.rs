//! A facility-booking service core: a self-describing binary codec for
//! requests and responses, a time and booking model with overlap rules,
//! a request dispatcher with monitor subscriptions, and the reliability
//! (retry and duplicate-suppression) state kept on either side of an
//! unreliable datagram transport.

pub mod clock;
pub mod codec;
pub mod duplicates;
pub mod facilities;
pub mod handler;
pub mod ids;
pub mod log;
pub mod requests;
pub mod responses;
pub mod retry;
pub mod server;
pub mod text;
pub mod time;
