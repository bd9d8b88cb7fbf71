//! A clipboard synchronization core: the length-prefixed wire protocol, the
//! deduplicating bounded history store, the server-side session state
//! machine, the client's reconnect state machine, and the change monitor's
//! decision step.  The runtime around it does the socket, clipboard, and
//! file work and hands plain values in and out.
pub mod checksum;
pub mod client;
pub mod codec;
pub mod config;
pub mod content;
pub mod daemon;
pub mod http_poll;
pub mod models;
pub mod monitor;
pub mod protocol;
pub mod session;
pub mod store;
