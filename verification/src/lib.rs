//! A minimal line-oriented chat relay: a message codec over newline-terminated
//! JSON lines, a client registry, a lossy bounded broadcast hub, and the
//! per-connection session state machine that ties them together.
//!
//! Everything here is pure logic: the surrounding process performs the socket
//! reads and writes and feeds the results in as plain values.

pub mod client;
pub mod codec;
pub mod hub;
pub mod messages;
pub mod registry;
pub mod session;

pub use codec::{decode, encode, DecodeError};
pub use hub::Hub;
pub use messages::{ClientId, Message, MessageView};
pub use registry::Registry;
pub use session::{Session, SessionAction, SessionEvent, SessionState};
