//! A client for the relay protocol of a chat multiplexer: the tagged object format, the
//! framing of messages, the command lines, and the matching of replies to requests.
pub mod bytes;
pub mod client;
pub mod command;
pub mod decode;
pub mod encode;
pub mod error;
pub mod frame;
pub mod message;
pub mod object;
pub mod resolver;
pub mod text;

pub use client::Client;
pub use error::Error;
pub use object::Object;
