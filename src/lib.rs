//! A small message bus: a length-prefixed binary frame format, an incremental
//! frame decoder, and the routing state of a server and of its clients.

pub mod utils;
pub mod message;
pub mod decoder;
pub mod errors;
pub mod server;
pub mod client;
pub mod transport;

pub use errors::Error;
pub use message::Msg;
pub use message::MsgName;
pub use server::ClientName;
