//! A non-blocking forward HTTP proxy core: a resumable request/response
//! parser over a bounded buffer, and the registry of client/origin
//! connection pairs that drives it.

pub mod connection;
pub mod lemmas;
pub mod model;
pub mod proxy;
pub mod scan;
mod token_gen;

pub use connection::{HttpConnection, Registry, BUFFER_SIZE, MAX_CONNECTIONS_COUNT};
pub use model::{HttpMethod, ProcessState, ProxyState, MAX_CAPACITY};
pub use proxy::{valid_protocol, valid_version, Proxy, ProxyResult};
pub use token_gen::TokenGen;
