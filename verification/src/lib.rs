//! A verified core for an HTTP/1.1 origin server.
//!
//! The crate holds the connection-oriented logic of the server: the wire
//! codec (request framing, parsing and response serialization), the header
//! container, the router and its dispatch decisions, the per-connection
//! state machine, the poller's registration bookkeeping, the configuration
//! model and parser, and the session and cookie helpers.  All text on the
//! wire is modeled as bytes.  Socket, filesystem and process work is left
//! to the embedding program, which feeds the results back in as plain
//! values.

#![verifier::loop_isolation(false)]

pub mod bytes;
pub mod cgi;
pub mod codec;
pub mod config_parser;
pub mod connection;
pub mod cookie;
pub mod directory;
pub mod error;
pub mod headers;
pub mod method;
pub mod poller;
pub mod redirect;
pub mod request;
pub mod response;
pub mod route;
pub mod router;
pub mod server_config;
pub mod session;
pub mod static_files;
pub mod status;
pub mod upload;
pub mod utf8;
