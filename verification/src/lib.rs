//! An HTTP server, apart from its input and output.
//!
//! The library reads a configuration ([`config`]) and requests ([`http`]), finds the server
//! and the route that a request goes to ([`listen`], [`server`], [`router`]), and makes up
//! the answer: from files, uploads, listings, redirects, sessions ([`session`]) and scripts
//! ([`cgi`]). [`answer`] puts it on its way to the client. Whatever has to be done outside is
//! handed out as a value and comes back as a value: the steps of a handler
//! ([`router::Step`]), the transfers of a connection ([`client`], [`transfer`]) and the events
//! of the loop ([`epoll`]).
//!
//! [`laws`] holds what is true of the whole.
pub mod answer;
pub mod bytes;
pub mod cgi;
pub mod client;
pub mod config;
pub mod epoll;
pub mod http;
pub mod laws;
pub mod listen;
pub mod order;
pub mod path;
pub mod router;
pub mod server;
pub mod session;
pub mod text;
pub mod transfer;
pub mod util;
