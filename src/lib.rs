//! Middleware chains around an RPC client.
//!
//! `route` holds the dispatch machine that decides, for one request, which
//! piece of the chain runs next; `client` holds the builder and the wrapped
//! client that drive it.
pub mod client;
pub mod route;
