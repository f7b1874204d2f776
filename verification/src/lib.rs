//! A signaling and book-keeping service: session cookies, a keyed
//! publish/subscribe registry, a book store and the rooms and signal routing
//! of a WebRTC signaling server.

pub mod decimal;
pub mod text;
pub mod config;
pub mod auth;
pub mod books;
mod book_slab;
pub mod keyed_broker;
pub mod signals;
