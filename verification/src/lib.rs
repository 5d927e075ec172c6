//! The server of the Syntecnia language: routing, negotiation, the response contract, static
//! files, event streams, and bounded parallel application of tasks.
//!
//! Everything that decides or computes is here and is verified. Sockets, files, clocks,
//! threads and the interpreter are the embedding program's; where a decision needs them, a
//! function says what is to be done and another takes the outcome.

pub mod body;
pub mod body_size;
pub mod builtins;
pub mod connection;
pub mod content;
pub mod dispatch;
pub mod headers;
pub mod host;
pub mod json;
pub mod media;
pub mod numeral;
pub mod order;
pub mod outside;
pub mod parallel;
pub mod render;
pub mod respond;
pub mod routing;
pub mod runtime;
pub mod sni;
pub mod static_files;
pub mod text;
pub mod tls;
pub mod url;
pub mod value;
pub mod wire;
