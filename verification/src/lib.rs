//! A canvas of characters that several clients edit together over the
//! network.
//!
//! A server keeps the canvas. Every client that connects is sent the canvas
//! as it stands, and from then on each edit that a client sends is applied
//! and passed on to all the others.
//!
//! - [`canvas`]: the grid of characters.
//! - [`network`]: the messages and their form on the wire.
//! - [`wire`]: the grammar of a line: words, numbers, characters.
//! - [`round_trip`]: what is encoded decodes to itself.
//! - [`clients`]: the registry of connected clients, and who a message
//!   goes to.
//! - [`session`]: the steps a server takes for one connection.
//! - [`screen`]: what a terminal shows of the canvas.
//! - [`text`]: strings and UTF-8.
//!
//! The library neither reads nor writes: it is handed bytes and says which
//! bytes go where. Every function is verified against its contract; what is
//! taken on trust from the standard library stands in [`text`].

pub mod canvas;
pub mod clients;
pub mod network;
pub mod round_trip;
pub mod screen;
pub mod session;
pub mod text;
pub mod wire;
