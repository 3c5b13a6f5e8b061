//! Game logic of a two-player five-in-a-row ("caro") server: the board,
//! the rooms and the events that change them, the registry of connected
//! sockets, the bookkeeping of head-to-head results and the parsing of the
//! configuration.
pub mod types;
pub mod keyed;
pub mod board;
pub mod game;
pub mod text;
pub mod store;
pub mod sockets;
pub mod history;
pub mod config;
