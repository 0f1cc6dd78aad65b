//! The logic of a networked Bomberman: the wire formats of the lobby and the
//! uplink, how the server's endpoint routes a datagram, the client's picture
//! of a match and its session with the server, the built-in bot, keyboard
//! steering, the client's remembered settings and command line, and the
//! decisions behind its screens.

pub mod domain;
pub mod text;
pub mod settings;
pub mod codec;
pub mod lobby_status;
pub mod input;
pub mod world;
pub mod bot;
pub mod frames;
pub mod driver;
pub mod session;
pub mod board;
pub mod sound;
pub mod cli;
pub mod hints;
pub mod screens;
pub mod controls;
pub mod endpoint;
