//! Raises the terminal container that shows a Herdr session before a
//! notification click activates the bound terminal.
//!
//! The shared core finds the session's clients (`client`, `lsof`,
//! `procargs`) and decides which focus command to run (`raise`). Each
//! supported terminal (`kitty`, `iterm2`) only declares how a client maps to
//! that command; `terminal` lists the adapters in use.

pub mod text;
pub mod paths;
pub mod client;
pub mod lsof;
pub mod procargs;
pub mod terminal;
pub mod kitty;
pub mod iterm2;
pub mod raise;
