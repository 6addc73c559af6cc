//! Chat-command parsing and event throttling for a stream overlay that
//! shows an ASCII bear whose colours viewers can change from chat.

pub mod text;
pub mod color;
pub mod command;
pub mod grammar;
pub mod events;
pub mod chat;
