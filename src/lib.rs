//! A server core for the card game Durak: the card model, the line protocol,
//! the lobby of players and tables, and the rule engine that checks each move.

pub mod game;
pub mod network;
pub mod rules;
pub mod text;
