//! The grimoire of a Blood on the Clocktower storyteller: the roles of the
//! Trouble Brewing script, the setup of a fifteen-player game, and the rules
//! that the storyteller runs each night and day.

pub mod roles;
pub mod game;
pub mod rng;
pub mod console;
