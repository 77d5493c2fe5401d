//! Backend logic of a game-launcher companion: version comparison, mod
//! update decisions, safe archive staging and server status probing.

pub mod version;
pub mod archive;
pub mod update;
pub mod probe;
pub mod config;
