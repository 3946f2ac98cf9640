#![verifier::loop_isolation(false)]

//! Voice-driven block deletion for a remote game server: an alias catalog
//! that resolves spoken phrases to canonical block identifiers, the
//! remote-console packet protocol, the player-locator geometry that turns a
//! position into a bounded deletion volume, and the event pipeline that
//! rate-limits recognized phrases and drives deletions.

pub mod audio;
pub mod catalog;
pub mod config;
pub mod laws;
pub mod lev;
pub mod numfmt;
pub mod order;
pub mod parse;
pub mod pipeline;
pub mod rcon;
pub mod service;
pub mod text;
pub mod ui;
