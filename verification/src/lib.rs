//! Routing core for a relay bot: resolves a project name to the chat rooms
//! to notify and the secret that validates its events, and normalizes chat
//! usernames through a case-insensitive alias table.

pub mod aliases;
pub mod config;
