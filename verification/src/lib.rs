//! Merges `compile_commands.json` files from several build directories into
//! one deduplicated document and keeps it current as they change.
//!
//! The library holds the logic of that loop: discovery of matching files in
//! a directory walk, with pruning beneath a found match ([`discover`]); the
//! record store with its last-write-wins merge ([`store`]); the loader from
//! raw file bytes ([`json`]); the deterministic writer ([`render`]); and the
//! filter that turns filesystem notifications into reload decisions
//! ([`events`]). Reading directories and files, writing the output and
//! subscribing to notifications are left to the embedding program.

pub mod discover;
pub mod events;
pub mod json;
pub mod record;
pub mod render;
pub mod store;
