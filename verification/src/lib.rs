//! An in-memory key-value server core speaking a Redis-like wire
//! protocol: the binary frame codec with partial-read handling, the
//! framing buffer that turns raw stream bytes into discrete frames, the
//! command parser and dispatcher, and the keyed store with per-key
//! expiration driven by a reaper.
//!
//! Everything here is synchronous and free of I/O: whoever owns a
//! socket feeds bytes in and writes reply bytes out, and whoever owns
//! the store serializes access to it and runs the reaper off
//! `Db::purge_expired_keys`.
pub mod cmd;
pub mod connection;
pub mod db;
pub mod frame;
pub mod frame_laws;
pub mod parse;
pub mod text;

pub use cmd::Command;
pub use connection::FrameBuffer;
