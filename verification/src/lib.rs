//! Hosts-file registry and self-update logic, verified with Verus.
//!
//! The crate keeps a machine's hosts file merged with a block-list while
//! preserving the user's own entries, and drives the replacement of the
//! running executable by a verified release artifact. All file and network
//! access is left to the caller: the functions here work on byte strings and
//! plain values, and say in their contracts exactly what they return.

pub mod archive;
pub mod disk;
pub mod error;
pub mod hosts;
pub mod lifecycle;
pub mod message_digest;
pub mod parser;
pub mod registry;
pub mod roundtrip;
pub mod syntax;
pub mod text;
pub mod updater;
pub mod writer;
