//! Non-Steam game shortcuts: a verified codec for the binary key-value file
//! that holds them, and the name-keyed operations on the decoded list.
//!
//! The file is a tree of entries. [`codec::decode`] reads it into a list of
//! [`shortcut::Shortcut`]s, in the order of the bytes; [`codec::encode`] writes
//! such a list back. A shortcut holds the fields that have a meaning here as
//! typed values and keeps every other entry of its record as it was read, in
//! its place, so that the records of a file that is decoded and encoded again
//! come out byte for byte. [`collection::ShortcutCollection`] adds and removes
//! shortcuts by name and keeps their orders equal to their positions.
//!
//! Texts are byte strings: the file does not say how they are encoded.

pub mod app_id;
pub mod codec;
pub mod collection;
pub mod commands;
pub mod decimal;
pub mod defaults;
pub mod error;
pub mod extras;
pub mod fidelity;
pub mod shortcut;
pub mod text;
pub mod wire;

pub use codec::{decode, encode};
pub use collection::ShortcutCollection;
pub use commands::{add_game, add_game_with_id, remove_game};
pub use error::ShortcutError;
pub use shortcut::{FieldId, Shortcut, Slot};
pub use wire::{Entry, Kind};
