//! What can go wrong.

use vstd::prelude::*;

verus! {

/// The ways in which an operation of this library fails.
#[derive(Clone, Copy, Debug, PartialEq, Eq, Structural)]
pub enum ShortcutError {
    /// The bytes are not a shortcuts file: `offset` is the position of the
    /// first token that cannot be read, which is the length of the buffer
    /// where the bytes end too early.
    MalformedInput { offset: usize },
    /// A shortcut with the name to add is in the list already.
    DuplicateName,
    /// No shortcut with the name to remove is in the list.
    NotFound,
}

} // verus!
