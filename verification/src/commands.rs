//! The edits of a shortcuts file as a whole: from the bytes of the file to
//! the bytes of the edited file.

use vstd::prelude::*;
use vstd::string::StringSliceAdditionalSpecFns;
use crate::app_id::{calculate_app_id, generated_app_id};
use crate::codec::{decode, decoding, encode, encoding, lemma_decode_encode, lemma_encode_decode};
use crate::collection::{added, has_name, lemma_edits_keep_wf, removed, ShortcutCollection};
use crate::error::ShortcutError;
use crate::shortcut::ShortcutView;
use crate::text::nul_free;

verus! {

/// What adding a game gives, from what the file decodes to: the bytes of the
/// file with the new shortcut at its end, or the reason why there is none.
pub open spec fn add_outcome(
    decoded: Result<Seq<ShortcutView>, int>,
    name: Seq<u8>,
    executable: Seq<u8>,
    app_id: u32,
) -> Result<Seq<u8>, ShortcutError> {
    match decoded {
        Err(o) => Err(ShortcutError::MalformedInput { offset: o as usize }),
        Ok(ss) => if has_name(ss, name) {
            Err(ShortcutError::DuplicateName)
        } else {
            Ok(encoding(added(ss, name, executable, app_id)))
        },
    }
}

/// What removing a game gives, from what the file decodes to: the bytes of
/// the file without the first shortcut of that name, or the reason why there
/// is none.
pub open spec fn remove_outcome(decoded: Result<Seq<ShortcutView>, int>, name: Seq<u8>) -> Result<
    Seq<u8>,
    ShortcutError,
> {
    match decoded {
        Err(o) => Err(ShortcutError::MalformedInput { offset: o as usize }),
        Ok(ss) => if has_name(ss, name) {
            Ok(encoding(removed(ss, name)))
        } else {
            Err(ShortcutError::NotFound)
        },
    }
}

/// Whether the bytes, or the failure, that a function gave are the outcome
/// that its contract names.
pub open spec fn gives(
    r: Result<Vec<u8>, ShortcutError>,
    outcome: Result<Seq<u8>, ShortcutError>,
) -> bool {
    match outcome {
        Ok(bytes) => r is Ok && r->Ok_0@ == bytes,
        Err(e) => r == Err::<Vec<u8>, ShortcutError>(e),
    }
}

/// Adds a game with the given name, executable and identifier to a shortcuts
/// file: the bytes of the new file, or why there is none.
pub fn add_game_with_id(content: &[u8], name: &[u8], executable: &[u8], app_id: u32) -> (r: Result<
    Vec<u8>,
    ShortcutError,
>)
    ensures
        gives(r, add_outcome(decoding(content@), name@, executable@, app_id)),
{
    let mut games = match decode(content) {
        Ok(shortcuts) => ShortcutCollection::new(shortcuts),
        Err(e) => {
            return Err(e);
        },
    };
    match games.add_with_id(name, executable, app_id) {
        Ok(()) => Ok(encode(games.list())),
        Err(e) => Err(e),
    }
}

/// Adds a game with the given name and executable to a shortcuts file: the
/// bytes of the new file, or why there is none. The identifier of the new
/// shortcut is the one that `steam_shortcuts_util` generates for the
/// executable and the name.
pub fn add_game(content: &[u8], name: &str, executable: &str) -> (r: Result<Vec<u8>, ShortcutError>)
    ensures
        gives(
            r,
            add_outcome(
                decoding(content@),
                name.spec_bytes(),
                executable.spec_bytes(),
                generated_app_id(executable@, name@),
            ),
        ),
{
    let app_id = calculate_app_id(executable, name);
    add_game_with_id(content, name.as_bytes(), executable.as_bytes(), app_id)
}

/// Removes the first game with the given name from a shortcuts file: the
/// bytes of the new file, or why there is none.
pub fn remove_game(content: &[u8], name: &[u8]) -> (r: Result<Vec<u8>, ShortcutError>)
    ensures
        gives(r, remove_outcome(decoding(content@), name@)),
{
    let mut games = match decode(content) {
        Ok(shortcuts) => ShortcutCollection::new(shortcuts),
        Err(e) => {
            return Err(e);
        },
    };
    match games.remove(name) {
        Ok(()) => Ok(encode(games.list())),
        Err(e) => Err(e),
    }
}

/// The file that an edit writes decodes to the edited list: after an addition
/// of a name and an executable without terminators to a file that decodes,
/// and after a removal from it.
pub proof fn lemma_edited_file_decodes(
    b: Seq<u8>,
    name: Seq<u8>,
    executable: Seq<u8>,
    app_id: u32,
)
    requires
        decoding(b) is Ok,
    ensures
        ({
            let ss = decoding(b)->Ok_0;
            &&& nul_free(name) && nul_free(executable) ==> decoding(
                encoding(added(ss, name, executable, app_id)),
            ) == Ok::<Seq<ShortcutView>, int>(added(ss, name, executable, app_id))
            &&& has_name(ss, name) ==> decoding(encoding(removed(ss, name))) == Ok::<
                Seq<ShortcutView>,
                int,
            >(removed(ss, name))
        }),
{
    let ss = decoding(b)->Ok_0;
    lemma_encode_decode(b);
    lemma_edits_keep_wf(ss, name, executable, app_id);
    if nul_free(name) && nul_free(executable) {
        lemma_decode_encode(added(ss, name, executable, app_id));
    }
    if has_name(ss, name) {
        lemma_decode_encode(removed(ss, name));
    }
}

} // verus!
