//! The identifier of a new shortcut, which the `steam_shortcuts_util` crate
//! computes.

use vstd::prelude::*;

verus! {

/// The identifier that `steam_shortcuts_util` gives a shortcut with this
/// executable and this name. It is a checksum of the two texts; nothing more
/// is stated of it here than that it depends on them alone.
pub uninterp spec fn generated_app_id(exe: Seq<char>, app_name: Seq<char>) -> u32;

/// Calls `steam_shortcuts_util::app_id_generator::calculate_app_id`, the
/// function by which that crate's `Shortcut::new` picks the identifier of a
/// new shortcut. Not proved: the contract only gives the result its name,
/// `generated_app_id` of the two texts.
#[verifier::external_body]
pub(crate) fn calculate_app_id(exe: &str, app_name: &str) -> (id: u32)
    ensures
        id == generated_app_id(exe@, app_name@),
{
    steam_shortcuts_util::app_id_generator::calculate_app_id(exe, app_name)
}

} // verus!
