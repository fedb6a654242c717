//! The bulk-rename endpoint's request shape and its skip rules: a file is
//! renamed only when source and destination differ, neither is the root,
//! the destination is free, and the destination is not ignored. An ignored
//! *source* is no obstacle: renaming out of an ignored path is the one
//! write the ignore rules permit.

use vstd::prelude::*;

verus! {

/// One rename of the request.
pub struct RenameFile {
    pub to: String,
    pub from: String,
}

/// The rename endpoint's request body.
pub struct Payload {
    pub root: String,
    pub files: Vec<RenameFile>,
}

/// Whether one entry of the request is attempted at all; a skipped entry
/// does not count as renamed and raises no error.
pub fn rename_attempted(
    from_is_root: bool,
    to_is_root: bool,
    same: bool,
    from_missing: bool,
    to_exists: bool,
    to_ignored: bool,
) -> (r: bool)
    ensures
        r == !(from_is_root || to_is_root || same || from_missing || to_exists || to_ignored),
{
    !(from_is_root || to_is_root || same || from_missing || to_exists || to_ignored)
}

} // verus!
