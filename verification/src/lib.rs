//! Core logic of a per-node game-server daemon: a confined per-server
//! filesystem with symlink-safe resolution, ignore rules and quotas; the
//! archive engine's format handling, listings and round-trip laws; backup
//! bookkeeping for the local, object-store and snapshot adapters; the
//! server power state machine; the outgoing transfer pipeline; and the
//! SSH exec channel's command recognition.

pub mod archive;
pub mod backup;
pub mod compress_route;
pub mod entries;
pub mod exec_cmd;
pub mod ignore_rules;
pub mod ioflow;
pub mod remote;
pub mod rename_route;
pub mod s3plan;
pub mod state;
pub mod transfer;
pub mod vfs;

use vstd::prelude::*;

verus! {

/// Relies on str::from_utf8: it accepts a byte slice exactly when the
/// bytes are valid UTF-8.
#[verifier::external_body]
fn utf8_ok(s: &[u8]) -> (r: bool)
    ensures
        r == vstd::utf8::valid_utf8(s@),
{
    str::from_utf8(s).is_ok()
}

/// Does the byte slice hold any nonempty valid UTF-8 prefix? The console
/// stream uses this to cut partially received output at a character
/// boundary.
pub fn is_valid_utf8_slice(s: &[u8]) -> (r: bool)
    ensures
        r == exists|i: int|
            1 <= i <= s@.len() && vstd::utf8::valid_utf8(#[trigger] s@.subrange(0, i)),
{
    let mut idx = s.len();
    while idx > 0
        invariant
            0 <= idx <= s@.len(),
            forall|i: int|
                idx < i <= s@.len() ==> !vstd::utf8::valid_utf8(#[trigger] s@.subrange(0, i)),
        decreases idx,
    {
        if utf8_ok(vstd::slice::slice_subrange(s, 0, idx)) {
            return true;
        }
        idx -= 1;
    }
    false
}

} // verus!
