//! The outgoing live transfer: the archive format it streams, and the
//! orchestration of stop, archive, checksum and upload, with its promise
//! that every started transfer broadcasts exactly one terminal status —
//! completed or failure — and only after the transferring flag has
//! dropped.

use vstd::prelude::*;
use vstd::string::StrSliceExecFns;
use crate::archive::{chars_suffix, str_range_eq};

verus! {

/// The archive format a transfer streams to the peer node.
#[derive(Clone, Copy, PartialEq, Eq, Structural, Debug)]
pub enum TransferArchiveFormat {
    Tar,
    TarGz,
    TarZstd,
}

impl Default for TransferArchiveFormat {
    fn default() -> (r: Self)
        ensures
            r == TransferArchiveFormat::TarGz,
    {
        TransferArchiveFormat::TarGz
    }
}

impl TransferArchiveFormat {
    /// The file extension of each streamed format.
    pub fn extension(&self) -> (r: &'static str)
        ensures
            match self {
                TransferArchiveFormat::Tar => r@ == "tar"@,
                TransferArchiveFormat::TarGz => r@ == "tar.gz"@,
                TransferArchiveFormat::TarZstd => r@ == "tar.zst"@,
            },
    {
        match self {
            TransferArchiveFormat::Tar => "tar",
            TransferArchiveFormat::TarGz => "tar.gz",
            TransferArchiveFormat::TarZstd => "tar.zst",
        }
    }

    /// The format a file name announces, judged by its suffix; a name that
    /// carries none of the three is refused.
    pub fn from_name(s: &str) -> (r: Option<TransferArchiveFormat>)
        ensures
            r == (if chars_suffix(s@, ".tar"@) {
                Some(TransferArchiveFormat::Tar)
            } else if chars_suffix(s@, ".tar.gz"@) {
                Some(TransferArchiveFormat::TarGz)
            } else if chars_suffix(s@, ".tar.zst"@) {
                Some(TransferArchiveFormat::TarZstd)
            } else {
                Option::<TransferArchiveFormat>::None
            }),
    {
        let n = s.unicode_len();
        if ends_with(s, n, ".tar") {
            Some(TransferArchiveFormat::Tar)
        } else if ends_with(s, n, ".tar.gz") {
            Some(TransferArchiveFormat::TarGz)
        } else if ends_with(s, n, ".tar.zst") {
            Some(TransferArchiveFormat::TarZstd)
        } else {
            Option::None
        }
    }
}

/// Does `s` (of character length `n`) end in `pat`?
fn ends_with(s: &str, n: usize, pat: &str) -> (r: bool)
    requires
        n == s@.len(),
    ensures
        r == chars_suffix(s@, pat@),
{
    let m = pat.unicode_len();
    if m > n {
        return false;
    }
    str_range_eq(s, n - m, n, pat)
}

/// One externally visible effect of the transfer task.
#[derive(Clone, Copy, PartialEq, Eq, Structural, Debug)]
pub enum TransferAction {
    SetTransferring(bool),
    BroadcastProcessing,
    BroadcastCompleted,
    BroadcastFailure,
}

/// Is the action a terminal status broadcast?
pub open spec fn is_terminal(a: TransferAction) -> bool {
    a == TransferAction::BroadcastCompleted || a == TransferAction::BroadcastFailure
}

/// The effects a transfer run emits, in order, given how its stages ended.
/// A failed stop fails at once; otherwise the run announces `processing`,
/// and the terminal status depends on the archive task, the checksum task,
/// the upload's outcome and cancellation; the transferring flag always
/// drops first.
pub open spec fn spec_transfer_actions(
    stop_needed: bool,
    stop_ok: bool,
    archive_ok: bool,
    checksum_ok: bool,
    upload_ok: bool,
    cancelled: bool,
) -> Seq<TransferAction> {
    if stop_needed && !stop_ok {
        seq![
            TransferAction::SetTransferring(false),
            TransferAction::BroadcastFailure,
        ]
    } else if !archive_ok || !checksum_ok || !upload_ok || cancelled {
        seq![
            TransferAction::BroadcastProcessing,
            TransferAction::SetTransferring(false),
            TransferAction::BroadcastFailure,
        ]
    } else {
        seq![
            TransferAction::BroadcastProcessing,
            TransferAction::SetTransferring(false),
            TransferAction::BroadcastCompleted,
        ]
    }
}

/// Computes the ordered effects of one transfer run. The caller performs
/// them: it stops the server, runs the archive, checksum and upload tasks,
/// and reports how each ended.
pub fn transfer_actions(
    stop_needed: bool,
    stop_ok: bool,
    archive_ok: bool,
    checksum_ok: bool,
    upload_ok: bool,
    cancelled: bool,
) -> (r: Vec<TransferAction>)
    ensures
        r@ == spec_transfer_actions(
            stop_needed,
            stop_ok,
            archive_ok,
            checksum_ok,
            upload_ok,
            cancelled,
        ),
{
    let mut r: Vec<TransferAction> = Vec::new();
    if stop_needed && !stop_ok {
        r.push(TransferAction::SetTransferring(false));
        r.push(TransferAction::BroadcastFailure);
    } else if !archive_ok || !checksum_ok || !upload_ok || cancelled {
        r.push(TransferAction::BroadcastProcessing);
        r.push(TransferAction::SetTransferring(false));
        r.push(TransferAction::BroadcastFailure);
    } else {
        r.push(TransferAction::BroadcastProcessing);
        r.push(TransferAction::SetTransferring(false));
        r.push(TransferAction::BroadcastCompleted);
    }
    proof {
        assert(r@ =~= spec_transfer_actions(
            stop_needed,
            stop_ok,
            archive_ok,
            checksum_ok,
            upload_ok,
            cancelled,
        ));
    }
    r
}

/// How many terminal broadcasts a run emits.
pub open spec fn count_terminal(s: Seq<TransferAction>) -> nat
    decreases s.len(),
{
    if s.len() == 0 {
        0
    } else {
        count_terminal(s.drop_last()) + if is_terminal(s.last()) {
            1nat
        } else {
            0nat
        }
    }
}

/// Exactly one of completed or failure is broadcast per run, the run ends
/// with it, the transferring flag is cleared at the action just before it,
/// and the broadcast is `completed` exactly when the server stopped, the
/// archive, checksum and upload all succeeded, and nobody cancelled.
pub proof fn lemma_transfer_terminal(
    stop_needed: bool,
    stop_ok: bool,
    archive_ok: bool,
    checksum_ok: bool,
    upload_ok: bool,
    cancelled: bool,
)
    ensures
        ({
            let r = spec_transfer_actions(
                stop_needed,
                stop_ok,
                archive_ok,
                checksum_ok,
                upload_ok,
                cancelled,
            );
            &&& count_terminal(r) == 1
            &&& is_terminal(r.last())
            &&& r[r.len() - 2] == TransferAction::SetTransferring(false)
            &&& (r.last() == TransferAction::BroadcastCompleted <==> ((!stop_needed || stop_ok)
                && archive_ok && checksum_ok && upload_ok && !cancelled))
        }),
{
    let r = spec_transfer_actions(
        stop_needed,
        stop_ok,
        archive_ok,
        checksum_ok,
        upload_ok,
        cancelled,
    );
    assert(count_terminal(r) == 1) by {
        assert(count_terminal(r.drop_last()) == 0) by {
            assert(count_terminal(r.drop_last().drop_last()) == 0) by {
                if r.len() == 3 {
                    assert(count_terminal(r.drop_last().drop_last().drop_last()) == 0);
                }
            };
        };
    };
}

} // verus!
