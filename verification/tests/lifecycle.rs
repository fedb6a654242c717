use wings_core::state::{next_state, start_allowed, stop_escalation, PowerAction, ServerState};
use wings_core::transfer::{transfer_actions, TransferAction, TransferArchiveFormat};

#[test]
fn offline_one_step() {
    assert_eq!(
        next_state(ServerState::Offline, PowerAction::Start),
        ServerState::Starting
    );
    // a stop while offline is a no-op
    assert_eq!(
        next_state(ServerState::Offline, PowerAction::Stop),
        ServerState::Offline
    );
    assert_eq!(
        next_state(ServerState::Offline, PowerAction::ContainerExited),
        ServerState::Offline
    );
}

#[test]
fn stop_converges_to_offline() {
    assert_eq!(
        next_state(ServerState::Running, PowerAction::Stop),
        ServerState::Stopping
    );
    // the container may exit on its own...
    assert_eq!(
        next_state(ServerState::Stopping, PowerAction::ContainerExited),
        ServerState::Offline
    );
    // ...or the escalation kills it at the deadline
    assert_eq!(stop_escalation(14, 15), PowerAction::Stop);
    assert_eq!(stop_escalation(15, 15), PowerAction::Kill);
    assert_eq!(
        next_state(ServerState::Stopping, PowerAction::Kill),
        ServerState::Offline
    );
}

#[test]
fn start_refused_while_transferring() {
    assert!(start_allowed(ServerState::Offline, false));
    assert!(!start_allowed(ServerState::Offline, true));
    assert!(!start_allowed(ServerState::Running, false));
}

#[test]
fn transfer_format_names() {
    assert_eq!(TransferArchiveFormat::Tar.extension(), "tar");
    assert_eq!(TransferArchiveFormat::TarGz.extension(), "tar.gz");
    assert_eq!(TransferArchiveFormat::TarZstd.extension(), "tar.zst");
    assert!(matches!(
        TransferArchiveFormat::from_name("srv.tar"),
        Some(TransferArchiveFormat::Tar)
    ));
    assert!(matches!(
        TransferArchiveFormat::from_name("srv.tar.gz"),
        Some(TransferArchiveFormat::TarGz)
    ));
    assert!(matches!(
        TransferArchiveFormat::from_name("srv.tar.zst"),
        Some(TransferArchiveFormat::TarZstd)
    ));
    assert!(TransferArchiveFormat::from_name("srv.zip").is_none());
    assert!(matches!(
        TransferArchiveFormat::default(),
        TransferArchiveFormat::TarGz
    ));
}

#[test]
fn transfer_broadcasts_exactly_one_terminal() {
    // happy path
    let ok = transfer_actions(true, true, true, true, true, false);
    assert_eq!(
        ok,
        vec![
            TransferAction::BroadcastProcessing,
            TransferAction::SetTransferring(false),
            TransferAction::BroadcastCompleted,
        ]
    );
    // a failed stop fails before processing starts
    let stop_fail = transfer_actions(true, false, true, true, true, false);
    assert_eq!(
        stop_fail,
        vec![
            TransferAction::SetTransferring(false),
            TransferAction::BroadcastFailure,
        ]
    );
    // a failed upload response fails the whole run, even with the archive
    // and checksum done
    let upload_fail = transfer_actions(false, true, true, true, false, false);
    assert_eq!(*upload_fail.last().unwrap(), TransferAction::BroadcastFailure);
    // archive error
    let arch_fail = transfer_actions(false, true, false, true, true, false);
    assert_eq!(*arch_fail.last().unwrap(), TransferAction::BroadcastFailure);
    // in every case the flag drops just before the terminal broadcast
    for acts in [&ok, &stop_fail, &arch_fail, &upload_fail] {
        let terminal: Vec<usize> = acts
            .iter()
            .enumerate()
            .filter(|(_, a)| {
                matches!(
                    a,
                    TransferAction::BroadcastCompleted | TransferAction::BroadcastFailure
                )
            })
            .map(|(i, _)| i)
            .collect();
        assert_eq!(terminal.len(), 1);
        let t = terminal[0];
        assert_eq!(t, acts.len() - 1);
        assert_eq!(acts[t - 1], TransferAction::SetTransferring(false));
    }
}

#[test]
fn cancelled_transfer_broadcasts_failure() {
    // a transfer whose handle is dropped mid-flight: the tasks report
    // cancellation, the flag drops, and failure — never completed — goes out
    let acts = transfer_actions(false, true, true, true, true, true);
    assert_eq!(
        acts,
        vec![
            TransferAction::BroadcastProcessing,
            TransferAction::SetTransferring(false),
            TransferAction::BroadcastFailure,
        ]
    );
}
