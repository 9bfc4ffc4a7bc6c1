use blobshare::{is_terminal, step, ReceiveAction, ReceiveEvent, ReceiveState, ShareError, MAX_CONNECT_ATTEMPTS};

#[test]
fn successful_receive_walks_every_state() {
    let mut s = ReceiveState::Idle;
    let plan = [
        (ReceiveEvent::Start, ReceiveState::Connecting { attempt: 1 }, ReceiveAction::Connect),
        (ReceiveEvent::Connected, ReceiveState::Fetching, ReceiveAction::Fetch),
        (ReceiveEvent::Fetched, ReceiveState::Verifying, ReceiveAction::Verify),
        (ReceiveEvent::Verified(true), ReceiveState::Exporting, ReceiveAction::Export),
        (ReceiveEvent::Exported, ReceiveState::Done, ReceiveAction::Finish),
    ];
    for (ev, state, action) in plan {
        let (n, a) = step(s, ev);
        assert_eq!((n, a), (state, action));
        s = n;
    }
    assert!(is_terminal(s));
}

#[test]
fn unreachable_peer_fails_after_retry_budget() {
    let (mut s, _) = step(ReceiveState::Idle, ReceiveEvent::Start);
    let mut connects = 1;
    loop {
        let (n, a) = step(s, ReceiveEvent::ConnectFailed);
        s = n;
        if a != ReceiveAction::Connect {
            assert_eq!(a, ReceiveAction::Report(ShareError::PeerUnreachable));
            break;
        }
        connects += 1;
        assert!(connects <= MAX_CONNECT_ATTEMPTS);
    }
    assert_eq!(connects, MAX_CONNECT_ATTEMPTS);
    assert_eq!(s, ReceiveState::Failed(ShareError::PeerUnreachable));
}

#[test]
fn retry_then_connect_succeeds() {
    let (s, _) = step(ReceiveState::Idle, ReceiveEvent::Start);
    let (s, a) = step(s, ReceiveEvent::ConnectFailed);
    assert_eq!((s, a), (ReceiveState::Connecting { attempt: 2 }, ReceiveAction::Connect));
    let (s, a) = step(s, ReceiveEvent::Connected);
    assert_eq!((s, a), (ReceiveState::Fetching, ReceiveAction::Fetch));
}

#[test]
fn corrupted_fetch_fails_without_export() {
    let (s, a) = step(ReceiveState::Verifying, ReceiveEvent::Verified(false));
    assert_eq!(s, ReceiveState::Failed(ShareError::IntegrityMismatch));
    assert_eq!(a, ReceiveAction::Report(ShareError::IntegrityMismatch));
    for ev in [ReceiveEvent::Verified(true), ReceiveEvent::Exported, ReceiveEvent::Start] {
        let (n, a) = step(s, ev);
        assert_eq!(n, s);
        assert_eq!(a, ReceiveAction::Ignore);
    }
}

#[test]
fn fetch_and_export_errors_are_reported() {
    let (s, a) = step(ReceiveState::Fetching, ReceiveEvent::FetchFailed(ShareError::NotFound));
    assert_eq!((s, a), (ReceiveState::Failed(ShareError::NotFound), ReceiveAction::Report(ShareError::NotFound)));
    let (s, a) = step(ReceiveState::Exporting, ReceiveEvent::ExportFailed(ShareError::DestinationConflict));
    assert_eq!(s, ReceiveState::Failed(ShareError::DestinationConflict));
    assert_eq!(a, ReceiveAction::Report(ShareError::DestinationConflict));
    let (_, a) = step(ReceiveState::Exporting, ReceiveEvent::ExportFailed(ShareError::IoError));
    assert_eq!(a, ReceiveAction::Report(ShareError::IoError));
}

#[test]
fn unexpected_events_are_ignored() {
    assert_eq!(step(ReceiveState::Idle, ReceiveEvent::Fetched), (ReceiveState::Idle, ReceiveAction::Ignore));
    assert!(!is_terminal(ReceiveState::Fetching));
    assert!(is_terminal(ReceiveState::Failed(ShareError::PeerUnreachable)));
}
