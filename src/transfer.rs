use vstd::prelude::*;

use crate::error::ShareError;

verus! {

/// How many times the receiver tries to reach the advertised peer.
pub const MAX_CONNECT_ATTEMPTS: u32 = 3;

/// Where the receiving side of one transfer stands.
#[derive(Debug, Clone, Copy, PartialEq, Eq, Structural)]
pub enum ReceiveState {
    Idle,
    /// Trying to reach the peer; `attempt` counts the tries made so far.
    Connecting { attempt: u32 },
    Fetching,
    Verifying,
    Exporting,
    Done,
    Failed(ShareError),
}

/// What the surrounding driver observed since the last step.
#[derive(Debug, Clone, Copy, PartialEq, Eq, Structural)]
pub enum ReceiveEvent {
    Start,
    Connected,
    ConnectFailed,
    Fetched,
    FetchFailed(ShareError),
    /// The recomputed digest was compared with the requested one.
    Verified(bool),
    Exported,
    ExportFailed(ShareError),
}

/// What the driver is to do next.
#[derive(Debug, Clone, Copy, PartialEq, Eq, Structural)]
pub enum ReceiveAction {
    Connect,
    Fetch,
    Verify,
    Export,
    /// Stop and report the error; nothing more is written.
    Report(ShareError),
    Finish,
    Ignore,
}

pub open spec fn state_wf(s: ReceiveState) -> bool {
    match s {
        ReceiveState::Connecting { attempt } => 1 <= attempt <= MAX_CONNECT_ATTEMPTS,
        _ => true,
    }
}

pub open spec fn failure(e: ShareError) -> (ReceiveState, ReceiveAction) {
    (ReceiveState::Failed(e), ReceiveAction::Report(e))
}

/// The transition table of a receive.
pub open spec fn next(s: ReceiveState, ev: ReceiveEvent) -> (ReceiveState, ReceiveAction) {
    match (s, ev) {
        (ReceiveState::Idle, ReceiveEvent::Start) => (
            ReceiveState::Connecting { attempt: 1 },
            ReceiveAction::Connect,
        ),
        (ReceiveState::Connecting { .. }, ReceiveEvent::Connected) => (
            ReceiveState::Fetching,
            ReceiveAction::Fetch,
        ),
        (ReceiveState::Connecting { attempt }, ReceiveEvent::ConnectFailed) => if attempt
            < MAX_CONNECT_ATTEMPTS {
            (ReceiveState::Connecting { attempt: (attempt + 1) as u32 }, ReceiveAction::Connect)
        } else {
            failure(ShareError::PeerUnreachable)
        },
        (ReceiveState::Fetching, ReceiveEvent::Fetched) => (
            ReceiveState::Verifying,
            ReceiveAction::Verify,
        ),
        (ReceiveState::Fetching, ReceiveEvent::FetchFailed(e)) => failure(e),
        (ReceiveState::Verifying, ReceiveEvent::Verified(ok)) => if ok {
            (ReceiveState::Exporting, ReceiveAction::Export)
        } else {
            failure(ShareError::IntegrityMismatch)
        },
        (ReceiveState::Exporting, ReceiveEvent::Exported) => (
            ReceiveState::Done,
            ReceiveAction::Finish,
        ),
        (ReceiveState::Exporting, ReceiveEvent::ExportFailed(e)) => failure(e),
        _ => (s, ReceiveAction::Ignore),
    }
}

/// The state after a sequence of events.
pub open spec fn run(s: ReceiveState, evs: Seq<ReceiveEvent>) -> ReceiveState
    decreases evs.len(),
{
    if evs.len() == 0 {
        s
    } else {
        run(next(s, evs[0]).0, evs.drop_first())
    }
}

/// Whether some step of a sequence of events asks for an export.
pub open spec fn exports_during(s: ReceiveState, evs: Seq<ReceiveEvent>) -> bool
    decreases evs.len(),
{
    if evs.len() == 0 {
        false
    } else {
        next(s, evs[0]).1 == ReceiveAction::Export || exports_during(
            next(s, evs[0]).0,
            evs.drop_first(),
        )
    }
}

/// Advances a receive by one observed event.
pub fn step(s: ReceiveState, ev: ReceiveEvent) -> (r: (ReceiveState, ReceiveAction))
    requires
        state_wf(s),
    ensures
        r == next(s, ev),
        state_wf(r.0),
{
    match (s, ev) {
        (ReceiveState::Idle, ReceiveEvent::Start) => (
            ReceiveState::Connecting { attempt: 1 },
            ReceiveAction::Connect,
        ),
        (ReceiveState::Connecting { .. }, ReceiveEvent::Connected) => (
            ReceiveState::Fetching,
            ReceiveAction::Fetch,
        ),
        (ReceiveState::Connecting { attempt }, ReceiveEvent::ConnectFailed) => {
            if attempt < MAX_CONNECT_ATTEMPTS {
                (ReceiveState::Connecting { attempt: attempt + 1 }, ReceiveAction::Connect)
            } else {
                (
                    ReceiveState::Failed(ShareError::PeerUnreachable),
                    ReceiveAction::Report(ShareError::PeerUnreachable),
                )
            }
        },
        (ReceiveState::Fetching, ReceiveEvent::Fetched) => (
            ReceiveState::Verifying,
            ReceiveAction::Verify,
        ),
        (ReceiveState::Fetching, ReceiveEvent::FetchFailed(e)) => (
            ReceiveState::Failed(e),
            ReceiveAction::Report(e),
        ),
        (ReceiveState::Verifying, ReceiveEvent::Verified(ok)) => {
            if ok {
                (ReceiveState::Exporting, ReceiveAction::Export)
            } else {
                (
                    ReceiveState::Failed(ShareError::IntegrityMismatch),
                    ReceiveAction::Report(ShareError::IntegrityMismatch),
                )
            }
        },
        (ReceiveState::Exporting, ReceiveEvent::Exported) => (
            ReceiveState::Done,
            ReceiveAction::Finish,
        ),
        (ReceiveState::Exporting, ReceiveEvent::ExportFailed(e)) => (
            ReceiveState::Failed(e),
            ReceiveAction::Report(e),
        ),
        _ => (s, ReceiveAction::Ignore),
    }
}

/// Whether a receive has come to an end, well or badly.
pub fn is_terminal(s: ReceiveState) -> (r: bool)
    ensures
        r == (s is Done || s is Failed),
{
    match s {
        ReceiveState::Done | ReceiveState::Failed(_) => true,
        _ => false,
    }
}

pub open spec fn all_connect_failures(evs: Seq<ReceiveEvent>) -> bool {
    forall|i: int| 0 <= i < evs.len() ==> evs[i] == ReceiveEvent::ConnectFailed
}

/// A peer that stays unreachable ends a receive in `PeerUnreachable` once the
/// retry budget is spent: from the attempt `a`, after the remaining failed
/// tries, and from then on whatever happens.
pub proof fn lemma_retry_budget(a: u32, evs: Seq<ReceiveEvent>)
    requires
        1 <= a <= MAX_CONNECT_ATTEMPTS,
        evs.len() == MAX_CONNECT_ATTEMPTS - a + 1,
        all_connect_failures(evs),
    ensures
        run(ReceiveState::Connecting { attempt: a }, evs) == ReceiveState::Failed(
            ShareError::PeerUnreachable,
        ),
    decreases evs.len(),
{
    assert(evs[0] == ReceiveEvent::ConnectFailed);
    if a < MAX_CONNECT_ATTEMPTS {
        let rest = evs.drop_first();
        assert(all_connect_failures(rest)) by {
            assert forall|i: int| 0 <= i < rest.len() implies rest[i] == ReceiveEvent::ConnectFailed by {
                assert(rest[i] == evs[i + 1]);
            }
        }
        lemma_retry_budget((a + 1) as u32, rest);
        assert(next(ReceiveState::Connecting { attempt: a }, evs[0]).0 == ReceiveState::Connecting {
            attempt: (a + 1) as u32,
        });
    } else {
        let failed = ReceiveState::Failed(ShareError::PeerUnreachable);
        assert(next(ReceiveState::Connecting { attempt: a }, evs[0]).0 == failed);
        assert(run(failed, evs.drop_first()) == failed);
    }
}

/// A receive that has failed stays failed and asks for no export, whatever
/// events follow.
pub proof fn lemma_failed_is_terminal(e: ShareError, evs: Seq<ReceiveEvent>)
    ensures
        run(ReceiveState::Failed(e), evs) == ReceiveState::Failed(e),
        !exports_during(ReceiveState::Failed(e), evs),
    decreases evs.len(),
{
    if evs.len() > 0 {
        lemma_failed_is_terminal(e, evs.drop_first());
    }
}

/// Bytes whose digest disagrees with the requested identifier end the
/// receive in `IntegrityMismatch`, and nothing is exported afterwards.
pub proof fn lemma_mismatch_never_exports(evs: Seq<ReceiveEvent>)
    requires
        evs.len() > 0,
        evs[0] == ReceiveEvent::Verified(false),
    ensures
        run(ReceiveState::Verifying, evs) == ReceiveState::Failed(ShareError::IntegrityMismatch),
        !exports_during(ReceiveState::Verifying, evs),
{
    lemma_failed_is_terminal(ShareError::IntegrityMismatch, evs.drop_first());
}

} // verus!
