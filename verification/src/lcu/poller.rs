//! Staying connected to the League client, which may be closed or restarted at
//! any time.

use vstd::prelude::*;

verus! {

/// How often the lockfile is looked for before starting over.
pub const LOCKFILE_RETRY_ATTEMPTS: u8 = 20;

/// How long to wait before looking for the lockfile again, in milliseconds.
pub const LOCKFILE_RETRY_MS: u64 = 500;

/// How long to wait before starting over, in milliseconds.
pub const OUTER_LOOP_MS: u64 = 2000;

/// What the poller is about to do.
#[derive(Debug, Clone, Copy, PartialEq, Eq, Structural)]
pub enum PollState {
    /// Look for the running client.
    Locate,
    /// Read the lockfile, after so many failed attempts.
    ReadLockfile { failed: u8 },
    /// Make an HTTP client.
    MakeClient,
    /// Listen to events until the connection ends.
    Listen,
}

/// What to wait before the next step, in milliseconds.
pub struct PollStep {
    pub next: PollState,
    pub wait_ms: u64,
}

/// What follows on a step that succeeded or failed: each step leads to the
/// next, the lockfile is tried again up to a limit, and any other failure and
/// the end of listening lead back to the start.
pub open spec fn poll_next(state: PollState, ok: bool) -> PollStep {
    match state {
        PollState::Locate => if ok {
            PollStep { next: PollState::ReadLockfile { failed: 0 }, wait_ms: 0 }
        } else {
            PollStep { next: PollState::Locate, wait_ms: OUTER_LOOP_MS }
        },
        PollState::ReadLockfile { failed } => if ok {
            PollStep { next: PollState::MakeClient, wait_ms: 0 }
        } else if failed + 1 < LOCKFILE_RETRY_ATTEMPTS {
            PollStep {
                next: PollState::ReadLockfile { failed: (failed + 1) as u8 },
                wait_ms: LOCKFILE_RETRY_MS,
            }
        } else {
            PollStep { next: PollState::Locate, wait_ms: LOCKFILE_RETRY_MS }
        },
        PollState::MakeClient => if ok {
            PollStep { next: PollState::Listen, wait_ms: 0 }
        } else {
            PollStep { next: PollState::Locate, wait_ms: OUTER_LOOP_MS }
        },
        PollState::Listen => PollStep { next: PollState::Locate, wait_ms: OUTER_LOOP_MS },
    }
}

pub fn poll_step(state: PollState, ok: bool) -> (r: PollStep)
    ensures
        r == poll_next(state, ok),
{
    match state {
        PollState::Locate => {
            if ok {
                PollStep { next: PollState::ReadLockfile { failed: 0 }, wait_ms: 0 }
            } else {
                PollStep { next: PollState::Locate, wait_ms: OUTER_LOOP_MS }
            }
        },
        PollState::ReadLockfile { failed } => {
            if ok {
                PollStep { next: PollState::MakeClient, wait_ms: 0 }
            } else if failed < LOCKFILE_RETRY_ATTEMPTS - 1 {
                PollStep {
                    next: PollState::ReadLockfile { failed: failed + 1 },
                    wait_ms: LOCKFILE_RETRY_MS,
                }
            } else {
                PollStep { next: PollState::Locate, wait_ms: LOCKFILE_RETRY_MS }
            }
        },
        PollState::MakeClient => {
            if ok {
                PollStep { next: PollState::Listen, wait_ms: 0 }
            } else {
                PollStep { next: PollState::Locate, wait_ms: OUTER_LOOP_MS }
            }
        },
        PollState::Listen => PollStep { next: PollState::Locate, wait_ms: OUTER_LOOP_MS },
    }
}

/// What the poller is about to do after `n` steps that all failed.
pub open spec fn after_failures(state: PollState, n: int) -> PollState
    decreases n,
{
    if n <= 0 {
        state
    } else {
        poll_next(after_failures(state, n - 1), false).next
    }
}

/// The lockfile is looked for twenty times before the client is looked for
/// again.
pub proof fn law_lockfile_attempts(n: int)
    requires
        0 <= n <= LOCKFILE_RETRY_ATTEMPTS,
    ensures
        after_failures(PollState::ReadLockfile { failed: 0 }, n) == (if n
            < LOCKFILE_RETRY_ATTEMPTS {
            PollState::ReadLockfile { failed: n as u8 }
        } else {
            PollState::Locate
        }),
{
    lemma_failures_from(0, n);
}

/// From wherever it is, the poller comes back to looking for the client when
/// things fail: no failure ends it.
pub proof fn law_failures_lead_back(state: PollState)
    requires
        state matches PollState::ReadLockfile { failed } ==> failed < LOCKFILE_RETRY_ATTEMPTS,
    ensures
        exists|n: int| 0 <= n <= LOCKFILE_RETRY_ATTEMPTS && #[trigger] after_failures(state, n)
            == PollState::Locate,
{
    match state {
        PollState::Locate => {
            assert(after_failures(state, 0) == PollState::Locate);
        },
        PollState::ReadLockfile { failed } => {
            lemma_failures_from(failed as int, LOCKFILE_RETRY_ATTEMPTS - failed);
            assert(after_failures(state, LOCKFILE_RETRY_ATTEMPTS - failed) == PollState::Locate);
        },
        _ => {
            reveal_with_fuel(after_failures, 2);
            assert(after_failures(state, 1) == PollState::Locate);
        },
    }
}

proof fn lemma_failures_from(failed: int, n: int)
    requires
        0 <= failed < LOCKFILE_RETRY_ATTEMPTS,
        0 <= n <= LOCKFILE_RETRY_ATTEMPTS - failed,
    ensures
        after_failures(PollState::ReadLockfile { failed: failed as u8 }, n) == (if failed + n
            < LOCKFILE_RETRY_ATTEMPTS {
            PollState::ReadLockfile { failed: (failed + n) as u8 }
        } else {
            PollState::Locate
        }),
    decreases n,
{
    if n > 0 {
        lemma_failures_from(failed, n - 1);
    }
}

/// While things succeed the poller goes from looking for the client to reading the
/// lockfile, making a client and listening, without waiting in between.
pub proof fn law_success_leads_on()
    ensures
        poll_next(PollState::Locate, true).next == (PollState::ReadLockfile { failed: 0 }),
        poll_next(PollState::Locate, true).wait_ms == 0,
        forall|failed: u8|
            #![trigger poll_next(PollState::ReadLockfile { failed }, true)]
            poll_next(PollState::ReadLockfile { failed }, true).next == PollState::MakeClient
                && poll_next(PollState::ReadLockfile { failed }, true).wait_ms == 0,
        poll_next(PollState::MakeClient, true).next == PollState::Listen,
        poll_next(PollState::MakeClient, true).wait_ms == 0,
{
}

/// After a failure, and after listening has ended, there is always a wait: half a
/// second while the lockfile is looked for, else two seconds.
pub proof fn law_failures_wait(state: PollState)
    ensures
        state is ReadLockfile ==> poll_next(state, false).wait_ms == 500,
        !(state is ReadLockfile) ==> poll_next(state, false).wait_ms == 2000,
        poll_next(PollState::Listen, true) == poll_next(PollState::Listen, false),
        poll_next(PollState::Listen, true).next == PollState::Locate,
{
}

} // verus!
