//! The patcher, a library that lets the game load the overlay. It is loaded
//! once, and runs on a thread of its own while an overlay is in use.

use crate::paths::{FilePath, PartView};
use vstd::prelude::*;

verus! {

/// Where the patcher library is to be put.
pub fn resolve_dll_path(app_data_dir: &FilePath) -> (r: FilePath)
    ensures
        r@ == app_data_dir@.push(PartView::Normal("cslol-tools"@)).push(
            PartView::Normal("cslol-dll.dll"@),
        ),
{
    app_data_dir.join("cslol-tools").join("cslol-dll.dll")
}

/// The thread of the patcher.
#[derive(Debug, Clone, Copy, PartialEq, Eq, Structural)]
pub enum Worker {
    Absent,
    Busy,
    /// It has ended, and is to be joined.
    Finished,
}

/// The state of the patcher.
#[derive(Debug, Clone, Copy, PartialEq, Eq, Structural)]
pub struct PatcherState {
    pub loaded: bool,
    pub worker: Worker,
    /// The overlay is set up, and the game is waited for.
    pub running: bool,
}

/// The state at the start of the program.
pub fn idle() -> (r: PatcherState)
    ensures
        r == (PatcherState { loaded: false, worker: Worker::Absent, running: false }),
{
    PatcherState { loaded: false, worker: Worker::Absent, running: false }
}

/// What loading the library comes to.
#[derive(Debug, Clone, Copy, PartialEq, Eq, Structural)]
pub enum LoadStep {
    /// It is loaded already.
    Done,
    /// There is no such file.
    NoFile,
    Load,
}

pub fn load(state: PatcherState, dll_is_file: bool) -> (r: LoadStep)
    ensures
        r == (if state.loaded {
            LoadStep::Done
        } else if !dll_is_file {
            LoadStep::NoFile
        } else {
            LoadStep::Load
        }),
{
    if state.loaded {
        LoadStep::Done
    } else if !dll_is_file {
        LoadStep::NoFile
    } else {
        LoadStep::Load
    }
}

/// The state after the library was loaded.
pub fn loaded(state: PatcherState) -> (r: PatcherState)
    ensures
        r == (PatcherState { loaded: true, ..state }),
{
    PatcherState { loaded: true, ..state }
}

/// What starting the thread comes to.
#[derive(Debug, Clone, Copy, PartialEq, Eq, Structural)]
pub enum StartStep {
    /// It runs already.
    Done,
    /// The library is not loaded.
    NotLoaded,
    Spawn,
}

/// What starting the thread comes to, and the state then. A thread that has
/// ended is joined first. Where one is to be spawned, the state is the one after
/// that.
pub open spec fn start_of(state: PatcherState) -> (StartStep, PatcherState) {
    match state.worker {
        Worker::Busy => (StartStep::Done, state),
        _ => if state.loaded {
            (StartStep::Spawn, PatcherState { worker: Worker::Busy, ..state })
        } else {
            (StartStep::NotLoaded, PatcherState { worker: Worker::Absent, ..state })
        },
    }
}

pub fn start(state: &mut PatcherState) -> (r: StartStep)
    ensures
        (r, *final(state)) == start_of(*old(state)),
{
    match state.worker {
        Worker::Busy => StartStep::Done,
        _ => {
            if state.loaded {
                state.worker = Worker::Busy;
                StartStep::Spawn
            } else {
                state.worker = Worker::Absent;
                StartStep::NotLoaded
            }
        },
    }
}

/// The state after the thread was stopped and joined.
pub open spec fn stopped(state: PatcherState) -> PatcherState {
    PatcherState { worker: Worker::Absent, running: false, ..state }
}

/// Stops the thread, and says whether there is one to join.
pub fn stop(state: &mut PatcherState) -> (r: bool)
    ensures
        *final(state) == stopped(*old(state)),
        r == (old(state).worker != Worker::Absent),
{
    let join = state.worker != Worker::Absent;
    state.worker = Worker::Absent;
    state.running = false;
    join
}

/// Unloads the library after the thread was stopped, and says whether there is
/// one to free.
pub fn unload(state: &mut PatcherState) -> (r: bool)
    ensures
        *final(state) == (PatcherState { loaded: false, ..stopped(*old(state)) }),
        r == old(state).loaded,
{
    let free = state.loaded;
    let _ = stop(state);
    state.loaded = false;
    free
}

pub fn is_running(state: &PatcherState) -> (r: bool)
    ensures
        r == state.running,
{
    state.running
}

/// What the thread is about to do.
#[derive(Debug, Clone, Copy, PartialEq, Eq, Structural)]
pub enum LoopState {
    /// Call a function of the library: initialise, set flags, set log level, set
    /// overlay, by number.
    Setup { call: u8 },
    /// Look for the game.
    Search,
    /// Hook the game's thread.
    Hook { thread: u32 },
    /// See whether the game still runs.
    Watch { thread: u32 },
    /// It was stopped.
    Stopped,
    /// A call failed.
    Failed,
}

/// What came of it.
#[derive(Debug, Clone, Copy, PartialEq, Eq, Structural)]
pub enum LoopReply {
    /// The thread was asked to stop. That is looked at before each search, and
    /// while the game runs.
    StopAsked,
    /// A call succeeded, or failed.
    Called { ok: bool },
    /// The thread of the game that was found, or zero.
    Found { thread: u32 },
}

/// The number of the last set-up call.
pub const LAST_SETUP_CALL: u8 = 3;

/// How long to wait for the game, in milliseconds.
pub const SEARCH_WAIT_MS: u64 = 100;

/// How long to wait while the game runs, in milliseconds.
pub const WATCH_WAIT_MS: u64 = 500;

/// What the thread does next, and how long it waits before. Replies that do not
/// belong to what it was about to do change nothing.
pub open spec fn loop_next(state: LoopState, reply: LoopReply) -> (LoopState, u64) {
    match (state, reply) {
        (LoopState::Setup { call }, LoopReply::Called { ok }) => if !ok {
            (LoopState::Failed, 0)
        } else if call < LAST_SETUP_CALL {
            (LoopState::Setup { call: (call + 1) as u8 }, 0)
        } else {
            (LoopState::Search, 0)
        },
        (LoopState::Search, LoopReply::StopAsked) => (LoopState::Stopped, 0),
        (LoopState::Search, LoopReply::Found { thread }) => if thread == 0 {
            (LoopState::Search, SEARCH_WAIT_MS)
        } else {
            (LoopState::Hook { thread }, 0)
        },
        (LoopState::Hook { thread }, LoopReply::Called { ok }) => if ok {
            (LoopState::Watch { thread }, 0)
        } else {
            (LoopState::Failed, 0)
        },
        (LoopState::Watch { thread }, LoopReply::StopAsked) => (LoopState::Stopped, 0),
        (LoopState::Watch { thread }, LoopReply::Found { thread: now }) => if now == thread {
            (LoopState::Watch { thread }, WATCH_WAIT_MS)
        } else {
            (LoopState::Search, 0)
        },
        _ => (state, 0),
    }
}

pub fn loop_step(state: LoopState, reply: LoopReply) -> (r: (LoopState, u64))
    ensures
        r == loop_next(state, reply),
{
    match (state, reply) {
        (LoopState::Setup { call }, LoopReply::Called { ok }) => {
            if !ok {
                (LoopState::Failed, 0)
            } else if call < LAST_SETUP_CALL {
                (LoopState::Setup { call: call + 1 }, 0)
            } else {
                (LoopState::Search, 0)
            }
        },
        (LoopState::Search, LoopReply::StopAsked) => (LoopState::Stopped, 0),
        (LoopState::Search, LoopReply::Found { thread }) => {
            if thread == 0 {
                (LoopState::Search, SEARCH_WAIT_MS)
            } else {
                (LoopState::Hook { thread }, 0)
            }
        },
        (LoopState::Hook { thread }, LoopReply::Called { ok }) => {
            if ok {
                (LoopState::Watch { thread }, 0)
            } else {
                (LoopState::Failed, 0)
            }
        },
        (LoopState::Watch { thread: _ }, LoopReply::StopAsked) => (LoopState::Stopped, 0),
        (LoopState::Watch { thread }, LoopReply::Found { thread: now }) => {
            if now == thread {
                (LoopState::Watch { thread }, WATCH_WAIT_MS)
            } else {
                (LoopState::Search, 0)
            }
        },
        _ => (state, 0),
    }
}

/// Whether the patcher counts as running: it is set up and has not ended.
pub open spec fn loop_runs(state: LoopState) -> bool {
    state is Search || state is Hook || state is Watch
}

pub fn loop_is_running(state: LoopState) -> (r: bool)
    ensures
        r == loop_runs(state),
{
    match state {
        LoopState::Search => true,
        LoopState::Hook { .. } => true,
        LoopState::Watch { .. } => true,
        _ => false,
    }
}

/// The game is only hooked after it was found, and what is hooked is what was
/// found.
pub proof fn law_hook_what_was_found(state: LoopState, reply: LoopReply, thread: u32)
    requires
        loop_next(state, reply).0 == (LoopState::Hook { thread }),
        !(state is Hook),
    ensures
        state is Search,
        reply == (LoopReply::Found { thread }),
        thread != 0,
{
}

/// A patcher that has ended stays so.
pub proof fn law_ended_stays(state: LoopState, reply: LoopReply)
    requires
        state is Stopped || state is Failed,
    ensures
        loop_next(state, reply).0 == state,
{
}

/// Starting twice spawns one thread, and after stopping it can be started
/// again.
pub proof fn law_start_stop(state: PatcherState)
    requires
        state.loaded,
    ensures
        start_of(start_of(state).1).0 is Done,
        start_of(stopped(state)).0 is Spawn,
{
}

/// Setting up makes four calls, one after the other; each has to succeed.
pub proof fn law_setup(call: u8)
    requires
        call <= 3,
    ensures
        loop_next(LoopState::Setup { call }, LoopReply::Called { ok: true }).0 == (if call < 3 {
            LoopState::Setup { call: (call + 1) as u8 }
        } else {
            LoopState::Search
        }),
        loop_next(LoopState::Setup { call }, LoopReply::Called { ok: false }).0
            == LoopState::Failed,
{
}

/// A game that is found is hooked and watched while its thread is there. When it is
/// gone the next one is looked for, and is hooked in the same way: one game after
/// another, however many there are.
pub proof fn law_every_game_is_hooked(thread: u32, other: u32)
    requires
        thread != 0,
        other != thread,
    ensures
        loop_next(LoopState::Search, LoopReply::Found { thread }).0 == (LoopState::Hook { thread }),
        loop_next(LoopState::Hook { thread }, LoopReply::Called { ok: true }).0 == (
        LoopState::Watch { thread }),
        loop_next(LoopState::Hook { thread }, LoopReply::Called { ok: false }).0
            == LoopState::Failed,
        loop_next(LoopState::Watch { thread }, LoopReply::Found { thread }) == (
            LoopState::Watch { thread },
            500u64,
        ),
        loop_next(LoopState::Watch { thread }, LoopReply::Found { thread: other }).0
            == LoopState::Search,
        loop_next(LoopState::Search, LoopReply::Found { thread: 0 }) == (LoopState::Search, 100u64),
{
}

/// A patcher that is asked to stop while it looks for the game or watches it stops.
pub proof fn law_stop_is_heard(state: LoopState)
    requires
        state is Search || state is Watch,
    ensures
        loop_next(state, LoopReply::StopAsked).0 == LoopState::Stopped,
        loop_runs(state),
        !loop_runs(LoopState::Stopped),
        !loop_runs(LoopState::Failed),
{
}

/// A thread is only spawned where the library is loaded and none runs; one that has
/// ended makes room for another.
pub proof fn law_spawned_when_possible(state: PatcherState)
    ensures
        start_of(state).0 is Spawn <==> state.loaded && state.worker != Worker::Busy,
        start_of(state).0 is Done <==> state.worker == Worker::Busy,
        start_of(state).1.loaded == state.loaded,
        start_of(state).1.running == state.running,
        stopped(state).loaded == state.loaded,
        !stopped(state).running,
        stopped(state).worker == Worker::Absent,
{
}

} // verus!
