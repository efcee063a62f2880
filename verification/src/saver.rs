use vstd::prelude::*;

verus! {

/// Lifecycle flags of the background flusher. `started` records that a
/// periodic loop was spawned and not yet told to stop; `running` is the
/// cooperative flag that the loop polls once per sleep interval.
#[derive(Debug, Clone, Copy, PartialEq, Eq, Structural)]
pub struct SaverState {
    pub running: bool,
    pub started: bool,
}

/// What the caller of `start` must do next: spawn a periodic loop with the
/// given interval, or nothing because a loop is already running.
#[derive(Debug, Clone, Copy, PartialEq, Eq, Structural)]
pub enum SaverAction {
    Spawn { interval_seconds: u64 },
    Stay,
}

/// The `start` transition: a no-op when already started, otherwise both
/// flags are raised and a loop with interval `max(interval_seconds, 1)`
/// is to be spawned.
pub open spec fn start_spec(s: SaverState, interval_seconds: u64) -> (SaverState, SaverAction) {
    if s.started {
        (s, SaverAction::Stay)
    } else {
        (
            SaverState { running: true, started: true },
            SaverAction::Spawn {
                interval_seconds: if interval_seconds >= 1 {
                    interval_seconds
                } else {
                    1u64
                },
            },
        )
    }
}

/// The `stop` transition: both flags are cleared; it is a signal only,
/// the loop observes it at its next poll.
pub open spec fn stop_spec(s: SaverState) -> SaverState {
    SaverState { running: false, started: false }
}

impl SaverState {
    /// The state before any loop was ever started.
    pub open spec fn initial_spec() -> SaverState {
        SaverState { running: false, started: false }
    }

    pub fn initial() -> (r: SaverState)
        ensures
            r == SaverState::initial_spec(),
    {
        SaverState { running: false, started: false }
    }

    /// Mark the saver started. The returned action tells the caller whether
    /// to spawn the periodic loop; calling again while started spawns nothing.
    pub fn start(&mut self, interval_seconds: u64) -> (a: SaverAction)
        ensures
            (*final(self), a) == start_spec(*old(self), interval_seconds),
    {
        if self.started {
            SaverAction::Stay
        } else {
            self.running = true;
            self.started = true;
            SaverAction::Spawn {
                interval_seconds: if interval_seconds >= 1 {
                    interval_seconds
                } else {
                    1
                },
            }
        }
    }

    /// Signal the loop to stop; returns immediately, the loop may still
    /// perform one final flush before it observes the cleared flag.
    pub fn stop(&mut self)
        ensures
            *final(self) == stop_spec(*old(self)),
    {
        self.running = false;
        self.started = false;
    }

    /// Whether the periodic loop should run one more iteration.
    pub fn should_continue(&self) -> (r: bool)
        ensures
            r == self.running,
    {
        self.running
    }
}

/// Law: starting twice in a row has the same effect as starting once.
/// The second call leaves the state exactly where the first left it and
/// asks for no second loop.
pub proof fn lemma_start_idempotent(s: SaverState, i1: u64, i2: u64)
    ensures
        start_spec(start_spec(s, i1).0, i2).0 == start_spec(s, i1).0,
        start_spec(start_spec(s, i1).0, i2).1 == SaverAction::Stay,
{
}

/// Law: stopping a saver that was never started is a no-op.
pub proof fn lemma_stop_never_started()
    ensures
        stop_spec(SaverState::initial_spec()) == SaverState::initial_spec(),
{
}

} // verus!
