//! The decisions of the persistence manager: when to flush the document to
//! disk, and when the process may exit after a shutdown signal.

use vstd::prelude::*;

verus! {

/// What the persistence manager observes.
#[derive(Clone, Copy, Debug, PartialEq, Eq, Structural)]
pub enum PersistEvent {
    /// The periodic timer fired.
    Tick,
    /// A flush ended; `true` if the file now holds the snapshot.
    FlushDone(bool),
    /// A shutdown signal arrived.
    Shutdown,
}

/// What the persistence manager asks for.
#[derive(Clone, Copy, Debug, PartialEq, Eq, Structural)]
pub enum PersistAction {
    /// Nothing to do now.
    Idle,
    /// Take a snapshot, write it to the temporary file, then rename that
    /// file over the target.
    Flush,
    /// Stop: nothing that can still be saved is unsaved.
    Exit,
}

/// The state of the persistence manager.
#[derive(Clone, Copy, Debug, PartialEq, Eq, Structural)]
pub struct Persistence {
    /// A flush was asked for and has not ended.
    pub flushing: bool,
    /// A shutdown signal arrived.
    pub stopping: bool,
}

/// The next state and the action, given an event and whether the store is
/// dirty. A flush is asked for only when none is running; after a shutdown
/// the manager flushes until the store is clean, and exits once it is clean
/// or the final flush failed.
pub open spec fn next(
    st: Persistence,
    ev: PersistEvent,
    dirty: bool,
) -> (Persistence, PersistAction) {
    match ev {
        PersistEvent::Tick => if st.stopping || st.flushing || !dirty {
            (st, PersistAction::Idle)
        } else {
            (Persistence { flushing: true, stopping: false }, PersistAction::Flush)
        },
        PersistEvent::Shutdown => if st.flushing {
            (Persistence { flushing: true, stopping: true }, PersistAction::Idle)
        } else if dirty {
            (Persistence { flushing: true, stopping: true }, PersistAction::Flush)
        } else {
            (Persistence { flushing: false, stopping: true }, PersistAction::Exit)
        },
        PersistEvent::FlushDone(ok) => if !st.stopping {
            (Persistence { flushing: false, stopping: false }, PersistAction::Idle)
        } else if ok && dirty {
            (Persistence { flushing: true, stopping: true }, PersistAction::Flush)
        } else {
            (Persistence { flushing: false, stopping: true }, PersistAction::Exit)
        },
    }
}

impl Persistence {
    /// A manager that is neither flushing nor stopping.
    pub fn new() -> (r: Persistence)
        ensures
            !r.flushing && !r.stopping,
    {
        Persistence { flushing: false, stopping: false }
    }

    /// Takes an event, with whether the store is dirty once the event is
    /// accounted for, and says what to do.
    pub fn step(&mut self, ev: PersistEvent, dirty: bool) -> (r: PersistAction)
        ensures
            (*final(self), r) == next(*old(self), ev, dirty),
    {
        match ev {
            PersistEvent::Tick => {
                if self.stopping || self.flushing || !dirty {
                    PersistAction::Idle
                } else {
                    self.flushing = true;
                    PersistAction::Flush
                }
            },
            PersistEvent::Shutdown => {
                self.stopping = true;
                if self.flushing {
                    PersistAction::Idle
                } else if dirty {
                    self.flushing = true;
                    PersistAction::Flush
                } else {
                    PersistAction::Exit
                }
            },
            PersistEvent::FlushDone(ok) => {
                if !self.stopping {
                    self.flushing = false;
                    PersistAction::Idle
                } else if ok && dirty {
                    self.flushing = true;
                    PersistAction::Flush
                } else {
                    self.flushing = false;
                    PersistAction::Exit
                }
            },
        }
    }
}

/// The temporary file that a flush writes before it renames it over `target`.
pub fn temp_path(target: &str) -> (r: String)
    ensures
        r@ == target@ + ".tmp"@,
{
    target.to_owned().concat(".tmp")
}

/// A shutdown that finds the manager idle and the store dirty asks for a
/// flush; and the manager never exits while the store is dirty, unless a
/// flush has just failed.
pub proof fn law_shutdown_saves(st: Persistence, ev: PersistEvent)
    ensures
        next(Persistence { flushing: false, stopping: false }, PersistEvent::Shutdown, true).1
            == PersistAction::Flush,
        next(st, ev, true).1 == PersistAction::Exit ==> ev == PersistEvent::FlushDone(false),
{
}

/// Ticks never ask for a second flush while one runs, and never stop the
/// manager.
pub proof fn law_one_flush_at_a_time(st: Persistence, dirty: bool)
    ensures
        st.flushing ==> next(st, PersistEvent::Tick, dirty).1 == PersistAction::Idle,
        next(st, PersistEvent::Tick, dirty).1 != PersistAction::Exit,
{
}

} // verus!
