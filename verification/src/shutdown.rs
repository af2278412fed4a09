//! The shutdown coordinator: on a termination notification the process
//! performs exactly one best-effort snapshot save, then may exit.  A
//! failed save is logged by the caller and never blocks the exit.

use vstd::prelude::*;

use crate::codec::snapshot_text;
use crate::persist::loaded_map;
use crate::persist::pairs_map;
use crate::service::DataMapService;

verus! {

/// The phases of a graceful shutdown, in order.
#[derive(Clone, Copy, Debug, PartialEq, Eq, Structural)]
pub enum ShutdownState {
    /// Serving requests; no termination notification seen yet.
    Running,
    /// Termination noticed; the one snapshot save is under way.
    ShuttingDown,
    /// The save attempt is over; the process may exit.
    Terminated,
}

/// Drives the `Running -> ShuttingDown -> Terminated` walk.
pub struct ShutdownCoordinator {
    phase: ShutdownState,
}

impl ShutdownCoordinator {
    /// The coordinator's current phase.
    pub closed spec fn state(&self) -> ShutdownState {
        self.phase
    }

    /// A coordinator that has seen no termination notification.
    pub fn new() -> (c: ShutdownCoordinator)
        ensures
            c.state() == ShutdownState::Running,
    {
        ShutdownCoordinator { phase: ShutdownState::Running }
    }

    /// Acknowledges the termination notification: moves to
    /// `ShuttingDown` and hands the caller the snapshot text to save.
    pub fn begin_shutdown(&mut self, service: &DataMapService) -> (t: String)
        requires
            old(self).state() == ShutdownState::Running,
            service.wf(),
        ensures
            final(self).state() == ShutdownState::ShuttingDown,
            exists|es: Seq<(Seq<char>, i64)>|
                t@ == snapshot_text(es) && pairs_map(es) == service.store_map(),
            loaded_map(Some(t@)) == service.store_map(),
    {
        self.phase = ShutdownState::ShuttingDown;
        service.snapshot_text()
    }

    /// Records that the save attempt is over, successful or not, and
    /// moves to `Terminated`; a failure is never surfaced past here.
    pub fn finish(&mut self, save_ok: bool) -> (r: bool)
        requires
            old(self).state() == ShutdownState::ShuttingDown,
        ensures
            final(self).state() == ShutdownState::Terminated,
            r == save_ok,
    {
        self.phase = ShutdownState::Terminated;
        save_ok
    }
}

} // verus!
