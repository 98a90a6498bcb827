//! Tunnel session: the forwarding relationship between one packet device and
//! one secure stream.
//!
//! A session runs two independent directions. The surrounding binary drives
//! the actual asynchronous loops; every decision they take — keep forwarding,
//! start closing, cancel the opposite direction — comes from the transition
//! functions here, so the whole lifecycle `Starting → Running → Closing →
//! Terminated` is checked.

use vstd::prelude::*;

use crate::errors::TunnelError;

verus! {

/// Lifecycle of one session.
#[derive(Clone, Copy, Debug, PartialEq, Eq, Structural)]
pub enum SessionState {
    Starting,
    Running,
    Closing,
    Terminated,
}

/// One of the two forwarding directions of a session.
#[derive(Clone, Copy, Debug, PartialEq, Eq, Structural)]
pub enum Direction {
    DeviceToStream,
    StreamToDevice,
}

/// What a directional loop must do after reporting an outcome.
#[derive(Clone, Copy, Debug, PartialEq, Eq, Structural)]
pub enum SessionAction {
    /// Keep forwarding in this direction.
    Proceed,
    /// First failure seen: cancel the opposite direction's pending operation,
    /// then wind this direction down.
    CancelOther,
    /// The session is already closing: wind this direction down.
    Stop,
}

/// The direction opposite to `d`.
pub open spec fn opposite(d: Direction) -> Direction {
    match d {
        Direction::DeviceToStream => Direction::StreamToDevice,
        Direction::StreamToDevice => Direction::DeviceToStream,
    }
}

/// One active forwarding relationship between a device and a stream.
pub struct TunnelSession {
    /// Identifier handed out by the multiplexer (0 for the single client session).
    pub id: u64,
    /// Current lifecycle state.
    pub state: SessionState,
    /// The first directional failure, recorded when the close began.
    pub failed: Option<(Direction, TunnelError)>,
}

impl TunnelSession {
    /// A failure is recorded exactly from the moment the close begins.
    pub open spec fn wf(self) -> bool {
        (self.state is Closing || self.state is Terminated) <==> self.failed is Some
    }

    /// Whether any transition is still possible; a terminated session is
    /// never resumed.
    pub open spec fn can_step(self) -> bool {
        !(self.state is Terminated)
    }

    /// A fresh session for an established (device, stream) pair.
    pub fn new(id: u64) -> (s: Self)
        ensures
            s.id == id,
            s.state is Starting,
            s.failed is None,
            s.wf(),
    {
        TunnelSession { id, state: SessionState::Starting, failed: None }
    }

    /// Both directional loops have been launched.
    pub fn start(&mut self)
        requires
            old(self).state is Starting,
            old(self).wf(),
        ensures
            final(self).state is Running,
            final(self).id == old(self).id,
            final(self).failed is None,
            final(self).wf(),
    {
        self.state = SessionState::Running;
    }

    /// A directional loop reports the outcome of one forwarding step.
    ///
    /// A successful step changes nothing. The first failure moves the session
    /// to `Closing`, records which direction failed and why, and orders the
    /// opposite direction cancelled; any later outcome while closing only
    /// tells its loop to stop, leaving the recorded failure untouched.
    pub fn on_direction_event(
        &mut self,
        d: Direction,
        outcome: Result<(), TunnelError>,
    ) -> (a: SessionAction)
        requires
            old(self).state is Running || old(self).state is Closing,
            old(self).wf(),
        ensures
            final(self).id == old(self).id,
            final(self).wf(),
            outcome is Ok ==> *final(self) == *old(self),
            outcome is Ok && old(self).state is Running ==> a == SessionAction::Proceed,
            outcome is Ok && old(self).state is Closing ==> a == SessionAction::Stop,
            outcome is Err && old(self).state is Running ==> final(self).state is Closing
                && final(self).failed == Some((d, outcome->Err_0))
                && a == SessionAction::CancelOther,
            outcome is Err && old(self).state is Closing ==> final(self).state is Closing
                && final(self).failed == old(self).failed
                && a == SessionAction::Stop,
    {
        match outcome {
            Ok(()) => {
                if self.state == SessionState::Running {
                    SessionAction::Proceed
                } else {
                    SessionAction::Stop
                }
            },
            Err(e) => {
                if self.state == SessionState::Running {
                    self.state = SessionState::Closing;
                    self.failed = Some((d, e));
                    SessionAction::CancelOther
                } else {
                    SessionAction::Stop
                }
            },
        }
    }

    /// Both directions have stopped and the handles are released.
    pub fn finish_close(&mut self)
        requires
            old(self).state is Closing,
            old(self).wf(),
        ensures
            final(self).state is Terminated,
            final(self).id == old(self).id,
            final(self).failed == old(self).failed,
            final(self).wf(),
            !final(self).can_step(),
    {
        self.state = SessionState::Terminated;
    }
}

/// A session, once terminated, is never resumed: no transition is enabled on
/// a terminated session, and every transition that ends a session leaves it
/// with its first failure on record.
pub proof fn lemma_terminated_is_final(s: TunnelSession)
    requires
        s.wf(),
        s.state is Terminated,
    ensures
        !s.can_step(),
        s.failed is Some,
{
}

} // verus!
