//! Session multiplexer: the server-side bookkeeping for many concurrent
//! sessions sharing one local packet device.
//!
//! The multiplexer decides what the accept loop does next, hands out session
//! identifiers, and owns the mutual-exclusion gate that serializes writes to
//! the shared device. The surrounding binary performs the actual accepts and
//! writes; every admission, removal and gate decision is taken here.
//!
//! Known limitation, kept on purpose from the observed design: reads from the
//! shared device are not partitioned by session — whichever session's
//! device-to-stream loop claims the read first forwards the packet, so a
//! reply may travel over a different session than the request, and one
//! session's reads may starve another's. Per-session routing would need a
//! dedicated read dispatcher above this core.

use vstd::prelude::*;

verus! {

/// What the accept loop does after one accept attempt.
#[derive(Clone, Copy, Debug, PartialEq, Eq, Structural)]
pub enum AcceptDecision {
    /// A connection arrived: run a new session under this identifier.
    Spawn(u64),
    /// The accept failed: drop it and keep accepting; one failed accept
    /// never stops the server.
    KeepAccepting,
}

/// Bookkeeping for the sessions sharing one packet device.
pub struct Multiplexer {
    /// Identifiers of the sessions currently alive, in admission order.
    pub sessions: Vec<u64>,
    /// Next identifier to hand out; identifiers are never reused.
    pub next_id: u64,
    /// The session currently holding the device-write gate, if any.
    pub write_holder: Option<u64>,
}

impl Multiplexer {
    /// Identifiers are unique, below `next_id`, and the write gate is only
    /// ever held by a live session.
    pub open spec fn wf(self) -> bool {
        &&& forall|i: int, j: int|
            0 <= i < j < self.sessions@.len() ==> #[trigger] self.sessions@[i]
                != #[trigger] self.sessions@[j]
        &&& forall|i: int| 0 <= i < self.sessions@.len() ==> #[trigger] self.sessions@[i] < self.next_id
        &&& self.write_holder matches Some(h) ==> self.sessions@.contains(h)
    }

    /// Whether a session with this identifier is currently alive.
    pub open spec fn active(self, id: u64) -> bool {
        self.sessions@.contains(id)
    }

    /// A multiplexer for a freshly opened shared device: no sessions yet,
    /// nobody holds the write gate.
    pub fn new() -> (m: Self)
        ensures
            m.sessions@ == Seq::<u64>::empty(),
            m.next_id == 0,
            m.write_holder is None,
            m.wf(),
    {
        Multiplexer { sessions: Vec::new(), next_id: 0, write_holder: None }
    }

    /// One accept attempt finished.
    ///
    /// On success a fresh identifier is admitted and returned for the new
    /// session; on failure nothing changes and the loop keeps accepting.
    /// Either way every existing session stays admitted.
    pub fn on_accept_result(&mut self, accepted: bool) -> (d: AcceptDecision)
        requires
            old(self).wf(),
            old(self).next_id < u64::MAX,
        ensures
            final(self).wf(),
            accepted ==> d == AcceptDecision::Spawn(old(self).next_id)
                && final(self).sessions@ == old(self).sessions@.push(old(self).next_id)
                && final(self).next_id == old(self).next_id + 1
                && final(self).write_holder == old(self).write_holder,
            !accepted ==> d == AcceptDecision::KeepAccepting && *final(self) == *old(self),
            forall|x: u64| old(self).active(x) ==> final(self).active(x),
    {
        if accepted {
            let id = self.next_id;
            self.sessions.push(id);
            self.next_id = id + 1;
            proof {
                assert forall|x: u64| old(self).active(x) implies self.active(x) by {
                    let k = choose|k: int|
                        0 <= k < old(self).sessions@.len() && old(self).sessions@[k] == x;
                    assert(self.sessions@[k] == x);
                }
                assert(self.wf()) by {
                    assert forall|i: int, j: int|
                        0 <= i < j < self.sessions@.len() implies self.sessions@[i]
                        != self.sessions@[j] by {
                        if j == self.sessions@.len() - 1 {
                            assert(self.sessions@[i] == old(self).sessions@[i]);
                            assert(self.sessions@[i] < old(self).next_id);
                        }
                    }
                    match self.write_holder {
                        Some(h) => {
                            let k = choose|k: int|
                                0 <= k < old(self).sessions@.len() && old(self).sessions@[k] == h;
                            assert(self.sessions@[k] == h);
                        },
                        None => {},
                    }
                }
            }
            AcceptDecision::Spawn(id)
        } else {
            AcceptDecision::KeepAccepting
        }
    }

    /// A session terminated: drop it from the bookkeeping.
    ///
    /// Only that session leaves; every other session stays admitted, and the
    /// write gate is released if the dying session happened to hold it, and
    /// is untouched otherwise.
    pub fn on_session_terminated(&mut self, id: u64)
        requires
            old(self).wf(),
        ensures
            final(self).wf(),
            !final(self).active(id),
            forall|x: u64| x != id ==> (final(self).active(x) <==> old(self).active(x)),
            !old(self).active(id) ==> final(self).sessions@ == old(self).sessions@,
            old(self).active(id) ==> exists|k: int|
                0 <= k < old(self).sessions@.len() && old(self).sessions@[k] == id
                    && final(self).sessions@ == #[trigger] old(self).sessions@.remove(k),
            final(self).next_id == old(self).next_id,
            old(self).write_holder == Some(id) ==> final(self).write_holder is None,
            old(self).write_holder != Some(id) ==> final(self).write_holder
                == old(self).write_holder,
    {
        let mut i: usize = 0;
        let n = self.sessions.len();
        while i < n && self.sessions[i] != id
            invariant
                n == self.sessions@.len(),
                i <= n,
                *self == *old(self),
                forall|k: int| 0 <= k < i ==> self.sessions@[k] != id,
            decreases n - i,
        {
            i += 1;
        }
        if i < n {
            proof {
                self.sessions@.remove_ensures(i as int);
            }
            let ghost before = self.sessions@;
            self.sessions.remove(i);
            proof {
                assert(!self.sessions@.contains(id)) by {
                    assert forall|k: int| 0 <= k < self.sessions@.len()
                        implies self.sessions@[k] != id by {
                        if k < i {
                            assert(self.sessions@[k] == before[k]);
                        } else {
                            assert(self.sessions@[k] == before[k + 1]);
                        }
                    }
                }
                assert forall|x: u64| x != id implies (self.sessions@.contains(x)
                    <==> before.contains(x)) by {
                    if self.sessions@.contains(x) {
                        let k = choose|k: int|
                            0 <= k < self.sessions@.len() && self.sessions@[k] == x;
                        if k < i {
                            assert(before[k] == x);
                        } else {
                            assert(before[k + 1] == x);
                        }
                    }
                    if before.contains(x) {
                        let k = choose|k: int| 0 <= k < before.len() && before[k] == x;
                        if k < i {
                            assert(self.sessions@[k] == x);
                        } else if k > i {
                            assert(self.sessions@[k - 1] == x);
                        }
                    }
                }
                assert forall|a: int, b: int|
                    0 <= a < b < self.sessions@.len() implies #[trigger] self.sessions@[a]
                    != #[trigger] self.sessions@[b] by {
                    let a0 = if a < i { a } else { a + 1 };
                    let b0 = if b < i { b } else { b + 1 };
                    assert(self.sessions@[a] == before[a0]);
                    assert(self.sessions@[b] == before[b0]);
                }
                assert forall|a: int|
                    0 <= a < self.sessions@.len() implies #[trigger] self.sessions@[a]
                    < self.next_id by {
                    let a0 = if a < i { a } else { a + 1 };
                    assert(self.sessions@[a] == before[a0]);
                }
            }
        } else {
            proof {
                assert(!self.sessions@.contains(id));
            }
        }
        let release = match self.write_holder {
            Some(h) => h == id,
            None => false,
        };
        if release {
            self.write_holder = None;
        }
    }

    /// A session asks for the device-write gate before writing a packet to
    /// the shared device.
    ///
    /// The write gate is granted exactly when nobody holds it, so at most one
    /// session writes to the device at a time and no two packets' bytes can
    /// interleave on it.
    pub fn try_acquire_write(&mut self, id: u64) -> (got: bool)
        requires
            old(self).wf(),
            old(self).active(id),
        ensures
            final(self).wf(),
            got <==> old(self).write_holder is None,
            got ==> final(self).write_holder == Some(id),
            !got ==> *final(self) == *old(self),
            final(self).sessions@ == old(self).sessions@,
            final(self).next_id == old(self).next_id,
    {
        match self.write_holder {
            None => {
                self.write_holder = Some(id);
                true
            },
            Some(_) => false,
        }
    }

    /// The holder finished its device write and releases the write gate.
    pub fn release_write(&mut self, id: u64)
        requires
            old(self).wf(),
            old(self).write_holder == Some(id),
        ensures
            final(self).wf(),
            final(self).write_holder is None,
            final(self).sessions@ == old(self).sessions@,
            final(self).next_id == old(self).next_id,
    {
        self.write_holder = None;
    }
}

/// The device-write gate is exclusive: it names at most one holder, so two
/// sessions can never both be entitled to write to the shared device.
pub proof fn lemma_write_gate_exclusive(m: Multiplexer, a: u64, b: u64)
    requires
        m.wf(),
        m.write_holder == Some(a),
        m.write_holder == Some(b),
    ensures
        a == b,
{
}

} // verus!
