//! The per-connection tunnel state machine: one client paired with an
//! evolving upstream. The caller performs the socket operations and reports
//! their outcomes here as plain values; every transition of the record is
//! specified and verified.
//!
//! A tunnel is Fresh after creation, Connecting while an upstream connect is
//! in flight, Established while relaying, Failed after an upstream attempt
//! ended in error (so the worker can report it), and Dead once the client
//! side is gone.

use vstd::prelude::*;

use crate::endpoint::Endpoint;

verus! {

/// Outcome of one non-blocking read, as the caller observed it.
#[derive(Clone, Copy, Debug, PartialEq, Eq, Structural)]
pub enum ReadOutcome {
    /// `n` bytes were read and are ready to forward.
    Data(usize),
    /// The origin side returned a clean end of stream.
    Closed,
    /// Nothing to read right now.
    WouldBlock,
    /// The read failed.
    Failed,
}

/// Outcome of one non-blocking write, as the caller observed it.
#[derive(Clone, Copy, Debug, PartialEq, Eq, Structural)]
pub enum WriteOutcome {
    /// `n` bytes were written.
    Wrote(usize),
    /// The write failed.
    Failed,
    /// No write was attempted (nothing was read).
    NotAttempted,
}

/// Outcome of probing the upstream socket for connection readiness.
#[derive(Clone, Copy, Debug, PartialEq, Eq, Structural)]
pub enum ProbeOutcome {
    /// The probe succeeded: the upstream is connected.
    Ready,
    /// The socket reports it is not connected yet.
    NotConnected,
    /// The probe would block: still connecting.
    WouldBlock,
    /// The probe failed with a real error.
    Failed,
}

/// The tunnel record. The sockets themselves live with the caller; this
/// record holds the state the balancing logic reads and writes.
#[derive(Clone, Copy)]
pub struct TcpClient {
    /// The client's peer address.
    pub address: Endpoint,
    /// The endpoint of the current upstream attempt or connection, if any.
    pub target: Option<Endpoint>,
    /// True while the upstream connection is established and relaying.
    pub is_connected: bool,
    /// True while an upstream connect is in flight.
    pub is_connecting: bool,
    /// True while the client side is alive.
    pub is_client_connected: bool,
    /// Moment of the most recent loss of upstream service, in ms.
    pub last_connection_loss: u64,
    /// Moment the current upstream connect began, in ms.
    pub started_connecting: u64,
    /// The most recently attempted endpoint, kept for error reporting.
    pub last_target: Option<Endpoint>,
    /// Whether that attempt ended in an error.
    pub last_target_error: bool,
}

impl TcpClient {
    /// Well-formedness: at most one of connecting/established; a dead client
    /// holds no upstream; an upstream attempt or connection has a target.
    pub open spec fn wf(self) -> bool {
        &&& !(self.is_connecting && self.is_connected)
        &&& !self.is_client_connected ==> {
            &&& !self.is_connected
            &&& !self.is_connecting
            &&& self.target.is_none()
        }
        &&& (self.is_connected || self.is_connecting) ==> self.target.is_some()
    }
}

/// The state of a tunnel right after its client was accepted at `now`.
pub open spec fn spec_new_client(address: Endpoint, now: u64) -> TcpClient {
    TcpClient {
        address,
        target: None,
        is_connected: false,
        is_connecting: false,
        is_client_connected: true,
        last_connection_loss: now,
        started_connecting: now,
        last_target: None,
        last_target_error: false,
    }
}

/// Releasing the upstream side: clears both upstream flags and the target,
/// stamps the loss of service if a connection was established, and records
/// the attempted endpoint when `target_errored`.
pub open spec fn spec_close_target(c: TcpClient, target_errored: bool, now: u64) -> TcpClient {
    TcpClient {
        address: c.address,
        target: None,
        is_connected: false,
        is_connecting: false,
        is_client_connected: c.is_client_connected,
        last_connection_loss: if c.is_connected {
            now
        } else {
            c.last_connection_loss
        },
        started_connecting: c.started_connecting,
        last_target: if target_errored {
            c.target
        } else {
            None
        },
        last_target_error: target_errored,
    }
}

/// Closing the client side: a no-op on an already-closed client, otherwise
/// marks the client gone and releases the upstream without blaming it.
pub open spec fn spec_close_client(c: TcpClient, now: u64) -> TcpClient {
    if !c.is_client_connected {
        c
    } else {
        spec_close_target(
            TcpClient { is_client_connected: false, ..c },
            false,
            now,
        )
    }
}

/// Beginning an upstream connect to `target` at `now`: any prior upstream is
/// released first. If the socket was created the tunnel is Connecting;
/// otherwise the attempt failed and is recorded for reporting.
pub open spec fn spec_connect(c: TcpClient, target: Endpoint, socket_created: bool, now: u64) -> TcpClient {
    let released = spec_close_target(c, false, now);
    if socket_created {
        TcpClient {
            target: Some(target),
            is_connecting: true,
            started_connecting: now,
            ..released
        }
    } else {
        TcpClient {
            last_target: Some(target),
            last_target_error: true,
            ..released
        }
    }
}

/// Confirming a connect in flight from a probe of the upstream socket:
/// readiness establishes the connection, "would block" and "not connected"
/// leave it in flight, and a real error ends the attempt as errored.
pub open spec fn spec_probe(c: TcpClient, probe: ProbeOutcome, now: u64) -> TcpClient {
    match probe {
        ProbeOutcome::Ready => TcpClient { is_connected: true, is_connecting: false, ..c },
        ProbeOutcome::NotConnected => c,
        ProbeOutcome::WouldBlock => c,
        ProbeOutcome::Failed => spec_close_target(c, true, now),
    }
}

/// One client-to-upstream pump step. A short or failed write tears down the
/// upstream side as errored; a clean client EOF or a client read error tears
/// down the whole tunnel; "would block" is a no-op.
pub open spec fn spec_forward_to_target(
    c: TcpClient,
    read: ReadOutcome,
    write: WriteOutcome,
    now: u64,
) -> (TcpClient, bool) {
    match read {
        ReadOutcome::Data(n) => {
            if write == WriteOutcome::Wrote(n) {
                (c, true)
            } else {
                (spec_close_target(c, true, now), false)
            }
        },
        ReadOutcome::Closed => (spec_close_client(c, now), false),
        ReadOutcome::WouldBlock => (c, true),
        ReadOutcome::Failed => (spec_close_client(c, now), false),
    }
}

/// One upstream-to-client pump step. A clean upstream EOF closes only the
/// upstream side, without blame; an upstream read error closes it as
/// errored; a short or failed write to the client tears down the tunnel.
pub open spec fn spec_forward_from_target(
    c: TcpClient,
    read: ReadOutcome,
    write: WriteOutcome,
    now: u64,
) -> (TcpClient, bool) {
    match read {
        ReadOutcome::Data(n) => {
            if write == WriteOutcome::Wrote(n) {
                (c, true)
            } else {
                (spec_close_client(c, now), false)
            }
        },
        ReadOutcome::Closed => (spec_close_target(c, false, now), false),
        ReadOutcome::WouldBlock => (c, true),
        ReadOutcome::Failed => (spec_close_target(c, true, now), false),
    }
}

/// A full pump: one client-to-upstream step, then, if the tunnel survived
/// it, one upstream-to-client step.
pub open spec fn spec_process(
    c: TcpClient,
    read_client: ReadOutcome,
    write_target: WriteOutcome,
    read_target: ReadOutcome,
    write_client: WriteOutcome,
    now: u64,
) -> (TcpClient, bool) {
    let (c1, ok) = spec_forward_to_target(c, read_client, write_target, now);
    if ok {
        spec_forward_from_target(c1, read_target, write_client, now)
    } else {
        (c1, false)
    }
}

impl TcpClient {
    /// A fresh tunnel for a client accepted at `now`, peered at `address`.
    pub fn new(address: Endpoint, now: u64) -> (c: TcpClient)
        ensures
            c == spec_new_client(address, now),
            c.wf(),
    {
        TcpClient {
            address,
            target: None,
            is_connected: false,
            is_connecting: false,
            is_client_connected: true,
            last_connection_loss: now,
            started_connecting: now,
            last_target: None,
            last_target_error: false,
        }
    }

    /// Releases the upstream side; the caller shuts the socket down.
    pub fn close_connection_to_target(&mut self, target_errored: bool, now: u64)
        ensures
            *final(self) == spec_close_target(*old(self), target_errored, now),
            final(self).wf(),
    {
        if self.is_connected {
            self.last_connection_loss = now;
        }
        if target_errored {
            self.last_target = self.target;
            self.last_target_error = true;
        } else {
            self.last_target = None;
            self.last_target_error = false;
        }
        self.target = None;
        self.is_connected = false;
        self.is_connecting = false;
    }

    /// Closes the client side; idempotent. The caller shuts both sockets
    /// down whenever this clears `is_client_connected`.
    pub fn close_connection(&mut self, now: u64)
        ensures
            *final(self) == spec_close_client(*old(self), now),
            old(self).wf() ==> final(self).wf(),
    {
        if self.is_client_connected {
            self.is_client_connected = false;
            self.close_connection_to_target(false, now);
        }
    }

    /// Records the start of a connect to `target`, after the caller tried to
    /// create the outbound socket (`socket_created` says whether it could).
    /// Returns whether the tunnel is now Connecting.
    pub fn connect_to_target(&mut self, target: Endpoint, socket_created: bool, now: u64) -> (r: bool)
        requires
            old(self).wf(),
            !old(self).is_connecting,
            old(self).is_client_connected,
        ensures
            *final(self) == spec_connect(*old(self), target, socket_created, now),
            r == socket_created,
            final(self).wf(),
    {
        self.close_connection_to_target(false, now);
        if socket_created {
            self.is_connecting = true;
            self.target = Some(target);
            self.started_connecting = now;
            true
        } else {
            self.last_target = Some(target);
            self.last_target_error = true;
            false
        }
    }

    /// Applies the outcome of a readiness probe on the connecting upstream.
    /// Returns whether the connection is now established.
    pub fn check_target_connected(&mut self, probe: ProbeOutcome, now: u64) -> (r: bool)
        requires
            old(self).wf(),
            old(self).is_connecting,
        ensures
            *final(self) == spec_probe(*old(self), probe, now),
            r == (probe is Ready),
            final(self).wf(),
    {
        match probe {
            ProbeOutcome::Ready => {
                self.is_connected = true;
                self.is_connecting = false;
                true
            },
            ProbeOutcome::NotConnected => false,
            ProbeOutcome::WouldBlock => false,
            ProbeOutcome::Failed => {
                self.close_connection_to_target(true, now);
                false
            },
        }
    }

    /// Applies one client-to-upstream pump step from the observed outcomes.
    /// Returns false when the step tore something down.
    pub fn forward_to_target(&mut self, read: ReadOutcome, write: WriteOutcome, now: u64) -> (r: bool)
        requires
            old(self).wf(),
            old(self).is_connected,
        ensures
            (*final(self), r) == spec_forward_to_target(*old(self), read, write, now),
            final(self).wf(),
    {
        match read {
            ReadOutcome::Data(n) => {
                if write == WriteOutcome::Wrote(n) {
                    true
                } else {
                    self.close_connection_to_target(true, now);
                    false
                }
            },
            ReadOutcome::Closed => {
                self.close_connection(now);
                false
            },
            ReadOutcome::WouldBlock => true,
            ReadOutcome::Failed => {
                self.close_connection(now);
                false
            },
        }
    }

    /// Applies one upstream-to-client pump step from the observed outcomes.
    /// Returns false when the step tore something down.
    pub fn forward_from_target(&mut self, read: ReadOutcome, write: WriteOutcome, now: u64) -> (r: bool)
        requires
            old(self).wf(),
            old(self).is_connected,
        ensures
            (*final(self), r) == spec_forward_from_target(*old(self), read, write, now),
            final(self).wf(),
    {
        match read {
            ReadOutcome::Data(n) => {
                if write == WriteOutcome::Wrote(n) {
                    true
                } else {
                    self.close_connection(now);
                    false
                }
            },
            ReadOutcome::Closed => {
                self.close_connection_to_target(false, now);
                false
            },
            ReadOutcome::WouldBlock => true,
            ReadOutcome::Failed => {
                self.close_connection_to_target(true, now);
                false
            },
        }
    }

    /// A full pump from the outcomes of both directions. The second
    /// direction's outcomes are consulted only if the first direction left
    /// the tunnel intact, matching how the caller gathers them.
    pub fn process(
        &mut self,
        read_client: ReadOutcome,
        write_target: WriteOutcome,
        read_target: ReadOutcome,
        write_client: WriteOutcome,
        now: u64,
    ) -> (r: bool)
        requires
            old(self).wf(),
            old(self).is_connected,
        ensures
            (*final(self), r) == spec_process(
                *old(self),
                read_client,
                write_target,
                read_target,
                write_client,
                now,
            ),
            final(self).wf(),
    {
        if !self.forward_to_target(read_client, write_target, now) {
            return false;
        }
        self.forward_from_target(read_target, write_client, now)
    }
}

impl TcpClient {
    /// The endpoint of the current upstream attempt or connection.
    pub fn get_target_addr(&self) -> (r: Option<Endpoint>)
        ensures
            r == self.target,
    {
        self.target
    }

    /// The most recently attempted endpoint, for error reporting.
    pub fn get_last_target_addr(&self) -> (r: Option<Endpoint>)
        ensures
            r == self.last_target,
    {
        self.last_target
    }

    /// Whether the most recent upstream attempt ended in an error.
    pub fn last_target_errored(&self) -> (r: bool)
        ensures
            r == self.last_target_error,
    {
        self.last_target_error
    }

    /// Whether the upstream connection is established.
    pub fn is_connected(&self) -> (r: bool)
        ensures
            r == self.is_connected,
    {
        self.is_connected
    }

    /// Whether an upstream connect is in flight.
    pub fn is_connecting(&self) -> (r: bool)
        ensures
            r == self.is_connecting,
    {
        self.is_connecting
    }

    /// Whether the client side is alive.
    pub fn is_client_connected(&self) -> (r: bool)
        ensures
            r == self.is_client_connected,
    {
        self.is_client_connected
    }
}

/// Both upstream flags can never be set at once: an upstream is at most one
/// of connecting and established.
pub proof fn lemma_at_most_one_upstream(c: TcpClient)
    requires
        c.wf(),
    ensures
        !(c.is_connecting && c.is_connected),
{
}

/// Closing the client side is idempotent: the second call is a no-op.
pub proof fn lemma_close_client_idempotent(c: TcpClient, now1: u64, now2: u64)
    ensures
        spec_close_client(spec_close_client(c, now1), now2) == spec_close_client(c, now1),
{
}

/// On a tunnel whose client side is already closed, closing again changes
/// nothing at all.
pub proof fn lemma_close_client_noop(c: TcpClient, now: u64)
    requires
        !c.is_client_connected,
    ensures
        spec_close_client(c, now) == c,
{
}

/// Closing the client side releases every resource of the tunnel: the
/// client is gone and no upstream target or flag remains, so the caller
/// can close both sockets and drop the record.
pub proof fn lemma_close_client_releases(c: TcpClient, now: u64)
    requires
        c.wf(),
    ensures
        ({
            let d = spec_close_client(c, now);
            &&& !d.is_client_connected
            &&& !d.is_connected
            &&& !d.is_connecting
            &&& d.target.is_none()
            &&& d.wf()
        }),
{
}

} // verus!
