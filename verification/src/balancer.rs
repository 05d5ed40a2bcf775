//! Worker-side state and policy: the token-keyed tunnel registry owned by
//! one worker, token allocation, the timeout sweep, event-dispatch
//! decisions, outcome reporting to the selector, and least-loaded admission.
//!
//! A worker thread in the surrounding application drives these functions:
//! it polls for readiness, performs the socket operations, and hands every
//! observed outcome here. Everything that decides — which tunnel a token
//! names, when an attempt has timed out, which host to try next, what to
//! report — is verified.

use vstd::prelude::*;

use crate::client::{
    spec_close_target,
    spec_probe,
    spec_process,
    ProbeOutcome,
    ReadOutcome,
    TcpClient,
    WriteOutcome,
};
use crate::endpoint::Endpoint;
use crate::round_robin::{spec_next, spec_report_error, spec_report_success, RoundRobin};
use crate::{CONNECTION_TIMEOUT_MS, TARGET_DOWN_COOLDOWN_MS, TOTAL_CONNECTION_TIMEOUT_MS};

verus! {

/// Whether some entry of the registry list carries token `t`.
pub(crate) open spec fn reg_has(s: Seq<(usize, TcpClient)>, t: usize) -> bool {
    exists|i: int| 0 <= i < s.len() && (#[trigger] s[i]).0 == t
}

/// The index of the entry carrying `t` (unique when tokens are distinct).
pub(crate) open spec fn reg_index(s: Seq<(usize, TcpClient)>, t: usize) -> int {
    choose|i: int| 0 <= i < s.len() && (#[trigger] s[i]).0 == t
}

/// The registry list read as a map from token to tunnel.
pub(crate) open spec fn reg_map(s: Seq<(usize, TcpClient)>) -> Map<usize, TcpClient> {
    Map::new(|t: usize| reg_has(s, t), |t: usize| s[reg_index(s, t)].1)
}

/// No two entries of the registry list carry the same token.
pub(crate) open spec fn reg_distinct(s: Seq<(usize, TcpClient)>) -> bool {
    forall|i: int, j: int|
        0 <= i < j < s.len() ==> (#[trigger] s[i]).0 != (#[trigger] s[j]).0
}

/// With distinct tokens, an entry's position determines the lookup.
proof fn lemma_reg_at(s: Seq<(usize, TcpClient)>, i: int)
    requires
        reg_distinct(s),
        0 <= i < s.len(),
    ensures
        reg_has(s, s[i].0),
        reg_index(s, s[i].0) == i,
        reg_map(s).dom().contains(s[i].0),
        reg_map(s)[s[i].0] == s[i].1,
{
    let t = s[i].0;
    assert(reg_has(s, t)) by {
        assert(0 <= i < s.len() && s[i].0 == t);
    }
    let j = reg_index(s, t);
    assert(0 <= j < s.len() && s[j].0 == t);
    if i != j {
        if i < j {
            assert(s[i].0 != s[j].0);
        } else {
            assert(s[j].0 != s[i].0);
        }
        assert(false);
    }
}

/// Appending a fresh token inserts it into the map view.
proof fn lemma_reg_push(s: Seq<(usize, TcpClient)>, t: usize, c: TcpClient)
    requires
        reg_distinct(s),
        !reg_has(s, t),
    ensures
        reg_distinct(s.push((t, c))),
        reg_map(s.push((t, c))) == reg_map(s).insert(t, c),
{
    let s2 = s.push((t, c));
    assert forall|i: int, j: int| 0 <= i < j < s2.len() implies (#[trigger] s2[i]).0
        != (#[trigger] s2[j]).0 by {
        if j < s.len() {
            assert(s2[i] == s[i] && s2[j] == s[j]);
        } else {
            assert(s2[j].0 == t);
            assert(s2[i] == s[i]);
            assert(s[i].0 != t) by {
                if s[i].0 == t {
                    assert(reg_has(s, t)) by {
                        assert(0 <= i < s.len() && s[i].0 == t);
                    }
                }
            }
        }
    }
    assert forall|b: usize| #![auto] reg_has(s2, b) <==> reg_map(s).insert(t, c).dom().contains(
        b,
    ) by {
        if b == t {
            assert(reg_has(s2, t)) by {
                assert(s2[s.len() as int].0 == t);
            }
        } else {
            if reg_has(s2, b) {
                let i = reg_index(s2, b);
                assert(0 <= i < s2.len() && s2[i].0 == b);
                assert(i < s.len());
                assert(s[i].0 == b);
                assert(reg_has(s, b)) by {
                    assert(0 <= i < s.len() && s[i].0 == b);
                }
            }
            if reg_has(s, b) {
                let i = reg_index(s, b);
                assert(0 <= i < s.len() && s[i].0 == b);
                assert(s2[i].0 == b);
                assert(reg_has(s2, b)) by {
                    assert(0 <= i < s2.len() && s2[i].0 == b);
                }
            }
        }
    }
    assert forall|b: usize| #![auto] reg_map(s2).dom().contains(b) implies reg_map(s2)[b]
        == reg_map(s).insert(t, c)[b] by {
        if b == t {
            lemma_reg_at(s2, s.len() as int);
        } else {
            let i = reg_index(s2, b);
            assert(0 <= i < s2.len() && s2[i].0 == b);
            assert(i < s.len() && s[i].0 == b);
            lemma_reg_at(s, i);
            lemma_reg_at(s2, i);
        }
    }
    assert(reg_map(s2) =~= reg_map(s).insert(t, c));
}

/// Removing an entry removes its token from the map view.
proof fn lemma_reg_remove(s: Seq<(usize, TcpClient)>, i: int)
    requires
        reg_distinct(s),
        0 <= i < s.len(),
    ensures
        reg_distinct(s.remove(i)),
        reg_map(s.remove(i)) == reg_map(s).remove(s[i].0),
{
    let t = s[i].0;
    let s2 = s.remove(i);
    assert(s2.len() == s.len() - 1);
    assert forall|j: int| 0 <= j < s2.len() implies #[trigger] s2[j] == (
    if j < i {
        s[j]
    } else {
        s[j + 1]
    }) by {}
    assert forall|p: int, q: int| 0 <= p < q < s2.len() implies (#[trigger] s2[p]).0
        != (#[trigger] s2[q]).0 by {
        let p0 = if p < i { p } else { p + 1 };
        let q0 = if q < i { q } else { q + 1 };
        assert(s2[p] == s[p0] && s2[q] == s[q0]);
        assert(0 <= p0 < q0 < s.len());
    }
    assert forall|b: usize| #![auto] reg_has(s2, b) <==> reg_map(s).remove(t).dom().contains(
        b,
    ) by {
        if reg_has(s2, b) {
            let j = reg_index(s2, b);
            assert(0 <= j < s2.len() && s2[j].0 == b);
            let j0 = if j < i { j } else { j + 1 };
            assert(s[j0].0 == b);
            assert(reg_has(s, b)) by {
                assert(0 <= j0 < s.len() && s[j0].0 == b);
            }
            assert(b != t) by {
                if b == t {
                    lemma_reg_at(s, i);
                    lemma_reg_at(s, j0);
                }
            }
        }
        if b != t && reg_has(s, b) {
            let j0 = reg_index(s, b);
            assert(0 <= j0 < s.len() && s[j0].0 == b);
            assert(j0 != i);
            let j = if j0 < i { j0 } else { j0 - 1 };
            assert(s2[j].0 == b);
            assert(reg_has(s2, b)) by {
                assert(0 <= j < s2.len() && s2[j].0 == b);
            }
        }
    }
    assert forall|b: usize| #![auto] reg_map(s2).dom().contains(b) implies reg_map(s2)[b]
        == reg_map(s).remove(t)[b] by {
        let j = reg_index(s2, b);
        assert(0 <= j < s2.len() && s2[j].0 == b);
        let j0 = if j < i { j } else { j + 1 };
        assert(s[j0].0 == b && s2[j] == s[j0]);
        lemma_reg_at(s2, j);
        lemma_reg_at(s, j0);
    }
    assert(reg_map(s2) =~= reg_map(s).remove(t));
}

/// The token counter after allocating `t`: one further, wrapping to 1 and
/// never reaching 0 (token 0 is reserved for the listener).
pub open spec fn spec_bump_token(t: usize) -> usize {
    if t + 1 >= usize::MAX {
        1
    } else {
        (t + 1) as usize
    }
}

/// One worker's tunnel registry: the map from poller token to tunnel, and
/// the monotonically increasing token counter.
pub struct Worker {
    clients: Vec<(usize, TcpClient)>,
    next_token_id: usize,
}

impl View for Worker {
    type V = Map<usize, TcpClient>;

    closed spec fn view(&self) -> Map<usize, TcpClient> {
        reg_map(self.clients@)
    }
}

impl Worker {
    /// Tokens are pairwise distinct and never 0, the counter stays at 1 or
    /// above, and every registered tunnel is well-formed.
    pub closed spec fn wf(&self) -> bool {
        &&& reg_distinct(self.clients@)
        &&& self.next_token_id >= 1
        &&& forall|i: int|
            0 <= i < self.clients@.len() ==> (#[trigger] self.clients@[i]).0 != 0
                && self.clients@[i].1.wf()
    }

    /// The token the next admission will use.
    pub closed spec fn spec_next_token(&self) -> usize {
        self.next_token_id
    }

    /// How many tunnels the worker currently owns.
    pub closed spec fn spec_count(&self) -> int {
        self.clients@.len() as int
    }

    /// The tokens currently live, in registration order.
    pub closed spec fn token_seq(&self) -> Seq<usize> {
        self.clients@.map_values(|p: (usize, TcpClient)| p.0)
    }

    /// An empty worker; the first token handed out is 1.
    pub fn new() -> (w: Worker)
        ensures
            w.wf(),
            w@ == Map::<usize, TcpClient>::empty(),
            w.spec_count() == 0,
            w.spec_next_token() == 1,
    {
        let w = Worker { clients: Vec::new(), next_token_id: 1 };
        proof {
            assert(reg_map(w.clients@) =~= Map::<usize, TcpClient>::empty());
        }
        w
    }

    /// Allocates the next token: monotone, wrapping to 1, never 0.
    fn get_next_token(&mut self) -> (t: usize)
        requires
            old(self).wf(),
        ensures
            final(self).wf(),
            t == old(self).spec_next_token(),
            t >= 1,
            final(self).clients@ == old(self).clients@,
            final(self)@ == old(self)@,
            final(self).spec_count() == old(self).spec_count(),
            final(self).token_seq() == old(self).token_seq(),
            final(self).spec_next_token() == spec_bump_token(t),
    {
        let token = self.next_token_id;
        if self.next_token_id >= usize::MAX - 1 {
            self.next_token_id = 1;
        } else {
            self.next_token_id = self.next_token_id + 1;
        }
        token
    }

    /// The position of `token` in the registry list, if present.
    fn find_index(&self, token: usize) -> (r: Option<usize>)
        ensures
            match r {
                Some(i) => i < self.clients@.len() && self.clients@[i as int].0 == token,
                None => forall|j: int|
                    0 <= j < self.clients@.len() ==> (#[trigger] self.clients@[j]).0 != token,
            },
    {
        let mut i: usize = 0;
        while i < self.clients.len()
            invariant
                i <= self.clients@.len(),
                forall|j: int| 0 <= j < i ==> (#[trigger] self.clients@[j]).0 != token,
            decreases self.clients@.len() - i,
        {
            if self.clients[i].0 == token {
                return Some(i);
            }
            i = i + 1;
        }
        None
    }

    /// Takes over a pending tunnel: allocates a fresh token and registers the
    /// tunnel under it. The caller registers the client socket with its
    /// poller under the returned token.
    pub fn register_client(&mut self, client: TcpClient) -> (t: usize)
        requires
            old(self).wf(),
            client.wf(),
        ensures
            final(self).wf(),
            t == old(self).spec_next_token(),
            t != 0,
            final(self)@ == old(self)@.insert(t, client),
            final(self).spec_next_token() == spec_bump_token(t),
            final(self).spec_count() == old(self).spec_count() + if old(self)@.dom().contains(t) {
                0int
            } else {
                1int
            },
    {
        let t = self.get_next_token();
        let ghost s0 = self.clients@;
        match self.find_index(t) {
            Some(i) => {
                proof {
                    lemma_reg_at(s0, i as int);
                    lemma_reg_remove(s0, i as int);
                }
                self.clients.remove(i);
                proof {
                    if reg_has(self.clients@, t) {
                        let j = reg_index(self.clients@, t);
                        assert(0 <= j < self.clients@.len() && self.clients@[j].0 == t);
                        lemma_reg_at(self.clients@, j);
                    }
                    lemma_reg_push(self.clients@, t, client);
                }
                self.clients.push((t, client));
                proof {
                    assert(reg_map(self.clients@) =~= reg_map(s0).insert(t, client));
                    assert forall|k: int|
                        0 <= k < self.clients@.len() implies (#[trigger] self.clients@[k]).0 != 0
                        && self.clients@[k].1.wf() by {
                        if k < self.clients@.len() - 1 {
                            let k0 = if k < i as int { k } else { k + 1 };
                            assert(self.clients@[k] == s0[k0]);
                        }
                    }
                }
            },
            None => {
                proof {
                    if reg_has(s0, t) {
                        let j = reg_index(s0, t);
                        assert(0 <= j < s0.len() && s0[j].0 == t);
                    }
                    lemma_reg_push(s0, t, client);
                }
                self.clients.push((t, client));
            },
        }
        t
    }

    /// The tunnel registered under `token`, if any.
    pub fn get_client(&self, token: usize) -> (r: Option<TcpClient>)
        requires
            self.wf(),
        ensures
            match r {
                Some(c) => self@.dom().contains(token) && c == self@[token] && c.wf(),
                None => !self@.dom().contains(token),
            },
    {
        match self.find_index(token) {
            Some(i) => {
                proof {
                    lemma_reg_at(self.clients@, i as int);
                }
                Some(self.clients[i].1)
            },
            None => {
                proof {
                    if reg_has(self.clients@, token) {
                        let j = reg_index(self.clients@, token);
                        assert(0 <= j < self.clients@.len() && self.clients@[j].0 == token);
                    }
                }
                None
            },
        }
    }

    /// Replaces the tunnel registered under `token`; false when the token
    /// names no tunnel.
    pub fn update_client(&mut self, token: usize, client: TcpClient) -> (ok: bool)
        requires
            old(self).wf(),
            client.wf(),
        ensures
            final(self).wf(),
            ok == old(self)@.dom().contains(token),
            final(self).spec_count() == old(self).spec_count(),
            final(self).spec_next_token() == old(self).spec_next_token(),
            ok ==> final(self)@ == old(self)@.insert(token, client),
            !ok ==> final(self)@ == old(self)@,
    {
        let ghost s0 = self.clients@;
        match self.find_index(token) {
            Some(i) => {
                proof {
                    lemma_reg_at(s0, i as int);
                    lemma_reg_remove(s0, i as int);
                }
                self.clients.remove(i);
                proof {
                    if reg_has(self.clients@, token) {
                        let j = reg_index(self.clients@, token);
                        assert(0 <= j < self.clients@.len() && self.clients@[j].0 == token);
                        lemma_reg_at(self.clients@, j);
                    }
                    lemma_reg_push(self.clients@, token, client);
                }
                self.clients.push((token, client));
                proof {
                    assert(reg_map(self.clients@) =~= reg_map(s0).insert(token, client));
                    assert forall|k: int|
                        0 <= k < self.clients@.len() implies (#[trigger] self.clients@[k]).0 != 0
                        && self.clients@[k].1.wf() by {
                        if k < self.clients@.len() - 1 {
                            let k0 = if k < i as int { k } else { k + 1 };
                            assert(self.clients@[k] == s0[k0]);
                        }
                    }
                    assert(token != 0) by {
                        assert(s0[i as int].0 == token && s0[i as int].0 != 0);
                    }
                }
                true
            },
            None => {
                proof {
                    if reg_has(s0, token) {
                        let j = reg_index(s0, token);
                        assert(0 <= j < s0.len() && s0[j].0 == token);
                    }
                }
                false
            },
        }
    }

    /// Deregisters and returns the tunnel under `token`, if any. The
    /// caller deregisters the sockets from its poller before closing them.
    pub fn remove_client(&mut self, token: usize) -> (r: Option<TcpClient>)
        requires
            old(self).wf(),
        ensures
            final(self).wf(),
            final(self)@ == old(self)@.remove(token),
            final(self).spec_next_token() == old(self).spec_next_token(),
            match r {
                Some(c) => old(self)@.dom().contains(token) && c == old(self)@[token]
                    && final(self).spec_count() == old(self).spec_count() - 1,
                None => !old(self)@.dom().contains(token) && final(self).spec_count() == old(
                    self,
                ).spec_count(),
            },
    {
        let ghost s0 = self.clients@;
        match self.find_index(token) {
            Some(i) => {
                proof {
                    lemma_reg_at(s0, i as int);
                    lemma_reg_remove(s0, i as int);
                }
                let c = self.clients.remove(i);
                proof {
                    assert forall|k: int|
                        0 <= k < self.clients@.len() implies (#[trigger] self.clients@[k]).0 != 0
                        && self.clients@[k].1.wf() by {
                        let k0 = if k < i as int { k } else { k + 1 };
                        assert(self.clients@[k] == s0[k0]);
                    }
                }
                Some(c.1)
            },
            None => {
                proof {
                    if reg_has(s0, token) {
                        let j = reg_index(s0, token);
                        assert(0 <= j < s0.len() && s0[j].0 == token);
                    }
                    assert(reg_map(s0) =~= reg_map(s0).remove(token));
                }
                None
            },
        }
    }

    /// The number of tunnels this worker owns, published for admission.
    pub fn len(&self) -> (n: usize)
        ensures
            n as int == self.spec_count(),
    {
        self.clients.len()
    }

    /// A snapshot of the live tokens, for iterating a sweep.
    pub fn tokens_snapshot(&self) -> (r: Vec<usize>)
        ensures
            r@ == self.token_seq(),
    {
        let mut r: Vec<usize> = Vec::new();
        let mut i: usize = 0;
        while i < self.clients.len()
            invariant
                i <= self.clients@.len(),
                r@.len() == i,
                forall|j: int| 0 <= j < i ==> r@[j] == (#[trigger] self.clients@[j]).0,
            decreases self.clients@.len() - i,
        {
            r.push(self.clients[i].0);
            i = i + 1;
        }
        proof {
            assert(r@ =~= self.token_seq());
        }
        r
    }
}

/// Token uniqueness within a worker: while a tunnel is registered, no other
/// registered tunnel shares its token, and token 0 is never in use.
pub proof fn lemma_token_uniqueness(w: &Worker)
    requires
        w.wf(),
    ensures
        forall|i: int, j: int|
            0 <= i < j < w.token_seq().len() ==> w.token_seq()[i] != w.token_seq()[j],
        forall|i: int| 0 <= i < w.token_seq().len() ==> w.token_seq()[i] != 0,
{
    assert forall|i: int, j: int| 0 <= i < j < w.token_seq().len() implies w.token_seq()[i]
        != w.token_seq()[j] by {
        assert(w.token_seq()[i] == (#[trigger] w.view_clients()[i]).0);
        assert(w.token_seq()[j] == (#[trigger] w.view_clients()[j]).0);
    }
    assert forall|i: int| 0 <= i < w.token_seq().len() implies w.token_seq()[i] != 0 by {
        assert(w.token_seq()[i] == (#[trigger] w.view_clients()[i]).0);
    }
}

impl Worker {
    /// The raw registry list, for stating uniqueness.
    pub(crate) closed spec fn view_clients(&self) -> Seq<(usize, TcpClient)> {
        self.clients@
    }
}

/// What the timeout sweep decides for one tunnel.
#[derive(Clone, Copy, Debug, PartialEq, Eq, Structural)]
pub enum SweepAction {
    /// The client side is gone: deregister and drop the tunnel.
    Remove,
    /// The connect in flight has outlived the per-attempt deadline: close
    /// the upstream as errored, report it, and try the next host.
    FailOver,
    /// The connect phase has outlived the overall deadline: close the
    /// client.
    CloseClient,
    /// Nothing to do for this tunnel.
    Keep,
}

/// The sweep decision: a dead client is removed; a connect past the
/// per-attempt deadline fails over; a tunnel without an established
/// upstream past the overall deadline (measured from the last loss of
/// service) loses its client; anything else is kept.
pub open spec fn spec_sweep_action(c: TcpClient, now: u64) -> SweepAction {
    if !c.is_client_connected {
        SweepAction::Remove
    } else if c.is_connecting && now - c.started_connecting > CONNECTION_TIMEOUT_MS {
        SweepAction::FailOver
    } else if !c.is_connected && now - c.last_connection_loss > TOTAL_CONNECTION_TIMEOUT_MS {
        SweepAction::CloseClient
    } else {
        SweepAction::Keep
    }
}

/// Decides what the sweep does with one tunnel at `now`.
pub fn sweep_action(c: &TcpClient, now: u64) -> (r: SweepAction)
    requires
        now >= c.started_connecting,
        now >= c.last_connection_loss,
    ensures
        r == spec_sweep_action(*c, now),
{
    if !c.is_client_connected {
        SweepAction::Remove
    } else if c.is_connecting && now - c.started_connecting > CONNECTION_TIMEOUT_MS {
        SweepAction::FailOver
    } else if !c.is_connected && now - c.last_connection_loss > TOTAL_CONNECTION_TIMEOUT_MS {
        SweepAction::CloseClient
    } else {
        SweepAction::Keep
    }
}

/// The first decision on a readiness event for a tunnel.
#[derive(Clone, Copy, Debug, PartialEq, Eq, Structural)]
pub enum DispatchFirst {
    /// The client side is gone: ignore, the sweep will reap it.
    Skip,
    /// A connect is in flight: probe it for readiness first.
    Confirm,
    /// Go straight to the follow-up decision.
    Proceed,
}

/// The follow-up decision on a readiness event, taken after any probe.
#[derive(Clone, Copy, Debug, PartialEq, Eq, Structural)]
pub enum DispatchThen {
    /// The tunnel is established: pump bytes both ways.
    Process,
    /// Neither established nor connecting: start a connection attempt.
    StartConnection,
    /// Still connecting: nothing more to do on this event.
    Wait,
}

/// What to do first with an event for this tunnel.
pub open spec fn spec_dispatch_first(c: TcpClient) -> DispatchFirst {
    if !c.is_client_connected {
        DispatchFirst::Skip
    } else if c.is_connecting {
        DispatchFirst::Confirm
    } else {
        DispatchFirst::Proceed
    }
}

/// Decides the first step of event dispatch for one tunnel.
pub fn dispatch_first(c: &TcpClient) -> (r: DispatchFirst)
    ensures
        r == spec_dispatch_first(*c),
{
    if !c.is_client_connected {
        DispatchFirst::Skip
    } else if c.is_connecting {
        DispatchFirst::Confirm
    } else {
        DispatchFirst::Proceed
    }
}

/// What to do after any confirmation probe.
pub open spec fn spec_dispatch_then(c: TcpClient) -> DispatchThen {
    if c.is_connected {
        DispatchThen::Process
    } else if !c.is_connecting {
        DispatchThen::StartConnection
    } else {
        DispatchThen::Wait
    }
}

/// Decides the follow-up step of event dispatch for one tunnel.
pub fn dispatch_then(c: &TcpClient) -> (r: DispatchThen)
    ensures
        r == spec_dispatch_then(*c),
{
    if c.is_connected {
        DispatchThen::Process
    } else if !c.is_connecting {
        DispatchThen::StartConnection
    } else {
        DispatchThen::Wait
    }
}

/// After any tunnel operation that may have ended an upstream attempt in
/// error, puts the attempted host on cooldown. The single convention that
/// covers connect failures, connect timeouts, and relay errors.
pub fn report_target_error(client: &TcpClient, b: &mut RoundRobin, now: u64)
    requires
        old(b).wf(),
        client.last_target_error && client.last_target.is_some() ==> old(b)@.hosts.contains(
            client.last_target.unwrap(),
        ),
        now + TARGET_DOWN_COOLDOWN_MS <= u64::MAX,
    ensures
        final(b).wf(),
        final(b)@ == if client.last_target_error && client.last_target.is_some() {
            spec_report_error(old(b)@, client.last_target.unwrap(), now)
        } else {
            old(b)@
        },
        final(b)@.hosts == old(b)@.hosts,
{
    if client.last_target_error {
        if let Some(a) = client.last_target {
            b.report_error(a, now);
        }
    }
}

/// Applies a readiness probe for a connecting tunnel and, when the
/// connection is confirmed, clears any cooldown of the now-proven host
/// (checking cheaply before taking the write path).
pub fn try_confirm_connection(
    client: &mut TcpClient,
    b: &mut RoundRobin,
    probe: ProbeOutcome,
    now: u64,
) -> (r: bool)
    requires
        old(client).wf(),
        old(client).is_connecting,
        old(b).wf(),
    ensures
        *final(client) == spec_probe(*old(client), probe, now),
        final(client).wf(),
        r == (probe is Ready),
        final(b).wf(),
        final(b)@.hosts == old(b)@.hosts,
        final(b)@ == if probe is Ready {
            spec_report_success(old(b)@, old(client).target.unwrap())
        } else {
            old(b)@
        },
{
    let connected = client.check_target_connected(probe, now);
    if connected {
        let addr = client.target.unwrap();
        if b.is_on_cooldown(addr) {
            b.report_success(addr);
        } else {
            proof {
                assert(old(b)@.cooldowns.remove(addr) =~= old(b)@.cooldowns);
            }
        }
        true
    } else {
        false
    }
}

/// The endpoint for the next connection attempt of this tunnel: its
/// current target if it still has one, else the selector's next choice.
pub fn choose_target(client: &TcpClient, b: &mut RoundRobin, now: u64) -> (t: Endpoint)
    requires
        old(b).wf(),
    ensures
        final(b).wf(),
        final(b)@.hosts == old(b)@.hosts,
        match client.target {
            Some(a) => t == a && final(b)@ == old(b)@,
            None => (final(b)@, t) == spec_next(old(b)@, now) && old(b)@.hosts.contains(t),
        },
{
    match client.target {
        Some(a) => a,
        None => b.get_next_host(now),
    }
}

/// Fails a connect attempt over: the upstream in flight is closed as
/// errored, its host is put on cooldown, and the selector picks the next
/// endpoint to try. The caller then opens the new socket and hands the
/// outcome to the tunnel.
pub fn fail_over(client: &mut TcpClient, b: &mut RoundRobin, now: u64) -> (t: Endpoint)
    requires
        old(client).wf(),
        old(client).is_connecting,
        old(b).wf(),
        old(b)@.hosts.contains(old(client).target.unwrap()),
        now + TARGET_DOWN_COOLDOWN_MS <= u64::MAX,
    ensures
        *final(client) == spec_close_target(*old(client), true, now),
        final(client).wf(),
        (final(b)@, t) == spec_next(
            spec_report_error(old(b)@, old(client).target.unwrap(), now),
            now,
        ),
        final(b).wf(),
        final(b)@.hosts == old(b)@.hosts,
        old(b)@.hosts.contains(t),
{
    client.close_connection_to_target(true, now);
    report_target_error(client, b, now);
    choose_target(client, b, now)
}

/// One full pump of an established tunnel from the observed outcomes,
/// followed — when something failed — by the error report the worker owes
/// the selector.
pub fn process_client(
    client: &mut TcpClient,
    b: &mut RoundRobin,
    read_client: ReadOutcome,
    write_target: WriteOutcome,
    read_target: ReadOutcome,
    write_client: WriteOutcome,
    now: u64,
) -> (r: bool)
    requires
        old(client).wf(),
        old(client).is_connected,
        old(b).wf(),
        old(b)@.hosts.contains(old(client).target.unwrap()),
        now + TARGET_DOWN_COOLDOWN_MS <= u64::MAX,
    ensures
        ({
            let step = spec_process(
                *old(client),
                read_client,
                write_target,
                read_target,
                write_client,
                now,
            );
            &&& (*final(client), r) == step
            &&& final(client).wf()
            &&& final(b).wf()
            &&& final(b)@.hosts == old(b)@.hosts
            &&& final(b)@ == if !step.1 && step.0.last_target_error
                && step.0.last_target.is_some() {
                spec_report_error(old(b)@, step.0.last_target.unwrap(), now)
            } else {
                old(b)@
            }
        }),
{
    let ok = client.process(read_client, write_target, read_target, write_client, now);
    if !ok {
        report_target_error(client, b, now);
    }
    ok
}

/// The per-worker tunnel counts as mathematical integers.
pub open spec fn counts_int(s: Seq<usize>) -> Seq<int> {
    s.map_values(|x: usize| x as int)
}

/// The index of the first minimum of a count vector.
pub open spec fn spec_min_index(s: Seq<int>) -> int
    decreases s.len(),
{
    if s.len() <= 1 {
        0
    } else {
        let r = spec_min_index(s.drop_last());
        if s.last() < s[r] {
            s.len() - 1
        } else {
            r
        }
    }
}

/// The first minimum is a minimum, and everything before it is larger.
pub proof fn lemma_min_index_props(s: Seq<int>)
    requires
        s.len() > 0,
    ensures
        0 <= spec_min_index(s) < s.len(),
        forall|j: int| 0 <= j < s.len() ==> s[spec_min_index(s)] <= #[trigger] s[j],
        forall|j: int| 0 <= j < spec_min_index(s) ==> #[trigger] s[j] > s[spec_min_index(s)],
    decreases s.len(),
{
    if s.len() > 1 {
        let sd = s.drop_last();
        lemma_min_index_props(sd);
        let rd = spec_min_index(sd);
        let r = spec_min_index(s);
        assert(sd[rd] == s[rd]);
        assert forall|j: int| 0 <= j < s.len() implies s[r] <= #[trigger] s[j] by {
            if j < s.len() - 1 {
                assert(sd[j] == s[j]);
                assert(sd[rd] <= sd[j]);
            }
        }
        assert forall|j: int| 0 <= j < r implies #[trigger] s[j] > s[r] by {
            assert(sd[j] == s[j]);
            if r == s.len() - 1 {
                assert(sd[rd] <= sd[j]);
            } else {
                assert(sd[j] > sd[rd]);
            }
        }
    }
}

/// Chooses the worker with the smallest tunnel count, ties broken by the
/// lowest worker id: the admission decision.
pub fn pick_worker(counts: &Vec<usize>) -> (r: usize)
    requires
        counts@.len() > 0,
    ensures
        r < counts@.len(),
        r as int == spec_min_index(counts_int(counts@)),
        forall|j: int| 0 <= j < counts@.len() ==> counts@[r as int] <= counts@[j],
        forall|j: int| 0 <= j < r ==> counts@[j] > counts@[r as int],
{
    let ghost s = counts_int(counts@);
    let mut min_index: usize = 0;
    let mut min_length: usize = counts[0];
    let mut i: usize = 1;
    proof {
        assert(s.subrange(0, 1) =~= seq![s[0]]);
    }
    while i < counts.len()
        invariant
            1 <= i <= counts@.len(),
            s == counts_int(counts@),
            s.len() == counts@.len(),
            min_index < i,
            min_length == counts@[min_index as int],
            min_index as int == spec_min_index(s.subrange(0, i as int)),
        decreases counts@.len() - i,
    {
        proof {
            assert(s.subrange(0, i + 1).drop_last() =~= s.subrange(0, i as int));
            assert(s.subrange(0, i + 1).last() == s[i as int]);
        }
        if counts[i] < min_length {
            min_length = counts[i];
            min_index = i;
        }
        i = i + 1;
    }
    proof {
        assert(s.subrange(0, s.len() as int) =~= s);
        lemma_min_index_props(s);
        assert forall|j: int|
            0 <= j < counts@.len() implies counts@[min_index as int] <= #[trigger] counts@[j] by {
            assert(s[j] == counts@[j] as int);
            assert(s[min_index as int] == counts@[min_index as int] as int);
            assert(s[min_index as int] <= s[j]);
        }
        assert forall|j: int|
            0 <= j < min_index implies #[trigger] counts@[j] > counts@[min_index as int] by {
            assert(s[j] == counts@[j] as int);
            assert(s[min_index as int] == counts@[min_index as int] as int);
            assert(s[j] > s[min_index as int]);
        }
    }
    min_index
}

/// The counts are spread by at most one: no worker is more than one tunnel
/// ahead of any other.
pub open spec fn balanced(counts: Seq<int>) -> bool {
    forall|i: int, j: int|
        0 <= i < counts.len() && 0 <= j < counts.len() ==> counts[i] <= counts[j] + 1
}

/// One admission onto the least-loaded worker.
pub open spec fn spec_admit_one(counts: Seq<int>) -> Seq<int> {
    let p = spec_min_index(counts);
    counts.update(p, counts[p] + 1)
}

/// `n` sequential admissions.
pub open spec fn spec_admit_run(counts: Seq<int>, n: nat) -> Seq<int>
    decreases n,
{
    if n == 0 {
        counts
    } else {
        spec_admit_run(spec_admit_one(counts), (n - 1) as nat)
    }
}

/// One admission keeps the counts spread by at most one.
pub proof fn lemma_admission_balanced(counts: Seq<int>)
    requires
        counts.len() > 0,
        balanced(counts),
    ensures
        balanced(spec_admit_one(counts)),
        spec_admit_one(counts).len() == counts.len(),
{
    lemma_min_index_props(counts);
}

/// Load-balanced admission: starting from counts spread by at most one
/// (an idle pool in particular), any number of sequential admissions onto
/// the least-loaded worker keeps the spread at most one.
pub proof fn lemma_load_balanced_admission(counts: Seq<int>, n: nat)
    requires
        counts.len() > 0,
        balanced(counts),
    ensures
        balanced(spec_admit_run(counts, n)),
        spec_admit_run(counts, n).len() == counts.len(),
    decreases n,
{
    if n > 0 {
        lemma_admission_balanced(counts);
        lemma_load_balanced_admission(spec_admit_one(counts), (n - 1) as nat);
    }
}

} // verus!
