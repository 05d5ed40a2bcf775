//! Round-robin host selection with per-host cooldowns.
//!
//! The selector walks the host set cyclically. A host reported as errored is
//! excluded from selection for a fixed cooldown; an entry whose expiration
//! has passed is removed lazily when the scan encounters it. When every host
//! is on cooldown the selector still returns the host at the cursor — a
//! client is better served by a doubtful host than by no host at all.
//!
//! The behaviour is specified over an abstract model
//! ([`SelectorModel`]: the host sequence, the cursor, and a map from
//! endpoint to cooldown expiration); every operation of the executable
//! [`RoundRobin`] is proved to implement its model transition.

use vstd::prelude::*;
use vstd::arithmetic::div_mod::{
    lemma_mod_add_multiples_vanish,
    lemma_mod_self_0,
    lemma_small_mod,
};

use crate::endpoint::Endpoint;
use crate::host_manager::HostManager;
use crate::TARGET_DOWN_COOLDOWN_MS;

verus! {

/// The mathematical state of the selector.
pub struct SelectorModel {
    /// The ordered host set; never changes after construction.
    pub hosts: Seq<Endpoint>,
    /// Index of the next candidate in the round-robin cycle.
    pub cursor: int,
    /// The cooldown table: endpoint to absolute expiration moment (ms).
    pub cooldowns: Map<Endpoint, u64>,
}

impl SelectorModel {
    /// The host set is non-empty, the cursor is in range, and every
    /// cooled-down endpoint belongs to the host set.
    pub open spec fn wf(self) -> bool {
        &&& self.hosts.len() > 0
        &&& 0 <= self.cursor < self.hosts.len()
        &&& forall|a: Endpoint| #[trigger]
            self.cooldowns.dom().contains(a) ==> self.hosts.contains(a)
    }

    /// An endpoint may be selected when it has no cooldown entry, or its
    /// entry has expired (expiration exactly at `now` counts as expired).
    pub open spec fn eligible(self, a: Endpoint, now: u64) -> bool {
        !self.cooldowns.dom().contains(a) || now >= self.cooldowns[a]
    }
}

/// Whether the host `k` steps past the cursor (cyclically) is eligible.
pub open spec fn slot_eligible(m: SelectorModel, now: u64, k: int) -> bool {
    m.eligible(m.hosts[(m.cursor + k) % (m.hosts.len() as int)], now)
}

/// The first offset `>= i` (taken cyclically from the cursor) whose host is
/// eligible at `now`, or the host count when no host is.
pub open spec fn first_eligible_from(m: SelectorModel, now: u64, i: int) -> int
    decreases m.hosts.len() - i,
{
    let h = m.hosts.len() as int;
    if i < 0 || i >= h {
        h
    } else if slot_eligible(m, now, i) {
        i
    } else {
        first_eligible_from(m, now, i + 1)
    }
}

/// When every offset below `i` is ineligible, the search from the cursor
/// and the search from offset `i` agree.
pub(crate) proof fn lemma_first_skip(m: SelectorModel, now: u64, i: int)
    requires
        0 <= i <= m.hosts.len(),
        forall|k: int| 0 <= k < i ==> !#[trigger] slot_eligible(m, now, k),
    ensures
        first_eligible_from(m, now, 0) == first_eligible_from(m, now, i),
    decreases i,
{
    if i > 0 {
        lemma_first_skip(m, now, i - 1);
        assert(first_eligible_from(m, now, i - 1) == first_eligible_from(m, now, i));
    }
}

/// One selection step. If some host is eligible, the first one found from
/// the cursor onward is returned, its cooldown entry (expired, if present)
/// is dropped, and the cursor moves just past it. Otherwise every host is
/// on an unexpired cooldown: the host at the cursor is returned as the best
/// available, and the cursor advances one step.
pub open spec fn spec_next(m: SelectorModel, now: u64) -> (SelectorModel, Endpoint) {
    let h = m.hosts.len() as int;
    let off = first_eligible_from(m, now, 0);
    if off < h {
        let idx = (m.cursor + off) % h;
        let e = m.hosts[idx];
        (
            SelectorModel {
                hosts: m.hosts,
                cursor: (idx + 1) % h,
                cooldowns: m.cooldowns.remove(e),
            },
            e,
        )
    } else {
        (
            SelectorModel {
                hosts: m.hosts,
                cursor: (m.cursor + 1) % h,
                cooldowns: m.cooldowns,
            },
            m.hosts[m.cursor],
        )
    }
}

/// Reporting an error inserts or refreshes the cooldown entry, expiring a
/// full cooldown after `now`.
pub open spec fn spec_report_error(m: SelectorModel, a: Endpoint, now: u64) -> SelectorModel {
    SelectorModel {
        hosts: m.hosts,
        cursor: m.cursor,
        cooldowns: m.cooldowns.insert(a, (now + TARGET_DOWN_COOLDOWN_MS) as u64),
    }
}

/// Reporting a success removes any cooldown entry for the endpoint.
pub open spec fn spec_report_success(m: SelectorModel, a: Endpoint) -> SelectorModel {
    SelectorModel { hosts: m.hosts, cursor: m.cursor, cooldowns: m.cooldowns.remove(a) }
}

/// Whether some entry of the cooldown list carries endpoint `a`.
pub(crate) open spec fn cd_has(s: Seq<(Endpoint, u64)>, a: Endpoint) -> bool {
    exists|i: int| 0 <= i < s.len() && (#[trigger] s[i]).0 == a
}

/// The index of the entry carrying `a` (unique when keys are distinct).
pub(crate) open spec fn cd_index(s: Seq<(Endpoint, u64)>, a: Endpoint) -> int {
    choose|i: int| 0 <= i < s.len() && (#[trigger] s[i]).0 == a
}

/// The cooldown list read as a map from endpoint to expiration.
pub(crate) open spec fn cd_map(s: Seq<(Endpoint, u64)>) -> Map<Endpoint, u64> {
    Map::new(|a: Endpoint| cd_has(s, a), |a: Endpoint| s[cd_index(s, a)].1)
}

/// No two entries of the cooldown list carry the same endpoint.
pub(crate) open spec fn distinct_keys(s: Seq<(Endpoint, u64)>) -> bool {
    forall|i: int, j: int|
        0 <= i < j < s.len() ==> (#[trigger] s[i]).0 != (#[trigger] s[j]).0
}

/// With distinct keys, an entry's position determines the lookup: the map
/// holds exactly that entry's expiration.
proof fn lemma_cd_at(s: Seq<(Endpoint, u64)>, i: int)
    requires
        distinct_keys(s),
        0 <= i < s.len(),
    ensures
        cd_has(s, s[i].0),
        cd_index(s, s[i].0) == i,
        cd_map(s).dom().contains(s[i].0),
        cd_map(s)[s[i].0] == s[i].1,
{
    let a = s[i].0;
    assert(cd_has(s, a)) by {
        assert(0 <= i < s.len() && s[i].0 == a);
    }
    let j = cd_index(s, a);
    assert(0 <= j < s.len() && s[j].0 == a);
    if i != j {
        if i < j {
            assert(s[i].0 != s[j].0);
        } else {
            assert(s[j].0 != s[i].0);
        }
        assert(false);
    }
}

/// Appending a fresh key to the list inserts it into the map view.
proof fn lemma_cd_push(s: Seq<(Endpoint, u64)>, a: Endpoint, v: u64)
    requires
        distinct_keys(s),
        !cd_has(s, a),
    ensures
        distinct_keys(s.push((a, v))),
        cd_map(s.push((a, v))) == cd_map(s).insert(a, v),
{
    let s2 = s.push((a, v));
    assert forall|i: int, j: int| 0 <= i < j < s2.len() implies (#[trigger] s2[i]).0
        != (#[trigger] s2[j]).0 by {
        if j < s.len() {
            assert(s2[i] == s[i] && s2[j] == s[j]);
        } else {
            assert(s2[j].0 == a);
            assert(s2[i] == s[i]);
            assert(s[i].0 != a) by {
                if s[i].0 == a {
                    assert(cd_has(s, a)) by {
                        assert(0 <= i < s.len() && s[i].0 == a);
                    }
                }
            }
        }
    }
    assert forall|b: Endpoint| #![auto] cd_has(s2, b) <==> cd_map(s).insert(a, v).dom().contains(
        b,
    ) by {
        if b == a {
            assert(cd_has(s2, a)) by {
                assert(s2[s.len() as int].0 == a);
            }
        } else {
            if cd_has(s2, b) {
                let i = cd_index(s2, b);
                assert(0 <= i < s2.len() && s2[i].0 == b);
                assert(i < s.len());
                assert(s[i].0 == b);
                assert(cd_has(s, b)) by {
                    assert(0 <= i < s.len() && s[i].0 == b);
                }
            }
            if cd_has(s, b) {
                let i = cd_index(s, b);
                assert(0 <= i < s.len() && s[i].0 == b);
                assert(s2[i].0 == b);
                assert(cd_has(s2, b)) by {
                    assert(0 <= i < s2.len() && s2[i].0 == b);
                }
            }
        }
    }
    assert forall|b: Endpoint| #![auto] cd_map(s2).dom().contains(b) implies cd_map(s2)[b]
        == cd_map(s).insert(a, v)[b] by {
        if b == a {
            lemma_cd_at(s2, s.len() as int);
        } else {
            let i = cd_index(s2, b);
            assert(0 <= i < s2.len() && s2[i].0 == b);
            assert(i < s.len() && s[i].0 == b);
            lemma_cd_at(s, i);
            lemma_cd_at(s2, i);
        }
    }
    assert(cd_map(s2) =~= cd_map(s).insert(a, v));
}

/// Removing an entry from the list removes its key from the map view.
proof fn lemma_cd_remove(s: Seq<(Endpoint, u64)>, i: int)
    requires
        distinct_keys(s),
        0 <= i < s.len(),
    ensures
        distinct_keys(s.remove(i)),
        cd_map(s.remove(i)) == cd_map(s).remove(s[i].0),
{
    let a = s[i].0;
    let s2 = s.remove(i);
    assert(s2.len() == s.len() - 1);
    assert forall|j: int| 0 <= j < s2.len() implies #[trigger] s2[j] == (
    if j < i {
        s[j]
    } else {
        s[j + 1]
    }) by {}
    assert forall|p: int, q: int| 0 <= p < q < s2.len() implies (#[trigger] s2[p]).0
        != (#[trigger] s2[q]).0 by {
        let p0 = if p < i { p } else { p + 1 };
        let q0 = if q < i { q } else { q + 1 };
        assert(s2[p] == s[p0] && s2[q] == s[q0]);
        assert(0 <= p0 < q0 < s.len());
    }
    assert forall|b: Endpoint| #![auto] cd_has(s2, b) <==> cd_map(s).remove(a).dom().contains(
        b,
    ) by {
        if cd_has(s2, b) {
            let j = cd_index(s2, b);
            assert(0 <= j < s2.len() && s2[j].0 == b);
            let j0 = if j < i { j } else { j + 1 };
            assert(s[j0].0 == b);
            assert(cd_has(s, b)) by {
                assert(0 <= j0 < s.len() && s[j0].0 == b);
            }
            assert(b != a) by {
                if b == a {
                    lemma_cd_at(s, i);
                    lemma_cd_at(s, j0);
                }
            }
        }
        if b != a && cd_has(s, b) {
            let j0 = cd_index(s, b);
            assert(0 <= j0 < s.len() && s[j0].0 == b);
            assert(j0 != i);
            let j = if j0 < i { j0 } else { j0 - 1 };
            assert(s2[j].0 == b);
            assert(cd_has(s2, b)) by {
                assert(0 <= j < s2.len() && s2[j].0 == b);
            }
        }
    }
    assert forall|b: Endpoint| #![auto] cd_map(s2).dom().contains(b) implies cd_map(s2)[b]
        == cd_map(s).remove(a)[b] by {
        let j = cd_index(s2, b);
        assert(0 <= j < s2.len() && s2[j].0 == b);
        let j0 = if j < i { j } else { j + 1 };
        assert(s[j0].0 == b && s2[j] == s[j0]);
        lemma_cd_at(s2, j);
        lemma_cd_at(s, j0);
    }
    assert(cd_map(s2) =~= cd_map(s).remove(a));
}

/// The round-robin selector.
pub struct RoundRobin {
    current_host: usize,
    max_host: usize,
    host_manager: HostManager,
    cooldowns: Vec<(Endpoint, u64)>,
}

impl View for RoundRobin {
    type V = SelectorModel;

    closed spec fn view(&self) -> SelectorModel {
        SelectorModel {
            hosts: self.host_manager.hosts@,
            cursor: self.current_host as int,
            cooldowns: cd_map(self.cooldowns@),
        }
    }
}

impl RoundRobin {
    /// The representation invariant of the executable selector.
    pub closed spec fn wf(&self) -> bool {
        &&& self.max_host == self.host_manager.hosts@.len()
        &&& self.max_host > 0
        &&& self.current_host < self.max_host
        &&& distinct_keys(self.cooldowns@)
        &&& forall|i: int|
            0 <= i < self.cooldowns@.len() ==> self.host_manager.hosts@.contains(
                (#[trigger] self.cooldowns@[i]).0,
            )
    }

    proof fn lemma_wf_view(&self)
        requires
            self.wf(),
        ensures
            self@.wf(),
    {
        assert forall|a: Endpoint| #[trigger]
            self@.cooldowns.dom().contains(a) implies self@.hosts.contains(a) by {
            let i = cd_index(self.cooldowns@, a);
            assert(0 <= i < self.cooldowns@.len() && self.cooldowns@[i].0 == a);
        }
    }

    /// A selector over the given host set, with the cursor at the first
    /// host and nothing on cooldown.
    pub fn new(host_manager: HostManager) -> (r: RoundRobin)
        requires
            host_manager.hosts@.len() > 0,
        ensures
            r.wf(),
            r@ == (SelectorModel {
                hosts: host_manager.hosts@,
                cursor: 0,
                cooldowns: Map::<Endpoint, u64>::empty(),
            }),
    {
        let max = host_manager.hosts.len();
        let r = RoundRobin {
            current_host: 0,
            host_manager,
            max_host: max,
            cooldowns: Vec::new(),
        };
        proof {
            assert(cd_map(r.cooldowns@) =~= Map::<Endpoint, u64>::empty());
        }
        r
    }

    /// The position of `addr` in the cooldown list, if present.
    fn get_host_cooldown_index(&self, addr: Endpoint) -> (r: Option<usize>)
        ensures
            match r {
                Some(i) => i < self.cooldowns@.len() && self.cooldowns@[i as int].0 == addr,
                None => forall|j: int|
                    0 <= j < self.cooldowns@.len() ==> (#[trigger] self.cooldowns@[j]).0 != addr,
            },
    {
        let mut i: usize = 0;
        while i < self.cooldowns.len()
            invariant
                i <= self.cooldowns@.len(),
                forall|j: int| 0 <= j < i ==> (#[trigger] self.cooldowns@[j]).0 != addr,
            decreases self.cooldowns@.len() - i,
        {
            if self.cooldowns[i].0 == addr {
                return Some(i);
            }
            i = i + 1;
        }
        None
    }

    /// Membership in the host set, for callers that must guard a report.
    pub fn has_host(&self, addr: Endpoint) -> (r: bool)
        ensures
            r == self@.hosts.contains(addr),
    {
        let mut i: usize = 0;
        while i < self.host_manager.hosts.len()
            invariant
                i <= self.host_manager.hosts@.len(),
                forall|j: int| 0 <= j < i ==> self.host_manager.hosts@[j] != addr,
            decreases self.host_manager.hosts@.len() - i,
        {
            if self.host_manager.hosts[i] == addr {
                return true;
            }
            i = i + 1;
        }
        false
    }

    /// Cheap membership test of the cooldown table; no expiration check.
    pub fn is_on_cooldown(&self, addr: Endpoint) -> (r: bool)
        ensures
            r == self@.cooldowns.dom().contains(addr),
    {
        match self.get_host_cooldown_index(addr) {
            Some(i) => {
                proof {
                    assert(cd_has(self.cooldowns@, addr)) by {
                        assert(0 <= i < self.cooldowns@.len() && self.cooldowns@[i as int].0
                            == addr);
                    }
                }
                true
            },
            None => {
                proof {
                    if cd_has(self.cooldowns@, addr) {
                        let j = cd_index(self.cooldowns@, addr);
                        assert(0 <= j < self.cooldowns@.len() && self.cooldowns@[j].0 == addr);
                    }
                }
                false
            },
        }
    }

    /// Inserts or refreshes the cooldown entry for `addr`, expiring a full
    /// cooldown after `now`.
    pub fn report_error(&mut self, addr: Endpoint, now: u64)
        requires
            old(self).wf(),
            old(self)@.hosts.contains(addr),
            now + TARGET_DOWN_COOLDOWN_MS <= u64::MAX,
        ensures
            final(self).wf(),
            final(self)@ == spec_report_error(old(self)@, addr, now),
    {
        let limit = now + TARGET_DOWN_COOLDOWN_MS;
        match self.get_host_cooldown_index(addr) {
            None => {
                proof {
                    if cd_has(self.cooldowns@, addr) {
                        let j = cd_index(self.cooldowns@, addr);
                        assert(0 <= j < self.cooldowns@.len() && self.cooldowns@[j].0 == addr);
                    }
                    lemma_cd_push(self.cooldowns@, addr, limit);
                }
                self.cooldowns.push((addr, limit));
            },
            Some(i) => {
                proof {
                    lemma_cd_remove(self.cooldowns@, i as int);
                    lemma_cd_at(self.cooldowns@, i as int);
                }
                let ghost mid = self.cooldowns@.remove(i as int);
                self.cooldowns.remove(i);
                proof {
                    if cd_has(mid, addr) {
                        let j = cd_index(mid, addr);
                        assert(0 <= j < mid.len() && mid[j].0 == addr);
                        assert(cd_map(mid).dom().contains(addr)) by {
                            lemma_cd_at(mid, j);
                        }
                    }
                    lemma_cd_push(mid, addr, limit);
                }
                self.cooldowns.push((addr, limit));
                proof {
                    assert(cd_map(self.cooldowns@) =~= cd_map(old(self).cooldowns@).insert(
                        addr,
                        limit,
                    ));
                }
            },
        }
    }

    /// Scans the host set cyclically from the cursor for the first eligible
    /// host, returning its offset from the cursor.
    fn scan_eligible(&self, now: u64) -> (r: Option<usize>)
        requires
            self.wf(),
        ensures
            match r {
                Some(i) => i < self@.hosts.len() && first_eligible_from(self@, now, 0) == i,
                None => first_eligible_from(self@, now, 0) == self@.hosts.len() as int,
            },
    {
        let h = self.max_host;
        let ghost hh = h as int;
        let ghost c = self@.cursor;
        let mut i: usize = 0;
        let mut idx: usize = self.current_host;
        proof {
            lemma_small_mod(idx as nat, h as nat);
        }
        while i < h
            invariant
                self.wf(),
                h == self.max_host,
                hh == self@.hosts.len(),
                c == self@.cursor,
                i <= h,
                idx < h,
                idx as int == (c + i as int) % hh,
                forall|k: int| 0 <= k < i ==> !#[trigger] slot_eligible(self@, now, k),
            decreases h - i,
        {
            let e = self.host_manager.hosts[idx];
            let elig = match self.get_host_cooldown_index(e) {
                None => {
                    proof {
                        if cd_has(self.cooldowns@, e) {
                            let j = cd_index(self.cooldowns@, e);
                            assert(0 <= j < self.cooldowns@.len() && self.cooldowns@[j].0 == e);
                        }
                        assert(self@.eligible(e, now));
                    }
                    true
                },
                Some(ci) => {
                    proof {
                        lemma_cd_at(self.cooldowns@, ci as int);
                        assert(self@.cooldowns.dom().contains(e));
                        assert(self@.cooldowns[e] == self.cooldowns@[ci as int].1);
                    }
                    now >= self.cooldowns[ci].1
                },
            };
            if elig {
                proof {
                    assert(slot_eligible(self@, now, i as int));
                    assert(first_eligible_from(self@, now, i as int) == i as int);
                    lemma_first_skip(self@, now, i as int);
                }
                return Some(i);
            }
            proof {
                assert(!slot_eligible(self@, now, i as int));
            }
            i = i + 1;
            let ghost oi = idx as int;
            idx = idx + 1;
            if idx == h {
                idx = 0;
            }
            proof {
                assert((c + i as int) % hh == idx as int) by {
                    vstd::arithmetic::div_mod::lemma_add_mod_noop_right(1, c + i - 1, hh);
                    assert((1 + (c + i - 1) % hh) % hh == (c + i as int) % hh);
                    assert((oi + 1) % hh == (c + i as int) % hh);
                    if oi + 1 == hh {
                        lemma_mod_self_0(hh);
                    } else {
                        lemma_small_mod((oi + 1) as nat, hh as nat);
                    }
                }
            }
        }
        proof {
            lemma_first_skip(self@, now, hh);
        }
        None
    }

    /// Returns the endpoint the caller should attempt next: the first host
    /// from the cursor onward not on an unexpired cooldown (removing an
    /// expired entry on encounter), or, when every host is on cooldown, the
    /// host at the cursor as the best available. The cursor advances past
    /// the returned slot on every call.
    pub fn get_next_host(&mut self, now: u64) -> (r: Endpoint)
        requires
            old(self).wf(),
        ensures
            final(self).wf(),
            final(self)@ == spec_next(old(self)@, now).0,
            r == spec_next(old(self)@, now).1,
            final(self)@.hosts == old(self)@.hosts,
            old(self)@.hosts.contains(r),
    {
        let ghost m0 = self@;
        let h = self.max_host;
        let ghost hh = h as int;
        match self.scan_eligible(now) {
            Some(i) => {
                let idx = if i < h - self.current_host {
                    self.current_host + i
                } else {
                    i - (h - self.current_host)
                };
                proof {
                    let s = m0.cursor + i as int;
                    if m0.cursor + i < hh {
                        lemma_small_mod(s as nat, hh as nat);
                    } else {
                        lemma_mod_add_multiples_vanish(s - hh, hh);
                        lemma_small_mod((s - hh) as nat, hh as nat);
                    }
                    assert(idx as int == s % hh);
                }
                let e = self.host_manager.hosts[idx];
                proof {
                    assert(m0.hosts.contains(e)) by {
                        assert(m0.hosts[idx as int] == e);
                    }
                }
                match self.get_host_cooldown_index(e) {
                    Some(ci) => {
                        proof {
                            lemma_cd_at(self.cooldowns@, ci as int);
                            lemma_cd_remove(self.cooldowns@, ci as int);
                            assert forall|j: int|
                                0 <= j < self.cooldowns@.remove(ci as int).len() implies m0.hosts.contains(
                                (#[trigger] self.cooldowns@.remove(ci as int)[j]).0,
                            ) by {
                                if j < ci as int {
                                    assert(self.cooldowns@.remove(ci as int)[j]
                                        == self.cooldowns@[j]);
                                } else {
                                    assert(self.cooldowns@.remove(ci as int)[j]
                                        == self.cooldowns@[j + 1]);
                                }
                            }
                        }
                        self.cooldowns.remove(ci);
                    },
                    None => {
                        proof {
                            if cd_has(self.cooldowns@, e) {
                                let j = cd_index(self.cooldowns@, e);
                                assert(0 <= j < self.cooldowns@.len() && self.cooldowns@[j].0
                                    == e);
                            }
                            assert(cd_map(self.cooldowns@) =~= cd_map(self.cooldowns@).remove(e));
                        }
                    },
                }
                self.current_host = if idx + 1 == h {
                    0
                } else {
                    idx + 1
                };
                proof {
                    if idx + 1 == hh {
                        lemma_mod_self_0(hh);
                    } else {
                        lemma_small_mod((idx + 1) as nat, hh as nat);
                    }
                    assert(self.current_host as int == (idx as int + 1) % hh);
                    assert(self@ == spec_next(m0, now).0);
                }
                e
            },
            None => {
                let e = self.host_manager.hosts[self.current_host];
                proof {
                    assert(m0.hosts.contains(e)) by {
                        assert(m0.hosts[m0.cursor] == e);
                    }
                }
                self.current_host = if self.current_host + 1 == h {
                    0
                } else {
                    self.current_host + 1
                };
                proof {
                    if m0.cursor + 1 == hh {
                        lemma_mod_self_0(hh);
                    } else {
                        lemma_small_mod((m0.cursor + 1) as nat, hh as nat);
                    }
                    assert(self@ == spec_next(m0, now).0);
                }
                e
            },
        }
    }

    /// Removes any cooldown entry for `addr`; a no-op when absent.
    pub fn report_success(&mut self, addr: Endpoint)
        requires
            old(self).wf(),
        ensures
            final(self).wf(),
            final(self)@ == spec_report_success(old(self)@, addr),
    {
        match self.get_host_cooldown_index(addr) {
            None => {
                proof {
                    if cd_has(self.cooldowns@, addr) {
                        let j = cd_index(self.cooldowns@, addr);
                        assert(0 <= j < self.cooldowns@.len() && self.cooldowns@[j].0 == addr);
                    }
                    assert(cd_map(self.cooldowns@) =~= cd_map(self.cooldowns@).remove(addr));
                }
            },
            Some(i) => {
                proof {
                    lemma_cd_at(self.cooldowns@, i as int);
                    lemma_cd_remove(self.cooldowns@, i as int);
                }
                self.cooldowns.remove(i);
            },
        }
    }
}

} // verus!
