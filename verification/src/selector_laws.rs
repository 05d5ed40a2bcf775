//! Laws of the round-robin selector, proved over its model: fairness of the
//! rotation when the fleet is healthy, respect for unexpired cooldowns when
//! an alternative exists, lazy expiration, last-resort selection, and the
//! single-host degeneracy.

use vstd::prelude::*;
use vstd::arithmetic::div_mod::{
    lemma_add_mod_noop_right,
    lemma_fundamental_div_mod,
    lemma_mod_add_multiples_vanish,
    lemma_mod_bound,
    lemma_small_mod,
};
use vstd::arithmetic::div_mod::{lemma_basic_div, lemma_div_plus_one};

use crate::endpoint::Endpoint;
use crate::round_robin::{
    first_eligible_from,
    lemma_first_skip,
    slot_eligible,
    spec_next,
    SelectorModel,
};

verus! {

/// The states and results of a sequence of selections, one per entry of
/// `times` (the clock reading at each call).
pub open spec fn spec_run(m: SelectorModel, times: Seq<u64>) -> (SelectorModel, Seq<Endpoint>)
    decreases times.len(),
{
    if times.len() == 0 {
        (m, Seq::<Endpoint>::empty())
    } else {
        let first = spec_next(m, times[0]);
        let rest = spec_run(first.0, times.subrange(1, times.len() as int));
        (rest.0, seq![first.1] + rest.1)
    }
}

/// No endpoint appears twice in the host set.
pub open spec fn distinct_hosts(hosts: Seq<Endpoint>) -> bool {
    forall|i: int, j: int| 0 <= i < j < hosts.len() ==> hosts[i] != hosts[j]
}

/// How many entries of `s` equal `e`.
pub open spec fn count_eq(s: Seq<Endpoint>, e: Endpoint) -> int
    decreases s.len(),
{
    if s.len() == 0 {
        0
    } else {
        count_eq(s.drop_last(), e) + if s.last() == e {
            1int
        } else {
            0int
        }
    }
}

/// The cyclic walk of the host set: `k` hosts taken from slot `c` onward.
pub open spec fn rotation(hosts: Seq<Endpoint>, c: int, k: int) -> Seq<Endpoint> {
    Seq::new(k as nat, |i: int| hosts[(c + i) % (hosts.len() as int)])
}

/// A search that starts at an eligible offset cannot land past it.
proof fn lemma_first_le(m: SelectorModel, now: u64, i: int, k: int)
    requires
        0 <= i <= k < m.hosts.len(),
        slot_eligible(m, now, k),
    ensures
        first_eligible_from(m, now, i) <= k,
    decreases k - i,
{
    if i < k && !slot_eligible(m, now, i) {
        lemma_first_le(m, now, i + 1, k);
    }
}

/// When the search finds an offset, that offset is eligible.
proof fn lemma_first_found(m: SelectorModel, now: u64, i: int)
    requires
        0 <= i,
        first_eligible_from(m, now, i) < m.hosts.len(),
    ensures
        slot_eligible(m, now, first_eligible_from(m, now, i)),
        i <= first_eligible_from(m, now, i),
    decreases m.hosts.len() - i,
{
    if i < m.hosts.len() && !slot_eligible(m, now, i) {
        lemma_first_found(m, now, i + 1);
    }
}

/// One selection preserves well-formedness, keeps the host set, and returns
/// a member of it.
pub proof fn lemma_next_wf(m: SelectorModel, now: u64)
    requires
        m.wf(),
    ensures
        spec_next(m, now).0.wf(),
        spec_next(m, now).0.hosts == m.hosts,
        m.hosts.contains(spec_next(m, now).1),
        spec_next(m, now).0.cooldowns.dom().subset_of(m.cooldowns.dom()),
    decreases 0int,
{
    let h = m.hosts.len() as int;
    let off = first_eligible_from(m, now, 0);
    if off < h {
        let idx = (m.cursor + off) % h;
        lemma_mod_bound(m.cursor + off, h);
        assert(m.hosts.contains(m.hosts[idx])) by {
            assert(0 <= idx < h);
        }
        lemma_mod_bound(idx + 1, h);
    } else {
        assert(m.hosts.contains(m.hosts[m.cursor]));
        lemma_mod_bound(m.cursor + 1, h);
    }
}

/// When some host is eligible, the selected host is eligible: a host on an
/// unexpired cooldown is never returned while an alternative exists.
pub proof fn lemma_next_eligible(m: SelectorModel, now: u64)
    requires
        m.wf(),
        exists|a: Endpoint| #[trigger]
            m.hosts.contains(a) && m.eligible(a, now),
    ensures
        m.eligible(spec_next(m, now).1, now),
{
    let h = m.hosts.len() as int;
    let a = choose|a: Endpoint| #[trigger] m.hosts.contains(a) && m.eligible(a, now);
    let j = choose|j: int| 0 <= j < h && m.hosts[j] == a;
    assert(0 <= j < h && m.hosts[j] == a);
    let d = (j - m.cursor) % h;
    lemma_mod_bound(j - m.cursor, h);
    assert((m.cursor + d) % h == j) by {
        lemma_add_mod_noop_right(m.cursor, j - m.cursor, h);
        lemma_small_mod(j as nat, h as nat);
    }
    assert(slot_eligible(m, now, d));
    lemma_first_le(m, now, 0, d);
    let off = first_eligible_from(m, now, 0);
    lemma_first_found(m, now, 0);
    assert(m.eligible(m.hosts[(m.cursor + off) % h], now));
}

/// With nothing on cooldown, one selection returns the host at the cursor,
/// advances the cursor one step, and leaves nothing on cooldown.
pub proof fn lemma_next_healthy(m: SelectorModel, now: u64)
    requires
        m.wf(),
        m.cooldowns.dom() == Set::<Endpoint>::empty(),
    ensures
        spec_next(m, now).1 == m.hosts[m.cursor],
        spec_next(m, now).0.hosts == m.hosts,
        spec_next(m, now).0.cursor == (m.cursor + 1) % (m.hosts.len() as int),
        spec_next(m, now).0.cooldowns.dom() == Set::<Endpoint>::empty(),
        spec_next(m, now).0.wf(),
{
    let h = m.hosts.len() as int;
    assert(!m.cooldowns.dom().contains(m.hosts[(m.cursor + 0) % h]));
    assert(slot_eligible(m, now, 0));
    assert(first_eligible_from(m, now, 0) == 0);
    lemma_small_mod(m.cursor as nat, h as nat);
    let e = m.hosts[m.cursor];
    assert(m.cooldowns.remove(e).dom() =~= Set::<Endpoint>::empty());
    lemma_next_wf(m, now);
}

/// A run's results are one host per call.
pub proof fn lemma_run_wf(m: SelectorModel, times: Seq<u64>)
    requires
        m.wf(),
    ensures
        spec_run(m, times).0.wf(),
        spec_run(m, times).0.hosts == m.hosts,
        spec_run(m, times).1.len() == times.len(),
        forall|i: int|
            0 <= i < times.len() ==> m.hosts.contains(#[trigger] spec_run(m, times).1[i]),
    decreases times.len(),
{
    if times.len() > 0 {
        lemma_next_wf(m, times[0]);
        lemma_run_wf(spec_next(m, times[0]).0, times.subrange(1, times.len() as int));
    }
}

/// Counting distributes over concatenation.
proof fn lemma_count_append(s1: Seq<Endpoint>, s2: Seq<Endpoint>, e: Endpoint)
    ensures
        count_eq(s1 + s2, e) == count_eq(s1, e) + count_eq(s2, e),
    decreases s2.len(),
{
    if s2.len() == 0 {
        assert(s1 + s2 =~= s1);
    } else {
        assert((s1 + s2).drop_last() =~= s1 + s2.drop_last());
        assert((s1 + s2).last() == s2.last());
        lemma_count_append(s1, s2.drop_last(), e);
    }
}

/// A sequence without `e` counts zero.
proof fn lemma_count_zero(s: Seq<Endpoint>, e: Endpoint)
    requires
        forall|i: int| 0 <= i < s.len() ==> s[i] != e,
    ensures
        count_eq(s, e) == 0,
    decreases s.len(),
{
    if s.len() > 0 {
        lemma_count_zero(s.drop_last(), e);
    }
}

/// A sequence holding `e` at exactly one position counts one.
proof fn lemma_count_unique(s: Seq<Endpoint>, e: Endpoint, i0: int)
    requires
        0 <= i0 < s.len(),
        s[i0] == e,
        forall|j: int| 0 <= j < s.len() && j != i0 ==> s[j] != e,
    ensures
        count_eq(s, e) == 1,
    decreases s.len(),
{
    if i0 == s.len() - 1 {
        lemma_count_zero(s.drop_last(), e);
    } else {
        lemma_count_unique(s.drop_last(), e, i0);
    }
}

/// Two positions less than a cycle apart occupy different slots.
proof fn lemma_mod_injective(h: int, x: int, y: int)
    requires
        0 < h,
        x < y,
        y - x < h,
    ensures
        x % h != y % h,
{
    lemma_fundamental_div_mod(x, h);
    lemma_fundamental_div_mod(y, h);
    if x % h == y % h {
        let d = y / h - x / h;
        assert(y - x == h * d) by (nonlinear_arith)
            requires
                x == h * (x / h) + x % h,
                y == h * (y / h) + y % h,
                x % h == y % h,
                d == y / h - x / h,
        ;
        assert(d >= 1 ==> h * d >= h) by (nonlinear_arith)
            requires
                h > 0,
        ;
        assert(d <= 0 ==> h * d <= 0) by (nonlinear_arith)
            requires
                h > 0,
        ;
        assert(false);
    }
}

/// Within one cycle, the walk visits pairwise different hosts.
proof fn lemma_rotation_distinct(hosts: Seq<Endpoint>, c: int, k: int)
    requires
        distinct_hosts(hosts),
        hosts.len() > 0,
        0 <= k <= hosts.len(),
    ensures
        forall|p: int, q: int|
            0 <= p < q < k ==> rotation(hosts, c, k)[p] != rotation(hosts, c, k)[q],
{
    let h = hosts.len() as int;
    assert forall|p: int, q: int| 0 <= p < q < k implies rotation(hosts, c, k)[p] != rotation(
        hosts,
        c,
        k,
    )[q] by {
        lemma_mod_injective(h, c + p, c + q);
        lemma_mod_bound(c + p, h);
        lemma_mod_bound(c + q, h);
        let ip = (c + p) % h;
        let iq = (c + q) % h;
        if ip < iq {
            assert(hosts[ip] != hosts[iq]);
        } else {
            assert(hosts[iq] != hosts[ip]);
        }
    }
}

/// One full cycle of the walk visits each host exactly once.
proof fn lemma_rotation_window(hosts: Seq<Endpoint>, c: int, e: Endpoint)
    requires
        distinct_hosts(hosts),
        hosts.len() > 0,
        0 <= c < hosts.len(),
        hosts.contains(e),
    ensures
        count_eq(rotation(hosts, c, hosts.len() as int), e) == 1,
{
    let h = hosts.len() as int;
    let w = rotation(hosts, c, h);
    let j = choose|j: int| 0 <= j < h && hosts[j] == e;
    assert(0 <= j < h && hosts[j] == e);
    let d = (j - c) % h;
    lemma_mod_bound(j - c, h);
    assert((c + d) % h == j) by {
        lemma_add_mod_noop_right(c, j - c, h);
        lemma_small_mod(j as nat, h as nat);
    }
    assert(w[d] == e);
    lemma_rotation_distinct(hosts, c, h);
    assert forall|p: int| 0 <= p < h && p != d implies w[p] != e by {
        if p < d {
            assert(w[p] != w[d]);
        } else {
            assert(w[d] != w[p]);
        }
    }
    lemma_count_unique(w, e, d);
}

/// Across `k` steps of the walk, each host is seen ⌊k/H⌋ or ⌈k/H⌉ times.
proof fn lemma_rotation_count(hosts: Seq<Endpoint>, c: int, k: int, e: Endpoint)
    requires
        distinct_hosts(hosts),
        hosts.len() > 0,
        0 <= c < hosts.len(),
        hosts.contains(e),
        0 <= k,
    ensures
        ({
            let h = hosts.len() as int;
            let cnt = count_eq(rotation(hosts, c, k), e);
            &&& k / h <= cnt <= k / h + 1
            &&& k % h == 0 ==> cnt == k / h
        }),
    decreases k,
{
    let h = hosts.len() as int;
    let cnt = count_eq(rotation(hosts, c, k), e);
    if k < h {
        lemma_basic_div(k, h);
        lemma_small_mod(k as nat, h as nat);
        lemma_rotation_distinct(hosts, c, k);
        let w = rotation(hosts, c, k);
        if exists|p: int| 0 <= p < k && w[p] == e {
            let p0 = choose|p: int| 0 <= p < k && w[p] == e;
            assert forall|q: int| 0 <= q < k && q != p0 implies w[q] != e by {
                if q < p0 {
                    assert(w[q] != w[p0]);
                } else {
                    assert(w[p0] != w[q]);
                }
            }
            lemma_count_unique(w, e, p0);
        } else {
            lemma_count_zero(w, e);
        }
        assert(k % h == 0 ==> k == 0);
        if k == 0 {
            assert(cnt == 0);
        }
    } else {
        let w = rotation(hosts, c, h);
        let rest = rotation(hosts, c, k - h);
        assert(rotation(hosts, c, k) =~= w + rest) by {
            assert forall|i: int| 0 <= i < k implies rotation(hosts, c, k)[i] == (w + rest)[i] by {
                if i >= h {
                    assert((c + i) % h == (c + (i - h)) % h) by {
                        lemma_mod_add_multiples_vanish(c + i - h, h);
                    }
                }
            }
        }
        lemma_count_append(w, rest, e);
        lemma_rotation_window(hosts, c, e);
        lemma_rotation_count(hosts, c, k - h, e);
        lemma_div_plus_one(k - h, h);
        lemma_mod_add_multiples_vanish(k - h, h);
    }
}

/// With nothing on cooldown, a run of `k` selections walks the host set
/// cyclically from the cursor.
pub proof fn lemma_run_healthy(m: SelectorModel, times: Seq<u64>)
    requires
        m.wf(),
        m.cooldowns.dom() == Set::<Endpoint>::empty(),
    ensures
        spec_run(m, times).1 == rotation(m.hosts, m.cursor, times.len() as int),
        spec_run(m, times).0.wf(),
        spec_run(m, times).0.cooldowns.dom() == Set::<Endpoint>::empty(),
    decreases times.len(),
{
    let h = m.hosts.len() as int;
    if times.len() == 0 {
        assert(spec_run(m, times).1 =~= rotation(m.hosts, m.cursor, 0));
    } else {
        lemma_next_healthy(m, times[0]);
        let m1 = spec_next(m, times[0]).0;
        let rest = times.subrange(1, times.len() as int);
        lemma_run_healthy(m1, rest);
        lemma_mod_bound(m.cursor + 1, h);
        assert(spec_run(m, times).1 =~= rotation(m.hosts, m.cursor, times.len() as int)) by {
            let full = spec_run(m, times).1;
            assert(full == seq![spec_next(m, times[0]).1] + spec_run(m1, rest).1);
            assert(spec_run(m1, rest).1 == rotation(m.hosts, m1.cursor, rest.len() as int));
            assert forall|i: int| 0 <= i < times.len() implies full[i] == rotation(
                m.hosts,
                m.cursor,
                times.len() as int,
            )[i] by {
                lemma_small_mod(m.cursor as nat, h as nat);
                if i > 0 {
                    assert(full[i] == rotation(m.hosts, m1.cursor, rest.len() as int)[i - 1]);
                    assert((m1.cursor + (i - 1)) % h == (m.cursor + i) % h) by {
                        lemma_add_mod_noop_right(i - 1, m.cursor + 1, h);
                    }
                }
            }
        }
    }
}

/// Round-robin fairness under no errors: for any host set of size H and
/// any K selections with nothing on cooldown, each host is returned either
/// ⌊K/H⌋ or ⌈K/H⌉ times.
pub proof fn lemma_round_robin_fairness(m: SelectorModel, times: Seq<u64>, e: Endpoint)
    requires
        m.wf(),
        distinct_hosts(m.hosts),
        m.cooldowns.dom() == Set::<Endpoint>::empty(),
        m.hosts.contains(e),
    ensures
        ({
            let k = times.len() as int;
            let h = m.hosts.len() as int;
            let cnt = count_eq(spec_run(m, times).1, e);
            &&& k / h <= cnt <= k / h + 1
            &&& k % h == 0 ==> cnt == k / h
        }),
{
    lemma_run_healthy(m, times);
    lemma_rotation_count(m.hosts, m.cursor, times.len() as int, e);
}

/// While `b`'s cooldown is unexpired and the host set offers an
/// alternative, no selection of the run returns `b`.
pub proof fn lemma_cooldown_honored(m: SelectorModel, times: Seq<u64>, b: Endpoint)
    requires
        m.wf(),
        m.cooldowns.dom() == Set::<Endpoint>::empty().insert(b),
        exists|a: Endpoint| #[trigger] m.hosts.contains(a) && a != b,
        forall|i: int| 0 <= i < times.len() ==> times[i] < m.cooldowns[b],
    ensures
        forall|i: int|
            0 <= i < spec_run(m, times).1.len() ==> #[trigger] spec_run(m, times).1[i] != b,
    decreases times.len(),
{
    if times.len() > 0 {
        let now = times[0];
        let a = choose|a: Endpoint| #[trigger] m.hosts.contains(a) && a != b;
        assert(m.eligible(a, now));
        lemma_next_eligible(m, now);
        let r = spec_next(m, now).1;
        assert(r != b);
        let m1 = spec_next(m, now).0;
        lemma_next_wf(m, now);
        assert(m1.cooldowns.dom() =~= Set::<Endpoint>::empty().insert(b));
        assert(m1.cooldowns[b] == m.cooldowns[b]);
        lemma_cooldown_honored(m1, times.subrange(1, times.len() as int), b);
        assert forall|i: int| 0 <= i < spec_run(m, times).1.len() implies #[trigger] spec_run(
            m,
            times,
        ).1[i] != b by {
            if i > 0 {
                assert(spec_run(m, times).1[i] == spec_run(
                    m1,
                    times.subrange(1, times.len() as int),
                ).1[i - 1]);
            }
        }
    }
}

/// Lazy expiration: once `b`'s cooldown has expired, the first selection
/// whose scan reaches `b` — it stands `d` slots past the cursor and every
/// earlier slot is still excluded — returns `b` and removes the entry.
/// (With `b` at the cursor, `d` is 0 and any selection past expiration
/// restores it.)
pub proof fn lemma_cooldown_expires(m: SelectorModel, now: u64, b: Endpoint, d: int)
    requires
        m.wf(),
        0 <= d < m.hosts.len(),
        m.hosts[(m.cursor + d) % (m.hosts.len() as int)] == b,
        m.cooldowns.dom().contains(b),
        now >= m.cooldowns[b],
        forall|k: int| 0 <= k < d ==> !#[trigger] slot_eligible(m, now, k),
    ensures
        spec_next(m, now).1 == b,
        !spec_next(m, now).0.cooldowns.dom().contains(b),
{
    assert(slot_eligible(m, now, d));
    assert(first_eligible_from(m, now, d) == d);
    lemma_first_skip(m, now, d);
}

/// With every host on an unexpired cooldown, selection still returns some
/// host — the one at the cursor — rather than failing.
pub proof fn lemma_last_resort(m: SelectorModel, now: u64)
    requires
        m.wf(),
        forall|a: Endpoint| #[trigger]
            m.hosts.contains(a) ==> m.cooldowns.dom().contains(a) && now < m.cooldowns[a],
    ensures
        spec_next(m, now).1 == m.hosts[m.cursor],
        m.hosts.contains(spec_next(m, now).1),
{
    let h = m.hosts.len() as int;
    assert forall|k: int| 0 <= k < h implies !#[trigger] slot_eligible(m, now, k) by {
        lemma_mod_bound(m.cursor + k, h);
        let e = m.hosts[(m.cursor + k) % h];
        assert(m.hosts.contains(e)) by {
            assert(0 <= (m.cursor + k) % h < h);
        }
    }
    assert forall|i: int| 0 <= i <= h implies first_eligible_from(m, now, i) == h by {
        lemma_first_all_blocked(m, now, i);
    }
    assert(m.hosts.contains(m.hosts[m.cursor]));
}

/// A search over ineligible slots runs to the end of the cycle.
proof fn lemma_first_all_blocked(m: SelectorModel, now: u64, i: int)
    requires
        0 <= i <= m.hosts.len(),
        forall|k: int| 0 <= k < m.hosts.len() ==> !#[trigger] slot_eligible(m, now, k),
    ensures
        first_eligible_from(m, now, i) == m.hosts.len(),
    decreases m.hosts.len() - i,
{
    if i < m.hosts.len() {
        lemma_first_all_blocked(m, now, i + 1);
    }
}

/// With a single host in the set, every selection of a run returns that
/// host, cooldown or not.
pub proof fn lemma_single_host(m: SelectorModel, times: Seq<u64>)
    requires
        m.wf(),
        m.hosts.len() == 1,
    ensures
        forall|i: int|
            0 <= i < spec_run(m, times).1.len() ==> #[trigger] spec_run(m, times).1[i]
                == m.hosts[0],
    decreases times.len(),
{
    if times.len() > 0 {
        let now = times[0];
        lemma_next_wf(m, now);
        let r = spec_next(m, now).1;
        assert(m.hosts[0] == r);
        let m1 = spec_next(m, now).0;
        lemma_single_host(m1, times.subrange(1, times.len() as int));
        assert forall|i: int| 0 <= i < spec_run(m, times).1.len() implies #[trigger] spec_run(
            m,
            times,
        ).1[i] == m.hosts[0] by {
            if i > 0 {
                assert(spec_run(m, times).1[i] == spec_run(
                    m1,
                    times.subrange(1, times.len() as int),
                ).1[i - 1]);
            }
        }
    }
}

} // verus!
