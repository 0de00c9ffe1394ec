//! Periodic sweep over the registry: reaps peers that have sent nothing
//! for too long, points out the slow ones, trims the stale last-packet
//! cache and resets the daily byte counters.

use vstd::prelude::*;
use crate::conn::INACTIVITY_TIMEOUT_SECS;
use crate::registry::{seq_contains_ip, views_distinct, Registry};

verus! {

/// Cadence of the periodic duties, counted in watchdog ticks.
pub const SLOW_WARN_TICKS: u64 = 15;

pub const STATS_TICKS: u64 = 30;

pub const CACHE_TRIM_TICKS: u64 = 150;

pub const BYTES_RESET_TICKS: u64 = 43200;

/// Age in seconds after which a cached last packet is dropped.
pub const CACHE_TTL_SECS: u64 = 300;

/// A peer is dead at `now`: live, no removal in progress, and silent
/// for longer than the inactivity limit.
pub open spec fn is_dead(r: Registry, k: Seq<char>, now: u64) -> bool {
    &&& r.connection_health@.contains_key(k)
    &&& !r.connection_health@[k].removal_in_progress
    &&& now - r.connection_health@[k].last_data_received > INACTIVITY_TIMEOUT_SECS
}

/// A peer is slow at `now`: live, no removal in progress, and silent
/// for more than half the inactivity limit but not past it.
pub open spec fn is_slow(r: Registry, k: Seq<char>, now: u64) -> bool {
    &&& r.connection_health@.contains_key(k)
    &&& !r.connection_health@[k].removal_in_progress
    &&& now - r.connection_health@[k].last_data_received > INACTIVITY_TIMEOUT_SECS / 2
    &&& now - r.connection_health@[k].last_data_received <= INACTIVITY_TIMEOUT_SECS
}

/// A cached last packet is stale at `now`: present and older than the
/// cache time-to-live.
pub open spec fn is_stale(r: Registry, k: Seq<char>, now: u64) -> bool {
    &&& r.latest_data@.contains_key(k)
    &&& !(now - r.latest_data@[k].timestamp < CACHE_TTL_SECS)
}

/// What one tick did: the reaped peers, the peers warned about, and
/// whether the cache was trimmed or the byte counters reset.
#[derive(Debug)]
pub struct WatchdogReport {
    pub dead: Vec<String>,
    pub slow: Vec<String>,
    pub trimmed_cache: bool,
    pub reset_bytes: bool,
}

/// One watchdog tick. The reaped peers are exactly those dead at `now`
/// in the incoming state; each loses its health record, handle and
/// connected entry, and nothing else. On the scheduled ticks the stale
/// cache entries are dropped and the byte counters cleared.
pub fn watchdog_tick(reg: &mut Registry, now: u64, iteration: u64) -> (report: WatchdogReport)
    requires
        old(reg).wf(),
    ensures
        final(reg).wf(),
        Registry::ids_preserved(*old(reg), *final(reg)),
        views_distinct(report.dead@),
        forall|k: Seq<char>| seq_contains_ip(report.dead@, k) <==> is_dead(*old(reg), k, now),
        forall|k: Seq<char>|
            final(reg).connection_health@.contains_key(k) <==> (old(
                reg,
            ).connection_health@.contains_key(k) && !is_dead(*old(reg), k, now)),
        forall|k: Seq<char>| #[trigger]
            final(reg).connection_health@.contains_key(k) ==> final(reg).connection_health@[k]
                == old(reg).connection_health@[k],
        forall|k: Seq<char>|
            final(reg).connection_handles@.contains(k) <==> (old(
                reg,
            ).connection_handles@.contains(k) && !is_dead(*old(reg), k, now)),
        forall|k: Seq<char>|
            seq_contains_ip(final(reg).connected_clients@, k) <==> (seq_contains_ip(
                old(reg).connected_clients@,
                k,
            ) && !is_dead(*old(reg), k, now)),
        iteration % SLOW_WARN_TICKS == 0 ==> forall|k: Seq<char>|
            seq_contains_ip(report.slow@, k) <==> is_slow(*old(reg), k, now),
        iteration % SLOW_WARN_TICKS != 0 ==> report.slow@.len() == 0,
        report.trimmed_cache == (iteration % CACHE_TRIM_TICKS == 0),
        iteration % CACHE_TRIM_TICKS == 0 ==> forall|k: Seq<char>|
            final(reg).latest_data@.contains_key(k) <==> (#[trigger] old(
                reg,
            ).latest_data@.contains_key(k) && now - old(reg).latest_data@[k].timestamp
                < CACHE_TTL_SECS),
        iteration % CACHE_TRIM_TICKS != 0 ==> final(reg).latest_data@ == old(reg).latest_data@,
        forall|k: Seq<char>| #[trigger]
            final(reg).latest_data@.contains_key(k) ==> final(reg).latest_data@[k] == old(
                reg,
            ).latest_data@[k],
        report.reset_bytes == (iteration % BYTES_RESET_TICKS == 0),
        iteration % BYTES_RESET_TICKS == 0 ==> final(reg).bytes_received@ =~= Map::<
            Seq<char>,
            u64,
        >::empty(),
        iteration % BYTES_RESET_TICKS != 0 ==> final(reg).bytes_received@ == old(
            reg,
        ).bytes_received@,
        final(reg).unique_plcs@ == old(reg).unique_plcs@,
        final(reg).blacklisted_ips@ == old(reg).blacklisted_ips@,
        final(reg).ip_to_id@ == old(reg).ip_to_id@,
        final(reg).last_data_time == old(reg).last_data_time,
        final(reg).total_connection_count == old(reg).total_connection_count,
        final(reg).next_id == old(reg).next_id,
        final(reg).is_running == old(reg).is_running,
{
    // Collect the dead peers by scanning the connected list, which by
    // well-formedness indexes exactly the health table.
    let mut dead: Vec<String> = Vec::new();
    let mut i: usize = 0;
    while i < reg.connected_clients.len()
        invariant
            reg.wf(),
            *reg == *old(reg),
            i <= reg.connected_clients@.len(),
            forall|j: int|
                #![trigger dead@[j]]
                0 <= j < dead@.len() ==> is_dead(*reg, dead@[j]@, now) && exists|u: int|
                    0 <= u < i && dead@[j]@ == reg.connected_clients@[u]@,
            forall|a: int, b: int| 0 <= a < b < dead@.len() ==> dead@[a]@ != dead@[b]@,
            forall|u: int|
                0 <= u < i && is_dead(*reg, #[trigger] reg.connected_clients@[u]@, now)
                    ==> seq_contains_ip(dead@, reg.connected_clients@[u]@),
        decreases reg.connected_clients@.len() - i,
    {
        let ip = &reg.connected_clients[i];
        let ghost old_dead = dead@;
        match reg.connection_health.get(ip.as_str()) {
            Some(h) => {
                if !h.removal_in_progress && now.saturating_sub(h.last_data_received)
                    > INACTIVITY_TIMEOUT_SECS {
                    dead.push(ip.clone());
                    proof {
                        let n = dead@.len() - 1;
                        assert(dead@[n]@ == reg.connected_clients@[i as int]@);
                        assert forall|a: int, b: int| 0 <= a < b < dead@.len() implies dead@[a]@
                            != dead@[b]@ by {
                            if b == n {
                                assert(old_dead[a] == dead@[a]);
                                let u = choose|u: int|
                                    0 <= u < i && old_dead[a]@ == reg.connected_clients@[u]@;
                                assert(reg.connected_clients@[u]@
                                    != reg.connected_clients@[i as int]@);
                            } else {
                                assert(old_dead[a] == dead@[a] && old_dead[b] == dead@[b]);
                            }
                        }
                    }
                }
            },
            None => {
                proof {
                    assert(seq_contains_ip(reg.connected_clients@, ip@));
                    assert(false);
                }
            },
        }
        proof {
            assert forall|u: int|
                0 <= u < i + 1 && is_dead(*reg, #[trigger] reg.connected_clients@[u]@, now)
                    implies seq_contains_ip(dead@, reg.connected_clients@[u]@) by {
                if u < i {
                    let j = choose|j: int|
                        0 <= j < old_dead.len() && old_dead[j]@ == reg.connected_clients@[u]@;
                    assert(dead@[j]@ == reg.connected_clients@[u]@);
                } else {
                    assert(dead@[dead@.len() - 1]@ == reg.connected_clients@[i as int]@);
                }
            }
        }
        i = i + 1;
    }
    proof {
        assert forall|k: Seq<char>|
            seq_contains_ip(dead@, k) <==> is_dead(*old(reg), k, now) by {
            if is_dead(*old(reg), k, now) {
                assert(seq_contains_ip(reg.connected_clients@, k));
                let u = choose|u: int|
                    0 <= u < reg.connected_clients@.len() && reg.connected_clients@[u]@ == k;
                assert(is_dead(*reg, reg.connected_clients@[u]@, now));
            }
            if seq_contains_ip(dead@, k) {
                let j = choose|j: int| 0 <= j < dead@.len() && dead@[j]@ == k;
                assert(is_dead(*reg, dead@[j]@, now));
            }
        }
    }
    // Warn about slow peers on the scheduled tick, from the same
    // pre-removal state; slow and dead never overlap.
    let mut slow: Vec<String> = Vec::new();
    if iteration % SLOW_WARN_TICKS == 0 {
        let mut i2: usize = 0;
        while i2 < reg.connected_clients.len()
            invariant
                reg.wf(),
                *reg == *old(reg),
                i2 <= reg.connected_clients@.len(),
                forall|j: int|
                    #![trigger slow@[j]]
                    0 <= j < slow@.len() ==> is_slow(*reg, slow@[j]@, now),
                forall|u: int|
                    0 <= u < i2 && is_slow(*reg, #[trigger] reg.connected_clients@[u]@, now)
                        ==> seq_contains_ip(slow@, reg.connected_clients@[u]@),
            decreases reg.connected_clients@.len() - i2,
        {
            let ip = &reg.connected_clients[i2];
            let ghost old_slow = slow@;
            match reg.connection_health.get(ip.as_str()) {
                Some(h) => {
                    let age = now.saturating_sub(h.last_data_received);
                    if !h.removal_in_progress && age > INACTIVITY_TIMEOUT_SECS / 2 && age
                        <= INACTIVITY_TIMEOUT_SECS {
                        slow.push(ip.clone());
                    }
                },
                None => {
                    proof {
                        assert(seq_contains_ip(reg.connected_clients@, ip@));
                        assert(false);
                    }
                },
            }
            proof {
                assert forall|u: int|
                    0 <= u < i2 + 1 && is_slow(*reg, #[trigger] reg.connected_clients@[u]@, now)
                        implies seq_contains_ip(slow@, reg.connected_clients@[u]@) by {
                    if u < i2 {
                        let j = choose|j: int|
                            0 <= j < old_slow.len() && old_slow[j]@ == reg.connected_clients@[u]@;
                        assert(slow@[j]@ == reg.connected_clients@[u]@);
                    } else {
                        assert(slow@[slow@.len() - 1]@ == reg.connected_clients@[i2 as int]@);
                    }
                }
            }
            i2 = i2 + 1;
        }
        proof {
            assert forall|k: Seq<char>|
                seq_contains_ip(slow@, k) <==> is_slow(*old(reg), k, now) by {
                if is_slow(*old(reg), k, now) {
                    assert(seq_contains_ip(reg.connected_clients@, k));
                    let u = choose|u: int|
                        0 <= u < reg.connected_clients@.len() && reg.connected_clients@[u]@ == k;
                    assert(is_slow(*reg, reg.connected_clients@[u]@, now));
                }
                if seq_contains_ip(slow@, k) {
                    let j = choose|j: int| 0 <= j < slow@.len() && slow@[j]@ == k;
                    assert(is_slow(*reg, slow@[j]@, now));
                }
            }
        }
    }
    // Reap: remove each dead peer, gated as the removal policy demands.
    let ghost pre = *reg;
    let mut j: usize = 0;
    while j < dead.len()
        invariant
            reg.wf(),
            pre == *old(reg),
            j <= dead@.len(),
            views_distinct(dead@),
            forall|k: Seq<char>| seq_contains_ip(dead@, k) <==> is_dead(pre, k, now),
            forall|q: int| #![trigger dead@[q]] 0 <= q < dead@.len() ==> is_dead(pre, dead@[q]@, now),
            forall|k: Seq<char>|
                reg.connection_health@.contains_key(k) <==> (pre.connection_health@.contains_key(
                    k,
                ) && !(exists|q: int| 0 <= q < j && #[trigger] dead@[q]@ == k)),
            forall|k: Seq<char>| #[trigger]
                reg.connection_health@.contains_key(k) ==> reg.connection_health@[k]
                    == pre.connection_health@[k],
            forall|k: Seq<char>|
                reg.connection_handles@.contains(k) <==> (pre.connection_handles@.contains(k) && !(
                exists|q: int| 0 <= q < j && #[trigger] dead@[q]@ == k)),
            forall|k: Seq<char>|
                seq_contains_ip(reg.connected_clients@, k) <==> (seq_contains_ip(
                    pre.connected_clients@,
                    k,
                ) && !(exists|q: int| 0 <= q < j && #[trigger] dead@[q]@ == k)),
            reg.unique_plcs@ == pre.unique_plcs@,
            reg.blacklisted_ips@ == pre.blacklisted_ips@,
            reg.ip_to_id@ == pre.ip_to_id@,
            reg.bytes_received@ == pre.bytes_received@,
            reg.latest_data@ == pre.latest_data@,
            reg.last_data_time == pre.last_data_time,
            reg.total_connection_count == pre.total_connection_count,
            reg.next_id == pre.next_id,
            reg.is_running == pre.is_running,
        decreases dead@.len() - j,
    {
        let ip = &dead[j];
        proof {
            assert(is_dead(pre, ip@, now));
            assert(reg.connection_health@.contains_key(ip@));
            assert(reg.connection_health@[ip@] == pre.connection_health@[ip@]);
        }
        let won = reg.finish_connection(ip);
        proof {
            assert(won);
            assert forall|k: Seq<char>|
                reg.connection_health@.contains_key(k) <==> (pre.connection_health@.contains_key(
                    k,
                ) && !(exists|q: int| 0 <= q < j + 1 && #[trigger] dead@[q]@ == k)) by {
                if pre.connection_health@.contains_key(k) {
                    if exists|q: int| 0 <= q < j + 1 && #[trigger] dead@[q]@ == k {
                        let q = choose|q: int| 0 <= q < j + 1 && #[trigger] dead@[q]@ == k;
                        if q < j {
                            assert(!reg.connection_health@.contains_key(k));
                        }
                    }
                }
            }
        }
        j = j + 1;
    }
    // Trim the last-packet cache on the scheduled tick: collect the
    // stale keys, then drop them.
    let trimmed_cache = iteration % CACHE_TRIM_TICKS == 0;
    if trimmed_cache {
        let ghost pre_trim = *reg;
        let mut stale: Vec<String> = Vec::new();
        let mut t: usize = 0;
        while t < reg.unique_plcs.len()
            invariant
                reg.wf(),
                *reg == pre_trim,
                t <= reg.unique_plcs@.len(),
                forall|j2: int|
                    #![trigger stale@[j2]]
                    0 <= j2 < stale@.len() ==> is_stale(*reg, stale@[j2]@, now) && exists|u: int|
                        0 <= u < t && stale@[j2]@ == reg.unique_plcs@[u]@,
                forall|a: int, b: int| 0 <= a < b < stale@.len() ==> stale@[a]@ != stale@[b]@,
                forall|u: int|
                    0 <= u < t && is_stale(*reg, #[trigger] reg.unique_plcs@[u]@, now)
                        ==> seq_contains_ip(stale@, reg.unique_plcs@[u]@),
            decreases reg.unique_plcs@.len() - t,
        {
            let ip = &reg.unique_plcs[t];
            let ghost old_stale = stale@;
            match reg.latest_data.get(ip.as_str()) {
                Some(p) => {
                    if now.saturating_sub(p.timestamp) >= CACHE_TTL_SECS {
                        stale.push(ip.clone());
                        proof {
                            let n = stale@.len() - 1;
                            assert(stale@[n]@ == reg.unique_plcs@[t as int]@);
                            assert forall|a: int, b: int|
                                0 <= a < b < stale@.len() implies stale@[a]@ != stale@[b]@ by {
                                if b == n {
                                    assert(old_stale[a] == stale@[a]);
                                    let u = choose|u: int|
                                        0 <= u < t && old_stale[a]@ == reg.unique_plcs@[u]@;
                                    assert(reg.unique_plcs@[u]@ != reg.unique_plcs@[t as int]@);
                                } else {
                                    assert(old_stale[a] == stale@[a] && old_stale[b] == stale@[b]);
                                }
                            }
                        }
                    }
                },
                None => {},
            }
            proof {
                assert forall|u: int|
                    0 <= u < t + 1 && is_stale(*reg, #[trigger] reg.unique_plcs@[u]@, now)
                        implies seq_contains_ip(stale@, reg.unique_plcs@[u]@) by {
                    if u < t {
                        let j2 = choose|j2: int|
                            0 <= j2 < old_stale.len() && old_stale[j2]@ == reg.unique_plcs@[u]@;
                        assert(stale@[j2]@ == reg.unique_plcs@[u]@);
                    } else {
                        assert(stale@[stale@.len() - 1]@ == reg.unique_plcs@[t as int]@);
                    }
                }
            }
            t = t + 1;
        }
        proof {
            assert forall|k: Seq<char>|
                seq_contains_ip(stale@, k) <==> is_stale(pre_trim, k, now) by {
                if is_stale(pre_trim, k, now) {
                    assert(seq_contains_ip(reg.unique_plcs@, k));
                    let u = choose|u: int|
                        0 <= u < reg.unique_plcs@.len() && reg.unique_plcs@[u]@ == k;
                    assert(is_stale(*reg, reg.unique_plcs@[u]@, now));
                }
                if seq_contains_ip(stale@, k) {
                    let j2 = choose|j2: int| 0 <= j2 < stale@.len() && stale@[j2]@ == k;
                    assert(is_stale(*reg, stale@[j2]@, now));
                }
            }
        }
        let mut w: usize = 0;
        while w < stale.len()
            invariant
                reg.wf(),
                w <= stale@.len(),
                views_distinct(stale@),
                forall|k: Seq<char>| seq_contains_ip(stale@, k) <==> is_stale(pre_trim, k, now),
                forall|q: int|
                    #![trigger stale@[q]]
                    0 <= q < stale@.len() ==> is_stale(pre_trim, stale@[q]@, now),
                forall|k: Seq<char>|
                    reg.latest_data@.contains_key(k) <==> (pre_trim.latest_data@.contains_key(k)
                        && !(exists|q: int| 0 <= q < w && #[trigger] stale@[q]@ == k)),
                forall|k: Seq<char>| #[trigger]
                    reg.latest_data@.contains_key(k) ==> reg.latest_data@[k]
                        == pre_trim.latest_data@[k],
                reg.connection_health@ == pre_trim.connection_health@,
                reg.connection_handles@ == pre_trim.connection_handles@,
                reg.connected_clients@ == pre_trim.connected_clients@,
                reg.unique_plcs@ == pre_trim.unique_plcs@,
                reg.blacklisted_ips@ == pre_trim.blacklisted_ips@,
                reg.ip_to_id@ == pre_trim.ip_to_id@,
                reg.bytes_received@ == pre_trim.bytes_received@,
                reg.last_data_time == pre_trim.last_data_time,
                reg.active_connections == pre_trim.active_connections,
                reg.total_connection_count == pre_trim.total_connection_count,
                reg.next_id == pre_trim.next_id,
                reg.is_running == pre_trim.is_running,
            decreases stale@.len() - w,
        {
            let ip = &stale[w];
            remove_cached_packet(reg, ip);
            proof {
                assert forall|k: Seq<char>|
                    reg.latest_data@.contains_key(k) <==> (pre_trim.latest_data@.contains_key(k)
                        && !(exists|q: int| 0 <= q < w + 1 && #[trigger] stale@[q]@ == k)) by {
                    if pre_trim.latest_data@.contains_key(k) {
                        if exists|q: int| 0 <= q < w + 1 && #[trigger] stale@[q]@ == k {
                            let q = choose|q: int| 0 <= q < w + 1 && #[trigger] stale@[q]@ == k;
                            if q < w {
                                assert(!reg.latest_data@.contains_key(k));
                            }
                        }
                    }
                }
            }
            w = w + 1;
        }
        proof {
            assert forall|k: Seq<char>|
                reg.latest_data@.contains_key(k) <==> (#[trigger] pre_trim.latest_data@.contains_key(
                    k,
                ) && now - pre_trim.latest_data@[k].timestamp < CACHE_TTL_SECS) by {
                if pre_trim.latest_data@.contains_key(k) {
                    if !(now - pre_trim.latest_data@[k].timestamp < CACHE_TTL_SECS) {
                        assert(is_stale(pre_trim, k, now));
                        assert(seq_contains_ip(stale@, k));
                        let q = choose|q: int| 0 <= q < stale@.len() && stale@[q]@ == k;
                        assert(stale@[q]@ == k);
                    } else {
                        assert(!is_stale(pre_trim, k, now));
                        if exists|q: int| 0 <= q < stale@.len() && #[trigger] stale@[q]@ == k {
                            let q = choose|q: int|
                                0 <= q < stale@.len() && #[trigger] stale@[q]@ == k;
                            assert(is_stale(pre_trim, stale@[q]@, now));
                            assert(false);
                        }
                    }
                }
            }
        }
    }
    // Reset the daily byte counters on the scheduled tick.
    let reset_bytes = iteration % BYTES_RESET_TICKS == 0;
    if reset_bytes {
        reg.bytes_received.clear();
    }
    WatchdogReport { dead, slow, trimmed_cache, reset_bytes }
}

/// Removes one address from the last-packet cache, keeping the registry
/// well-formed.
fn remove_cached_packet(reg: &mut Registry, ip: &String)
    requires
        old(reg).wf(),
    ensures
        final(reg).wf(),
        final(reg).latest_data@ =~= old(reg).latest_data@.remove(ip@),
        *final(reg) == (Registry { latest_data: final(reg).latest_data, ..*old(reg) }),
{
    reg.latest_data.remove(ip.as_str());
}

} // verus!
