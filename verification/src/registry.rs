//! Process-wide connection registry: stable peer-id assignment, health
//! records, live-handle bookkeeping, blacklist, byte counters and the
//! last-packet cache, with the admission and removal policies that keep
//! the tables mutually consistent.

use vstd::prelude::*;
use vstd::hash_map::StringHashMap;
use vstd::hash_set::StringHashSet;
use crate::frame::{packet_matches, PlcDataPacket};

verus! {

/// Health record for one live connection. Times are Unix seconds.
#[derive(Debug, Clone)]
pub struct ConnectionHealth {
    pub ip: String,
    pub conn_id: u64,
    pub connected_at: u64,
    pub last_data_received: u64,
    pub total_bytes: u64,
    pub packet_count: u64,
    pub is_alive: bool,
    pub last_error: Option<String>,
    pub removal_in_progress: bool,
}

/// Derived, query-friendly view of a health record.
#[derive(Debug, Clone)]
pub struct ConnectionHealthInfo {
    pub ip: String,
    pub conn_id: u64,
    pub connected_secs: u64,
    pub seconds_since_last_data: u64,
    pub total_bytes: u64,
    pub packet_count: u64,
    pub is_alive: bool,
    pub last_error: Option<String>,
}

impl ConnectionHealth {
    /// Projects the record for queries, deriving ages from `now`.
    pub fn to_info(&self, now: u64) -> (info: ConnectionHealthInfo)
        ensures
            info.ip@ == self.ip@,
            info.conn_id == self.conn_id,
            info.connected_secs == if now >= self.connected_at {
                now - self.connected_at
            } else {
                0
            },
            info.seconds_since_last_data == if now >= self.last_data_received {
                now - self.last_data_received
            } else {
                0
            },
            info.total_bytes == self.total_bytes,
            info.packet_count == self.packet_count,
            info.is_alive == self.is_alive,
            info.last_error == self.last_error,
    {
        ConnectionHealthInfo {
            ip: self.ip.clone(),
            conn_id: self.conn_id,
            connected_secs: now.saturating_sub(self.connected_at),
            seconds_since_last_data: now.saturating_sub(self.last_data_received),
            total_bytes: self.total_bytes,
            packet_count: self.packet_count,
            is_alive: self.is_alive,
            last_error: self.last_error.clone(),
        }
    }
}

/// Aggregate counters reported to queries.
#[derive(Debug, Clone)]
pub struct ConnectionStats {
    pub active_connections: u64,
    pub total_connections: u64,
    pub last_data_time: u64,
    pub server_status: String,
    pub plc_status: String,
}

/// Failed preconditions of the administrative commands.
#[derive(Debug, Clone, PartialEq, Eq, Structural)]
pub enum AdminError {
    NotConnected,
    NotBlacklisted,
    NotRunning,
}

/// Outcome of the admission policy for a newly accepted peer.
#[derive(Debug, Clone, PartialEq, Eq, Structural)]
pub enum AcceptDecision {
    Refused,
    Accepted { conn_id: u64, preempted: bool },
}

/// Does a vector of IP strings contain this address?
pub open spec fn seq_contains_ip(v: Seq<String>, k: Seq<char>) -> bool {
    exists|j: int| 0 <= j < v.len() && v[j]@ == k
}

/// The predicate selecting every address other than `ip`.
pub open spec fn not_ip(ip: Seq<char>) -> spec_fn(String) -> bool {
    |s: String| s@ != ip
}

/// All addresses in the vector are pairwise distinct.
pub open spec fn views_distinct(v: Seq<String>) -> bool {
    forall|a: int, b: int| 0 <= a < b < v.len() ==> v[a]@ != v[b]@
}

/// The registry: one value owning every table. Concurrency lives outside;
/// every operation here is one logical transaction.
pub struct Registry {
    pub is_running: bool,
    pub active_connections: u64,
    pub total_connection_count: u64,
    pub last_data_time: u64,
    pub next_id: u64,
    pub connected_clients: Vec<String>,
    pub connection_handles: StringHashSet,
    pub unique_plcs: Vec<String>,
    pub blacklisted_ips: StringHashSet,
    pub ip_to_id: StringHashMap<u64>,
    pub bytes_received: StringHashMap<u64>,
    pub latest_data: StringHashMap<PlcDataPacket>,
    pub connection_health: StringHashMap<ConnectionHealth>,
}

impl Registry {
    /// An address is live when it has a health record.
    pub open spec fn is_live(self, k: Seq<char>) -> bool {
        self.connection_health@.contains_key(k)
    }

    /// Mutual consistency of the tables: health, handles and the
    /// connected list agree; the active counter equals the number of
    /// connected peers; ids are assigned to exactly the addresses ever
    /// seen and stay below the allocator cursor; caches only hold known
    /// addresses.
    pub open spec fn wf(self) -> bool {
        &&& views_distinct(self.connected_clients@)
        &&& views_distinct(self.unique_plcs@)
        &&& forall|k: Seq<char>|
            self.connection_health@.contains_key(k) <==> seq_contains_ip(
                self.connected_clients@,
                k,
            )
        &&& forall|k: Seq<char>|
            self.connection_handles@.contains(k) <==> seq_contains_ip(self.connected_clients@, k)
        &&& self.active_connections == self.connected_clients@.len()
        &&& forall|k: Seq<char>| #[trigger]
            self.connection_health@.contains_key(k) ==> {
                &&& self.connection_health@[k].ip@ == k
                &&& self.ip_to_id@.contains_key(k)
                &&& self.connection_health@[k].conn_id == self.ip_to_id@[k]
            }
        &&& forall|k: Seq<char>|
            seq_contains_ip(self.connected_clients@, k) ==> seq_contains_ip(self.unique_plcs@, k)
        &&& forall|k: Seq<char>|
            self.ip_to_id@.contains_key(k) <==> seq_contains_ip(self.unique_plcs@, k)
        &&& forall|k: Seq<char>|
            self.ip_to_id@.contains_key(k) ==> 1 <= #[trigger] self.ip_to_id@[k] < self.next_id
        &&& forall|k: Seq<char>| #[trigger]
            self.latest_data@.contains_key(k) ==> seq_contains_ip(self.unique_plcs@, k)
                && self.latest_data@[k].ip@ == k
        &&& forall|k: Seq<char>| #[trigger]
            self.bytes_received@.contains_key(k) ==> seq_contains_ip(self.unique_plcs@, k)
        &&& self.next_id >= 1
    }

    /// Tables the data path and the admission policy never touch for an
    /// address once set: the id map only grows, and an assigned id never
    /// changes.
    pub open spec fn ids_preserved(pre: Registry, post: Registry) -> bool {
        forall|k: Seq<char>| #[trigger]
            pre.ip_to_id@.contains_key(k) ==> post.ip_to_id@.contains_key(k)
                && post.ip_to_id@[k] == pre.ip_to_id@[k]
    }

    /// A fresh registry: empty tables, allocator at one, not running.
    pub fn new() -> (r: Registry)
        ensures
            r.wf(),
            !r.is_running,
            r.active_connections == 0,
            r.total_connection_count == 0,
            r.last_data_time == 0,
            r.next_id == 1,
            r.connected_clients@.len() == 0,
            r.connection_handles@ == Set::<Seq<char>>::empty(),
            r.unique_plcs@.len() == 0,
            r.blacklisted_ips@ == Set::<Seq<char>>::empty(),
            r.ip_to_id@ == Map::<Seq<char>, u64>::empty(),
            r.bytes_received@ == Map::<Seq<char>, u64>::empty(),
            r.latest_data@ == Map::<Seq<char>, PlcDataPacket>::empty(),
            r.connection_health@ == Map::<Seq<char>, ConnectionHealth>::empty(),
    {
        Registry {
            is_running: false,
            active_connections: 0,
            total_connection_count: 0,
            last_data_time: 0,
            next_id: 1,
            connected_clients: Vec::new(),
            connection_handles: StringHashSet::new(),
            unique_plcs: Vec::new(),
            blacklisted_ips: StringHashSet::new(),
            ip_to_id: StringHashMap::new(),
            bytes_received: StringHashMap::new(),
            latest_data: StringHashMap::new(),
            connection_health: StringHashMap::new(),
        }
    }
}

/// Membership test on a vector of IP strings.
pub fn vec_contains_ip(v: &Vec<String>, ip: &String) -> (b: bool)
    ensures
        b == seq_contains_ip(v@, ip@),
{
    let mut i: usize = 0;
    while i < v.len()
        invariant
            i <= v@.len(),
            forall|j: int| 0 <= j < i ==> v@[j]@ != ip@,
        decreases v@.len() - i,
    {
        if v[i] == *ip {
            return true;
        }
        i = i + 1;
    }
    false
}

/// Removes every occurrence of an address, keeping the order of the rest.
pub fn remove_ip(v: &mut Vec<String>, ip: &String)
    ensures
        final(v)@ == old(v)@.filter(not_ip(ip@)),
{
    let ghost orig = v@;
    let ghost pred = not_ip(ip@);
    let mut out: Vec<String> = Vec::new();
    let mut i: usize = 0;
    proof {
        reveal(Seq::filter);
        assert(orig.subrange(0, 0) =~= Seq::<String>::empty());
        assert(out@ =~= orig.subrange(0, 0).filter(pred));
    }
    while i < v.len()
        invariant
            i <= v@.len(),
            v@ == orig,
            pred == not_ip(ip@),
            out@ == orig.subrange(0, i as int).filter(pred),
        decreases v@.len() - i,
    {
        proof {
            reveal(Seq::filter);
            assert(orig.subrange(0, i + 1).drop_last() =~= orig.subrange(0, i as int));
            assert(orig.subrange(0, i + 1).last() == orig[i as int]);
        }
        if v[i] == *ip {
            proof {
                assert(!pred(orig[i as int]));
                assert(out@ =~= orig.subrange(0, i + 1).filter(pred));
            }
        } else {
            out.push(v[i].clone());
            proof {
                assert(pred(orig[i as int]));
                assert(out@ =~= orig.subrange(0, i + 1).filter(pred));
            }
        }
        i = i + 1;
    }
    proof {
        assert(orig.subrange(0, orig.len() as int) =~= orig);
    }
    *v = out;
}

/// Membership in a pushed vector of addresses.
proof fn lemma_seq_contains_push(v: Seq<String>, x: String, k: Seq<char>)
    ensures
        seq_contains_ip(v.push(x), k) <==> (seq_contains_ip(v, k) || x@ == k),
{
    if seq_contains_ip(v, k) {
        let j = choose|j: int| 0 <= j < v.len() && v[j]@ == k;
        assert(v.push(x)[j]@ == k);
    }
    if x@ == k {
        assert(v.push(x)[v.len() as int]@ == k);
    }
    if seq_contains_ip(v.push(x), k) {
        let j = choose|j: int| 0 <= j < v.push(x).len() && v.push(x)[j]@ == k;
        if j < v.len() {
            assert(v[j]@ == k);
        }
    }
}

/// What filtering one address out of a vector of addresses does:
/// membership of every other address is kept, distinctness is kept, and
/// under distinctness exactly one element disappears when present.
proof fn lemma_ip_filter_props(s: Seq<String>, ip: Seq<char>)
    ensures
        forall|k: Seq<char>|
            seq_contains_ip(s.filter(not_ip(ip)), k) <==> (seq_contains_ip(s, k) && k
                != ip),
        views_distinct(s) ==> views_distinct(s.filter(not_ip(ip))),
        (views_distinct(s) && seq_contains_ip(s, ip)) ==> s.filter(not_ip(ip)).len()
            == s.len() - 1,
        !seq_contains_ip(s, ip) ==> s.filter(not_ip(ip)) == s,
    decreases s.len(),
{
    reveal(Seq::filter);
    let pred = not_ip(ip);
    if s.len() == 0 {
        assert(s.filter(pred) =~= s);
        assert forall|k: Seq<char>|
            seq_contains_ip(s.filter(pred), k) <==> (seq_contains_ip(s, k) && k != ip) by {
            assert(!seq_contains_ip(s, k));
        }
    } else {
        let dl = s.drop_last();
        let last = s.last();
        lemma_ip_filter_props(dl, ip);
        assert(views_distinct(s) ==> views_distinct(dl));
        assert forall|k: Seq<char>| seq_contains_ip(s, k) <==> (seq_contains_ip(dl, k) || last@
            == k) by {
            assert(dl.push(last) =~= s);
            lemma_seq_contains_push(dl, last, k);
        }
        if pred(last) {
            assert(s.filter(pred) == dl.filter(pred).push(last));
            assert forall|k: Seq<char>|
                seq_contains_ip(s.filter(pred), k) <==> (seq_contains_ip(s, k) && k != ip) by {
                lemma_seq_contains_push(dl.filter(pred), last, k);
            }
            if views_distinct(s) {
                assert forall|a: int, b: int|
                    0 <= a < b < s.filter(pred).len() implies s.filter(pred)[a]@ != s.filter(
                    pred,
                )[b]@ by {
                    let f = s.filter(pred);
                    if b == f.len() - 1 {
                        // The pushed element is `last`; it cannot occur in
                        // the filtered prefix because `s` is distinct.
                        assert(f[b] == last);
                        assert(seq_contains_ip(dl.filter(pred), f[a]@) ==> seq_contains_ip(
                            dl,
                            f[a]@,
                        ));
                        if f[a]@ == last@ {
                            let j = choose|j: int|
                                0 <= j < dl.len() && dl[j]@ == f[a]@;
                            assert(s[j]@ == s[s.len() - 1]@);
                            assert(false);
                        }
                    }
                }
            }
            if views_distinct(s) && seq_contains_ip(s, ip) {
                assert(last@ != ip);
                assert(seq_contains_ip(dl, ip));
            }
            if !seq_contains_ip(s, ip) {
                assert(!seq_contains_ip(dl, ip));
                assert(s.filter(pred) =~= s);
            }
        } else {
            assert(last@ == ip);
            assert(s.filter(pred) == dl.filter(pred));
            if views_distinct(s) {
                if seq_contains_ip(dl, ip) {
                    let j = choose|j: int| 0 <= j < dl.len() && dl[j]@ == ip;
                    assert(s[j]@ == s[s.len() - 1]@);
                    assert(false);
                }
                assert(s.filter(pred) == dl);
            }
        }
    }
}

impl Registry {
    /// Marks the server running; every other table is untouched.
    pub fn mark_running(&mut self)
        ensures
            *final(self) == (Registry { is_running: true, ..*old(self) }),
    {
        self.is_running = true;
    }

    /// The admission policy. A blacklisted address is refused without any
    /// change. Otherwise the peer is admitted: a duplicate's old handle
    /// and health are dropped first; the address keeps its id if it ever
    /// had one, else it is assigned the next id; a fresh health record is
    /// installed; the address joins the connected list and the set of
    /// addresses ever seen; the counters advance.
    pub fn accept_peer(&mut self, ip: &String, now: u64) -> (d: AcceptDecision)
        requires
            old(self).wf(),
            old(self).next_id < u64::MAX,
        ensures
            final(self).wf(),
            Self::ids_preserved(*old(self), *final(self)),
            match d {
                AcceptDecision::Refused => {
                    &&& old(self).blacklisted_ips@.contains(ip@)
                    &&& *final(self) == *old(self)
                },
                AcceptDecision::Accepted { conn_id, preempted } => {
                    &&& !old(self).blacklisted_ips@.contains(ip@)
                    &&& preempted == old(self).connection_handles@.contains(ip@)
                    &&& (old(self).ip_to_id@.contains_key(ip@) ==> conn_id == old(self).ip_to_id@[ip@] && final(self).next_id == old(self).next_id)
                    &&& (!old(self).ip_to_id@.contains_key(ip@) ==> conn_id == old(self).next_id
                        && final(self).next_id == old(self).next_id + 1)
                    &&& final(self).ip_to_id@ =~= old(self).ip_to_id@.insert(ip@, conn_id)
                    &&& final(self).connection_health@.contains_key(ip@)
                    &&& {
                        let h = final(self).connection_health@[ip@];
                        &&& h.ip@ == ip@
                        &&& h.conn_id == conn_id
                        &&& h.connected_at == now
                        &&& h.last_data_received == now
                        &&& h.total_bytes == 0
                        &&& h.packet_count == 0
                        &&& h.is_alive
                        &&& h.last_error is None
                        &&& !h.removal_in_progress
                    }
                    &&& final(self).connection_health@.remove(ip@) =~= old(self).connection_health@.remove(ip@)
                    &&& final(self).connection_handles@ =~= old(self).connection_handles@.insert(
                        ip@,
                    )
                    &&& final(self).connected_clients@.len() >= 1
                    &&& final(self).connected_clients@.last()@ == ip@
                    &&& final(self).connected_clients@.drop_last() == old(self).connected_clients@.filter(not_ip(ip@))
                    &&& seq_contains_ip(final(self).unique_plcs@, ip@)
                    &&& (seq_contains_ip(old(self).unique_plcs@, ip@) ==> final(self).unique_plcs@
                        == old(self).unique_plcs@)
                    &&& (!seq_contains_ip(old(self).unique_plcs@, ip@) ==> final(self).unique_plcs@.drop_last() == old(self).unique_plcs@ && final(self).unique_plcs@.last()@ == ip@)
                    &&& final(self).active_connections as int == if preempted {
                        old(self).active_connections as int
                    } else {
                        old(self).active_connections + 1
                    }
                    &&& (old(self).total_connection_count < u64::MAX ==> final(self).total_connection_count == old(self).total_connection_count + 1)
                    &&& final(self).blacklisted_ips@ == old(self).blacklisted_ips@
                    &&& final(self).bytes_received@ == old(self).bytes_received@
                    &&& final(self).latest_data@ == old(self).latest_data@
                    &&& final(self).last_data_time == old(self).last_data_time
                    &&& final(self).is_running == old(self).is_running
                },
            },
    {
        if self.blacklisted_ips.contains(ip.as_str()) {
            return AcceptDecision::Refused;
        }
        let preempted = self.connection_handles.contains(ip.as_str());
        proof {
            lemma_ip_filter_props(self.connected_clients@, ip@);
        }
        if preempted {
            self.connection_handles.remove(ip.as_str());
            self.connection_health.remove(ip.as_str());
            remove_ip(&mut self.connected_clients, ip);
            self.active_connections = self.active_connections.saturating_sub(1);
        }
        let conn_id: u64 = match self.ip_to_id.get(ip.as_str()) {
            Some(id) => *id,
            None => {
                let id = self.next_id;
                self.next_id = self.next_id + 1;
                self.ip_to_id.insert(ip.clone(), id);
                id
            },
        };
        let record = ConnectionHealth {
            ip: ip.clone(),
            conn_id,
            connected_at: now,
            last_data_received: now,
            total_bytes: 0,
            packet_count: 0,
            is_alive: true,
            last_error: None,
            removal_in_progress: false,
        };
        self.connection_health.insert(ip.clone(), record);
        self.connection_handles.insert(ip.clone());
        if !preempted {
            proof {
                // A peer without a handle is not in the connected list,
                // so nothing had to be filtered out.
                assert(!seq_contains_ip(self.connected_clients@, ip@));
                assert(self.connected_clients@.filter(not_ip(ip@))
                    == self.connected_clients@);
            }
        }
        let ghost before_push = self.connected_clients@;
        self.connected_clients.push(ip.clone());
        proof {
            assert(self.connected_clients@.drop_last() =~= before_push);
            lemma_ip_filter_props(old(self).connected_clients@, ip@);
            assert forall|k: Seq<char>|
                seq_contains_ip(self.connected_clients@, k) <==> (seq_contains_ip(
                    old(self).connected_clients@,
                    k,
                ) || k == ip@) by {
                lemma_seq_contains_push(before_push, self.connected_clients@.last(), k);
            }
        }
        if !vec_contains_ip(&self.unique_plcs, ip) {
            let ghost before_unique = self.unique_plcs@;
            self.unique_plcs.push(ip.clone());
            proof {
                assert(self.unique_plcs@.drop_last() =~= before_unique);
                assert forall|k: Seq<char>|
                    seq_contains_ip(self.unique_plcs@, k) <==> (seq_contains_ip(before_unique, k)
                        || k == ip@) by {
                    lemma_seq_contains_push(before_unique, self.unique_plcs@.last(), k);
                }
            }
        }
        self.active_connections = self.connected_clients.len() as u64;
        self.total_connection_count = self.total_connection_count.saturating_add(1);
        proof {
            let pre = *old(self);
            let post = *self;
            let f = pre.connected_clients@.filter(not_ip(ip@));
            lemma_ip_filter_props(pre.connected_clients@, ip@);
            assert(post.connected_clients@.drop_last() =~= f);
            assert(post.connected_clients@.last()@ == ip@);
            assert forall|a: int, b: int|
                0 <= a < b < post.connected_clients@.len() implies post.connected_clients@[a]@
                != post.connected_clients@[b]@ by {
                if b == post.connected_clients@.len() - 1 {
                    assert(post.connected_clients@[a] == f[a]);
                    assert(seq_contains_ip(f, f[a]@));
                } else {
                    assert(post.connected_clients@[a] == f[a]);
                    assert(post.connected_clients@[b] == f[b]);
                }
            }
            assert forall|a: int, b: int|
                0 <= a < b < post.unique_plcs@.len() implies post.unique_plcs@[a]@
                != post.unique_plcs@[b]@ by {
                if seq_contains_ip(pre.unique_plcs@, ip@) {
                } else {
                    if b == post.unique_plcs@.len() - 1 {
                        assert(post.unique_plcs@[a] == pre.unique_plcs@[a]);
                        assert(seq_contains_ip(pre.unique_plcs@, pre.unique_plcs@[a]@));
                    } else {
                        assert(post.unique_plcs@[a] == pre.unique_plcs@[a]);
                        assert(post.unique_plcs@[b] == pre.unique_plcs@[b]);
                    }
                }
            }
            assert forall|k: Seq<char>|
                post.connection_health@.contains_key(k) <==> seq_contains_ip(
                    post.connected_clients@,
                    k,
                ) by {
                assert(pre.connection_health@.contains_key(k) <==> seq_contains_ip(
                    pre.connected_clients@,
                    k,
                ));
                assert(pre.connection_handles@.contains(k) <==> seq_contains_ip(
                    pre.connected_clients@,
                    k,
                ));
            }
            assert forall|k: Seq<char>|
                post.connection_handles@.contains(k) <==> seq_contains_ip(
                    post.connected_clients@,
                    k,
                ) by {
                assert(pre.connection_handles@.contains(k) <==> seq_contains_ip(
                    pre.connected_clients@,
                    k,
                ));
            }
            assert forall|k: Seq<char>|
                seq_contains_ip(post.connected_clients@, k) implies seq_contains_ip(
                post.unique_plcs@,
                k,
            ) by {
                if k != ip@ {
                    assert(seq_contains_ip(pre.connected_clients@, k));
                    assert(seq_contains_ip(pre.unique_plcs@, k));
                }
            }
            assert forall|k: Seq<char>|
                post.ip_to_id@.contains_key(k) <==> seq_contains_ip(post.unique_plcs@, k) by {
                if k != ip@ {
                    assert(pre.ip_to_id@.contains_key(k) <==> seq_contains_ip(
                        pre.unique_plcs@,
                        k,
                    ));
                }
            }
            assert forall|k: Seq<char>| #[trigger]
                post.connection_health@.contains_key(k) implies {
                &&& post.connection_health@[k].ip@ == k
                &&& post.ip_to_id@.contains_key(k)
                &&& post.connection_health@[k].conn_id == post.ip_to_id@[k]
            } by {
                if k != ip@ {
                    assert(pre.connection_health@.contains_key(k));
                }
            }
            assert(post.wf());
        }
        AcceptDecision::Accepted { conn_id, preempted }
    }

    /// Shared removal step: unregisters a live address from the health
    /// table, the handle set and the connected list, and decrements the
    /// active counter. Every other table is untouched.
    fn drop_live(&mut self, ip: &String)
        requires
            old(self).wf(),
            old(self).connection_handles@.contains(ip@),
        ensures
            final(self).wf(),
            final(self).connection_health@ =~= old(self).connection_health@.remove(ip@),
            final(self).connection_handles@ =~= old(self).connection_handles@.remove(ip@),
            final(self).connected_clients@ == old(self).connected_clients@.filter(not_ip(ip@)),
            final(self).active_connections == old(self).active_connections - 1,
            final(self).ip_to_id@ == old(self).ip_to_id@,
            final(self).unique_plcs@ == old(self).unique_plcs@,
            final(self).blacklisted_ips@ == old(self).blacklisted_ips@,
            final(self).bytes_received@ == old(self).bytes_received@,
            final(self).latest_data@ == old(self).latest_data@,
            final(self).last_data_time == old(self).last_data_time,
            final(self).total_connection_count == old(self).total_connection_count,
            final(self).next_id == old(self).next_id,
            final(self).is_running == old(self).is_running,
    {
        proof {
            lemma_ip_filter_props(self.connected_clients@, ip@);
            assert(seq_contains_ip(self.connected_clients@, ip@));
        }
        self.connection_health.remove(ip.as_str());
        self.connection_handles.remove(ip.as_str());
        remove_ip(&mut self.connected_clients, ip);
        self.active_connections = self.active_connections.saturating_sub(1);
        proof {
            let pre = *old(self);
            let post = *self;
            assert(post.connected_clients@.len() == pre.connected_clients@.len() - 1);
            assert forall|k: Seq<char>|
                post.connection_health@.contains_key(k) <==> seq_contains_ip(
                    post.connected_clients@,
                    k,
                ) by {
                assert(pre.connection_health@.contains_key(k) <==> seq_contains_ip(
                    pre.connected_clients@,
                    k,
                ));
            }
            assert forall|k: Seq<char>|
                post.connection_handles@.contains(k) <==> seq_contains_ip(
                    post.connected_clients@,
                    k,
                ) by {
                assert(pre.connection_handles@.contains(k) <==> seq_contains_ip(
                    pre.connected_clients@,
                    k,
                ));
            }
            assert forall|k: Seq<char>|
                seq_contains_ip(post.connected_clients@, k) implies seq_contains_ip(
                post.unique_plcs@,
                k,
            ) by {
                assert(seq_contains_ip(pre.connected_clients@, k));
            }
            assert(post.wf());
        }
    }

    /// The removal policy, gated so that exactly one caller wins: returns
    /// true and removes the address from the connected list, the handle
    /// set and the health table only if a health record existed and no
    /// removal was already in progress. The id map, the set of addresses
    /// ever seen, the caches and the blacklist keep their entries.
    pub fn finish_connection(&mut self, ip: &String) -> (won: bool)
        requires
            old(self).wf(),
        ensures
            final(self).wf(),
            Self::ids_preserved(*old(self), *final(self)),
            won == (old(self).connection_health@.contains_key(ip@) && !old(self).connection_health@[ip@].removal_in_progress),
            !won ==> *final(self) == *old(self),
            won ==> {
                &&& final(self).connection_health@ =~= old(self).connection_health@.remove(ip@)
                &&& final(self).connection_handles@ =~= old(self).connection_handles@.remove(ip@)
                &&& final(self).connected_clients@ == old(self).connected_clients@.filter(not_ip(ip@))
                &&& final(self).active_connections == old(self).active_connections - 1
                &&& final(self).ip_to_id@ == old(self).ip_to_id@
                &&& final(self).unique_plcs@ == old(self).unique_plcs@
                &&& final(self).blacklisted_ips@ == old(self).blacklisted_ips@
                &&& final(self).bytes_received@ == old(self).bytes_received@
                &&& final(self).latest_data@ == old(self).latest_data@
                &&& final(self).last_data_time == old(self).last_data_time
                &&& final(self).total_connection_count == old(self).total_connection_count
                &&& final(self).next_id == old(self).next_id
                &&& final(self).is_running == old(self).is_running
            },
    {
        let won = match self.connection_health.get(ip.as_str()) {
            Some(h) => !h.removal_in_progress,
            None => false,
        };
        if !won {
            return false;
        }
        self.drop_live(ip);
        true
    }

    /// Blacklists the address, and if it has a live handle also removes
    /// it immediately. The blacklist entry persists either way.
    pub fn disconnect_client(&mut self, ip: &String) -> (r: Result<(), AdminError>)
        requires
            old(self).wf(),
        ensures
            final(self).wf(),
            Self::ids_preserved(*old(self), *final(self)),
            final(self).blacklisted_ips@ =~= old(self).blacklisted_ips@.insert(ip@),
            r is Ok <==> old(self).connection_handles@.contains(ip@),
            r is Err ==> r == Err::<(), AdminError>(AdminError::NotConnected) && *final(self) == (
            Registry { blacklisted_ips: final(self).blacklisted_ips, ..*old(self) }),
            r is Ok ==> {
                &&& final(self).connection_health@ =~= old(self).connection_health@.remove(ip@)
                &&& final(self).connection_handles@ =~= old(self).connection_handles@.remove(ip@)
                &&& final(self).connected_clients@ == old(self).connected_clients@.filter(not_ip(ip@))
                &&& final(self).active_connections == old(self).active_connections - 1
                &&& final(self).ip_to_id@ == old(self).ip_to_id@
                &&& final(self).unique_plcs@ == old(self).unique_plcs@
                &&& final(self).bytes_received@ == old(self).bytes_received@
                &&& final(self).latest_data@ == old(self).latest_data@
                &&& final(self).last_data_time == old(self).last_data_time
                &&& final(self).total_connection_count == old(self).total_connection_count
                &&& final(self).next_id == old(self).next_id
                &&& final(self).is_running == old(self).is_running
            },
    {
        self.blacklisted_ips.insert(ip.clone());
        if self.connection_handles.contains(ip.as_str()) {
            self.drop_live(ip);
            Ok(())
        } else {
            Err(AdminError::NotConnected)
        }
    }

    /// Removes the address from the blacklist; an address that was not
    /// blacklisted is reported, with no change.
    pub fn allow_reconnect(&mut self, ip: &String) -> (r: Result<(), AdminError>)
        requires
            old(self).wf(),
        ensures
            final(self).wf(),
            Self::ids_preserved(*old(self), *final(self)),
            final(self).blacklisted_ips@ =~= old(self).blacklisted_ips@.remove(ip@),
            *final(self) == (Registry { blacklisted_ips: final(self).blacklisted_ips, ..*old(self) }),
            r is Ok <==> old(self).blacklisted_ips@.contains(ip@),
            r is Err ==> r == Err::<(), AdminError>(AdminError::NotBlacklisted),
    {
        if self.blacklisted_ips.remove(ip.as_str()) {
            Ok(())
        } else {
            Err(AdminError::NotBlacklisted)
        }
    }

    /// Stops the server: clears the running flag, drops every live
    /// connection's bookkeeping and zeroes the active counter. Ids,
    /// known addresses, caches and the blacklist persist.
    pub fn stop(&mut self) -> (r: Result<(), AdminError>)
        requires
            old(self).wf(),
        ensures
            final(self).wf(),
            Self::ids_preserved(*old(self), *final(self)),
            !old(self).is_running ==> r == Err::<(), AdminError>(AdminError::NotRunning) && *final(self) == *old(self),
            old(self).is_running ==> {
                &&& r is Ok
                &&& !final(self).is_running
                &&& final(self).connection_health@ =~= Map::<Seq<char>, ConnectionHealth>::empty()
                &&& final(self).connection_handles@ =~= Set::<Seq<char>>::empty()
                &&& final(self).connected_clients@.len() == 0
                &&& final(self).active_connections == 0
                &&& final(self).ip_to_id@ == old(self).ip_to_id@
                &&& final(self).unique_plcs@ == old(self).unique_plcs@
                &&& final(self).blacklisted_ips@ == old(self).blacklisted_ips@
                &&& final(self).bytes_received@ == old(self).bytes_received@
                &&& final(self).latest_data@ == old(self).latest_data@
                &&& final(self).total_connection_count == old(self).total_connection_count
                &&& final(self).next_id == old(self).next_id
            },
    {
        if !self.is_running {
            return Err(AdminError::NotRunning);
        }
        self.is_running = false;
        self.connection_handles.clear();
        self.connection_health.clear();
        self.active_connections = 0;
        self.connected_clients.clear();
        Ok(())
    }
}

} // verus!

verus! {

/// Saturating 64-bit addition, as a specification value.
pub open spec fn sat_add_u64(a: u64, b: u64) -> u64 {
    if a + b > u64::MAX {
        u64::MAX
    } else {
        (a + b) as u64
    }
}

/// The last-error field of two records holds the same text.
pub open spec fn error_matches(a: Option<String>, b: Option<String>) -> bool {
    &&& (a is None <==> b is None)
    &&& (a is Some ==> a->0@ == b->0@)
}

/// Derived health view of a record at time `now`.
pub open spec fn info_of(info: ConnectionHealthInfo, h: ConnectionHealth, now: u64) -> bool {
    &&& info.ip@ == h.ip@
    &&& info.conn_id == h.conn_id
    &&& info.connected_secs == if now >= h.connected_at {
        now - h.connected_at
    } else {
        0
    }
    &&& info.seconds_since_last_data == if now >= h.last_data_received {
        now - h.last_data_received
    } else {
        0
    }
    &&& info.total_bytes == h.total_bytes
    &&& info.packet_count == h.packet_count
    &&& info.is_alive == h.is_alive
    &&& error_matches(info.last_error, h.last_error)
}

/// Every table except the health records is unchanged between two
/// registry states.
pub open spec fn only_health_changed(pre: Registry, post: Registry) -> bool {
    &&& post.connected_clients@ == pre.connected_clients@
    &&& post.connection_handles@ == pre.connection_handles@
    &&& post.unique_plcs@ == pre.unique_plcs@
    &&& post.blacklisted_ips@ == pre.blacklisted_ips@
    &&& post.ip_to_id@ == pre.ip_to_id@
    &&& post.bytes_received@ == pre.bytes_received@
    &&& post.latest_data@ == pre.latest_data@
    &&& post.last_data_time == pre.last_data_time
    &&& post.active_connections == pre.active_connections
    &&& post.total_connection_count == pre.total_connection_count
    &&& post.next_id == pre.next_id
    &&& post.is_running == pre.is_running
}

/// Copies a health record field by field, so that the copy provably
/// carries the same values.
fn clone_health(h: &ConnectionHealth) -> (r: ConnectionHealth)
    ensures
        r.ip@ == h.ip@,
        r.conn_id == h.conn_id,
        r.connected_at == h.connected_at,
        r.last_data_received == h.last_data_received,
        r.total_bytes == h.total_bytes,
        r.packet_count == h.packet_count,
        r.is_alive == h.is_alive,
        error_matches(r.last_error, h.last_error),
        r.removal_in_progress == h.removal_in_progress,
{
    ConnectionHealth {
        ip: h.ip.clone(),
        conn_id: h.conn_id,
        connected_at: h.connected_at,
        last_data_received: h.last_data_received,
        total_bytes: h.total_bytes,
        packet_count: h.packet_count,
        is_alive: h.is_alive,
        last_error: match &h.last_error {
            Some(e) => Some(e.clone()),
            None => None,
        },
        removal_in_progress: h.removal_in_progress,
    }
}

impl Registry {
    /// Per-read side effects: the global last-data time advances, the
    /// peer's byte counter grows by `n` (saturating), and a live peer's
    /// health record is refreshed with the handler's running total.
    pub fn record_read(&mut self, ip: &String, n: u64, now: u64, handler_total: u64)
        requires
            old(self).wf(),
            seq_contains_ip(old(self).unique_plcs@, ip@),
        ensures
            final(self).wf(),
            Self::ids_preserved(*old(self), *final(self)),
            final(self).last_data_time == now,
            final(self).bytes_received@ =~= old(self).bytes_received@.insert(
                ip@,
                sat_add_u64(
                    if old(self).bytes_received@.contains_key(ip@) {
                        old(self).bytes_received@[ip@]
                    } else {
                        0
                    },
                    n,
                ),
            ),
            old(self).is_live(ip@) ==> {
                let pre = old(self).connection_health@[ip@];
                let post = final(self).connection_health@[ip@];
                &&& final(self).connection_health@.contains_key(ip@)
                &&& final(self).connection_health@.remove(ip@) =~= old(
                    self,
                ).connection_health@.remove(ip@)
                &&& post.last_data_received == now
                &&& post.total_bytes == handler_total
                &&& post.is_alive
                &&& post.ip@ == pre.ip@
                &&& post.conn_id == pre.conn_id
                &&& post.connected_at == pre.connected_at
                &&& post.packet_count == pre.packet_count
                &&& error_matches(post.last_error, pre.last_error)
                &&& post.removal_in_progress == pre.removal_in_progress
            },
            !old(self).is_live(ip@) ==> final(self).connection_health@ == old(
                self,
            ).connection_health@,
            final(self).connected_clients@ == old(self).connected_clients@,
            final(self).connection_handles@ == old(self).connection_handles@,
            final(self).unique_plcs@ == old(self).unique_plcs@,
            final(self).blacklisted_ips@ == old(self).blacklisted_ips@,
            final(self).ip_to_id@ == old(self).ip_to_id@,
            final(self).latest_data@ == old(self).latest_data@,
            final(self).active_connections == old(self).active_connections,
            final(self).total_connection_count == old(self).total_connection_count,
            final(self).next_id == old(self).next_id,
            final(self).is_running == old(self).is_running,
    {
        self.last_data_time = now;
        let prev: u64 = match self.bytes_received.get(ip.as_str()) {
            Some(b) => *b,
            None => 0,
        };
        self.bytes_received.insert(ip.clone(), prev.saturating_add(n));
        match self.connection_health.get(ip.as_str()) {
            Some(h) => {
                let mut updated = clone_health(h);
                updated.last_data_received = now;
                updated.total_bytes = handler_total;
                updated.is_alive = true;
                self.connection_health.insert(ip.clone(), updated);
            },
            None => {},
        }
        proof {
            assert forall|k: Seq<char>| #[trigger]
                self.connection_health@.contains_key(k) implies {
                &&& self.connection_health@[k].ip@ == k
                &&& self.ip_to_id@.contains_key(k)
                &&& self.connection_health@[k].conn_id == self.ip_to_id@[k]
            } by {
                assert(old(self).connection_health@.contains_key(k));
            }
            assert(self.wf());
        }
    }

    /// Per-frame side effects: the peer's packet counter in health is
    /// set to the handler's count, and the packet becomes the peer's
    /// cached last packet.
    pub fn record_packet(&mut self, ip: &String, packet_count: u64, packet: PlcDataPacket)
        requires
            old(self).wf(),
            seq_contains_ip(old(self).unique_plcs@, ip@),
            packet.ip@ == ip@,
        ensures
            final(self).wf(),
            Self::ids_preserved(*old(self), *final(self)),
            final(self).latest_data@.contains_key(ip@),
            final(self).latest_data@[ip@] == packet,
            final(self).latest_data@.remove(ip@) =~= old(self).latest_data@.remove(ip@),
            old(self).is_live(ip@) ==> {
                let pre = old(self).connection_health@[ip@];
                let post = final(self).connection_health@[ip@];
                &&& final(self).connection_health@.contains_key(ip@)
                &&& final(self).connection_health@.remove(ip@) =~= old(
                    self,
                ).connection_health@.remove(ip@)
                &&& post.packet_count == packet_count
                &&& post.last_data_received == pre.last_data_received
                &&& post.total_bytes == pre.total_bytes
                &&& post.is_alive == pre.is_alive
                &&& post.ip@ == pre.ip@
                &&& post.conn_id == pre.conn_id
                &&& post.connected_at == pre.connected_at
                &&& error_matches(post.last_error, pre.last_error)
                &&& post.removal_in_progress == pre.removal_in_progress
            },
            !old(self).is_live(ip@) ==> final(self).connection_health@ == old(
                self,
            ).connection_health@,
            final(self).connected_clients@ == old(self).connected_clients@,
            final(self).connection_handles@ == old(self).connection_handles@,
            final(self).unique_plcs@ == old(self).unique_plcs@,
            final(self).blacklisted_ips@ == old(self).blacklisted_ips@,
            final(self).ip_to_id@ == old(self).ip_to_id@,
            final(self).bytes_received@ == old(self).bytes_received@,
            final(self).last_data_time == old(self).last_data_time,
            final(self).active_connections == old(self).active_connections,
            final(self).total_connection_count == old(self).total_connection_count,
            final(self).next_id == old(self).next_id,
            final(self).is_running == old(self).is_running,
    {
        match self.connection_health.get(ip.as_str()) {
            Some(h) => {
                let mut updated = clone_health(h);
                updated.packet_count = packet_count;
                self.connection_health.insert(ip.clone(), updated);
            },
            None => {},
        }
        self.latest_data.insert(ip.clone(), packet);
        proof {
            assert forall|k: Seq<char>| #[trigger]
                self.connection_health@.contains_key(k) implies {
                &&& self.connection_health@[k].ip@ == k
                &&& self.ip_to_id@.contains_key(k)
                &&& self.connection_health@[k].conn_id == self.ip_to_id@[k]
            } by {
                assert(old(self).connection_health@.contains_key(k));
            }
            assert forall|k: Seq<char>| #[trigger]
                self.latest_data@.contains_key(k) implies seq_contains_ip(self.unique_plcs@, k)
                && self.latest_data@[k].ip@ == k by {
                if k != ip@ {
                    assert(old(self).latest_data@.contains_key(k));
                }
            }
            assert(self.wf());
        }
    }

    /// Records a terminal error on a live peer's health record: the peer
    /// is marked not alive and the message is kept.
    pub fn mark_connection_error(&mut self, ip: &String, error: String)
        requires
            old(self).wf(),
        ensures
            final(self).wf(),
            Self::ids_preserved(*old(self), *final(self)),
            old(self).is_live(ip@) ==> {
                let pre = old(self).connection_health@[ip@];
                let post = final(self).connection_health@[ip@];
                &&& final(self).connection_health@.contains_key(ip@)
                &&& final(self).connection_health@.remove(ip@) =~= old(
                    self,
                ).connection_health@.remove(ip@)
                &&& !post.is_alive
                &&& post.last_error is Some
                &&& post.last_error->0@ == error@
                &&& post.last_data_received == pre.last_data_received
                &&& post.total_bytes == pre.total_bytes
                &&& post.packet_count == pre.packet_count
                &&& post.ip@ == pre.ip@
                &&& post.conn_id == pre.conn_id
                &&& post.connected_at == pre.connected_at
                &&& post.removal_in_progress == pre.removal_in_progress
            },
            !old(self).is_live(ip@) ==> final(self).connection_health@ == old(
                self,
            ).connection_health@,
            only_health_changed(*old(self), *final(self)),
    {
        match self.connection_health.get(ip.as_str()) {
            Some(h) => {
                let mut updated = clone_health(h);
                updated.is_alive = false;
                updated.last_error = Some(error);
                self.connection_health.insert(ip.clone(), updated);
            },
            None => {},
        }
        proof {
            assert forall|k: Seq<char>| #[trigger]
                self.connection_health@.contains_key(k) implies {
                &&& self.connection_health@[k].ip@ == k
                &&& self.ip_to_id@.contains_key(k)
                &&& self.connection_health@[k].conn_id == self.ip_to_id@[k]
            } by {
                assert(old(self).connection_health@.contains_key(k));
            }
            assert(self.wf());
        }
    }
}

} // verus!

verus! {

impl Registry {
    /// Status of an address known to the registry, for queries.
    pub open spec fn plc_status_of(self, k: Seq<char>) -> Seq<char> {
        if self.blacklisted_ips@.contains(k) {
            "blocked"@
        } else if seq_contains_ip(self.connected_clients@, k) {
            "connected"@
        } else {
            "disconnected"@
        }
    }

    /// Aggregate counters and status words.
    pub fn get_connection_stats(&self) -> (r: ConnectionStats)
        ensures
            r.active_connections == self.active_connections,
            r.total_connections == self.unique_plcs@.len(),
            r.last_data_time == self.last_data_time,
            r.server_status@ == if self.is_running {
                "Rodando"@
            } else {
                "Parado"@
            },
            r.plc_status@ == if self.active_connections > 0 {
                "Conectado"@
            } else {
                "Desconectado"@
            },
    {
        ConnectionStats {
            active_connections: self.active_connections,
            total_connections: self.unique_plcs.len() as u64,
            last_data_time: self.last_data_time,
            server_status: if self.is_running {
                "Rodando".to_owned()
            } else {
                "Parado".to_owned()
            },
            plc_status: if self.active_connections > 0 {
                "Conectado".to_owned()
            } else {
                "Desconectado".to_owned()
            },
        }
    }

    /// The connected peers, in admission order.
    pub fn get_connected_clients(&self) -> (r: Vec<String>)
        ensures
            r@.len() == self.connected_clients@.len(),
            forall|i: int| 0 <= i < r@.len() ==> r@[i]@ == self.connected_clients@[i]@,
    {
        let mut r: Vec<String> = Vec::new();
        let mut i: usize = 0;
        while i < self.connected_clients.len()
            invariant
                i <= self.connected_clients@.len(),
                r@.len() == i,
                forall|j: int| 0 <= j < i ==> r@[j]@ == self.connected_clients@[j]@,
            decreases self.connected_clients@.len() - i,
        {
            r.push(self.connected_clients[i].clone());
            i = i + 1;
        }
        r
    }

    /// Every address ever seen, with its present status.
    pub fn get_all_known_plcs(&self) -> (r: Vec<(String, String)>)
        ensures
            r@.len() == self.unique_plcs@.len(),
            forall|i: int|
                0 <= i < r@.len() ==> r@[i].0@ == self.unique_plcs@[i]@ && r@[i].1@
                    == self.plc_status_of(self.unique_plcs@[i]@),
    {
        let mut r: Vec<(String, String)> = Vec::new();
        let mut i: usize = 0;
        while i < self.unique_plcs.len()
            invariant
                i <= self.unique_plcs@.len(),
                r@.len() == i,
                forall|j: int|
                    0 <= j < i ==> r@[j].0@ == self.unique_plcs@[j]@ && r@[j].1@
                        == self.plc_status_of(self.unique_plcs@[j]@),
            decreases self.unique_plcs@.len() - i,
        {
            let ip = &self.unique_plcs[i];
            let status: String = if self.blacklisted_ips.contains(ip.as_str()) {
                "blocked".to_owned()
            } else if vec_contains_ip(&self.connected_clients, ip) {
                "connected".to_owned()
            } else {
                "disconnected".to_owned()
            };
            r.push((ip.clone(), status));
            i = i + 1;
        }
        r
    }

    /// The cached last packet of one peer, if any.
    pub fn get_plc_data(&self, ip: &String) -> (r: Option<PlcDataPacket>)
        ensures
            match r {
                Some(p) => self.latest_data@.contains_key(ip@) && packet_matches(
                    p,
                    self.latest_data@[ip@],
                ),
                None => !self.latest_data@.contains_key(ip@),
            },
    {
        match self.latest_data.get(ip.as_str()) {
            Some(p) => Some(p.clone()),
            None => None,
        }
    }

    /// The cached last packet of every peer that has one: sound (every
    /// pair is a cache entry), complete (every cache entry appears) and
    /// without duplicate keys.
    pub fn get_all_plc_data(&self) -> (r: Vec<(String, PlcDataPacket)>)
        requires
            self.wf(),
        ensures
            forall|i: int|
                0 <= i < r@.len() ==> #[trigger] self.latest_data@.contains_key(r@[i].0@)
                    && packet_matches(r@[i].1, self.latest_data@[r@[i].0@]),
            forall|k: Seq<char>| #[trigger]
                self.latest_data@.contains_key(k) ==> exists|i: int|
                    0 <= i < r@.len() && r@[i].0@ == k,
            forall|a: int, b: int| 0 <= a < b < r@.len() ==> r@[a].0@ != r@[b].0@,
    {
        let mut r: Vec<(String, PlcDataPacket)> = Vec::new();
        let mut i: usize = 0;
        while i < self.unique_plcs.len()
            invariant
                self.wf(),
                i <= self.unique_plcs@.len(),
                forall|j: int|
                    0 <= j < r@.len() ==> #[trigger] self.latest_data@.contains_key(r@[j].0@)
                        && packet_matches(r@[j].1, self.latest_data@[r@[j].0@]),
                forall|j: int|
                    #![trigger r@[j]]
                    0 <= j < r@.len() ==> exists|u: int|
                        0 <= u < i && r@[j].0@ == self.unique_plcs@[u]@,
                forall|a: int, b: int| 0 <= a < b < r@.len() ==> r@[a].0@ != r@[b].0@,
                forall|u: int|
                    #![trigger self.unique_plcs@[u]]
                    0 <= u < i && self.latest_data@.contains_key(self.unique_plcs@[u]@)
                        ==> exists|j: int| 0 <= j < r@.len() && r@[j].0@ == self.unique_plcs@[u]@,
            decreases self.unique_plcs@.len() - i,
        {
            let ip = &self.unique_plcs[i];
            let ghost old_r = r@;
            match self.latest_data.get(ip.as_str()) {
                Some(p) => {
                    r.push((ip.clone(), p.clone()));
                    proof {
                        let n = r@.len() - 1;
                        assert(r@[n].0@ == self.unique_plcs@[i as int]@);
                        assert forall|a: int, b: int| 0 <= a < b < r@.len() implies r@[a].0@
                            != r@[b].0@ by {
                            if b == n {
                                assert(old_r[a] == r@[a]);
                                let u = choose|u: int|
                                    0 <= u < i && old_r[a].0@ == self.unique_plcs@[u]@;
                                assert(self.unique_plcs@[u]@ != self.unique_plcs@[i as int]@);
                            } else {
                                assert(old_r[a] == r@[a] && old_r[b] == r@[b]);
                            }
                        }
                    }
                },
                None => {},
            }
            proof {
                assert forall|u: int|
                    0 <= u < i + 1 && self.latest_data@.contains_key(
                        #[trigger] self.unique_plcs@[u]@,
                    ) implies exists|j: int| 0 <= j < r@.len() && r@[j].0@
                    == self.unique_plcs@[u]@ by {
                    if u < i {
                        let j = choose|j: int|
                            0 <= j < old_r.len() && old_r[j].0@ == self.unique_plcs@[u]@;
                        assert(r@[j] == old_r[j]);
                    } else {
                        assert(r@[r@.len() - 1].0@ == self.unique_plcs@[i as int]@);
                    }
                }
            }
            i = i + 1;
        }
        proof {
            assert forall|k: Seq<char>| #[trigger]
                self.latest_data@.contains_key(k) implies exists|j: int|
                0 <= j < r@.len() && r@[j].0@ == k by {
                assert(seq_contains_ip(self.unique_plcs@, k));
                let u = choose|u: int| 0 <= u < self.unique_plcs@.len() && self.unique_plcs@[u]@
                    == k;
                assert(self.latest_data@.contains_key(self.unique_plcs@[u]@));
            }
        }
        r
    }

    /// Health of every connected peer, with ages derived from `now`.
    pub fn get_connection_health(&self, now: u64) -> (r: Vec<ConnectionHealthInfo>)
        requires
            self.wf(),
        ensures
            r@.len() == self.connected_clients@.len(),
            forall|i: int|
                0 <= i < r@.len() ==> info_of(
                    r@[i],
                    self.connection_health@[self.connected_clients@[i]@],
                    now,
                ),
    {
        let mut r: Vec<ConnectionHealthInfo> = Vec::new();
        let mut i: usize = 0;
        while i < self.connected_clients.len()
            invariant
                self.wf(),
                i <= self.connected_clients@.len(),
                r@.len() == i,
                forall|j: int|
                    0 <= j < i ==> info_of(
                        r@[j],
                        self.connection_health@[self.connected_clients@[j]@],
                        now,
                    ),
            decreases self.connected_clients@.len() - i,
        {
            let ip = &self.connected_clients[i];
            proof {
                assert(seq_contains_ip(self.connected_clients@, ip@));
            }
            match self.connection_health.get(ip.as_str()) {
                Some(h) => {
                    r.push(h.to_info(now));
                },
                None => {
                    proof {
                        assert(false);
                    }
                },
            }
            i = i + 1;
        }
        r
    }

    /// The cumulative byte counter of every peer that has one: sound,
    /// complete and without duplicate keys.
    pub fn get_bytes_received(&self) -> (r: Vec<(String, u64)>)
        requires
            self.wf(),
        ensures
            forall|i: int|
                0 <= i < r@.len() ==> #[trigger] self.bytes_received@.contains_key(r@[i].0@)
                    && r@[i].1 == self.bytes_received@[r@[i].0@],
            forall|k: Seq<char>| #[trigger]
                self.bytes_received@.contains_key(k) ==> exists|i: int|
                    0 <= i < r@.len() && r@[i].0@ == k,
            forall|a: int, b: int| 0 <= a < b < r@.len() ==> r@[a].0@ != r@[b].0@,
    {
        let mut r: Vec<(String, u64)> = Vec::new();
        let mut i: usize = 0;
        while i < self.unique_plcs.len()
            invariant
                self.wf(),
                i <= self.unique_plcs@.len(),
                forall|j: int|
                    0 <= j < r@.len() ==> #[trigger] self.bytes_received@.contains_key(r@[j].0@)
                        && r@[j].1 == self.bytes_received@[r@[j].0@],
                forall|j: int|
                    #![trigger r@[j]]
                    0 <= j < r@.len() ==> exists|u: int|
                        0 <= u < i && r@[j].0@ == self.unique_plcs@[u]@,
                forall|a: int, b: int| 0 <= a < b < r@.len() ==> r@[a].0@ != r@[b].0@,
                forall|u: int|
                    #![trigger self.unique_plcs@[u]]
                    0 <= u < i && self.bytes_received@.contains_key(self.unique_plcs@[u]@)
                        ==> exists|j: int| 0 <= j < r@.len() && r@[j].0@ == self.unique_plcs@[u]@,
            decreases self.unique_plcs@.len() - i,
        {
            let ip = &self.unique_plcs[i];
            let ghost old_r = r@;
            match self.bytes_received.get(ip.as_str()) {
                Some(b) => {
                    r.push((ip.clone(), *b));
                    proof {
                        let n = r@.len() - 1;
                        assert(r@[n].0@ == self.unique_plcs@[i as int]@);
                        assert forall|a: int, b2: int| 0 <= a < b2 < r@.len() implies r@[a].0@
                            != r@[b2].0@ by {
                            if b2 == n {
                                assert(old_r[a] == r@[a]);
                                let u = choose|u: int|
                                    0 <= u < i && old_r[a].0@ == self.unique_plcs@[u]@;
                                assert(self.unique_plcs@[u]@ != self.unique_plcs@[i as int]@);
                            } else {
                                assert(old_r[a] == r@[a] && old_r[b2] == r@[b2]);
                            }
                        }
                    }
                },
                None => {},
            }
            proof {
                assert forall|u: int|
                    0 <= u < i + 1 && self.bytes_received@.contains_key(
                        #[trigger] self.unique_plcs@[u]@,
                    ) implies exists|j: int| 0 <= j < r@.len() && r@[j].0@
                    == self.unique_plcs@[u]@ by {
                    if u < i {
                        let j = choose|j: int|
                            0 <= j < old_r.len() && old_r[j].0@ == self.unique_plcs@[u]@;
                        assert(r@[j] == old_r[j]);
                    } else {
                        assert(r@[r@.len() - 1].0@ == self.unique_plcs@[i as int]@);
                    }
                }
            }
            i = i + 1;
        }
        proof {
            assert forall|k: Seq<char>| #[trigger]
                self.bytes_received@.contains_key(k) implies exists|j: int|
                0 <= j < r@.len() && r@[j].0@ == k by {
                assert(seq_contains_ip(self.unique_plcs@, k));
                let u = choose|u: int| 0 <= u < self.unique_plcs@.len() && self.unique_plcs@[u]@
                    == k;
                assert(self.bytes_received@.contains_key(self.unique_plcs@[u]@));
            }
        }
        r
    }
}

} // verus!
