//! The registry's lifecycle laws, stated and checked for every
//! reachable state and every address.

use vstd::prelude::*;
use crate::registry::{AcceptDecision, Registry};

verus! {

/// In every well-formed registry the active-connection counter equals
/// the number of connected peers, and so never goes below zero; the
/// removal paths decrement it saturating at zero.
pub proof fn lemma_active_matches_connected(r: Registry)
    requires
        r.wf(),
    ensures
        r.active_connections == r.connected_clients@.len(),
        r.active_connections >= 0,
{
}

/// Id stability composes: if two state changes each preserve every
/// assigned id, so does their composition. With every registry
/// operation ensuring `ids_preserved`, an address's id is fixed for the
/// server's lifetime once assigned.
pub proof fn lemma_ids_preserved_transitive(a: Registry, b: Registry, c: Registry)
    requires
        Registry::ids_preserved(a, b),
        Registry::ids_preserved(b, c),
    ensures
        Registry::ids_preserved(a, c),
{
}

/// Law: a forced disconnect followed by an allow-reconnect lets the
/// peer in again, and the new admission carries the very id the address
/// was first assigned. Checked for every well-formed registry in which
/// the address ever had an id.
pub fn reconnect_preserves_id(reg: &mut Registry, ip: &String, now: u64) -> (d: AcceptDecision)
    requires
        old(reg).wf(),
        old(reg).next_id < u64::MAX,
        old(reg).ip_to_id@.contains_key(ip@),
    ensures
        final(reg).wf(),
        d matches AcceptDecision::Accepted { conn_id, .. } && conn_id == old(reg).ip_to_id@[ip@],
{
    let _ = reg.disconnect_client(ip);
    let _ = reg.allow_reconnect(ip);
    reg.accept_peer(ip, now)
}

/// Law: after a forced disconnect alone, an accept from the same
/// address is refused, whatever the registry held before.
pub fn blacklist_refuses_accept(reg: &mut Registry, ip: &String, now: u64) -> (d: AcceptDecision)
    requires
        old(reg).wf(),
        old(reg).next_id < u64::MAX,
    ensures
        final(reg).wf(),
        d == AcceptDecision::Refused,
{
    let _ = reg.disconnect_client(ip);
    reg.accept_peer(ip, now)
}

} // verus!
