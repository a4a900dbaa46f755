//! One node connection from handshake to disconnect: what it does to the
//! registry, and what each read from it means.

use crate::address::Address;
use crate::config::Node;
use crate::handshake::{admission, str_view, validate, Rejection};
use crate::registry::{NodeRecord, Registry};
use vstd::prelude::*;

verus! {

/// The far end of a connection: its address, as the allow-list compares it,
/// and the same address as text, as records and log lines show it.
#[derive(Debug)]
pub struct Peer {
    pub address: Address,
    pub text: String,
}

/// What registering a node did.
#[derive(Clone, Copy, Debug, PartialEq, Eq, Structural)]
pub struct Registered {
    /// Whether the id had a record already, which the new one replaced.
    pub replaced: bool,
    /// How many nodes are registered now.
    pub active: usize,
}

/// A connection that passed the handshake and has its record.
#[derive(Clone, Copy, Debug, PartialEq, Eq, Structural)]
pub struct Admitted {
    /// The node id that the connection proved.
    pub id: u32,
    /// Whether the id had a record already, which the new one replaced.
    pub replaced: bool,
    /// How many nodes are registered now.
    pub active: usize,
}

/// What the session does after one read from its connection.
#[derive(Clone, Copy, Debug, PartialEq, Eq, Structural)]
pub enum ReadStep {
    /// Bytes arrived, this many: forward them to the node's log and read
    /// again.
    Forward(usize),
    /// The peer closed the connection: the session ends.
    Disconnected,
    /// The read failed: the session ends.
    Failed,
}

/// Whether `after` is `before` with the record of `id` put in place, its
/// address `ip` and its time of connection whatever the clock gave.
pub open spec fn registered_in(
    before: Map<u32, NodeRecord>,
    after: Map<u32, NodeRecord>,
    id: u32,
    ip: Seq<char>,
) -> bool {
    after == before.insert(id, NodeRecord { id, ip, connected_at: after[id].connected_at })
}

/// Registers node `id`, connected from `ip` at `connected_at`, in place of
/// the record it may have had.
pub fn register_node_at(
    active_nodes: &mut Registry,
    id: u32,
    ip: &str,
    connected_at: String,
) -> (done: Registered)
    ensures
        final(active_nodes)@ == old(active_nodes)@.insert(
            id,
            NodeRecord { id, ip: ip@, connected_at: connected_at@ },
        ),
        done.replaced == old(active_nodes)@.contains_key(id),
        done.active == final(active_nodes)@.len(),
{
    let replaced = active_nodes.contains(id);
    let active = active_nodes.register_at(id, ip, connected_at);
    Registered { replaced, active }
}

/// Registers node `id`, connected from `ip` at this moment, in place of the
/// record it may have had.
pub fn register_node(active_nodes: &mut Registry, id: u32, ip: &str) -> (done: Registered)
    ensures
        registered_in(old(active_nodes)@, final(active_nodes)@, id, ip@),
        done.replaced == old(active_nodes)@.contains_key(id),
        done.active == final(active_nodes)@.len(),
{
    let replaced = active_nodes.contains(id);
    let active = active_nodes.register(id, ip);
    Registered { replaced, active }
}

/// Removes the record of node `id` and returns how many nodes are left.
/// Without a record nothing changes. The record is found by id alone: a
/// session that outlived a later one of the same id removes the later
/// session's record.
pub fn unregister_node(active_nodes: &mut Registry, id: u32) -> (active: usize)
    ensures
        final(active_nodes)@ == old(active_nodes)@.remove(id),
        !old(active_nodes)@.contains_key(id) ==> final(active_nodes)@ == old(active_nodes)@,
        active == final(active_nodes)@.len(),
{
    active_nodes.unregister(id);
    active_nodes.len()
}

/// Takes a new connection through handshake and registration, with the
/// given time of connection. A connection that is turned away leaves the
/// registry as it was.
pub fn handle_node_at(
    active_nodes: &mut Registry,
    config_nodes: &Vec<Node>,
    peer: &Peer,
    line: Option<&str>,
    connected_at: String,
) -> (outcome: Result<Admitted, Rejection>)
    ensures
        match admission(config_nodes@, peer.address, str_view(line)) {
            Err(reason) => outcome == Err::<Admitted, Rejection>(reason) && final(active_nodes)@
                == old(active_nodes)@,
            Ok(id) => outcome == Ok::<Admitted, Rejection>(
                Admitted {
                    id,
                    replaced: old(active_nodes)@.contains_key(id),
                    active: final(active_nodes)@.len() as usize,
                },
            ) && final(active_nodes)@ == old(active_nodes)@.insert(
                id,
                NodeRecord { id, ip: peer.text@, connected_at: connected_at@ },
            ),
        },
{
    match validate(config_nodes, &peer.address, line) {
        Err(reason) => Err(reason),
        Ok(id) => {
            let done = register_node_at(active_nodes, id, peer.text.as_str(), connected_at);
            Ok(Admitted { id, replaced: done.replaced, active: done.active })
        },
    }
}

/// Takes a new connection through handshake and registration: `line` is
/// what the handshake read, `peer` who sent it. A connection that is turned
/// away leaves the registry as it was; one that is let in has its record,
/// stamped with this moment.
pub fn handle_node(
    active_nodes: &mut Registry,
    config_nodes: &Vec<Node>,
    peer: &Peer,
    line: Option<&str>,
) -> (outcome: Result<Admitted, Rejection>)
    ensures
        match admission(config_nodes@, peer.address, str_view(line)) {
            Err(reason) => outcome == Err::<Admitted, Rejection>(reason) && final(active_nodes)@
                == old(active_nodes)@,
            Ok(id) => outcome == Ok::<Admitted, Rejection>(
                Admitted {
                    id,
                    replaced: old(active_nodes)@.contains_key(id),
                    active: final(active_nodes)@.len() as usize,
                },
            ) && registered_in(old(active_nodes)@, final(active_nodes)@, id, peer.text@),
        },
{
    match validate(config_nodes, &peer.address, line) {
        Err(reason) => Err(reason),
        Ok(id) => {
            let done = register_node(active_nodes, id, peer.text.as_str());
            Ok(Admitted { id, replaced: done.replaced, active: done.active })
        },
    }
}

/// Decides what follows one read in a session's receive loop: `read` holds
/// the number of bytes that arrived, or nothing where the read failed.
pub fn read_step(read: Option<usize>) -> (step: ReadStep)
    ensures
        step == match read {
            None => ReadStep::Failed,
            Some(n) => if n == 0 {
                ReadStep::Disconnected
            } else {
                ReadStep::Forward(n)
            },
        },
{
    match read {
        None => ReadStep::Failed,
        Some(n) => if n == 0 {
            ReadStep::Disconnected
        } else {
            ReadStep::Forward(n)
        },
    }
}

impl ReadStep {
    /// Whether the session goes on reading after this step.
    pub fn continues(&self) -> (more: bool)
        ensures
            more == (*self is Forward),
    {
        match self {
            ReadStep::Forward(_) => true,
            ReadStep::Disconnected => false,
            ReadStep::Failed => false,
        }
    }
}

} // verus!
