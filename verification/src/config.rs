//! The configuration the root runs under: its own address, and the
//! allow-list of nodes that may connect.

use crate::address::Address;
use vstd::prelude::*;

verus! {

/// Where the root listens for nodes.
#[derive(Clone, Copy, Debug, PartialEq, Eq, Structural)]
pub struct Root {
    pub ip: Address,
    pub port: u16,
}

/// One entry of the allow-list: a node id and the address it must connect
/// from.
#[derive(Clone, Copy, Debug, PartialEq, Eq, Structural)]
pub struct Node {
    pub id: u32,
    pub ip: Address,
}

/// The whole configuration. It is loaded once and never changes.
#[derive(Clone, Debug)]
pub struct Config {
    pub root: Root,
    pub nodes: Vec<Node>,
}

/// Whether some entry of `nodes` has the address `ip`, whatever its id.
pub open spec fn address_listed(nodes: Seq<Node>, ip: Address) -> bool {
    exists|i: int| 0 <= i < nodes.len() && (#[trigger] nodes[i]).ip == ip
}

/// Whether `nodes` has the entry of this very id and address.
pub open spec fn pair_listed(nodes: Seq<Node>, id: u32, ip: Address) -> bool {
    exists|i: int| 0 <= i < nodes.len() && #[trigger] nodes[i] == (Node { id, ip })
}

/// Executable form of [`address_listed`].
pub fn allows_address(nodes: &Vec<Node>, ip: &Address) -> (listed: bool)
    ensures
        listed == address_listed(nodes@, *ip),
{
    let mut i: usize = 0;
    while i < nodes.len()
        invariant
            i <= nodes.len(),
            forall|j: int| 0 <= j < i ==> (#[trigger] nodes@[j]).ip != *ip,
        decreases nodes.len() - i,
    {
        if nodes[i].ip == *ip {
            return true;
        }
        i += 1;
    }
    false
}

/// Executable form of [`pair_listed`].
pub fn allows_pair(nodes: &Vec<Node>, id: u32, ip: &Address) -> (listed: bool)
    ensures
        listed == pair_listed(nodes@, id, *ip),
{
    let mut i: usize = 0;
    while i < nodes.len()
        invariant
            i <= nodes.len(),
            forall|j: int| 0 <= j < i ==> #[trigger] nodes@[j] != (Node { id, ip: *ip }),
        decreases nodes.len() - i,
    {
        if nodes[i].id == id && nodes[i].ip == *ip {
            return true;
        }
        i += 1;
    }
    false
}

impl Config {
    /// Whether the allow-list has an entry with the address `ip`.
    pub fn allows_address(&self, ip: &Address) -> (listed: bool)
        ensures
            listed == address_listed(self.nodes@, *ip),
    {
        allows_address(&self.nodes, ip)
    }

    /// Whether the allow-list has the entry `(id, ip)`.
    pub fn allows_pair(&self, id: u32, ip: &Address) -> (listed: bool)
        ensures
            listed == pair_listed(self.nodes@, id, *ip),
    {
        allows_pair(&self.nodes, id, ip)
    }
}

} // verus!
