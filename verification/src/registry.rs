//! The registry of connected nodes: which node ids have a live session, from
//! which address, since when.

use crate::clock::local_timestamp;
use std::collections::HashMap;
use vstd::prelude::*;

verus! {

broadcast use vstd::std_specs::hash::group_hash_axioms;

/// What the registry holds about one connected node.
#[derive(Debug, Clone)]
pub struct NodeInfo {
    pub id: u32,
    pub ip: String,
    pub connected_at: String,
}

/// A node's record as contracts speak of it: the texts as sequences of
/// characters.
pub struct NodeRecord {
    pub id: u32,
    pub ip: Seq<char>,
    pub connected_at: Seq<char>,
}

impl View for NodeInfo {
    type V = NodeRecord;

    open spec fn view(&self) -> NodeRecord {
        NodeRecord { id: self.id, ip: self.ip@, connected_at: self.connected_at@ }
    }
}

/// The views of a list of records.
pub open spec fn records_view(records: Seq<NodeInfo>) -> Seq<NodeRecord> {
    records.map_values(|r: NodeInfo| r@)
}

/// A registry's contents are sound when there are finitely many records and
/// each is filed under its own id.
pub open spec fn well_keyed(m: Map<u32, NodeRecord>) -> bool {
    &&& m.dom().finite()
    &&& forall|k: u32| m.contains_key(k) ==> (#[trigger] m[k]).id == k
}

/// The records of `m` whose ids are below `bound`, by ascending id.
pub open spec fn records_below(m: Map<u32, NodeRecord>, bound: nat) -> Seq<NodeRecord>
    decreases bound,
{
    if bound == 0 {
        Seq::empty()
    } else {
        let lower = records_below(m, (bound - 1) as nat);
        let k = (bound - 1) as u32;
        if m.contains_key(k) {
            lower.push(m[k])
        } else {
            lower
        }
    }
}

/// All the records of `m`, by ascending id.
pub open spec fn ascending(m: Map<u32, NodeRecord>) -> Seq<NodeRecord> {
    records_below(m, 0x1_0000_0000)
}

/// Whether `ids` ascends strictly.
pub open spec fn strictly_ascending(ids: Seq<u32>) -> bool {
    forall|i: int, j: int| 0 <= i < j < ids.len() ==> ids[i] < ids[j]
}

/// A list of records that follows a strictly ascending list of the ids below
/// `bound` is the listing that `records_below` defines.
proof fn lemma_listing_is_unique(
    m: Map<u32, NodeRecord>,
    ids: Seq<u32>,
    records: Seq<NodeRecord>,
    bound: nat,
)
    requires
        bound <= 0x1_0000_0000,
        strictly_ascending(ids),
        forall|k: u32| ids.contains(k) <==> (m.contains_key(k) && k < bound),
        records.len() == ids.len(),
        forall|j: int| 0 <= j < ids.len() ==> records[j] == m[#[trigger] ids[j]],
    ensures
        records == records_below(m, bound),
    decreases bound,
{
    if bound == 0 {
        if ids.len() > 0 {
            assert(ids.contains(ids[0]));
        }
        assert(records =~= Seq::empty());
    } else {
        let k = (bound - 1) as u32;
        let last = ids.len() - 1;
        if m.contains_key(k) {
            assert(ids.contains(k));
            let at = choose|i: int| 0 <= i < ids.len() && ids[i] == k;
            if at < last {
                assert(ids.contains(ids[last]));
            }
            let lower_ids = ids.drop_last();
            let lower = records.drop_last();
            assert forall|x: u32| lower_ids.contains(x) <==> (m.contains_key(x) && x < bound
                - 1) by {
                if lower_ids.contains(x) {
                    let i = choose|i: int| 0 <= i < lower_ids.len() && lower_ids[i] == x;
                    assert(ids[i] == x);
                    assert(ids.contains(x));
                }
                if m.contains_key(x) && x < bound - 1 {
                    assert(ids.contains(x));
                    let i = choose|i: int| 0 <= i < ids.len() && ids[i] == x;
                    assert(lower_ids[i] == x);
                }
            }
            assert forall|j: int| 0 <= j < lower_ids.len() implies lower[j] == m[#[trigger] lower_ids[j]] by {
                assert(lower[j] == records[j]);
                assert(lower_ids[j] == ids[j]);
            }
            lemma_listing_is_unique(m, lower_ids, lower, (bound - 1) as nat);
            assert(records =~= lower.push(m[k]));
        } else {
            lemma_listing_is_unique(m, ids, records, (bound - 1) as nat);
        }
    }
}

/// What `records_below` lists: each record of `m` with an id below `bound`,
/// once, the ids strictly ascending.
pub proof fn lemma_records_below(m: Map<u32, NodeRecord>, bound: nat)
    requires
        well_keyed(m),
        bound <= 0x1_0000_0000,
    ensures
        forall|i: int, j: int|
            0 <= i < j < records_below(m, bound).len() ==> records_below(m, bound)[i].id
                < records_below(m, bound)[j].id,
        forall|i: int|
            0 <= i < records_below(m, bound).len() ==> {
                let r = #[trigger] records_below(m, bound)[i];
                r.id < bound && m.contains_key(r.id) && m[r.id] == r
            },
        forall|k: u32|
            m.contains_key(k) && k < bound ==> records_below(m, bound).contains(#[trigger] m[k]),
    decreases bound,
{
    if bound > 0 {
        let lower = records_below(m, (bound - 1) as nat);
        let k = (bound - 1) as u32;
        lemma_records_below(m, (bound - 1) as nat);
        let all = records_below(m, bound);
        if m.contains_key(k) {
            assert(all == lower.push(m[k]));
            assert(all[lower.len() as int] == m[k]);
            assert forall|x: u32| m.contains_key(x) && x < bound implies all.contains(
                #[trigger] m[x],
            ) by {
                if x < bound - 1 {
                    let i = choose|i: int| 0 <= i < lower.len() && lower[i] == m[x];
                    assert(all[i] == m[x]);
                }
            }
        }
    }
}

/// The ids of `m` below `bound`.
pub open spec fn ids_below(m: Map<u32, NodeRecord>, bound: nat) -> Set<u32> {
    m.dom().filter(|k: u32| k < bound)
}

/// `records_below` lists as many records as `m` has ids below `bound`; the
/// whole listing has as many as `m` has records.
pub proof fn lemma_listing_len(m: Map<u32, NodeRecord>, bound: nat)
    requires
        m.dom().finite(),
        bound <= 0x1_0000_0000,
    ensures
        ids_below(m, bound).finite(),
        records_below(m, bound).len() == ids_below(m, bound).len(),
        bound == 0x1_0000_0000 ==> records_below(m, bound).len() == m.len(),
    decreases bound,
{
    m.dom().lemma_len_filter(|k: u32| k < bound);
    if bound == 0 {
        assert(ids_below(m, bound) =~= Set::empty());
    } else {
        let k = (bound - 1) as u32;
        lemma_listing_len(m, (bound - 1) as nat);
        let lower = ids_below(m, (bound - 1) as nat);
        if m.contains_key(k) {
            assert(ids_below(m, bound) =~= lower.insert(k));
        } else {
            assert(ids_below(m, bound) =~= lower);
        }
    }
    if bound == 0x1_0000_0000 {
        assert(ids_below(m, bound) =~= m.dom());
    }
}

/// One change to the registry's contents.
pub enum Change {
    Register { id: u32, ip: Seq<char>, connected_at: Seq<char> },
    Unregister { id: u32 },
}

/// The contents after one change.
pub open spec fn apply(m: Map<u32, NodeRecord>, change: Change) -> Map<u32, NodeRecord> {
    match change {
        Change::Register { id, ip, connected_at } => m.insert(
            id,
            NodeRecord { id, ip, connected_at },
        ),
        Change::Unregister { id } => m.remove(id),
    }
}

/// The contents after a sequence of changes to an empty registry.
pub open spec fn replay(changes: Seq<Change>) -> Map<u32, NodeRecord>
    decreases changes.len(),
{
    if changes.len() == 0 {
        Map::empty()
    } else {
        apply(replay(changes.drop_last()), changes.last())
    }
}

/// Whether `change` registers `id`.
pub open spec fn registers(change: Change, id: u32) -> bool {
    change matches Change::Register { id: registered, .. } && registered == id
}

/// Whether `change` unregisters `id`.
pub open spec fn unregisters(change: Change, id: u32) -> bool {
    change matches Change::Unregister { id: removed } && removed == id
}

/// Whether `id` is registered once `changes` have happened in order: one of
/// them registered it, and none after that one unregistered it.
pub open spec fn registered_after(changes: Seq<Change>, id: u32) -> bool {
    exists|i: int|
        0 <= i < changes.len() && #[trigger] registers(changes[i], id) && forall|j: int|
            i < j < changes.len() ==> !unregisters(#[trigger] changes[j], id)
}

/// After any sequence of changes the contents are sound, and hold a record
/// for exactly the ids that are registered then.
pub proof fn lemma_replay_holds_registered(changes: Seq<Change>)
    ensures
        well_keyed(replay(changes)),
        forall|id: u32| replay(changes).contains_key(id) <==> registered_after(changes, id),
    decreases changes.len(),
{
    if changes.len() > 0 {
        let earlier = changes.drop_last();
        let change = changes.last();
        let n = earlier.len() as int;
        lemma_replay_holds_registered(earlier);
        assert forall|id: u32| replay(changes).contains_key(id) <==> registered_after(
            changes,
            id,
        ) by {
            if registered_after(changes, id) {
                let i = choose|i: int|
                    0 <= i < changes.len() && #[trigger] registers(changes[i], id) && forall|j: int|
                        i < j < changes.len() ==> !unregisters(#[trigger] changes[j], id);
                if i < n {
                    assert(registers(earlier[i], id));
                    assert forall|j: int| i < j < earlier.len() implies !unregisters(
                        #[trigger] earlier[j],
                        id,
                    ) by {
                        assert(earlier[j] == changes[j]);
                    }
                    assert(registered_after(earlier, id));
                    assert(!unregisters(changes[n], id));
                }
            }
            if replay(changes).contains_key(id) {
                if registers(change, id) {
                    assert(registers(changes[n], id));
                } else {
                    assert(registered_after(earlier, id));
                    let i = choose|i: int|
                        0 <= i < earlier.len() && #[trigger] registers(earlier[i], id)
                            && forall|j: int|
                            i < j < earlier.len() ==> !unregisters(#[trigger] earlier[j], id);
                    assert(registers(changes[i], id));
                    assert forall|j: int| i < j < changes.len() implies !unregisters(
                        #[trigger] changes[j],
                        id,
                    ) by {
                        if j < n {
                            assert(earlier[j] == changes[j]);
                        }
                    }
                }
            }
        }
    }
}

/// After any sequence of registrations and removals, the snapshot lists
/// exactly the ids that are registered then, each once, in ascending order.
pub proof fn lemma_snapshot_lists_registered(changes: Seq<Change>)
    ensures
        forall|i: int, j: int|
            0 <= i < j < ascending(replay(changes)).len() ==> ascending(replay(changes))[i].id
                < ascending(replay(changes))[j].id,
        forall|id: u32|
            registered_after(changes, id) <==> exists|i: int|
                0 <= i < ascending(replay(changes)).len() && (#[trigger] ascending(
                    replay(changes),
                )[i]).id == id,
        ascending(replay(changes)).len() == replay(changes).len(),
{
    let m = replay(changes);
    let listing = ascending(m);
    lemma_replay_holds_registered(changes);
    lemma_records_below(m, 0x1_0000_0000);
    lemma_listing_len(m, 0x1_0000_0000);
    assert forall|id: u32| registered_after(changes, id) <==> exists|i: int|
        0 <= i < listing.len() && (#[trigger] listing[i]).id == id by {
        if registered_after(changes, id) {
            assert(listing.contains(m[id]));
            let i = choose|i: int| 0 <= i < listing.len() && listing[i] == m[id];
            assert(listing[i].id == id);
        }
    }
}

/// Registering an id that has a record replaces that record and adds none:
/// the count stays, and the snapshot differs in that one record alone.
pub proof fn lemma_reregister_replaces(
    m: Map<u32, NodeRecord>,
    id: u32,
    ip: Seq<char>,
    connected_at: Seq<char>,
)
    requires
        well_keyed(m),
        m.contains_key(id),
    ensures
        ({
            let record = NodeRecord { id, ip, connected_at };
            let after = m.insert(id, record);
            &&& after.len() == m.len()
            &&& ascending(after).len() == ascending(m).len()
            &&& forall|i: int|
                0 <= i < ascending(m).len() ==> #[trigger] ascending(after)[i] == if ascending(
                    m,
                )[i].id == id {
                    record
                } else {
                    ascending(m)[i]
                }
        }),
{
    let record = NodeRecord { id, ip, connected_at };
    let after = m.insert(id, record);
    assert(after.dom() =~= m.dom());
    lemma_replaced_below(m, id, record, 0x1_0000_0000);
}

/// `lemma_reregister_replaces`, for the records below `bound`.
proof fn lemma_replaced_below(m: Map<u32, NodeRecord>, id: u32, record: NodeRecord, bound: nat)
    requires
        well_keyed(m),
        m.contains_key(id),
        bound <= 0x1_0000_0000,
    ensures
        records_below(m.insert(id, record), bound).len() == records_below(m, bound).len(),
        forall|i: int|
            0 <= i < records_below(m, bound).len() ==> #[trigger] records_below(
                m.insert(id, record),
                bound,
            )[i] == if records_below(m, bound)[i].id == id {
                record
            } else {
                records_below(m, bound)[i]
            },
    decreases bound,
{
    if bound > 0 {
        lemma_replaced_below(m, id, record, (bound - 1) as nat);
    }
}

/// Puts `id` into `ids` at the place that keeps them ascending.
fn insert_ascending(ids: &mut Vec<u32>, id: u32)
    requires
        strictly_ascending(old(ids)@),
        !old(ids)@.contains(id),
    ensures
        strictly_ascending(final(ids)@),
        final(ids)@.len() == old(ids)@.len() + 1,
        forall|k: u32| final(ids)@.contains(k) <==> (k == id || old(ids)@.contains(k)),
{
    let mut at: usize = 0;
    while at < ids.len() && ids[at] < id
        invariant
            at <= ids.len(),
            *ids == *old(ids),
            forall|i: int| 0 <= i < at ==> ids@[i] < id,
        decreases ids.len() - at,
    {
        at += 1;
    }
    proof {
        if at < ids.len() {
            assert(ids@.contains(ids@[at as int]));
        }
    }
    ids.insert(at, id);
    proof {
        let before = old(ids)@;
        let after = ids@;
        assert forall|k: u32| after.contains(k) <==> (k == id || before.contains(k)) by {
            if after.contains(k) {
                let i = choose|i: int| 0 <= i < after.len() && after[i] == k;
                if i < at {
                    assert(before[i] == k);
                } else if i > at {
                    assert(before[i - 1] == k);
                }
            }
            if k == id {
                assert(after[at as int] == k);
            }
            if before.contains(k) {
                let i = choose|i: int| 0 <= i < before.len() && before[i] == k;
                if i < at {
                    assert(after[i] == k);
                } else {
                    assert(after[i + 1] == k);
                }
            }
        }
    }
}

/// The mapping from node id to record. It is changed by `register` and
/// `unregister` alone and read through `snapshot`.
pub struct Registry {
    nodes: HashMap<u32, NodeInfo>,
}

impl View for Registry {
    type V = Map<u32, NodeRecord>;

    closed spec fn view(&self) -> Map<u32, NodeRecord> {
        Map::new(
            |k: u32| self.nodes@.contains_key(k),
            |k: u32|
                NodeRecord {
                    id: k,
                    ip: self.nodes@[k].ip@,
                    connected_at: self.nodes@[k].connected_at@,
                },
        )
    }
}

impl Registry {
    /// Every registry's contents are sound.
    pub proof fn lemma_well_keyed(&self)
        ensures
            well_keyed(self@),
    {
        assert(self@.dom() =~= self.nodes@.dom());
    }

    /// An empty registry.
    pub fn new() -> (registry: Registry)
        ensures
            registry@ == Map::<u32, NodeRecord>::empty(),
    {
        let registry = Registry { nodes: HashMap::new() };
        assert(registry@ =~= Map::<u32, NodeRecord>::empty());
        registry
    }

    /// How many nodes are registered.
    pub fn len(&self) -> (n: usize)
        ensures
            n == self@.len(),
            well_keyed(self@),
    {
        proof {
            assert(self@.dom() =~= self.nodes@.dom());
        }
        self.nodes.len()
    }

    /// Whether `id` has a record.
    pub fn contains(&self, id: u32) -> (b: bool)
        ensures
            b == self@.contains_key(id),
    {
        self.nodes.contains_key(&id)
    }

    /// The ids that have a record, ascending.
    fn ascending_ids(&self) -> (ids: Vec<u32>)
        ensures
            strictly_ascending(ids@),
            forall|k: u32| ids@.contains(k) <==> self@.contains_key(k),
    {
        let mut ids: Vec<u32> = Vec::new();
        for key in it: self.nodes.keys()
            invariant
                strictly_ascending(ids@),
                it.seq().no_duplicates(),
                it.seq().unref().to_set() == self.nodes@.dom(),
                forall|k: u32|
                    ids@.contains(k) <==> exists|j: int|
                        0 <= j < it.index() && *(#[trigger] it.seq()[j]) == k,
                it.index() == it.seq().len() ==> forall|k: u32|
                    ids@.contains(k) <==> self@.contains_key(k),
        {
            let ghost seen = ids@;
            proof {
                if ids@.contains(*key) {
                    let j = choose|j: int| 0 <= j < it.index() && *(#[trigger] it.seq()[j]) == *key;
                    assert(it.seq()[j] == it.seq()[it.index()]);
                }
            }
            insert_ascending(&mut ids, *key);
            proof {
                let n = it.index() + 1;
                assert forall|k: u32| ids@.contains(k) <==> exists|j: int|
                    0 <= j < n && *(#[trigger] it.seq()[j]) == k by {
                    if ids@.contains(k) && k != *key {
                        assert(seen.contains(k));
                    }
                    if k == *key {
                        assert(*it.seq()[it.index()] == k);
                    }
                    if exists|j: int| 0 <= j < n && *(#[trigger] it.seq()[j]) == k {
                        let j = choose|j: int| 0 <= j < n && *(#[trigger] it.seq()[j]) == k;
                        if j < it.index() {
                            assert(seen.contains(k));
                        }
                    }
                }
                assert forall|k: u32| n == it.seq().len() implies (ids@.contains(k)
                    <==> self@.contains_key(k)) by {
                    let keys = it.seq().unref();
                    if ids@.contains(k) {
                        let j = choose|j: int| 0 <= j < n && *(#[trigger] it.seq()[j]) == k;
                        assert(keys[j] == k);
                        assert(keys.to_set().contains(k));
                    }
                    if self@.contains_key(k) {
                        assert(keys.to_set().contains(k));
                        let j = choose|j: int| 0 <= j < keys.len() && keys[j] == k;
                        assert(*it.seq()[j] == k);
                    }
                }
            }
        }
        ids
    }

    /// Whether no node is registered.
    pub fn is_empty(&self) -> (b: bool)
        ensures
            b == (self@.len() == 0),
            well_keyed(self@),
    {
        self.len() == 0
    }

    /// All current records, by ascending id.
    pub fn snapshot(&self) -> (records: Vec<NodeInfo>)
        ensures
            records_view(records@) == ascending(self@),
            well_keyed(self@),
    {
        let ids = self.ascending_ids();
        let mut records: Vec<NodeInfo> = Vec::new();
        let mut i: usize = 0;
        while i < ids.len()
            invariant
                i <= ids.len(),
                records@.len() == i,
                forall|k: u32| ids@.contains(k) <==> self@.contains_key(k),
                forall|j: int| 0 <= j < i ==> records@[j]@ == self@[#[trigger] ids@[j]],
            decreases ids.len() - i,
        {
            let id = ids[i];
            assert(ids@.contains(id));
            if let Some(info) = self.nodes.get(&id) {
                records.push(
                    NodeInfo { id, ip: info.ip.clone(), connected_at: info.connected_at.clone() },
                );
            }
            i += 1;
        }
        proof {
            self.lemma_well_keyed();
            lemma_listing_is_unique(self@, ids@, records_view(records@), 0x1_0000_0000);
        }
        records
    }

    /// Files a record for `id` under the given address and time of
    /// connection, in place of the one it may have had. Returns the number of
    /// records afterwards.
    pub fn register_at(&mut self, id: u32, ip: &str, connected_at: String) -> (size: usize)
        ensures
            final(self)@ == old(self)@.insert(
                id,
                NodeRecord { id, ip: ip@, connected_at: connected_at@ },
            ),
            size == final(self)@.len(),
            size == if old(self)@.contains_key(id) {
                old(self)@.len()
            } else {
                old(self)@.len() + 1
            },
            well_keyed(final(self)@),
    {
        let info = NodeInfo { id, ip: ip.to_owned(), connected_at };
        self.nodes.insert(id, info);
        proof {
            assert(self@ =~= old(self)@.insert(
                id,
                NodeRecord { id, ip: ip@, connected_at: connected_at@ },
            ));
            assert(self@.dom() =~= self.nodes@.dom());
            old(self).lemma_well_keyed();
        }
        self.nodes.len()
    }

    /// Files a record for `id` under the given address, stamped with this
    /// moment, in place of the one it may have had. Returns the number of
    /// records afterwards. The time of connection is whatever the clock
    /// gave; everything else about the new contents is fixed.
    pub fn register(&mut self, id: u32, ip: &str) -> (size: usize)
        ensures
            final(self)@ == old(self)@.insert(
                id,
                NodeRecord { id, ip: ip@, connected_at: final(self)@[id].connected_at },
            ),
            size == final(self)@.len(),
            size == if old(self)@.contains_key(id) {
                old(self)@.len()
            } else {
                old(self)@.len() + 1
            },
            well_keyed(final(self)@),
    {
        let connected_at = local_timestamp();
        self.register_at(id, ip, connected_at)
    }

    /// Removes the record of `id`. Without one, nothing changes.
    pub fn unregister(&mut self, id: u32)
        ensures
            final(self)@ == old(self)@.remove(id),
            !old(self)@.contains_key(id) ==> final(self)@ == old(self)@,
            well_keyed(final(self)@),
    {
        self.nodes.remove(&id);
        proof {
            assert(self@ =~= old(self)@.remove(id));
            assert(self@.dom() =~= self.nodes@.dom());
            if !old(self)@.contains_key(id) {
                assert(old(self)@.remove(id) =~= old(self)@);
            }
        }
    }
}

} // verus!
