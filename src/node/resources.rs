//! The state a node keeps (routing table, storage, conflicts, lifecycle
//! state) and the decisions it takes on it: admitting peers, answering RPCs,
//! resolving conflicts. Sending, receiving and waiting are left to the
//! caller.
use vstd::prelude::*;
use crate::error::SubotaiError;
use crate::hash::{closer, distance_height, SubotaiHash, HASH_SIZE};
use crate::node::{Configuration, State};
use crate::routing::{
    bucket_index, position_of, revert_spec, strictly_sorted, unique_ids, update_spec,
    EvictionConflict, IpAddress, LookupResult, NodeInfo, SocketAddress, Table, UpdateResult,
};
use crate::rpc::{
    epoch_seconds, Kind, MassStorePayload, RetrieveResponsePayload, RetrieveResult, Rpc,
    SerializableTime, StorePayload,
};
use crate::storage::{
    all_marked_ready, group_index, purged, ready_groups, same_groups, same_values, store_outcome,
    Groups, Storage, StorageEntry, StoreResult,
};

verus! {

/// Probes an evicted peer gets before its conflict is given up.
pub const MAX_CONFLICT_PINGS: u8 = 5;

/// Everything a node knows: its identity and address, its routing table,
/// its storage, the eviction conflicts awaiting resolution, its
/// configuration and its lifecycle state.
pub struct Resources {
    id: SubotaiHash,
    address: SocketAddress,
    table: Table,
    storage: Storage,
    conflicts: Vec<EvictionConflict>,
    configuration: Configuration,
    state: State,
}

/// What admitting `info` does: the table update, then, for a conflict, its
/// immediate reversal in defensive state or its queueing otherwise, and the
/// state changes that follow (defensive once the queue reaches
/// `max_conflicts`, on grid once an off-grid node knows more than `k_factor`
/// peers). The result is the new state, when it changed.
pub open spec fn update_table_spec(old: Resources, info: NodeInfo, new: Resources, r: Option<State>) -> bool {
    &&& new.wf()
    &&& new.spec_id() == old.spec_id()
    &&& new.spec_address() == old.spec_address()
    &&& new.spec_config() == old.spec_config()
    &&& new.spec_storage() == old.spec_storage()
    &&& exists|mid: Table, u: UpdateResult|
        #[trigger] update_spec(old.spec_table(), info, mid, u) && {
            let conflicted = u is CausedConflict;
            let defensive = old.spec_state() == State::Defensive;
            &&& if conflicted && defensive {
                revert_spec(mid, u->CausedConflict_0, new.spec_table()) && new.spec_conflicts()
                    == old.spec_conflicts()
            } else if conflicted {
                new.spec_table() == mid && new.spec_conflicts() == old.spec_conflicts().push(
                    u->CausedConflict_0,
                )
            } else {
                new.spec_table() == mid && new.spec_conflicts() == old.spec_conflicts()
            }
            &&& new.spec_state() == after_admission(
                old.spec_state(),
                conflicted && !defensive && new.spec_conflicts().len() >= old.spec_config().max_conflicts,
                new.spec_table().spec_len() > old.spec_config().k_factor,
            )
        }
    &&& r == if new.spec_state() != old.spec_state() {
        Some(new.spec_state())
    } else {
        None
    }
}

/// State after an admission: defensive when the conflict queue just filled
/// up, then on grid when an off-grid node knows enough peers.
pub open spec fn after_admission(s: State, queue_full: bool, enough_peers: bool) -> State {
    let s1 = if queue_full {
        State::Defensive
    } else {
        s
    };
    if s1 == State::OffGrid && enough_peers {
        State::OnGrid
    } else {
        s1
    }
}

/// Updates for the reception iterators: received RPCs, a steady tick so
/// that time windows can end, and state changes.
#[derive(Clone, Debug)]
pub enum ReceptionUpdate {
    Tick,
    RpcReceived(Rpc),
    StateChange(State),
}

/// Notifies of new nodes entering the network and changes of state.
#[derive(Clone, Debug)]
pub enum NetworkUpdate {
    AddedNode(NodeInfo),
    StateChange(State),
}

/// Just notifies about state changes.
#[derive(Clone, Debug)]
pub enum StateUpdate {
    StateChange(State),
}

/// Seconds after which a bucket that has not been probed is refreshed.
pub const BUCKET_REFRESH_SECONDS: i64 = 3600;

/// `2^n`.
pub open spec fn pow2(n: nat) -> nat
    decreases n,
{
    if n == 0 {
        1
    } else {
        2 * pow2((n - 1) as nat)
    }
}

/// Lifetime, in minutes, of a copy cached at prefix distance `distance`
/// from its key: the base lifetime, halved for every step past the
/// threshold, at most 16 times.
pub open spec fn cache_minutes(distance: int, threshold: int, base_hours: int) -> int {
    let adjusted = if distance > threshold {
        distance - threshold
    } else {
        0
    };
    let clamped = if adjusted < 16 {
        adjusted
    } else {
        16
    };
    base_hours * 60 / (pow2(clamped as nat) as int)
}

/// Lifetime, in minutes, of a copy cached at prefix distance `distance`
/// from its key.
pub fn cache_ttl_minutes(distance: usize, threshold: usize, base_hours: i64) -> (r: i64)
    requires
        0 <= base_hours <= i64::MAX / 3600,
    ensures
        r == cache_minutes(distance as int, threshold as int, base_hours as int),
        0 <= r,
{
    let adjusted = distance.saturating_sub(threshold);
    let clamped: usize = if adjusted < 16 {
        adjusted
    } else {
        16
    };
    proof {
        reveal_with_fuel(pow2, 17);
        assert(pow2(16) == 65536);
    }
    let mut factor: i64 = 1;
    let mut i: usize = 0;
    while i < clamped
        invariant
            i <= clamped <= 16,
            factor == pow2(i as nat),
            pow2(16) == 65536,
        decreases clamped - i,
    {
        proof {
            assert(pow2((i + 1) as nat) == 2 * pow2(i as nat));
            lemma_pow2_monotone((i + 1) as nat, 16);
        }
        factor = factor * 2;
        i += 1;
    }
    proof {
        lemma_pow2_monotone(0, clamped as nat);
    }
    let minutes: i64 = base_hours * 60;
    proof {
        assert(0 <= minutes / factor <= minutes) by (nonlinear_arith)
            requires
                factor >= 1,
                minutes >= 0,
        ;
    }
    minutes / factor
}

/// Cached copies at or below the distance threshold keep the full base
/// lifetime; two steps past it, a quarter of it.
pub proof fn lemma_cache_lifetime(distance: int, threshold: int, base_hours: int)
    requires
        0 <= distance,
        0 <= threshold,
        0 <= base_hours,
    ensures
        distance <= threshold ==> cache_minutes(distance, threshold, base_hours) == base_hours * 60,
        distance == threshold + 2 ==> cache_minutes(distance, threshold, base_hours) == base_hours * 60 / 4,
{
    reveal_with_fuel(pow2, 3);
    assert(pow2(0) == 1);
    assert(pow2(2) == 4);
    let m = base_hours * 60;
    assert(m / 1 == m) by (nonlinear_arith);
    if distance <= threshold {
        assert(cache_minutes(distance, threshold, base_hours) == m / (pow2(0) as int));
    }
}

pub proof fn lemma_pow2_monotone(n: nat, m: nat)
    requires
        n <= m,
    ensures
        1 <= pow2(n) <= pow2(m),
    decreases m,
{
    if m > 0 {
        if n == m {
            lemma_pow2_monotone((m - 1) as nat, (m - 1) as nat);
        } else {
            lemma_pow2_monotone(n, (m - 1) as nat);
        }
    }
}

/// Responses a publish needs: a third of the `k_factor` candidates.
pub fn store_quorum(k_factor: usize) -> (r: usize)
    ensures
        r == k_factor / 3,
{
    k_factor / 3
}

/// Whether a bucket last probed at `last_probe` (never, for `None`) is due
/// for a refresh at `now`.
pub fn needs_refresh(last_probe: Option<i64>, now: i64) -> (r: bool)
    ensures
        r == match last_probe {
            None => true,
            Some(t) => now - t > BUCKET_REFRESH_SECONDS,
        },
{
    match last_probe {
        None => true,
        Some(t) => (now as i128) - (t as i128) > BUCKET_REFRESH_SECONDS as i128,
    }
}

/// Conflicts that stay after a resolution round: those pinged fewer than
/// `MAX_CONFLICT_PINGS` times, each with one more ping counted.
pub open spec fn pinged_round(cs: Seq<EvictionConflict>) -> Seq<EvictionConflict>
    decreases cs.len(),
{
    if cs.len() == 0 {
        cs
    } else {
        let c = cs.last();
        if c.times_pinged < MAX_CONFLICT_PINGS {
            pinged_round(cs.drop_last()).push(
                EvictionConflict { times_pinged: (c.times_pinged + 1) as u8, ..c },
            )
        } else {
            pinged_round(cs.drop_last())
        }
    }
}

/// Position of the first conflict whose evicted peer has this ID.
pub open spec fn conflict_of(cs: Seq<EvictionConflict>, id: SubotaiHash) -> Option<int> {
    if exists|p: int| 0 <= p < cs.len() && (#[trigger] cs[p]).evicted.id == id {
        Some(
            choose|p: int|
                0 <= p < cs.len() && (#[trigger] cs[p]).evicted.id == id && forall|q: int|
                    0 <= q < p ==> (#[trigger] cs[q]).evicted.id != id,
        )
    } else {
        None
    }
}

/// The first `n` elements of a sequence, or all of them when it is shorter.
pub open spec fn prefix(s: Seq<NodeInfo>, n: int) -> Seq<NodeInfo> {
    if n < s.len() {
        s.take(n)
    } else {
        s
    }
}

/// Copies at most `n` descriptors from the front of a list.
pub fn take_prefix(v: &Vec<NodeInfo>, n: usize) -> (r: Vec<NodeInfo>)
    ensures
        r@ == prefix(v@, n as int),
{
    let mut r: Vec<NodeInfo> = Vec::new();
    let mut i: usize = 0;
    while i < v.len() && i < n
        invariant
            i <= v@.len(),
            i <= n,
            r@ == v@.take(i as int),
        decreases v@.len() - i,
    {
        r.push(v[i]);
        i += 1;
        proof {
            assert(r@ =~= v@.take(i as int));
        }
    }
    proof {
        if n >= v@.len() {
            assert(r@ =~= v@);
        }
    }
    r
}

/// `nodes` lists, by ascending distance to `target`, the first `n` peers of
/// the table.
pub open spec fn closest_prefix(t: Table, target: SubotaiHash, n: int, nodes: Seq<NodeInfo>) -> bool {
    exists|all: Seq<NodeInfo>|
        (forall|x: NodeInfo| #[trigger] all.contains(x) <==> t.contains(x)) && strictly_sorted(
            all,
            target,
        ) && nodes == #[trigger] prefix(all, n)
}

/// Whether a broken-down time can be turned back into seconds.
pub open spec fn valid_time(t: SerializableTime) -> bool {
    t.is_valid()
}

/// Seconds that a value picked up from a retrieve response stays cached.
pub const CACHE_SECONDS: i64 = 60;

/// Stores the pairs of a mass store in order under one key, stopping at the
/// first that fails (or whose time is not valid): the groups left, and
/// whether all of them were stored.
pub open spec fn mass_outcome(
    gs: Groups,
    key: SubotaiHash,
    items: Seq<(StorageEntry, SerializableTime)>,
    now: i64,
    cfg: Configuration,
) -> (Groups, bool)
    decreases items.len(),
{
    if items.len() == 0 {
        (gs, true)
    } else if !valid_time(items[0].1) {
        (gs, false)
    } else {
        let (g1, r) = store_outcome(gs, key, items[0].0, epoch_seconds(items[0].1) as i64, now, cfg);
        if r != StoreResult::Success {
            (g1, false)
        } else {
            mass_outcome(g1, key, items.drop_first(), now, cfg)
        }
    }
}

/// Stores each entry under one key with the same expiration, in order.
pub open spec fn cache_outcome(
    gs: Groups,
    key: SubotaiHash,
    entries: Seq<StorageEntry>,
    expiration: i64,
    now: i64,
    cfg: Configuration,
) -> Groups
    decreases entries.len(),
{
    if entries.len() == 0 {
        gs
    } else {
        let g1 = store_outcome(gs, key, entries[0], expiration, now, cfg).0;
        cache_outcome(g1, key, entries.drop_first(), expiration, now, cfg)
    }
}

/// The answer of `core` to a locate for `id_to_find`: itself when its own
/// ID is asked for, or else the lookup of `k_factor` nodes in its table.
pub open spec fn locate_reply(core: Resources, id_to_find: SubotaiHash, r: Rpc) -> bool {
    &&& r.sender == (NodeInfo { id: core.spec_id(), address: core.spec_address() })
    &&& r.kind matches Kind::LocateResponse(p) && p.id_to_find == id_to_find && ({
        let t = core.spec_table();
        if id_to_find == core.spec_id() {
            p.result == LookupResult::Found(r.sender)
        } else {
            &&& t.has_id(id_to_find) <==> p.result is Found
            &&& match p.result {
                LookupResult::Found(node) => node.id == id_to_find && t.contains(node),
                LookupResult::ClosestNodes(v) => v@.len() > 0 && t.is_closest_selection(
                    id_to_find,
                    core.spec_config().k_factor as nat,
                    None,
                    v@,
                ),
                LookupResult::Nothing => core.spec_config().k_factor == 0 || forall|x: NodeInfo|
                    t.contains(x) ==> !crate::routing::allowed(None, x.id),
            }
        }
    })
}

/// The answer of `core` to a probe of `id_to_probe`: the `k_factor + 1`
/// nodes of its table closest to it.
pub open spec fn probe_reply(core: Resources, id_to_probe: SubotaiHash, r: Rpc) -> bool {
    &&& r.sender == (NodeInfo { id: core.spec_id(), address: core.spec_address() })
    &&& r.kind matches Kind::ProbeResponse(p) && p.id_to_probe == id_to_probe && closest_prefix(
        core.spec_table(),
        id_to_probe,
        core.spec_config().k_factor + 1,
        p.nodes@,
    )
}

/// The answer of `core` to a retrieve of `key`, with `gs` its groups once
/// purged: the values stored under the key, or else the `k_factor` nodes of
/// its table closest to it.
pub open spec fn retrieve_reply(core: Resources, gs: Groups, key: SubotaiHash, r: Rpc) -> bool {
    &&& r.sender == (NodeInfo { id: core.spec_id(), address: core.spec_address() })
    &&& r.kind matches Kind::RetrieveResponse(p) && p.key_to_find == key && match p.result {
        RetrieveResult::Found(v) => group_index(gs, key) is Some && same_values(
            v@,
            gs[group_index(gs, key)->Some_0].1,
        ),
        RetrieveResult::Closest(v) => group_index(gs, key) is None && closest_prefix(
            core.spec_table(),
            key,
            core.spec_config().k_factor as int,
            v@,
        ),
    }
}

/// What a sign of life from `sender_id` does: the first conflict that
/// evicted it leaves the queue and is undone; nothing else changes.
pub open spec fn reverted_for_sender(old: Resources, sender_id: SubotaiHash, new: Resources) -> bool {
    &&& new.wf()
    &&& new.spec_id() == old.spec_id()
    &&& new.spec_address() == old.spec_address()
    &&& new.spec_config() == old.spec_config()
    &&& new.spec_storage() == old.spec_storage()
    &&& new.spec_state() == old.spec_state()
    &&& match conflict_of(old.spec_conflicts(), sender_id) {
        Some(p) => new.spec_conflicts() == old.spec_conflicts().remove(p) && revert_spec(
            old.spec_table(),
            old.spec_conflicts()[p],
            new.spec_table(),
        ),
        None => new.spec_conflicts() == old.spec_conflicts() && new.spec_table() == old.spec_table(),
    }
}

/// What handling an RPC does before its sender is admitted: a ping response
/// resolves the conflicts of its sender, a locate response that found a node
/// admits that node, and nothing else touches the table, the conflicts or
/// the state.
pub open spec fn handled(old: Resources, rpc: Rpc, sender_id: SubotaiHash, mid: Resources) -> bool {
    &&& mid.spec_id() == old.spec_id()
    &&& mid.spec_address() == old.spec_address()
    &&& mid.spec_config() == old.spec_config()
    &&& match rpc.kind {
        Kind::PingResponse => reverted_for_sender(old, sender_id, mid),
        Kind::LocateResponse(p) => match p.result {
            LookupResult::Found(n) => exists|s: Option<State>| #[trigger] update_table_spec(old, n, mid, s),
            _ => mid.spec_table() == old.spec_table() && mid.spec_conflicts() == old.spec_conflicts()
                && mid.spec_state() == old.spec_state(),
        },
        _ => mid.spec_table() == old.spec_table() && mid.spec_conflicts() == old.spec_conflicts()
            && mid.spec_state() == old.spec_state(),
    }
}

impl Resources {
    pub closed spec fn spec_id(&self) -> SubotaiHash {
        self.id
    }

    pub closed spec fn spec_address(&self) -> SocketAddress {
        self.address
    }

    pub closed spec fn spec_table(&self) -> Table {
        self.table
    }

    pub closed spec fn spec_storage(&self) -> Storage {
        self.storage
    }

    pub closed spec fn spec_conflicts(&self) -> Seq<EvictionConflict> {
        self.conflicts@
    }

    pub closed spec fn spec_config(&self) -> Configuration {
        self.configuration
    }

    pub closed spec fn spec_state(&self) -> State {
        self.state
    }

    /// The table and the storage are well formed and built for this node
    /// and its configuration.
    pub open spec fn wf(&self) -> bool {
        &&& self.spec_table().wf()
        &&& self.spec_storage().wf()
        &&& self.spec_table().parent() == self.spec_id()
        &&& self.spec_table().k() == self.spec_config().k_factor
        &&& self.spec_storage().config() == self.spec_config()
        &&& self.spec_config().base_expiration_time_hrs <= i64::MAX / 3600
    }

    /// A node that knows no peer and stores nothing, off grid.
    pub fn new(id: SubotaiHash, address: SocketAddress, configuration: Configuration) -> (r: Resources)
        requires
            1 <= configuration.k_factor <= usize::MAX / HASH_SIZE,
            0 <= configuration.base_expiration_time_hrs <= i64::MAX / 3600,
        ensures
            r.wf(),
            r.spec_id() == id,
            r.spec_address() == address,
            r.spec_config() == configuration,
            r.spec_state() == State::OffGrid,
            r.spec_conflicts().len() == 0,
            r.spec_table().spec_len() == 0,
            r.spec_storage().groups().len() == 0,
    {
        let table = Table::new(id, configuration.k_factor);
        proof {
            assert(table.count_below(HASH_SIZE as int) == 0) by {
                lemma_count_zero(table, HASH_SIZE as int);
            }
        }
        Resources {
            id,
            address,
            table,
            storage: Storage::new(id, configuration),
            conflicts: Vec::new(),
            configuration,
            state: State::OffGrid,
        }
    }

    /// The node's own descriptor.
    pub fn local_info(&self) -> (r: NodeInfo)
        ensures
            r == (NodeInfo { id: self.spec_id(), address: self.spec_address() }),
    {
        NodeInfo { id: self.id, address: self.address }
    }

    /// The node's ID.
    pub fn id(&self) -> (r: SubotaiHash)
        ensures
            r == self.spec_id(),
    {
        self.id
    }

    /// Current state of the node.
    pub fn state(&self) -> (r: State)
        ensures
            r == self.spec_state(),
    {
        self.state
    }

    /// The node's configuration.
    pub fn configuration(&self) -> (r: Configuration)
        ensures
            r == self.spec_config(),
    {
        self.configuration
    }

    /// The routing table, for reading.
    pub fn table(&self) -> (r: &Table)
        ensures
            *r == self.spec_table(),
    {
        &self.table
    }

    /// The conflicts awaiting resolution.
    pub fn conflicts(&self) -> (r: &Vec<EvictionConflict>)
        ensures
            r@ == self.spec_conflicts(),
    {
        &self.conflicts
    }

    /// Changes the node's state; reports whether it differs from the
    /// previous one.
    pub fn set_state(&mut self, state: State) -> (r: bool)
        requires
            old(self).wf(),
        ensures
            final(self).wf(),
            final(self).spec_state() == state,
            r == (state != old(self).spec_state()),
            final(self).spec_id() == old(self).spec_id(),
            final(self).spec_address() == old(self).spec_address(),
            final(self).spec_table() == old(self).spec_table(),
            final(self).spec_storage() == old(self).spec_storage(),
            final(self).spec_conflicts() == old(self).spec_conflicts(),
            final(self).spec_config() == old(self).spec_config(),
    {
        let changed = self.state != state;
        self.state = state;
        changed
    }

    /// Updates the table with a node that proved to be alive, and starts the
    /// conflict resolution mechanism if necessary. In defensive state, an
    /// update that would evict a peer is reverted at once.
    pub fn update_table(&mut self, info: NodeInfo) -> (r: Option<State>)
        requires
            old(self).wf(),
        ensures
            update_table_spec(*old(self), info, *final(self), r),
    {
        let ghost old_self = *self;
        let old_state = self.state;
        let defensive = self.state == State::Defensive;
        let u = self.table.update_node(info);
        let ghost mid = self.table;
        let ghost gu = u;
        let mut queue_full = false;
        match u {
            UpdateResult::CausedConflict(conflict) => {
                if defensive {
                    self.table.revert_conflict(conflict);
                } else {
                    self.conflicts.push(conflict);
                    if self.conflicts.len() >= self.configuration.max_conflicts {
                        queue_full = true;
                        self.state = State::Defensive;
                    }
                }
            },
            _ => {},
        }
        if self.state == State::OffGrid && self.table.len() > self.configuration.k_factor {
            self.state = State::OnGrid;
        }
        proof {
            assert(update_spec(old_self.spec_table(), info, mid, gu));
            assert(self.spec_state() == after_admission(
                old_self.spec_state(),
                (gu is CausedConflict) && !defensive && self.spec_conflicts().len()
                    >= old_self.spec_config().max_conflicts,
                self.spec_table().spec_len() > old_self.spec_config().k_factor,
            ));
        }
        if self.state != old_state {
            Some(self.state)
        } else {
            None
        }
    }

    /// The answer to a locate: the node itself when its own ID is asked
    /// for, or else the lookup of `k_factor` nodes in its table.
    pub fn handle_locate(&self, id_to_find: &SubotaiHash) -> (r: Rpc)
        requires
            self.wf(),
        ensures
            locate_reply(*self, *id_to_find, r),
    {
        let local = self.local_info();
        if *id_to_find == self.id {
            proof {
                crate::hash::lemma_raw_ext(*id_to_find, self.id);
            }
            return Rpc::locate_response(local, *id_to_find, LookupResult::Found(local));
        }
        let result = self.table.lookup(id_to_find, self.configuration.k_factor, None);
        Rpc::locate_response(local, *id_to_find, result)
    }

    /// The answer to a probe: the `k_factor + 1` nodes of the table closest
    /// to the target (one more than asked for, since the prober itself may
    /// be among them).
    pub fn handle_probe(&self, id_to_probe: &SubotaiHash) -> (r: Rpc)
        requires
            self.wf(),
        ensures
            probe_reply(*self, *id_to_probe, r),
    {
        let all = self.table.closest_nodes_to(id_to_probe);
        let nodes = take_prefix(&all, self.configuration.k_factor + 1);
        proof {
            assert(nodes@ == prefix(all@, self.spec_config().k_factor + 1));
        }
        Rpc::probe_response(self.local_info(), nodes, *id_to_probe)
    }

    /// The answer to a retrieve: the values stored under the key, if any,
    /// or else the `k_factor` nodes of the table closest to it.
    pub fn handle_retrieve(&mut self, key: &SubotaiHash, now: i64) -> (r: Rpc)
        requires
            old(self).wf(),
        ensures
            final(self).wf(),
            final(self).spec_id() == old(self).spec_id(),
            final(self).spec_address() == old(self).spec_address(),
            final(self).spec_config() == old(self).spec_config(),
            final(self).spec_table() == old(self).spec_table(),
            final(self).spec_conflicts() == old(self).spec_conflicts(),
            final(self).spec_state() == old(self).spec_state(),
            final(self).spec_storage().groups() == purged(old(self).spec_storage().groups(), now),
            retrieve_reply(*old(self), final(self).spec_storage().groups(), *key, r),
    {
        let local = self.local_info();
        let result = match self.storage.retrieve(key, now) {
            Some(values) => RetrieveResult::Found(values),
            None => {
                let all = self.table.closest_nodes_to(key);
                RetrieveResult::Closest(take_prefix(&all, self.configuration.k_factor))
            },
        };
        Rpc::retrieve_response(local, *key, result)
    }

    /// Stores the entry of a store RPC and composes the response; `None`
    /// when its expiration is not a valid time.
    pub fn handle_store(&mut self, payload: StorePayload, now: i64) -> (r: Option<Rpc>)
        requires
            old(self).wf(),
        ensures
            final(self).wf(),
            final(self).spec_id() == old(self).spec_id(),
            final(self).spec_address() == old(self).spec_address(),
            final(self).spec_config() == old(self).spec_config(),
            final(self).spec_table() == old(self).spec_table(),
            final(self).spec_conflicts() == old(self).spec_conflicts(),
            final(self).spec_state() == old(self).spec_state(),
            !valid_time(payload.expiration) ==> r is None && final(self).spec_storage() == old(
                self,
            ).spec_storage(),
            valid_time(payload.expiration) ==> {
                let (gs, res) = store_outcome(
                    old(self).spec_storage().groups(),
                    payload.key,
                    payload.entry,
                    epoch_seconds(payload.expiration) as i64,
                    now,
                    old(self).spec_config(),
                );
                &&& final(self).spec_storage().groups() == gs
                &&& r == Some(
                    Rpc::store_response_spec(
                        NodeInfo { id: old(self).spec_id(), address: old(self).spec_address() },
                        payload.key,
                        res,
                    ),
                )
            },
    {
        let expiration = match payload.expiration.to_seconds() {
            Some(t) => t,
            None => {
                return None;
            },
        };
        let key = payload.key;
        let result = self.storage.store(&key, payload.entry, expiration, now);
        Some(Rpc::store_response(self.local_info(), key, result))
    }

    /// Stores the pairs of a mass store RPC and composes the response:
    /// success when every pair was stored.
    pub fn handle_mass_store(&mut self, payload: MassStorePayload, now: i64) -> (r: Rpc)
        requires
            old(self).wf(),
        ensures
            final(self).wf(),
            final(self).spec_id() == old(self).spec_id(),
            final(self).spec_address() == old(self).spec_address(),
            final(self).spec_config() == old(self).spec_config(),
            final(self).spec_table() == old(self).spec_table(),
            final(self).spec_conflicts() == old(self).spec_conflicts(),
            final(self).spec_state() == old(self).spec_state(),
            ({
                let (gs, ok) = mass_outcome(
                    old(self).spec_storage().groups(),
                    payload.key,
                    payload.entries_and_expirations@,
                    now,
                    old(self).spec_config(),
                );
                &&& final(self).spec_storage().groups() == gs
                &&& r == Rpc::store_response_spec(
                    NodeInfo { id: old(self).spec_id(), address: old(self).spec_address() },
                    payload.key,
                    if ok {
                        StoreResult::Success
                    } else {
                        StoreResult::MassStoreFailed
                    },
                )
            }),
    {
        let key = payload.key;
        let ghost items = payload.entries_and_expirations@;
        let ghost cfg = self.configuration;
        let mut pending = payload.entries_and_expirations;
        let mut ok = true;
        let ghost mut i: int = 0;
        proof {
            assert(pending@ =~= items.skip(0));
        }
        while ok && pending.len() > 0
            invariant
                self.wf(),
                self.id == old(self).id,
                self.address == old(self).address,
                self.configuration == old(self).configuration,
                self.table == old(self).table,
                self.conflicts == old(self).conflicts,
                self.state == old(self).state,
                cfg == self.configuration,
                0 <= i <= items.len(),
                pending@ == items.skip(i),
                ok ==> mass_outcome(old(self).spec_storage().groups(), key, items, now, cfg) == mass_outcome(
                    self.spec_storage().groups(),
                    key,
                    items.skip(i),
                    now,
                    cfg,
                ),
                !ok ==> mass_outcome(old(self).spec_storage().groups(), key, items, now, cfg) == (
                self.spec_storage().groups(),
                false,
                ),
            decreases pending@.len(),
        {
            let ghost rest = pending@;
            let ghost gb = self.spec_storage().groups();
            let (entry, time) = pending.remove(0);
            proof {
                assert(rest[0] == (entry, time));
                assert(pending@ =~= items.skip(i + 1));
                assert(rest.drop_first() =~= items.skip(i + 1));
            }
            let seconds = time.to_seconds();
            if seconds.is_none() {
                ok = false;
                proof {
                    assert(mass_outcome(gb, key, rest, now, cfg) == (gb, false));
                }
            } else {
                let expiration = seconds.unwrap();
                let result = self.storage.store(&key, entry, expiration, now);
                proof {
                    let (g1, r1) = store_outcome(gb, key, entry, epoch_seconds(time) as i64, now, cfg);
                    assert(g1 == self.spec_storage().groups() && r1 == result);
                    assert(mass_outcome(gb, key, rest, now, cfg) == if r1 != StoreResult::Success {
                        (g1, false)
                    } else {
                        mass_outcome(g1, key, rest.drop_first(), now, cfg)
                    });
                }
                match result {
                    StoreResult::Success => {},
                    _ => {
                        ok = false;
                    },
                }
            }
            proof {
                i = i + 1;
            }
        }
        proof {
            if ok {
                assert(items.skip(i).len() == 0);
            }
        }
        let result = if ok {
            StoreResult::Success
        } else {
            StoreResult::MassStoreFailed
        };
        Rpc::store_response(self.local_info(), key, result)
    }

    /// Caches locally, for `CACHE_SECONDS`, the values that a retrieve
    /// response found, so that successive retrieves do not flood the
    /// network.
    pub fn handle_retrieve_response(&mut self, payload: RetrieveResponsePayload, now: i64)
        requires
            old(self).wf(),
        ensures
            final(self).wf(),
            final(self).spec_id() == old(self).spec_id(),
            final(self).spec_address() == old(self).spec_address(),
            final(self).spec_config() == old(self).spec_config(),
            final(self).spec_table() == old(self).spec_table(),
            final(self).spec_conflicts() == old(self).spec_conflicts(),
            final(self).spec_state() == old(self).spec_state(),
            final(self).spec_storage().groups() == match payload.result {
                RetrieveResult::Found(v) => if now <= i64::MAX - CACHE_SECONDS {
                    cache_outcome(
                        old(self).spec_storage().groups(),
                        payload.key_to_find,
                        v@,
                        (now + CACHE_SECONDS) as i64,
                        now,
                        old(self).spec_config(),
                    )
                } else {
                    old(self).spec_storage().groups()
                },
                RetrieveResult::Closest(_) => old(self).spec_storage().groups(),
            },
    {
        let key = payload.key_to_find;
        match payload.result {
            RetrieveResult::Found(entries) => {
                if now > i64::MAX - CACHE_SECONDS {
                    return;
                }
                let expiration = now + CACHE_SECONDS;
                let ghost items = entries@;
                let ghost cfg = self.configuration;
                let mut pending = entries;
                let ghost mut i: int = 0;
                proof {
                    assert(pending@ =~= items.skip(0));
                }
                while pending.len() > 0
                    invariant
                        self.wf(),
                        self.id == old(self).id,
                        self.address == old(self).address,
                        self.configuration == old(self).configuration,
                        self.table == old(self).table,
                        self.conflicts == old(self).conflicts,
                        self.state == old(self).state,
                        cfg == self.configuration,
                        0 <= i <= items.len(),
                        pending@ == items.skip(i),
                        cache_outcome(old(self).spec_storage().groups(), key, items, expiration, now, cfg)
                            == cache_outcome(self.spec_storage().groups(), key, items.skip(i), expiration, now, cfg),
                    decreases pending@.len(),
                {
                    let ghost rest = pending@;
                    let ghost gb = self.spec_storage().groups();
                    let entry = pending.remove(0);
                    proof {
                        assert(rest[0] == entry);
                        assert(pending@ =~= items.skip(i + 1));
                        assert(rest.drop_first() =~= items.skip(i + 1));
                    }
                    let _ = self.storage.store(&key, entry, expiration, now);
                    proof {
                        let g1 = store_outcome(gb, key, entry, expiration, now, cfg).0;
                        assert(g1 == self.spec_storage().groups());
                        assert(cache_outcome(gb, key, rest, expiration, now, cfg) == cache_outcome(
                            g1,
                            key,
                            rest.drop_first(),
                            expiration,
                            now,
                            cfg,
                        ));
                    }
                    proof {
                        i = i + 1;
                    }
                }
            },
            RetrieveResult::Closest(_) => {},
        }
    }

    /// Handles an RPC received from `source_ip`: the sender's address takes
    /// the observed IP, the RPC is answered (or acted upon), and the sender,
    /// who has just proved to be alive, is admitted to the routing table.
    /// Returns the reply to send back to the sender, if any, and the node's
    /// new state, when it changed.
    pub fn process_incoming_rpc(&mut self, rpc: Rpc, source_ip: IpAddress, now: i64) -> (r: (
        Option<Rpc>,
        Option<State>,
    ))
        requires
            old(self).wf(),
        ensures
            final(self).wf(),
            final(self).spec_id() == old(self).spec_id(),
            final(self).spec_address() == old(self).spec_address(),
            final(self).spec_config() == old(self).spec_config(),
            ({
                let local = NodeInfo { id: old(self).spec_id(), address: old(self).spec_address() };
                let cfg = old(self).spec_config();
                let gs = old(self).spec_storage().groups();
                match rpc.kind {
                    Kind::Ping => r.0 == Some(Rpc { kind: Kind::PingResponse, sender: local }),
                    Kind::Locate(p) => r.0 matches Some(reply) && locate_reply(*old(self), p.id_to_find, reply),
                    Kind::Probe(p) => r.0 matches Some(reply) && probe_reply(*old(self), p.id_to_probe, reply),
                    Kind::Retrieve(p) => r.0 matches Some(reply) && retrieve_reply(
                        *old(self),
                        purged(gs, now),
                        p.key_to_find,
                        reply,
                    ),
                    Kind::Store(p) => if valid_time(p.expiration) {
                        let (ng, res) = store_outcome(gs, p.key, p.entry, epoch_seconds(p.expiration) as i64, now, cfg);
                        r.0 == Some(Rpc::store_response_spec(local, p.key, res))
                            && final(self).spec_storage().groups() == ng
                    } else {
                        r.0 is None
                    },
                    Kind::MassStore(p) => {
                        let (ng, ok) = mass_outcome(gs, p.key, p.entries_and_expirations@, now, cfg);
                        &&& final(self).spec_storage().groups() == ng
                        &&& r.0 == Some(
                            Rpc::store_response_spec(
                                local,
                                p.key,
                                if ok {
                                    StoreResult::Success
                                } else {
                                    StoreResult::MassStoreFailed
                                },
                            ),
                        )
                    },
                    _ => r.0 is None,
                }
            }),
            exists|mid: Resources, s: Option<State>|
                #[trigger] update_table_spec(
                    mid,
                    NodeInfo {
                        id: rpc.sender.id,
                        address: SocketAddress { ip: source_ip, port: rpc.sender.address.port },
                    },
                    *final(self),
                    s,
                ) && handled(*old(self), rpc, rpc.sender.id, mid),
            ({
                let gs = old(self).spec_storage().groups();
                match rpc.kind {
                    Kind::Store(_) => true,
                    Kind::MassStore(_) => true,
                    Kind::Retrieve(_) => final(self).spec_storage().groups() == purged(gs, now),
                    Kind::RetrieveResponse(p) => final(self).spec_storage().groups() == match p.result {
                        RetrieveResult::Found(v) => if now <= i64::MAX - CACHE_SECONDS {
                            cache_outcome(
                                gs,
                                p.key_to_find,
                                v@,
                                (now + CACHE_SECONDS) as i64,
                                now,
                                old(self).spec_config(),
                            )
                        } else {
                            gs
                        },
                        RetrieveResult::Closest(_) => gs,
                    },
                    _ => final(self).spec_storage() == old(self).spec_storage(),
                }
            }),
            r.1 == if final(self).spec_state() != old(self).spec_state() {
                Some(final(self).spec_state())
            } else {
                None
            },
    {
        let old_state = self.state;
        let ghost old_self = *self;
        let ghost old_rpc = rpc;
        let mut sender = rpc.sender;
        sender.address.ip = source_ip;
        let reply = match rpc.kind {
            Kind::Ping => Some(Rpc::ping_response(self.local_info())),
            Kind::PingResponse => {
                self.revert_conflicts_for_sender(&sender.id);
                None
            },
            Kind::Locate(payload) => Some(self.handle_locate(&payload.id_to_find)),
            Kind::LocateResponse(payload) => {
                match payload.result {
                    LookupResult::Found(node) => {
                        let _ = self.update_table(node);
                    },
                    _ => {},
                }
                None
            },
            Kind::Probe(payload) => Some(self.handle_probe(&payload.id_to_probe)),
            Kind::Store(payload) => self.handle_store(payload, now),
            Kind::MassStore(payload) => Some(self.handle_mass_store(payload, now)),
            Kind::Retrieve(payload) => Some(self.handle_retrieve(&payload.key_to_find, now)),
            Kind::RetrieveResponse(payload) => {
                self.handle_retrieve_response(payload, now);
                None
            },
            _ => None,
        };
        let ghost mid = *self;
        let s = self.update_table(sender);
        proof {
            assert(update_table_spec(mid, sender, *self, s));
            assert(handled(old_self, old_rpc, old_rpc.sender.id, mid));
        }
        let changed = if self.state != old_state {
            Some(self.state)
        } else {
            None
        };
        (reply, changed)
    }

    /// Expiration, in seconds, of values cached at `candidate_id` under
    /// `key`, found at `now`: the farther the candidate from the key, the
    /// sooner (see `cache_minutes`), saturating at the largest time.
    pub fn calculate_cache_expiration(&self, candidate_id: &SubotaiHash, key: &SubotaiHash, now: i64) -> (r:
        i64)
        requires
            self.wf(),
        ensures
            ({
                let d = match distance_height(*candidate_id, *key) {
                    Some(h) => h,
                    None => 0,
                };
                let t = now + 60 * cache_minutes(
                    d,
                    self.spec_config().expiration_distance_threshold as int,
                    self.spec_config().base_expiration_time_hrs as int,
                );
                r == if t <= i64::MAX {
                    t
                } else {
                    i64::MAX as int
                }
            }),
    {
        let x = candidate_id.xor(key);
        let distance = match x.height() {
            Some(h) => h,
            None => 0,
        };
        proof {
            assert(x.spec_height() == distance_height(*candidate_id, *key));
        }
        let minutes = cache_ttl_minutes(
            distance,
            self.configuration.expiration_distance_threshold,
            self.configuration.base_expiration_time_hrs,
        );
        let t: i128 = (now as i128) + 60 * (minutes as i128);
        if t <= i64::MAX as i128 {
            t as i64
        } else {
            i64::MAX
        }
    }

    /// Expiration of an entry published at `now`: `base_expiration_time_hrs`
    /// later, saturating at the largest time.
    pub fn publish_expiration(&self, now: i64) -> (r: i64)
        requires
            self.wf(),
        ensures
            r == if now + self.spec_config().base_expiration_time_hrs * 3600 <= i64::MAX {
                now + self.spec_config().base_expiration_time_hrs * 3600
            } else {
                i64::MAX as int
            },
    {
        let t: i128 = (now as i128) + (self.configuration.base_expiration_time_hrs as i128) * 3600;
        if t <= i64::MAX as i128 {
            t as i64
        } else {
            i64::MAX
        }
    }

    /// Storing across the network needs a node on grid.
    pub fn check_on_grid(&self) -> (r: Result<(), SubotaiError>)
        ensures
            r is Err <==> self.spec_state() == State::OffGrid,
            r is Err ==> r == Err::<(), SubotaiError>(SubotaiError::OffGridError),
    {
        match self.state {
            State::OffGrid => Err(SubotaiError::OffGridError),
            _ => Ok(()),
        }
    }

    /// The ID to probe to refresh bucket `index`: a random ID that agrees
    /// with the node's own from bit `index` up.
    pub fn refresh_target(&self, index: usize) -> (r: Result<SubotaiHash, SubotaiError>)
        ensures
            index >= HASH_SIZE ==> r == Err::<SubotaiHash, SubotaiError>(SubotaiError::OutOfBounds),
            index < HASH_SIZE ==> (r matches Ok(h) && forall|i: int|
                index <= i < HASH_SIZE ==> #[trigger] h.has_bit(i) == self.spec_id().has_bit(i)),
    {
        if index >= HASH_SIZE {
            return Err(SubotaiError::OutOfBounds);
        }
        Ok(SubotaiHash::random_at_distance(&self.id, index))
    }

    /// The values stored locally under `key`, after purging the expired
    /// entries.
    pub fn retrieve_local(&mut self, key: &SubotaiHash, now: i64) -> (r: Option<Vec<StorageEntry>>)
        requires
            old(self).wf(),
        ensures
            final(self).wf(),
            final(self).spec_id() == old(self).spec_id(),
            final(self).spec_address() == old(self).spec_address(),
            final(self).spec_config() == old(self).spec_config(),
            final(self).spec_table() == old(self).spec_table(),
            final(self).spec_conflicts() == old(self).spec_conflicts(),
            final(self).spec_state() == old(self).spec_state(),
            final(self).spec_storage().groups() == purged(old(self).spec_storage().groups(), now),
            match r {
                Some(v) => group_index(final(self).spec_storage().groups(), *key) is Some && same_values(
                    v@,
                    final(self).spec_storage().groups()[group_index(
                        final(self).spec_storage().groups(),
                        *key,
                    )->Some_0].1,
                ),
                None => group_index(final(self).spec_storage().groups(), *key) is None,
            },
    {
        self.storage.retrieve(key, now)
    }

    /// Purges the expired entries of the local storage.
    pub fn clear_expired(&mut self, now: i64)
        requires
            old(self).wf(),
        ensures
            final(self).wf(),
            final(self).spec_id() == old(self).spec_id(),
            final(self).spec_address() == old(self).spec_address(),
            final(self).spec_config() == old(self).spec_config(),
            final(self).spec_table() == old(self).spec_table(),
            final(self).spec_conflicts() == old(self).spec_conflicts(),
            final(self).spec_state() == old(self).spec_state(),
            final(self).spec_storage().groups() == purged(old(self).spec_storage().groups(), now),
    {
        self.storage.clear_expired_entries(now);
    }

    /// Marks every stored entry as ready for republishing.
    pub fn mark_all_as_ready(&mut self)
        requires
            old(self).wf(),
        ensures
            final(self).wf(),
            final(self).spec_id() == old(self).spec_id(),
            final(self).spec_address() == old(self).spec_address(),
            final(self).spec_config() == old(self).spec_config(),
            final(self).spec_table() == old(self).spec_table(),
            final(self).spec_conflicts() == old(self).spec_conflicts(),
            final(self).spec_state() == old(self).spec_state(),
            final(self).spec_storage().groups() == all_marked_ready(old(self).spec_storage().groups()),
    {
        self.storage.mark_all_as_ready();
    }

    /// The entries ready for republishing, by key, with their expirations,
    /// after purging the expired ones.
    pub fn ready_entries(&mut self, now: i64) -> (r: Vec<(SubotaiHash, Vec<(StorageEntry, i64)>)>)
        requires
            old(self).wf(),
        ensures
            final(self).wf(),
            final(self).spec_id() == old(self).spec_id(),
            final(self).spec_address() == old(self).spec_address(),
            final(self).spec_config() == old(self).spec_config(),
            final(self).spec_table() == old(self).spec_table(),
            final(self).spec_conflicts() == old(self).spec_conflicts(),
            final(self).spec_state() == old(self).spec_state(),
            final(self).spec_storage().groups() == purged(old(self).spec_storage().groups(), now),
            same_groups(r@, ready_groups(final(self).spec_storage().groups())),
    {
        self.storage.get_all_ready_entries(now)
    }

    /// Records that a probe aimed at the bucket of `id` was made at `now`.
    pub fn mark_bucket_as_probed(&mut self, id: &SubotaiHash, now: i64)
        requires
            old(self).wf(),
        ensures
            final(self).wf(),
            final(self).spec_id() == old(self).spec_id(),
            final(self).spec_address() == old(self).spec_address(),
            final(self).spec_config() == old(self).spec_config(),
            final(self).spec_storage() == old(self).spec_storage(),
            final(self).spec_conflicts() == old(self).spec_conflicts(),
            final(self).spec_state() == old(self).spec_state(),
            forall|i: int|
                0 <= i < HASH_SIZE ==> #[trigger] final(self).spec_table().bucket(i) == old(
                    self,
                ).spec_table().bucket(i),
            final(self).spec_table().probe_time(bucket_index(old(self).spec_id(), *id)) == Some(now),
    {
        self.table.mark_bucket_as_probed(id, now);
    }

    /// Forgets a peer that stopped answering.
    pub fn remove_node(&mut self, id: &SubotaiHash)
        requires
            old(self).wf(),
        ensures
            final(self).wf(),
            final(self).spec_id() == old(self).spec_id(),
            final(self).spec_address() == old(self).spec_address(),
            final(self).spec_config() == old(self).spec_config(),
            final(self).spec_storage() == old(self).spec_storage(),
            final(self).spec_conflicts() == old(self).spec_conflicts(),
            final(self).spec_state() == old(self).spec_state(),
            ({
                let t = old(self).spec_table();
                let i = bucket_index(t.parent(), *id);
                &&& final(self).spec_table().bucket(i) == match position_of(t.bucket(i), *id) {
                    Some(p) => t.bucket(i).remove(p),
                    None => t.bucket(i),
                }
                &&& forall|j: int|
                    0 <= j < HASH_SIZE && j != i ==> #[trigger] final(self).spec_table().bucket(j) == t.bucket(j)
            }),
    {
        self.table.remove_node(id);
    }

    /// The `k_factor` stored peers closest to `target`, closest first, the
    /// node itself left out: where a wave starts.
    pub fn closest_known(&self, target: &SubotaiHash) -> (r: Vec<NodeInfo>)
        requires
            self.wf(),
        ensures
            r@.len() <= self.spec_config().k_factor,
            strictly_sorted(r@, *target),
            forall|q: int|
                0 <= q < r@.len() ==> self.spec_table().contains(#[trigger] r@[q]) && r@[q].id != self.spec_id(),
            forall|x: NodeInfo|
                self.spec_table().contains(x) && x.id != self.spec_id() && !(#[trigger] r@.contains(x))
                    ==> r@.len() == self.spec_config().k_factor && (r@.len() > 0 ==> closer(
                    *target,
                    r@.last().id,
                    x.id,
                )),
    {
        let mut excluded: Vec<SubotaiHash> = Vec::new();
        excluded.push(self.id);
        let r = self.table.closest_selection(target, self.configuration.k_factor, Some(&excluded));
        proof {
            assert(excluded@ =~= seq![self.id]);
            assert forall|h: SubotaiHash| excluded@.contains(h) <==> h == self.id by {
                if h == self.id {
                    assert(excluded@[0] == h);
                }
            }
        }
        r
    }

    /// Resolves the first conflict whose evicted peer is `sender_id`, which
    /// proved to be alive: the conflict leaves the queue and the eviction is
    /// undone.
    pub fn revert_conflicts_for_sender(&mut self, sender_id: &SubotaiHash)
        requires
            old(self).wf(),
        ensures
            reverted_for_sender(*old(self), *sender_id, *final(self)),
    {
        let ghost cs = self.conflicts@;
        let mut p: usize = 0;
        while p < self.conflicts.len()
            invariant
                *self == *old(self),
                self.wf(),
                cs == self.conflicts@,
                p <= cs.len(),
                forall|q: int| 0 <= q < p ==> (#[trigger] cs[q]).evicted.id != *sender_id,
            decreases cs.len() - p,
        {
            if self.conflicts[p].evicted.id == *sender_id {
                proof {
                    crate::hash::lemma_raw_ext(cs[p as int].evicted.id, *sender_id);
                    let w = conflict_of(cs, *sender_id)->Some_0;
                    if w < p {
                    } else if w > p {
                    }
                    assert(conflict_of(cs, *sender_id) == Some(p as int));
                }
                let conflict = self.conflicts.remove(p);
                self.table.revert_conflict(conflict);
                return;
            }
            p += 1;
        }
    }

    /// One round of conflict resolution: conflicts whose evicted peer did
    /// not answer `MAX_CONFLICT_PINGS` pings are given up (the evictor
    /// stays), the others count one more ping. Returns the addresses of the
    /// evicted peers to ping now.
    pub fn conflict_round(&mut self) -> (r: Vec<SocketAddress>)
        requires
            old(self).wf(),
        ensures
            final(self).wf(),
            final(self).spec_id() == old(self).spec_id(),
            final(self).spec_address() == old(self).spec_address(),
            final(self).spec_config() == old(self).spec_config(),
            final(self).spec_storage() == old(self).spec_storage(),
            final(self).spec_state() == old(self).spec_state(),
            final(self).spec_table() == old(self).spec_table(),
            final(self).spec_conflicts() == pinged_round(old(self).spec_conflicts()),
            r@.len() == final(self).spec_conflicts().len(),
            forall|i: int| 0 <= i < r@.len() ==> #[trigger] r@[i] == final(self).spec_conflicts()[i].evicted.address,
    {
        let ghost cs = self.conflicts@;
        let mut kept: Vec<EvictionConflict> = Vec::new();
        let mut pings: Vec<SocketAddress> = Vec::new();
        let mut i: usize = 0;
        proof {
            assert(cs.take(0) =~= Seq::<EvictionConflict>::empty());
        }
        while i < self.conflicts.len()
            invariant
                *self == *old(self),
                self.wf(),
                cs == self.conflicts@,
                i <= cs.len(),
                kept@ == pinged_round(cs.take(i as int)),
                pings@.len() == kept@.len(),
                forall|j: int| 0 <= j < pings@.len() ==> #[trigger] pings@[j] == kept@[j].evicted.address,
            decreases cs.len() - i,
        {
            let c = self.conflicts[i];
            proof {
                assert(cs.take(i + 1).drop_last() =~= cs.take(i as int));
                assert(cs.take(i + 1).last() == c);
            }
            if c.times_pinged < MAX_CONFLICT_PINGS {
                let ghost k0 = kept@;
                let ghost p0 = pings@;
                kept.push(EvictionConflict { times_pinged: c.times_pinged + 1, ..c });
                pings.push(c.evicted.address);
                proof {
                    assert forall|j: int| 0 <= j < pings@.len() implies #[trigger] pings@[j] == kept@[j].evicted.address by {
                        if j < p0.len() {
                            assert(pings@[j] == p0[j] && kept@[j] == k0[j]);
                        }
                    }
                }
            }
            i += 1;
        }
        proof {
            assert(cs.take(i as int) =~= cs);
        }
        self.conflicts = kept;
        pings
    }

    /// Ends the defensive state once a resolution round started with no
    /// conflict left: the node goes back on grid, or off grid when it knows
    /// too few peers. Returns the new state, when it changed.
    pub fn settle_conflicts(&mut self, queue_was_empty: bool) -> (r: Option<State>)
        requires
            old(self).wf(),
        ensures
            final(self).wf(),
            final(self).spec_id() == old(self).spec_id(),
            final(self).spec_address() == old(self).spec_address(),
            final(self).spec_config() == old(self).spec_config(),
            final(self).spec_storage() == old(self).spec_storage(),
            final(self).spec_table() == old(self).spec_table(),
            final(self).spec_conflicts() == old(self).spec_conflicts(),
            final(self).spec_state() == if old(self).spec_state() == State::Defensive && queue_was_empty {
                if old(self).spec_table().spec_len() > old(self).spec_config().k_factor {
                    State::OnGrid
                } else {
                    State::OffGrid
                }
            } else {
                old(self).spec_state()
            },
            r == if old(self).spec_state() == State::Defensive && queue_was_empty {
                Some(final(self).spec_state())
            } else {
                None
            },
    {
        if self.state == State::Defensive && queue_was_empty {
            self.state = if self.table.len() > self.configuration.k_factor {
                State::OnGrid
            } else {
                State::OffGrid
            };
            Some(self.state)
        } else {
            None
        }
    }
}

/// The conflict that fills the queue up to `max_conflicts` puts a node that
/// was not defensive into the defensive state.
pub proof fn lemma_conflicts_reach_defensive(old: Resources, info: NodeInfo, new: Resources, r: Option<State>)
    requires
        old.wf(),
        update_table_spec(old, info, new, r),
        old.spec_state() != State::Defensive,
        new.spec_conflicts().len() > old.spec_conflicts().len(),
        new.spec_conflicts().len() >= old.spec_config().max_conflicts,
    ensures
        new.spec_state() == State::Defensive,
        r == Some(State::Defensive),
{
}

/// In defensive state, a peer whose admission would evict another is
/// refused: it is stored nowhere afterwards, and no conflict is queued.
pub proof fn lemma_defensive_refuses_eviction(old: Resources, info: NodeInfo, new: Resources, r: Option<State>)
    requires
        old.wf(),
        update_table_spec(old, info, new, r),
        old.spec_state() == State::Defensive,
        info.id != old.spec_id(),
        ({
            let b = old.spec_table().bucket(bucket_index(old.spec_id(), info.id));
            position_of(b, info.id) is None && b.len() == old.spec_config().k_factor
        }),
    ensures
        new.spec_conflicts() == old.spec_conflicts(),
        new.spec_state() == State::Defensive,
        forall|j: int| 0 <= j < HASH_SIZE ==> !#[trigger] new.spec_table().bucket(j).contains(info),
        forall|j: int, p: int|
            0 <= j < HASH_SIZE && 0 <= p < new.spec_table().bucket(j).len() ==> (#[trigger] new.spec_table().bucket(
                j,
            )[p]).id != info.id,
        ({
            let i = bucket_index(old.spec_id(), info.id);
            &&& forall|y: NodeInfo| #[trigger] new.spec_table().bucket(i).contains(y) <==> old.spec_table().bucket(
                i,
            ).contains(y)
            &&& forall|j: int|
                0 <= j < HASH_SIZE && j != i ==> #[trigger] new.spec_table().bucket(j) == old.spec_table().bucket(j)
        }),
{
    let t = old.spec_table();
    let (mid, u) = choose|mid: Table, u: UpdateResult| #[trigger] update_spec(t, info, mid, u) && {
        let conflicted = u is CausedConflict;
        let defensive = old.spec_state() == State::Defensive;
        &&& if conflicted && defensive {
            revert_spec(mid, u->CausedConflict_0, new.spec_table()) && new.spec_conflicts()
                == old.spec_conflicts()
        } else if conflicted {
            new.spec_table() == mid && new.spec_conflicts() == old.spec_conflicts().push(
                u->CausedConflict_0,
            )
        } else {
            new.spec_table() == mid && new.spec_conflicts() == old.spec_conflicts()
        }
        &&& new.spec_state() == after_admission(
            old.spec_state(),
            conflicted && !defensive && new.spec_conflicts().len() >= old.spec_config().max_conflicts,
            new.spec_table().spec_len() > old.spec_config().k_factor,
        )
    };
    let i = bucket_index(t.parent(), info.id);
    let b = t.bucket(i);
    let c = u->CausedConflict_0;
    assert(c == EvictionConflict { evicted: b[0], evictor: info, times_pinged: 0 });
    let mb = mid.bucket(i);
    assert(mb == b.drop_first().push(info));
    crate::hash::lemma_top_set_spec(crate::hash::xor_bits(t.parent(), info.id), HASH_SIZE as int);
    assert(0 <= i < HASH_SIZE);
    assert(t.bucket(i)[0] == b[0]);
    assert(distance_height(t.parent(), b[0].id) == Some(i));
    assert(b[0].id != t.parent()) by {
        crate::hash::lemma_distance_none_iff_equal(t.parent(), b[0].id);
    }
    assert(position_of(mb, c.evicted.id) is None) by {
        assert forall|p: int| 0 <= p < mb.len() implies (#[trigger] mb[p]).id != c.evicted.id by {
            if p < mb.len() - 1 {
                assert(mb[p] == b[p + 1]);
                assert(unique_ids(b));
                assert(b[0].id != b[p + 1].id);
            } else {
                assert(mb[p] == info);
                assert(b[0].id != info.id);
            }
        }
    }
    assert(mb[mb.len() - 1].id == info.id);
    assert(position_of(mb, c.evictor.id) is Some);
    assert(mid.restorable(c));
    let p = position_of(mb, info.id)->Some_0;
    assert(p == mb.len() - 1) by {
        if p != mb.len() - 1 {
            assert(mb[p] == b[p + 1]);
        }
    }
    let nb = new.spec_table().bucket(i);
    assert(nb == mb.update(p, b[0]));
    assert forall|q: int| 0 <= q < nb.len() implies nb[q].id != info.id by {
        if q < nb.len() - 1 {
            assert(nb[q] == b[q + 1]);
        }
    }
    assert forall|j: int| 0 <= j < HASH_SIZE implies !#[trigger] new.spec_table().bucket(j).contains(info) by {
        if j == i {
            if nb.contains(info) {
                let q = choose|q: int| 0 <= q < nb.len() && nb[q] == info;
            }
        } else {
            assert(new.spec_table().bucket(j) == mid.bucket(j));
        }
    }
    assert(nb =~= b.drop_first().push(b[0]));
    assert forall|y: NodeInfo| #[trigger] nb.contains(y) <==> b.contains(y) by {
        if nb.contains(y) {
            let q = choose|q: int| 0 <= q < nb.len() && nb[q] == y;
            if q < nb.len() - 1 {
                assert(b[q + 1] == y);
            } else {
                assert(b[0] == y);
            }
        }
        if b.contains(y) {
            let q = choose|q: int| 0 <= q < b.len() && b[q] == y;
            if q == 0 {
                assert(nb[nb.len() - 1] == y);
            } else {
                assert(nb[q - 1] == y);
            }
        }
    }
    assert forall|j: int, q: int|
        0 <= j < HASH_SIZE && 0 <= q < new.spec_table().bucket(j).len() implies (#[trigger] new.spec_table().bucket(
        j,
    )[q]).id != info.id by {
        if j == i {
            if q < nb.len() - 1 {
                assert(nb[q] == b[q + 1]);
            } else {
                assert(nb[q] == b[0]);
            }
        } else {
            assert(new.spec_table().bucket(j) == mid.bucket(j));
            assert(distance_height(t.parent(), mid.bucket(j)[q].id) == Some(j));
        }
    }
    assert forall|j: int| 0 <= j < HASH_SIZE && j != i implies #[trigger] new.spec_table().bucket(j)
        == t.bucket(j) by {
        assert(new.spec_table().bucket(j) == mid.bucket(j));
    }
}

/// The state after `n` admissions of a run (see `lemma_conflict_run`).
pub open spec fn run_state_ok(rs: Seq<Resources>, ps: Seq<NodeInfo>, b: int, n: int) -> bool {
    let r = rs[n];
    let r0 = rs[0];
    &&& r.wf()
    &&& r.spec_id() == r0.spec_id()
    &&& r.spec_config() == r0.spec_config()
    &&& r.spec_conflicts().len() == n
    &&& n > 0 && n >= r0.spec_config().max_conflicts ==> r.spec_state() == State::Defensive
    &&& n < r0.spec_config().max_conflicts ==> r.spec_state() != State::Defensive
    &&& r.spec_table().bucket(b).len() == r0.spec_config().k_factor
    &&& forall|y: NodeInfo|
        #[trigger] r.spec_table().bucket(b).contains(y) ==> r0.spec_table().bucket(b).contains(y) || exists|
            j: int,
        | 0 <= j < n && ps[j] == y
}

/// Node `rs[i + 1]` is node `rs[i]` after admitting `ps[i]`.
pub open spec fn admission_step(rs: Seq<Resources>, ps: Seq<NodeInfo>, i: int) -> bool {
    exists|s: Option<State>| #[trigger] update_table_spec(rs[i], ps[i], rs[i + 1], s)
}

/// The requirements of a run: a node out of the defensive state with no
/// conflict queued and bucket `b` full admits, one after the other, peers
/// with distinct new IDs that all fall in bucket `b`.
pub open spec fn conflict_run(rs: Seq<Resources>, ps: Seq<NodeInfo>, b: int) -> bool {
    let r0 = rs[0];
    &&& rs.len() == ps.len() + 1
    &&& r0.wf()
    &&& r0.spec_state() != State::Defensive
    &&& r0.spec_conflicts().len() == 0
    &&& 0 <= b < HASH_SIZE
    &&& r0.spec_table().bucket(b).len() == r0.spec_config().k_factor
    &&& ps.len() <= r0.spec_config().max_conflicts
    &&& forall|i: int| 0 <= i < ps.len() ==> #[trigger] admission_step(rs, ps, i)
    &&& forall|i: int|
        0 <= i < ps.len() ==> (#[trigger] ps[i]).id != r0.spec_id() && bucket_index(r0.spec_id(), ps[i].id)
            == b
    &&& forall|i: int, p: int|
        0 <= i < ps.len() && 0 <= p < r0.spec_table().bucket(b).len() ==> (#[trigger] r0.spec_table().bucket(
            b,
        )[p]).id != (#[trigger] ps[i]).id
    &&& forall|i: int, j: int| 0 <= i < j < ps.len() ==> (#[trigger] ps[i]).id != (#[trigger] ps[j]).id
}

/// Each admission of a run queues one more conflict, and the node stays out
/// of the defensive state until the queue holds `max_conflicts`.
pub proof fn lemma_conflict_run_prefix(rs: Seq<Resources>, ps: Seq<NodeInfo>, b: int, n: int)
    requires
        conflict_run(rs, ps, b),
        0 <= n <= ps.len(),
    ensures
        run_state_ok(rs, ps, b, n),
    decreases n,
{
    let r0 = rs[0];
    if n > 0 {
        lemma_conflict_run_prefix(rs, ps, b, n - 1);
        let old = rs[n - 1];
        let new = rs[n];
        let info = ps[n - 1];
        let t = old.spec_table();
        let bk = t.bucket(b);
        assert(admission_step(rs, ps, n - 1));
        let s = choose|s: Option<State>| #[trigger] update_table_spec(old, info, new, s);
        let (mid, u) = choose|mid: Table, u: UpdateResult|
            #[trigger] update_spec(t, info, mid, u) && {
                let conflicted = u is CausedConflict;
                let defensive = old.spec_state() == State::Defensive;
                &&& if conflicted && defensive {
                    revert_spec(mid, u->CausedConflict_0, new.spec_table()) && new.spec_conflicts()
                        == old.spec_conflicts()
                } else if conflicted {
                    new.spec_table() == mid && new.spec_conflicts() == old.spec_conflicts().push(
                        u->CausedConflict_0,
                    )
                } else {
                    new.spec_table() == mid && new.spec_conflicts() == old.spec_conflicts()
                }
                &&& new.spec_state() == after_admission(
                    old.spec_state(),
                    conflicted && !defensive && new.spec_conflicts().len() >= old.spec_config().max_conflicts,
                    new.spec_table().spec_len() > old.spec_config().k_factor,
                )
            };
        assert(info == ps[n - 1]);
        assert(bucket_index(t.parent(), info.id) == b);
        assert forall|p: int| 0 <= p < bk.len() implies (#[trigger] bk[p]).id != info.id by {
            let y = bk[p];
            assert(bk.contains(y));
            if !r0.spec_table().bucket(b).contains(y) {
                let j = choose|j: int| 0 <= j < n - 1 && ps[j] == y;
            } else {
                let q = choose|q: int| 0 <= q < r0.spec_table().bucket(b).len() && r0.spec_table().bucket(b)[q] == y;
            }
        }
        assert(position_of(bk, info.id) is None);
        assert(u is CausedConflict);
        let mb = mid.bucket(b);
        assert(mb == bk.drop_first().push(info));
        assert forall|y: NodeInfo| #[trigger] new.spec_table().bucket(b).contains(y) implies r0.spec_table().bucket(
            b,
        ).contains(y) || exists|j: int| 0 <= j < n && ps[j] == y by {
            let q = choose|q: int| 0 <= q < mb.len() && mb[q] == y;
            if q < mb.len() - 1 {
                assert(bk[q + 1] == y);
                assert(bk.contains(y));
                if !r0.spec_table().bucket(b).contains(y) {
                    let j = choose|j: int| 0 <= j < n - 1 && ps[j] == y;
                    assert(0 <= j < n && ps[j] == y);
                }
            } else {
                assert(ps[n - 1] == y);
            }
        }
        assert(new.wf());
        assert(new.spec_id() == r0.spec_id());
        assert(new.spec_config() == r0.spec_config());
        assert(new.spec_conflicts().len() == n);
        assert(new.spec_table().bucket(b).len() == r0.spec_config().k_factor);
    }
}

/// A run of `max_conflicts` admissions, each evicting a peer of the full
/// bucket, queues `max_conflicts` conflicts and leaves the node in the
/// defensive state; any shorter run leaves it out of it.
pub proof fn lemma_conflict_run(rs: Seq<Resources>, ps: Seq<NodeInfo>, b: int)
    requires
        conflict_run(rs, ps, b),
    ensures
        rs[ps.len() as int].spec_conflicts().len() == ps.len(),
        0 < ps.len() == rs[0].spec_config().max_conflicts ==> rs[ps.len() as int].spec_state()
            == State::Defensive,
        ps.len() < rs[0].spec_config().max_conflicts ==> rs[ps.len() as int].spec_state() != State::Defensive,
{
    lemma_conflict_run_prefix(rs, ps, b, ps.len() as int);
}

/// A table whose buckets are all empty holds no peer.
pub proof fn lemma_count_zero(t: Table, n: int)
    requires
        n <= HASH_SIZE,
        forall|i: int| 0 <= i < HASH_SIZE ==> (#[trigger] t.bucket(i)).len() == 0,
    ensures
        t.count_below(n) == 0,
    decreases n,
{
    if n > 0 {
        lemma_count_zero(t, n - 1);
    }
}

} // verus!
