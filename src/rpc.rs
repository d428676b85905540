//! The RPC records exchanged between nodes. Every RPC carries the sender's
//! descriptor and, for most kinds, a payload.
use vstd::prelude::*;
use crate::hash::{lemma_raw_ext, SubotaiHash};
use crate::routing::{LookupResult, NodeInfo};
use crate::storage::{same_entry, StorageEntry, StoreResult};

verus! {

/// Largest distance, in seconds, from the epoch that a broken-down time is
/// computed for.
pub const MAX_CALENDAR_SECONDS: i64 = 1_099_511_627_776;

/// A broken-down UTC time, as carried on the wire.
#[derive(Debug, Clone, Copy, PartialEq, Eq, Structural)]
pub struct SerializableTime {
    pub tm_sec: i32,
    pub tm_min: i32,
    pub tm_hour: i32,
    pub tm_mday: i32,
    pub tm_mon: i32,
    pub tm_year: i32,
    pub tm_wday: i32,
    pub tm_yday: i32,
    pub tm_isdst: i32,
    pub tm_utcoff: i32,
    pub tm_nsec: i32,
}

/// The broken-down UTC time of a number of seconds since the epoch.
pub uninterp spec fn utc_time_of(sec: int) -> SerializableTime;

/// The seconds since the epoch of a broken-down time read as UTC (its
/// offset field is 0).
pub uninterp spec fn seconds_of(t: SerializableTime) -> i64;

/// The same fields with a zero UTC offset.
pub open spec fn at_utc_offset(t: SerializableTime) -> SerializableTime {
    SerializableTime { tm_utcoff: 0, ..t }
}

/// The seconds since the epoch of a broken-down local time whose offset
/// from UTC is `tm_utcoff` seconds: the same fields read as UTC, less the
/// offset.
pub open spec fn epoch_seconds(t: SerializableTime) -> int {
    seconds_of(at_utc_offset(t)) - t.tm_utcoff
}

/// Relies on the time crate's `at_utc`, which breaks a point in time down
/// into calendar fields in UTC and panics when the calendar cannot hold the
/// year.
#[verifier::external_body]
fn utc_time(sec: i64) -> (r: SerializableTime)
    requires
        -MAX_CALENDAR_SECONDS <= sec <= MAX_CALENDAR_SECONDS,
    ensures
        r == utc_time_of(sec as int),
        r.tm_utcoff == 0,
        r.tm_nsec == 0,
{
    let tm = time::at_utc(time::Timespec::new(sec, 0));
    SerializableTime {
        tm_sec: tm.tm_sec,
        tm_min: tm.tm_min,
        tm_hour: tm.tm_hour,
        tm_mday: tm.tm_mday,
        tm_mon: tm.tm_mon,
        tm_year: tm.tm_year,
        tm_wday: tm.tm_wday,
        tm_yday: tm.tm_yday,
        tm_isdst: tm.tm_isdst,
        tm_utcoff: tm.tm_utcoff,
        tm_nsec: tm.tm_nsec,
    }
}

/// Relies on the time crate's `Tm::to_timespec`, which, for fields with a
/// zero UTC offset, reads them as UTC (through `timegm`, independent of the
/// machine's time zone) and turns them into seconds since the epoch; it
/// panics on a nanosecond field outside `0..1_000_000_000`.
#[verifier::external_body]
fn time_seconds(t: &SerializableTime) -> (r: i64)
    requires
        t.tm_utcoff == 0,
        0 <= t.tm_nsec < 1_000_000_000,
    ensures
        r == seconds_of(*t),
{
    let tm = time::Tm {
        tm_sec: t.tm_sec,
        tm_min: t.tm_min,
        tm_hour: t.tm_hour,
        tm_mday: t.tm_mday,
        tm_mon: t.tm_mon,
        tm_year: t.tm_year,
        tm_wday: t.tm_wday,
        tm_yday: t.tm_yday,
        tm_isdst: t.tm_isdst,
        tm_utcoff: t.tm_utcoff,
        tm_nsec: t.tm_nsec,
    };
    tm.to_timespec().sec
}

impl SerializableTime {
    /// Whether the fields can be turned back into seconds: the nanosecond
    /// field is in range, and the seconds fit.
    pub open spec fn is_valid(&self) -> bool {
        &&& 0 <= self.tm_nsec < 1_000_000_000
        &&& i64::MIN <= epoch_seconds(*self) <= i64::MAX
    }

    /// The broken-down UTC time of `sec` seconds since the epoch; `None`
    /// beyond `MAX_CALENDAR_SECONDS` either way.
    pub fn from_seconds(sec: i64) -> (r: Option<SerializableTime>)
        ensures
            -MAX_CALENDAR_SECONDS <= sec <= MAX_CALENDAR_SECONDS ==> r == Some(utc_time_of(sec as int)),
            !(-MAX_CALENDAR_SECONDS <= sec <= MAX_CALENDAR_SECONDS) ==> r is None,
    {
        if sec < -MAX_CALENDAR_SECONDS || sec > MAX_CALENDAR_SECONDS {
            return None;
        }
        Some(utc_time(sec))
    }

    /// The seconds since the epoch of the time, a local time `tm_utcoff`
    /// seconds ahead of UTC; `None` when its nanosecond field is out of
    /// range or the seconds do not fit.
    pub fn to_seconds(&self) -> (r: Option<i64>)
        ensures
            self.is_valid() ==> r == Some(epoch_seconds(*self) as i64),
            !self.is_valid() ==> r is None,
    {
        if self.tm_nsec < 0 || self.tm_nsec >= 1_000_000_000 {
            return None;
        }
        let utc = SerializableTime { tm_utcoff: 0, ..*self };
        let sec = time_seconds(&utc);
        let offset = self.tm_utcoff as i64;
        if offset > 0 && sec < i64::MIN + offset {
            return None;
        }
        if offset < 0 && sec > i64::MAX + offset {
            return None;
        }
        Some(sec - offset)
    }
}

#[derive(Debug, Clone, PartialEq, Eq)]
pub struct StorePayload {
    pub key: SubotaiHash,
    pub entry: StorageEntry,
    pub expiration: SerializableTime,
}

#[derive(Debug, Clone, PartialEq, Eq)]
pub struct StoreResponsePayload {
    pub key: SubotaiHash,
    pub result: StoreResult,
}

#[derive(Debug, Clone, PartialEq, Eq)]
pub struct MassStorePayload {
    pub key: SubotaiHash,
    pub entries_and_expirations: Vec<(StorageEntry, SerializableTime)>,
}

/// Includes the ID to find.
#[derive(Debug, Clone, PartialEq, Eq)]
pub struct LocatePayload {
    pub id_to_find: SubotaiHash,
}

/// Includes the ID to find and the results of the table lookup.
#[derive(Debug, Clone, PartialEq, Eq)]
pub struct LocateResponsePayload {
    pub id_to_find: SubotaiHash,
    pub result: LookupResult,
}

/// What a node answers to a retrieve: the values, or closer nodes to ask.
#[derive(Debug, Clone, PartialEq, Eq)]
pub enum RetrieveResult {
    Found(Vec<StorageEntry>),
    Closest(Vec<NodeInfo>),
}

#[derive(Debug, Clone, PartialEq, Eq)]
pub struct RetrievePayload {
    pub key_to_find: SubotaiHash,
}

#[derive(Debug, Clone, PartialEq, Eq)]
pub struct RetrieveResponsePayload {
    pub key_to_find: SubotaiHash,
    pub result: RetrieveResult,
}

#[derive(Debug, Clone, PartialEq, Eq)]
pub struct ProbePayload {
    pub id_to_probe: SubotaiHash,
}

/// Includes a list of up to `k_factor + 1` nodes close to the probed ID.
#[derive(Debug, Clone, PartialEq, Eq)]
pub struct ProbeResponsePayload {
    pub id_to_probe: SubotaiHash,
    pub nodes: Vec<NodeInfo>,
}

/// Types of RPCs, with their payloads.
#[derive(Debug, Clone, PartialEq, Eq)]
pub enum Kind {
    Ping,
    PingResponse,
    Store(StorePayload),
    MassStore(MassStorePayload),
    StoreResponse(StoreResponsePayload),
    Locate(LocatePayload),
    LocateResponse(LocateResponsePayload),
    Retrieve(RetrievePayload),
    RetrieveResponse(RetrieveResponsePayload),
    Probe(ProbePayload),
    ProbeResponse(ProbeResponsePayload),
}

/// An RPC: its kind and payload, and the sender (whose address is rewritten
/// on reception to the observed source).
#[derive(Debug, Clone, PartialEq, Eq)]
pub struct Rpc {
    pub kind: Kind,
    pub sender: NodeInfo,
}

/// A copy of a list of descriptors.
pub fn copy_nodes(v: &Vec<NodeInfo>) -> (r: Vec<NodeInfo>)
    ensures
        r@ == v@,
{
    let mut r: Vec<NodeInfo> = Vec::new();
    let mut i: usize = 0;
    while i < v.len()
        invariant
            i <= v@.len(),
            r@ == v@.take(i as int),
        decreases v@.len() - i,
    {
        r.push(v[i]);
        i += 1;
        proof {
            assert(r@ =~= v@.take(i as int));
        }
    }
    proof {
        assert(r@ =~= v@);
    }
    r
}

/// `r` holds, in order, entries equal to those of `v`.
pub open spec fn same_entries(r: Seq<StorageEntry>, v: Seq<StorageEntry>) -> bool {
    r.len() == v.len() && forall|k: int| 0 <= k < r.len() ==> same_entry(#[trigger] r[k], v[k])
}

/// A copy of a list of entries.
pub fn copy_entries(v: &Vec<StorageEntry>) -> (r: Vec<StorageEntry>)
    ensures
        same_entries(r@, v@),
{
    let mut r: Vec<StorageEntry> = Vec::new();
    let mut i: usize = 0;
    while i < v.len()
        invariant
            i <= v@.len(),
            r@.len() == i,
            forall|k: int| 0 <= k < i ==> same_entry(#[trigger] r@[k], v@[k]),
        decreases v@.len() - i,
    {
        r.push(v[i].duplicate());
        i += 1;
    }
    r
}

impl Rpc {
    /// The node found by a locate response for `id`.
    pub open spec fn located(&self, id: SubotaiHash) -> Option<NodeInfo> {
        match self.kind {
            Kind::LocateResponse(p) => match p.result {
                LookupResult::Found(n) => if p.id_to_find == id {
                    Some(n)
                } else {
                    None
                },
                _ => None,
            },
            _ => None,
        }
    }

    /// The closer nodes offered by a locate response for `id`.
    pub open spec fn locate_help(&self, id: SubotaiHash) -> Option<Seq<NodeInfo>> {
        match self.kind {
            Kind::LocateResponse(p) => match p.result {
                LookupResult::ClosestNodes(v) => if p.id_to_find == id {
                    Some(v@)
                } else {
                    None
                },
                _ => None,
            },
            _ => None,
        }
    }

    /// The values found by a retrieve response for `key`.
    pub open spec fn retrieved(&self, key: SubotaiHash) -> Option<Seq<StorageEntry>> {
        match self.kind {
            Kind::RetrieveResponse(p) => match p.result {
                RetrieveResult::Found(v) => if p.key_to_find == key {
                    Some(v@)
                } else {
                    None
                },
                _ => None,
            },
            _ => None,
        }
    }

    /// The closer nodes offered by a retrieve response for `key`.
    pub open spec fn retrieve_help(&self, key: SubotaiHash) -> Option<Seq<NodeInfo>> {
        match self.kind {
            Kind::RetrieveResponse(p) => match p.result {
                RetrieveResult::Closest(v) => if p.key_to_find == key {
                    Some(v@)
                } else {
                    None
                },
                _ => None,
            },
            _ => None,
        }
    }

    /// The nodes listed by a probe response for `target`.
    pub open spec fn probed(&self, target: SubotaiHash) -> Option<Seq<NodeInfo>> {
        match self.kind {
            Kind::ProbeResponse(p) => if p.id_to_probe == target {
                Some(p.nodes@)
            } else {
                None
            },
            _ => None,
        }
    }

    /// A store response reporting success for `key`.
    pub open spec fn stored(&self, key: SubotaiHash) -> bool {
        match self.kind {
            Kind::StoreResponse(p) => p.result == StoreResult::Success && p.key == key,
            _ => false,
        }
    }

    /// Constructs a ping RPC. Pings simply carry information about the
    /// sender, and expect a response indicating that the receiving node
    /// is alive.
    pub fn ping(sender: NodeInfo) -> (r: Rpc)
        ensures
            r == (Rpc { kind: Kind::Ping, sender }),
    {
        Rpc { kind: Kind::Ping, sender }
    }

    /// Constructs a ping response.
    pub fn ping_response(sender: NodeInfo) -> (r: Rpc)
        ensures
            r == (Rpc { kind: Kind::PingResponse, sender }),
    {
        Rpc { kind: Kind::PingResponse, sender }
    }

    /// Constructs an RPC asking for the results of a table node lookup. The
    /// process short-circuits when the target node is found.
    pub fn locate(sender: NodeInfo, id_to_find: SubotaiHash) -> (r: Rpc)
        ensures
            r == (Rpc { kind: Kind::Locate(LocatePayload { id_to_find }), sender }),
    {
        Rpc { kind: Kind::Locate(LocatePayload { id_to_find }), sender }
    }

    /// Constructs an RPC with the response to a locate RPC.
    pub fn locate_response(sender: NodeInfo, id_to_find: SubotaiHash, result: LookupResult) -> (r: Rpc)
        ensures
            r == (Rpc {
                kind: Kind::LocateResponse(LocateResponsePayload { id_to_find, result }),
                sender,
            }),
    {
        Rpc { kind: Kind::LocateResponse(LocateResponsePayload { id_to_find, result }), sender }
    }

    /// Constructs an RPC asking for the values stored under a key.
    pub fn retrieve(sender: NodeInfo, key_to_find: SubotaiHash) -> (r: Rpc)
        ensures
            r == (Rpc { kind: Kind::Retrieve(RetrievePayload { key_to_find }), sender }),
    {
        Rpc { kind: Kind::Retrieve(RetrievePayload { key_to_find }), sender }
    }

    /// Constructs the response to a retrieve RPC.
    pub fn retrieve_response(sender: NodeInfo, key_to_find: SubotaiHash, result: RetrieveResult) -> (r:
        Rpc)
        ensures
            r == (Rpc {
                kind: Kind::RetrieveResponse(RetrieveResponsePayload { key_to_find, result }),
                sender,
            }),
    {
        Rpc { kind: Kind::RetrieveResponse(RetrieveResponsePayload { key_to_find, result }), sender }
    }

    /// Constructs a probe RPC. It asks the receiving node for the nodes it
    /// knows closest to a given ID, without ending early when it is found.
    pub fn probe(sender: NodeInfo, id_to_probe: SubotaiHash) -> (r: Rpc)
        ensures
            r == (Rpc { kind: Kind::Probe(ProbePayload { id_to_probe }), sender }),
    {
        Rpc { kind: Kind::Probe(ProbePayload { id_to_probe }), sender }
    }

    /// Constructs the response to a probe RPC.
    pub fn probe_response(sender: NodeInfo, nodes: Vec<NodeInfo>, id_to_probe: SubotaiHash) -> (r: Rpc)
        ensures
            r == (Rpc {
                kind: Kind::ProbeResponse(ProbeResponsePayload { id_to_probe, nodes }),
                sender,
            }),
    {
        Rpc { kind: Kind::ProbeResponse(ProbeResponsePayload { id_to_probe, nodes }), sender }
    }

    /// Constructs a store RPC. It asks the receiving node to store a key->value pair.
    pub fn store(sender: NodeInfo, key: SubotaiHash, entry: StorageEntry, expiration: SerializableTime) -> (r:
        Rpc)
        ensures
            r == (Rpc { kind: Kind::Store(StorePayload { key, entry, expiration }), sender }),
    {
        Rpc { kind: Kind::Store(StorePayload { key, entry, expiration }), sender }
    }

    /// Constructs a mass store RPC. It asks the receiving node to store
    /// several values under one key.
    pub fn mass_store(
        sender: NodeInfo,
        key: SubotaiHash,
        entries_and_expirations: Vec<(StorageEntry, SerializableTime)>,
    ) -> (r: Rpc)
        ensures
            r == (Rpc {
                kind: Kind::MassStore(MassStorePayload { key, entries_and_expirations }),
                sender,
            }),
    {
        Rpc { kind: Kind::MassStore(MassStorePayload { key, entries_and_expirations }), sender }
    }

    /// A store response for `key` reporting `result`.
    pub open spec fn store_response_spec(sender: NodeInfo, key: SubotaiHash, result: StoreResult) -> Rpc {
        Rpc { kind: Kind::StoreResponse(StoreResponsePayload { key, result }), sender }
    }

    /// Constructs a response to the store RPC, including the key and the operation result.
    pub fn store_response(sender: NodeInfo, key: SubotaiHash, result: StoreResult) -> (r: Rpc)
        ensures
            r == Rpc::store_response_spec(sender, key, result),
    {
        Rpc { kind: Kind::StoreResponse(StoreResponsePayload { key, result }), sender }
    }

    /// Reports whether the RPC is a LocateResponse that found
    /// a particular node. If it was, returns the node.
    pub fn successfully_located(&self, id: &SubotaiHash) -> (r: Option<NodeInfo>)
        ensures
            r == self.located(*id),
    {
        match &self.kind {
            Kind::LocateResponse(payload) => match &payload.result {
                LookupResult::Found(node) => {
                    if payload.id_to_find == *id {
                        proof {
                            lemma_raw_ext(payload.id_to_find, *id);
                        }
                        Some(*node)
                    } else {
                        None
                    }
                },
                _ => None,
            },
            _ => None,
        }
    }

    /// Reports whether the RPC is a LocateResponse that failed to locate.
    /// If so, provides the closest nodes.
    pub fn is_helping_locate(&self, id: &SubotaiHash) -> (r: Option<Vec<NodeInfo>>)
        ensures
            match r {
                Some(v) => self.locate_help(*id) == Some(v@),
                None => self.locate_help(*id) is None,
            },
    {
        match &self.kind {
            Kind::LocateResponse(payload) => match &payload.result {
                LookupResult::ClosestNodes(nodes) => {
                    if payload.id_to_find == *id {
                        proof {
                            lemma_raw_ext(payload.id_to_find, *id);
                        }
                        Some(copy_nodes(nodes))
                    } else {
                        None
                    }
                },
                _ => None,
            },
            _ => None,
        }
    }

    /// Reports whether the RPC is a RetrieveResponse that found
    /// a particular key. If so, provides its values.
    pub fn successfully_retrieved(&self, key: &SubotaiHash) -> (r: Option<Vec<StorageEntry>>)
        ensures
            match r {
                Some(v) => self.retrieved(*key) is Some && same_entries(v@, self.retrieved(*key)->Some_0),
                None => self.retrieved(*key) is None,
            },
    {
        match &self.kind {
            Kind::RetrieveResponse(payload) => match &payload.result {
                RetrieveResult::Found(entries) => {
                    if payload.key_to_find == *key {
                        proof {
                            lemma_raw_ext(payload.key_to_find, *key);
                        }
                        Some(copy_entries(entries))
                    } else {
                        None
                    }
                },
                _ => None,
            },
            _ => None,
        }
    }

    /// Reports whether the RPC is a StoreResponse reporting success for a key.
    pub fn successfully_stored(&self, key: &SubotaiHash) -> (r: bool)
        ensures
            r == self.stored(*key),
    {
        match &self.kind {
            Kind::StoreResponse(payload) => {
                let ok = match payload.result {
                    StoreResult::Success => true,
                    _ => false,
                };
                if ok && payload.key == *key {
                    proof {
                        lemma_raw_ext(payload.key, *key);
                    }
                    true
                } else {
                    false
                }
            },
            _ => false,
        }
    }

    /// Reports whether the RPC is a RetrieveResponse that did not find a
    /// key. If so, provides the closest nodes.
    pub fn is_helping_retrieve(&self, key: &SubotaiHash) -> (r: Option<Vec<NodeInfo>>)
        ensures
            match r {
                Some(v) => self.retrieve_help(*key) == Some(v@),
                None => self.retrieve_help(*key) is None,
            },
    {
        match &self.kind {
            Kind::RetrieveResponse(payload) => match &payload.result {
                RetrieveResult::Closest(nodes) => {
                    if payload.key_to_find == *key {
                        proof {
                            lemma_raw_ext(payload.key_to_find, *key);
                        }
                        Some(copy_nodes(nodes))
                    } else {
                        None
                    }
                },
                _ => None,
            },
            _ => None,
        }
    }

    /// Reports whether the RPC is a ProbeResponse for a target. If so,
    /// provides the nodes it lists.
    pub fn is_probe_response(&self, target: &SubotaiHash) -> (r: Option<Vec<NodeInfo>>)
        ensures
            match r {
                Some(v) => self.probed(*target) == Some(v@),
                None => self.probed(*target) is None,
            },
    {
        match &self.kind {
            Kind::ProbeResponse(payload) => {
                if payload.id_to_probe == *target {
                    proof {
                        lemma_raw_ext(payload.id_to_probe, *target);
                    }
                    Some(copy_nodes(&payload.nodes))
                } else {
                    None
                }
            },
            _ => None,
        }
    }
}

} // verus!
