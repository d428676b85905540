//! The routing table: 160 buckets of peers indexed by the height of their
//! XOR distance to the local identifier.
use vstd::prelude::*;
use crate::hash::{
    bits_lt, closer, distance_height, lemma_bits_ext, lemma_distance_none_iff_equal, lemma_raw_ext,
    lemma_top_set_spec, top_set, xor_bits, SubotaiHash, HASH_SIZE,
};

verus! {

/// An IP address held as plain numbers.
#[derive(Debug, Clone, Copy, PartialEq, Eq, Structural, Hash)]
pub enum IpAddress {
    V4(u32),
    V6(u128),
}

/// An IP address and a port.
#[derive(Debug, Clone, Copy, PartialEq, Eq, Structural, Hash)]
pub struct SocketAddress {
    pub ip: IpAddress,
    pub port: u16,
}

/// ID - Address pair that identifies a unique node in the network.
/// Two descriptors are equal when their IDs are.
#[derive(Debug, Clone, Copy, Eq)]
pub struct NodeInfo {
    pub id: SubotaiHash,
    pub address: SocketAddress,
}

impl PartialEq for NodeInfo {
    fn eq(&self, other: &NodeInfo) -> (r: bool)
        ensures
            r == (self.id == other.id),
    {
        let r = self.id == other.id;
        proof {
            if r {
                lemma_raw_ext(self.id, other.id);
            }
        }
        r
    }
}

impl vstd::std_specs::cmp::PartialEqSpecImpl for NodeInfo {
    open spec fn obeys_eq_spec() -> bool {
        true
    }

    open spec fn eq_spec(&self, other: &NodeInfo) -> bool {
        self.id == other.id
    }
}

/// Result of a table lookup.
#[derive(Debug, Clone, PartialEq, Eq)]
pub enum LookupResult {
    /// The requested ID was found on the table.
    Found(NodeInfo),
    /// The requested ID was not found, but here are the next
    /// closest nodes to consult.
    ClosestNodes(Vec<NodeInfo>),
    /// The table is empty or the blacklist provided doesn't allow
    /// returning any close nodes.
    Nothing,
}

/// Represents a conflict derived from attempting to insert a node in a full
/// bucket.
#[derive(Debug, Clone, Copy)]
pub struct EvictionConflict {
    pub evicted: NodeInfo,
    pub evictor: NodeInfo,
    pub times_pinged: u8,
}

/// Result of updating the table with a recently contacted node.
#[derive(Debug, Clone, Copy)]
pub enum UpdateResult {
    /// There wasn't an entry for the node, so it has been added.
    AddedNode,
    /// There was an entry for the node, so it has been moved to
    /// the tail of its bucket.
    UpdatedNode,
    /// There wasn't an entry for the node and the bucket was full,
    /// so it has been added, evicting an older node.
    CausedConflict(EvictionConflict),
    /// The node carries the table's own ID, which is never stored.
    Rejected,
}

/// A bounded list of peers, least recently confirmed first, with the time of
/// the last probe aimed at it.
#[derive(Debug)]
struct Bucket {
    entries: Vec<NodeInfo>,
    last_probe: Option<i64>,
}

/// Routing table with 160 buckets of `k_factor` node identifiers each,
/// constructed around a parent node ID.
///
/// Newcomers to a full bucket evict its least recently seen peer; the
/// eviction is reported as a conflict so that it can be resolved later.
pub struct Table {
    buckets: Vec<Bucket>,
    parent_id: SubotaiHash,
    k_factor: usize,
}

/// Bucket that a peer belongs to: the height of its distance to `parent`.
pub open spec fn bucket_index(parent: SubotaiHash, id: SubotaiHash) -> int {
    match distance_height(parent, id) {
        Some(i) => i,
        None => 0,
    }
}

/// Position of the entry with this ID, if any.
pub open spec fn position_of(s: Seq<NodeInfo>, id: SubotaiHash) -> Option<int> {
    if exists|p: int| 0 <= p < s.len() && (#[trigger] s[p]).id == id {
        Some(choose|p: int| 0 <= p < s.len() && (#[trigger] s[p]).id == id)
    } else {
        None
    }
}

/// The entries of a bucket after a peer has been confirmed: it moves to the
/// back, entering at the expense of the front entry when the bucket is full.
pub open spec fn bucket_after_update(b: Seq<NodeInfo>, k: nat, info: NodeInfo) -> Seq<NodeInfo> {
    match position_of(b, info.id) {
        Some(p) => b.remove(p).push(info),
        None => if b.len() < k {
            b.push(info)
        } else {
            b.drop_first().push(info)
        },
    }
}

/// IDs within a sequence of descriptors are distinct.
pub open spec fn unique_ids(s: Seq<NodeInfo>) -> bool {
    forall|a: int, b: int| 0 <= a < b < s.len() ==> (#[trigger] s[a]).id != (#[trigger] s[b]).id
}

/// Order in which the bounce walk visits bucket `i` for the distance bits
/// `d`: set bits from the top down first, then clear bits from the bottom up.
pub open spec fn bounce_rank(d: spec_fn(int) -> bool, i: int) -> int {
    if d(i) {
        HASH_SIZE - 1 - i
    } else {
        HASH_SIZE + i
    }
}

/// An ID that the blacklist, if any, does not name.
pub open spec fn allowed(blacklist: Option<&Vec<SubotaiHash>>, id: SubotaiHash) -> bool {
    match blacklist {
        Some(b) => !b@.contains(id),
        None => true,
    }
}

pub proof fn lemma_bits_lt_transitive(
    f: spec_fn(int) -> bool,
    g: spec_fn(int) -> bool,
    h: spec_fn(int) -> bool,
)
    requires
        bits_lt(f, g),
        bits_lt(g, h),
    ensures
        bits_lt(f, h),
{
    let m1 = choose|m: int|
        0 <= m < HASH_SIZE && !f(m) && #[trigger] g(m) && (forall|j: int|
            #![trigger f(j)]
            #![trigger g(j)]
            m < j < HASH_SIZE ==> f(j) == g(j));
    let m2 = choose|m: int|
        0 <= m < HASH_SIZE && !g(m) && #[trigger] h(m) && (forall|j: int|
            #![trigger g(j)]
            #![trigger h(j)]
            m < j < HASH_SIZE ==> g(j) == h(j));
    if m1 > m2 {
        assert(h(m1));
    } else {
        assert(!f(m2));
    }
}

/// The bounce walk is ordered by distance: a peer of a bucket visited
/// earlier is strictly closer to the target than a peer of a bucket visited
/// later.
pub proof fn lemma_bounce_order(parent: SubotaiHash, target: SubotaiHash, x: SubotaiHash, y: SubotaiHash)
    requires
        distance_height(parent, x) is Some,
        distance_height(parent, y) is Some,
        bounce_rank(xor_bits(parent, target), bucket_index(parent, x)) < bounce_rank(
            xor_bits(parent, target),
            bucket_index(parent, y),
        ),
    ensures
        closer(target, x, y),
{
    let i = bucket_index(parent, x);
    let j = bucket_index(parent, y);
    let d = xor_bits(parent, target);
    let fx = xor_bits(x, target);
    let fy = xor_bits(y, target);
    lemma_top_set_spec(xor_bits(parent, x), HASH_SIZE as int);
    lemma_top_set_spec(xor_bits(parent, y), HASH_SIZE as int);
    let m = if i > j {
        i
    } else {
        j
    };
    assert(xor_bits(parent, x)(i));
    assert(xor_bits(parent, y)(j));
    assert forall|k: int| m < k < HASH_SIZE implies #[trigger] fx(k) == fy(k) by {
        assert(!xor_bits(parent, x)(k));
        assert(!xor_bits(parent, y)(k));
    }
    if i > j {
        assert(!xor_bits(parent, y)(i));
        assert(d(i));
    } else {
        assert(!xor_bits(parent, x)(j));
        assert(!d(j));
    }
    assert(!fx(m) && fy(m));
    assert(bits_lt(fx, fy));
}

pub proof fn lemma_concat_contains(a: Seq<NodeInfo>, b: Seq<NodeInfo>)
    ensures
        forall|x: NodeInfo| #[trigger] (a + b).contains(x) <==> a.contains(x) || b.contains(x),
{
    assert forall|x: NodeInfo| #[trigger] (a + b).contains(x) implies a.contains(x) || b.contains(x) by {
        let k = choose|k: int| 0 <= k < (a + b).len() && (a + b)[k] == x;
        if k < a.len() {
            assert(a[k] == x);
        } else {
            assert(b[k - a.len()] == x);
        }
    }
    assert forall|x: NodeInfo| a.contains(x) || b.contains(x) implies #[trigger] (a + b).contains(x) by {
        if a.contains(x) {
            let k = choose|k: int| 0 <= k < a.len() && a[k] == x;
            assert((a + b)[k] == x);
        } else {
            let k = choose|k: int| 0 <= k < b.len() && b[k] == x;
            assert((a + b)[k + a.len()] == x);
        }
    }
}

/// Position of the first entry with this ID.
fn find_id(entries: &Vec<NodeInfo>, id: &SubotaiHash) -> (r: Option<usize>)
    ensures
        match r {
            Some(p) => p < entries@.len() && entries@[p as int].id == *id && forall|q: int|
                0 <= q < p ==> (#[trigger] entries@[q]).id != *id,
            None => forall|q: int| 0 <= q < entries@.len() ==> (#[trigger] entries@[q]).id != *id,
        },
{
    let mut j: usize = 0;
    while j < entries.len()
        invariant
            j <= entries.len(),
            forall|q: int| 0 <= q < j ==> (#[trigger] entries@[q]).id != *id,
        decreases entries.len() - j,
    {
        if entries[j].id == *id {
            proof {
                lemma_raw_ext(entries@[j as int].id, *id);
            }
            return Some(j);
        }
        j += 1;
    }
    None
}

/// Whether the blacklist, if any, leaves this ID out.
fn is_allowed(id: &SubotaiHash, blacklist: Option<&Vec<SubotaiHash>>) -> (r: bool)
    ensures
        r == allowed(blacklist, *id),
{
    if blacklist.is_none() {
        return true;
    }
    let b = blacklist.unwrap();
    let mut j: usize = 0;
    while j < b.len()
        invariant
            blacklist == Some(b),
            j <= b@.len(),
            forall|q: int| 0 <= q < j ==> b@[q] != *id,
        decreases b@.len() - j,
    {
        if b[j] == *id {
            proof {
                lemma_raw_ext(b@[j as int], *id);
                assert(b@.contains(*id));
            }
            return false;
        }
        j += 1;
    }
    true
}

/// Whether `a` is strictly closer to `target` than `b`.
pub fn is_closer(target: &SubotaiHash, a: &SubotaiHash, b: &SubotaiHash) -> (r: bool)
    ensures
        r == closer(*target, *a, *b),
{
    let da = a.xor(target);
    let db = b.xor(target);
    match da.compare(&db) {
        core::cmp::Ordering::Less => true,
        _ => false,
    }
}

/// Copies descriptors with distinct IDs, sorted by ascending XOR distance to
/// `target`.
pub fn sorted_by_distance_to(entries: &Vec<NodeInfo>, target: &SubotaiHash) -> (r: Vec<NodeInfo>)
    requires
        unique_ids(entries@),
    ensures
        forall|y: NodeInfo| #[trigger] r@.contains(y) <==> entries@.contains(y),
        strictly_sorted(r@, *target),
{
    let mut res: Vec<NodeInfo> = Vec::new();
    let mut j: usize = 0;
    while j < entries.len()
        invariant
            j <= entries@.len(),
            unique_ids(entries@),
            strictly_sorted(res@, *target),
            forall|y: NodeInfo|
                #[trigger] res@.contains(y) <==> exists|q: int| 0 <= q < j && entries@[q] == y,
        decreases entries@.len() - j,
    {
        let x = entries[j];
        let ghost r0 = res@;
        insert_by_distance(&mut res, x, target);
        proof {
            let k = choose|k: int| 0 <= k < res@.len() && (#[trigger] res@[k]).id == x.id;
            assert(res@.contains(res@[k]));
            if res@[k] != x {
                let q = choose|q: int| 0 <= q < j && entries@[q] == res@[k];
                assert(entries@[q].id == entries@[j as int].id);
            }
            assert(res@.contains(x));
            assert forall|y: NodeInfo| #[trigger] res@.contains(y) <==> exists|q: int|
                0 <= q < j + 1 && entries@[q] == y by {
                if res@.contains(y) && y != x {
                    assert(r0.contains(y));
                }
                if exists|q: int| 0 <= q < j + 1 && entries@[q] == y {
                    let q = choose|q: int| 0 <= q < j + 1 && entries@[q] == y;
                    if q < j {
                        assert(r0.contains(y));
                    }
                }
            }
        }
        j += 1;
    }
    proof {
        assert forall|y: NodeInfo| #[trigger] res@.contains(y) <==> entries@.contains(y) by {
            if entries@.contains(y) {
                let q = choose|q: int| 0 <= q < entries@.len() && entries@[q] == y;
            }
        }
    }
    res
}

/// Each element of `s` is strictly closer to `target` than the ones after it.
pub open spec fn strictly_sorted(s: Seq<NodeInfo>, target: SubotaiHash) -> bool {
    forall|a: int, b: int|
        0 <= a < b < s.len() ==> closer(target, (#[trigger] s[a]).id, (#[trigger] s[b]).id)
}

/// Two different identifiers are never at the same distance from a target.
pub proof fn lemma_closer_total(target: SubotaiHash, a: SubotaiHash, b: SubotaiHash)
    requires
        !closer(target, a, b),
        !closer(target, b, a),
    ensures
        a == b,
{
    let f = xor_bits(a, target);
    let g = xor_bits(b, target);
    let h = |i: int| f(i) != g(i);
    lemma_top_set_spec(h, HASH_SIZE as int);
    match top_set(h, HASH_SIZE as int) {
        Some(m) => {
            assert forall|j: int| m < j < HASH_SIZE implies #[trigger] f(j) == g(j) by {
                assert(!h(j));
            }
            if f(m) {
                assert(bits_lt(g, f));
            } else {
                assert(bits_lt(f, g));
            }
        },
        None => {
            assert forall|i: int| 0 <= i < HASH_SIZE implies #[trigger] a.has_bit(i) == b.has_bit(i) by {
                assert(!h(i));
            }
            lemma_bits_ext(a, b);
            lemma_raw_ext(a, b);
        },
    }
}

/// Adds a descriptor to a list strictly sorted by distance to `target`,
/// unless the list already holds its ID.
pub fn insert_by_distance(v: &mut Vec<NodeInfo>, x: NodeInfo, target: &SubotaiHash)
    requires
        strictly_sorted(old(v)@, *target),
    ensures
        strictly_sorted(final(v)@, *target),
        forall|y: NodeInfo| #[trigger] final(v)@.contains(y) ==> old(v)@.contains(y) || y == x,
        forall|y: NodeInfo| #[trigger] old(v)@.contains(y) ==> final(v)@.contains(y),
        exists|k: int| 0 <= k < final(v)@.len() && (#[trigger] final(v)@[k]).id == x.id,
{
    let ghost s = v@;
    let mut p: usize = 0;
    while p < v.len() && is_closer(target, &v[p].id, &x.id)
        invariant
            s == v@,
            p <= v@.len(),
            forall|q: int| 0 <= q < p ==> closer(*target, (#[trigger] v@[q]).id, x.id),
        decreases v@.len() - p,
    {
        p += 1;
    }
    if p < v.len() && v[p].id == x.id {
        proof {
            lemma_raw_ext(v@[p as int].id, x.id);
            assert(v@[p as int].id == x.id);
        }
        return;
    }
    proof {
        let t = s.insert(p as int, x);
        s.insert_ensures(p as int, x);
        if p < s.len() {
            if !closer(*target, x.id, s[p as int].id) {
                lemma_closer_total(*target, x.id, s[p as int].id);
            }
        }
        assert forall|a: int, b: int| 0 <= a < b < t.len() implies closer(
            *target,
            (#[trigger] t[a]).id,
            (#[trigger] t[b]).id,
        ) by {
            if b < p {
            } else if b == p {
            } else if a < p {
                assert(t[b] == s[b - 1]);
            } else if a == p {
                assert(t[b] == s[b - 1]);
                if b - 1 > p {
                    lemma_bits_lt_transitive(
                        xor_bits(x.id, *target),
                        xor_bits(s[p as int].id, *target),
                        xor_bits(s[b - 1].id, *target),
                    );
                }
            } else {
                assert(t[b] == s[b - 1]);
                assert(t[a] == s[a - 1]);
            }
        }
        assert forall|y: NodeInfo| #[trigger] t.contains(y) implies s.contains(y) || y == x by {
            let k = choose|k: int| 0 <= k < t.len() && t[k] == y;
            if k < p {
                assert(s[k] == y);
            } else if k > p {
                assert(s[k - 1] == y);
            }
        }
        assert forall|y: NodeInfo| #[trigger] s.contains(y) implies t.contains(y) by {
            let k = choose|k: int| 0 <= k < s.len() && s[k] == y;
            if k < p {
                assert(t[k] == y);
            } else {
                assert(t[k + 1] == y);
            }
        }
        assert(t[p as int].id == x.id);
    }
    v.insert(p, x);
}

/// What confirming `info` does to a table: it goes to the back of its
/// bucket (see `bucket_after_update`), every other bucket stays, and the
/// result reports how it got there. The table's own ID is rejected.
pub open spec fn update_spec(old: Table, info: NodeInfo, new: Table, r: UpdateResult) -> bool {
    &&& new.wf()
    &&& new.parent() == old.parent()
    &&& new.k() == old.k()
    &&& forall|i: int| 0 <= i < HASH_SIZE ==> #[trigger] new.probe_time(i) == old.probe_time(i)
    &&& (info.id == old.parent() ==> r is Rejected && forall|i: int|
            0 <= i < HASH_SIZE ==> #[trigger] new.bucket(i) == old.bucket(i))
    &&& (info.id != old.parent() ==> {
            let i = bucket_index(old.parent(), info.id);
            let b = old.bucket(i);
            &&& distance_height(old.parent(), info.id) == Some(i)
            &&& new.bucket(i) == bucket_after_update(b, old.k(), info)
            &&& new.bucket(i).last() == info
            &&& forall|j: int| 0 <= j < HASH_SIZE && j != i ==> !#[trigger] new.bucket(j).contains(info)
            &&& forall|j: int|
                0 <= j < HASH_SIZE && j != i ==> #[trigger] new.bucket(j) == old.bucket(j)
            &&& match position_of(b, info.id) {
                Some(_) => r is UpdatedNode,
                None => if b.len() < old.k() {
                    r is AddedNode
                } else {
                    r == UpdateResult::CausedConflict(
                        (EvictionConflict { evicted: b[0], evictor: info, times_pinged: 0 }),
                    )
                },
            }
        })
}

/// What undoing a conflict does to a table: the evicted peer takes the
/// evictor's place when the conflict is restorable; otherwise it is
/// confirmed again as by an update.
pub open spec fn revert_spec(old: Table, conflict: EvictionConflict, new: Table) -> bool {
    &&& new.wf()
    &&& new.parent() == old.parent()
    &&& new.k() == old.k()
    &&& forall|i: int| 0 <= i < HASH_SIZE ==> #[trigger] new.probe_time(i) == old.probe_time(i)
    &&& (old.restorable(conflict) ==> {
            let i = bucket_index(old.parent(), conflict.evictor.id);
            let p = position_of(old.bucket(i), conflict.evictor.id)->Some_0;
            &&& new.bucket(i) == old.bucket(i).update(p, conflict.evicted)
            &&& forall|j: int|
                0 <= j < HASH_SIZE && j != i ==> #[trigger] new.bucket(j) == old.bucket(j)
        })
    &&& (!old.restorable(conflict) && conflict.evicted.id == old.parent() ==> forall|j: int|
            0 <= j < HASH_SIZE ==> #[trigger] new.bucket(j) == old.bucket(j))
    &&& (!old.restorable(conflict) && conflict.evicted.id != old.parent() ==> {
            let i = bucket_index(old.parent(), conflict.evicted.id);
            &&& new.bucket(i) == bucket_after_update(
                old.bucket(i),
                old.k(),
                conflict.evicted,
            )
            &&& forall|j: int|
                0 <= j < HASH_SIZE && j != i ==> #[trigger] new.bucket(j) == old.bucket(j)
        })
}

/// A peer given to an update is rejected when it carries the table's own
/// ID; otherwise it ends up in the bucket named by the height of its
/// distance to the table's ID, and in no other bucket.
pub proof fn lemma_update_places_peer(old: Table, info: NodeInfo, new: Table, r: UpdateResult)
    requires
        old.wf(),
        update_spec(old, info, new, r),
    ensures
        info.id == old.parent() ==> r is Rejected,
        info.id != old.parent() ==> {
            let i = bucket_index(old.parent(), info.id);
            &&& distance_height(old.parent(), info.id) == Some(i)
            &&& new.bucket(i).contains(info)
            &&& forall|q: int|
                0 <= q < new.bucket(i).len() && (#[trigger] new.bucket(i)[q]).id == info.id ==> q
                    == new.bucket(i).len() - 1
            &&& forall|j: int, p: int|
                0 <= j < HASH_SIZE && j != i && 0 <= p < new.bucket(j).len() ==> (#[trigger] new.bucket(
                    j,
                )[p]).id != info.id
        },
{
    if info.id != old.parent() {
        let i = bucket_index(old.parent(), info.id);
        lemma_top_set_spec(xor_bits(old.parent(), info.id), HASH_SIZE as int);
        let b = new.bucket(i);
        assert(b[b.len() - 1] == info);
        assert forall|q: int| 0 <= q < b.len() && (#[trigger] b[q]).id == info.id implies q == b.len() - 1 by {
            if q < b.len() - 1 {
                assert(unique_ids(b));
                assert(b[q].id != b[b.len() - 1].id);
            }
        }
        assert forall|j: int, p: int|
            0 <= j < HASH_SIZE && j != i && 0 <= p < new.bucket(j).len() implies (#[trigger] new.bucket(
            j,
        )[p]).id != info.id by {
            assert(distance_height(new.parent(), new.bucket(j)[p].id) == Some(j));
        }
    }
}

/// No bucket of a well-formed table holds more than `k` peers.
pub proof fn lemma_buckets_bounded(t: Table)
    requires
        t.wf(),
    ensures
        forall|i: int| 0 <= i < HASH_SIZE ==> (#[trigger] t.bucket(i)).len() <= t.k(),
{
}

/// A new peer enters a bucket that is not full without any conflict; once
/// the bucket is full, it causes exactly one conflict, which evicts the
/// bucket's front peer.
pub proof fn lemma_full_bucket_conflict(old: Table, info: NodeInfo, new: Table, r: UpdateResult)
    requires
        old.wf(),
        update_spec(old, info, new, r),
        info.id != old.parent(),
        position_of(old.bucket(bucket_index(old.parent(), info.id)), info.id) is None,
    ensures
        ({
            let b = old.bucket(bucket_index(old.parent(), info.id));
            &&& b.len() < old.k() ==> r is AddedNode
            &&& b.len() == old.k() ==> r == UpdateResult::CausedConflict(
                (EvictionConflict { evicted: b[0], evictor: info, times_pinged: 0 }),
            )
        }),
{
}

impl Table {
    /// The ID the table is built around.
    pub closed spec fn parent(&self) -> SubotaiHash {
        self.parent_id
    }

    /// Capacity of each bucket.
    pub closed spec fn k(&self) -> nat {
        self.k_factor as nat
    }

    /// Number of buckets.
    pub closed spec fn bucket_count(&self) -> nat {
        self.buckets@.len()
    }

    /// Entries of bucket `i`, least recently confirmed first.
    pub closed spec fn bucket(&self, i: int) -> Seq<NodeInfo> {
        self.buckets@[i].entries@
    }

    /// Time of the last probe aimed at bucket `i`.
    pub closed spec fn probe_time(&self, i: int) -> Option<i64> {
        self.buckets@[i].last_probe
    }

    /// Bucket `i` holds exactly the peers whose distance to the parent has
    /// height `i`, at most `k` of them, each ID once.
    pub open spec fn wf(&self) -> bool {
        &&& self.bucket_count() == HASH_SIZE
        &&& 1 <= self.k() <= usize::MAX / HASH_SIZE
        &&& forall|i: int|
            0 <= i < HASH_SIZE ==> {
                &&& (#[trigger] self.bucket(i)).len() <= self.k()
                &&& unique_ids(self.bucket(i))
                &&& forall|p: int|
                    0 <= p < self.bucket(i).len() ==> distance_height(
                        self.parent(),
                        (#[trigger] self.bucket(i)[p]).id,
                    ) == Some(i)
            }
    }

    /// The peer is stored in some bucket.
    pub open spec fn contains(&self, info: NodeInfo) -> bool {
        exists|i: int| 0 <= i < HASH_SIZE && #[trigger] self.bucket(i).contains(info)
    }

    /// Some stored peer carries this ID.
    pub open spec fn has_id(&self, id: SubotaiHash) -> bool {
        exists|x: NodeInfo| self.contains(x) && x.id == id
    }

    /// `v` lists, by ascending distance to `target`, up to `n` stored peers
    /// that the blacklist allows, and every allowed peer left out is no
    /// closer than the last one listed.
    pub open spec fn is_closest_selection(
        &self,
        target: SubotaiHash,
        n: nat,
        blacklist: Option<&Vec<SubotaiHash>>,
        v: Seq<NodeInfo>,
    ) -> bool {
        &&& v.len() <= n
        &&& strictly_sorted(v, target)
        &&& forall|k: int| 0 <= k < v.len() ==> self.contains(#[trigger] v[k]) && allowed(blacklist, v[k].id)
        &&& forall|x: NodeInfo|
            self.contains(x) && allowed(blacklist, x.id) && !v.contains(x) ==> v.len() == n && (v.len() > 0
                ==> closer(target, v.last().id, x.id))
    }

    /// The conflict can be undone in place: the evictor still stands in its
    /// bucket, and the evicted peer belongs there and is not stored again.
    pub open spec fn restorable(&self, c: EvictionConflict) -> bool {
        let i = bucket_index(self.parent(), c.evictor.id);
        &&& c.evicted.id != self.parent()
        &&& bucket_index(self.parent(), c.evicted.id) == i
        &&& position_of(self.bucket(i), c.evicted.id) is None
        &&& position_of(self.bucket(i), c.evictor.id) is Some
    }

    /// Total number of stored peers in buckets below `n`.
    pub open spec fn count_below(&self, n: int) -> nat
        decreases n,
    {
        if n <= 0 {
            0
        } else {
            self.count_below(n - 1) + self.bucket(n - 1).len()
        }
    }

    /// Total number of stored peers.
    pub open spec fn spec_len(&self) -> nat {
        self.count_below(HASH_SIZE as int)
    }

    /// Constructs a routing table based on a parent node id. Other nodes
    /// will be stored in this table based on their distance to the node id provided.
    pub fn new(id: SubotaiHash, k_factor: usize) -> (r: Table)
        requires
            1 <= k_factor <= usize::MAX / HASH_SIZE,
        ensures
            r.wf(),
            r.parent() == id,
            r.k() == k_factor,
            forall|i: int| 0 <= i < HASH_SIZE ==> (#[trigger] r.bucket(i)).len() == 0,
            forall|i: int| 0 <= i < HASH_SIZE ==> (#[trigger] r.probe_time(i)) is None,
    {
        let mut buckets: Vec<Bucket> = Vec::new();
        let mut i: usize = 0;
        while i < HASH_SIZE
            invariant
                i <= HASH_SIZE,
                buckets@.len() == i,
                forall|j: int| 0 <= j < i ==> (#[trigger] buckets@[j]).entries@.len() == 0,
                forall|j: int| 0 <= j < i ==> (#[trigger] buckets@[j]).last_probe is None,
            decreases HASH_SIZE - i,
        {
            buckets.push(Bucket { entries: Vec::new(), last_probe: None });
            i += 1;
        }
        Table { buckets, parent_id: id, k_factor }
    }

    /// Returns the appropriate position for a node, by computing
    /// the index where their prefix starts differing.
    pub fn bucket_for_node(&self, id: &SubotaiHash) -> (r: usize)
        ensures
            r == bucket_index(self.parent(), *id),
            r < HASH_SIZE,
    {
        let d = self.parent_id.xor(id);
        match d.height() {
            Some(i) => {
                proof {
                    lemma_top_set_spec(d.bits(), HASH_SIZE as int);
                }
                i
            },
            None => 0,
        }
    }

    /// Returns the number of nodes currently on the table.
    pub fn len(&self) -> (r: usize)
        requires
            self.wf(),
        ensures
            r == self.spec_len(),
    {
        let mut total: usize = 0;
        let mut i: usize = 0;
        while i < HASH_SIZE
            invariant
                self.wf(),
                i <= HASH_SIZE,
                total == self.count_below(i as int),
                total <= i * self.k(),
            decreases HASH_SIZE - i,
        {
            assert(self.bucket(i as int).len() <= self.k());
            assert(total + self.bucket(i as int).len() <= (i + 1) * self.k()) by (nonlinear_arith)
                requires
                    total <= i * self.k(),
                    self.bucket(i as int).len() <= self.k(),
            ;
            assert((i + 1) * self.k() <= HASH_SIZE * self.k()) by (nonlinear_arith)
                requires
                    i + 1 <= HASH_SIZE,
            ;
            total = total + self.buckets[i].entries.len();
            i += 1;
        }
        total
    }

    /// Inserts a node in the routing table. Employs least-recently-seen eviction
    /// by kicking out the oldest node in case the bucket is full, and reporting
    /// an eviction conflict that can be revised later. The table's own ID is
    /// rejected.
    pub fn update_node(&mut self, info: NodeInfo) -> (r: UpdateResult)
        requires
            old(self).wf(),
        ensures
            update_spec(*old(self), info, *final(self), r),
    {
        if info.id == self.parent_id {
            proof {
                lemma_raw_ext(info.id, self.parent_id);
            }
            return UpdateResult::Rejected;
        }
        let index = self.bucket_for_node(&info.id);
        proof {
            lemma_distance_none_iff_equal(self.parent_id, info.id);
            if info.id == self.parent_id {
                assert(info.id.raw@ == self.parent_id.raw@);
            }
        }
        let ghost b = self.bucket(index as int);
        let len = self.buckets[index].entries.len();
        let found = find_id(&self.buckets[index].entries, &info.id);
        let ghost old_self = *self;
        let r = match found {
            Some(p) => {
                proof {
                    assert(position_of(b, info.id) == Some(p as int));
                }
                self.buckets[index].entries.remove(p);
                self.buckets[index].entries.push(info);
                UpdateResult::UpdatedNode
            },
            None => {
                proof {
                    assert(position_of(b, info.id) is None);
                }
                if len < self.k_factor {
                    self.buckets[index].entries.push(info);
                    UpdateResult::AddedNode
                } else {
                    let evicted = self.buckets[index].entries.remove(0);
                    self.buckets[index].entries.push(info);
                    proof {
                        assert(b.remove(0) =~= b.drop_first());
                    }
                    UpdateResult::CausedConflict(
                        EvictionConflict { evicted, evictor: info, times_pinged: 0 },
                    )
                }
            },
        };
        proof {
            let nb = self.bucket(index as int);
            assert(nb == bucket_after_update(b, self.k(), info));
            assert forall|a: int, c: int| 0 <= a < c < nb.len() implies (#[trigger] nb[a]).id != (
            #[trigger] nb[c]).id by {
                if c == nb.len() - 1 {
                    match found {
                        Some(p) => {
                            if a < p {
                                assert(nb[a] == b[a]);
                            } else {
                                assert(nb[a] == b[a + 1]);
                            }
                        },
                        None => {
                            if len < self.k() {
                                assert(nb[a] == b[a]);
                            } else {
                                assert(nb[a] == b[a + 1]);
                            }
                        },
                    }
                } else {
                    match found {
                        Some(p) => {
                            let a2 = if a < p { a } else { a + 1 };
                            let c2 = if c < p { c } else { c + 1 };
                            assert(nb[a] == b[a2]);
                            assert(nb[c] == b[c2]);
                        },
                        None => {
                            if len < self.k() {
                                assert(nb[a] == b[a]);
                                assert(nb[c] == b[c]);
                            } else {
                                assert(nb[a] == b[a + 1]);
                                assert(nb[c] == b[c + 1]);
                            }
                        },
                    }
                }
            }
            assert forall|q: int| 0 <= q < nb.len() implies distance_height(
                self.parent(),
                (#[trigger] nb[q]).id,
            ) == Some(index as int) by {
                if q < nb.len() - 1 {
                    match found {
                        Some(p) => {
                            if q < p {
                                assert(nb[q] == b[q]);
                            } else {
                                assert(nb[q] == b[q + 1]);
                            }
                        },
                        None => {
                            if len < self.k() {
                                assert(nb[q] == b[q]);
                            } else {
                                assert(nb[q] == b[q + 1]);
                            }
                        },
                    }
                }
            }
            assert(forall|i: int|
                0 <= i < HASH_SIZE && i != index ==> #[trigger] self.bucket(i) == old_self.bucket(i));
            assert forall|j: int| 0 <= j < HASH_SIZE && j != index implies !#[trigger] self.bucket(j).contains(info) by {
                if self.bucket(j).contains(info) {
                    let p = choose|p: int| 0 <= p < self.bucket(j).len() && self.bucket(j)[p] == info;
                    assert(distance_height(self.parent(), self.bucket(j)[p].id) == Some(j));
                }
            }
        }
        r
    }

    /// Returns a table entry for the specific node with a given hash.
    pub fn specific_node(&self, id: &SubotaiHash) -> (r: Option<NodeInfo>)
        requires
            self.wf(),
        ensures
            match r {
                Some(n) => n.id == *id && self.bucket(bucket_index(self.parent(), *id)).contains(n),
                None => forall|i: int, p: int|
                    0 <= i < HASH_SIZE && 0 <= p < self.bucket(i).len() ==> (#[trigger] self.bucket(
                        i,
                    )[p]).id != *id,
            },
    {
        let index = self.bucket_for_node(id);
        if let Some(j) = find_id(&self.buckets[index].entries, id) {
            return Some(self.buckets[index].entries[j]);
        }
        proof {
            assert forall|i: int, p: int|
                0 <= i < HASH_SIZE && 0 <= p < self.bucket(i).len() implies (#[trigger] self.bucket(
                i,
            )[p]).id != *id by {
                if self.bucket(i)[p].id == *id {
                    assert(distance_height(self.parent(), self.bucket(i)[p].id) == Some(i));
                }
            }
        }
        None
    }

    /// Returns all stored nodes, ordered by ascending distance to a given
    /// reference ID, walking the buckets in bounce order: the buckets named by
    /// the set bits of the distance between the reference and the parent, from
    /// the top down, then those named by its clear bits, from the bottom up.
    pub fn closest_nodes_to(&self, id: &SubotaiHash) -> (r: Vec<NodeInfo>)
        requires
            self.wf(),
        ensures
            forall|x: NodeInfo| #[trigger] r@.contains(x) <==> self.contains(x),
            strictly_sorted(r@, *id),
    {
        broadcast use vstd::seq_lib::group_to_multiset_ensures;

        let d = self.parent_id.xor(id);
        let ghost dbits = xor_bits(self.parent(), *id);
        let mut res: Vec<NodeInfo> = Vec::new();
        let mut rank: usize = 0;
        while rank < 2 * HASH_SIZE
            invariant
                self.wf(),
                d.bits() == dbits,
                dbits == xor_bits(self.parent(), *id),
                rank <= 2 * HASH_SIZE,
                strictly_sorted(res@, *id),
                forall|x: NodeInfo|
                    #[trigger] res@.contains(x) <==> exists|i: int|
                        0 <= i < HASH_SIZE && bounce_rank(dbits, i) < rank
                            && #[trigger] self.bucket(i).contains(x),
            decreases 2 * HASH_SIZE - rank,
        {
            let (index, take) = if rank < HASH_SIZE {
                (HASH_SIZE - 1 - rank, d.bit(HASH_SIZE - 1 - rank))
            } else {
                (rank - HASH_SIZE, !d.bit(rank - HASH_SIZE))
            };
            proof {
                assert(take == (bounce_rank(dbits, index as int) == rank));
                assert forall|i: int| 0 <= i < HASH_SIZE && bounce_rank(dbits, i) == rank implies i
                    == index by {}
            }
            if take {
                let mut sorted = sorted_by_distance_to(&self.buckets[index].entries, id);
                let ghost a = res@;
                let ghost b = sorted@;
                proof {
                    assert forall|p: int, q: int| 0 <= p < q < (a + b).len() implies closer(
                        *id,
                        (#[trigger] (a + b)[p]).id,
                        (#[trigger] (a + b)[q]).id,
                    ) by {
                        if q >= a.len() && p < a.len() {
                            let x = a[p];
                            let y = b[q - a.len()];
                            assert(a.contains(x));
                            let i = choose|i: int|
                                0 <= i < HASH_SIZE && bounce_rank(dbits, i) < rank
                                    && #[trigger] self.bucket(i).contains(x);
                            let px = choose|px: int| 0 <= px < self.bucket(i).len() && self.bucket(i)[px] == x;
                            assert(distance_height(self.parent(), self.bucket(i)[px].id) == Some(i));
                            assert(b.contains(y));
                            let py = choose|py: int|
                                0 <= py < self.bucket(index as int).len() && self.bucket(index as int)[py] == y;
                            assert(distance_height(self.parent(), self.bucket(index as int)[py].id) == Some(
                                index as int,
                            ));
                            lemma_bounce_order(self.parent(), *id, x.id, y.id);
                            assert((a + b)[p] == x);
                            assert((a + b)[q] == y);
                        } else if q < a.len() {
                            assert((a + b)[q] == a[q] && (a + b)[p] == a[p]);
                        } else {
                            assert((a + b)[q] == b[q - a.len()] && (a + b)[p] == b[p - a.len()]);
                        }
                    }
                    lemma_concat_contains(a, b);
                }
                res.append(&mut sorted);
            }
            rank += 1;
        }
        proof {
            assert forall|x: NodeInfo| self.contains(x) implies #[trigger] res@.contains(x) by {
                let i = choose|i: int| 0 <= i < HASH_SIZE && #[trigger] self.bucket(i).contains(x);
                assert(bounce_rank(dbits, i) < 2 * HASH_SIZE);
            }
        }
        res
    }

    /// Performs a node lookup on the routing table: the node itself when it
    /// is stored, or else up to `n` of the closest allowed nodes by ascending
    /// distance, or `Nothing` when there are none.
    pub fn lookup(&self, id: &SubotaiHash, n: usize, blacklist: Option<&Vec<SubotaiHash>>) -> (r:
        LookupResult)
        requires
            self.wf(),
        ensures
            self.has_id(*id) <==> r is Found,
            match r {
                LookupResult::Found(node) => node.id == *id && self.contains(node),
                LookupResult::ClosestNodes(v) => v@.len() > 0 && self.is_closest_selection(
                    *id,
                    n as nat,
                    blacklist,
                    v@,
                ),
                LookupResult::Nothing => n == 0 || forall|x: NodeInfo|
                    self.contains(x) ==> !allowed(blacklist, x.id),
            },
    {
        match self.specific_node(id) {
            Some(info) => {
                proof {
                    let i = bucket_index(self.parent(), *id);
                    lemma_top_set_spec(xor_bits(self.parent(), *id), HASH_SIZE as int);
                    assert(0 <= i < HASH_SIZE);
                    assert(self.bucket(i).contains(info));
                    assert(self.contains(info));
                }
                return LookupResult::Found(info);
            },
            None => {},
        }
        proof {
            assert forall|x: NodeInfo| self.contains(x) implies x.id != *id by {
                let i = choose|i: int| 0 <= i < HASH_SIZE && #[trigger] self.bucket(i).contains(x);
                let p = choose|p: int| 0 <= p < self.bucket(i).len() && self.bucket(i)[p] == x;
                assert(self.bucket(i)[p].id != *id);
            }
        }
        let res = self.closest_selection(id, n, blacklist);
        if res.len() == 0 {
            LookupResult::Nothing
        } else {
            LookupResult::ClosestNodes(res)
        }
    }

    /// Up to `n` of the stored nodes that the blacklist allows, closest
    /// to `id` first.
    pub fn closest_selection(&self, id: &SubotaiHash, n: usize, blacklist: Option<&Vec<SubotaiHash>>) -> (r:
        Vec<NodeInfo>)
        requires
            self.wf(),
        ensures
            self.is_closest_selection(*id, n as nat, blacklist, r@),
            r@.len() == 0 ==> n == 0 || forall|x: NodeInfo| self.contains(x) ==> !allowed(blacklist, x.id),
    {
        let all = self.closest_nodes_to(id);
        let mut res: Vec<NodeInfo> = Vec::new();
        let mut j: usize = 0;
        while j < all.len()
            invariant
                j <= all@.len(),
                strictly_sorted(all@, *id),
                forall|x: NodeInfo| #[trigger] all@.contains(x) <==> self.contains(x),
                res@.len() <= n,
                forall|k: int|
                    0 <= k < res@.len() ==> exists|q: int| 0 <= q < j && all@[q] == #[trigger] res@[k],
                forall|k: int| 0 <= k < res@.len() ==> allowed(blacklist, (#[trigger] res@[k]).id),
                strictly_sorted(res@, *id),
                forall|q: int|
                    0 <= q < j && allowed(blacklist, (#[trigger] all@[q]).id) && !res@.contains(all@[q])
                        ==> res@.len() == n && (res@.len() > 0 ==> closer(*id, res@.last().id, all@[q].id)),
            decreases all@.len() - j,
        {
            let x = all[j];
            if res.len() < n && is_allowed(&x.id, blacklist) {
                proof {
                    let a = res@;
                    assert forall|p: int, q: int| 0 <= p < q < a.push(x).len() implies !closer(
                        *id,
                        (#[trigger] a.push(x)[q]).id,
                        (#[trigger] a.push(x)[p]).id,
                    ) by {
                        if q == a.len() {
                            let qq = choose|qq: int| 0 <= qq < j && all@[qq] == #[trigger] a[p];
                            assert(all@[j as int] == x);
                        } else {
                            assert(a.push(x)[q] == a[q] && a.push(x)[p] == a[p]);
                        }
                    }
                    assert forall|k: int| 0 <= k < a.push(x).len() implies exists|q: int|
                        0 <= q < j + 1 && all@[q] == #[trigger] a.push(x)[k] by {
                        if k == a.len() {
                            assert(all@[j as int] == a.push(x)[k]);
                        } else {
                            let q = choose|q: int| 0 <= q < j && all@[q] == #[trigger] a[k];
                            assert(all@[q] == a.push(x)[k]);
                        }
                    }
                    assert forall|q: int|
                        0 <= q < j + 1 && allowed(blacklist, (#[trigger] all@[q]).id) && !a.push(
                            x,
                        ).contains(all@[q]) implies a.push(x).len() == n && (a.push(x).len() > 0 ==> closer(
                        *id,
                        a.push(x).last().id,
                        all@[q].id,
                    )) by {
                        if q == j {
                            assert(a.push(x)[a.len() as int] == x);
                        } else {
                            if !a.contains(all@[q]) {
                            } else {
                                let k = choose|k: int| 0 <= k < a.len() && a[k] == all@[q];
                                assert(a.push(x)[k] == all@[q]);
                            }
                        }
                    }
                }
                res.push(x);
            } else {
                proof {
                    let a = res@;
                    if res.len() >= n && allowed(blacklist, x.id) && !a.contains(x) {
                        if n == 0 {
                        } else {
                            let qq = choose|qq: int| 0 <= qq < j && all@[qq] == #[trigger] a[a.len() - 1];
                            assert(all@[j as int] == x);
                        }
                    }
                }
            }
            j += 1;
        }
        proof {
            if res.len() == 0 && n != 0 {
                assert forall|x: NodeInfo| self.contains(x) implies !allowed(blacklist, x.id) by {
                    assert(all@.contains(x));
                    let q = choose|q: int| 0 <= q < all@.len() && all@[q] == x;
                    assert(!res@.contains(all@[q]));
                }
            }
            assert forall|k: int| 0 <= k < res@.len() implies self.contains(#[trigger] res@[k]) && allowed(
                blacklist,
                res@[k].id,
            ) by {
                let q = choose|q: int| 0 <= q < j && all@[q] == #[trigger] res@[k];
                assert(all@.contains(all@[q]));
            }
            assert forall|x: NodeInfo|
                self.contains(x) && allowed(blacklist, x.id) && !res@.contains(x) implies res@.len() == n && (
                res@.len() > 0 ==> closer(*id, res@.last().id, x.id)) by {
                assert(all@.contains(x));
                let q = choose|q: int| 0 <= q < all@.len() && all@[q] == x;
                assert(allowed(blacklist, all@[q].id));
            }
        }
        res
    }

    /// Undoes an eviction: the evicted peer takes the evictor's place in its
    /// bucket. When that is no longer possible (the evictor has gone since),
    /// the evicted peer is inserted again, and any conflict that this causes
    /// is dropped.
    pub fn revert_conflict(&mut self, conflict: EvictionConflict)
        requires
            old(self).wf(),
        ensures
            revert_spec(*old(self), conflict, *final(self)),
    {
        let index = self.bucket_for_node(&conflict.evictor.id);
        let same_bucket = self.bucket_for_node(&conflict.evicted.id) == index;
        let not_parent = !(conflict.evicted.id == self.parent_id);
        proof {
            if conflict.evicted.id.raw@ == self.parent_id.raw@ {
                lemma_raw_ext(conflict.evicted.id, self.parent_id);
            }
        }
        if same_bucket && not_parent {
            let ghost b = self.bucket(index as int);
            let evicted_at = find_id(&self.buckets[index].entries, &conflict.evicted.id);
            let evictor_at = find_id(&self.buckets[index].entries, &conflict.evictor.id);
            if evicted_at.is_none() && evictor_at.is_some() {
                let p = evictor_at.unwrap();
                proof {
                    assert(position_of(b, conflict.evicted.id) is None);
                    assert(position_of(b, conflict.evictor.id) == Some(p as int));
                    lemma_distance_none_iff_equal(self.parent_id, conflict.evicted.id);
                    lemma_top_set_spec(xor_bits(self.parent(), conflict.evicted.id), HASH_SIZE as int);
                }
                let ghost old_self = *self;
                self.buckets[index].entries[p] = conflict.evicted;
                proof {
                    let nb = self.bucket(index as int);
                    assert(nb == b.update(p as int, conflict.evicted));
                    assert forall|a: int, c: int| 0 <= a < c < nb.len() implies (#[trigger] nb[a]).id != (
                    #[trigger] nb[c]).id by {
                        if a != p && c != p {
                            assert(nb[a] == b[a] && nb[c] == b[c]);
                        } else if a == p {
                            assert(nb[c] == b[c]);
                        } else {
                            assert(nb[a] == b[a]);
                        }
                    }
                    assert forall|q: int| 0 <= q < nb.len() implies distance_height(
                        self.parent(),
                        (#[trigger] nb[q]).id,
                    ) == Some(index as int) by {
                        if q != p {
                            assert(nb[q] == b[q]);
                        }
                    }
                    assert(forall|i: int|
                        0 <= i < HASH_SIZE && i != index ==> #[trigger] self.bucket(i) == old_self.bucket(i));
                }
                return;
            }
            proof {
                if evicted_at.is_some() {
                    assert(position_of(b, conflict.evicted.id) is Some);
                } else {
                    assert(position_of(b, conflict.evictor.id) is None);
                }
            }
        }
        let _ = self.update_node(conflict.evicted);
    }

    /// Records that a probe aimed at the bucket of `id` was made at `now`.
    pub fn mark_bucket_as_probed(&mut self, id: &SubotaiHash, now: i64)
        requires
            old(self).wf(),
        ensures
            final(self).wf(),
            final(self).parent() == old(self).parent(),
            final(self).k() == old(self).k(),
            forall|i: int| 0 <= i < HASH_SIZE ==> #[trigger] final(self).bucket(i) == old(self).bucket(i),
            final(self).probe_time(bucket_index(old(self).parent(), *id)) == Some(now),
            forall|i: int|
                0 <= i < HASH_SIZE && i != bucket_index(old(self).parent(), *id) ==> #[trigger] final(self).probe_time(i)
                    == old(self).probe_time(i),
    {
        let index = self.bucket_for_node(id);
        let ghost old_self = *self;
        self.buckets[index].last_probe = Some(now);
        proof {
            assert forall|i: int| 0 <= i < HASH_SIZE implies #[trigger] self.bucket(i) == old_self.bucket(i) by {
                if i != index {
                    assert(self.buckets@[i] == old_self.buckets@[i]);
                }
            }
        }
    }

    /// Returns the bucket index and the time for the bucket that we haven't
    /// probed for the longest: the first one never probed, if any, or else
    /// one with the earliest probe.
    pub fn oldest_bucket(&self) -> (r: (usize, Option<i64>))
        requires
            self.wf(),
        ensures
            r.0 < HASH_SIZE,
            r.1 == self.probe_time(r.0 as int),
            r.1 is None ==> forall|j: int| 0 <= j < r.0 ==> (#[trigger] self.probe_time(j)) is Some,
            r.1 is Some ==> forall|j: int|
                0 <= j < HASH_SIZE ==> (#[trigger] self.probe_time(j)) is Some && self.probe_time(j)->Some_0
                    >= r.1->Some_0,
    {
        let mut best: usize = 0;
        let mut i: usize = 0;
        while i < HASH_SIZE
            invariant
                self.wf(),
                i <= HASH_SIZE,
                best < HASH_SIZE,
                forall|j: int| 0 <= j < i ==> (#[trigger] self.probe_time(j)) is Some,
                i > 0 ==> self.probe_time(best as int) is Some && forall|j: int|
                    0 <= j < i ==> self.probe_time(j)->Some_0 >= #[trigger] self.probe_time(
                        best as int,
                    )->Some_0,
            decreases HASH_SIZE - i,
        {
            match self.buckets[i].last_probe {
                None => {
                    return (i, None);
                },
                Some(t) => {
                    if i == 0 {
                        best = i;
                    } else {
                        match self.buckets[best].last_probe {
                            Some(tb) => {
                                if t < tb {
                                    best = i;
                                }
                            },
                            None => {},
                        }
                    }
                },
            }
            i += 1;
        }
        (best, self.buckets[best].last_probe)
    }

    /// Copies the entries of bucket `index`, least recently confirmed first.
    pub fn nodes_from_bucket(&self, index: usize) -> (r: Vec<NodeInfo>)
        requires
            self.wf(),
        ensures
            index < HASH_SIZE ==> r@ == self.bucket(index as int),
            index >= HASH_SIZE ==> r@.len() == 0,
    {
        let mut r: Vec<NodeInfo> = Vec::new();
        if index >= HASH_SIZE {
            return r;
        }
        let mut j: usize = 0;
        while j < self.buckets[index].entries.len()
            invariant
                self.wf(),
                index < HASH_SIZE,
                j <= self.bucket(index as int).len(),
                r@ == self.bucket(index as int).take(j as int),
            decreases self.bucket(index as int).len() - j,
        {
            r.push(self.buckets[index].entries[j]);
            j += 1;
            proof {
                assert(r@ =~= self.bucket(index as int).take(j as int));
            }
        }
        proof {
            assert(r@ =~= self.bucket(index as int));
        }
        r
    }

    /// Removes the node with this ID, if it is stored.
    pub fn remove_node(&mut self, id: &SubotaiHash)
        requires
            old(self).wf(),
        ensures
            final(self).wf(),
            final(self).parent() == old(self).parent(),
            final(self).k() == old(self).k(),
            forall|i: int| 0 <= i < HASH_SIZE ==> #[trigger] final(self).probe_time(i) == old(self).probe_time(i),
            ({
                let i = bucket_index(old(self).parent(), *id);
                &&& final(self).bucket(i) == match position_of(old(self).bucket(i), *id) {
                    Some(p) => old(self).bucket(i).remove(p),
                    None => old(self).bucket(i),
                }
                &&& forall|j: int|
                    0 <= j < HASH_SIZE && j != i ==> #[trigger] final(self).bucket(j) == old(self).bucket(j)
            }),
    {
        let index = self.bucket_for_node(id);
        let ghost b = self.bucket(index as int);
        let ghost old_self = *self;
        match find_id(&self.buckets[index].entries, id) {
            Some(p) => {
                proof {
                    assert(position_of(b, *id) == Some(p as int));
                }
                self.buckets[index].entries.remove(p);
                proof {
                    let nb = self.bucket(index as int);
                    assert forall|a: int, c: int| 0 <= a < c < nb.len() implies (#[trigger] nb[a]).id != (
                    #[trigger] nb[c]).id by {
                        let a2 = if a < p { a } else { a + 1 };
                        let c2 = if c < p { c } else { c + 1 };
                        assert(nb[a] == b[a2]);
                        assert(nb[c] == b[c2]);
                    }
                    assert forall|q: int| 0 <= q < nb.len() implies distance_height(
                        self.parent(),
                        (#[trigger] nb[q]).id,
                    ) == Some(index as int) by {
                        if q < p {
                            assert(nb[q] == b[q]);
                        } else {
                            assert(nb[q] == b[q + 1]);
                        }
                    }
                    assert(forall|i: int|
                        0 <= i < HASH_SIZE && i != index ==> #[trigger] self.bucket(i) == old_self.bucket(i));
                }
            },
            None => {
                proof {
                    assert(position_of(b, *id) is None);
                }
            },
        }
    }

    /// Returns all stored nodes, ordered by ascending distance to the parent.
    pub fn all_nodes(&self) -> (r: Vec<NodeInfo>)
        requires
            self.wf(),
        ensures
            forall|x: NodeInfo| #[trigger] r@.contains(x) <==> self.contains(x),
            strictly_sorted(r@, self.parent()),
    {
        self.closest_nodes_to(&self.parent_id)
    }

    pub fn is_empty(&self) -> (r: bool)
        requires
            self.wf(),
        ensures
            r == (self.spec_len() == 0),
    {
        self.len() == 0
    }
}

} // verus!
