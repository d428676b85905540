//! The decisions of a wave, the parallel iterative exploration of the
//! overlay shared by locate, probe and retrieve: which peers to ask next,
//! how many answers to wait for, and when to stop.
use vstd::prelude::*;
use crate::hash::{closer, lemma_raw_ext, SubotaiHash};
use crate::node::resources::prefix;
use crate::routing::{insert_by_distance, strictly_sorted, NodeInfo};
use crate::rpc::{same_entries, Rpc};
use crate::storage::StorageEntry;

verus! {

/// What a wave does after a round: ask these peers next, or stop with a
/// result.
#[derive(Debug)]
pub enum WaveStrategy<T> {
    Continue(Vec<NodeInfo>),
    Halt(T),
}

/// Some descriptor of `s` carries this ID.
pub open spec fn has_id_in(s: Seq<NodeInfo>, id: SubotaiHash) -> bool {
    exists|k: int| 0 <= k < s.len() && (#[trigger] s[k]).id == id
}

/// A peer worth asking: not the node itself, and not asked before.
pub open spec fn eligible(x: NodeInfo, own_id: SubotaiHash, queried: Seq<NodeInfo>) -> bool {
    x.id != own_id && !has_id_in(queried, x.id)
}

/// `r` holds, by ascending distance to `target`, the first `alpha` peers of
/// `closest` worth asking, and every one left out is farther than all of
/// them.
pub open spec fn is_next_seeds(
    closest: Seq<NodeInfo>,
    queried: Seq<NodeInfo>,
    own_id: SubotaiHash,
    alpha: nat,
    target: SubotaiHash,
    r: Seq<NodeInfo>,
) -> bool {
    &&& r.len() <= alpha
    &&& strictly_sorted(r, target)
    &&& forall|k: int| 0 <= k < r.len() ==> closest.contains(#[trigger] r[k]) && eligible(r[k], own_id, queried)
    &&& forall|x: NodeInfo|
        #[trigger] closest.contains(x) && eligible(x, own_id, queried) && !r.contains(x) ==> r.len() == alpha
            && (r.len() > 0 ==> closer(target, r.last().id, x.id))
}

/// `after` is strictly sorted by distance to `target` and holds, once per
/// ID, the descriptors of `before` and of `learned`.
pub open spec fn is_merge(
    before: Seq<NodeInfo>,
    learned: Seq<NodeInfo>,
    target: SubotaiHash,
    after: Seq<NodeInfo>,
) -> bool {
    &&& strictly_sorted(after, target)
    &&& forall|y: NodeInfo| #[trigger] after.contains(y) ==> before.contains(y) || learned.contains(y)
    &&& forall|y: NodeInfo| #[trigger] before.contains(y) ==> after.contains(y)
    &&& forall|y: NodeInfo| #[trigger] learned.contains(y) ==> has_id_in(after, y.id)
}

/// The kind of response a wave learns peers from.
#[derive(Debug, Clone, Copy, PartialEq, Eq, Structural)]
pub enum Offer {
    Locate,
    Probe,
    Retrieve,
}

/// The peers that a response offers for `target`, for the given kind of wave.
pub open spec fn offered(rpc: Rpc, which: Offer, target: SubotaiHash) -> Option<Seq<NodeInfo>> {
    match which {
        Offer::Locate => rpc.locate_help(target),
        Offer::Probe => rpc.probed(target),
        Offer::Retrieve => rpc.retrieve_help(target),
    }
}

/// Some response offers `y` for `target`.
pub open spec fn is_offered(rs: Seq<Rpc>, which: Offer, target: SubotaiHash, y: NodeInfo) -> bool {
    exists|k: int|
        0 <= k < rs.len() && (#[trigger] offered(rs[k], which, target)) is Some && offered(
            rs[k],
            which,
            target,
        )->Some_0.contains(y)
}

/// The first node found by a locate response for `target`.
pub open spec fn first_located(rs: Seq<Rpc>, target: SubotaiHash) -> Option<NodeInfo>
    decreases rs.len(),
{
    if rs.len() == 0 {
        None
    } else if rs[0].located(target) is Some {
        rs[0].located(target)
    } else {
        first_located(rs.drop_first(), target)
    }
}

/// The values of the first retrieve response that found `key`.
pub open spec fn first_retrieved(rs: Seq<Rpc>, key: SubotaiHash) -> Option<Seq<StorageEntry>>
    decreases rs.len(),
{
    if rs.len() == 0 {
        None
    } else if rs[0].retrieved(key) is Some {
        rs[0].retrieved(key)
    } else {
        first_retrieved(rs.drop_first(), key)
    }
}

/// `after` merges into `before` every peer that the responses offer.
pub open spec fn merged_offers(
    before: Seq<NodeInfo>,
    rs: Seq<Rpc>,
    which: Offer,
    target: SubotaiHash,
    after: Seq<NodeInfo>,
) -> bool {
    exists|learned: Seq<NodeInfo>|
        (forall|y: NodeInfo| #[trigger] learned.contains(y) <==> is_offered(rs, which, target, y))
            && #[trigger] is_merge(before, learned, target, after)
}

/// All the peers that the responses offer for `target`.
pub fn gather(responses: &Vec<Rpc>, which: Offer, target: &SubotaiHash) -> (r: Vec<NodeInfo>)
    ensures
        forall|y: NodeInfo| #[trigger] r@.contains(y) <==> is_offered(responses@, which, *target, y),
{
    let mut r: Vec<NodeInfo> = Vec::new();
    let mut i: usize = 0;
    while i < responses.len()
        invariant
            i <= responses@.len(),
            forall|y: NodeInfo|
                #[trigger] r@.contains(y) <==> is_offered(responses@.take(i as int), which, *target, y),
        decreases responses@.len() - i,
    {
        let offer = match which {
            Offer::Locate => responses[i].is_helping_locate(target),
            Offer::Probe => responses[i].is_probe_response(target),
            Offer::Retrieve => responses[i].is_helping_retrieve(target),
        };
        let ghost r0 = r@;
        let ghost rs = responses@.take(i + 1);
        proof {
            assert(responses@.take(i as int) =~= rs.take(i as int));
        }
        match offer {
            Some(mut nodes) => {
                let ghost add = nodes@;
                r.append(&mut nodes);
                proof {
                    crate::routing::lemma_concat_contains(r0, add);
                    assert forall|y: NodeInfo| #[trigger] r@.contains(y) <==> is_offered(rs, which, *target, y) by {
                        if is_offered(rs, which, *target, y) {
                            let k = choose|k: int|
                                0 <= k < rs.len() && (#[trigger] offered(rs[k], which, *target)) is Some && offered(
                                    rs[k],
                                    which,
                                    *target,
                                )->Some_0.contains(y);
                            if k < i {
                                assert(responses@.take(i as int)[k] == rs[k]);
                            }
                        }
                        if r0.contains(y) {
                            let k = choose|k: int|
                                0 <= k < i && (#[trigger] offered(responses@.take(i as int)[k], which, *target))
                                    is Some && offered(responses@.take(i as int)[k], which, *target)->Some_0.contains(y);
                            assert(rs[k] == responses@.take(i as int)[k]);
                        }
                        if add.contains(y) {
                            assert(rs[i as int] == responses@[i as int]);
                            assert(offered(rs[i as int], which, *target) == Some(add));
                        }
                    }
                }
            },
            None => {
                proof {
                    assert forall|y: NodeInfo| #[trigger] r@.contains(y) <==> is_offered(rs, which, *target, y) by {
                        if is_offered(rs, which, *target, y) {
                            let k = choose|k: int|
                                0 <= k < rs.len() && (#[trigger] offered(rs[k], which, *target)) is Some && offered(
                                    rs[k],
                                    which,
                                    *target,
                                )->Some_0.contains(y);
                            if k < i {
                                assert(responses@.take(i as int)[k] == rs[k]);
                            } else {
                                assert(rs[k] == responses@[i as int]);
                            }
                        }
                        if r0.contains(y) {
                            let k = choose|k: int|
                                0 <= k < i && (#[trigger] offered(responses@.take(i as int)[k], which, *target))
                                    is Some && offered(responses@.take(i as int)[k], which, *target)->Some_0.contains(y);
                            assert(rs[k] == responses@.take(i as int)[k]);
                        }
                    }
                }
            },
        }
        i += 1;
    }
    proof {
        assert(responses@.take(i as int) =~= responses@);
    }
    r
}

/// Keeps, in order, the peers worth asking.
pub fn retain_eligible(closest: &Vec<NodeInfo>, queried: &Vec<NodeInfo>, own_id: &SubotaiHash, target: &SubotaiHash) -> (r:
    Vec<NodeInfo>)
    requires
        strictly_sorted(closest@, *target),
    ensures
        strictly_sorted(r@, *target),
        forall|y: NodeInfo| #[trigger] r@.contains(y) <==> closest@.contains(y) && eligible(y, *own_id, queried@),
{
    let mut r: Vec<NodeInfo> = Vec::new();
    let mut j: usize = 0;
    while j < closest.len()
        invariant
            j <= closest@.len(),
            strictly_sorted(closest@, *target),
            strictly_sorted(r@, *target),
            forall|k: int| 0 <= k < r@.len() ==> exists|q: int| 0 <= q < j && closest@[q] == #[trigger] r@[k],
            forall|y: NodeInfo|
                #[trigger] r@.contains(y) <==> closest@.take(j as int).contains(y) && eligible(y, *own_id, queried@),
        decreases closest@.len() - j,
    {
        let x = closest[j];
        let not_own = !(x.id == *own_id);
        proof {
            if x.id.raw@ == own_id.raw@ {
                lemma_raw_ext(x.id, *own_id);
            }
            assert(closest@.take(j + 1) =~= closest@.take(j as int).push(x));
            assert forall|y: NodeInfo| #[trigger] closest@.take(j + 1).contains(y) <==> closest@.take(j as int).contains(y)
                || y == x by {
                if closest@.take(j + 1).contains(y) {
                    let k = choose|k: int| 0 <= k < j + 1 && #[trigger] closest@.take(j + 1)[k] == y;
                    if k < j {
                        assert(closest@.take(j as int)[k] == y);
                    }
                }
                if closest@.take(j as int).contains(y) {
                    let k = choose|k: int| 0 <= k < j && #[trigger] closest@.take(j as int)[k] == y;
                    assert(closest@.take(j + 1)[k] == y);
                }
                if y == x {
                    assert(closest@.take(j + 1)[j as int] == y);
                }
            }
        }
        if not_own && !contains_id(queried, &x.id) {
            let ghost a = r@;
            r.push(x);
            proof {
                assert forall|p: int, q: int| 0 <= p < q < r@.len() implies closer(
                    *target,
                    (#[trigger] r@[p]).id,
                    (#[trigger] r@[q]).id,
                ) by {
                    if q == a.len() {
                        let qq = choose|qq: int| 0 <= qq < j && closest@[qq] == #[trigger] a[p];
                        assert(r@[p] == a[p]);
                    } else {
                        assert(r@[q] == a[q] && r@[p] == a[p]);
                    }
                }
                assert forall|k: int| 0 <= k < r@.len() implies exists|q: int|
                    0 <= q < j + 1 && closest@[q] == #[trigger] r@[k] by {
                    if k == a.len() {
                        assert(closest@[j as int] == r@[k]);
                    } else {
                        let q = choose|q: int| 0 <= q < j && closest@[q] == #[trigger] a[k];
                        assert(closest@[q] == r@[k]);
                    }
                }
                crate::routing::lemma_concat_contains(a, seq![x]);
                assert(r@ =~= a + seq![x]);
                assert forall|y: NodeInfo| seq![x].contains(y) <==> y == x by {
                    if y == x {
                        assert(seq![x][0] == y);
                    }
                }
            }
        }
        j += 1;
    }
    proof {
        assert(closest@.take(j as int) =~= closest@);
    }
    r
}

/// The decision after a round of a locate wave: stop with the node as soon
/// as a response has found it, or when the table already knows it (`known`,
/// as a parallel wave may have added it); otherwise learn the closer peers
/// offered and ask the next `alpha` of them.
pub fn locate_step(
    own_id: &SubotaiHash,
    target: &SubotaiHash,
    alpha: usize,
    responses: &Vec<Rpc>,
    queried: &Vec<NodeInfo>,
    closest: &mut Vec<NodeInfo>,
    known: Option<NodeInfo>,
) -> (r: WaveStrategy<NodeInfo>)
    requires
        strictly_sorted(old(closest)@, *target),
    ensures
        strictly_sorted(final(closest)@, *target),
        first_located(responses@, *target) is Some ==> r == WaveStrategy::<NodeInfo>::Halt(
            first_located(responses@, *target)->Some_0,
        ) && final(closest)@ == old(closest)@,
        first_located(responses@, *target) is None && known is Some ==> r == WaveStrategy::<NodeInfo>::Halt(
            known->Some_0,
        ) && final(closest)@ == old(closest)@,
        first_located(responses@, *target) is None && known is None ==> {
            &&& merged_offers(old(closest)@, responses@, Offer::Locate, *target, final(closest)@)
            &&& r matches WaveStrategy::Continue(v) && is_next_seeds(
                final(closest)@,
                queried@,
                *own_id,
                alpha as nat,
                *target,
                v@,
            )
        },
{
    let mut i: usize = 0;
    proof {
        assert(responses@.skip(0) =~= responses@);
    }
    while i < responses.len()
        invariant
            i <= responses@.len(),
            closest@ == old(closest)@,
            strictly_sorted(closest@, *target),
            first_located(responses@, *target) == first_located(responses@.skip(i as int), *target),
        decreases responses@.len() - i,
    {
        proof {
            assert(responses@.skip(i as int)[0] == responses@[i as int]);
            assert(responses@.skip(i as int).drop_first() =~= responses@.skip(i + 1));
        }
        if let Some(found) = responses[i].successfully_located(target) {
            return WaveStrategy::Halt(found);
        }
        i += 1;
    }
    proof {
        assert(responses@.skip(i as int).len() == 0);
    }
    if let Some(node) = known {
        return WaveStrategy::Halt(node);
    }
    let learned = gather(responses, Offer::Locate, target);
    merge_learned(closest, &learned, target);
    WaveStrategy::Continue(next_to_query(closest, queried, own_id, alpha, target))
}

/// The decision after a round of a probe wave: learn the peers offered;
/// once `depth` peers have been asked, stop with the `k_factor` closest
/// known, otherwise ask the next `alpha`.
pub fn probe_step(
    own_id: &SubotaiHash,
    target: &SubotaiHash,
    alpha: usize,
    k_factor: usize,
    depth: usize,
    responses: &Vec<Rpc>,
    queried: &Vec<NodeInfo>,
    closest: &mut Vec<NodeInfo>,
) -> (r: WaveStrategy<Vec<NodeInfo>>)
    requires
        strictly_sorted(old(closest)@, *target),
    ensures
        strictly_sorted(final(closest)@, *target),
        merged_offers(old(closest)@, responses@, Offer::Probe, *target, final(closest)@),
        queried@.len() >= depth ==> (r matches WaveStrategy::Halt(v) && v@ == prefix(
            final(closest)@,
            k_factor as int,
        )),
        queried@.len() < depth ==> (r matches WaveStrategy::Continue(v) && is_next_seeds(
            final(closest)@,
            queried@,
            *own_id,
            alpha as nat,
            *target,
            v@,
        )),
{
    let learned = gather(responses, Offer::Probe, target);
    merge_learned(closest, &learned, target);
    if queried.len() >= depth {
        WaveStrategy::Halt(crate::node::resources::take_prefix(closest, k_factor))
    } else {
        WaveStrategy::Continue(next_to_query(closest, queried, own_id, alpha, target))
    }
}

/// The decision after a round of a retrieve wave. The values already held
/// locally (`local`, as a parallel operation may have cached them) end it.
/// Otherwise the peers offered are learned, and the known peers narrowed to
/// those worth asking; the closest of them is the cache candidate. A
/// response that found the values ends the wave, and the candidate is
/// returned so that the values can be cached there; otherwise the next
/// `alpha` peers are asked.
pub fn retrieve_step(
    own_id: &SubotaiHash,
    key: &SubotaiHash,
    alpha: usize,
    responses: &Vec<Rpc>,
    queried: &Vec<NodeInfo>,
    closest: &mut Vec<NodeInfo>,
    local: Option<Vec<StorageEntry>>,
) -> (r: (WaveStrategy<Vec<StorageEntry>>, Option<NodeInfo>))
    requires
        strictly_sorted(old(closest)@, *key),
    ensures
        strictly_sorted(final(closest)@, *key),
        local is Some ==> r.0 == WaveStrategy::<Vec<StorageEntry>>::Halt(local->Some_0) && r.1 is None
            && final(closest)@ == old(closest)@,
        local is None ==> {
            &&& exists|merged: Seq<NodeInfo>|
                #[trigger] merged_offers(old(closest)@, responses@, Offer::Retrieve, *key, merged) && forall|
                    y: NodeInfo,
                | #[trigger] final(closest)@.contains(y) <==> merged.contains(y) && eligible(y, *own_id, queried@)
            &&& first_retrieved(responses@, *key) is Some ==> (r.0 matches WaveStrategy::Halt(v)
                && same_entries(v@, first_retrieved(responses@, *key)->Some_0)) && r.1 == if final(closest)@.len() > 0 {
                Some(final(closest)@[0])
            } else {
                None
            }
            &&& first_retrieved(responses@, *key) is None ==> r.1 is None && (r.0 matches WaveStrategy::Continue(
                v,
            ) && is_next_seeds(final(closest)@, queried@, *own_id, alpha as nat, *key, v@))
        },
{
    if let Some(values) = local {
        return (WaveStrategy::Halt(values), None);
    }
    let learned = gather(responses, Offer::Retrieve, key);
    merge_learned(closest, &learned, key);
    let ghost merged = closest@;
    let narrowed = retain_eligible(closest, queried, own_id, key);
    *closest = narrowed;
    let candidate = if closest.len() > 0 {
        Some(closest[0])
    } else {
        None
    };
    let mut i: usize = 0;
    proof {
        assert(responses@.skip(0) =~= responses@);
        assert(merged_offers(old(closest)@, responses@, Offer::Retrieve, *key, merged));
    }
    while i < responses.len()
        invariant
            i <= responses@.len(),
            local is None,
            strictly_sorted(closest@, *key),
            merged_offers(old(closest)@, responses@, Offer::Retrieve, *key, merged),
            forall|y: NodeInfo| #[trigger] closest@.contains(y) <==> merged.contains(y) && eligible(y, *own_id, queried@),
            candidate == if closest@.len() > 0 {
                Some(closest@[0])
            } else {
                None
            },
            first_retrieved(responses@, *key) == first_retrieved(responses@.skip(i as int), *key),
        decreases responses@.len() - i,
    {
        proof {
            assert(responses@.skip(i as int)[0] == responses@[i as int]);
            assert(responses@.skip(i as int).drop_first() =~= responses@.skip(i + 1));
        }
        if let Some(values) = responses[i].successfully_retrieved(key) {
            return (WaveStrategy::Halt(values), candidate);
        }
        i += 1;
    }
    proof {
        assert(responses@.skip(i as int).len() == 0);
    }
    (WaveStrategy::Continue(next_to_query(closest, queried, own_id, alpha, key)), None)
}

/// Number of answers a round waits for: all of its peers but the
/// `impatience` slowest, out of `alpha`.
pub fn expected_responses(seeds: usize, alpha: usize, impatience: usize) -> (r: usize)
    ensures
        r == if alpha >= impatience {
            if seeds <= alpha - impatience {
                seeds as int
            } else {
                alpha - impatience
            }
        } else {
            0
        },
{
    let wanted = alpha.saturating_sub(impatience);
    if seeds <= wanted {
        seeds
    } else {
        wanted
    }
}

/// Whether some descriptor in `s` carries this ID.
pub fn contains_id(s: &Vec<NodeInfo>, id: &SubotaiHash) -> (r: bool)
    ensures
        r == has_id_in(s@, *id),
{
    let mut i: usize = 0;
    while i < s.len()
        invariant
            i <= s@.len(),
            forall|k: int| 0 <= k < i ==> (#[trigger] s@[k]).id != *id,
        decreases s@.len() - i,
    {
        if s[i].id == *id {
            proof {
                lemma_raw_ext(s@[i as int].id, *id);
            }
            return true;
        }
        i += 1;
    }
    false
}

/// Adds learned descriptors to a list strictly sorted by distance, once per ID.
pub fn merge_learned(closest: &mut Vec<NodeInfo>, learned: &Vec<NodeInfo>, target: &SubotaiHash)
    requires
        strictly_sorted(old(closest)@, *target),
    ensures
        is_merge(old(closest)@, learned@, *target, final(closest)@),
{
    let ghost before = closest@;
    let mut i: usize = 0;
    while i < learned.len()
        invariant
            i <= learned@.len(),
            strictly_sorted(closest@, *target),
            forall|y: NodeInfo| #[trigger] closest@.contains(y) ==> before.contains(y) || learned@.contains(y),
            forall|y: NodeInfo| #[trigger] before.contains(y) ==> closest@.contains(y),
            forall|k: int| 0 <= k < i ==> has_id_in(closest@, (#[trigger] learned@[k]).id),
        decreases learned@.len() - i,
    {
        let ghost c0 = closest@;
        let x = learned[i];
        insert_by_distance(closest, x, target);
        proof {
            assert(learned@.contains(x));
            assert forall|k: int| 0 <= k < i + 1 implies has_id_in(closest@, (#[trigger] learned@[k]).id) by {
                if k < i {
                    let w = choose|w: int| 0 <= w < c0.len() && (#[trigger] c0[w]).id == learned@[k].id;
                    assert(c0.contains(c0[w]));
                    assert(closest@.contains(c0[w]));
                    let w2 = choose|w2: int| 0 <= w2 < closest@.len() && closest@[w2] == c0[w];
                    assert(closest@[w2].id == learned@[k].id);
                }
            }
        }
        i += 1;
    }
    proof {
        assert forall|y: NodeInfo| #[trigger] learned@.contains(y) implies has_id_in(closest@, y.id) by {
            let k = choose|k: int| 0 <= k < learned@.len() && learned@[k] == y;
        }
    }
}

/// The next peers to ask: the first `alpha` of `closest` that are neither
/// the node itself nor already asked.
pub fn next_to_query(
    closest: &Vec<NodeInfo>,
    queried: &Vec<NodeInfo>,
    own_id: &SubotaiHash,
    alpha: usize,
    target: &SubotaiHash,
) -> (r: Vec<NodeInfo>)
    requires
        strictly_sorted(closest@, *target),
    ensures
        is_next_seeds(closest@, queried@, *own_id, alpha as nat, *target, r@),
{
    let mut r: Vec<NodeInfo> = Vec::new();
    let mut j: usize = 0;
    while j < closest.len()
        invariant
            j <= closest@.len(),
            strictly_sorted(closest@, *target),
            r@.len() <= alpha,
            forall|k: int| 0 <= k < r@.len() ==> exists|q: int| 0 <= q < j && closest@[q] == #[trigger] r@[k],
            forall|k: int| 0 <= k < r@.len() ==> eligible(#[trigger] r@[k], *own_id, queried@),
            strictly_sorted(r@, *target),
            forall|q: int|
                0 <= q < j && eligible(#[trigger] closest@[q], *own_id, queried@) && !r@.contains(closest@[q])
                    ==> r@.len() == alpha && (r@.len() > 0 ==> closer(*target, r@.last().id, closest@[q].id)),
        decreases closest@.len() - j,
    {
        let x = closest[j];
        let not_own = !(x.id == *own_id);
        proof {
            if x.id.raw@ == own_id.raw@ {
                lemma_raw_ext(x.id, *own_id);
            }
        }
        if r.len() < alpha && not_own && !contains_id(queried, &x.id) {
            proof {
                let a = r@;
                assert forall|p: int, q: int| 0 <= p < q < a.push(x).len() implies closer(
                    *target,
                    (#[trigger] a.push(x)[p]).id,
                    (#[trigger] a.push(x)[q]).id,
                ) by {
                    if q == a.len() {
                        let qq = choose|qq: int| 0 <= qq < j && closest@[qq] == #[trigger] a[p];
                        assert(closest@[j as int] == x);
                    } else {
                        assert(a.push(x)[q] == a[q] && a.push(x)[p] == a[p]);
                    }
                }
                assert forall|k: int| 0 <= k < a.push(x).len() implies exists|q: int|
                    0 <= q < j + 1 && closest@[q] == #[trigger] a.push(x)[k] by {
                    if k == a.len() {
                        assert(closest@[j as int] == a.push(x)[k]);
                    } else {
                        let q = choose|q: int| 0 <= q < j && closest@[q] == #[trigger] a[k];
                        assert(closest@[q] == a.push(x)[k]);
                    }
                }
                assert forall|q: int|
                    0 <= q < j + 1 && eligible(#[trigger] closest@[q], *own_id, queried@) && !a.push(
                        x,
                    ).contains(closest@[q]) implies a.push(x).len() == alpha && (a.push(x).len() > 0
                    ==> closer(*target, a.push(x).last().id, closest@[q].id)) by {
                    if q == j {
                        assert(a.push(x)[a.len() as int] == x);
                    } else if a.contains(closest@[q]) {
                        let k = choose|k: int| 0 <= k < a.len() && a[k] == closest@[q];
                        assert(a.push(x)[k] == closest@[q]);
                    }
                }
            }
            r.push(x);
        } else {
            proof {
                let a = r@;
                if r.len() >= alpha && eligible(x, *own_id, queried@) && !a.contains(x) && a.len() > 0 {
                    let qq = choose|qq: int| 0 <= qq < j && closest@[qq] == #[trigger] a[a.len() - 1];
                    assert(closest@[j as int] == x);
                }
            }
        }
        j += 1;
    }
    proof {
        assert forall|k: int| 0 <= k < r@.len() implies closest@.contains(#[trigger] r@[k]) by {
            let q = choose|q: int| 0 <= q < j && closest@[q] == #[trigger] r@[k];
        }
        assert forall|x: NodeInfo|
            #[trigger] closest@.contains(x) && eligible(x, *own_id, queried@) && !r@.contains(x) implies r@.len()
            == alpha && (r@.len() > 0 ==> closer(*target, r@.last().id, x.id)) by {
            let q = choose|q: int| 0 <= q < closest@.len() && closest@[q] == x;
        }
    }
    r
}

} // verus!
