use subotai::hash::SubotaiHash;
use subotai::node::factory::Factory;
use subotai::node::receptions::{KindFilter, ReceptionFilter};
use subotai::node::resources::{cache_ttl_minutes, needs_refresh, store_quorum, Resources};
use subotai::node::wave::{expected_responses, locate_step, next_to_query, probe_step, retrieve_step, WaveStrategy};
use subotai::node::{Configuration, State};
use subotai::routing::{IpAddress, LookupResult, NodeInfo, SocketAddress};
use subotai::rpc::{Kind, RetrieveResult, Rpc, SerializableTime};
use subotai::storage::{StorageEntry, StoreResult};
use subotai::SubotaiError;

const NOW: i64 = 1_700_000_000;

fn node_info_no_net(id: SubotaiHash) -> NodeInfo {
    NodeInfo { id, address: SocketAddress { ip: IpAddress::V4(0), port: 0 } }
}

fn new_node() -> Resources {
    let config: Configuration = Default::default();
    Resources::new(SubotaiHash::random(), SocketAddress { ip: IpAddress::V4(0x7f000001), port: 5000 }, config)
}

fn fill_bucket(node: &mut Resources, bucket_index: usize, fill_quantity: u8) {
    for i in 0..fill_quantity {
        let mut id = node.id();
        id.flip_bit(bucket_index);
        id.raw[0] = i as u8;
        node.update_table(node_info_no_net(id));
    }
}

#[test]
fn impatience_always_lower_than_alpha() {
    let factory = Factory::new().alpha(5).impatience(10);
    assert_eq!(factory.configuration.impatience, 4);
}

#[test]
fn lowering_alpha_lowers_impatience() {
    let factory = Factory::new().impatience(2).alpha(2);
    assert_eq!(factory.configuration.alpha, 2);
    assert_eq!(factory.configuration.impatience, 1);
    let factory = factory.k_factor(8).max_conflicts(3).inbound_port(4000).outbound_port(4001);
    assert_eq!(factory.configuration.k_factor, 8);
    assert_eq!(factory.configuration.max_conflicts, 3);
    assert_eq!(factory.inbound_port, 4000);
    assert_eq!(factory.outbound_port, 4001);
}

#[test]
fn it_works() {}

#[test]
fn updating_table_with_full_bucket_starts_the_conflict_resolution_mechanism() {
    let mut node = new_node();
    let k = node.configuration().k_factor;

    fill_bucket(&mut node, 8, k as u8); // Bucket completely full

    let mut id = node.id();
    id.flip_bit(8);
    id.raw[0] = 0xFF;
    let info = node_info_no_net(id);

    node.update_table(info);
    assert_eq!(node.conflicts().len(), 1);
}

#[test]
fn generating_too_many_conflicts_causes_the_node_to_enter_defensive_state() {
    let mut node = new_node();
    let cfg = node.configuration();

    let mut transitions = Vec::new();
    for index in 0..(cfg.k_factor + cfg.max_conflicts) {
        let mut id = node.id();
        id.flip_bit(140); // Arbitrary bucket
        id.raw[0] = index as u8;
        let info = node_info_no_net(id);
        if let Some(state) = node.update_table(info) {
            transitions.push(state);
        }
    }
    assert_eq!(node.conflicts().len(), cfg.max_conflicts);
    assert_eq!(node.state(), State::Defensive);
    assert_eq!(transitions, vec![State::Defensive]);

    // Trying to add new conflictive nodes while in defensive state will fail.
    let mut id = node.id();
    id.flip_bit(140); // Arbitrary bucket
    id.raw[0] = 0xFF;
    let info = node_info_no_net(id);

    node.update_table(info);
    assert!(node.table().specific_node(&id).is_none());
    assert_eq!(node.conflicts().len(), cfg.max_conflicts);

    // However, if they would fall in a different bucket, it's ok.
    id.flip_bit(155);
    let info = node_info_no_net(id);
    node.update_table(info);
    assert!(node.table().specific_node(&id).is_some());
}

#[test]
fn node_goes_on_grid_with_more_than_k_peers() {
    let mut node = new_node();
    let k = node.configuration().k_factor;
    let mut changes = Vec::new();
    for i in 0..=k {
        let mut id = node.id();
        id.flip_bit(20 + i);
        if let Some(state) = node.update_table(node_info_no_net(id)) {
            changes.push(state);
        }
    }
    assert_eq!(node.table().len(), k + 1);
    assert_eq!(node.state(), State::OnGrid);
    assert_eq!(changes, vec![State::OnGrid]);
}

#[test]
fn conflict_rounds_ping_evicted_peers_and_give_up_after_five() {
    let mut node = new_node();
    let k = node.configuration().k_factor;
    fill_bucket(&mut node, 60, k as u8);
    let mut id = node.id();
    id.flip_bit(60);
    id.raw[0] = 0xEE;
    node.update_table(node_info_no_net(id));
    for round in 1..=5u8 {
        let pings = node.conflict_round();
        assert_eq!(pings.len(), 1);
        assert_eq!(node.conflicts()[0].times_pinged, round);
    }
    assert_eq!(node.conflict_round().len(), 0);
    assert_eq!(node.conflicts().len(), 0);
}

#[test]
fn ping_response_from_evicted_peer_reverts_the_conflict() {
    let mut node = new_node();
    let k = node.configuration().k_factor;
    fill_bucket(&mut node, 60, k as u8);
    let mut id = node.id();
    id.flip_bit(60);
    id.raw[0] = 0xEE;
    node.update_table(node_info_no_net(id));
    let evicted = node.conflicts()[0].evicted;
    let (reply, _) = node.process_incoming_rpc(Rpc::ping_response(evicted), IpAddress::V4(0), NOW);
    assert!(reply.is_none());
    assert_eq!(node.conflicts().len(), 0);
    assert!(node.table().specific_node(&evicted.id).is_some());
    assert!(node.table().specific_node(&id).is_none());
}

#[test]
fn leaving_defensive_state_when_conflicts_are_resolved() {
    let mut config: Configuration = Default::default();
    config.max_conflicts = 1;
    let mut node = Resources::new(SubotaiHash::random(), SocketAddress { ip: IpAddress::V4(1), port: 1 }, config);
    fill_bucket(&mut node, 70, config.k_factor as u8);
    let mut id = node.id();
    id.flip_bit(70);
    id.raw[0] = 0xAB;
    assert_eq!(node.update_table(node_info_no_net(id)), Some(State::Defensive));
    assert_eq!(node.settle_conflicts(false), None);
    assert_eq!(node.settle_conflicts(true), Some(State::OffGrid));
}

#[test]
fn tests_lookup_for_self() {
    let node = new_node();
    let reply = node.handle_locate(&node.id());
    match reply.kind {
        Kind::LocateResponse(payload) => assert_eq!(payload.result, LookupResult::Found(node.local_info())),
        _ => panic!(),
    }
}

#[test]
fn table_lookup_for_self() {
    let mut node = new_node();
    fill_bucket(&mut node, 20, 3);
    let reply = node.handle_locate(&node.id());
    match reply.kind {
        Kind::LocateResponse(payload) => {
            assert_eq!(payload.id_to_find, node.id());
            assert_eq!(payload.result, LookupResult::Found(node.local_info()));
        }
        _ => panic!(),
    }
}

#[test]
fn ping_is_answered_and_sender_admitted_with_observed_ip() {
    let mut node = new_node();
    let sender = NodeInfo { id: SubotaiHash::random(), address: SocketAddress { ip: IpAddress::V4(9), port: 7000 } };
    let (reply, _) = node.process_incoming_rpc(Rpc::ping(sender), IpAddress::V4(0x0a000001), NOW);
    let reply = reply.unwrap();
    assert_eq!(reply.kind, Kind::PingResponse);
    assert_eq!(reply.sender, node.local_info());
    let stored = node.table().specific_node(&sender.id).unwrap();
    assert_eq!(stored.address, SocketAddress { ip: IpAddress::V4(0x0a000001), port: 7000 });
}

#[test]
fn store_rpc_is_stored_and_answered() {
    let mut node = new_node();
    let sender = node_info_no_net(SubotaiHash::random());
    let key = SubotaiHash::random();
    let entry = StorageEntry::Value(SubotaiHash::random());
    let expiration = SerializableTime::from_seconds(NOW + 3600).unwrap();
    let (reply, _) = node.process_incoming_rpc(Rpc::store(sender, key, entry.clone(), expiration), IpAddress::V4(0), NOW);
    assert!(reply.unwrap().successfully_stored(&key));

    let (reply, _) = node.process_incoming_rpc(Rpc::retrieve(sender, key), IpAddress::V4(0), NOW);
    let reply = reply.unwrap();
    assert_eq!(reply.successfully_retrieved(&key), Some(vec![entry]));
}

#[test]
fn serializable_time_round_trips_through_seconds() {
    let t = SerializableTime::from_seconds(NOW).unwrap();
    assert_eq!(t.tm_utcoff, 0);
    assert_eq!(t.tm_year, 123);
    assert_eq!(t.to_seconds(), Some(NOW));
    assert!(SerializableTime::from_seconds(i64::MAX).is_none());
    let mut bad = t;
    bad.tm_nsec = -1;
    assert_eq!(bad.to_seconds(), None);
}

#[test]
fn mass_store_reports_failure_on_oversized_blob() {
    let mut node = new_node();
    let sender = node_info_no_net(SubotaiHash::random());
    let key = SubotaiHash::random();
    let t = SerializableTime::from_seconds(NOW + 60).unwrap();
    let items = vec![(StorageEntry::Blob(vec![1]), t), (StorageEntry::Blob(vec![0; 2000]), t)];
    let (reply, _) = node.process_incoming_rpc(Rpc::mass_store(sender, key, items), IpAddress::V4(0), NOW);
    match reply.unwrap().kind {
        Kind::StoreResponse(payload) => assert_eq!(payload.result, StoreResult::MassStoreFailed),
        _ => panic!(),
    }
    let items = vec![(StorageEntry::Blob(vec![1]), t), (StorageEntry::Blob(vec![2]), t)];
    let (reply, _) = node.process_incoming_rpc(Rpc::mass_store(sender, key, items), IpAddress::V4(0), NOW);
    assert!(reply.unwrap().successfully_stored(&key));
}

#[test]
fn retrieve_without_value_offers_closest_nodes() {
    let mut node = new_node();
    fill_bucket(&mut node, 30, 5);
    let sender = node_info_no_net(SubotaiHash::random());
    let key = SubotaiHash::random();
    let (reply, _) = node.process_incoming_rpc(Rpc::retrieve(sender, key), IpAddress::V4(0), NOW);
    match reply.unwrap().kind {
        Kind::RetrieveResponse(payload) => match payload.result {
            RetrieveResult::Closest(nodes) => assert_eq!(nodes.len(), 5),
            _ => panic!(),
        },
        _ => panic!(),
    }
}

#[test]
fn probe_rpc_lists_k_plus_one_closest() {
    let mut node = new_node();
    for b in 20..50 {
        fill_bucket(&mut node, b, 1);
    }
    let sender = node_info_no_net(SubotaiHash::random());
    let target = SubotaiHash::random();
    let (reply, _) = node.process_incoming_rpc(Rpc::probe(sender, target), IpAddress::V4(0), NOW);
    let nodes = reply.unwrap().is_probe_response(&target).unwrap();
    assert_eq!(nodes.len(), node.configuration().k_factor + 1);
}

#[test]
fn cached_values_expire_sooner_far_from_the_key() {
    let config: Configuration = Default::default();
    let base = config.base_expiration_time_hrs;
    let threshold = config.expiration_distance_threshold;
    // Near: distance 1, below the threshold.
    assert_eq!(cache_ttl_minutes(1, threshold, base), base * 60);
    // Far: two steps past the threshold.
    assert_eq!(cache_ttl_minutes(threshold + 2, threshold, base), base * 60 / 4);
    // Clamped at sixteen halvings.
    assert_eq!(cache_ttl_minutes(threshold + 40, threshold, base), base * 60 / 65536);

    let node = new_node();
    let key = node.id();
    let mut near = key;
    near.flip_bit(1);
    let mut far = key;
    far.flip_bit(threshold + 2);
    assert_eq!(node.calculate_cache_expiration(&near, &key, NOW), NOW + base * 3600);
    assert_eq!(node.calculate_cache_expiration(&far, &key, NOW), NOW + base * 3600 / 4);
}

#[test]
fn waves_wait_for_all_but_the_impatient() {
    assert_eq!(expected_responses(3, 3, 1), 2);
    assert_eq!(expected_responses(1, 3, 1), 1);
    assert_eq!(expected_responses(5, 1, 3), 0);
    assert_eq!(store_quorum(20), 6);
    assert!(needs_refresh(None, NOW));
    assert!(!needs_refresh(Some(NOW - 3600), NOW));
    assert!(needs_refresh(Some(NOW - 3601), NOW));
}

#[test]
fn next_peers_skip_self_and_queried() {
    let own = SubotaiHash::blank();
    let target = SubotaiHash::blank();
    let mut ids = Vec::new();
    for b in [3usize, 10, 20, 40] {
        let mut id = SubotaiHash::blank();
        id.flip_bit(b);
        ids.push(node_info_no_net(id));
    }
    let queried = vec![ids[0]];
    let next = next_to_query(&ids, &queried, &own, 2, &target);
    assert_eq!(next, vec![ids[1], ids[2]]);
}

#[test]
fn locate_step_halts_on_found_and_otherwise_learns() {
    let own = SubotaiHash::random();
    let target = SubotaiHash::random();
    let helper = node_info_no_net(SubotaiHash::random());
    let learned = node_info_no_net(SubotaiHash::random());
    let found = node_info_no_net(target);

    let mut closest = Vec::new();
    let help = Rpc::locate_response(helper, target, LookupResult::ClosestNodes(vec![learned]));
    match locate_step(&own, &target, 3, &vec![help.clone()], &vec![helper], &mut closest, None) {
        WaveStrategy::Continue(next) => assert_eq!(next, vec![learned]),
        _ => panic!(),
    }
    let hit = Rpc::locate_response(helper, target, LookupResult::Found(found));
    match locate_step(&own, &target, 3, &vec![help, hit], &vec![helper], &mut closest, None) {
        WaveStrategy::Halt(node) => assert_eq!(node, found),
        _ => panic!(),
    }
}

#[test]
fn probe_step_halts_at_depth() {
    let own = SubotaiHash::random();
    let target = SubotaiHash::random();
    let helper = node_info_no_net(SubotaiHash::random());
    let nodes: Vec<NodeInfo> = (0..4).map(|_| node_info_no_net(SubotaiHash::random())).collect();
    let response = Rpc::probe_response(helper, nodes.clone(), target);
    let mut closest = Vec::new();
    match probe_step(&own, &target, 3, 2, 1, &vec![response], &vec![helper], &mut closest) {
        WaveStrategy::Halt(best) => {
            assert_eq!(best.len(), 2);
            assert_eq!(closest.len(), 4);
        }
        _ => panic!(),
    }
}

#[test]
fn retrieve_step_returns_values_and_cache_candidate() {
    let own = SubotaiHash::random();
    let key = SubotaiHash::random();
    let helper = node_info_no_net(SubotaiHash::random());
    let other = node_info_no_net(SubotaiHash::random());
    let value = StorageEntry::Blob(vec![4, 2]);
    let miss = Rpc::retrieve_response(helper, key, RetrieveResult::Closest(vec![other]));
    let hit = Rpc::retrieve_response(helper, key, RetrieveResult::Found(vec![value.clone()]));
    let mut closest = Vec::new();
    let (decision, candidate) =
        retrieve_step(&own, &key, 3, &vec![miss, hit], &vec![helper], &mut closest, None);
    match decision {
        WaveStrategy::Halt(values) => assert_eq!(values, vec![value]),
        _ => panic!(),
    }
    assert_eq!(candidate, Some(other));
}

#[test]
fn reception_filters_by_kind_and_sender() {
    let alice = node_info_no_net(SubotaiHash::random());
    let bob = node_info_no_net(SubotaiHash::random());
    let filter = ReceptionFilter::new().of_kind(KindFilter::Ping).from(alice.id);
    assert!(filter.accepts(&Rpc::ping(alice)));
    assert!(!filter.accepts(&Rpc::ping(bob)));
    assert!(!filter.accepts(&Rpc::ping_response(alice)));
    let any = ReceptionFilter::new().from_senders(vec![alice.id, bob.id]);
    assert!(any.accepts(&Rpc::ping_response(bob)));
}

#[test]
fn rpc_predicates() {
    let sender = node_info_no_net(SubotaiHash::random());
    let key = SubotaiHash::random();
    let other = SubotaiHash::random();
    let stored = Rpc::store_response(sender, key, StoreResult::Success);
    assert!(stored.successfully_stored(&key));
    assert!(!stored.successfully_stored(&other));
    assert!(!Rpc::store_response(sender, key, StoreResult::StorageFull).successfully_stored(&key));
    let located = Rpc::locate_response(sender, key, LookupResult::Found(sender));
    assert_eq!(located.successfully_located(&key), Some(sender));
    assert_eq!(located.successfully_located(&other), None);
    assert_eq!(located.is_helping_locate(&key), None);
    let helping = Rpc::retrieve_response(sender, key, RetrieveResult::Closest(vec![sender]));
    assert_eq!(helping.is_helping_retrieve(&key), Some(vec![sender]));
    assert_eq!(helping.successfully_retrieved(&key), None);
    assert_eq!(Rpc::probe(sender, key).is_probe_response(&key), None);
}

#[test]
fn publishing_needs_the_node_on_grid() {
    let mut node = new_node();
    assert_eq!(node.check_on_grid(), Err(SubotaiError::OffGridError));
    node.set_state(State::OnGrid);
    assert_eq!(node.check_on_grid(), Ok(()));
    assert_eq!(node.publish_expiration(NOW), NOW + 24 * 3600);
    assert_eq!(node.refresh_target(160), Err(SubotaiError::OutOfBounds));
    let target = node.refresh_target(100).unwrap();
    for i in 100..160 {
        assert_eq!(target.bit(i), node.id().bit(i));
    }
    assert!(SubotaiError::NoResponse.description().len() > 0);
}

#[test]
fn generating_a_conflict_causes_a_ping_to_the_evicted_node() {
    let mut alpha = new_node();
    let beta = NodeInfo {
        id: SubotaiHash::random(),
        address: SocketAddress { ip: IpAddress::V4(0x7f000001), port: 6000 },
    };
    let k = alpha.configuration().k_factor;
    alpha.update_table(beta);

    let index = alpha.table().bucket_for_node(&beta.id);

    // We fill the bucket corresponding to Beta until we are ready to cause a conflict.
    // (Beta's bucket is one of the highest: changing its low bytes keeps peers in it.)
    assert!(index > 24);
    for i in 0..(k - 1) {
        let mut id = beta.id;
        id.raw[1] = beta.id.raw[1] ^ (i as u8 + 1);
        alpha.update_table(node_info_no_net(id));
    }
    assert_eq!(alpha.table().nodes_from_bucket(index).len(), k);

    // Adding a new node causes a conflict, evicting Beta, the oldest.
    let mut id = beta.id;
    id.raw[2] = beta.id.raw[2] ^ 0xFF;
    alpha.update_table(node_info_no_net(id));

    // We expect a ping to Beta.
    let pings = alpha.conflict_round();
    assert_eq!(pings.len(), 1);
    assert_eq!(pings[0], beta.address);
}

#[test]
fn times_with_an_offset_are_read_as_local_times() {
    // The calendar fields of one hour past NOW, read as a local time one
    // hour ahead of UTC, are NOW.
    let mut t = SerializableTime::from_seconds(NOW + 3600).unwrap();
    t.tm_utcoff = 3600;
    assert_eq!(t.to_seconds(), Some(NOW));
    t.tm_utcoff = -7200;
    assert_eq!(t.to_seconds(), Some(NOW + 3 * 3600));
}
