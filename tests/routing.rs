use std::cmp::Ordering;
use std::collections::VecDeque;
use subotai::hash::{SubotaiHash, HASH_SIZE};
use subotai::routing::{IpAddress, LookupResult, NodeInfo, SocketAddress, Table, UpdateResult};

const K_FACTOR: usize = 20;

fn node_info_no_net(id: SubotaiHash) -> NodeInfo {
    NodeInfo { id, address: SocketAddress { ip: IpAddress::V4(0), port: 0 } }
}

fn fill_bucket(table: &mut Table, parent_id: &SubotaiHash, bucket_index: usize, fill_quantity: u8) {
    assert!(bucket_index > 7);
    for i in 0..fill_quantity {
        let mut id = *parent_id;
        id.flip_bit(bucket_index);
        id.raw[0] = i as u8;
        table.update_node(node_info_no_net(id));
    }
}

fn mutate_random_bits(id: &mut SubotaiHash, number_of_bits: u8) {
    for _ in 0..number_of_bits {
        let r = SubotaiHash::random();
        let index = (r.raw[0] as usize * 256 + r.raw[1] as usize) % HASH_SIZE;
        id.flip_bit(index);
    }
}

fn assert_ascending(nodes: &[NodeInfo], target: &SubotaiHash) {
    for (current_node, next_node) in nodes.iter().zip(nodes.iter().skip(1)) {
        let a = current_node.id.xor(target);
        let b = next_node.id.xor(target);
        assert!(a.compare(&b) != Ordering::Greater);
    }
}

#[test]
fn sanity_check() {
    let vecdeque = VecDeque::<u32>::with_capacity(9);
    assert_eq!(vecdeque.capacity(), 9);
}

#[test]
fn tests_inserting_and_retrieving_specific_node() {
    let node_info = node_info_no_net(SubotaiHash::random());
    let mut table = Table::new(SubotaiHash::random(), K_FACTOR);
    table.update_node(node_info);
    assert_eq!(table.specific_node(&node_info.id), Some(node_info));
}

#[test]
fn table_inserting_and_retrieving_specific_node() {
    let mut id = SubotaiHash::blank();
    id.raw[2] = 7;
    let node_info = node_info_no_net(id);
    let mut table = Table::new(SubotaiHash::blank(), K_FACTOR);
    assert!(matches!(table.update_node(node_info), UpdateResult::AddedNode));
    assert!(matches!(table.update_node(node_info), UpdateResult::UpdatedNode));
    assert_eq!(table.specific_node(&id), Some(node_info));
    assert_eq!(table.bucket_for_node(&id), 18);
}

#[test]
fn measuring_table_length() {
    let mut table = Table::new(SubotaiHash::random(), K_FACTOR);
    let mut conflicts = 0usize;
    for _ in 0..50 {
        match table.update_node(node_info_no_net(SubotaiHash::random())) {
            UpdateResult::CausedConflict(_) => conflicts += 1,
            _ => (),
        };
    }

    assert_eq!(50, table.len() + conflicts);
}

#[test]
fn tests_inserting_in_a_full_bucket_causes_eviction_conflict() {
    let mut parent_id = SubotaiHash::blank();
    parent_id.raw[1] = 1; // This will guarantee all nodes will fall on the same bucket.

    let mut table = Table::new(parent_id, K_FACTOR);
    fill_bucket(&mut table, &parent_id, 8, K_FACTOR as u8);

    // When we add another node to the same bucket, we cause a conflict.
    let mut id = SubotaiHash::blank();
    id.raw[0] = 0xFF;
    let info = node_info_no_net(id);
    match table.update_node(info) {
        UpdateResult::CausedConflict(_) => (),
        _ => panic!(),
    }
}

#[test]
fn table_inserting_in_a_full_bucket_causes_eviction_conflict() {
    let parent_id = SubotaiHash::blank();
    let mut table = Table::new(parent_id, K_FACTOR);
    // Filling to exactly k_factor causes no conflict.
    for i in 0..K_FACTOR {
        let mut id = parent_id;
        id.flip_bit(100);
        id.raw[0] = i as u8;
        assert!(matches!(table.update_node(node_info_no_net(id)), UpdateResult::AddedNode));
    }
    assert_eq!(table.nodes_from_bucket(100).len(), K_FACTOR);

    // The next one causes exactly one conflict, evicting the oldest.
    let mut id = parent_id;
    id.flip_bit(100);
    id.raw[0] = 0xFF;
    match table.update_node(node_info_no_net(id)) {
        UpdateResult::CausedConflict(conflict) => {
            assert_eq!(conflict.evicted.id.raw[0], 0);
            assert_eq!(conflict.evictor.id, id);
            assert_eq!(conflict.times_pinged, 0);
        }
        _ => panic!(),
    }
    assert_eq!(table.nodes_from_bucket(100).len(), K_FACTOR);
    assert_eq!(table.len(), K_FACTOR);
}

#[test]
fn table_reverting_an_eviction_conflict_reinserts_the_evicted_node_in_place_of_evictor() {
    let parent_id = SubotaiHash::blank();
    let mut table = Table::new(parent_id, K_FACTOR);
    fill_bucket(&mut table, &parent_id, 50, K_FACTOR as u8);

    let mut id = parent_id;
    id.flip_bit(50);
    id.raw[0] = 0xFF;
    let evictor = node_info_no_net(id);
    let conflict = match table.update_node(evictor) {
        UpdateResult::CausedConflict(conflict) => conflict,
        _ => panic!(),
    };
    assert!(table.specific_node(&conflict.evicted.id).is_none());
    assert!(table.specific_node(&evictor.id).is_some());

    table.revert_conflict(conflict);
    assert!(table.specific_node(&conflict.evicted.id).is_some());
    assert!(table.specific_node(&evictor.id).is_none());
    assert_eq!(table.nodes_from_bucket(50).last().unwrap().id, conflict.evicted.id);
}

#[test]
fn reverting_a_conflict_whose_evictor_left_reinserts_the_evicted_node() {
    let parent_id = SubotaiHash::blank();
    let mut table = Table::new(parent_id, 2);
    fill_bucket(&mut table, &parent_id, 30, 2);
    let mut id = parent_id;
    id.flip_bit(30);
    id.raw[0] = 0xFF;
    let conflict = match table.update_node(node_info_no_net(id)) {
        UpdateResult::CausedConflict(conflict) => conflict,
        _ => panic!(),
    };
    table.remove_node(&id);
    assert_eq!(table.nodes_from_bucket(30).len(), 1);
    table.revert_conflict(conflict);
    assert!(table.specific_node(&conflict.evicted.id).is_some());
    assert_eq!(table.nodes_from_bucket(30).len(), 2);
}

#[test]
fn own_id_is_rejected() {
    let parent_id = SubotaiHash::random();
    let mut table = Table::new(parent_id, K_FACTOR);
    assert!(matches!(table.update_node(node_info_no_net(parent_id)), UpdateResult::Rejected));
    assert!(table.is_empty());
}

#[test]
fn tests_lookup_for_a_stored_node() {
    let mut table = Table::new(SubotaiHash::random(), K_FACTOR);
    let node = node_info_no_net(SubotaiHash::random());
    table.update_node(node);

    assert_eq!(table.lookup(&node.id, 20, None), LookupResult::Found(node));
}

#[test]
fn table_lookup_for_a_stored_node() {
    let mut table = Table::new(SubotaiHash::blank(), K_FACTOR);
    let mut id = SubotaiHash::blank();
    id.raw[5] = 1;
    let node = node_info_no_net(id);
    table.update_node(node);
    match table.lookup(&node.id, 20, None) {
        LookupResult::Found(found) => assert_eq!(found.id, id),
        _ => panic!(),
    }
}

#[test]
fn lookup_on_an_empty_table_finds_nothing() {
    let parent_id = SubotaiHash::random();
    let table = Table::new(parent_id, K_FACTOR);
    assert_eq!(table.lookup(&parent_id, 20, None), LookupResult::Nothing);
    assert_eq!(table.lookup(&SubotaiHash::random(), 20, None), LookupResult::Nothing);
}

#[test]
fn tests_ascending_lookup_on_a_sparse_table() {
    let parent_id = SubotaiHash::random();
    let mut table = Table::new(parent_id, K_FACTOR);
    for i in (10..50).filter(|x| x % 2 == 0) {
        fill_bucket(&mut table, &parent_id, i, 2);
    }
    let mut id = parent_id;
    id.flip_bit(8); // Bucket 8
    if let LookupResult::ClosestNodes(nodes) = table.lookup(&id, 5, None) {
        assert_eq!(nodes.len(), 5);
        assert_ascending(&nodes, &id);
    } else {
        panic!("We shouldn't have found the node!");
    }
}

#[test]
fn tests_descending_lookup_on_a_sparse_table() {
    let parent_id = SubotaiHash::random();
    let mut table = Table::new(parent_id, K_FACTOR);
    for i in (10..50).filter(|x| x % 2 == 0) {
        fill_bucket(&mut table, &parent_id, i, 2);
    }
    let mut id = parent_id;
    id.flip_bit(51); // Bucket 51
    id.raw[0] = 0xFF;
    if let LookupResult::ClosestNodes(nodes) = table.lookup(&id, 5, None) {
        assert_eq!(nodes.len(), 5);
        assert_ascending(&nodes, &id);
    } else {
        panic!("We shouldn't have found the node!");
    }
}

#[test]
fn tests_lookup_on_a_sparse_table() {
    let parent_id = SubotaiHash::random();
    let mut table = Table::new(parent_id, K_FACTOR);
    for i in (10..50).filter(|x| x % 2 == 0) {
        fill_bucket(&mut table, &parent_id, i, 2);
    }
    let mut id = parent_id;
    id.flip_bit(25); // Bucket 25
    id.raw[0] = 0xFF;
    if let LookupResult::ClosestNodes(nodes) = table.lookup(&id, 5, None) {
        assert_eq!(nodes.len(), 5);
        assert_ascending(&nodes, &id);
    } else {
        panic!("We shouldn't have found the node!");
    }
}

#[test]
fn lookup_with_blacklist() {
    let mut table = Table::new(SubotaiHash::random(), K_FACTOR);
    let blacklist = vec![node_info_no_net(SubotaiHash::random()); 5];
    let normal_node = node_info_no_net(SubotaiHash::random());

    for node in &blacklist {
        table.update_node(*node);
    }

    let blacklist = blacklist.iter().map(|info: &NodeInfo| info.id).collect::<Vec<SubotaiHash>>();

    table.update_node(normal_node);

    if let LookupResult::ClosestNodes(mut nodes) = table.lookup(&SubotaiHash::random(), 5, Some(&blacklist)) {
        assert_eq!(nodes.len(), 1);
        assert_eq!(nodes.pop().unwrap().id, normal_node.id);
    } else {
        panic!("We shouldn't have found the node!");
    }
}

#[test]
fn efficient_bounce_lookup_on_a_randomized_table() {
    let parent_id = SubotaiHash::random();
    let mut table = Table::new(parent_id, K_FACTOR);
    for _ in 0..300 {
        // We create ids that will distribute more or less uniformly over the buckets.
        let mut id = parent_id;
        mutate_random_bits(&mut id, 3);
        table.update_node(node_info_no_net(id));
    }

    // We construct an origin node from which to calculate distances for the lookup.
    let mut id = parent_id;
    mutate_random_bits(&mut id, 20);
    if let LookupResult::ClosestNodes(nodes) = table.lookup(&id, 20, None) {
        assert_eq!(nodes.len(), 20);

        // Ensure they are ordered by ascending distance by comparing to a brute force
        // sorted list of nodes
        let mut ordered_nodes = table.all_nodes();
        ordered_nodes.sort_by(|a, b| a.id.xor(&id).compare(&b.id.xor(&id)));

        for (a, b) in nodes.iter().zip(ordered_nodes.iter()) {
            assert_eq!(a, b);
        }

        // Different way to locate nodes
        let nodes_iterator = table.closest_nodes_to(&id);
        for (a, b) in nodes.into_iter().zip(nodes_iterator) {
            assert_eq!(a, b);
        }
    } else {
        panic!("We shouldn't have found the node!");
    }
}

#[test]
fn bounce_walk_is_sorted_and_complete() {
    let parent_id = SubotaiHash::random();
    let mut table = Table::new(parent_id, 4);
    for _ in 0..200 {
        let mut id = parent_id;
        mutate_random_bits(&mut id, 2);
        table.update_node(node_info_no_net(id));
    }
    let reference = SubotaiHash::random();
    let walk = table.closest_nodes_to(&reference);
    assert_eq!(walk.len(), table.len());
    assert_ascending(&walk, &reference);
}

#[test]
fn oldest_bucket_prefers_never_probed_then_earliest() {
    let parent_id = SubotaiHash::blank();
    let mut table = Table::new(parent_id, K_FACTOR);
    assert_eq!(table.oldest_bucket(), (0, None));
    for i in 0..HASH_SIZE {
        let mut id = parent_id;
        id.flip_bit(i);
        table.mark_bucket_as_probed(&id, 1000 + i as i64);
    }
    assert_eq!(table.oldest_bucket(), (0, Some(1000)));
    let mut id = parent_id;
    id.flip_bit(0);
    table.mark_bucket_as_probed(&id, 5000);
    assert_eq!(table.oldest_bucket(), (1, Some(1001)));
}

fn sparse_table_lookup(flip: usize, set_low_byte: bool) {
    let parent_id = SubotaiHash::random();
    let mut table = Table::new(parent_id, K_FACTOR);
    for i in (10..50).filter(|x| x % 2 == 0) {
        fill_bucket(&mut table, &parent_id, i, 2);
    }
    let mut id = parent_id;
    id.flip_bit(flip);
    if set_low_byte {
        id.raw[0] = 0xFF;
    }
    if let LookupResult::ClosestNodes(nodes) = table.lookup(&id, 5, None) {
        assert_eq!(nodes.len(), 5);
        assert_ascending(&nodes, &id);
    } else {
        panic!("We shouldn't have found the node!");
    }
}

#[test]
fn new_routing_table_is_empty() {
    let table = Table::new(SubotaiHash::random(), K_FACTOR);
    let test_hash = SubotaiHash::random();
    assert!(table.specific_node(&test_hash).is_none());
    assert!(table.is_empty());
}

#[test]
fn table_ascending_lookup_on_a_sparse_table() {
    sparse_table_lookup(8, false);
}

#[test]
fn table_descending_lookup_on_a_sparse_table() {
    sparse_table_lookup(51, true);
}

#[test]
fn table_lookup_on_a_sparse_table() {
    sparse_table_lookup(25, true);
}

#[test]
fn table_lookup_on_a_randomized_table() {
    let mut table = Table::new(SubotaiHash::random(), K_FACTOR);
    for _ in 0..100 {
        table.update_node(node_info_no_net(SubotaiHash::random()));
    }

    let node_key = SubotaiHash::random();
    if let LookupResult::ClosestNodes(nodes) = table.lookup(&node_key, 30, None) {
        assert_eq!(nodes.len(), 30);
        assert_ascending(&nodes, &node_key);
    } else {
        panic!("You should go play the lottery...");
    }
}

#[test]
fn tests_lookup_on_a_randomized_table() {
    let parent_id = SubotaiHash::random();
    let mut table = Table::new(parent_id, K_FACTOR);
    for _ in 0..300 {
        // We create ids that will distribute more or less uniformly over the buckets.
        let mut id = parent_id;
        mutate_random_bits(&mut id, 3);
        table.update_node(node_info_no_net(id));
    }
    let mut id = parent_id;
    mutate_random_bits(&mut id, 20);
    if let LookupResult::ClosestNodes(nodes) = table.lookup(&id, 30, None) {
        assert_eq!(nodes.len(), 30);
        assert_ascending(&nodes, &id);
    } else {
        panic!("We shouldn't have found the node!");
    }
}

#[test]
fn tests_reverting_an_eviction_conflict_reinserts_the_evicted_node_in_place_of_evictor() {
    let mut parent_id = SubotaiHash::blank();
    parent_id.raw[1] = 1; // This will guarantee all nodes will fall on the same bucket.

    let mut table = Table::new(parent_id, K_FACTOR);
    fill_bucket(&mut table, &parent_id, 8, K_FACTOR as u8);

    // When we add another node to the same bucket, we cause a conflict.
    let mut id = SubotaiHash::blank();
    id.raw[0] = 0xFF;
    let info = node_info_no_net(id);
    let conflict = match table.update_node(info) {
        UpdateResult::CausedConflict(conflict) => conflict,
        _ => panic!(),
    };

    table.revert_conflict(conflict);
    // The evictor has been removed.
    assert!(table.specific_node(&conflict.evictor.id).is_none());
    // And the evicted has been reinserted.
    assert!(table.specific_node(&conflict.evicted.id).is_some());
}
