use subotai::hash::SubotaiHash;
use subotai::node::Configuration;
use subotai::storage::{Storage, StorageEntry, StoreResult};

const NOW: i64 = 1_700_000_000;
const MINUTE: i64 = 60;
const HOUR: i64 = 3600;

fn default_storage() -> Storage {
    let default_config: Configuration = Default::default();
    Storage::new(SubotaiHash::random(), default_config)
}

fn ready_expiration(storage: &mut Storage, now: i64) -> Vec<i64> {
    storage.mark_all_as_ready();
    let entries = storage.get_all_ready_entries(now);
    entries.iter().flat_map(|(_, pairs)| pairs.iter().map(|(_, t)| *t)).collect()
}

#[test]
fn mod_storing_and_retrieving_on_same_key() {
    let mut storage = default_storage();
    let key = SubotaiHash::random();
    let entry = StorageEntry::Value(SubotaiHash::random());
    let another_entry = StorageEntry::Blob(Vec::<u8>::new());
    let expiration = NOW + 30 * MINUTE;
    match storage.store(&key, entry.clone(), expiration, NOW) {
        StoreResult::Success => (),
        _ => panic!(),
    }
    match storage.store(&key, another_entry.clone(), expiration, NOW) {
        StoreResult::Success => (),
        _ => panic!(),
    }

    let retrieved_entries = storage.retrieve(&key, NOW).unwrap();
    assert_eq!(retrieved_entries.len(), 2);
    assert_eq!(entry, retrieved_entries[0]);
    assert_eq!(another_entry, retrieved_entries[1]);
}

#[test]
fn mod2_storing_and_retrieving_on_same_key() {
    let mut storage = default_storage();
    let key = SubotaiHash::random();
    let entry = StorageEntry::Blob(vec![1, 2, 3]);
    assert_eq!(storage.store(&key, entry.clone(), NOW + 30 * MINUTE, NOW), StoreResult::Success);
    let retrieved_entries = storage.retrieve(&key, NOW).unwrap();
    assert_eq!(retrieved_entries, vec![entry]);
    assert!(storage.retrieve(&SubotaiHash::random(), NOW).is_none());
}

#[test]
fn retrieving_all_ready_entries_across_keys() {
    let mut storage = default_storage();
    let key_alpha = SubotaiHash::random();
    let key_beta = SubotaiHash::random();
    let expiration = NOW + 30 * MINUTE;

    storage.store(&key_alpha, StorageEntry::Value(SubotaiHash::random()), expiration, NOW);
    storage.store(&key_alpha, StorageEntry::Value(SubotaiHash::random()), expiration, NOW);
    storage.store(&key_beta, StorageEntry::Value(SubotaiHash::random()), expiration, NOW);

    // Not ready by default
    assert_eq!(storage.get_all_ready_entries(NOW).len(), 0);
    storage.mark_all_as_ready();
    let ready_entries = storage.get_all_ready_entries(NOW);
    assert_eq!(ready_entries.len(), 2);
    assert_eq!(storage.len(), 3);
}

#[test]
fn mod_storing_preexisting_entry_updates_to_max_expiration() {
    let mut storage = default_storage();
    let key = SubotaiHash::random();
    let entry = StorageEntry::Value(SubotaiHash::random());
    let expiration_soon = NOW + 30 * MINUTE;
    let expiration_later = NOW + 10 * HOUR;

    storage.store(&key, entry.clone(), expiration_soon, NOW);
    storage.store(&key, entry.clone(), expiration_later, NOW);

    // Little trick to get the expiration date through the API
    let expirations = ready_expiration(&mut storage, NOW);
    assert_eq!(expirations.len(), 1);
    assert_eq!(expiration_later, expirations[0]);
}

#[test]
fn mod2_storing_preexisting_entry_updates_to_max_expiration() {
    let mut storage = default_storage();
    let key = SubotaiHash::random();
    let entry = StorageEntry::Blob(vec![9; 10]);
    storage.store(&key, entry.clone(), NOW + 30 * MINUTE, NOW);
    storage.store(&key, entry.clone(), NOW + 10 * HOUR, NOW);
    assert_eq!(storage.len(), 1);
    assert_eq!(ready_expiration(&mut storage, NOW), vec![NOW + 10 * HOUR]);
}

#[test]
fn mod_storing_preexisting_entry_keeps_max_expiration() {
    let mut storage = default_storage();
    let key = SubotaiHash::random();
    let entry = StorageEntry::Value(SubotaiHash::random());
    let expiration_soon = NOW + 30 * MINUTE;
    let expiration_later = NOW + 10 * HOUR;

    // Different order!
    storage.store(&key, entry.clone(), expiration_later, NOW);
    storage.store(&key, entry.clone(), expiration_soon, NOW);

    let expirations = ready_expiration(&mut storage, NOW);
    assert_eq!(expirations.len(), 1);
    assert_eq!(expiration_later, expirations[0]);
}

#[test]
fn mod2_storing_preexisting_entry_keeps_max_expiration() {
    let mut storage = default_storage();
    let key = SubotaiHash::random();
    let entry = StorageEntry::Value(SubotaiHash::random());
    storage.store(&key, entry.clone(), NOW + 10 * HOUR, NOW);
    storage.store(&key, entry.clone(), NOW + 30 * MINUTE, NOW);
    assert_eq!(ready_expiration(&mut storage, NOW), vec![NOW + 10 * HOUR]);
}

#[test]
fn clearing_expired_entries_on_retrieval() {
    let mut storage = default_storage();
    let key_alpha = SubotaiHash::random();
    let entry_alpha = StorageEntry::Value(SubotaiHash::random());
    let expiration_alpha = NOW + 30 * MINUTE;
    let key_beta = SubotaiHash::random();
    let entry_beta = StorageEntry::Value(SubotaiHash::random());
    let expiration_beta = NOW - 30 * MINUTE; // Expired!

    storage.store(&key_alpha, entry_alpha, expiration_alpha, NOW);
    storage.store(&key_beta, entry_beta, expiration_beta, NOW);
    assert_eq!(storage.len(), 2);
    assert!(storage.retrieve(&key_beta, NOW).is_none());
    assert!(storage.retrieve(&key_alpha, NOW).is_some());
    assert_eq!(storage.len(), 1);
}

#[test]
fn clearing_expired_entries() {
    let mut storage = default_storage();
    let key_alpha = SubotaiHash::random();
    let key_beta = SubotaiHash::random();
    storage.store(&key_alpha, StorageEntry::Value(SubotaiHash::random()), NOW + 30 * MINUTE, NOW);
    storage.store(&key_beta, StorageEntry::Value(SubotaiHash::random()), NOW - 30 * MINUTE, NOW);
    assert_eq!(storage.len(), 2);

    storage.clear_expired_entries(NOW);
    assert_eq!(storage.len(), 1);

    assert!(storage.retrieve(&key_beta, NOW).is_none());
    assert!(storage.retrieve(&key_alpha, NOW).is_some());
}

#[test]
fn expiration_is_capped_at_the_base_lifetime() {
    let mut storage = default_storage();
    let key = SubotaiHash::random();
    storage.store(&key, StorageEntry::Value(SubotaiHash::random()), NOW + 100 * HOUR, NOW);
    assert_eq!(ready_expiration(&mut storage, NOW), vec![NOW + 24 * HOUR]);
}

#[test]
fn storing_twice_keeps_one_pair_with_capped_later_expiration() {
    let mut storage = default_storage();
    let key = SubotaiHash::random();
    let entry = StorageEntry::Value(SubotaiHash::random());
    storage.store(&key, entry.clone(), NOW + 2 * HOUR, NOW);
    storage.store(&key, entry.clone(), NOW + 48 * HOUR, NOW);
    assert_eq!(storage.len(), 1);
    assert_eq!(ready_expiration(&mut storage, NOW), vec![NOW + 24 * HOUR]);
}

#[test]
fn oversized_blob_is_refused() {
    let mut storage = default_storage();
    let key = SubotaiHash::random();
    let big = StorageEntry::Blob(vec![0u8; 1025]);
    assert_eq!(storage.store(&key, big, NOW + HOUR, NOW), StoreResult::BlobTooBig);
    let largest = StorageEntry::Blob(vec![0u8; 1024]);
    assert_eq!(storage.store(&key, largest, NOW + HOUR, NOW), StoreResult::Success);
    assert_eq!(storage.len(), 1);
}

#[test]
fn full_storage_refuses_new_entries_but_refreshes_old_ones() {
    let mut config: Configuration = Default::default();
    config.max_storage = 2;
    let mut storage = Storage::new(SubotaiHash::random(), config);
    let key = SubotaiHash::random();
    let first = StorageEntry::Value(SubotaiHash::random());
    assert_eq!(storage.store(&key, first.clone(), NOW + HOUR, NOW), StoreResult::Success);
    assert_eq!(storage.store(&key, StorageEntry::Value(SubotaiHash::random()), NOW + HOUR, NOW), StoreResult::Success);
    assert_eq!(
        storage.store(&SubotaiHash::random(), StorageEntry::Value(SubotaiHash::random()), NOW + HOUR, NOW),
        StoreResult::StorageFull
    );
    assert_eq!(storage.store(&key, first, NOW + 2 * HOUR, NOW), StoreResult::Success);
    assert_eq!(storage.len(), 2);
}

#[test]
fn store_then_retrieve_returns_the_value() {
    let mut storage = default_storage();
    let key = SubotaiHash::random();
    let entry = StorageEntry::Blob(vec![7, 7, 7]);
    assert_eq!(storage.store(&key, entry.clone(), NOW + HOUR, NOW), StoreResult::Success);
    let later = NOW + 30 * MINUTE;
    let values = storage.retrieve(&key, later).unwrap();
    assert!(values.contains(&entry));
    // Once expired, it is gone.
    assert!(storage.retrieve(&key, NOW + 2 * HOUR).is_none());
}

#[test]
fn republish_flags_clear_on_store() {
    let mut storage = default_storage();
    let key = SubotaiHash::random();
    let entry = StorageEntry::Value(SubotaiHash::random());
    storage.store(&key, entry.clone(), NOW + HOUR, NOW);
    storage.mark_all_as_ready();
    storage.store(&key, entry, NOW + HOUR, NOW);
    assert_eq!(storage.get_all_ready_entries(NOW).len(), 0);
}

#[test]
fn retrieving_all_entries_closest_to_a_given_id() {
    let default_config: Configuration = Default::default();
    let parent_id = SubotaiHash::blank();
    let mut storage = Storage::new(parent_id, default_config);

    // Key at distance 10 from us.
    let mut key = parent_id;
    key.flip_bit(10);
    // Key at distance 3 from us.
    let mut close_key = parent_id;
    close_key.flip_bit(3);
    // Node that is at a distance 2 of the first key, therefore closer to it than us.
    let mut other_node_id = key;
    other_node_id.flip_bit(2);

    let expiration = NOW + 30 * MINUTE;
    storage.store(&key, StorageEntry::Value(SubotaiHash::random()), expiration, NOW);
    storage.store(&close_key, StorageEntry::Value(SubotaiHash::random()), expiration, NOW);

    let entries = storage.get_entries_closer_to(&other_node_id);

    assert_eq!(entries.len(), 1);
    assert_eq!(entries[0].1.len(), 1);
    assert_eq!(&entries[0].0, &key);
}
