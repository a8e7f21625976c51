use stable_storage::error::Error;
use stable_storage::memory::MemoryRegistry;
use stable_storage::multimap::StableMultimap;
use stable_storage::unbounded::{slot_bytes, StableUnboundedMap};

fn new_map() -> StableUnboundedMap<4, 8> {
    let mut registry = MemoryRegistry::new();
    StableUnboundedMap::new(registry.claim(0).unwrap()).unwrap()
}

fn sample(len: usize) -> Vec<u8> {
    (0..len).map(|i| (i * 7 + 3) as u8).collect()
}

#[test]
fn slots_are_four_bytes_lowest_first() {
    assert_eq!(slot_bytes(0), vec![0u8, 0, 0, 0]);
    assert_eq!(slot_bytes(1), vec![1u8, 0, 0, 0]);
    assert_eq!(slot_bytes(0x01020304), vec![4u8, 3, 2, 1]);
    assert_eq!(slot_bytes(u32::MAX), vec![0xFFu8; 4]);
}

#[test]
fn values_of_every_length_come_back_whole() {
    let mut map = new_map();
    let lengths = [0usize, 1, 7, 8, 9, 15, 16, 17, 64, 83, 1000];
    for (i, len) in lengths.iter().enumerate() {
        let key = [i as u8];
        assert_eq!(map.insert(&key, &sample(*len)), Ok(()));
    }
    assert_eq!(map.len(), lengths.len() as u64);
    for (i, len) in lengths.iter().enumerate() {
        let key = [i as u8];
        assert_eq!(map.get(&key), Some(sample(*len)));
    }
    assert_eq!(map.get(&[200]), None);
}

#[test]
fn a_value_is_cut_into_records_of_the_record_size() {
    let mut map = new_map();
    map.insert(&[1, 2], &sample(17)).unwrap();
    let records = map.into_inner();
    // a directory and three slices
    assert_eq!(records.len(), 4);
    assert_eq!(records.get(&[1, 2], &slot_bytes(0)), Some(vec![3u8, 0, 0, 0]));
    assert_eq!(records.get(&[1, 2], &slot_bytes(1)), Some(sample(17)[0..8].to_vec()));
    assert_eq!(records.get(&[1, 2], &slot_bytes(2)), Some(sample(17)[8..16].to_vec()));
    assert_eq!(records.get(&[1, 2], &slot_bytes(3)), Some(sample(17)[16..17].to_vec()));
    assert_eq!(records.get(&[1, 2], &slot_bytes(4)), None);
}

#[test]
fn a_new_value_leaves_nothing_of_the_old_one() {
    let mut map = new_map();
    map.insert(&[1], &sample(100)).unwrap();
    map.insert(&[2], &sample(20)).unwrap();
    map.insert(&[1], &[9, 9]).unwrap();
    assert_eq!(map.len(), 2);
    assert_eq!(map.get(&[1]), Some(vec![9u8, 9]));
    assert_eq!(map.get(&[2]), Some(sample(20)));
    let records = map.into_inner();
    // key 1: directory and one slice; key 2: directory and three slices
    assert_eq!(records.len(), 2 + 4);
}

#[test]
fn an_empty_value_is_a_value() {
    let mut map = new_map();
    map.insert(&[], &[]).unwrap();
    assert_eq!(map.get(&[]), Some(vec![]));
    assert_eq!(map.len(), 1);
    assert!(!map.is_empty());
    assert_eq!(map.remove(&[]), Some(vec![]));
    assert_eq!(map.get(&[]), None);
    assert!(map.is_empty());
}

#[test]
fn remove_gives_the_value_back() {
    let mut map = new_map();
    map.insert(&[1], &sample(30)).unwrap();
    map.insert(&[1, 1], &sample(5)).unwrap();
    assert_eq!(map.remove(&[1]), Some(sample(30)));
    assert_eq!(map.remove(&[1]), None);
    assert_eq!(map.remove(&[7]), None);
    assert_eq!(map.len(), 1);
    assert_eq!(map.get(&[1, 1]), Some(sample(5)));
    assert_eq!(map.into_inner().len(), 2);
}

#[test]
fn keys_over_the_limit_are_refused() {
    let mut map = new_map();
    assert_eq!(map.insert(&[1, 2, 3, 4], &[1]), Ok(()));
    assert_eq!(map.insert(&[1, 2, 3, 4, 5], &[1]), Err(Error::ValueTooLarge(5)));
    assert_eq!(map.get(&[1, 2, 3, 4, 5]), None);
    assert_eq!(map.remove(&[1, 2, 3, 4, 5]), None);
    assert_eq!(map.len(), 1);
}

#[test]
fn iter_gives_every_key_once_with_its_value() {
    let mut map = new_map();
    map.insert(&[3], &sample(20)).unwrap();
    map.insert(&[1, 2], &sample(0)).unwrap();
    map.insert(&[1], &sample(9)).unwrap();
    map.insert(&[], &sample(8)).unwrap();
    let mut iter = map.iter();
    let mut found = Vec::new();
    while let Some(item) = iter.next() {
        found.push(item);
    }
    assert!(iter.next().is_none());
    assert_eq!(found.len() as u64, map.len());
    found.sort();
    assert_eq!(
        found,
        vec![
            (vec![], sample(8)),
            (vec![1u8], sample(9)),
            (vec![1u8, 2], sample(0)),
            (vec![3u8], sample(20)),
        ]
    );
}

#[test]
fn records_too_small_for_a_directory_are_refused() {
    let mut registry = MemoryRegistry::new();
    let made = StableUnboundedMap::<4, 3>::new(registry.claim(0).unwrap());
    assert_eq!(made.err(), Some(Error::ValueTooLarge(4)));
    let made = StableUnboundedMap::<4, 4>::new(registry.claim(1).unwrap());
    assert!(made.is_ok());
    let made = StableUnboundedMap::<{ u32::MAX }, 8>::new(registry.claim(2).unwrap());
    assert_eq!(made.err(), Some(Error::ValueTooLarge(u32::MAX as u64 + 8)));
}

#[test]
fn records_are_taken_up_again_if_they_are_complete() {
    let mut map = new_map();
    map.insert(&[1], &sample(20)).unwrap();
    map.insert(&[2], &sample(3)).unwrap();
    let again = StableUnboundedMap::<4, 8>::adopt(map.into_inner()).unwrap();
    assert_eq!(again.len(), 2);
    assert_eq!(again.get(&[1]), Some(sample(20)));
    assert_eq!(again.get(&[2]), Some(sample(3)));

    // a directory that announces a slice that is not there
    let mut registry = MemoryRegistry::new();
    let mut records = StableMultimap::<4, 4, 8>::new(registry.claim(0).unwrap()).unwrap();
    records.insert(&[1], &slot_bytes(0), &[2, 0, 0, 0]);
    records.insert(&[1], &slot_bytes(1), &[5]);
    assert_eq!(StableUnboundedMap::<4, 8>::adopt(records).err(), Some(Error::MalformedData));

    // a directory that is not four bytes
    let mut records = StableMultimap::<4, 4, 8>::new(registry.claim(1).unwrap()).unwrap();
    records.insert(&[1], &slot_bytes(0), &[0, 0, 0]);
    assert_eq!(StableUnboundedMap::<4, 8>::adopt(records).err(), Some(Error::MalformedData));

    // slices without a directory are no key
    let mut records = StableMultimap::<4, 4, 8>::new(registry.claim(2).unwrap()).unwrap();
    records.insert(&[1], &slot_bytes(1), &[5]);
    records.insert(&[2], &slot_bytes(0), &[1, 0, 0, 0]);
    records.insert(&[2], &slot_bytes(1), &[6, 7]);
    let map = StableUnboundedMap::<4, 8>::adopt(records).unwrap();
    assert_eq!(map.len(), 1);
    assert_eq!(map.get(&[1]), None);
    assert_eq!(map.get(&[2]), Some(vec![6u8, 7]));
}
