use stable_storage::memory::MemoryRegistry;
use stable_storage::multimap::StableMultimap;

fn make_map() -> StableMultimap<2, 3, 6> {
    let mut registry = MemoryRegistry::new();
    let region = registry.claim(0).unwrap();
    let mut mm = StableMultimap::new(region).unwrap();
    let k1 = [1u8, 2];
    let k2 = [11u8, 12, 13];
    let val = [200u8, 200, 200, 100, 100, 123];
    mm.insert(&k1, &k2, &val);

    let k1 = [10u8, 20];
    let k2 = [21u8, 22, 23];
    let val = [123, 200u8, 200, 100, 100, 255];
    mm.insert(&k1, &k2, &val);

    mm
}

fn empty_map() -> StableMultimap<2, 3, 6> {
    let mut registry = MemoryRegistry::new();
    StableMultimap::new(registry.claim(0).unwrap()).unwrap()
}

#[test]
fn inserts() {
    let mut registry = MemoryRegistry::new();
    let mut mm = StableMultimap::<1, 2, 1>::new(registry.claim(0).unwrap()).unwrap();
    for i in 0..10 {
        let k1 = [i; 1];
        let k2 = [i * 10; 2];
        let val = [i; 1];
        mm.insert(&k1, &k2, &val);
    }

    assert_eq!(mm.len(), 10);
}

#[test]
fn insert_should_replace_old_value() {
    let mut mm = make_map();

    let k1 = [1u8, 2];
    let k2 = [11u8, 12, 13];
    let val = [255u8, 255, 255, 255, 255, 255];

    let prev_val = [200u8, 200, 200, 100, 100, 123];
    let replaced_val = mm.insert(&k1, &k2, &val).unwrap();

    assert_eq!(prev_val.to_vec(), replaced_val);
    assert_eq!(mm.get(&k1, &k2), Some(val.to_vec()));
}

#[test]
fn get() {
    let mm = make_map();
    let k1 = [1u8, 2];
    let k2 = [11u8, 12, 13];
    let val = mm.get(&k1, &k2).unwrap();

    let expected = [200u8, 200, 200, 100, 100, 123];
    assert_eq!(val, expected.to_vec());
}

#[test]
fn remove() {
    let mut mm = make_map();
    let k1 = [1u8, 2];
    let k2 = [11u8, 12, 13];
    let val = mm.remove(&k1, &k2).unwrap();

    let expected = [200u8, 200, 200, 100, 100, 123];
    assert_eq!(val, expected.to_vec());
    assert_eq!(mm.len(), 1);

    let k1 = [10u8, 20];
    let k2 = [21u8, 22, 23];
    mm.remove(&k1, &k2).unwrap();
    assert!(mm.is_empty());
}

#[test]
fn remove_partial() {
    let mut mm = empty_map();
    let k1 = [1u8, 2];
    let k2 = [11u8, 12, 13];
    let val = [200u8, 200, 200, 100, 100, 123];
    mm.insert(&k1, &k2, &val);

    let k2 = [21u8, 22, 23];
    let val = [123, 200u8, 200, 100, 100, 255];
    mm.insert(&k1, &k2, &val);

    mm.remove_partial(&k1);
    assert!(mm.is_empty());
}

#[test]
fn clear() {
    let mut mm = empty_map();
    let k1 = [1u8, 2];
    let k2 = [11u8, 12, 13];
    let val = [200u8, 200, 200, 100, 100, 123];
    mm.insert(&k1, &k2, &val);

    let k2 = [21u8, 22, 23];
    let val = [123, 200u8, 200, 100, 100, 255];
    mm.insert(&k1, &k2, &val);
    let k1 = [21u8, 22];
    mm.insert(&k1, &k2, &val);

    mm.clear();
    assert!(mm.is_empty());
}

#[test]
fn iter() {
    let mm = make_map();
    let mut iter = mm.iter();
    assert!(iter.next().is_some());
    assert!(iter.next().is_some());
    assert!(iter.next().is_none());
}

#[test]
fn range_iter() {
    let k1 = [1u8, 2];
    let mm = make_map();
    let mut iter = mm.range(&k1);
    assert!(iter.next().is_some());
    assert!(iter.next().is_none());
}

#[test]
fn two_pairs_then_remove_partial() {
    let v1 = [200u8, 200, 200, 100, 100, 123];
    let v2 = [123, 200u8, 200, 100, 100, 255];
    let mut mm = make_map();
    assert_eq!(mm.len(), 2);
    assert_eq!(mm.get(&[1, 2], &[11, 12, 13]), Some(v1.to_vec()));

    mm.remove_partial(&[1, 2]);
    assert_eq!(mm.len(), 1);
    assert_eq!(mm.get(&[1, 2], &[11, 12, 13]), None);
    assert_eq!(mm.get(&[10, 20], &[21, 22, 23]), Some(v2.to_vec()));
}

#[test]
fn insert_returns_what_get_gave_before() {
    let mut mm = empty_map();
    let before = mm.get(&[1], &[2]);
    assert_eq!(mm.insert(&[1], &[2], &[3]), before);
    assert_eq!(mm.get(&[1], &[2]), Some(vec![3u8]));
    let before = mm.get(&[1], &[2]);
    assert_eq!(mm.insert(&[1], &[2], &[4, 5]), before);
    assert_eq!(mm.get(&[1], &[2]), Some(vec![4u8, 5]));
    assert_eq!(mm.len(), 1);
}

#[test]
fn remove_of_absent_pair_changes_nothing() {
    let mut mm = make_map();
    assert_eq!(mm.remove(&[1, 2], &[11, 12]), None);
    assert_eq!(mm.remove(&[1], &[11, 12, 13]), None);
    assert_eq!(mm.len(), 2);
    assert_eq!(mm.get(&[1, 2], &[11, 12, 13]), Some(vec![200u8, 200, 200, 100, 100, 123]));
}

#[test]
fn remove_partial_keeps_first_keys_that_share_bytes() {
    let mut mm = StableMultimap::<3, 3, 1>::new(MemoryRegistry::new().claim(7).unwrap()).unwrap();
    mm.insert(&[1, 2, 3], &[4, 5], &[1]);
    mm.insert(&[1, 2], &[3, 4, 5], &[2]);
    mm.insert(&[1, 2], &[], &[3]);
    mm.insert(&[1], &[2, 3, 4], &[4]);
    mm.insert(&[], &[1, 2, 3], &[5]);
    mm.insert(&[1, 2, 0xFF], &[0xFF], &[6]);
    mm.insert(&[2, 1], &[2], &[7]);
    assert_eq!(mm.len(), 7);

    mm.remove_partial(&[1, 2]);
    assert_eq!(mm.len(), 5);
    assert_eq!(mm.get(&[1, 2], &[3, 4, 5]), None);
    assert_eq!(mm.get(&[1, 2], &[]), None);
    assert_eq!(mm.get(&[1, 2, 3], &[4, 5]), Some(vec![1u8]));
    assert_eq!(mm.get(&[1], &[2, 3, 4]), Some(vec![4u8]));
    assert_eq!(mm.get(&[], &[1, 2, 3]), Some(vec![5u8]));
    assert_eq!(mm.get(&[1, 2, 0xFF], &[0xFF]), Some(vec![6u8]));
    assert_eq!(mm.get(&[2, 1], &[2]), Some(vec![7u8]));

    mm.remove_partial(&[9]);
    assert_eq!(mm.len(), 5);
}

#[test]
fn range_gives_second_keys_in_ascending_order() {
    let mut mm = empty_map();
    mm.insert(&[1, 2], &[9], &[1]);
    mm.insert(&[1, 2], &[0xFF, 0xFF, 0xFF], &[2]);
    mm.insert(&[1, 2], &[], &[3]);
    mm.insert(&[1, 2], &[9, 0], &[4]);
    mm.insert(&[1, 2], &[3, 200], &[5]);
    mm.insert(&[1], &[2, 9], &[6]);
    mm.insert(&[1, 3], &[0], &[7]);

    let mut iter = mm.range(&[1, 2]);
    let mut found = Vec::new();
    while let Some(item) = iter.next() {
        found.push(item);
    }
    assert_eq!(
        found,
        vec![
            (vec![], vec![3u8]),
            (vec![3u8, 200], vec![5u8]),
            (vec![9u8], vec![1u8]),
            (vec![9u8, 0], vec![4u8]),
            (vec![0xFFu8, 0xFF, 0xFF], vec![2u8]),
        ]
    );
    assert!(iter.next().is_none());

    let mut none = mm.range(&[7]);
    assert!(none.next().is_none());
}

#[test]
fn iter_gives_every_pair_once() {
    let mut mm = empty_map();
    mm.insert(&[2], &[1], &[10]);
    mm.insert(&[1, 2], &[3], &[20]);
    mm.insert(&[1], &[2, 3], &[30]);
    mm.insert(&[], &[], &[40]);

    let mut iter = mm.iter();
    let mut found = Vec::new();
    while let Some(item) = iter.next() {
        found.push(item);
    }
    // ascending packed keys: the size prefix comes first
    assert_eq!(
        found,
        vec![
            (vec![], vec![], vec![40u8]),
            (vec![1u8], vec![2u8, 3], vec![30u8]),
            (vec![2u8], vec![1u8], vec![10u8]),
            (vec![1u8, 2], vec![3u8], vec![20u8]),
        ]
    );
    assert_eq!(found.len() as u64, mm.len());
}

#[test]
fn keys_and_values_of_exactly_the_largest_length_are_stored() {
    let mut mm = empty_map();
    assert_eq!(mm.insert(&[1, 2], &[3, 4, 5], &[1, 2, 3, 4, 5, 6]), None);
    assert_eq!(mm.get(&[1, 2], &[3, 4, 5]), Some(vec![1u8, 2, 3, 4, 5, 6]));
    assert_eq!(mm.insert(&[], &[], &[]), None);
    assert_eq!(mm.get(&[], &[]), Some(vec![]));
    assert_eq!(mm.len(), 2);
}

#[test]
fn other_limits_refuse_what_a_multimap_wrote() {
    let mm = make_map();
    let map = mm.into_inner();
    assert!(StableMultimap::<1, 1, 1>::adopt(map).is_err());

    let mm = make_map();
    let again = StableMultimap::<2, 3, 6>::adopt(mm.into_inner()).unwrap();
    assert_eq!(again.len(), 2);
    assert_eq!(again.get(&[10, 20], &[21, 22, 23]), Some(vec![123, 200u8, 200, 100, 100, 255]));

    // values too long for the new limit
    let mm = make_map();
    assert!(StableMultimap::<2, 3, 5>::adopt(mm.into_inner()).is_err());
    // a wider size prefix reads other lengths
    let mm = make_map();
    assert!(StableMultimap::<300, 3, 6>::adopt(mm.into_inner()).is_err());
}

#[test]
fn range_counts_add_up_to_len() {
    let mut mm = empty_map();
    let firsts: [&[u8]; 4] = [&[], &[1], &[1, 2], &[2, 1]];
    let mut expected = 0u64;
    for (i, first) in firsts.iter().enumerate() {
        for j in 0..=(i as u8) {
            mm.insert(first, &[j, i as u8], &[j]);
            expected += 1;
        }
    }
    let mut total = 0u64;
    for (i, first) in firsts.iter().enumerate() {
        let mut scan = mm.range(first);
        let mut count = 0u64;
        while let Some((second, value)) = scan.next() {
            assert_eq!(mm.get(first, &second), Some(value));
            count += 1;
        }
        assert_eq!(count, i as u64 + 1);
        total += count;
    }
    assert_eq!(total, expected);
    assert_eq!(total, mm.len());
}
