use ic_stable_structures::cell::{InitError, ValueError};
use ic_stable_structures::log::WriteError;
use stable_storage::balances::BalanceError;
use stable_storage::error::Error;
use stable_storage::memory::MemoryRegistry;
use stable_storage::structures::{StableBTreeMap, StableCell, StableLog, StableMultimap};

#[test]
fn registry_hands_each_region_out_once() {
    let mut registry = MemoryRegistry::new();
    let region = registry.claim(3).unwrap();
    assert_eq!(region.memory_id(), 3);
    assert_eq!(registry.claim(3).err(), Some(Error::RegionUnavailable(3)));
    assert!(registry.claim(4).is_ok());
    assert!(registry.claim(254).is_ok());
    assert_eq!(registry.claim(255).err(), Some(Error::RegionUnavailable(255)));
    assert!(registry.claim(0).is_ok());
    assert_eq!(registry.claim(0).err(), Some(Error::RegionUnavailable(0)));
}

#[test]
fn regions_do_not_share_data() {
    let mut registry = MemoryRegistry::new();
    let mut a = StableBTreeMap::<4, 4>::new(registry.claim(0).unwrap());
    let mut b = StableBTreeMap::<4, 4>::new(registry.claim(1).unwrap());
    a.insert(&[1], &[10]).unwrap();
    b.insert(&[1], &[20]).unwrap();
    b.insert(&[2], &[30]).unwrap();
    assert_eq!(a.get(&[1]), Some(vec![10u8]));
    assert_eq!(a.get(&[2]), None);
    assert_eq!(b.get(&[1]), Some(vec![20u8]));
}

#[test]
fn cell_holds_its_last_value() {
    let mut registry = MemoryRegistry::new();
    let mut cell = StableCell::new(registry.claim(0).unwrap(), &[1, 2, 3]).unwrap();
    assert_eq!(cell.get(), &vec![1u8, 2, 3]);
    cell.set(&[4, 5]).unwrap();
    assert_eq!(cell.get(), &vec![4u8, 5]);
    cell.set(&[]).unwrap();
    assert_eq!(cell.get(), &Vec::<u8>::new());
    let long = vec![7u8; 200_000];
    cell.set(&long).unwrap();
    assert_eq!(cell.get(), &long);
}

#[test]
fn cell_failures_are_told_apart() {
    assert_eq!(
        StableCell::map_init_error(InitError::IncompatibleVersion {
            last_supported_version: 1,
            decoded_version: 2
        }),
        Error::IncompatibleVersions
    );
    assert_eq!(
        StableCell::map_init_error(InitError::ValueTooLarge { value_size: 10 }),
        Error::OutOfStableMemory
    );
    assert_eq!(
        StableCell::map_init_error(InitError::ValueTooLarge { value_size: u32::MAX as u64 }),
        Error::OutOfStableMemory
    );
    assert_eq!(
        StableCell::map_init_error(InitError::ValueTooLarge { value_size: u32::MAX as u64 + 1 }),
        Error::ValueTooLarge(u32::MAX as u64 + 1)
    );
    assert_eq!(
        StableCell::map_value_error(ValueError::ValueTooLarge { value_size: 3 }),
        Error::OutOfStableMemory
    );
    assert_eq!(
        StableCell::map_value_error(ValueError::ValueTooLarge { value_size: 1 << 40 }),
        Error::ValueTooLarge(1 << 40)
    );
}

#[test]
fn log_appends_return_positions_in_turn() {
    let mut registry = MemoryRegistry::new();
    let index = registry.claim(0).unwrap();
    let data = registry.claim(1).unwrap();
    let mut log = StableLog::new(index, data).unwrap();
    assert!(log.is_empty());
    assert_eq!(log.len(), 0);
    assert_eq!(log.get(0), None);

    let n: u64 = 20;
    for i in 0..n {
        let value = vec![i as u8; i as usize];
        assert_eq!(log.append(&value), Ok(i));
        assert_eq!(log.len(), i + 1);
    }
    assert!(!log.is_empty());
    for i in 0..n {
        assert_eq!(log.get(i), Some(vec![i as u8; i as usize]));
    }
    assert_eq!(log.get(n), None);
    assert_eq!(log.get(u64::MAX), None);
}

#[test]
fn log_write_failure_is_out_of_memory() {
    assert_eq!(
        StableLog::map_write_error(WriteError::GrowFailed { current_size: 1, delta: 2 }),
        Error::OutOfStableMemory
    );
}

#[test]
fn btreemap_is_bound_to_its_region() {
    let mut registry = MemoryRegistry::new();
    let a = StableBTreeMap::<2, 3>::new(registry.claim(7).unwrap());
    let b = StableBTreeMap::<2, 3>::new(registry.claim(0).unwrap());
    assert_eq!(a.memory_id(), 7);
    assert_eq!(b.memory_id(), 0);
}

#[test]
fn btreemap_stores_within_limits() {
    let mut registry = MemoryRegistry::new();
    let mut map = StableBTreeMap::<2, 3>::new(registry.claim(0).unwrap());
    assert_eq!(map.get(&[1]), None);
    assert_eq!(map.insert(&[1], &[1, 2, 3]), Ok(()));
    assert_eq!(map.insert(&[1, 2], &[]), Ok(()));
    assert_eq!(map.insert(&[], &[9]), Ok(()));
    assert_eq!(map.get(&[1]), Some(vec![1u8, 2, 3]));
    assert_eq!(map.insert(&[1], &[4]), Ok(()));
    assert_eq!(map.get(&[1]), Some(vec![4u8]));

    assert_eq!(map.insert(&[1, 2, 3], &[1]), Err(Error::ValueTooLarge(3)));
    assert_eq!(map.insert(&[1], &[1, 2, 3, 4]), Err(Error::ValueTooLarge(4)));
    assert_eq!(map.insert(&[1, 2, 3], &[1, 2, 3, 4, 5]), Err(Error::ValueTooLarge(3)));
    assert_eq!(map.get(&[1, 2, 3]), None);
    assert_eq!(map.get(&[1]), Some(vec![4u8]));

    let mut iter = map.iter();
    assert_eq!(iter.next(), Some((vec![], vec![9u8])));
    assert_eq!(iter.next(), Some((vec![1u8], vec![4u8])));
    assert_eq!(iter.next(), Some((vec![1u8, 2], vec![])));
    assert_eq!(iter.next(), None);
    assert_eq!(iter.next(), None);

    assert_eq!(map.remove(&[1]), Some(vec![4u8]));
    assert_eq!(map.remove(&[1]), None);
    assert_eq!(map.get(&[1]), None);
    assert_eq!(map.get(&[1, 2]), Some(vec![]));
}

#[test]
fn bound_multimap_refuses_what_is_too_long() {
    let mut registry = MemoryRegistry::new();
    let mut mm = StableMultimap::<2, 3, 6>::new(registry.claim(0).unwrap()).unwrap();
    assert!(mm.is_empty());

    // exactly the largest lengths
    assert_eq!(mm.insert(&[1, 2], &[11, 12, 13], &[1, 2, 3, 4, 5, 6]), Ok(()));
    // one byte more, each in turn
    assert_eq!(mm.insert(&[1, 2, 3], &[1], &[1]), Err(Error::ValueTooLarge(3)));
    assert_eq!(mm.insert(&[1], &[1, 2, 3, 4], &[1]), Err(Error::ValueTooLarge(4)));
    assert_eq!(mm.insert(&[1], &[1], &[1, 2, 3, 4, 5, 6, 7]), Err(Error::ValueTooLarge(7)));
    // the first that is too long is named
    assert_eq!(
        mm.insert(&[1, 2, 3, 4, 5], &[1, 2, 3, 4], &[0; 9]),
        Err(Error::ValueTooLarge(5))
    );
    assert_eq!(mm.len(), 1);
    assert_eq!(mm.get(&[1, 2], &[11, 12, 13]), Some(vec![1u8, 2, 3, 4, 5, 6]));
    assert_eq!(mm.get(&[1, 2, 3], &[1]), None);
    assert_eq!(mm.get(&[1], &[1, 2, 3, 4]), None);

    assert_eq!(mm.remove(&[1, 2, 3], &[1]), Err(Error::ValueTooLarge(3)));
    assert_eq!(mm.remove(&[1], &[1, 2, 3, 4]), Err(Error::ValueTooLarge(4)));
    assert_eq!(mm.remove(&[1], &[1]), Ok(None));
    assert_eq!(mm.remove_partial(&[1, 2, 3]), Err(Error::ValueTooLarge(3)));
    assert!(mm.range(&[1, 2, 3]).is_err());
    assert_eq!(mm.len(), 1);

    assert_eq!(mm.insert(&[1, 2], &[1], &[7]), Ok(()));
    assert_eq!(mm.insert(&[3], &[1], &[8]), Ok(()));
    let mut scan = mm.range(&[1, 2]).unwrap();
    assert_eq!(scan.next(), Some((vec![1u8], vec![7u8])));
    assert_eq!(scan.next(), Some((vec![11u8, 12, 13], vec![1u8, 2, 3, 4, 5, 6])));
    assert_eq!(scan.next(), None);

    let mut all = mm.iter();
    assert_eq!(all.next(), Some((vec![3u8], vec![1u8], vec![8u8])));
    assert!(all.next().is_some());
    assert!(all.next().is_some());
    assert!(all.next().is_none());

    assert_eq!(mm.remove(&[1, 2], &[1]), Ok(Some(vec![7u8])));
    assert_eq!(mm.remove_partial(&[1, 2]), Ok(()));
    assert_eq!(mm.len(), 1);
    assert!(!mm.is_empty());
}

#[test]
fn limits_beyond_the_key_length_field_are_refused() {
    let mut registry = MemoryRegistry::new();
    let made = StableMultimap::<{ u32::MAX }, 1, 1>::new(registry.claim(0).unwrap());
    assert_eq!(made.err(), Some(Error::ValueTooLarge(u32::MAX as u64 + 5)));
    let made = StableMultimap::<{ u32::MAX - 4 }, 0, 1>::new(registry.claim(1).unwrap());
    assert!(made.is_ok());
}

#[test]
fn every_error_has_a_message() {
    let errors = [
        Error::OutOfStableMemory,
        Error::ValueTooLarge(9),
        Error::IncompatibleVersions,
        Error::MalformedData,
        Error::RegionUnavailable(1),
    ];
    for (i, a) in errors.iter().enumerate() {
        assert!(!a.message().is_empty());
        for b in errors.iter().skip(i + 1) {
            assert_ne!(a.message(), b.message());
        }
    }
}

#[test]
fn balance_error_messages() {
    assert_eq!(
        BalanceError::InsufficientFunds.message(),
        "user balance is less then the requested debit amount"
    );
    assert_eq!(BalanceError::Fatal(format!("disk")).message(), "unrecoverable error");
    assert_ne!(BalanceError::InsufficientFunds, BalanceError::Fatal(format!("x")));
}
