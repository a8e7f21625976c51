use stable_storage::key_pair::KeyPair;
use stable_storage::order::{bytes_equal, bytes_precede};
use stable_storage::value::Value;

#[test]
fn size_prefix_len_follows_the_first_key_limit() {
    assert_eq!(KeyPair::<0, 0>::size_prefix_len(), 1);
    assert_eq!(KeyPair::<255, 1>::size_prefix_len(), 1);
    assert_eq!(KeyPair::<256, 1>::size_prefix_len(), 2);
    assert_eq!(KeyPair::<65535, 1>::size_prefix_len(), 2);
    assert_eq!(KeyPair::<65536, 1>::size_prefix_len(), 4);
    assert_eq!(KeyPair::<{ u32::MAX }, 0>::size_prefix_len(), 4);
}

#[test]
fn max_size_is_prefix_and_both_limits() {
    assert_eq!(KeyPair::<2, 3>::max_size(), 6);
    assert_eq!(KeyPair::<300, 3>::max_size(), 305);
    assert_eq!(KeyPair::<70000, 10>::max_size(), 70014);
}

#[test]
fn size_prefix_tells_colliding_pairs_apart() {
    let a = KeyPair::<3, 3>::new(&[1, 2, 3], &[4, 5]);
    let b = KeyPair::<3, 3>::new(&[1, 2], &[3, 4, 5]);
    assert_eq!(a.to_bytes(), &vec![3u8, 1, 2, 3, 4, 5]);
    assert_eq!(b.to_bytes(), &vec![2u8, 1, 2, 3, 4, 5]);
    assert!(a != b);
    assert_eq!(a.first_key(), vec![1u8, 2, 3]);
    assert_eq!(a.second_key(), vec![4u8, 5]);
    assert_eq!(b.first_key(), vec![1u8, 2]);
    assert_eq!(b.second_key(), vec![3u8, 4, 5]);
}

#[test]
fn size_prefix_is_little_endian() {
    let mut buf = vec![9u8];
    KeyPair::<300, 1>::push_size_prefix(&mut buf, 258);
    assert_eq!(buf, vec![9u8, 2, 1]);

    let mut buf = Vec::new();
    KeyPair::<70000, 1>::push_size_prefix(&mut buf, 0x01020304);
    assert_eq!(buf, vec![4u8, 3, 2, 1]);

    let mut buf = Vec::new();
    KeyPair::<255, 1>::push_size_prefix(&mut buf, 200);
    assert_eq!(buf, vec![200u8]);
}

#[test]
fn read_first_key_len_reads_what_was_pushed() {
    assert_eq!(KeyPair::<255, 1>::read_first_key_len(&[7, 1, 1]), 7);
    assert_eq!(KeyPair::<300, 1>::read_first_key_len(&[2, 1, 0xFF]), 258);
    assert_eq!(KeyPair::<70000, 1>::read_first_key_len(&[4, 3, 2, 1]), 0x01020304);
}

#[test]
fn long_first_key_gets_a_two_byte_prefix() {
    let first = vec![7u8; 258];
    let pair = KeyPair::<300, 2>::new(&first, &[1, 2]);
    let bytes = pair.to_bytes();
    assert_eq!(bytes.len(), 2 + 258 + 2);
    assert_eq!(&bytes[..2], &[2u8, 1]);
    assert_eq!(pair.first_key(), first);
    assert_eq!(pair.second_key(), vec![1u8, 2]);
}

#[test]
fn min_key_is_the_prefix_alone() {
    let min = KeyPair::<2, 3>::min_key(&[1, 2]);
    assert_eq!(min.to_bytes(), &vec![2u8, 1, 2]);
    assert_eq!(min.first_key(), vec![1u8, 2]);
    assert_eq!(min.second_key(), Vec::<u8>::new());
    assert!(min.holds_pair());
}

#[test]
fn max_key_is_filled_up_to_the_largest_length() {
    let max = KeyPair::<2, 3>::max_key(&[1, 2]);
    assert_eq!(max.to_bytes(), &vec![2u8, 1, 2, 0xFF, 0xFF, 0xFF]);

    let max = KeyPair::<2, 3>::max_key(&[1]);
    assert_eq!(max.to_bytes(), &vec![1u8, 1, 0xFF, 0xFF, 0xFF, 0xFF]);
    assert_eq!(max.first_key(), vec![1u8]);
    assert!(!max.holds_pair());

    let max = KeyPair::<2, 3>::max_key(&[]);
    assert_eq!(max.to_bytes(), &vec![0u8, 0xFF, 0xFF, 0xFF, 0xFF, 0xFF]);
}

#[test]
fn scan_bounds_enclose_the_pairs_of_one_first_key() {
    let min = KeyPair::<2, 3>::min_key(&[1, 2]);
    let max = KeyPair::<2, 3>::max_key(&[1, 2]);
    let inside = [
        KeyPair::<2, 3>::new(&[1, 2], &[]),
        KeyPair::<2, 3>::new(&[1, 2], &[0]),
        KeyPair::<2, 3>::new(&[1, 2], &[0xFF, 0xFF, 0xFF]),
    ];
    for pair in inside.iter() {
        assert!(!pair.precedes(&min));
        assert!(!max.precedes(pair));
    }
    let outside = [
        KeyPair::<2, 3>::new(&[1], &[2, 0, 0]),
        KeyPair::<2, 3>::new(&[1, 3], &[]),
        KeyPair::<2, 3>::new(&[1, 1], &[0xFF, 0xFF, 0xFF]),
        KeyPair::<2, 3>::new(&[], &[1, 2]),
    ];
    for pair in outside.iter() {
        assert!(pair.precedes(&min) || max.precedes(pair));
    }
}

#[test]
fn pairs_of_one_first_key_are_ordered_by_second_key() {
    let a = KeyPair::<2, 3>::new(&[1, 2], &[1, 9, 9]);
    let b = KeyPair::<2, 3>::new(&[1, 2], &[2]);
    let c = KeyPair::<2, 3>::new(&[1, 2], &[2, 0]);
    assert!(a.precedes(&b));
    assert!(b.precedes(&c));
    assert!(a.precedes(&c));
    assert!(!b.precedes(&a));
    assert!(!a.precedes(&a));
}

#[test]
fn from_bytes_takes_keys_and_refuses_the_rest() {
    let pair = KeyPair::<2, 3>::from_bytes(vec![2, 1, 2, 11, 12, 13]).unwrap();
    assert_eq!(pair.first_key(), vec![1u8, 2]);
    assert_eq!(pair.second_key(), vec![11u8, 12, 13]);
    assert!(pair.holds_pair());
    assert!(pair == KeyPair::<2, 3>::new(&[1, 2], &[11, 12, 13]));

    // no size prefix
    assert!(KeyPair::<2, 3>::from_bytes(vec![]).is_none());
    // the prefix announces more than a first key may have
    assert!(KeyPair::<2, 3>::from_bytes(vec![3, 1, 2, 3]).is_none());
    // the prefix announces more than there is
    assert!(KeyPair::<2, 3>::from_bytes(vec![2, 1]).is_none());
    // longer than a packed key may be
    assert!(KeyPair::<2, 3>::from_bytes(vec![2, 1, 2, 3, 4, 5, 6]).is_none());
    // a short first key leaves room behind it, but not for a second key
    let bound = KeyPair::<2, 3>::from_bytes(vec![1, 1, 2, 3, 4, 5]).unwrap();
    assert!(!bound.holds_pair());
}

#[test]
fn into_bytes_gives_the_buffer() {
    let pair = KeyPair::<2, 3>::new(&[1, 2], &[3]);
    assert_eq!(pair.into_bytes(), vec![2u8, 1, 2, 3]);
}

#[test]
fn clone_keeps_the_buffer() {
    let pair = KeyPair::<2, 3>::new(&[1, 2], &[3]);
    let copy = pair.clone();
    assert!(copy == pair);
    assert_eq!(copy.to_bytes(), pair.to_bytes());
    assert_eq!(copy.first_key(), vec![1u8, 2]);
}

#[test]
fn byte_order_is_the_order_of_vectors() {
    let samples: Vec<Vec<u8>> = vec![
        vec![],
        vec![0],
        vec![0, 0],
        vec![0, 1],
        vec![1],
        vec![1, 0],
        vec![1, 2, 3],
        vec![1, 2, 4],
        vec![2],
        vec![0xFF],
        vec![0xFF, 0],
        vec![0xFF, 0xFF],
    ];
    for a in samples.iter() {
        for b in samples.iter() {
            assert_eq!(bytes_precede(a, b), a < b);
            assert_eq!(bytes_equal(a, b), a == b);
        }
    }
}

#[test]
fn value_holds_bytes_within_its_limit() {
    let value = Value::<3>::new(&[1, 2, 3]);
    assert_eq!(value.to_bytes(), &vec![1u8, 2, 3]);
    assert_eq!(value.into_inner(), vec![1u8, 2, 3]);
    assert!(Value::<3>::from_bytes(vec![1, 2, 3]).is_some());
    assert!(Value::<3>::from_bytes(vec![1, 2, 3, 4]).is_none());
    assert_eq!(Value::<3>::from_bytes(vec![]).unwrap().into_inner(), Vec::<u8>::new());
}

#[test]
fn pairs_of_first_keys_of_one_length_are_ordered_by_first_key() {
    let a = KeyPair::<2, 3>::new(&[1, 2], &[0xFF, 0xFF, 0xFF]);
    let b = KeyPair::<2, 3>::new(&[1, 3], &[]);
    let c = KeyPair::<2, 3>::new(&[2, 0], &[5]);
    assert!(a.precedes(&b));
    assert!(b.precedes(&c));
    assert!(!c.precedes(&a));
    // a shorter first key comes first, whatever its bytes
    let short = KeyPair::<2, 3>::new(&[9], &[9, 9, 9]);
    assert!(short.precedes(&a));
}
