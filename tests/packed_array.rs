use pia::{get_array_length, PackedIntegerArray};
use std::collections::hash_map::DefaultHasher;
use std::hash::{Hash, Hasher};

fn hash_of<T: Hash>(t: &T) -> u64 {
    let mut h = DefaultHasher::new();
    t.hash(&mut h);
    h.finish()
}

#[test]
fn array_length_examples() {
    assert_eq!(get_array_length(3, 4), 2);
    assert_eq!(get_array_length(3, 9), 4);
    assert_eq!(get_array_length(8, 1), 1);
    assert_eq!(get_array_length(1, 8), 1);
    assert_eq!(get_array_length(5, 4), 3);
    assert_eq!(get_array_length(1, 9), 2);
    assert_eq!(get_array_length(7, 0), 0);
}

#[test]
fn storage_length_matches_formula() {
    assert_eq!(PackedIntegerArray::<3, 4>::new().as_bytes().len(), 2);
    assert_eq!(PackedIntegerArray::<3, 9>::new().as_bytes().len(), 4);
    assert_eq!(PackedIntegerArray::<8, 1>::new().as_bytes().len(), 1);
    assert_eq!(PackedIntegerArray::<1, 8>::new().as_bytes().len(), 1);
    assert_eq!(PackedIntegerArray::<5, 4>::new().as_bytes().len(), 3);
    let a = PackedIntegerArray::<5, 4>::new();
    let r: &[u8] = a.as_ref();
    assert_eq!(r, &[0u8, 0, 0][..]);
}

#[test]
fn new_is_all_zero() {
    let a = PackedIntegerArray::<3, 9>::new();
    for i in 0..9 {
        assert_eq!(a.get(i), 0);
    }
    assert_eq!(a.as_bytes(), &[0u8, 0, 0, 0][..]);
    let b = PackedIntegerArray::<7, 5>::new();
    assert_eq!(b.unpack(), [0u8; 5]);
}

#[test]
fn round_trip_every_width() {
    fn check<const B: u8, const L: usize>() {
        for i in 0..L {
            for v in 0..(1u16 << B) {
                let mut a = PackedIntegerArray::<B, L>::new();
                assert!(!a.set(i, v as u8));
                assert_eq!(a.get(i), v as u8);
            }
        }
    }
    check::<1, 11>();
    check::<2, 7>();
    check::<3, 9>();
    check::<4, 5>();
    check::<5, 4>();
    check::<6, 5>();
    check::<7, 6>();
    check::<8, 3>();
}

#[test]
fn set_three_then_get() {
    let mut a = PackedIntegerArray::<3, 9>::new();
    a.set(3, 7);
    assert_eq!(a.get(3), 7);
}

#[test]
fn truncation_keeps_low_bits() {
    let mut a = PackedIntegerArray::<3, 9>::new();
    assert!(!a.set(2, 0b0000_0001));
    assert!(a.set(4, 0b0000_1001));
    assert_eq!(a.get(2), a.get(4));
    assert_eq!(a.get(4), 1);
    assert!(a.set(5, 255));
    assert_eq!(a.get(5), 7);
    assert_eq!(a.unpack(), [0, 0, 1, 0, 1, 7, 0, 0, 0]);
}

#[test]
fn truncation_never_at_width_eight() {
    let mut a = PackedIntegerArray::<8, 2>::new();
    assert!(!a.set(1, 255));
    assert_eq!(a.get(1), 255);
    assert_eq!(a.as_bytes(), &[0u8, 255][..]);
}

#[test]
fn truncation_width_five() {
    let mut a = PackedIntegerArray::<5, 4>::new();
    assert!(a.set(1, 100));
    assert_eq!(a.get(1), 100 % 32);
    assert!(!a.set(2, 31));
    assert_eq!(a.get(2), 31);
}

#[test]
fn writes_leave_other_items_alone() {
    let mut a = PackedIntegerArray::<5, 7>::new();
    let values = [17u8, 3, 31, 0, 22, 9, 30];
    for (i, v) in values.iter().enumerate() {
        a.set(i, *v);
    }
    assert_eq!(a.unpack(), values);

    let mut b = PackedIntegerArray::<5, 7>::new();
    for (i, v) in values.iter().enumerate() {
        b.set(i, *v);
    }
    b.set(3, 31);
    b.clear(4);
    assert_eq!(b.unpack(), [17, 3, 31, 31, 0, 9, 30]);
}

#[test]
fn clear_reads_zero_and_is_idempotent() {
    let mut a = PackedIntegerArray::<3, 9>::new();
    for i in 0..9 {
        a.set(i, 7);
    }
    a.clear(3);
    assert_eq!(a.get(3), 0);
    let once = a.as_bytes().to_vec();
    a.clear(3);
    assert_eq!(a.as_bytes(), &once[..]);
    assert_eq!(a.unpack(), [7, 7, 7, 0, 7, 7, 7, 7, 7]);
}

#[test]
fn clear_straddling_item() {
    let mut a = PackedIntegerArray::<3, 9>::new();
    for i in 0..9 {
        a.set(i, 7);
    }
    a.clear(2);
    assert_eq!(a, [7, 7, 0, 7, 7, 7, 7, 7, 7]);
    a.clear(2);
    assert_eq!(a.unpack(), [7, 7, 0, 7, 7, 7, 7, 7, 7]);
}

#[test]
fn unpack_scenario() {
    let mut a = PackedIntegerArray::<3, 9>::new();
    a.set(2, 4);
    a.set(4, 5);
    assert_eq!(a.unpack(), [0, 0, 4, 0, 5, 0, 0, 0, 0]);
}

#[test]
fn straddling_item() {
    let mut a = PackedIntegerArray::<3, 9>::new();
    a.set(1, 0b011);
    a.set(3, 0b110);
    a.set(2, 0b101);
    assert_eq!(a.get(2), 0b101);
    assert_eq!(a.get(1), 0b011);
    assert_eq!(a.get(3), 0b110);
    // item 2 takes the last two bits of byte 0 and the first bit of byte 1
    assert_eq!(a.as_bytes(), &[0b0000_1110, 0b1110_0000, 0, 0][..]);
}

#[test]
fn bit_layout_is_most_significant_first() {
    let mut a = PackedIntegerArray::<3, 4>::new();
    a.set(0, 0b100);
    assert_eq!(a.as_bytes(), &[0b1000_0000, 0][..]);
    a.set(3, 0b011);
    assert_eq!(a.as_bytes(), &[0b1000_0000, 0b0011_0000][..]);
}

#[test]
fn equals_plain_array() {
    let mut a = PackedIntegerArray::<3, 9>::new();
    a.set(2, 3);
    assert_eq!(a, [0, 0, 3, 0, 0, 0, 0, 0, 0]);
    assert!(a != [0, 0, 3, 0, 0, 0, 0, 0, 1]);
}

#[test]
fn equal_storage_equal_and_same_hash() {
    let mut a = PackedIntegerArray::<3, 9>::new();
    let mut b = PackedIntegerArray::<3, 9>::new();
    a.set(2, 3);
    b.set(2, 3);
    assert!(a == b);
    assert_eq!(hash_of(&a), hash_of(&b));
    b.set(8, 1);
    assert!(a != b);
}

#[test]
fn from_bytes_checks_length() {
    assert!(PackedIntegerArray::<3, 9>::from_bytes(vec![1, 2, 3]).is_none());
    assert!(PackedIntegerArray::<3, 9>::from_bytes(vec![1, 2, 3, 4, 5]).is_none());
    assert!(PackedIntegerArray::<0, 9>::from_bytes(vec![]).is_none());
    assert!(PackedIntegerArray::<9, 1>::from_bytes(vec![0, 0]).is_none());
    let a = PackedIntegerArray::<3, 9>::from_bytes(vec![0b0000_1110, 0b1110_0000, 0, 0]).unwrap();
    assert_eq!(a.unpack(), [0, 3, 5, 6, 0, 0, 0, 0, 0]);
}

#[test]
fn iterator_yields_items_in_order() {
    let mut a = PackedIntegerArray::<3, 9>::new();
    a.set(2, 5);
    a.set(8, 6);
    let mut it = a.into_iter();
    let mut seen = Vec::new();
    while let Some(v) = it.next() {
        seen.push(v);
    }
    assert_eq!(seen, vec![0, 0, 5, 0, 0, 0, 0, 0, 6]);
    assert_eq!(it.next(), None);
}
