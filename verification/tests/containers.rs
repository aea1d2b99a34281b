use pdcch_sched::types::bitset::BoundedBitset;
use pdcch_sched::types::bounded_vec::BoundedVec;

#[test]
fn bounded_vec_refuses_overflow() {
    let mut v: BoundedVec<u8, 3> = BoundedVec::new();
    assert!(v.is_empty());
    assert_eq!(v.capacity(), 3);
    assert_eq!(v.push(7), Ok(()));
    assert_eq!(v.push(8), Ok(()));
    assert_eq!(v.push(9), Ok(()));
    assert_eq!(v.push(10), Err(10));
    assert_eq!(v.len(), 3);
    assert_eq!(v.as_slice(), &[7, 8, 9]);
    assert_eq!(v.get(1), Some(&8));
    assert_eq!(v.get(3), None);
    assert_eq!(*v.index(2), 9);
    v.set(0, 1);
    assert_eq!(v.as_slice(), &[1, 8, 9]);
    assert_eq!(v.duplicate(), v);
    assert_eq!(v.reversed().as_slice(), &[9, 8, 1]);
    v.clear();
    assert_eq!(v.len(), 0);
    assert_eq!(v, BoundedVec::default());
}

#[test]
fn bitset_fill_marks_a_run() {
    let mut mask = BoundedBitset::new(100);
    assert_eq!(mask.size(), 100);
    assert!(!mask.any());
    assert_eq!(mask.count(), 0);
    assert_eq!(mask.fill(60, 8, true), Ok(()));
    assert!(mask.any());
    assert_eq!(mask.count(), 8);
    for i in 0..100 {
        assert_eq!(mask.get(i), Some(60 <= i && i < 68));
    }
    assert_eq!(mask.get(100), None);
    assert_eq!(mask.fill(62, 3, false), Ok(()));
    assert_eq!(mask.count(), 5);
    assert_eq!(mask.get(61), Some(true));
    assert_eq!(mask.get(62), Some(false));
    assert_eq!(mask.get(64), Some(false));
    assert_eq!(mask.get(65), Some(true));
}

#[test]
fn bitset_fill_fails_past_the_size() {
    let mut mask = BoundedBitset::new(6);
    let before = mask;
    assert_eq!(mask.fill(5, 2, true), Err(()));
    assert_eq!(mask, before);
    assert_eq!(mask.fill(0, 7, true), Err(()));
    assert_eq!(mask.fill(7, 0, true), Err(()));
    assert_eq!(mask.fill(usize::MAX, 2, true), Err(()));
    assert_eq!(mask.set(6, true), Err(()));
    assert_eq!(mask, before);
    assert_eq!(mask.fill(5, 1, true), Ok(()));
    assert_eq!(mask.fill(6, 0, true), Ok(()));
    assert_eq!(mask.count(), 1);
    assert_eq!(mask.set(5, false), Ok(()));
    assert_eq!(mask, before);
}

#[test]
fn bitset_union_and_intersection() {
    let mut a = BoundedBitset::new(200);
    let mut b = BoundedBitset::new(200);
    a.fill(10, 120, true).unwrap();
    b.fill(100, 90, true).unwrap();
    let both = a.intersection(&b);
    let either = a.union(&b);
    assert_eq!(both.count(), 30);
    assert_eq!(either.count(), 180);
    for i in 0..200 {
        assert_eq!(both.get(i), Some(100 <= i && i < 130));
        assert_eq!(either.get(i), Some(10 <= i && i < 190));
    }
    let mut c = BoundedBitset::new(200);
    c.fill(0, 10, true).unwrap();
    assert!(!a.intersection(&c).any());
    c.set(10, true).unwrap();
    assert!(a.intersection(&c).any());
}

#[test]
fn bitset_spans_the_whole_capacity() {
    let mut mask = BoundedBitset::new(256);
    assert_eq!(mask.fill(0, 256, true), Ok(()));
    assert_eq!(mask.count(), 256);
    assert_eq!(mask.set(255, false), Ok(()));
    assert_eq!(mask.set(64, false), Ok(()));
    assert_eq!(mask.set(63, false), Ok(()));
    assert_eq!(mask.count(), 253);
    assert_eq!(mask.get(255), Some(false));
    assert_eq!(mask.get(254), Some(true));
    assert_eq!(mask.fill(256, 1, true), Err(()));
    let empty = BoundedBitset::default();
    assert_eq!(empty.size(), 0);
    assert!(!empty.any());
}
