use rand::Rng;
use rand::SeedableRng;
use sparsevec::AddressOverflow;
use sparsevec::SparseVec;

#[test]
fn sparsevec() {
    let mut map = SparseVec::default();
    let mut insert_test = |n: u8, size: usize, addr: u64| {
        map.insert(vec![n; size], addr).unwrap();
        assert!(map.check_invariants());
        assert_eq!(map.get(addr..addr + size as u64).unwrap(), &vec![n; size]);
    };

    insert_test(1, 20, 0);
    insert_test(2, 10, 20);
    insert_test(3, 10, 15);
    insert_test(4, 5, 5);
}

#[test]
fn sparsevec_fuzz() {
    let mut map = SparseVec::default();
    let mut insert_test = |n: u8, size: usize, addr: u64| {
        let vec = Vec::from_iter((0..size).map(|v| (v as u8).overflowing_mul(n).0));
        map.insert(vec.clone(), addr).unwrap();
        assert!(map.check_invariants());
        assert_eq!(map.get(addr..addr + size as u64).unwrap(), &vec);
    };

    let mut rng = rand::rngs::StdRng::seed_from_u64(0);
    for _ in 0..1_000_000 {
        let n = rng.gen_range(0..255);
        let size = rng.gen_range(0..1000);
        let addr = rng.gen_range(0..1000);
        insert_test(n, size, addr);
    }
}

#[test]
fn sparsevec_u64_fuzz() {
    let mut map = SparseVec::default();
    let mut insert_test = |n: u64, size: usize, addr: u64| {
        let vec = Vec::from_iter((0..size).map(|v| (v as u64).overflowing_mul(n).0));
        map.insert(vec.clone(), addr).unwrap();
        assert!(map.check_invariants());
        assert_eq!(map.get(addr..addr + size as u64).unwrap(), &vec);
    };

    let mut rng = rand::rngs::StdRng::seed_from_u64(0);
    for _ in 0..1_000_000 {
        let n = rng.gen_range(0..255);
        let size = rng.gen_range(0..1000);
        let addr = rng.gen_range(0..1000);
        insert_test(n, size, addr);
    }
}

#[test]
fn scenario_bytes() {
    let mut map: SparseVec<u8> = SparseVec::new();
    map.insert(vec![1u8; 20], 0).unwrap();
    assert_eq!(map.get(0..20).unwrap(), &vec![1u8; 20]);
    map.insert(vec![2u8; 10], 20).unwrap();
    assert_eq!(map.ranges(), vec![(0u64, 30u64)]);
    assert_eq!(map.get(0..30).unwrap().len(), 30);
    map.insert(vec![3u8; 10], 15).unwrap();
    assert_eq!(map.get(15..25).unwrap(), &vec![3u8; 10]);
    assert_eq!(map.get(0..15).unwrap(), &vec![1u8; 15]);
    assert_eq!(map.get(25..30).unwrap(), &vec![2u8; 5]);
    map.insert(vec![4u8; 5], 5).unwrap();
    assert_eq!(map.get(5..10).unwrap(), &vec![4u8; 5]);
    assert_eq!(map.get(0..5).unwrap(), &vec![1u8; 5]);
    assert_eq!(map.get(10..15).unwrap(), &vec![1u8; 5]);
    assert!(map.check_invariants());
    assert_eq!(map.stored_len(), 30);
    assert_eq!(map.ranges(), vec![(0u64, 30u64)]);
}

#[test]
fn empty_queries() {
    let map: SparseVec<u8> = SparseVec::new();
    assert!(map.get(100..110).is_none());
    assert!(!map.overlaps(&(100..110)));
    assert_eq!(map.stored_len(), 0);
    assert_eq!(map.ranges(), Vec::<(u64, u64)>::new());
}

#[test]
fn address_overflow_reported() {
    let mut map: SparseVec<u8> = SparseVec::new();
    assert!(matches!(map.insert(vec![7u8; 2], u64::MAX), Err(AddressOverflow)));
    assert!(map.get(u64::MAX - 1..u64::MAX).is_none());
    map.insert(vec![7u8], u64::MAX - 1).unwrap();
    assert_eq!(map.get(u64::MAX - 1..u64::MAX).unwrap(), &vec![7u8]);
}

#[test]
fn empty_insert_is_noop() {
    let mut map: SparseVec<u8> = SparseVec::new();
    map.insert(Vec::new(), 42).unwrap();
    assert!(map.get(42..42).is_none());
    assert!(!map.overlaps(&(0..u64::MAX)));
    assert_eq!(map.stored_len(), 0);
}

#[test]
fn gap_rejection() {
    let mut map: SparseVec<u8> = SparseVec::new();
    map.insert(vec![1u8; 4], 0).unwrap();
    map.insert(vec![2u8; 4], 8).unwrap();
    assert!(map.get(0..12).is_none());
    assert!(map.get(3..9).is_none());
    assert_eq!(map.ranges(), vec![(0u64, 4u64), (8u64, 12u64)]);
    assert!(map.overlaps(&(2..9)));
    assert!(!map.overlaps(&(4..8)));
    assert_eq!(map.stored_len(), 8);
}

#[test]
fn get_mut_writes_in_place() {
    let mut map: SparseVec<u8> = SparseVec::new();
    map.insert(vec![9u8; 8], 100).unwrap();
    {
        let view = map.get_mut(102..106).unwrap();
        view.copy_from_slice(&[1, 2, 3, 4]);
    }
    assert_eq!(map.get(100..108).unwrap(), &vec![9, 9, 1, 2, 3, 4, 9, 9]);
    assert!(map.get_mut(99..104).is_none());
    assert!(map.get_mut(104..109).is_none());
    assert!(map.check_invariants());
}

#[test]
fn reinsert_same_data() {
    let mut map: SparseVec<u8> = SparseVec::new();
    map.insert(vec![5u8; 6], 10).unwrap();
    map.insert(vec![5u8; 6], 10).unwrap();
    assert_eq!(map.ranges(), vec![(10u64, 16u64)]);
    assert_eq!(map.get(10..16).unwrap(), &vec![5u8; 6]);
    assert!(map.check_invariants());
}

#[test]
fn reversed_and_empty_ranges() {
    let mut map: SparseVec<u8> = SparseVec::new();
    map.insert(vec![1u8; 10], 0).unwrap();
    assert!(map.get(8..3).is_none());
    assert_eq!(map.get(4..4).unwrap(), &Vec::<u8>::new());
    assert!(map.get(12..12).is_none());
}

#[test]
fn swallow_and_split() {
    let mut map: SparseVec<u8> = SparseVec::new();
    map.insert(vec![1u8; 4], 0).unwrap();
    map.insert(vec![2u8; 4], 6).unwrap();
    map.insert(vec![3u8; 4], 12).unwrap();
    // One write swallowing a whole block and truncating its neighbours.
    map.insert(vec![4u8; 12], 2).unwrap();
    assert_eq!(map.ranges(), vec![(0u64, 16u64)]);
    assert_eq!(map.get(0..16).unwrap(), &vec![1, 1, 4, 4, 4, 4, 4, 4, 4, 4, 4, 4, 4, 4, 3, 3]);
    assert!(map.check_invariants());
}

#[test]
fn sub_and_cast_range() {
    let r = sparsevec::sub_range(&(10..20), 4);
    assert_eq!(r, 6..16);
    let c = sparsevec::cast_range(&(6..16));
    assert_eq!(c, 6usize..16usize);
}

#[test]
fn u64_elements() {
    let mut map: SparseVec<u64> = SparseVec::new();
    map.insert(vec![7u64; 5], 3).unwrap();
    map.insert(vec![8u64; 5], 0).unwrap();
    assert_eq!(map.get(0..5).unwrap(), &vec![8u64; 5]);
    assert_eq!(map.get(5..8).unwrap(), &vec![7u64; 3]);
    assert_eq!(map.ranges(), vec![(0u64, 8u64)]);
    assert!(map.check_invariants());
}
