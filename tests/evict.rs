use stripe_update::storage::LruEvict;
use stripe_update::storage::NonEvict;
use stripe_update::storage::{MostModifiedBlockEvict, MostModifiedStripeEvict};

#[test]
fn most_modified_block_test_evict() {
    const MAX_SIZE: usize = 40;
    let mut mm = MostModifiedBlockEvict::with_max_size(MAX_SIZE);
    assert!(mm.push(1, 5..20).is_none()); // [1: 5..20]
    assert!(mm.push(1, 0..10).is_none()); // [1: 0..20]
    assert_eq!(mm.len(), 20);
    assert!(mm.push(2, 20..30).is_none()); // [1: 0..20], [2: 20..30]
    assert!(mm.push(3, 30..40).is_none()); // [1: 0..20], [2: 20..30] [3: 30..40]
    let evict = mm.pop_with_id(3).unwrap();
    assert_eq!(evict.to_ranges(), vec![30..40]);
    let evict = mm.push(2, 50..70).unwrap(); // [1: 0..20]
    assert_eq!(evict.0, 2);
    assert_eq!(evict.1.to_ranges(), vec![20..30, 50..70]);
    assert!(mm.push(1, 20..30).is_none()); // [1: 0..30]
    let evict = mm.push(3, 0..20).unwrap(); // [3: 0..20]
    assert_eq!(evict.0, 1);
    assert_eq!(evict.1.to_ranges(), vec![0..30]);
    assert!(mm.push(3, 30..50).is_none()); // [3: 0..20, 30..50]
    let evict = mm.pop_first().unwrap(); // empty
    assert_eq!(evict.0, 3);
    assert_eq!(evict.1.to_ranges(), vec![0..20, 30..50]);
    assert!(mm.pop_first().is_none());
}

#[test]
fn most_modified_test_evict() {
    const MAX_SIZE: usize = 40;
    let mut mm = MostModifiedBlockEvict::with_max_size(MAX_SIZE);
    assert!(mm.push(1, 5..20).is_none()); // [1: 5..20]
    assert!(mm.push(1, 0..10).is_none()); // [1: 0..20]
    assert_eq!(mm.len(), 20);
    assert!(mm.push(2, 20..30).is_none()); // [1: 0..20], [2: 20..30]
    let evict = mm.push(2, 50..70).unwrap(); // [1: 0..20]
    assert_eq!(evict.0, 2);
    assert_eq!(evict.1.to_ranges(), vec![20..30, 50..70]);
    assert!(mm.push(1, 20..30).is_none()); // [1: 0..30]
    let evict = mm.push(3, 0..20).unwrap(); // [3: 0..20]
    assert_eq!(evict.0, 1);
    assert_eq!(evict.1.to_ranges(), vec![0..30]);
    assert!(mm.push(3, 30..50).is_none()); // [3: 0..20, 30..50]
    let evict = mm.push(3, 25..26).unwrap(); // empty
    assert_eq!(evict.0, 3);
    assert_eq!(evict.1.to_ranges(), vec![0..20, 25..26, 30..50]);
    assert!(mm.pop_first().is_none());
}

#[test]
fn most_modified_block_eviction_scenario() {
    let mut mm = MostModifiedBlockEvict::with_max_size(40);
    assert!(mm.push(1, 0..20).is_none());
    assert!(mm.push(2, 20..30).is_none());
    assert!(mm.push(3, 30..40).is_none());
    let (id, ranges) = mm.push(2, 50..70).unwrap();
    assert_eq!(id, 2);
    assert_eq!(ranges.to_ranges(), vec![20..30, 50..70]);
    assert!(mm.contains(1) && mm.contains(3) && !mm.contains(2));
    assert_eq!(mm.get(1).unwrap().len(), 20);
    assert_eq!(mm.get(3).unwrap().len(), 10);
    assert_eq!(mm.len(), 30);
    assert!(mm.len() <= mm.capacity());
}

#[test]
fn most_modified_block_len_stays_within_capacity() {
    let mut mm = MostModifiedBlockEvict::with_max_size(100);
    let mut seed: u64 = 11;
    for _ in 0..500 {
        seed = seed.wrapping_mul(6364136223846793005).wrapping_add(1442695040888963407);
        let id = (seed >> 40) as usize % 7;
        let lo = (seed >> 20) as usize % 200;
        let len = (seed >> 10) as usize % 150;
        mm.push(id, lo..lo + len);
        assert!(mm.len() <= mm.capacity());
    }
}

#[test]
fn most_modified_block_pop_first_is_maximal() {
    let mut mm = MostModifiedBlockEvict::with_max_size(1000);
    mm.push(7, 0..10);
    mm.push(8, 0..30);
    mm.push(9, 0..20);
    let (id, ranges) = mm.pop_first().unwrap();
    assert_eq!((id, ranges.len()), (8, 30));
    let (id, _) = mm.pop_first().unwrap();
    assert_eq!(id, 9);
    assert!(mm.pop_with_id(8).is_none());
    assert_eq!(mm.pop_with_id(7).unwrap().len(), 10);
    assert!(mm.is_empty());
}

#[test]
fn test_most_modified_stripe() {
    const MAX_SIZE: usize = 100;
    const EC_M: usize = 4;
    let mut mms = MostModifiedStripeEvict::new(EC_M, MAX_SIZE);
    let evict = mms.push(1, 0..20); // 20: (1: [0..20])
    assert!(evict.is_none());
    assert_eq!(mms.len(), 20);
    let evict = mms.push(3, 30..50); // 40: (1: [0..20], 3: [30..50])
    assert!(evict.is_none());
    assert_eq!(mms.len(), 40);
    let evict = mms.push(6, 20..50); // 70: (1: [0..20], 3: [30..50]), (6: [20..50])
    assert!(evict.is_none());
    assert_eq!(mms.len(), 70);
    let evict = mms.push(6, 40..70); // 90: (1: [0..20], 3: [30..50]), (6: [20..70])
    assert!(evict.is_none());
    assert_eq!(mms.len(), 90);
    let evict = mms.push(3, 10..20); // 100: (1: [0..20], 3: [10..20, 30..50]), (6: [20..70])
    assert!(evict.is_none());
    assert_eq!(mms.len(), 100);
    let evict = mms.push(6, 5..15).unwrap(); // 50: (1: [0..20], 3: [10..20, 30..50])
    assert_eq!(mms.len(), 50);
    assert_eq!(evict.0, 6);
    assert_eq!(evict.1.to_ranges(), vec![5..15, 20..70]);
    let evict = mms.push(3, 10..30); // 60: (1: [0..20], 3: [10..50])
    assert!(evict.is_none());
    assert_eq!(mms.len(), 60);
    let evict = mms.push(6, 0..10); // 70: (1: [0..20], 3: [10..50]), (6: [0..10])
    assert_eq!(mms.len(), 70);
    assert!(evict.is_none());
    let evict = mms.push(4, 90..120); // 100: (1: [0..20], 3: [10..50]), (4:[90..120], 6: [0..10])
    assert!(evict.is_none());
    let evict = mms.pop_first().unwrap(); // 60: (1: [0..20]), (4: [90..120], 6: [0..10])
    assert_eq!(mms.len(), 60);
    assert_eq!(evict.0, 3);
    assert_eq!(evict.1.to_ranges(), vec![10..50]);
    let evict = mms.pop_with_id(4).unwrap();
    assert_eq!(mms.len(), 30); // 30: (1: [0..20]), (6: [0..10])
    assert_eq!(evict.to_ranges(), vec![90..120]);
    let evict = mms.pop_first().unwrap();
    assert_eq!(evict.0, 1);
    assert_eq!(evict.1.to_ranges(), vec![0..20]);
    let evict = mms.pop_with_id(3);
    assert!(evict.is_none());
    let evict = mms.pop_first().unwrap();
    assert!(mms.is_empty());
    assert_eq!(evict.0, 6);
    assert_eq!(evict.1.to_ranges(), vec![0..10]);
    let evict = mms.pop_first();
    assert!(evict.is_none());
    assert!(mms.is_empty());
}

#[test]
fn most_modified_stripe_picks_largest_block_of_largest_stripe() {
    let mut mms = MostModifiedStripeEvict::new(3, 1000);
    mms.push(0, 0..10); // stripe 0: 10
    mms.push(3, 0..8); // stripe 1: 8 + 7 = 15
    mms.push(4, 0..7);
    mms.push(6, 0..12); // stripe 2: 12
    let (id, ranges) = mms.pop_first().unwrap();
    assert_eq!(id, 3);
    assert_eq!(ranges.len(), 8);
    assert!(mms.contains(4) && !mms.contains(3));
    assert_eq!(mms.get(5).unwrap().len(), 0);
    assert!(mms.get(9).is_none());
}

#[test]
fn lru_evicts_least_recently_pushed() {
    let mut lru = LruEvict::with_capacity(30);
    assert!(lru.push(1, 0..10).is_none());
    assert!(lru.push(2, 0..10).is_none());
    assert!(lru.push(1, 10..15).is_none()); // 1 is now the most recent
    assert_eq!(lru.len(), 25);
    let (id, ranges) = lru.push(3, 0..10).unwrap();
    assert_eq!(id, 2);
    assert_eq!(ranges.to_ranges(), vec![0..10]);
    assert_eq!(lru.len(), 25);
    assert!(lru.contains(1) && lru.contains(3) && !lru.contains(2));
    assert!(lru.push(1, 0..5).is_none());
    assert_eq!(lru.pop_first().unwrap().0, 3);
    assert_eq!(lru.pop_with_id(1).unwrap().to_ranges(), vec![0..15]);
    assert!(lru.pop_first().is_none());
}

#[test]
fn non_evict_never_evicts() {
    let mut ne = NonEvict::new();
    for id in 0..10 {
        assert!(ne.push(id, 0..1000).is_none());
    }
    assert!(ne.push(3, 500..1500).is_none());
    assert_eq!(ne.len(), 10500);
    assert_eq!(ne.get(3).unwrap().to_ranges(), vec![0..1500]);
    assert_eq!(ne.pop_first().unwrap().0, 0);
    assert_eq!(ne.pop_with_id(3).unwrap().len(), 1500);
    assert_eq!(ne.len(), 8000);
    assert!(ne.pop_with_id(3).is_none());
}

#[test]
fn most_modified_stripe_may_stay_over_capacity() {
    // one eviction takes the largest block of the largest stripe, which need not be
    // the block that grew: here 70 bytes stay buffered under a capacity of 60
    let mut mms = MostModifiedStripeEvict::new(3, 60);
    assert!(mms.push(0, 0..30).is_none());
    assert!(mms.push(1, 0..30).is_none());
    let (id, ranges) = mms.push(3, 0..40).unwrap();
    assert_eq!(id, 1);
    assert_eq!(ranges.len(), 30);
    assert_eq!(mms.len(), 70);
    assert!(mms.len() > mms.capacity());
}
