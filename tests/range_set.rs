use stripe_update::storage::range_set::stripe_union_range;
use stripe_update::storage::RangeSet;

#[test]
fn test_insert() {
    let mut ranges = RangeSet::new();

    let inc = ranges.insert(3..10);
    assert_eq!(inc, vec![3..10]);
    assert_eq!(ranges.len(), 7);

    let inc = ranges.insert(5..9);
    assert_eq!(inc, vec![]);
    assert_eq!(ranges.len(), 7);

    let inc = ranges.insert(10..15);
    assert_eq!(inc, vec![10..15]);
    assert_eq!(ranges.len(), 12);

    let inc = ranges.insert(20..25);
    assert_eq!(inc, vec![20..25]);
    assert_eq!(ranges.len(), 17);

    let inc = ranges.insert(0..1);
    assert_eq!(inc, vec![0..1]);
    assert_eq!(ranges.len(), 18);

    let inc = ranges.insert(2..23);
    assert_eq!(inc, vec![2..3, 15..20]);
    assert_eq!(ranges.len(), 24);

    let bounds = ranges.to_ranges();
    assert_eq!(bounds, vec![0..1, 2..25]);
}

#[test]
fn insert_sequence_merges_adjacent_ranges() {
    let mut ranges = RangeSet::new();
    let mut total = 0;
    for (r, expect) in [
        (3..10, vec![3..10]),
        (5..9, vec![]),
        (10..15, vec![10..15]),
        (20..25, vec![20..25]),
        (2..23, vec![2..3, 15..20]),
    ] {
        let inc = ranges.insert(r);
        total += inc.iter().map(|r| r.len()).sum::<usize>();
        assert_eq!(inc, expect);
    }
    assert_eq!(ranges.to_ranges(), vec![2..25]);
    assert_eq!(ranges.len(), 23);
    assert_eq!(total, ranges.len());
}

#[test]
fn covered_insert_changes_nothing() {
    let mut ranges = RangeSet::from_ranges(&[0..4, 8..12]);
    assert_eq!(ranges.len(), 8);
    assert!(ranges.insert(8..12).is_empty());
    assert!(ranges.insert(1..3).is_empty());
    assert!(ranges.insert(5..5).is_empty());
    assert_eq!(ranges.len(), 8);
    assert_eq!(ranges.to_ranges(), vec![0..4, 8..12]);
}

#[test]
fn canonical_after_random_inserts() {
    let mut ranges = RangeSet::new();
    let mut seed: u64 = 7;
    for _ in 0..200 {
        seed = seed.wrapping_mul(6364136223846793005).wrapping_add(1442695040888963407);
        let lo = (seed >> 33) as usize % 1000;
        let len = (seed >> 20) as usize % 40;
        ranges.insert(lo..lo + len);
        let rs = ranges.to_ranges();
        for r in rs.iter() {
            assert!(r.start < r.end);
        }
        for w in rs.windows(2) {
            assert!(w[0].end < w[1].start);
        }
        assert_eq!(rs.iter().map(|r| r.len()).sum::<usize>(), ranges.len());
    }
}

#[test]
fn boundaries_round_trip_and_rejects_unordered() {
    let ranges = RangeSet::from_ranges(&[5..9, 0..2, 9..12]);
    let b = ranges.to_boundaries();
    assert_eq!(b, vec![0, 2, 5, 12]);
    let back = RangeSet::from_boundaries(&b).unwrap();
    assert_eq!(back.to_ranges(), vec![0..2, 5..12]);
    assert_eq!(back.len(), 9);
    assert!(RangeSet::from_boundaries(&[3, 1]).is_none());
    assert!(RangeSet::from_boundaries(&[1, 3, 3, 5]).is_none());
    assert!(RangeSet::from_boundaries(&[1, 3, 5]).is_none());
    assert_eq!(RangeSet::from_boundaries(&[]).unwrap().len(), 0);
}

#[test]
fn stripe_union_of_block_ranges() {
    let sets = vec![
        Some(RangeSet::from_ranges(&[0..4, 10..12])),
        None,
        Some(RangeSet::from_ranges(&[3..6, 20..21])),
    ];
    let u = stripe_union_range(&sets);
    assert_eq!(u.to_ranges(), vec![0..6, 10..12, 20..21]);
    assert_eq!(u.len(), 9);
}
