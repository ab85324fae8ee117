use tiered_vector::{ImplicitTier, ImplicitTierRingOffsets, RawTier, Tier, TierError};

fn filled_tier(values: &[usize]) -> Tier<usize> {
    let mut t: Tier<usize> = Tier::new(8);
    for v in values {
        t.push_back(*v);
    }
    t
}

fn ranks(t: &Tier<usize>) -> Vec<usize> {
    let mut out = Vec::new();
    let mut r = 0;
    while let Some(v) = t.get_by_rank(r) {
        out.push(*v);
        r += 1;
    }
    out
}

#[test]
fn raw_tier_reports_each_error() {
    let mut t: RawTier<usize> = RawTier::new(2);
    assert!(matches!(t.pop_front(), Err(TierError::TierEmptyError)));
    assert!(matches!(t.pop_back(), Err(TierError::TierEmptyError)));
    assert!(matches!(t.remove(0), Err(TierError::TierEmptyError)));
    assert!(matches!(t.insert(1, 9), Err(TierError::TierDisconnectedEntryInsertionError(1, 9))));
    assert_eq!(t.push_back(1).ok(), Some(0));
    assert!(matches!(t.remove(1), Err(TierError::TierRankOutOfBoundsError(1))));
    assert_eq!(t.push_front(2).ok(), Some(1));
    assert!(matches!(t.push_back(3), Err(TierError::TierFullInsertionError(3))));
    assert!(matches!(t.push_front(4), Err(TierError::TierFullInsertionError(4))));
    assert!(matches!(t.insert(0, 5), Err(TierError::TierFullInsertionError(5))));
    assert_eq!(t.len(), 2);
    assert_eq!(t.max_rank(), 1);
    assert_eq!(*t.get_by_rank(0).unwrap(), 2);
    assert_eq!(*t.get_by_rank(1).unwrap(), 1);
}

#[test]
fn insert_near_head_keeps_rank_order() {
    let mut t = filled_tier(&[10, 20, 30, 40, 50]);
    t.insert(1, 15);
    assert_eq!(ranks(&t), vec![10, 15, 20, 30, 40, 50]);
    t.insert(5, 45);
    assert_eq!(ranks(&t), vec![10, 15, 20, 30, 40, 45, 50]);
    assert_eq!(t.remove(2), 20);
    assert_eq!(ranks(&t), vec![10, 15, 30, 40, 45, 50]);
}

#[test]
fn pop_push_moves_one_element_through_a_full_tier() {
    let mut t: Tier<usize> = Tier::new(4);
    for v in [1, 2, 3, 4] {
        t.push_back(v);
    }
    assert_eq!(t.pop_push_front(0), 4);
    assert_eq!(ranks(&t), vec![0, 1, 2, 3]);
    assert_eq!(t.pop_push_back(9), 0);
    assert_eq!(ranks(&t), vec![1, 2, 3, 9]);
}

#[test]
fn rotate_split_and_merge_keep_order() {
    let mut t: Tier<usize> = Tier::new(8);
    for v in [3, 4, 5] {
        t.push_back(v);
    }
    for v in [2, 1, 0] {
        t.push_front(v);
    }
    assert_ne!(t.masked_head(), 0);
    t.rotate_reset();
    assert_eq!(t.masked_head(), 0);
    assert_eq!(ranks(&t), vec![0, 1, 2, 3, 4, 5]);

    let upper = t.split_half();
    assert_eq!(t.capacity(), 4);
    assert_eq!(upper.capacity(), 4);
    assert_eq!(ranks(&t), vec![0, 1, 2, 3]);
    assert_eq!(ranks(&upper), vec![4, 5]);

    t.merge(upper);
    assert_eq!(t.capacity(), 8);
    assert_eq!(ranks(&t), vec![0, 1, 2, 3, 4, 5]);

    let copy = t.clone();
    assert_eq!(ranks(&copy), ranks(&t));
}

#[test]
fn raw_tier_split_and_merge() {
    let mut t: RawTier<usize> = RawTier::new(4);
    for v in [7, 8, 9] {
        assert!(t.push_back(v).is_ok());
    }
    let upper = t.split_half();
    assert_eq!(t.len(), 2);
    assert_eq!(upper.len(), 1);
    assert_eq!(*upper.get_by_rank(0).unwrap(), 9);
    t.merge(upper);
    assert_eq!(t.capacity(), 4);
    assert_eq!(t.len(), 3);
    assert_eq!(*t.get_by_rank(2).unwrap(), 9);
    t.rotate_reset();
    assert_eq!(t.masked_head(), 0);
}

#[test]
fn implicit_tier_works_on_lent_storage() {
    let mut slots: Vec<Option<usize>> = vec![None, None, None, None];
    let mut ring = ImplicitTierRingOffsets::default();
    ImplicitTier::push_back(&mut slots, &mut ring, 1);
    ImplicitTier::push_front(&mut slots, &mut ring, 0);
    ImplicitTier::insert(&mut slots, &mut ring, 2, 2);
    ImplicitTier::push_back(&mut slots, &mut ring, 3);
    assert!(ImplicitTier::contains_rank(&slots, &ring, 3));
    assert!(!ImplicitTier::contains_rank(&slots, &ring, 4));
    assert_eq!(ImplicitTier::pop_push_front(&mut slots, &mut ring, 9), 3);
    assert_eq!(*ImplicitTier::get_by_rank(&slots, &ring, 0).unwrap(), 9);
    assert_eq!(ImplicitTier::remove(&mut slots, &mut ring, 0), 9);
    assert_eq!(ImplicitTier::pop_back(&mut slots, &mut ring), 2);
    assert_eq!(ImplicitTier::pop_front(&mut slots, &mut ring), 0);
    ImplicitTier::rotate_reset(&mut slots, &mut ring);
    assert_eq!(ring.head(), 0);
    assert_eq!(*ImplicitTier::get(&slots, &ring, 0).unwrap(), 1);

    let mut other: Vec<Option<usize>> = vec![None, None, None, None];
    let mut other_ring = ImplicitTierRingOffsets::default();
    ImplicitTier::push_back(&mut other, &mut other_ring, 5);
    ImplicitTier::merge_neighbors(&mut slots, &mut ring, other, other_ring);
    assert_eq!(ImplicitTier::capacity(&slots), 8);
    assert_eq!(*ImplicitTier::get_by_rank(&slots, &ring, 1).unwrap(), 5);

    let (upper, upper_ring) = ImplicitTier::split_half(&mut slots, &mut ring);
    assert_eq!(ImplicitTier::capacity(&slots), 4);
    assert_eq!(upper.len(), 4);
    assert_eq!(upper_ring.len(), 0);
    assert_eq!(ring.len(), 2);
}

#[test]
fn tier_get_mut_writes_in_place() {
    let mut t = filled_tier(&[1, 2, 3]);
    *t.get_by_rank_mut(2).unwrap() = 30;
    assert!(t.get_by_rank_mut(3).is_none());
    assert_eq!(ranks(&t), vec![1, 2, 30]);

    let mut r: RawTier<usize> = RawTier::new(4);
    assert!(r.push_back(8).is_ok());
    *r.get_mut_by_rank(0).unwrap() = 9;
    assert_eq!(*r.get_by_rank(0).unwrap(), 9);
    assert!(r.get_mut_by_rank(1).is_none());
}
