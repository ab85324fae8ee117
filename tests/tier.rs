use tiered_vector::{RawTier, Tier};

#[test]
fn tier_no_error_on_correct_tier_size() {
    let t: RawTier<usize> = RawTier::new(4);
    assert_eq!(t.len(), 0);
    assert_eq!(t.capacity(), 4);
}

#[test]
fn tier_contains_rank() {
    let mut t: RawTier<usize> = RawTier::new(4);
    assert!(!t.contains_rank(0));
    assert!(!t.contains_rank(2));
    assert!(!t.contains_rank(4));

    assert!(t.push_back(0).is_ok());
    assert!(t.contains_rank(0));
    assert!(t.push_back(1).is_ok());
    assert!(t.contains_rank(0));
    assert!(t.contains_rank(1));
    assert!(t.push_back(2).is_ok());
    assert!(t.contains_rank(0));
    assert!(t.contains_rank(1));
    assert!(t.contains_rank(2));
    assert!(!t.contains_rank(3));
}

#[test]
fn tier_insert_at_rank_shift_tail() {
    let mut t = RawTier::new(4);

    // [0, 1, 2, n]
    assert!(t.push_back(0).is_ok());
    assert!(t.push_back(1).is_ok());
    assert!(t.push_back(2).is_ok());

    // [0, 1, 3, 2]
    assert!(t.insert(2, 3).is_ok());
    assert_eq!(*t.get(0).unwrap(), 0);
    assert_eq!(*t.get(1).unwrap(), 1);
    assert_eq!(*t.get(2).unwrap(), 3);
    assert_eq!(*t.get(3).unwrap(), 2);
}

#[test]
fn tier_remove_at_rank_1() {
    let mut t = RawTier::new(4);

    // [0, 1, 2, 3]
    assert!(t.push_back(0).is_ok());
    assert!(t.push_back(1).is_ok());
    assert!(t.push_back(2).is_ok());
    assert!(t.push_back(3).is_ok());
    assert_eq!(t.masked_head(), 0);
    assert_eq!(t.masked_tail(), 0);

    // [0, 2, 3, _]
    assert!(t.remove(1).is_ok());
    assert_eq!(t.masked_head(), 0);
    assert_eq!(t.masked_tail(), 3);
    assert_eq!(*t.get(0).unwrap(), 0);
    assert_eq!(*t.get(1).unwrap(), 2);
    assert_eq!(*t.get(2).unwrap(), 3);
    assert!(t.get(3).is_none());
}

#[test]
fn tier_remove_at_rank_2() {
    let mut t = RawTier::new(4);

    // [0, 1, 2, 3]
    assert!(t.push_back(0).is_ok());
    assert!(t.push_back(1).is_ok());
    assert!(t.push_back(2).is_ok());
    assert!(t.push_back(3).is_ok());
    assert_eq!(t.masked_head(), 0);
    assert_eq!(t.masked_tail(), 0);

    // [_, 1, 2, 3]
    assert!(t.remove(0).is_ok());
    assert_eq!(t.masked_head(), 1);
    assert_eq!(t.masked_tail(), 0);
    assert!(t.get(0).is_none());
    assert_eq!(*t.get(1).unwrap(), 1);
    assert_eq!(*t.get(2).unwrap(), 2);
    assert_eq!(*t.get(3).unwrap(), 3);
}

#[test]
fn tier_push_and_pop() {
    let mut t: RawTier<usize> = RawTier::new(4);
    assert!(t.is_empty());
    assert!(!t.is_full());
    assert_eq!(t.len(), 0);
    assert_eq!(t.capacity(), 4);

    // [n, n, n, 0]
    assert!(t.push_front(0).is_ok());
    assert_eq!(t.len(), 1);
    assert_eq!(t.masked_head(), 3);
    assert_eq!(t.masked_tail(), 0);
    assert!(t.get(3).is_some());
    assert_eq!(*t.get(3).unwrap(), 0);
    assert_eq!(*t.get_by_rank(0).unwrap(), 0);

    assert!(!t.contains_masked_rank(0));
    assert!(!t.contains_masked_rank(1));
    assert!(!t.contains_masked_rank(2));
    assert!(t.contains_masked_rank(3));

    // [1, n, n, 0]
    assert!(t.push_back(1).is_ok());
    assert_eq!(t.len(), 2);
    assert_eq!(t.masked_head(), 3);
    assert_eq!(t.masked_tail(), 1);
    assert!(t.get(0).is_some());
    assert_eq!(*t.get(0).unwrap(), 1);
    assert_eq!(*t.get_by_rank(1).unwrap(), 1);

    assert!(t.contains_masked_rank(0));
    assert!(!t.contains_masked_rank(1));
    assert!(!t.contains_masked_rank(2));
    assert!(t.contains_masked_rank(3));

    // [1, n, 2, 0]
    assert!(t.push_front(2).is_ok());
    assert_eq!(t.len(), 3);
    assert_eq!(t.masked_head(), 2);
    assert_eq!(t.masked_tail(), 1);
    assert!(t.get(2).is_some());
    assert_eq!(*t.get(2).unwrap(), 2);
    assert_eq!(*t.get_by_rank(0).unwrap(), 2);

    assert!(t.contains_masked_rank(0));
    assert!(!t.contains_masked_rank(1));
    assert!(t.contains_masked_rank(2));
    assert!(t.contains_masked_rank(3));

    // [1, 3, 2, 0]
    assert!(t.push_back(3).is_ok());
    assert_eq!(t.len(), 4);
    assert_eq!(t.masked_head(), 2);
    assert_eq!(t.masked_tail(), 2);
    assert!(t.get(1).is_some());
    assert_eq!(*t.get(1).unwrap(), 3);
    assert_eq!(*t.get_by_rank(3).unwrap(), 3);

    assert!(!t.is_empty());
    assert!(t.is_full());

    assert!(t.contains_masked_rank(0));
    assert!(t.contains_masked_rank(1));
    assert!(t.contains_masked_rank(2));
    assert!(t.contains_masked_rank(3));

    assert!(t.push_back(4).is_err());
    assert_eq!(t.masked_head(), 2);
    assert_eq!(t.masked_tail(), 2);

    // [1, 3, n, 0]
    let mut v = t.pop_front();
    assert!(v.is_ok());
    assert_eq!(v.unwrap(), 2);
    assert!(!t.is_empty());
    assert!(!t.is_full());
    assert_eq!(t.len(), 3);
    assert_eq!(t.masked_head(), 3);
    assert_eq!(t.masked_tail(), 2);
    assert!(t.get(2).is_none());

    assert!(t.contains_masked_rank(0));
    assert!(t.contains_masked_rank(1));
    assert!(!t.contains_masked_rank(2));
    assert!(t.contains_masked_rank(3));

    // [1, n, n, 0]
    v = t.pop_back();
    assert!(v.is_ok());
    assert_eq!(v.unwrap(), 3);
    assert!(!t.is_empty());
    assert!(!t.is_full());
    assert_eq!(t.len(), 2);
    assert_eq!(t.masked_head(), 3);
    assert_eq!(t.masked_tail(), 1);
    assert!(t.get(1).is_none());

    assert!(t.contains_masked_rank(0));
    assert!(!t.contains_masked_rank(1));
    assert!(!t.contains_masked_rank(2));
    assert!(t.contains_masked_rank(3));

    // [1, n, 4, 0]
    assert!(t.push_front(4).is_ok());
    assert_eq!(t.len(), 3);
    assert_eq!(t.masked_head(), 2);
    assert_eq!(t.masked_tail(), 1);
    assert!(t.get(2).is_some());
    assert_eq!(*t.get(2).unwrap(), 4);
    assert_eq!(*t.get_by_rank(0).unwrap(), 4);

    assert!(t.contains_masked_rank(0));
    assert!(!t.contains_masked_rank(1));
    assert!(t.contains_masked_rank(2));
    assert!(t.contains_masked_rank(3));
}

#[test]
fn tier_shift_to_head_basic() {
    let mut t: Tier<usize> = Tier::new(4);

    // [0, 1, 2, n]
    t.push_back(0);
    t.push_back(1);
    t.push_back(2);

    // [1, 2, n, 0]
    t.shift_to_head(2);
    assert_eq!(*t.get(0).unwrap(), 1);
    assert_eq!(*t.get(1).unwrap(), 2);
    assert_eq!(*t.get(3).unwrap(), 0);
}

#[test]
fn tier_shift_to_head_data_middle_1() {
    let mut t: Tier<usize> = Tier::new(4);

    // [n, 1, 2, n]
    t.push_back(0);
    t.push_back(1);
    t.push_back(2);
    t.pop_front();

    // [1, n, 2, n]
    t.shift_to_head(1);
    assert_eq!(*t.get(0).unwrap(), 1);
    assert_eq!(*t.get(2).unwrap(), 2);
    assert!(t.get(3).is_none());
}

#[test]
fn tier_shift_to_tail_nonwrapping() {
    let mut t: Tier<usize> = Tier::new(4);

    // [0, 1, 2, n]
    t.push_back(0);
    t.push_back(1);
    t.push_back(2);

    // [0, n, 1, 2]
    t.shift_to_tail(1);
    assert_eq!(*t.get(0).unwrap(), 0);
    assert_eq!(*t.get(2).unwrap(), 1);
    assert_eq!(*t.get(3).unwrap(), 2);
}

#[test]
fn tier_shift_to_tail_wrapping() {
    let mut t: Tier<usize> = Tier::new(4);

    // [3, n, 1, 2]
    t.push_back(0);
    t.push_back(0);
    t.push_back(1);
    t.push_back(2);
    t.pop_front();
    t.pop_front();
    t.push_back(3);

    // [n, 3, 1, 2]
    t.shift_to_tail(0);
    assert_eq!(*t.get(1).unwrap(), 3);
    assert_eq!(*t.get(2).unwrap(), 1);
    assert_eq!(*t.get(3).unwrap(), 2);
}

#[test]
fn no_error_on_correct_tier_size() {
    let t: Tier<usize> = Tier::new(4);
    assert_eq!(t.len(), 0);
    assert_eq!(t.capacity(), 4);
}

#[test]
fn contains_rank() {
    let mut t: Tier<usize> = Tier::new(4);
    assert!(!t.contains_rank(0));
    assert!(!t.contains_rank(2));
    assert!(!t.contains_rank(4));

    t.push_back(0);
    assert!(t.contains_rank(0));
    t.push_back(1);
    assert!(t.contains_rank(0));
    assert!(t.contains_rank(1));
    t.push_back(2);
    assert!(t.contains_rank(0));
    assert!(t.contains_rank(1));
    assert!(t.contains_rank(2));
    assert!(!t.contains_rank(3));
}

#[test]
fn insert_at_rank_shift_tail() {
    let mut t: Tier<usize> = Tier::new(4);

    // [0, 1, 2, n]
    t.push_back(0);
    t.push_back(1);
    t.push_back(2);

    // [0, 1, 3, 2]
    t.insert(2, 3);
    assert_eq!(*t.get(0).unwrap(), 0);
    assert_eq!(*t.get(1).unwrap(), 1);
    assert_eq!(*t.get(2).unwrap(), 3);
    assert_eq!(*t.get(3).unwrap(), 2);
}

#[test]
fn remove_at_rank_1() {
    let mut t: Tier<usize> = Tier::new(4);

    // [0, 1, 2, 3]
    t.push_back(0);
    t.push_back(1);
    t.push_back(2);
    t.push_back(3);
    assert_eq!(t.masked_head(), 0);
    assert_eq!(t.masked_tail(), 0);

    // [0, 2, 3, _]
    t.remove(1);
    assert_eq!(t.masked_head(), 0);
    assert_eq!(t.masked_tail(), 3);
    assert_eq!(*t.get(0).unwrap(), 0);
    assert_eq!(*t.get(1).unwrap(), 2);
    assert_eq!(*t.get(2).unwrap(), 3);
    assert!(t.get(3).is_none());
}

#[test]
fn remove_at_rank_2() {
    let mut t: Tier<usize> = Tier::new(4);

    // [0, 1, 2, 3]
    t.push_back(0);
    t.push_back(1);
    t.push_back(2);
    t.push_back(3);
    assert_eq!(t.masked_head(), 0);
    assert_eq!(t.masked_tail(), 0);

    // [_, 1, 2, 3]
    t.remove(0);
    assert_eq!(t.masked_head(), 1);
    assert_eq!(t.masked_tail(), 0);
    assert!(t.get(0).is_none());
    assert_eq!(*t.get(1).unwrap(), 1);
    assert_eq!(*t.get(2).unwrap(), 2);
    assert_eq!(*t.get(3).unwrap(), 3);
}

#[test]
fn push_and_pop() {
    let mut t: Tier<usize> = Tier::new(4);
    assert!(t.is_empty());
    assert!(!t.is_full());
    assert_eq!(t.len(), 0);
    assert_eq!(t.capacity(), 4);

    // [n, n, n, 0]
    t.push_front(0);
    assert_eq!(t.len(), 1);
    assert_eq!(t.masked_head(), 3);
    assert_eq!(t.masked_tail(), 0);
    assert!(t.get(3).is_some());
    assert_eq!(*t.get(3).unwrap(), 0);
    assert_eq!(*t.get_by_rank(0).unwrap(), 0);

    assert!(!t.contains_masked_rank(0));
    assert!(!t.contains_masked_rank(1));
    assert!(!t.contains_masked_rank(2));
    assert!(t.contains_masked_rank(3));

    // [1, n, n, 0]
    t.push_back(1);
    assert_eq!(t.len(), 2);
    assert_eq!(t.masked_head(), 3);
    assert_eq!(t.masked_tail(), 1);
    assert!(t.get(0).is_some());
    assert_eq!(*t.get(0).unwrap(), 1);
    assert_eq!(*t.get_by_rank(1).unwrap(), 1);

    assert!(t.contains_masked_rank(0));
    assert!(!t.contains_masked_rank(1));
    assert!(!t.contains_masked_rank(2));
    assert!(t.contains_masked_rank(3));

    // [1, n, 2, 0]
    t.push_front(2);
    assert_eq!(t.len(), 3);
    assert_eq!(t.masked_head(), 2);
    assert_eq!(t.masked_tail(), 1);
    assert!(t.get(2).is_some());
    assert_eq!(*t.get(2).unwrap(), 2);
    assert_eq!(*t.get_by_rank(0).unwrap(), 2);

    assert!(t.contains_masked_rank(0));
    assert!(!t.contains_masked_rank(1));
    assert!(t.contains_masked_rank(2));
    assert!(t.contains_masked_rank(3));

    // [1, 3, 2, 0]
    t.push_back(3);
    assert_eq!(t.len(), 4);
    assert_eq!(t.masked_head(), 2);
    assert_eq!(t.masked_tail(), 2);
    assert!(t.get(1).is_some());
    assert_eq!(*t.get(1).unwrap(), 3);
    assert_eq!(*t.get_by_rank(3).unwrap(), 3);

    assert!(!t.is_empty());
    assert!(t.is_full());

    assert!(t.contains_masked_rank(0));
    assert!(t.contains_masked_rank(1));
    assert!(t.contains_masked_rank(2));
    assert!(t.contains_masked_rank(3));

    assert_eq!(t.masked_head(), 2);
    assert_eq!(t.masked_tail(), 2);

    // [1, 3, n, 0]
    let mut v = t.pop_front();
    assert_eq!(v, 2);
    assert!(!t.is_empty());
    assert!(!t.is_full());
    assert_eq!(t.len(), 3);
    assert_eq!(t.masked_head(), 3);
    assert_eq!(t.masked_tail(), 2);
    assert!(t.get(2).is_none());

    assert!(t.contains_masked_rank(0));
    assert!(t.contains_masked_rank(1));
    assert!(!t.contains_masked_rank(2));
    assert!(t.contains_masked_rank(3));

    // [1, n, n, 0]
    v = t.pop_back();
    assert_eq!(v, 3);
    assert!(!t.is_empty());
    assert!(!t.is_full());
    assert_eq!(t.len(), 2);
    assert_eq!(t.masked_head(), 3);
    assert_eq!(t.masked_tail(), 1);
    assert!(t.get(1).is_none());

    assert!(t.contains_masked_rank(0));
    assert!(!t.contains_masked_rank(1));
    assert!(!t.contains_masked_rank(2));
    assert!(t.contains_masked_rank(3));

    // [1, n, 4, 0]
    t.push_front(4);
    assert_eq!(t.len(), 3);
    assert_eq!(t.masked_head(), 2);
    assert_eq!(t.masked_tail(), 1);
    assert!(t.get(2).is_some());
    assert_eq!(*t.get(2).unwrap(), 4);
    assert_eq!(*t.get_by_rank(0).unwrap(), 4);

    assert!(t.contains_masked_rank(0));
    assert!(!t.contains_masked_rank(1));
    assert!(t.contains_masked_rank(2));
    assert!(t.contains_masked_rank(3));
}

#[test]
fn shift_to_head_data_middle_1() {
    let mut t: RawTier<usize> = RawTier::new(4);

    // [n, 1, 2, n]
    assert!(t.push_back(0).is_ok());
    assert!(t.push_back(1).is_ok());
    assert!(t.push_back(2).is_ok());
    assert!(t.pop_front().is_ok());

    // [1, n, 2, n]
    t.shift_to_head(1);
    assert_eq!(*t.get(0).unwrap(), 1);
    assert_eq!(*t.get(2).unwrap(), 2);
    assert!(t.get(3).is_none());
}

#[test]
fn shift_to_tail_nonwrapping() {
    let mut t: RawTier<usize> = RawTier::new(4);

    // [0, 1, 2, n]
    assert!(t.push_back(0).is_ok());
    assert!(t.push_back(1).is_ok());
    assert!(t.push_back(2).is_ok());

    // [0, n, 1, 2]
    t.shift_to_tail(1);
    assert_eq!(*t.get(0).unwrap(), 0);
    assert_eq!(*t.get(2).unwrap(), 1);
    assert_eq!(*t.get(3).unwrap(), 2);
}

#[test]
fn shift_to_head_basic() {
    let mut t: RawTier<usize> = RawTier::new(4);

    // [0, 1, 2, n]
    assert!(t.push_back(0).is_ok());
    assert!(t.push_back(1).is_ok());
    assert!(t.push_back(2).is_ok());

    // [1, 2, n, 0]
    t.shift_to_head(2);
    assert_eq!(*t.get(0).unwrap(), 1);
    assert_eq!(*t.get(1).unwrap(), 2);
    assert_ne!(*t.get(2).unwrap(), 2);
    assert_eq!(*t.get(3).unwrap(), 0);
}

#[test]
fn shift_to_head_data_middle_2() {
    let mut t: RawTier<usize> = RawTier::new(4);

    // [n, 1, 2, n]
    assert!(t.push_back(0).is_ok());
    assert!(t.push_back(1).is_ok());
    assert!(t.push_back(2).is_ok());
    assert!(t.pop_front().is_ok());

    // [1, 2, n, n]
    t.shift_to_head(1);
    assert_eq!(*t.get(0).unwrap(), 1);
    assert_eq!(*t.get(2).unwrap(), 2);
    assert_ne!(*t.get(1).unwrap(), 2);
    assert!(t.get(3).is_none());
}

#[test]
fn shift_to_tail_wrapping() {
    let mut t: RawTier<usize> = RawTier::new(4);

    // [3, n, 1, 2]
    assert!(t.push_back(0).is_ok());
    assert!(t.push_back(0).is_ok());
    assert!(t.push_back(1).is_ok());
    assert!(t.push_back(2).is_ok());
    assert!(t.pop_front().is_ok());
    assert!(t.pop_front().is_ok());
    assert!(t.push_back(3).is_ok());

    // [n, 3, 1, 2]
    t.shift_to_tail(0);
    assert_ne!(*t.get(0).unwrap(), 3);
    assert_eq!(*t.get(1).unwrap(), 3);
    assert_eq!(*t.get(2).unwrap(), 1);
    assert_eq!(*t.get(3).unwrap(), 2);
}

#[test]
fn tier_shift_to_head_data_middle_2() {
    let mut t: RawTier<usize> = RawTier::new(4);

    // [n, 1, 2, n]
    assert!(t.push_back(0).is_ok());
    assert!(t.push_back(1).is_ok());
    assert!(t.push_back(2).is_ok());
    assert!(t.pop_front().is_ok());

    // [1, 2, n, n]
    t.shift_to_head(1);
    assert_eq!(*t.get(0).unwrap(), 1);
    assert_eq!(*t.get(2).unwrap(), 2);
    assert_ne!(*t.get(1).unwrap(), 2);
    assert!(t.get(3).is_none());
}

#[test]
fn tier_insert_at_rank_shift_head() {
    let mut t = RawTier::new(4);

    // [0, 1, 2, n]
    assert!(t.push_back(0).is_ok());
    assert!(t.push_back(1).is_ok());
    assert!(t.push_back(2).is_ok());

    // rank 1 is nearer the head: [3, 1, 2, 0], ranks 0, 3, 1, 2
    assert!(t.insert(1, 3).is_ok());
    assert_eq!(*t.get(0).unwrap(), 3);
    assert_eq!(*t.get(1).unwrap(), 1);
    assert_eq!(*t.get(2).unwrap(), 2);
    assert_eq!(*t.get(3).unwrap(), 0);
    assert_eq!(t.masked_head(), 3);
    assert_eq!(*t.get_by_rank(0).unwrap(), 0);
    assert_eq!(*t.get_by_rank(1).unwrap(), 3);
    assert_eq!(*t.get_by_rank(2).unwrap(), 1);
    assert_eq!(*t.get_by_rank(3).unwrap(), 2);
}

#[test]
fn insert_at_rank_shift_head() {
    let mut t: Tier<usize> = Tier::new(4);

    // [0, 1, 2, n]
    t.push_back(0);
    t.push_back(1);
    t.push_back(2);

    // rank 1 is nearer the head: [3, 1, 2, 0], ranks 0, 3, 1, 2
    t.insert(1, 3);
    assert_eq!(*t.get(0).unwrap(), 3);
    assert_eq!(*t.get(1).unwrap(), 1);
    assert_eq!(*t.get(2).unwrap(), 2);
    assert_eq!(*t.get(3).unwrap(), 0);
    assert_eq!(t.masked_head(), 3);
    assert_eq!(*t.get_by_rank(0).unwrap(), 0);
    assert_eq!(*t.get_by_rank(1).unwrap(), 3);
    assert_eq!(*t.get_by_rank(2).unwrap(), 1);
    assert_eq!(*t.get_by_rank(3).unwrap(), 2);
}
