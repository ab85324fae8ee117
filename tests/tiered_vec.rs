use tiered_vector::{LinkedTieredVec, TieredVec, TieredVectorError};

#[test]
fn tiered_vec_no_error_on_correct_size() {
    let size = 4;
    let t: LinkedTieredVec<usize> = LinkedTieredVec::new(size);
    assert_eq!(t.len(), 0);
    assert_eq!(t.capacity(), size * size);
    assert_eq!(t.tier_capacity(), size);
    assert!(t.is_empty());
    assert!(!t.is_full());
}

#[test]
fn tiered_vec_with_minimum_capacity() {
    let mut t: LinkedTieredVec<usize> = LinkedTieredVec::with_capacity(4);
    assert_eq!(4, t.capacity());
    assert_eq!(2, t.tier_capacity());

    t = LinkedTieredVec::with_capacity(8);
    assert_eq!(16, t.capacity());
    assert_eq!(4, t.tier_capacity());

    t = LinkedTieredVec::with_capacity(128);
    assert_eq!(256, t.capacity());
    assert_eq!(16, t.tier_capacity());
}

#[test]
fn tiered_vec_insert() {
    let size = 4;
    let mut t: LinkedTieredVec<usize> = LinkedTieredVec::new(size);
    assert_eq!(t.tier_capacity(), size);

    for i in 0..size {
        t.insert(i, i * 2);
        assert_eq!(t.len(), i + 1);
    }

    for i in 0..size {
        let result = t.get(i);
        assert!(result.is_some());
        assert_eq!(*result.unwrap(), i * 2);
    }

    assert_eq!(t.len(), size);
    assert!(!t.is_empty());
    assert!(!t.is_full());
}

#[test]
fn tiered_vec_expand() {
    let size = 4;
    let mut t: LinkedTieredVec<usize> = LinkedTieredVec::new(size);

    for i in 0..size * size {
        t.insert(i, i);
        assert_eq!(*t.get(i).unwrap(), i);
    }
    assert_eq!(t.tier_capacity(), size);
    assert_eq!(t.len(), size * size);
    assert!(t.is_full());

    t.insert(size * size, size * size);
    assert_eq!(t.tier_capacity(), size * 2);
    assert_eq!(t.len(), (size * size) + 1);
    assert!(!t.is_full());

    for i in 0..((size * size) + 1) {
        let result = t.get(i);
        assert!(result.is_some());
        assert_eq!(*result.unwrap(), i);
        assert_eq!(*t.get(i).unwrap(), i);
    }
}

#[test]
fn expand_2() {
    let size = 4;
    let mut t: LinkedTieredVec<usize> = LinkedTieredVec::new(size);

    for i in 0..1_000 {
        t.insert(0, i);
        assert_eq!(*t.get(0).unwrap(), i);

        for j in 1..t.len() {
            assert_eq!(*t.get(j).unwrap(), i - j);
        }
    }
}

#[test]
fn remove() {
    let size = 16;
    let mut t: LinkedTieredVec<usize> = LinkedTieredVec::new(size);
    assert_eq!(t.capacity(), size * size);

    for i in 0..size * size / 8 {
        t.insert(i, i);
        assert_eq!(*t.get(i).unwrap(), i);
    }
    assert_eq!(t.tier_capacity(), size);
    assert_eq!(t.len(), size * size / 8);
    assert_eq!(t.capacity(), size * size);

    t.remove(0);

    assert_eq!(*t.get(0).unwrap(), 1);
    assert_eq!(t.len(), (size * size / 8) - 1);

    t.remove(0);
    assert_eq!(*t.get(0).unwrap(), 2);
    assert_eq!(t.len(), (size * size / 8) - 2);
}

#[test]
fn remove_and_contract() {
    let size = 8;
    let mut t: TieredVec<usize> = TieredVec::new(size);

    for i in 0..size * size {
        assert!(t.insert(i, i * 2).is_ok());
    }
    assert_eq!(t.tier_capacity(), size);
    assert_eq!(t.len(), size * size);
    assert!(t.is_full());

    for i in (size * size / 8..t.len()).rev() {
        assert!(t.remove(i).is_ok());
        assert_eq!(t.len(), i);
    }
    assert_eq!(t.tier_capacity(), size);
    assert_eq!(t.len(), size * size / 8);
    assert_eq!(t.capacity(), size * size);

    assert!(t.remove(0).is_ok());

    assert_eq!(*t.get_by_rank(0).unwrap(), 2);
    assert_eq!(t.len(), (size * size / 8) - 1);
    assert_eq!(t.capacity(), size * size / 8 * 2);
}

#[test]
fn tiered_vec_contract() {
    let mut t: TieredVec<usize> = TieredVec::new(16);
    for i in 0..32 {
        assert!(t.insert(i, i).is_ok());
    }
    assert_eq!(t.capacity(), 256);
    assert!(t.remove(31).is_ok());
    assert_eq!(t.tier_capacity(), 8);
    assert_eq!(t.capacity(), 64);
    assert_eq!(t.len(), 31);
}

#[test]
fn scenario_fill_and_saturate() {
    let mut t: TieredVec<usize> = TieredVec::new(4);
    assert_eq!(t.capacity(), 16);
    for i in 0..16 {
        assert_eq!(t.insert(t.len(), i).ok(), Some(i));
    }
    for i in 0..16 {
        assert_eq!(*t.get_by_rank(i).unwrap(), i);
    }
    assert!(t.is_full());
}

#[test]
fn scenario_expand() {
    let mut t: TieredVec<usize> = TieredVec::new(4);
    for i in 0..16 {
        assert!(t.insert(i, i).is_ok());
    }
    assert!(t.insert(16, 16).is_ok());
    assert_eq!(t.tier_capacity(), 8);
    assert_eq!(t.capacity(), 64);
    assert_eq!(t.len(), 17);
    assert!(!t.is_full());
    for i in 0..17 {
        assert_eq!(*t.get_by_rank(i).unwrap(), i);
    }
}

#[test]
fn scenario_insert_at_front() {
    let mut t: TieredVec<usize> = TieredVec::new(4);
    assert!(t.insert(0, 0).is_ok());
    assert!(t.insert(0, 1).is_ok());
    assert!(t.insert(0, 2).is_ok());
    assert_eq!(*t.get_by_rank(0).unwrap(), 2);
    assert_eq!(*t.get_by_rank(1).unwrap(), 1);
    assert_eq!(*t.get_by_rank(2).unwrap(), 0);
}

#[test]
fn scenario_middle_remove() {
    let mut t: TieredVec<usize> = TieredVec::new(2);
    assert_eq!(t.capacity(), 4);
    for i in 0..4 {
        assert!(t.insert(i, i).is_ok());
    }
    assert_eq!(t.remove(1).ok(), Some(1));
    assert_eq!(t.len(), 3);
    assert_eq!(*t.get_by_rank(0).unwrap(), 0);
    assert_eq!(*t.get_by_rank(1).unwrap(), 2);
    assert_eq!(*t.get_by_rank(2).unwrap(), 3);
}

#[test]
fn scenario_contract_keeps_order() {
    let mut t: TieredVec<usize> = TieredVec::new(16);
    assert_eq!(t.capacity(), 256);
    for i in 0..32 {
        assert!(t.insert(i, i).is_ok());
    }
    assert_eq!(t.len(), 32);
    assert_eq!(t.remove(0).ok(), Some(0));
    assert_eq!(t.len(), 31);
    assert_eq!(t.tier_capacity(), 8);
    assert_eq!(t.capacity(), 64);
    for i in 0..31 {
        assert_eq!(*t.get_by_rank(i).unwrap(), i + 1);
    }
}

#[test]
fn insert_past_end_hands_element_back() {
    let mut t: TieredVec<usize> = TieredVec::new(2);
    assert!(t.insert(0, 10).is_ok());
    match t.insert(2, 7) {
        Err(TieredVectorError::TieredVectorOutofBoundsInsertionError(rank, elem)) => {
            assert_eq!(rank, 2);
            assert_eq!(elem, 7);
        }
        _ => panic!("expected an out-of-bounds insertion error"),
    }
    assert_eq!(t.len(), 1);
}

#[test]
fn remove_from_empty_is_refused() {
    let mut t: TieredVec<usize> = TieredVec::new(2);
    assert!(matches!(t.remove(0), Err(TieredVectorError::TieredVectorEmptyError)));
    assert!(matches!(t.remove(3), Err(TieredVectorError::TieredVectorEmptyError)));
}

#[test]
fn remove_past_end_is_refused() {
    let mut t: TieredVec<usize> = TieredVec::new(2);
    assert!(t.insert(0, 5).is_ok());
    assert!(matches!(t.remove(1), Err(TieredVectorError::TieredVectorRankOutOfBoundsError(1))));
    assert_eq!(t.len(), 1);
    assert_eq!(*t.get_by_rank(0).unwrap(), 5);
    assert!(t.get_by_rank(1).is_none());
}

#[test]
fn with_minimum_capacity_rounds_up() {
    let t: TieredVec<u8> = TieredVec::with_minimum_capacity(4);
    assert_eq!(t.tier_capacity(), 2);
    let t: TieredVec<u8> = TieredVec::with_minimum_capacity(17);
    assert_eq!(t.tier_capacity(), 8);
    assert_eq!(t.capacity(), 64);
    let t: TieredVec<u8> = TieredVec::with_minimum_capacity(64);
    assert_eq!(t.tier_capacity(), 8);
    let t: TieredVec<u8> = TieredVec::with_minimum_capacity(65);
    assert_eq!(t.tier_capacity(), 16);
}

#[test]
fn capacity_is_square_of_tier_capacity() {
    let mut t: TieredVec<usize> = TieredVec::new(2);
    for i in 0..100 {
        assert!(t.insert(i / 2, i).is_ok());
        let tc = t.tier_capacity();
        assert!(tc.is_power_of_two() && tc >= 2);
        assert_eq!(t.capacity(), tc * tc);
        assert!(t.len() <= t.capacity());
    }
}

#[test]
fn matches_reference_list_and_counts() {
    let mut t: TieredVec<usize> = TieredVec::new(2);
    let mut reference: Vec<usize> = Vec::new();
    let mut inserted = 0usize;
    let mut removed = 0usize;
    let mut seed: usize = 7;
    for step in 0..600 {
        seed = (seed * 1103 + 12345) % 65_521;
        if step % 3 == 2 && !reference.is_empty() {
            let rank = seed % reference.len();
            assert_eq!(t.remove(rank).ok(), Some(reference.remove(rank)));
            removed += 1;
        } else {
            let rank = seed % (reference.len() + 1);
            assert_eq!(t.insert(rank, step).ok(), Some(rank));
            reference.insert(rank, step);
            inserted += 1;
        }
        assert_eq!(t.len(), inserted - removed);
    }
    for (i, v) in reference.iter().enumerate() {
        assert_eq!(t.get_by_rank(i), Some(v));
    }
    while !reference.is_empty() {
        assert_eq!(t.remove(0).ok(), Some(reference.remove(0)));
    }
    assert!(t.is_empty());
    assert_eq!(t.tier_capacity(), 2);
}

#[test]
fn no_error_on_correct_size() {
    let size = 4;
    let t: TieredVec<usize> = TieredVec::new(size);
    assert_eq!(t.len(), 0);
    assert_eq!(t.capacity(), size * size);
    assert_eq!(t.tier_capacity(), size);
    assert!(t.is_empty());
    assert!(!t.is_full());
}

#[test]
fn insert() {
    let size = 4;
    let mut t: TieredVec<usize> = TieredVec::new(size);
    assert_eq!(t.tier_capacity(), size);

    for i in 0..size {
        assert!(t.insert(i, i * 2).is_ok());
        assert_eq!(t.len(), i + 1);
    }

    for i in 0..size {
        let result = t.get_by_rank(i);
        assert!(result.is_some());
        assert_eq!(*result.unwrap(), i * 2);
    }

    assert_eq!(t.len(), size);
    assert!(!t.is_empty());
    assert!(!t.is_full());
}

#[test]
fn expand() {
    let size = 4;
    let mut t: TieredVec<usize> = TieredVec::new(size);

    for i in 0..size * size {
        assert!(t.insert(i, i * 2).is_ok());
    }
    assert_eq!(t.tier_capacity(), size);
    assert_eq!(t.len(), size * size);
    assert!(t.is_full());

    assert!(t.insert(size * size, (size * size) * 2).is_ok());
    assert_eq!(t.tier_capacity(), size * 2);
    assert_eq!(t.len(), (size * size) + 1);
    assert!(!t.is_full());

    for i in 0..((size * size) + 1) {
        let result = t.get_by_rank(i);
        assert!(result.is_some());
        assert_eq!(*result.unwrap(), i * 2);
    }
}

#[test]
fn with_capacity() {
    let mut t: LinkedTieredVec<usize> = LinkedTieredVec::with_capacity(4);
    assert_eq!(4, t.capacity());
    assert_eq!(2, t.tier_capacity());

    t = LinkedTieredVec::with_capacity(8);
    assert_eq!(16, t.capacity());
    assert_eq!(4, t.tier_capacity());

    t = LinkedTieredVec::with_capacity(128);
    assert_eq!(256, t.capacity());
    assert_eq!(16, t.tier_capacity());
}

#[test]
fn contract() {
    let mut t: LinkedTieredVec<usize> = LinkedTieredVec::new(4);
    for i in 0..3 {
        t.push(i);
    }
    t.pop();
    assert_eq!(t.tier_capacity(), 4);
    assert_eq!(t.remove(0), 0);
    assert_eq!(t.tier_capacity(), 2);
    assert_eq!(t.capacity(), 4);
    assert_eq!(*t.get(0).unwrap(), 1);
    assert_eq!(t.len(), 1);
}

#[test]
fn get_mut_writes_in_place() {
    let mut t: TieredVec<usize> = TieredVec::new(2);
    for i in 0..6 {
        assert!(t.insert(i, i).is_ok());
    }
    *t.get_mut_by_rank(4).unwrap() = 40;
    assert!(t.get_mut_by_rank(6).is_none());
    assert_eq!(*t.get_by_rank(4).unwrap(), 40);
    assert_eq!(*t.get_by_rank(3).unwrap(), 3);

    let mut l: LinkedTieredVec<usize> = LinkedTieredVec::new(2);
    l.push(1);
    l.push(2);
    *l.get_mut(1).unwrap() += 5;
    assert_eq!(*l.get(1).unwrap(), 7);
    assert!(l.get_mut(2).is_none());
    assert_eq!(l.pop(), 7);
}
