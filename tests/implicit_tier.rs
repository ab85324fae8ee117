use tiered_vector::{ImplicitTier, ImplicitTierRingOffsets};

fn prepare_slice(len: usize) -> Vec<Option<usize>> {
    let mut v = Vec::with_capacity(len);
    for _ in 0..len {
        v.push(None);
    }
    v
}

fn prepare_ring_offsets() -> ImplicitTierRingOffsets {
    ImplicitTierRingOffsets::default()
}

#[test]
fn insert_shift_tail() {
    let mut s = prepare_slice(4);
    let mut ring_offsets = prepare_ring_offsets();

    // [0, 1, 2, n]
    ImplicitTier::push_back(&mut s, &mut ring_offsets, 0);
    ImplicitTier::push_back(&mut s, &mut ring_offsets, 1);
    ImplicitTier::push_back(&mut s, &mut ring_offsets, 2);

    // [0, 1, 3, 2]
    ImplicitTier::insert(&mut s, &mut ring_offsets, 2, 3);
    assert_eq!(*ImplicitTier::get(&s, &ring_offsets, 0).unwrap(), 0);
    assert_eq!(*ImplicitTier::get(&s, &ring_offsets, 1).unwrap(), 1);
    assert_eq!(*ImplicitTier::get(&s, &ring_offsets, 2).unwrap(), 3);
    assert_eq!(*ImplicitTier::get(&s, &ring_offsets, 3).unwrap(), 2);
}

#[test]
fn remove_1() {
    let mut s = prepare_slice(4);
    let mut ring_offsets = prepare_ring_offsets();

    // [0, 1, 2, 3]
    ImplicitTier::push_back(&mut s, &mut ring_offsets, 0);
    ImplicitTier::push_back(&mut s, &mut ring_offsets, 1);
    ImplicitTier::push_back(&mut s, &mut ring_offsets, 2);
    ImplicitTier::push_back(&mut s, &mut ring_offsets, 3);
    assert_eq!(ring_offsets.masked_head(ImplicitTier::capacity(&s,)), 0);
    assert_eq!(ring_offsets.masked_tail(ImplicitTier::capacity(&s,)), 0);

    // [0, 2, 3, _]
    ImplicitTier::remove(&mut s, &mut ring_offsets, 1);
    assert_eq!(ring_offsets.masked_head(ImplicitTier::capacity(&s)), 0);
    assert_eq!(ring_offsets.masked_tail(ImplicitTier::capacity(&s)), 3);
    assert_eq!(*ImplicitTier::get(&s, &ring_offsets, 0).unwrap(), 0);
    assert_eq!(*ImplicitTier::get(&s, &ring_offsets, 1).unwrap(), 2);
    assert_eq!(*ImplicitTier::get(&s, &ring_offsets, 2).unwrap(), 3);
    assert!(ImplicitTier::get(&s, &ring_offsets, 3).is_none());
}

#[test]
fn remove_2() {
    let mut s = prepare_slice(4);
    let mut ring_offsets = prepare_ring_offsets();

    // [0, 1, 2, 3]
    ImplicitTier::push_back(&mut s, &mut ring_offsets, 0);
    ImplicitTier::push_back(&mut s, &mut ring_offsets, 1);
    ImplicitTier::push_back(&mut s, &mut ring_offsets, 2);
    ImplicitTier::push_back(&mut s, &mut ring_offsets, 3);
    assert_eq!(ring_offsets.masked_head(ImplicitTier::capacity(&s)), 0);
    assert_eq!(ring_offsets.masked_tail(ImplicitTier::capacity(&s)), 0);

    // [_, 1, 2, 3]
    ImplicitTier::remove(&mut s, &mut ring_offsets, 0);
    assert_eq!(ring_offsets.masked_head(ImplicitTier::capacity(&s)), 1);
    assert_eq!(ring_offsets.masked_tail(ImplicitTier::capacity(&s)), 0);
    assert!(ImplicitTier::get(&s, &ring_offsets, 0).is_none());
    assert_eq!(*ImplicitTier::get(&s, &ring_offsets, 1).unwrap(), 1);
    assert_eq!(*ImplicitTier::get(&s, &ring_offsets, 2).unwrap(), 2);
    assert_eq!(*ImplicitTier::get(&s, &ring_offsets, 3).unwrap(), 3);
}

#[test]
fn insert_shift_head() {
    let mut s = prepare_slice(4);
    let mut ring_offsets = prepare_ring_offsets();

    // [0, 1, 2, n]
    ImplicitTier::push_back(&mut s, &mut ring_offsets, 0);
    ImplicitTier::push_back(&mut s, &mut ring_offsets, 1);
    ImplicitTier::push_back(&mut s, &mut ring_offsets, 2);

    // rank 1 is nearer the head: [3, 1, 2, 0], ranks 0, 3, 1, 2
    ImplicitTier::insert(&mut s, &mut ring_offsets, 1, 3);
    assert_eq!(*ImplicitTier::get(&s, &ring_offsets, 0).unwrap(), 3);
    assert_eq!(*ImplicitTier::get(&s, &ring_offsets, 1).unwrap(), 1);
    assert_eq!(*ImplicitTier::get(&s, &ring_offsets, 2).unwrap(), 2);
    assert_eq!(*ImplicitTier::get(&s, &ring_offsets, 3).unwrap(), 0);
    assert_eq!(ring_offsets.masked_head(ImplicitTier::capacity(&s)), 3);
    assert_eq!(*ImplicitTier::get_by_rank(&s, &ring_offsets, 1).unwrap(), 3);
}

#[test]
fn get_mut_by_rank_writes_lent_storage() {
    let mut s = prepare_slice(4);
    let mut ring_offsets = prepare_ring_offsets();
    ImplicitTier::push_front(&mut s, &mut ring_offsets, 1);
    ImplicitTier::push_front(&mut s, &mut ring_offsets, 0);
    *ImplicitTier::get_mut_by_rank(&mut s, &ring_offsets, 1).unwrap() = 10;
    assert!(ImplicitTier::get_mut_by_rank(&mut s, &ring_offsets, 2).is_none());
    assert_eq!(*ImplicitTier::get_by_rank(&s, &ring_offsets, 0).unwrap(), 0);
    assert_eq!(*ImplicitTier::get_by_rank(&s, &ring_offsets, 1).unwrap(), 10);
}
