use tiered_vector::ImplicitTierRingOffsets;

#[test]
fn cursors_wrap_around() {
    let mut r = ImplicitTierRingOffsets::default();
    assert!(r.is_empty());
    r.head_backward();
    assert_eq!(r.head(), usize::MAX);
    assert_eq!(r.len(), 1);
    assert_eq!(r.masked_head(4), 3);
    assert_eq!(r.masked_rank(1, 4), 0);
    assert!(!r.is_full(4));
    r.tail_forward();
    r.tail_forward();
    r.tail_forward();
    assert_eq!(r.len(), 4);
    assert!(r.is_full(4));
    assert_eq!(r.masked_tail(4), 3);
    r.head_forward();
    assert_eq!(r.head(), 0);
    assert_eq!(r.len(), 3);
    r.tail_backward();
    assert_eq!(r.tail(), 2);
}

#[test]
fn setters_move_one_cursor() {
    let mut r = ImplicitTierRingOffsets::new(5, 9);
    assert_eq!(r.len(), 4);
    r.set_head(8);
    assert_eq!(r.head(), 8);
    assert_eq!(r.tail(), 9);
    r.set_tail(12);
    assert_eq!(r.len(), 4);
    assert_eq!(r.masked_head(4), 0);
    assert_eq!(r.masked_tail(4), 0);
}
