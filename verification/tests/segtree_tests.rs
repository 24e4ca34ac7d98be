use segtree::monoid::{First, Monoid};
use segtree::segtree::{SegTreeError, SegmentTree};

fn naive_sum(vals: &[u64], lo: usize, hi: usize) -> u64 {
    let mut acc: u64 = 0;
    for k in lo..=hi {
        acc = acc.wrapping_add(vals[k]);
    }
    acc
}

fn naive_first(vals: &[First], lo: usize, hi: usize) -> First {
    let mut acc = First::Empty;
    for k in lo..=hi {
        acc = match acc {
            First::Empty => vals[k],
            First::Val(_) => acc,
        };
    }
    acc
}

#[test]
fn sum_scenario_size_seven() {
    // Sum operation, identity 0, size 7 (padded capacity 8).
    let mut t = SegmentTree::<u64>::new(7).unwrap();
    t.assign(3, 7).unwrap();
    t.assign(4, 1).unwrap();
    assert_eq!(t.range_sum(2, 6), Ok(8));
    assert_eq!(t.range_sum(0, 3), Ok(7));
    assert_eq!(t.range_sum(4, 5), Ok(1));
    assert_eq!(t.range_sum(5, 5), Ok(0));
    // Bounds are validated against the requested size, not the padded
    // capacity: position 7 is a padding slot and not addressable.
    assert_eq!(t.range_sum(2, 7), Err(SegTreeError::InvalidRange));
}

#[test]
fn sum_scenario_size_eight() {
    // The same assignments on a tree whose logical size is the full
    // capacity, where position 7 is addressable.
    let mut t = SegmentTree::<u64>::new(8).unwrap();
    t.assign(3, 7).unwrap();
    t.assign(4, 1).unwrap();
    assert_eq!(t.range_sum(2, 7), Ok(8));
    assert_eq!(t.range_sum(0, 3), Ok(7));
    assert_eq!(t.range_sum(4, 5), Ok(1));
    assert_eq!(t.range_sum(5, 5), Ok(0));
}

#[test]
fn fresh_tree_answers_identity() {
    let t = SegmentTree::<u64>::new(5).unwrap();
    assert_eq!(t.range_sum(0, 4), Ok(0));
    assert_eq!(t.range_sum(2, 3), Ok(0));
    let t1 = SegmentTree::<u64>::new(1).unwrap();
    assert_eq!(t1.range_sum(0, 0), Ok(0));
    let tf = SegmentTree::<First>::new(6).unwrap();
    assert_eq!(tf.range_sum(0, 5), Ok(First::Empty));
}

#[test]
fn single_point_query_returns_assigned_value() {
    let mut t = SegmentTree::<u64>::new(6).unwrap();
    t.assign(0, 11).unwrap();
    t.assign(5, 42).unwrap();
    t.assign(2, 9).unwrap();
    assert_eq!(t.range_sum(0, 0), Ok(11));
    assert_eq!(t.range_sum(2, 2), Ok(9));
    assert_eq!(t.range_sum(5, 5), Ok(42));
    // An untouched position still reads as the identity.
    assert_eq!(t.range_sum(3, 3), Ok(0));
    // Reassignment overwrites.
    t.assign(2, 1000).unwrap();
    assert_eq!(t.range_sum(2, 2), Ok(1000));
}

#[test]
fn full_range_agrees_with_left_fold() {
    let vals: [u64; 7] = [5, 0, 13, 7, 7, 2, 19];
    let mut t = SegmentTree::<u64>::new(7).unwrap();
    for (k, v) in vals.iter().enumerate() {
        t.assign(k, *v).unwrap();
    }
    assert_eq!(t.range_sum(0, 6), Ok(naive_sum(&vals, 0, 6)));
    assert_eq!(t.range_sum(0, 6), Ok(53));
}

#[test]
fn every_subrange_agrees_with_naive_fold() {
    let vals: [u64; 7] = [3, 1, 4, 1, 5, 9, 2];
    let mut t = SegmentTree::<u64>::new(7).unwrap();
    for (k, v) in vals.iter().enumerate() {
        t.assign(k, *v).unwrap();
    }
    for lo in 0..7 {
        for hi in lo..7 {
            assert_eq!(t.range_sum(lo, hi), Ok(naive_sum(&vals, lo, hi)));
        }
    }
}

#[test]
fn every_subrange_agrees_for_noncommutative_op() {
    let vals: [First; 7] = [
        First::Empty,
        First::Val(10),
        First::Empty,
        First::Val(30),
        First::Val(40),
        First::Empty,
        First::Val(60),
    ];
    let mut t = SegmentTree::<First>::new(7).unwrap();
    for (k, v) in vals.iter().enumerate() {
        t.assign(k, *v).unwrap();
    }
    for lo in 0..7 {
        for hi in lo..7 {
            assert_eq!(t.range_sum(lo, hi), Ok(naive_first(&vals, lo, hi)));
        }
    }
}

#[test]
fn left_to_right_order_through_partial_overlap() {
    // The leftmost-value operation is not commutative: combining the partial
    // results in the wrong order would surface the rightmost value instead.
    let mut t = SegmentTree::<First>::new(7).unwrap();
    t.assign(1, First::Val(10)).unwrap();
    t.assign(3, First::Val(30)).unwrap();
    t.assign(5, First::Val(50)).unwrap();
    // [1, 5] straddles the root split [0,3]/[4,6]: left side first.
    assert_eq!(t.range_sum(1, 5), Ok(First::Val(10)));
    // [2, 6] overlaps both halves partially; 3 sits left of 5.
    assert_eq!(t.range_sum(2, 6), Ok(First::Val(30)));
    // Entirely right of the assigned left values.
    assert_eq!(t.range_sum(4, 6), Ok(First::Val(50)));
    // A range with no recorded value folds to the identity.
    assert_eq!(t.range_sum(2, 2), Ok(First::Empty));
    assert_eq!(t.range_sum(6, 6), Ok(First::Empty));
}

#[test]
fn repeated_query_is_idempotent() {
    let mut t = SegmentTree::<u64>::new(4).unwrap();
    t.assign(0, 8).unwrap();
    t.assign(3, 2).unwrap();
    let a = t.range_sum(0, 3);
    let b = t.range_sum(0, 3);
    let c = t.range_sum(0, 3);
    assert_eq!(a, Ok(10));
    assert_eq!(a, b);
    assert_eq!(b, c);
}

#[test]
fn zero_size_construction_is_rejected() {
    match SegmentTree::<u64>::new(0) {
        Ok(_) => panic!("size zero must be rejected"),
        Err(e) => assert_eq!(e, SegTreeError::InvalidArgument),
    }
}

#[test]
fn out_of_range_assign_is_rejected_without_mutation() {
    let mut t = SegmentTree::<u64>::new(5).unwrap();
    t.assign(1, 6).unwrap();
    assert_eq!(t.assign(5, 99), Err(SegTreeError::IndexOutOfRange));
    assert_eq!(t.assign(usize::MAX / 8, 99), Err(SegTreeError::IndexOutOfRange));
    // The rejected calls left the tree untouched.
    assert_eq!(t.range_sum(0, 4), Ok(6));
}

#[test]
fn invalid_ranges_are_rejected() {
    let t = SegmentTree::<u64>::new(5).unwrap();
    assert_eq!(t.range_sum(3, 2), Err(SegTreeError::InvalidRange));
    assert_eq!(t.range_sum(0, 5), Err(SegTreeError::InvalidRange));
    assert_eq!(t.range_sum(5, 5), Err(SegTreeError::InvalidRange));
    assert_eq!(t.range_sum(4, 4), Ok(0));
}

#[test]
fn sum_wraps_modulo_two_to_the_sixty_four() {
    let mut t = SegmentTree::<u64>::new(2).unwrap();
    t.assign(0, u64::MAX).unwrap();
    t.assign(1, 2).unwrap();
    assert_eq!(t.range_sum(0, 1), Ok(1));
    assert_eq!(t.range_sum(0, 0), Ok(u64::MAX));
}

#[test]
fn monoid_operations_match_their_laws() {
    assert_eq!(<u64 as Monoid>::op(3, 4), 7);
    assert_eq!(<u64 as Monoid>::op(u64::MAX, 1), 0);
    assert_eq!(<u64 as Monoid>::id(), 0);
    assert_eq!(
        <First as Monoid>::op(First::Val(1), First::Val(2)),
        First::Val(1)
    );
    assert_eq!(<First as Monoid>::op(First::Empty, First::Val(2)), First::Val(2));
    assert_eq!(<First as Monoid>::id(), First::Empty);
}
