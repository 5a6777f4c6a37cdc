use fiskar::range::{range_add, range_intersection, range_remove, range_subtract, ByteRange};

fn br(start: usize, end: usize) -> ByteRange {
    ByteRange { start, end }
}

#[test]
fn test_range_intersection() {
    // Emptiness
    assert_eq!(range_intersection(br(0, 0), br(0, 0)), None);
    assert_eq!(range_intersection(br(0, 0), br(1, 5)), None);
    assert_eq!(range_intersection(br(1, 1), br(0, 5)), None);
    assert_eq!(range_intersection(br(6, 44), br(44, 6)), None);
    assert_eq!(
        range_intersection(br(usize::MAX, usize::MAX), br(0, usize::MAX)),
        None
    );
    // Simple equivalency
    assert_eq!(range_intersection(br(0, 1), br(0, 1)), Some(br(0, 1)));
    assert_eq!(range_intersection(br(5, 9), br(5, 9)), Some(br(5, 9)));
    assert_eq!(
        range_intersection(br(9999, 10000), br(9999, 10000)),
        Some(br(9999, 10000))
    );
    assert_eq!(
        range_intersection(br(0, usize::MAX), br(0, usize::MAX)),
        Some(br(0, usize::MAX))
    );

    //  Sub slices
    assert_eq!(range_intersection(br(0, 10), br(0, 5)), Some(br(0, 5)));
    assert_eq!(range_intersection(br(0, 5), br(0, 10)), Some(br(0, 5)));
    assert_eq!(range_intersection(br(0, 2), br(0, 1)), Some(br(0, 1)));
    assert_eq!(range_intersection(br(0, 1), br(0, 2)), Some(br(0, 1)));
    assert_eq!(range_intersection(br(0, 50), br(0, 49)), Some(br(0, 49)));
    assert_eq!(range_intersection(br(5, 10), br(4, 8)), Some(br(5, 8)));
    assert_eq!(range_intersection(br(59, 90), br(20, 52)), None);
    assert_eq!(range_intersection(br(59, 90), br(20, 59)), None);
    assert_eq!(range_intersection(br(59, 90), br(20, 60)), Some(br(59, 60)));
}

#[test]
fn test_range_removal() {
    let empty: (Option<ByteRange>, Option<ByteRange>) = (None, None);
    // Empty
    assert_eq!(range_remove(br(0, 0), br(0, 0)), empty);
    assert_eq!(range_remove(br(0, 0), br(1, 0)), empty);
    assert_eq!(range_remove(br(0, 5), br(0, 5)), empty);
    assert_eq!(range_remove(br(0, 1), br(0, 1)), empty);
    assert_eq!(range_remove(br(0, usize::MAX), br(0, usize::MAX)), empty);
    // Left Keep
    assert_eq!(range_remove(br(0, 5), br(4, 5)), (Some(br(0, 4)), None));
    assert_eq!(range_remove(br(0, 5), br(3, 5)), (Some(br(0, 3)), None));
    assert_eq!(range_remove(br(0, 5), br(2, 5)), (Some(br(0, 2)), None));
    assert_eq!(range_remove(br(0, 5), br(1, 5)), (Some(br(0, 1)), None));
    // Miss
    assert_eq!(range_remove(br(9, 14), br(0, 9)), (Some(br(9, 14)), None));
    assert_eq!(range_remove(br(9, 14), br(0, 3)), (Some(br(9, 14)), None));
    assert_eq!(range_remove(br(9, 14), br(14, 52)), (Some(br(9, 14)), None));
    // Right Keep
    assert_eq!(range_remove(br(0, 5), br(0, 4)), (None, Some(br(4, 5))));
    assert_eq!(range_remove(br(0, 5), br(0, 3)), (None, Some(br(3, 5))));
    assert_eq!(range_remove(br(0, 5), br(0, 2)), (None, Some(br(2, 5))));
    assert_eq!(range_remove(br(0, 5), br(0, 1)), (None, Some(br(1, 5))));
    // Both Keep
    assert_eq!(
        range_remove(br(0, 10), br(1, 9)),
        (Some(br(0, 1)), Some(br(9, 10)))
    );
    assert_eq!(
        range_remove(br(0, 10), br(1, 8)),
        (Some(br(0, 1)), Some(br(8, 10)))
    );
    assert_eq!(
        range_remove(br(0, 10), br(1, 2)),
        (Some(br(0, 1)), Some(br(2, 10)))
    );
    assert_eq!(
        range_remove(br(0, 10), br(6, 9)),
        (Some(br(0, 6)), Some(br(9, 10)))
    );
}

#[test]
fn range_shifts() {
    assert_eq!(range_add(br(2, 5), 3), br(5, 8));
    assert_eq!(range_subtract(br(5, 8), 3), br(2, 5));
    assert_eq!(range_add(br(0, 0), 0), br(0, 0));
}

#[test]
fn intersection_is_symmetric_and_idempotent() {
    // concrete instances of the intersection laws
    assert_eq!(
        range_intersection(br(3, 9), br(5, 20)),
        range_intersection(br(5, 20), br(3, 9))
    );
    assert_eq!(range_intersection(br(7, 12), br(7, 12)), Some(br(7, 12)));
    // touching ranges never intersect
    assert_eq!(range_intersection(br(0, 4), br(4, 7)), None);
}

#[test]
fn removal_reconstructs_range() {
    // the remainders plus the intersection tile the original range
    let (left, right) = range_remove(br(2, 10), br(4, 6));
    let inter = range_intersection(br(2, 10), br(4, 6));
    assert_eq!(left, Some(br(2, 4)));
    assert_eq!(inter, Some(br(4, 6)));
    assert_eq!(right, Some(br(6, 10)));
}
