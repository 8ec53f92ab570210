use hybit::mask::DofMask;
use hybit::HybitError;

#[test]
fn mask_round_trip() {
    let mask = DofMask::from_indices(130, &[0, 1, 63, 64, 129]).unwrap();
    assert_eq!(mask.count_ones(), 5);
    assert_eq!(mask.indices(), vec![0, 1, 63, 64, 129]);
}

#[test]
fn new_mask_is_all_clear_with_rounded_up_words() {
    let mask = DofMask::new(65);
    assert_eq!(mask.len(), 65);
    assert!(mask.is_empty());
    assert_eq!(mask.words().len(), 2);
    assert_eq!(mask.count_ones(), 0);
    assert!(mask.indices().is_empty());
    assert!(DofMask::new(0).is_empty());
    assert_eq!(DofMask::new(0).words().len(), 0);
}

#[test]
fn set_then_contains_reads_back_the_written_bit() {
    let mut mask = DofMask::new(70);
    mask.set(3, true).unwrap();
    mask.set(69, true).unwrap();
    assert!(mask.contains(3));
    assert!(mask.contains(69));
    assert!(!mask.contains(4));
    mask.set(3, false).unwrap();
    assert!(!mask.contains(3));
    assert_eq!(mask.words()[1], 1u64 << 5);
    assert!(!mask.contains(1000));
    assert!(!mask.is_empty());
}

#[test]
fn out_of_range_bits_are_refused() {
    let mut mask = DofMask::new(10);
    assert!(matches!(mask.set(10, true), Err(HybitError::InvalidArgument(_))));
    assert!(matches!(
        DofMask::from_indices(10, &[2, 10]),
        Err(HybitError::InvalidArgument(_))
    ));
}

#[test]
fn union_and_intersection_follow_set_algebra() {
    let mut a = DofMask::from_indices(100, &[1, 2, 70]).unwrap();
    let b = DofMask::from_indices(100, &[2, 3, 99]).unwrap();
    assert!(a.intersects(&b).unwrap());
    let mut c = a.clone();
    c.intersect_assign(&b).unwrap();
    assert_eq!(c.indices(), vec![2]);
    a.union_assign(&b).unwrap();
    assert_eq!(a.indices(), vec![1, 2, 3, 70, 99]);
    let d = DofMask::from_indices(100, &[50]).unwrap();
    assert!(!d.intersects(&b).unwrap());
}

#[test]
fn masks_of_different_lengths_are_refused() {
    let mut a = DofMask::new(10);
    let b = DofMask::new(11);
    assert_eq!(
        a.union_assign(&b),
        Err(HybitError::DimensionMismatch { expected: 10, actual: 11 })
    );
    assert_eq!(
        a.intersect_assign(&b),
        Err(HybitError::DimensionMismatch { expected: 10, actual: 11 })
    );
    assert_eq!(
        a.intersects(&b),
        Err(HybitError::DimensionMismatch { expected: 10, actual: 11 })
    );
}

#[test]
fn count_ones_equals_number_of_indices() {
    let mask = DofMask::from_indices(200, &[5, 5, 64, 128, 199, 0]).unwrap();
    assert_eq!(mask.count_ones(), mask.indices().len());
    assert_eq!(mask.count_ones(), 5);
}
