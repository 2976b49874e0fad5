use document_id_store::gaps::GapScan;
use document_id_store::DocumentId;

fn allocate(keys: &[u64], count: usize) -> Option<Vec<u64>> {
    let mut scan = GapScan::new(count);
    for key in keys {
        scan.visit(DocumentId(*key));
    }
    scan.finish().map(|ids| ids.into_iter().map(|id| id.0).collect())
}

#[test]
fn a_gap_that_suffices_is_filled_and_nothing_is_appended() {
    assert_eq!(allocate(&[0, 1, 5], 3), Some(vec![2, 3, 4]));
}

#[test]
fn a_gap_that_does_not_suffice_is_filled_before_ids_are_appended() {
    assert_eq!(allocate(&[0, 2], 3), Some(vec![1, 3, 4]));
}

#[test]
fn without_keys_the_ids_start_at_zero() {
    assert_eq!(allocate(&[], 2), Some(vec![0, 1]));
}

#[test]
fn no_id_is_chosen_when_none_is_wanted() {
    assert_eq!(allocate(&[], 0), Some(vec![]));
    assert_eq!(allocate(&[0, 5, 9], 0), Some(vec![]));
    assert_eq!(allocate(&[u64::MAX], 0), Some(vec![]));
}

#[test]
fn a_gap_is_left_as_soon_as_enough_ids_are_found() {
    assert_eq!(allocate(&[0, 10], 4), Some(vec![1, 2, 3, 4]));
    assert_eq!(allocate(&[0, 10, 20], 1), Some(vec![1]));
}

#[test]
fn several_gaps_are_filled_in_ascending_order() {
    assert_eq!(allocate(&[1, 3, 4, 7, 9], 5), Some(vec![2, 5, 6, 8, 10]));
    assert_eq!(allocate(&[1, 3, 4, 7, 9], 4), Some(vec![2, 5, 6, 8]));
    assert_eq!(allocate(&[1, 3, 4, 7, 9], 7), Some(vec![2, 5, 6, 8, 10, 11, 12]));
}

#[test]
fn ids_below_the_smallest_key_are_not_chosen() {
    assert_eq!(allocate(&[5], 2), Some(vec![6, 7]));
    assert_eq!(allocate(&[3, 6], 4), Some(vec![4, 5, 7, 8]));
}

#[test]
fn consecutive_keys_leave_no_gap() {
    assert_eq!(allocate(&[0, 1, 2, 3], 2), Some(vec![4, 5]));
}

#[test]
fn the_largest_id_can_be_chosen() {
    assert_eq!(allocate(&[u64::MAX - 1], 1), Some(vec![u64::MAX]));
    assert_eq!(allocate(&[u64::MAX - 3], 3), Some(vec![u64::MAX - 2, u64::MAX - 1, u64::MAX]));
    assert_eq!(allocate(&[u64::MAX - 2, u64::MAX], 1), Some(vec![u64::MAX - 1]));
}

#[test]
fn the_ids_are_exhausted_when_too_few_follow_the_smallest_key() {
    assert_eq!(allocate(&[u64::MAX], 1), None);
    assert_eq!(allocate(&[u64::MAX - 1], 2), None);
    assert_eq!(allocate(&[u64::MAX - 3], 4), None);
    assert_eq!(allocate(&[u64::MAX - 2, u64::MAX], 2), None);
    assert_eq!(allocate(&[u64::MAX - 1, u64::MAX], 1), None);
}

#[test]
fn the_ids_chosen_are_as_many_as_wanted_ascending_and_unused() {
    let keys = [2u64, 3, 8, 13, 14, 15, 21, 40];
    for count in 0..60usize {
        let ids = allocate(&keys, count).unwrap();
        assert_eq!(ids.len(), count);
        assert!(ids.windows(2).all(|pair| pair[0] < pair[1]));
        assert!(ids.iter().all(|id| !keys.contains(id)));
        assert!(ids.iter().all(|id| *id > 2));
        if let Some(last) = ids.last() {
            for id in 3..*last {
                assert!(keys.contains(&id) || ids.contains(&id));
            }
        }
    }
}
