use insertion_set::Insertion;
use insertion_set::shift::BulkShifter;
use insertion_set::sorting::insertion_sort_by;
use insertion_set::sorting::insertion_sort_by_key;

#[test]
fn shifter_moves_a_run_and_splices_one_value() {
    let shifter = BulkShifter::new(vec![1, 4, 5, 7, 11], 1);
    let mut shifter = shifter;
    assert!(!shifter.is_finished());
    assert_eq!(shifter.len(), 5);
    assert_eq!(shifter.shifted_len(), 0);
    shifter.shift_original(4);
    assert_eq!(shifter.len(), 4);
    assert_eq!(shifter.shifted_len(), 1);
    shifter.push_shifted(9);
    assert!(shifter.is_finished());
    assert_eq!(shifter.finish(), vec![1, 4, 5, 7, 9, 11]);
}

#[test]
fn shifted_elements_come_out_in_final_order() {
    let mut shifter = BulkShifter::new(vec![1, 4, 5, 7, 11], 2);
    shifter.shift_original(3);
    shifter.push_shifted(6);
    assert_eq!(shifter.shifted_elements(), vec![6, 7, 11]);
    shifter.push_shifted(2);
    assert_eq!(shifter.shifted_elements(), vec![2, 6, 7, 11]);
    assert!(shifter.is_finished());
    assert_eq!(shifter.finish(), vec![1, 4, 5, 2, 6, 7, 11]);
}

#[test]
fn shifter_with_no_insertions_finishes_at_once() {
    let shifter: BulkShifter<u32> = BulkShifter::new(vec![2, 3], 0);
    assert!(shifter.is_finished());
    assert_eq!(shifter.finish(), vec![2, 3]);
}

#[test]
fn shifter_handles_runs_of_several_elements() {
    let mut shifter = BulkShifter::new(vec![10, 20, 30], 2);
    shifter.shift_original(1);
    assert_eq!(shifter.len(), 1);
    assert_eq!(shifter.shifted_len(), 2);
    shifter.push_shifted(15);
    shifter.shift_original(1);
    shifter.push_shifted(12);
    assert!(shifter.is_finished());
    assert_eq!(shifter.finish(), vec![10, 12, 15, 20, 30]);
}

fn indices<T>(batch: &[Insertion<T>]) -> Vec<usize> {
    batch.iter().map(|insertion| insertion.index).collect()
}

#[test]
fn sort_orders_by_index() {
    let mut batch = vec![
        Insertion::new(4, "d"),
        Insertion::new(0, "a"),
        Insertion::new(2, "c"),
        Insertion::new(1, "b"),
    ];
    insertion_sort_by(&mut batch);
    assert_eq!(indices(&batch), vec![0, 1, 2, 4]);
    assert_eq!(batch[0].element, "a");
    assert_eq!(batch[3].element, "d");
}

#[test]
fn sort_is_stable_for_equal_indices() {
    let mut batch = vec![
        Insertion::new(1, "first"),
        Insertion::new(0, "zero"),
        Insertion::new(1, "second"),
        Insertion::new(1, "third"),
    ];
    insertion_sort_by_key(&mut batch);
    assert_eq!(indices(&batch), vec![0, 1, 1, 1]);
    assert_eq!(batch[1].element, "first");
    assert_eq!(batch[2].element, "second");
    assert_eq!(batch[3].element, "third");
}

#[test]
fn sort_leaves_sorted_input_alone() {
    let mut batch = vec![Insertion::new(0, 5u8), Insertion::new(3, 6u8)];
    insertion_sort_by(&mut batch);
    assert_eq!(indices(&batch), vec![0, 3]);
    assert_eq!(batch[0].element, 5);
    assert_eq!(batch[1].element, 6);
}
