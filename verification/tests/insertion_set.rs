use insertion_set::Insertion;
use insertion_set::InsertionSet;
use insertion_set::OriginalLocation;
use insertion_set::apply_bulk_insertions;
use insertion_set::compute_updated_locations;

fn collect_set<T>(pairs: Vec<(usize, T)>) -> InsertionSet<T> {
    let mut set = InsertionSet::new();
    for (index, element) in pairs {
        set.insert(index, element);
    }
    set
}

#[test]
fn basic() {
    /*
     * For example, given the vector `[1, 4, 5, 7, 11]`
     * and the InsertionSet `[(0, 0), (1, 2), (1, 3) (4, 9)]`:
     */
    let vector = vec![1, 4, 5, 7, 11];
    let insertions: InsertionSet<u32> = collect_set(vec![(0, 0), (1, 2), (1, 3), (4, 9)]);
    assert_eq!(insertions.applied(vector), vec![0, 1, 2, 3, 4, 5, 7, 9, 11]);
}

#[test]
fn updated_locations() {
    /*
     * For example, given the vector `[1, 4, 5, 7, 11]`
     * and the InsertionSet `[(0, 0), (1, 2), (1, 3) (4, 9)]`:
     */
    let vector = vec![1, 4, 5, 7, 11];
    let mut insertions: InsertionSet<u32> = collect_set(vec![(0, 0), (1, 2), (1, 3), (4, 9)]);
    assert_eq!(
        insertions.list_updated_locations(&vector),
        vec![
            (OriginalLocation::Insertion(0), 0),
            (OriginalLocation::Original(0), 1),
            (OriginalLocation::Insertion(1), 2),
            (OriginalLocation::Insertion(2), 3),
            (OriginalLocation::Original(1), 4),
            (OriginalLocation::Original(2), 5),
            (OriginalLocation::Original(3), 6),
            (OriginalLocation::Insertion(3), 7),
            (OriginalLocation::Original(4), 8),
        ]
    );
}

#[test]
fn empty_updated_locations() {
    let vector = vec![1, 4, 5, 7, 11];
    assert_eq!(
        InsertionSet::<u32>::new().list_updated_locations(&vector),
        vec![
            (OriginalLocation::Original(0), 0),
            (OriginalLocation::Original(1), 1),
            (OriginalLocation::Original(2), 2),
            (OriginalLocation::Original(3), 3),
            (OriginalLocation::Original(4), 4),
        ]
    );
}

#[test]
fn unsorted_batch_is_sorted_before_applying() {
    // The queue is enqueued out of order; the apply pass must order it by
    // index first.
    let vector = vec![1, 2, 3];
    let insertions: InsertionSet<u32> = collect_set(vec![(3, 30), (1, 10)]);
    assert_eq!(insertions.applied(vector), vec![1, 10, 2, 3, 30]);
}

#[test]
fn equal_indices_stay_in_queue_order() {
    // Insertions sharing an index land in the order they were queued.
    let vector = vec![7];
    let insertions: InsertionSet<u32> = collect_set(vec![(0, 1), (0, 2), (0, 3)]);
    assert_eq!(insertions.applied(vector), vec![1, 2, 3, 7]);
}

#[test]
fn equal_indices_queued_out_of_order() {
    // A stable sort keeps the two insertions at index 0 in queue order
    // even when another index sits between them in the queue.
    let vector = vec![5, 6];
    let insertions: InsertionSet<u32> = collect_set(vec![(0, 1), (2, 9), (0, 2)]);
    assert_eq!(insertions.applied(vector), vec![1, 2, 5, 6, 9]);
}

#[test]
fn output_length_is_sum_of_inputs() {
    let vector = vec![10, 20];
    let insertions: InsertionSet<u32> = collect_set(vec![(2, 99), (0, 5)]);
    let merged = insertions.applied(vector);
    assert_eq!(merged.len(), 4);
    assert_eq!(merged, vec![5, 10, 20, 99]);
}

#[test]
fn empty_batch_returns_target_unchanged() {
    let vector = vec![4, 8, 15];
    let insertions: InsertionSet<u32> = InsertionSet::new();
    assert_eq!(insertions.applied(vector), vec![4, 8, 15]);
}

#[test]
fn empty_target_takes_whole_batch() {
    let vector: Vec<u32> = Vec::new();
    let insertions: InsertionSet<u32> = collect_set(vec![(0, 1), (0, 2)]);
    assert_eq!(insertions.applied(vector), vec![1, 2]);
}

#[test]
fn desired_insertions_counts_queue() {
    let mut insertions: InsertionSet<u32> = InsertionSet::new();
    assert_eq!(insertions.desired_insertions(), 0);
    insertions.push(Insertion::new(0, 42));
    insertions.insert(1, 43);
    assert_eq!(insertions.desired_insertions(), 2);
}

#[test]
fn default_set_is_empty() {
    let insertions: InsertionSet<u32> = Default::default();
    assert_eq!(insertions.desired_insertions(), 0);
}

#[test]
fn apply_drains_the_queue() {
    let mut vector = vec![1, 2];
    let mut insertions: InsertionSet<u32> = collect_set(vec![(1, 9)]);
    insertions.apply(&mut vector);
    assert_eq!(vector, vec![1, 9, 2]);
    assert_eq!(insertions.desired_insertions(), 0);
}

#[test]
fn bulk_insertions_consume_reverse_sorted_tail() {
    let mut vector = vec![1, 4, 5, 7, 11];
    let mut batch = vec![
        Insertion::new(0, 0),
        Insertion::new(1, 2),
        Insertion::new(1, 3),
        Insertion::new(4, 9),
    ];
    apply_bulk_insertions(&mut vector, &mut batch);
    assert_eq!(vector, vec![0, 1, 2, 3, 4, 5, 7, 9, 11]);
    assert!(batch.is_empty());
}

#[test]
fn raw_locations_come_in_processing_order() {
    // The standalone oracle takes the indices in reverse sorted order and
    // numbers insertions by consumption order, reporting each step's
    // moved run first.
    let target = vec![1, 4, 5, 7, 11];
    let insertions = vec![4, 1, 1, 0];
    let raw = compute_updated_locations(&target, &insertions);
    assert_eq!(
        raw,
        vec![
            (OriginalLocation::Original(4), 8),
            (OriginalLocation::Insertion(0), 7),
            (OriginalLocation::Original(1), 4),
            (OriginalLocation::Original(2), 5),
            (OriginalLocation::Original(3), 6),
            (OriginalLocation::Insertion(1), 3),
            (OriginalLocation::Insertion(2), 2),
            (OriginalLocation::Original(0), 1),
            (OriginalLocation::Insertion(3), 0),
        ]
    );
}

#[test]
fn raw_locations_of_empty_batch_are_identity() {
    let target = vec![3, 4];
    let insertions: Vec<usize> = Vec::new();
    assert_eq!(
        compute_updated_locations(&target, &insertions),
        vec![
            (OriginalLocation::Original(0), 0),
            (OriginalLocation::Original(1), 1),
        ]
    );
}

#[test]
fn original_order_is_preserved_in_the_map() {
    // Read by final position, the original elements keep their relative
    // order: their original indices come out strictly ascending.
    let vector = vec![100, 200, 300, 400];
    let mut insertions: InsertionSet<u32> = collect_set(vec![(2, 1), (0, 2), (4, 3)]);
    let locations = insertions.list_updated_locations(&vector);
    let mut last_original: Option<usize> = None;
    for (location, _updated) in locations {
        if let OriginalLocation::Original(i) = location {
            if let Some(previous) = last_original {
                assert!(previous < i);
            }
            last_original = Some(i);
        }
    }
    assert_eq!(last_original, Some(3));
}

#[test]
fn materialized_merge_agrees_with_location_map() {
    // Round trip: the element at final position p of the merge is the
    // one named by the location map's tag for p.
    let vector = vec![1, 4, 5, 7, 11];
    let queued = vec![(0, 0), (1, 2), (1, 3), (4, 9)];
    let merged = collect_set::<u32>(queued.clone()).applied(vector.clone());
    let mut oracle = collect_set::<u32>(queued.clone());
    let locations = oracle.list_updated_locations(&vector);
    assert_eq!(merged.len(), locations.len());
    // The sorted queue equals the enqueue order here, so insertion k of
    // the map is the k-th queued pair.
    for (position, (location, updated)) in locations.iter().enumerate() {
        assert_eq!(position, *updated);
        let expected = match location {
            OriginalLocation::Original(i) => vector[*i],
            OriginalLocation::Insertion(k) => queued[*k].1,
        };
        assert_eq!(merged[position], expected);
    }
}

#[test]
fn insertion_new_records_fields() {
    let insertion = Insertion::new(3, 77);
    assert_eq!(insertion.index, 3);
    assert_eq!(insertion.element, 77);
}

#[test]
fn insertion_from_pair() {
    let insertion = Insertion::from((2, "x"));
    assert_eq!(insertion.index, 2);
    assert_eq!(insertion.element, "x");
}
