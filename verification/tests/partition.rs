use weighted_median::{
    partition, partition_range, partition_without_duplicates, weight_sum, Record,
};

// Weights are whole numbers here: a weight of 2 stands for one unit, so that
// half a unit can be written as 1.
fn value(value: i64) -> Record {
    Record { value, weight: 2 }
}

fn with_weight(record: Record, weight: u64) -> Record {
    Record { value: record.value, weight }
}

#[test]
fn partition_unchanged() {
    let mut input = [value(1), value(2), value(3)];
    let expected = [value(1), value(2), value(3)];

    let (pivot_index, actual, pivot_extra_weight) = partition(&mut input, 1);

    assert_eq!(pivot_index, 1);
    assert_eq!(actual, expected);
    assert_eq!(pivot_extra_weight, 0);

    assert_eq!(input, expected);
}

#[test]
fn partition_changed1() {
    let mut input = [value(3), value(2), value(1)];
    let expected = [value(1), value(2), value(3)];

    let (pivot_index, actual, _) = partition(&mut input, 1);

    assert_eq!(pivot_index, 1);
    assert_eq!(actual, expected);

    assert_eq!(input, expected);
}

#[test]
fn partition_changed2() {
    let mut input = [value(3), value(1), value(2)];

    let (pivot_index, actual, _) = partition(&mut input, 1);

    assert_eq!(pivot_index, 0);

    assert_eq!(actual[0], value(1),);
    assert_eq!(actual.len(), 3);

    assert_eq!(input[0], value(1),);
}

#[test]
fn partition_changed3() {
    let mut input = [value(1), value(3), value(2)];

    let (pivot_index, actual, _) = partition(&mut input, 1);

    assert_eq!(pivot_index, 2);
    assert_eq!(actual[2], value(3),);
    assert_eq!(input[2], value(3),);
}

#[test]
fn duplicated_values1() {
    let mut input = [value(1), with_weight(value(1), 1)];
    let expected = [with_weight(value(1), 1)];
    let (_, actual, pivot_extra_weight) = partition(&mut input, 1);

    assert_eq!(actual, expected);
    assert_eq!(pivot_extra_weight, 2);
    assert_eq!(input[0], expected[0]);
}

#[test]
fn duplicated_values2() {
    let mut input = [value(1), with_weight(value(1), 1), value(2)];
    let expected = [with_weight(value(1), 1), value(2)];
    let (_, actual, pivot_extra_weight) = partition(&mut input, 1);

    assert_eq!(actual, expected);
    assert_eq!(pivot_extra_weight, 2);

    assert_eq!(input[..2], expected);
}

fn sorted_values(records: &[Record]) -> Vec<(i64, u64)> {
    let mut pairs: Vec<(i64, u64)> = records.iter().map(|r| (r.value, r.weight)).collect();
    pairs.sort();
    pairs
}

#[test]
fn partition_splits_around_the_pivot() {
    let values = [5, 9, 1, 5, 7, 3, 5, 8, 2];
    for target in 0..values.len() {
        let mut input: Vec<Record> = values
            .iter()
            .enumerate()
            .map(|(i, v)| Record { value: *v, weight: i as u64 + 1 })
            .collect();
        let before = input.clone();
        let pivot = before[target];

        let (pivot_index, window, extra) = partition(&mut input, target);

        assert_eq!(window[pivot_index], pivot);
        assert!(window[..pivot_index].iter().all(|r| r.value < pivot.value));
        assert!(window[pivot_index + 1..].iter().all(|r| r.value > pivot.value));
        let kept = window.len();
        assert!(input[kept..].iter().all(|r| r.value == pivot.value));
        let folded: u128 = input[kept..].iter().map(|r| r.weight as u128).sum();
        assert_eq!(extra, folded);
        let duplicates = before.iter().filter(|r| r.value == pivot.value).count() - 1;
        assert_eq!(input.len() - kept, duplicates);
        assert_eq!(sorted_values(&input), sorted_values(&before));
    }
}

#[test]
fn partition_range_leaves_the_rest_alone() {
    let mut input = [value(9), value(4), value(2), value(4), value(3), value(0)];

    let (pivot_index, end, extra) = partition_range(&mut input, 1, 5, 3);

    assert_eq!((pivot_index, end, extra), (3, 4, 2));
    assert_eq!(input[0], value(9));
    assert_eq!(input[5], value(0));
    assert_eq!(input[3], value(4));
    assert_eq!(input[4], value(4));
    assert_eq!(sorted_values(&input[1..3]), vec![(2, 2), (3, 2)]);
}

#[test]
fn partition_moves_only_the_pivot_when_it_is_least() {
    let mut input = [value(5), value(1), value(9), value(7)];

    let (pivot_index, end, extra) = partition_range(&mut input, 0, 4, 1);

    assert_eq!((pivot_index, end, extra), (0, 4, 0));
    assert_eq!(input, [value(1), value(5), value(9), value(7)]);
}

#[test]
fn partition_of_one_record() {
    let mut input = [with_weight(value(4), 7)];
    let (pivot_index, window, extra) = partition(&mut input, 0);
    assert_eq!(pivot_index, 0);
    assert_eq!(window, [with_weight(value(4), 7)]);
    assert_eq!(extra, 0);
}

#[test]
fn partition_without_duplicates_splits() {
    let mut input = [value(5), value(9), value(1), value(7), value(3)];

    let boundary = partition_without_duplicates(&mut input, 0, 5, 5);

    assert_eq!(boundary, 3);
    assert_eq!(input[0], value(5));
    assert!(input[..boundary].iter().all(|r| r.value <= 5));
    assert!(input[boundary..].iter().all(|r| r.value >= 5));
    assert_eq!(
        sorted_values(&input),
        vec![(1, 2), (3, 2), (5, 2), (7, 2), (9, 2)]
    );
}

#[test]
fn partition_without_duplicates_moves_nothing_without_smaller_values() {
    let mut input = [value(5), value(9), value(6), value(7)];

    let boundary = partition_without_duplicates(&mut input, 0, 4, 5);

    assert_eq!(boundary, 1);
    assert_eq!(input, [value(5), value(9), value(6), value(7)]);
}

#[test]
fn partition_without_duplicates_of_an_empty_range() {
    let mut input = [value(5), value(9)];
    assert_eq!(partition_without_duplicates(&mut input, 1, 1, 7), 1);
    assert_eq!(input, [value(5), value(9)]);
}

#[test]
fn partition_conserves_weight() {
    let values = [5, 9, 1, 5, 7, 3, 5, 8, 2, 5];
    for target in 2..9 {
        let mut input: Vec<Record> = values
            .iter()
            .enumerate()
            .map(|(i, v)| Record { value: *v, weight: 10 * i as u64 + 3 })
            .collect();
        let lower_delta: u128 = 11;
        let higher_delta: u128 = 17;
        let total = lower_delta + weight_sum(&input, 2, 9) + higher_delta;

        let (pivot_index, end, extra) = partition_range(&mut input, 2, 9, target);

        let lower_sum = lower_delta + weight_sum(&input, 2, pivot_index);
        let pivot_weight = input[pivot_index].weight as u128 + extra;
        let higher_sum = higher_delta + weight_sum(&input, pivot_index + 1, end);
        assert_eq!(lower_sum + pivot_weight + higher_sum, total);
        assert_eq!(extra, weight_sum(&input, end, 9));
        // Whichever side is kept, the window and its deltas weigh the same.
        assert_eq!(
            lower_delta + weight_sum(&input, 2, pivot_index + 1) + (higher_sum + extra),
            total
        );
        assert_eq!(
            (lower_sum + extra) + weight_sum(&input, pivot_index, end) + higher_delta,
            total
        );
    }
}
