use weighted_median::{
    base_case, calculate, sorted_scan, weight_sum, weighted_median, Median, MedianError, Record,
};

struct OnlyValue {
    value: i64,
}

impl OnlyValue {
    fn weight(&self, weight: u64) -> Record {
        Record { value: self.value, weight }
    }
}

fn value(value: i64) -> OnlyValue {
    OnlyValue { value }
}

/// The number that a median stands for.
fn number(m: Median) -> f64 {
    (m.lower as f64 + m.upper as f64) / 2.0
}

#[test]
fn empty_slice() {
    assert_eq!(weighted_median::<Record>(&mut []), Err(MedianError::EmptyInput))
}

#[test]
fn one_element() {
    assert_eq!(
        weighted_median(&mut [value(7).weight(9)]).map(number),
        Ok(7.0)
    );
}

#[test]
fn two_elements_different_weight() {
    assert_eq!(
        weighted_median(&mut [value(7).weight(1), value(8).weight(2),]).map(number),
        Ok(8.0)
    );
    assert_eq!(
        weighted_median(&mut [value(8).weight(2), value(7).weight(1),]).map(number),
        Ok(8.0)
    );
}

#[test]
fn two_elements_same_weight() {
    assert_eq!(
        weighted_median(&mut [value(7).weight(1), value(8).weight(1)]).map(number),
        Ok(7.5)
    )
}

#[test]
fn three_elements_is_first_element() {
    assert_eq!(
        weighted_median(&mut [value(2).weight(1), value(3).weight(1), value(1).weight(1),])
            .map(number),
        Ok(2.0)
    )
}

#[test]
fn three_elements_is_middle_element() {
    assert_eq!(
        weighted_median(&mut [value(3).weight(1), value(2).weight(1), value(1).weight(1),])
            .map(number),
        Ok(2.0)
    )
}

#[test]
fn three_elements_is_last_element() {
    assert_eq!(
        weighted_median(&mut [value(3).weight(1), value(1).weight(1), value(2).weight(1),])
            .map(number),
        Ok(2.0)
    )
}

#[test]
fn three_elements_is_smallest_element() {
    assert_eq!(
        weighted_median(&mut [
            value(3).weight(1),
            value(2).weight(1),
            Record { value: 1, weight: 5 },
        ])
        .map(number),
        Ok(1.0)
    )
}

#[test]
fn three_elements_is_biggest_element() {
    assert_eq!(
        weighted_median(&mut [value(3).weight(5), value(2).weight(1), value(1).weight(1),])
            .map(number),
        Ok(3.0)
    )
}

#[test]
fn three_elements_is_even() {
    assert_eq!(
        weighted_median(&mut [value(3).weight(2), value(2).weight(1), value(1).weight(1),])
            .map(number),
        Ok(2.5)
    );
    assert_eq!(
        weighted_median(&mut [value(1).weight(1), value(2).weight(1), value(3).weight(2),])
            .map(number),
        Ok(2.5)
    );
}

#[test]
fn four_elements_is_even() {
    assert_eq!(
        weighted_median(&mut [
            value(1).weight(49),
            value(2).weight(1),
            value(3).weight(25),
            value(1000).weight(25),
        ])
        .map(number),
        Ok(2.5)
    );
}

#[test]
fn five_elements_is_pivot_value() {
    assert_eq!(
        weighted_median(&mut [
            value(2).weight(5),
            value(1).weight(5),
            value(3).weight(1),
            value(10).weight(8),
            value(8).weight(2),
        ])
        .map(number),
        Ok(3.0)
    );
}

#[test]
fn duplicated_values() {
    assert_eq!(
        weighted_median(&mut [value(1).weight(1), value(1).weight(1), value(2).weight(2),])
            .map(number),
        Ok(1.5)
    );

    assert_eq!(
        weighted_median(&mut [value(1).weight(2), value(2).weight(1), value(2).weight(1)])
            .map(number),
        Ok(1.5)
    );
}

#[test]
fn median_is_reported_as_a_pair() {
    assert_eq!(
        weighted_median(&mut [value(7).weight(1), value(8).weight(1)]),
        Ok(Median { lower: 7, upper: 8 })
    );
    assert_eq!(
        weighted_median(&mut [value(8).weight(1), value(7).weight(1)]),
        Ok(Median { lower: 7, upper: 8 })
    );
    assert_eq!(
        weighted_median(&mut [value(7).weight(9)]),
        Ok(Median { lower: 7, upper: 7 })
    );
    assert_eq!(Median::at(-3), Median { lower: -3, upper: -3 });
    assert_eq!(Median::between(4, -4), Median { lower: -4, upper: 4 });
    assert_eq!(Median::between(-4, 4), Median { lower: -4, upper: 4 });
}

#[test]
fn zero_total_weight_is_an_error() {
    assert_eq!(
        weighted_median(&mut [value(1).weight(0)]),
        Err(MedianError::NonPositiveTotalWeight)
    );
    assert_eq!(
        weighted_median(&mut [value(1).weight(0), value(2).weight(0), value(3).weight(0)]),
        Err(MedianError::NonPositiveTotalWeight)
    );
    assert_eq!(
        calculate(&mut [value(1).weight(0), value(2).weight(0)], 0, 0),
        Err(MedianError::NonPositiveTotalWeight)
    );
    assert_eq!(
        calculate::<Record>(&mut [], 3, 4),
        Err(MedianError::EmptyInput)
    );
}

#[test]
fn records_without_weight_do_not_count() {
    assert_eq!(
        weighted_median(&mut [value(7).weight(0), value(8).weight(2)]),
        Ok(Median::at(8))
    );
    assert_eq!(
        weighted_median(&mut [value(1).weight(0), value(5).weight(3), value(9).weight(0)]),
        Ok(Median::at(5))
    );
    assert_eq!(
        weighted_median(&mut [value(9).weight(0), value(1).weight(0), value(5).weight(3)]),
        Ok(Median::at(5))
    );
}

#[test]
fn midpoint_uses_the_next_value_even_without_weight() {
    // The cumulative weight is exactly half at 1; the next value is 2.
    assert_eq!(
        weighted_median(&mut [value(1).weight(1), value(2).weight(0), value(3).weight(1)]),
        Ok(Median { lower: 1, upper: 2 })
    );
    assert_eq!(
        weighted_median(&mut [value(2).weight(0), value(3).weight(1), value(1).weight(1)]),
        Ok(Median { lower: 1, upper: 2 })
    );
    assert_eq!(
        weighted_median(&mut [value(3).weight(1), value(1).weight(1), value(2).weight(0)]),
        Ok(Median { lower: 1, upper: 2 })
    );
}

#[test]
fn calculate_counts_the_deltas() {
    // Full weight 10, half of it 5: 3 below, so the sum passes half at 20.
    let records = [value(10).weight(1), value(20).weight(2), value(30).weight(2)];
    assert_eq!(calculate(&mut records.clone(), 3, 2), Ok(Median::at(20)));
    // Full weight 8: 3 below and 1 at 10 make exactly half.
    assert_eq!(
        calculate(&mut records.clone(), 3, 0),
        Ok(Median { lower: 10, upper: 20 })
    );
    // Full weight 12: the sum passes half only at 30.
    assert_eq!(calculate(&mut records.clone(), 0, 7), Ok(Median::at(30)));
    // Zero weights with a delta are no error.
    assert_eq!(
        calculate(&mut [value(4).weight(0)], 0, 1),
        Ok(Median::at(4))
    );
}

#[test]
fn extreme_weights_do_not_overflow() {
    let mut records = vec![
        value(5).weight(u64::MAX),
        value(1).weight(u64::MAX),
        value(9).weight(u64::MAX),
        value(3).weight(u64::MAX),
        value(7).weight(u64::MAX),
    ];
    assert_eq!(
        calculate(&mut records, u64::MAX, u64::MAX),
        Ok(Median::at(5))
    );
    assert_eq!(
        weighted_median(&mut [
            value(i64::MIN).weight(u64::MAX),
            value(i64::MAX).weight(u64::MAX)
        ]),
        Ok(Median { lower: i64::MIN, upper: i64::MAX })
    );
}

fn reference_median(records: &[Record]) -> Median {
    let mut sorted = records.to_vec();
    sorted.sort_by_key(|r| r.value);
    let total: u128 = sorted.iter().map(|r| r.weight as u128).sum();
    let mut cumulative: u128 = 0;
    let mut i = 0;
    while i < sorted.len() {
        let v = sorted[i].value;
        while i < sorted.len() && sorted[i].value == v {
            cumulative += sorted[i].weight as u128;
            i += 1;
        }
        if 2 * cumulative > total {
            return Median::at(v);
        }
        if 2 * cumulative == total {
            return Median { lower: v, upper: sorted[i].value };
        }
    }
    unreachable!()
}

fn permutations(records: &[Record]) -> Vec<Vec<Record>> {
    if records.len() <= 1 {
        return vec![records.to_vec()];
    }
    let mut all = Vec::new();
    for i in 0..records.len() {
        let mut rest = records.to_vec();
        let first = rest.remove(i);
        for mut tail in permutations(&rest) {
            tail.insert(0, first);
            all.push(tail);
        }
    }
    all
}

#[test]
fn every_order_gives_the_same_median() {
    let inputs: Vec<Vec<Record>> = vec![
        vec![value(1).weight(1), value(2).weight(1), value(3).weight(2)],
        vec![
            value(1).weight(49),
            value(2).weight(1),
            value(3).weight(25),
            value(1000).weight(25),
        ],
        vec![
            value(2).weight(5),
            value(1).weight(5),
            value(3).weight(1),
            value(10).weight(8),
            value(8).weight(2),
        ],
        vec![
            value(4).weight(1),
            value(4).weight(2),
            value(4).weight(3),
            value(6).weight(6),
            value(5).weight(1),
        ],
        vec![
            value(-3).weight(2),
            value(0).weight(0),
            value(7).weight(1),
            value(7).weight(1),
            value(9).weight(4),
            value(-8).weight(3),
        ],
    ];
    for input in inputs {
        let expected = reference_median(&input);
        for mut order in permutations(&input) {
            assert_eq!(weighted_median(&mut order), Ok(expected));
        }
    }
}

#[test]
fn sorted_and_shuffled_agree() {
    let sorted: Vec<Record> = (0..40)
        .map(|i| value(i * 3 - 20).weight((i as u64 * 7) % 5))
        .collect();
    let mut ascending = sorted.clone();
    let mut descending: Vec<Record> = sorted.iter().rev().cloned().collect();
    let mut shuffled: Vec<Record> = (0..40).map(|i| sorted[(i * 17 + 5) % 40]).collect();

    let expected = reference_median(&sorted);
    assert_eq!(weighted_median(&mut ascending), Ok(expected));
    assert_eq!(weighted_median(&mut descending), Ok(expected));
    assert_eq!(weighted_median(&mut shuffled), Ok(expected));
}

#[test]
fn median_lies_within_the_values() {
    let mut state: u64 = 0x2545_f491_4f6c_dd1d;
    let mut next = move || {
        state ^= state << 13;
        state ^= state >> 7;
        state ^= state << 17;
        state
    };
    for round in 0..200 {
        let len = 1 + (next() % 12) as usize;
        let mut records: Vec<Record> = (0..len)
            .map(|_| value((next() % 9) as i64 - 4).weight(1 + next() % 4))
            .collect();
        let before = records.clone();
        let least = before.iter().map(|r| r.value).min().unwrap();
        let greatest = before.iter().map(|r| r.value).max().unwrap();

        let m = weighted_median(&mut records).unwrap();

        assert!(least <= m.lower && m.lower <= m.upper && m.upper <= greatest, "round {}", round);
        assert_eq!(m, reference_median(&before), "round {}", round);
        let mut after = records.clone();
        after.sort_by_key(|r| (r.value, r.weight));
        let mut sorted = before.clone();
        sorted.sort_by_key(|r| (r.value, r.weight));
        assert_eq!(after, sorted, "round {}", round);
    }
}

#[test]
fn weightless_duplicate_at_exactly_half() {
    // Half of the weight lies at 5, and one record at 5 has no weight. Such
    // an input is the one kind whose median depends on the order: the
    // midpoint to the next value, or the value itself.
    let mut first = [
        value(9).weight(1),
        value(7).weight(1),
        value(5).weight(0),
        value(5).weight(2),
    ];
    assert_eq!(weighted_median(&mut first), Ok(Median { lower: 5, upper: 7 }));

    let mut second = [
        value(7).weight(1),
        value(9).weight(1),
        value(5).weight(0),
        value(5).weight(2),
    ];
    assert_eq!(weighted_median(&mut second), Ok(Median { lower: 5, upper: 5 }));
}

#[test]
fn weight_sum_adds_a_range() {
    let records = [value(1).weight(3), value(2).weight(u64::MAX), value(3).weight(4)];
    assert_eq!(weight_sum(&records, 0, 3), u64::MAX as u128 + 7);
    assert_eq!(weight_sum(&records, 0, 1), 3);
    assert_eq!(weight_sum(&records, 2, 3), 4);
    assert_eq!(weight_sum(&records, 1, 1), 0);
}

#[test]
fn base_case_weighs_two_records() {
    let records = [value(7).weight(1), value(8).weight(2)];
    assert_eq!(base_case(&records, 0, 1, 0, 0), Median::at(7));
    assert_eq!(base_case(&records, 1, 2, 5, 0), Median::at(8));
    assert_eq!(base_case(&records, 0, 2, 0, 0), Median::at(8));
    assert_eq!(base_case(&records, 0, 2, 1, 0), Median { lower: 7, upper: 8 });
    assert_eq!(base_case(&records, 0, 2, 2, 0), Median::at(7));
}

#[test]
fn sorted_scan_walks_in_ascending_order() {
    let up = [value(1).weight(1), value(2).weight(1), value(3).weight(2)];
    let down = [value(3).weight(2), value(2).weight(1), value(1).weight(1)];
    assert_eq!(sorted_scan(&up, 0, 3, true, 0, 4), Median { lower: 2, upper: 3 });
    assert_eq!(sorted_scan(&down, 0, 3, false, 0, 4), Median { lower: 2, upper: 3 });
    assert_eq!(sorted_scan(&up, 0, 3, true, 1, 5), Median::at(2));
    assert_eq!(sorted_scan(&down, 0, 3, false, 0, 6), Median::at(3));
    assert_eq!(sorted_scan(&up, 0, 3, true, 0, 8), Median::at(3));
    assert_eq!(sorted_scan(&up, 0, 3, true, 0, 100), Median::at(3));
}

#[test]
fn exact_half_is_a_midpoint_in_every_order() {
    // Half of the weight lies at 2 and below: no single value is the median.
    let input = vec![
        value(1).weight(1),
        value(2).weight(1),
        value(3).weight(1),
        value(4).weight(1),
    ];
    for mut order in permutations(&input) {
        assert_eq!(weighted_median(&mut order), Ok(Median { lower: 2, upper: 3 }));
    }
    let input = vec![
        value(10).weight(3),
        value(20).weight(1),
        value(30).weight(4),
        value(40).weight(2),
        value(50).weight(2),
        value(60).weight(4),
    ];
    for mut order in permutations(&input) {
        assert_eq!(weighted_median(&mut order), Ok(Median { lower: 30, upper: 40 }));
    }
}

#[test]
fn calculate_reorders_but_keeps_the_records() {
    let mut records = vec![
        value(4).weight(1),
        value(2).weight(7),
        value(4).weight(2),
        value(9).weight(1),
        value(1).weight(3),
        value(4).weight(5),
    ];
    let mut before = records.clone();

    assert_eq!(calculate(&mut records, 0, 0), Ok(Median::at(2)));

    records.sort_by_key(|r| (r.value, r.weight));
    before.sort_by_key(|r| (r.value, r.weight));
    assert_eq!(records, before);
}
