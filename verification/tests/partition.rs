use dice_events::event::Event;
use dice_events::partition::{partition, sum_weights, PartitionError, RangeEntry, REROLL_LABEL};

fn parse_all(tokens: &[&str]) -> Vec<Event> {
    tokens.iter().map(|token| Event::parse(token).unwrap()).collect()
}

fn weighted(weights: &[u32]) -> Vec<Event> {
    weights
        .iter()
        .enumerate()
        .map(|(k, weight)| Event { name: format!("e{k}"), weight: *weight })
        .collect()
}

fn entry(lower: u64, upper: u64, label: &str) -> RangeEntry {
    RangeEntry { lower, upper, label: label.to_string() }
}

fn width(entry: &RangeEntry) -> u64 {
    entry.upper + 1 - entry.lower
}

#[test]
fn weights_that_divide_the_die_leave_no_reroll() {
    let events = parse_all(&["Crit:1", "Hit:3", "Miss:1"]);
    assert_eq!(sum_weights(&events), 5);
    assert_eq!(
        partition(20, &events),
        Ok(vec![entry(1, 4, "Crit"), entry(5, 16, "Hit"), entry(17, 20, "Miss")])
    );
}

#[test]
fn faces_left_over_call_for_a_reroll() {
    let events = parse_all(&["A:1", "B:1", "C:1"]);
    assert_eq!(sum_weights(&events), 3);
    assert_eq!(
        partition(20, &events),
        Ok(vec![entry(1, 6, "A"), entry(7, 12, "B"), entry(13, 18, "C"), entry(19, 20, "[Reroll]")])
    );
}

#[test]
fn more_weight_than_faces_is_refused() {
    let events = parse_all(&["A:3", "B:3"]);
    assert_eq!(
        partition(5, &events),
        Err(PartitionError::InsufficientSides { d: 5, total_weight: 6 })
    );
}

#[test]
fn reroll_label_is_the_marker() {
    assert_eq!(REROLL_LABEL, "[Reroll]");
    let ranges = partition(7, &weighted(&[2])).unwrap();
    assert_eq!(ranges, vec![entry(1, 6, "e0"), entry(7, 7, REROLL_LABEL)]);
}

#[test]
fn one_face_for_each_unit_of_weight() {
    let ranges = partition(6, &weighted(&[1, 2, 3])).unwrap();
    assert_eq!(ranges, vec![entry(1, 1, "e0"), entry(2, 3, "e1"), entry(4, 6, "e2")]);
}

#[test]
fn single_event_takes_what_its_weight_divides() {
    assert_eq!(partition(20, &weighted(&[1])), Ok(vec![entry(1, 20, "e0")]));
    assert_eq!(partition(20, &weighted(&[20])), Ok(vec![entry(1, 20, "e0")]));
    assert_eq!(
        partition(20, &weighted(&[3])),
        Ok(vec![entry(1, 18, "e0"), entry(19, 20, "[Reroll]")])
    );
    assert_eq!(
        partition(20, &weighted(&[11])),
        Ok(vec![entry(1, 11, "e0"), entry(12, 20, "[Reroll]")])
    );
    assert_eq!(partition(1, &weighted(&[1])), Ok(vec![entry(1, 1, "e0")]));
}

#[test]
fn one_face_too_few_is_refused() {
    assert_eq!(
        partition(20, &weighted(&[10, 11])),
        Err(PartitionError::InsufficientSides { d: 20, total_weight: 21 })
    );
    assert_eq!(
        partition(1, &weighted(&[2])),
        Err(PartitionError::InsufficientSides { d: 1, total_weight: 2 })
    );
    assert!(partition(21, &weighted(&[10, 11])).is_ok());
}

#[test]
fn die_without_faces_is_refused() {
    assert_eq!(
        partition(0, &weighted(&[1])),
        Err(PartitionError::InsufficientSides { d: 0, total_weight: 1 })
    );
}

#[test]
fn equal_weights_are_served_in_the_order_of_the_list() {
    let events = parse_all(&["second:2", "first:2"]);
    assert_eq!(
        partition(8, &events),
        Ok(vec![entry(1, 4, "second"), entry(5, 8, "first")])
    );
}

#[test]
fn event_named_as_the_reroll_marker_keeps_its_place() {
    let events = parse_all(&["[Reroll]:1", "Hit:1"]);
    assert_eq!(
        partition(5, &events),
        Ok(vec![entry(1, 2, "[Reroll]"), entry(3, 4, "Hit"), entry(5, 5, "[Reroll]")])
    );
}

#[test]
fn event_of_weight_zero_gets_an_empty_range() {
    assert_eq!(
        partition(10, &weighted(&[0, 2, 0, 3, 0])),
        Ok(vec![
            entry(1, 0, "e0"),
            entry(1, 4, "e1"),
            entry(5, 4, "e2"),
            entry(5, 10, "e3"),
            entry(11, 10, "e4"),
        ])
    );
}

#[test]
fn empty_range_behind_the_last_face_of_the_largest_die() {
    assert_eq!(
        partition(u32::MAX, &weighted(&[u32::MAX, 0])),
        Ok(vec![entry(1, 4294967295, "e0"), entry(4294967296, 4294967295, "e1")])
    );
}

#[test]
fn largest_die_is_divided() {
    assert_eq!(
        partition(u32::MAX, &weighted(&[1, 2])),
        Ok(vec![entry(1, 1431655765, "e0"), entry(1431655766, 4294967295, "e1")])
    );
    assert_eq!(
        partition(u32::MAX, &weighted(&[2147483648])),
        Ok(vec![entry(1, 2147483648, "e0"), entry(2147483649, 4294967295, "[Reroll]")])
    );
}

#[test]
fn sum_of_weights_is_not_cut_to_32_bits() {
    let events = weighted(&[u32::MAX, u32::MAX, 2]);
    assert_eq!(sum_weights(&events), 8589934592);
    assert_eq!(
        partition(u32::MAX, &events),
        Err(PartitionError::InsufficientSides { d: u32::MAX, total_weight: 8589934592 })
    );
    assert_eq!(
        partition(0, &weighted(&[u32::MAX, 1])),
        Err(PartitionError::InsufficientSides { d: 0, total_weight: 4294967296 })
    );
}

#[test]
fn sum_weights_adds_up() {
    assert_eq!(sum_weights(&[]), 0);
    assert_eq!(sum_weights(&weighted(&[0, 0])), 0);
    assert_eq!(sum_weights(&weighted(&[7])), 7);
    assert_eq!(sum_weights(&weighted(&[1, 2, 3, 4])), 10);
}

#[test]
fn ranges_are_contiguous_and_cover_the_die() {
    let lists: [&[u32]; 6] = [&[1], &[1, 1, 1], &[5, 1, 2], &[3, 3, 3, 3], &[0, 1, 0], &[7, 13]];
    for weights in lists {
        let total: u32 = weights.iter().sum();
        for d in total..total + 50 {
            let ranges = partition(d, &weighted(weights)).unwrap();
            assert_eq!(ranges[0].lower, 1);
            assert_eq!(ranges[ranges.len() - 1].upper, u64::from(d));
            for k in 1..ranges.len() {
                assert_eq!(ranges[k].lower, ranges[k - 1].upper + 1);
            }
        }
    }
}

#[test]
fn widths_are_proportional_to_weights() {
    let lists: [&[u32]; 5] = [&[1], &[1, 1, 1], &[5, 1, 2], &[0, 4, 9], &[7, 13]];
    for weights in lists {
        let total: u32 = weights.iter().sum();
        for d in total..total + 50 {
            let increment = u64::from(d / total);
            let ranges = partition(d, &weighted(weights)).unwrap();
            for (k, weight) in weights.iter().enumerate() {
                assert_eq!(width(&ranges[k]), u64::from(*weight) * increment);
                assert_eq!(ranges[k].label, format!("e{k}"));
            }
        }
    }
    let ranges = partition(100, &weighted(&[5, 1, 2])).unwrap();
    assert_eq!(width(&ranges[0]), 60);
    assert_eq!(width(&ranges[1]), 12);
    assert_eq!(width(&ranges[2]), 24);
    assert_eq!(width(&ranges[3]), 4);
}

#[test]
fn widths_add_up_to_the_faces() {
    let lists: [&[u32]; 5] = [&[1], &[1, 1, 1], &[5, 1, 2], &[0, 4, 9], &[7, 13]];
    for weights in lists {
        let total: u32 = weights.iter().sum();
        for d in total..total + 50 {
            let ranges = partition(d, &weighted(weights)).unwrap();
            assert_eq!(ranges.iter().map(width).sum::<u64>(), u64::from(d));
        }
    }
}

#[test]
fn reroll_range_is_there_when_the_weight_does_not_divide_the_faces() {
    let weights = [2u32, 3, 1];
    let events = weighted(&weights);
    for d in 6..60 {
        let ranges = partition(d, &events).unwrap();
        if d % 6 == 0 {
            assert_eq!(ranges.len(), 3);
        } else {
            assert_eq!(ranges.len(), 4);
            assert_eq!(ranges[3].label, "[Reroll]");
            assert_eq!(ranges[3].upper, u64::from(d));
            assert_eq!(width(&ranges[3]), u64::from(d % 6));
        }
    }
    assert_eq!(partition(6, &events).unwrap().len(), 3);
}

#[test]
fn too_few_faces_give_no_ranges() {
    let events = weighted(&[4, 5, 6]);
    for d in 0..15 {
        assert_eq!(
            partition(d, &events),
            Err(PartitionError::InsufficientSides { d, total_weight: 15 })
        );
    }
    assert!(partition(15, &events).is_ok());
}

#[test]
fn ranges_of_weighted_events_lie_on_the_die() {
    let events = weighted(&[3, 1, 4, 1, 5]);
    for d in 14..80 {
        for range in partition(d, &events).unwrap() {
            assert!(1 <= range.lower && range.lower <= range.upper && range.upper <= u64::from(d));
        }
    }
}
