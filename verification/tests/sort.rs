use ranker::sort::stable_sort;
use ranker::{Record, SortMode};

fn records(distances: &[f64]) -> Vec<Record<usize>> {
    let mut items = Vec::new();
    for (id, distance) in distances.iter().enumerate() {
        items.push(Record::from_bits(id, Some(distance.to_bits()), Some(distance.to_bits())));
    }
    items
}

fn ids(items: &[Record<usize>]) -> Vec<usize> {
    let mut out = Vec::new();
    for item in items {
        out.push(item.payload);
    }
    out
}

#[test]
fn sorts_smallest_key_first() {
    let sorted = stable_sort(records(&[3.0, 1.0, 2.0, 5.0, 4.0]), SortMode::Distance);
    assert_eq!(ids(&sorted), vec![1, 2, 0, 4, 3]);
}

#[test]
fn sorts_ratings_from_the_highest_down() {
    let sorted = stable_sort(records(&[3.0, 1.0, 2.0, 5.0, 4.0]), SortMode::Rating);
    assert_eq!(ids(&sorted), vec![3, 4, 0, 2, 1]);
}

#[test]
fn keeps_equal_keys_in_order_across_the_split() {
    let sorted = stable_sort(records(&[2.0, 1.0, 2.0, 1.0, 2.0, 1.0, 2.0]), SortMode::Distance);
    assert_eq!(ids(&sorted), vec![1, 3, 5, 0, 2, 4, 6]);
}

#[test]
fn sorts_lists_of_every_small_length() {
    for length in 0..40usize {
        let distances: Vec<f64> = (0..length).map(|i| ((i * 7) % 5) as f64).collect();
        let sorted = stable_sort(records(&distances), SortMode::Distance);
        let mut expected: Vec<usize> = (0..length).collect();
        expected.sort_by_key(|&i| (i * 7) % 5);
        assert_eq!(ids(&sorted), expected, "length {length}");
    }
}

#[test]
fn without_a_sort_nothing_moves() {
    let sorted = stable_sort(records(&[3.0, 1.0, 2.0]), SortMode::Unsorted);
    assert_eq!(ids(&sorted), vec![0, 1, 2]);
}
