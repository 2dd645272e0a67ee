use bigtools::bbi::Value;
use bigtools::merge::{is_ordered, merge_windows, Window};

fn value(start: u32, end: u32, v: f32) -> Value {
    Value { start, end, value: v.to_bits() }
}

fn plain(windows: &[Window]) -> Vec<(u32, u32, Vec<f32>)> {
    windows.iter().map(|w| (w.start, w.end, w.values.iter().map(|bits| f32::from_bits(*bits)).collect())).collect()
}

#[test]
fn tracks_are_cut_where_a_record_starts_or_ends() {
    let first = vec![value(0, 10, 1.0), value(10, 20, 2.0)];
    let second = vec![value(5, 15, 4.0)];
    let windows = merge_windows(&vec![first.clone(), second.clone()]).unwrap();
    assert_eq!(
        plain(&windows),
        vec![
            (0, 5, vec![1.0]),
            (5, 10, vec![1.0, 4.0]),
            (10, 15, vec![2.0, 4.0]),
            (15, 20, vec![2.0]),
        ]
    );
    // The values of a window come in the order of the tracks.
    let windows = merge_windows(&vec![second, first]).unwrap();
    assert_eq!(
        plain(&windows),
        vec![
            (0, 5, vec![1.0]),
            (5, 10, vec![4.0, 1.0]),
            (10, 15, vec![4.0, 2.0]),
            (15, 20, vec![2.0]),
        ]
    );
}

#[test]
fn bases_that_no_record_covers_make_a_window_without_values() {
    let windows = merge_windows(&vec![vec![value(0, 5, 1.5), value(8, 10, 2.5)]]).unwrap();
    assert_eq!(plain(&windows), vec![(0, 5, vec![1.5]), (5, 8, vec![]), (8, 10, vec![2.5])]);
    let windows =
        merge_windows(&vec![vec![value(3, 4, 1.0)], vec![], vec![value(7, 9, 2.0)], vec![value(3, 4, 3.0)]]).unwrap();
    assert_eq!(plain(&windows), vec![(3, 4, vec![1.0, 3.0]), (4, 7, vec![]), (7, 9, vec![2.0])]);
}

#[test]
fn tracks_without_records_have_no_windows() {
    assert!(merge_windows(&Vec::new()).unwrap().is_empty());
    assert!(merge_windows(&vec![Vec::new(), Vec::new()]).unwrap().is_empty());
}

#[test]
fn many_tracks_of_many_records() {
    // Track `t` has the records `[10 i + t, 10 i + t + 5)` at the value `t`.
    let lists: Vec<Vec<Value>> =
        (0..4u32).map(|t| (0..50u32).map(|i| value(10 * i + t, 10 * i + t + 5, t as f32)).collect()).collect();
    let windows = merge_windows(&lists).unwrap();
    let mut cuts: Vec<u32> = lists.iter().flatten().flat_map(|v| [v.start, v.end]).collect();
    cuts.sort();
    cuts.dedup();
    assert_eq!(windows.len(), cuts.len() - 1);
    for (x, window) in windows.iter().enumerate() {
        assert_eq!((window.start, window.end), (cuts[x], cuts[x + 1]));
        let expected: Vec<u32> = lists
            .iter()
            .filter_map(|list| list.iter().find(|v| v.start <= window.start && window.end <= v.end))
            .map(|v| v.value)
            .collect();
        assert_eq!(window.values, expected);
    }
    assert_eq!(plain(&windows[..3]), vec![(0, 1, vec![0.0]), (1, 2, vec![0.0, 1.0]), (2, 3, vec![0.0, 1.0, 2.0])]);
}

#[test]
fn records_out_of_order_are_not_merged() {
    assert!(is_ordered(&vec![value(0, 5, 1.0), value(5, 6, 1.0)]));
    assert!(is_ordered(&Vec::new()));
    assert!(!is_ordered(&vec![value(0, 5, 1.0), value(4, 6, 1.0)]));
    assert!(!is_ordered(&vec![value(5, 5, 1.0)]));
    assert!(!is_ordered(&vec![value(6, 5, 1.0)]));
    assert!(!is_ordered(&vec![value(10, 12, 1.0), value(0, 5, 1.0)]));
    assert!(merge_windows(&vec![vec![value(0, 5, 1.0)], vec![value(0, 5, 1.0), value(4, 6, 1.0)]]).is_none());
    assert!(merge_windows(&vec![vec![value(5, 5, 1.0)]]).is_none());
}
