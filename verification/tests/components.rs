use exergon_core::components::{find_segment_components, Segment};
use exergon_core::routing::Cell;

fn seg(id: u64, a: (i32, i32, i32), b: (i32, i32, i32)) -> Segment {
    Segment { id, a: Cell { x: a.0, y: a.1, z: a.2 }, b: Cell { x: b.0, y: b.1, z: b.2 } }
}

#[test]
fn empty_remaining_returns_empty() {
    let components = find_segment_components(vec![]);
    assert!(components.is_empty());
}

#[test]
fn single_segment_one_component() {
    let comps = find_segment_components(vec![seg(1, (0, 0, 0), (5, 0, 0))]);
    assert_eq!(comps.len(), 1);
    assert_eq!(comps[0].len(), 1);
}

#[test]
fn chain_of_three_one_component() {
    let comps = find_segment_components(vec![
        seg(1, (0, 0, 0), (1, 0, 0)),
        seg(2, (1, 0, 0), (2, 0, 0)),
        seg(3, (2, 0, 0), (3, 0, 0)),
    ]);
    assert_eq!(comps.len(), 1);
    assert_eq!(comps[0].len(), 3);
}

#[test]
fn two_disconnected_segments_two_components() {
    let comps = find_segment_components(vec![seg(1, (0, 0, 0), (1, 0, 0)), seg(2, (10, 0, 0), (11, 0, 0))]);
    assert_eq!(comps.len(), 2);
}

#[test]
fn bridge_removed_splits_into_two() {
    let comps = find_segment_components(vec![seg(1, (0, 0, 0), (1, 0, 0)), seg(3, (2, 0, 0), (3, 0, 0))]);
    assert_eq!(comps.len(), 2);
}

#[test]
fn components_partition_the_segments() {
    let input = vec![
        seg(1, (0, 0, 0), (1, 0, 0)),
        seg(2, (5, 5, 5), (6, 5, 5)),
        seg(3, (1, 0, 0), (1, 1, 0)),
        seg(4, (6, 5, 5), (7, 5, 5)),
        seg(5, (9, 9, 9), (9, 9, 8)),
    ];
    let comps = find_segment_components(input.clone());
    assert_eq!(comps.len(), 3);
    let mut ids: Vec<u64> = comps.iter().flatten().map(|s| s.id).collect();
    ids.sort();
    assert_eq!(ids, vec![1, 2, 3, 4, 5]);
}
