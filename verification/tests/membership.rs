use exergon_core::components::Segment;
use exergon_core::membership::{join_plan, plan_removal, CableRec, JoinPlan, NetSize, PortRec, RemovalPlan};
use exergon_core::routing::Cell;

fn cell(x: i32) -> Cell {
    Cell { x, y: 0, z: 0 }
}

fn cable(id: u64, a: i32, b: i32, net: u64) -> CableRec {
    CableRec { seg: Segment { id, a: cell(a), b: cell(b) }, net }
}

fn port(id: u64, x: i32, net: Option<u64>) -> PortRec {
    PortRec { id, machine: id, cell: cell(x), net }
}

#[test]
fn join_without_neighbours_starts_a_network() {
    assert!(matches!(join_plan(&vec![]), JoinPlan::NewNetwork));
}

#[test]
fn join_single_neighbour_absorbs_nothing() {
    match join_plan(&vec![NetSize { net: 7, members: 3 }]) {
        JoinPlan::Join { survivor, absorbed } => {
            assert_eq!(survivor, 7);
            assert!(absorbed.is_empty());
        }
        JoinPlan::NewNetwork => panic!("expected a join"),
    }
}

#[test]
fn join_largest_network_survives_and_absorbs_the_rest_once() {
    let c = vec![
        NetSize { net: 1, members: 2 },
        NetSize { net: 2, members: 9 },
        NetSize { net: 1, members: 2 },
        NetSize { net: 3, members: 4 },
    ];
    match join_plan(&c) {
        JoinPlan::Join { survivor, absorbed } => {
            assert_eq!(survivor, 2);
            assert_eq!(absorbed, vec![1, 3]);
        }
        JoinPlan::NewNetwork => panic!("expected a join"),
    }
}

#[test]
fn join_tie_keeps_first_listed() {
    let c = vec![NetSize { net: 5, members: 4 }, NetSize { net: 6, members: 4 }];
    match join_plan(&c) {
        JoinPlan::Join { survivor, absorbed } => {
            assert_eq!(survivor, 5);
            assert_eq!(absorbed, vec![6]);
        }
        JoinPlan::NewNetwork => panic!("expected a join"),
    }
}

#[test]
fn removal_at_empty_cell_changes_nothing() {
    let cables = vec![cable(1, 0, 1, 10)];
    assert!(matches!(plan_removal(&cables, cell(5), &vec![]), RemovalPlan::Untouched));
}

#[test]
fn removing_last_cable_dissolves_network() {
    let cables = vec![cable(1, 0, 1, 10)];
    let ports = vec![port(100, 0, Some(10)), port(101, 1, Some(11)), port(102, 1, None)];
    match plan_removal(&cables, cell(1), &ports) {
        RemovalPlan::Dissolve { net, removed, unlink } => {
            assert_eq!(net, 10);
            assert_eq!(removed, vec![1]);
            assert_eq!(unlink, vec![100]);
        }
        _ => panic!("expected a dissolve"),
    }
}

#[test]
fn removing_end_cable_keeps_one_part_and_unlinks_stranded_port() {
    // 0-1, 1-2, 2-3: removing at 3 leaves 0-1-2 connected.
    let cables = vec![cable(1, 0, 1, 10), cable(2, 1, 2, 10), cable(3, 2, 3, 10)];
    let ports = vec![port(100, 0, Some(10)), port(101, 3, Some(10))];
    match plan_removal(&cables, cell(3), &ports) {
        RemovalPlan::Regroup { net, removed, parts, relink } => {
            assert_eq!(net, 10);
            assert_eq!(removed, vec![3]);
            assert_eq!(parts.len(), 1);
            assert_eq!(parts[0].len(), 2);
            assert_eq!(relink, vec![(100, Some(0)), (101, None)]);
        }
        _ => panic!("expected a regroup"),
    }
}

#[test]
fn removing_bridge_splits_largest_part_first() {
    // 0-1, 1-2 | bridge 2-3 | 3-4, 4-5, 5-6: removing at 2 takes 1-2 and 2-3.
    let cables = vec![
        cable(1, 0, 1, 10),
        cable(2, 1, 2, 10),
        cable(3, 2, 3, 10),
        cable(4, 3, 4, 10),
        cable(5, 4, 5, 10),
        cable(6, 5, 6, 10),
    ];
    let ports = vec![port(100, 0, Some(10)), port(101, 6, Some(10)), port(102, 2, Some(10)), port(103, 4, Some(11))];
    match plan_removal(&cables, cell(2), &ports) {
        RemovalPlan::Regroup { net, removed, parts, relink } => {
            assert_eq!(net, 10);
            assert_eq!(removed, vec![2, 3]);
            assert_eq!(parts.len(), 2);
            assert_eq!(parts[0].len(), 3);
            assert_eq!(parts[1].len(), 1);
            assert_eq!(relink, vec![(100, Some(1)), (101, Some(0)), (102, None)]);
        }
        _ => panic!("expected a regroup"),
    }
}

#[test]
fn removal_takes_network_of_first_hit_cable() {
    let cables = vec![cable(1, 0, 1, 20), cable(2, 1, 2, 30), cable(3, 5, 6, 30)];
    match plan_removal(&cables, cell(1), &vec![]) {
        RemovalPlan::Regroup { net, removed, parts, relink } => {
            assert_eq!(net, 20);
            assert_eq!(removed, vec![1, 2]);
            assert_eq!(parts.len(), 1);
            assert!(relink.is_empty());
        }
        _ => panic!("expected a regroup"),
    }
}
