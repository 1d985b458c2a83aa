use exergon_core::membership::PortRec;
use exergon_core::network_state::NetworkState;
use exergon_core::routing::Cell;

fn c(x: i32, y: i32, z: i32) -> Cell {
    Cell { x, y, z }
}

fn dist_sq(a: Cell, b: Cell) -> i64 {
    let d = |p: i32, q: i32| (p as i64 - q as i64) * (p as i64 - q as i64);
    d(a.x, b.x) + d(a.y, b.y) + d(a.z, b.z)
}

// A port snaps to a cable end within 1.5 cells; on the integer grid that is
// a squared distance of at most 2.
fn near(s: &NetworkState, from: Cell, to: Cell) -> Vec<bool> {
    s.ports.iter().map(|p| dist_sq(p.cell, from) <= 2 || dist_sq(p.cell, to) <= 2).collect()
}

fn connect(s: &mut NetworkState, from: Cell, to: Cell) -> Option<u64> {
    let flags = near(s, from, to);
    s.lay_cable(from, to, &flags)
}

fn port_net(s: &NetworkState, id: u64) -> Option<u64> {
    s.ports.iter().find(|p| p.id == id).and_then(|p| p.net)
}

fn empty() -> NetworkState {
    NetworkState::new(Vec::new())
}

fn with_ports(ports: &[(u64, u64, Cell)]) -> NetworkState {
    NetworkState::new(ports.iter().map(|&(id, machine, cell)| PortRec { id, machine, cell, net: None }).collect())
}

#[test]
fn no_cables_no_networks() {
    let s = empty();
    assert_eq!(s.networks.len(), 0);
}

#[test]
fn single_cable_creates_one_network() {
    let mut s = empty();
    connect(&mut s, c(0, 0, 0), c(5, 0, 0));
    assert_eq!(s.networks.len(), 1);
}

#[test]
fn two_cables_sharing_endpoint_one_network() {
    let mut s = empty();
    connect(&mut s, c(0, 0, 0), c(5, 0, 0));
    connect(&mut s, c(5, 0, 0), c(10, 0, 0));
    assert_eq!(s.networks.len(), 1);
}

#[test]
fn two_cables_no_shared_endpoint_two_networks() {
    let mut s = empty();
    connect(&mut s, c(0, 0, 0), c(5, 0, 0));
    connect(&mut s, c(20, 0, 0), c(25, 0, 0));
    assert_eq!(s.networks.len(), 2);
}

#[test]
fn cable_removed_clears_network() {
    let mut s = empty();
    connect(&mut s, c(0, 0, 0), c(5, 0, 0));
    s.cut_at(c(0, 0, 0));
    assert_eq!(s.networks.len(), 0);
}

#[test]
fn removing_bridge_cable_splits_network() {
    let mut s = empty();
    connect(&mut s, c(0, 0, 0), c(5, 0, 0));
    connect(&mut s, c(5, 0, 0), c(10, 0, 0));
    assert_eq!(s.networks.len(), 1);
    // Both cables end at the cut cell, so both go.
    s.cut_at(c(5, 0, 0));
    assert_eq!(s.networks.len(), 0);
}

#[test]
fn placing_cable_between_two_networks_merges_them() {
    let mut s = empty();
    connect(&mut s, c(0, 0, 0), c(5, 0, 0));
    connect(&mut s, c(20, 0, 0), c(25, 0, 0));
    assert_eq!(s.networks.len(), 2);
    connect(&mut s, c(5, 0, 0), c(20, 0, 0));
    assert_eq!(s.networks.len(), 1);
    let net = s.networks[0];
    assert!(s.cables.iter().all(|k| k.net == net));
}

#[test]
fn three_machines_on_separate_ports_join_same_network() {
    // storage 1 (machine 1), smelter with two ports (machine 2), storage 2 (machine 3)
    let mut s = with_ports(&[(10, 1, c(1, 0, 0)), (20, 2, c(4, 0, 0)), (21, 2, c(6, 0, 0)), (30, 3, c(9, 0, 0))]);
    connect(&mut s, c(1, 0, 0), c(4, 0, 0));
    connect(&mut s, c(6, 0, 0), c(9, 0, 0));
    let (s1, sm1, sm2, s2) = (port_net(&s, 10), port_net(&s, 20), port_net(&s, 21), port_net(&s, 30));
    assert!(s1.is_some(), "storage_1 port should be in a network");
    assert!(sm1.is_some(), "smelter port 1 should be in a network");
    assert!(sm2.is_some(), "smelter port 2 should be in a network");
    assert!(s2.is_some(), "storage_2 port should be in a network");
    assert_eq!(s1, sm1, "storage_1 and smelter port 1 must share a network");
    assert_eq!(sm1, sm2, "smelter ports must share a network");
    assert_eq!(sm2, s2, "smelter port 2 and storage_2 must share a network");
    assert_eq!(s.networks.len(), 1, "should be exactly one network");
}

#[test]
fn cable_removal_clears_network() {
    let mut s = empty();
    connect(&mut s, c(0, 0, 0), c(5, 0, 0));
    assert_eq!(s.networks.len(), 1);
    s.cut_at(c(0, 0, 0));
    assert_eq!(s.networks.len(), 0);
}

#[test]
fn cable_removal_splits_chain_into_two_networks() {
    let mut s = empty();
    connect(&mut s, c(0, 0, 0), c(5, 0, 0));
    connect(&mut s, c(5, 0, 0), c(10, 0, 0));
    connect(&mut s, c(10, 0, 0), c(15, 0, 0));
    connect(&mut s, c(15, 0, 0), c(20, 0, 0));
    assert_eq!(s.networks.len(), 1);
    let changed = s.cut_at(c(10, 0, 0));
    assert_eq!(s.networks.len(), 2);
    assert_eq!(changed.len(), 2);
    assert_ne!(s.cables[0].net, s.cables[1].net);
}

#[test]
fn machine_with_logistics_port_matching_cable_endpoint_gets_member() {
    let mut s = empty();
    connect(&mut s, c(1, 0, 0), c(5, 0, 0));
    // The machine is placed after the cable; its port is read on the next refresh.
    s.add_port(7, 3, c(1, 0, 0));
    let changed = s.refresh_ports(&vec![true]);
    assert!(port_net(&s, 7).is_some());
    assert_eq!(changed, vec![s.networks[0]]);
}

#[test]
fn machine_with_energy_port_matching_cable_endpoint_gets_member() {
    let mut s = with_ports(&[(7, 3, c(1, 0, 0))]);
    connect(&mut s, c(1, 0, 0), c(5, 0, 0));
    assert!(port_net(&s, 7).is_some());
}

#[test]
fn cable_placed_near_machine_port_joins_machine_to_network() {
    let mut s = with_ports(&[(7, 3, c(0, 0, 0))]);
    connect(&mut s, c(0, 0, 0), c(5, 0, 0));
    assert!(port_net(&s, 7).is_some());
}

#[test]
fn cable_removal_destroys_network_and_clears_machine_membership() {
    let mut s = with_ports(&[(7, 3, c(0, 0, 0))]);
    connect(&mut s, c(0, 0, 0), c(5, 0, 0));
    assert!(port_net(&s, 7).is_some());
    s.cut_at(c(0, 0, 0));
    assert!(port_net(&s, 7).is_none());
}

#[test]
fn cable_removal_leaves_one_component_removes_orphaned_machine() {
    let mut s = with_ports(&[(7, 3, c(0, 0, 0))]);
    connect(&mut s, c(0, 0, 0), c(5, 0, 0));
    connect(&mut s, c(5, 0, 0), c(10, 0, 0));
    assert!(port_net(&s, 7).is_some());
    s.cut_at(c(0, 0, 0));
    assert!(port_net(&s, 7).is_none());
    assert_eq!(s.networks.len(), 1);
}

#[test]
fn degenerate_cable_same_endpoints_is_noop() {
    let mut s = empty();
    assert_eq!(connect(&mut s, c(0, 0, 0), c(0, 0, 0)), None);
    assert_eq!(s.networks.len(), 0);
}

#[test]
fn merge_keeps_the_larger_network() {
    let mut s = empty();
    connect(&mut s, c(0, 0, 0), c(5, 0, 0));
    let big = connect(&mut s, c(5, 0, 0), c(6, 0, 0)).unwrap();
    let small = connect(&mut s, c(20, 0, 0), c(25, 0, 0)).unwrap();
    assert_ne!(big, small);
    let joined = connect(&mut s, c(6, 0, 0), c(20, 0, 0)).unwrap();
    assert_eq!(joined, big);
    assert_eq!(s.networks, vec![big]);
}

#[test]
fn cutting_an_empty_cell_changes_nothing() {
    let mut s = empty();
    connect(&mut s, c(0, 0, 0), c(5, 0, 0));
    let changed = s.cut_at(c(3, 0, 0));
    assert!(changed.is_empty());
    assert_eq!(s.cables.len(), 1);
    assert_eq!(s.networks.len(), 1);
}
