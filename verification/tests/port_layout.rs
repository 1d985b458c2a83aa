use exergon_core::port_layout::extract_layout;

fn named(v: &[(&str, (f32, f32, f32))]) -> Vec<(String, (f32, f32, f32))> {
    v.iter().map(|(n, p)| (n.to_string(), *p)).collect()
}

#[test]
fn extract_layout_groups_by_prefix_and_sorts_by_index() {
    let nodes = named(&[
        ("Port_Energy_1", (0.0, 0.0, 2.0)),
        ("Port_Energy_0", (3.0, 0.0, 0.0)),
        ("Port_Logistics_0", (-3.0, 0.0, 0.0)),
        ("Body", (0.0, 0.0, 0.0)),
    ]);
    let (energy, logistics) = extract_layout(&nodes);
    assert_eq!(energy, vec![(3.0, 0.0, 0.0), (0.0, 0.0, 2.0)]);
    assert_eq!(logistics, vec![(-3.0, 0.0, 0.0)]);
}

#[test]
fn extract_layout_ignores_unparsable_indices() {
    let nodes = named(&[
        ("Port_Energy_x", (1.0, 0.0, 0.0)),
        ("Port_Energy_", (2.0, 0.0, 0.0)),
        ("port_energy_0", (3.0, 0.0, 0.0)),
        ("Port_Logistics_10", (4.0, 0.0, 0.0)),
        ("Port_Logistics_2", (5.0, 0.0, 0.0)),
    ]);
    let (energy, logistics) = extract_layout(&nodes);
    assert!(energy.is_empty());
    assert_eq!(logistics, vec![(5.0, 0.0, 0.0), (4.0, 0.0, 0.0)]);
}

#[test]
fn extract_layout_equal_indices_keep_node_order() {
    let nodes = named(&[("Port_Energy_1", (1.0, 0.0, 0.0)), ("Port_Energy_1", (2.0, 0.0, 0.0)), ("Port_Energy_0", (3.0, 0.0, 0.0))]);
    let (energy, _) = extract_layout(&nodes);
    assert_eq!(energy, vec![(3.0, 0.0, 0.0), (1.0, 0.0, 0.0), (2.0, 0.0, 0.0)]);
}
