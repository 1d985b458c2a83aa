use exergon_core::inventory::Hotbar;
use exergon_core::pod::{bind_kit_to_hotbar, starting_kit};

#[test]
fn starting_kit_has_bootstrap_essentials() {
    let kit = starting_kit();
    for k in kit.keys() {
        assert!(*kit.get(&k).unwrap() > 0);
    }
    for essential in ["miner", "solar_generator", "assembler", "analysis_station"] {
        assert!(kit.contains_key(essential), "kit missing {essential}");
    }
}

#[test]
fn starting_kit_exact_contents() {
    let kit = starting_kit();
    assert_eq!(kit.len(), 6);
    assert_eq!(kit.get("logistics_cable"), Some(&100));
    assert_eq!(kit.get("power_cable"), Some(&100));
    assert_eq!(kit.get("miner"), Some(&1));
}

#[test]
fn kit_binds_first_six_hotbar_slots() {
    let mut hotbar = Hotbar::default();
    hotbar.selected = 2;
    bind_kit_to_hotbar(&mut hotbar);
    let ids: Vec<Option<String>> = hotbar.slots.iter().map(|s| s.as_ref().map(|s| s.item_id.clone())).collect();
    assert_eq!(ids[0].as_deref(), Some("miner"));
    assert_eq!(ids[5].as_deref(), Some("power_cable"));
    assert!(ids[6].is_none() && ids[8].is_none());
    assert_eq!(hotbar.selected, 2);
    assert_eq!(hotbar.active_item_id(), Some("assembler"));
}
