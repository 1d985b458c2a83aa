use exergon_core::overlay::{DebugOverlay, NetworkOverlay};

#[test]
fn cycle_visits_all_variants() {
    let sequence = [DebugOverlay::Off, DebugOverlay::Chunks, DebugOverlay::Veins, DebugOverlay::Biomes];
    for (i, &v) in sequence.iter().enumerate() {
        let next = sequence[(i + 1) % sequence.len()];
        assert_eq!(v.cycle(), next);
    }
}

#[test]
fn label_matches_variant() {
    assert_eq!(DebugOverlay::Off.label(), "Off");
    assert_eq!(DebugOverlay::Chunks.label(), "Chunks");
    assert_eq!(DebugOverlay::Veins.label(), "Veins");
    assert_eq!(DebugOverlay::Biomes.label(), "Biomes");
}

#[test]
fn toggle_overlay_f9_cycles_from_none_to_chunks() {
    assert_eq!(DebugOverlay::default().cycle(), DebugOverlay::Chunks);
}

#[test]
fn network_overlay_cycle_visits_all() {
    let sequence = [NetworkOverlay::Off, NetworkOverlay::Power, NetworkOverlay::Logistics];
    for (i, &v) in sequence.iter().enumerate() {
        assert_eq!(v.cycle(), sequence[(i + 1) % sequence.len()]);
    }
}

#[test]
fn network_overlay_label_matches_variant() {
    assert_eq!(NetworkOverlay::Off.label(), "Off");
    assert_eq!(NetworkOverlay::Power.label(), "Power");
    assert_eq!(NetworkOverlay::Logistics.label(), "Logistics");
}

#[test]
fn toggle_network_overlay_f10_cycles_from_none_to_power() {
    assert_eq!(NetworkOverlay::default().cycle(), NetworkOverlay::Power);
}

#[test]
fn four_presses_return_to_start() {
    for o in [DebugOverlay::Off, DebugOverlay::Chunks, DebugOverlay::Veins, DebugOverlay::Biomes] {
        assert_eq!(o.cycle().cycle().cycle().cycle(), o);
    }
}
