use exergon_core::drone::{deposit_inventory, is_xalite_deposit, DroneInventory, FogOfWar};
use exergon_core::storage::StorageUnit;
use exergon_core::strmap::StrMap;

#[test]
fn reveal_cell_reports_news_once() {
    let mut fog = FogOfWar::new();
    assert!(fog.reveal_cell(0, 0));
    assert!(!fog.reveal_cell(0, 0));
    assert!(fog.reveal_cell(1, 0));
    assert_eq!(fog.chunk_count(), 1);
}

#[test]
fn reveal_cell_handles_negative_cells_and_chunks() {
    let mut fog = FogOfWar::new();
    assert!(fog.reveal_cell(-1, -1));
    assert!(fog.reveal_cell(3, 3));
    assert!(fog.reveal_cell(4, 0));
    assert!(fog.reveal_cell(-4, 0));
    assert!(fog.reveal_cell(-5, 0));
    assert_eq!(fog.chunk_count(), 5);
    assert!(!fog.reveal_cell(-5, 0));
}

#[test]
fn fog_reveal_marks_cells_in_radius() {
    let mut fog = FogOfWar::new();
    for dz in -2..=2 {
        for dx in -2..=2 {
            fog.reveal_cell(dx, dz);
        }
    }
    assert!(fog.chunk_count() > 0, "fog should have revealed cells");
    assert!(!fog.reveal_cell(2, -2));
}

#[test]
fn drone_deposit_moves_items_to_storage() {
    let mut items = StrMap::new();
    items.insert("iron_ore".to_string(), 5u32);
    let mut inventory = DroneInventory { items };
    let mut stored = StrMap::new();
    stored.insert("copper_ore".to_string(), 3u32);
    stored.insert("iron_ore".to_string(), 2u32);
    let mut storage = StorageUnit { items: stored };
    deposit_inventory(&mut inventory, &mut storage);
    assert!(inventory.items.is_empty(), "drone inventory should be empty after deposit");
    assert_eq!(storage.items.get("iron_ore").copied().unwrap_or(0), 7);
    assert_eq!(storage.items.get("copper_ore").copied().unwrap_or(0), 3);
}

#[test]
fn deposit_discovery_fires_once_for_xalite() {
    assert!(is_xalite_deposit(&vec!["iron_ore".to_string(), "xalite".to_string()]));
}

#[test]
fn deposit_discovery_ignores_non_xalite() {
    assert!(!is_xalite_deposit(&vec!["iron_ore".to_string()]));
}

#[test]
fn reveal_cells_reports_each_news_once() {
    let mut fog = FogOfWar::new();
    fog.reveal_cell(1, 1);
    let fresh = fog.reveal_cells(&vec![(0, 0), (1, 1), (0, 0), (5, -3)]);
    assert_eq!(fresh, vec![(0, 0), (5, -3)]);
    assert!(!fog.reveal_cell(5, -3));
    assert!(fog.reveal_cell(2, 2));
}
