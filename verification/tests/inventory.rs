use exergon_core::inventory::{Hotbar, HotbarSlot, ItemRegistry};
use exergon_core::recipe_graph::{ItemDef, ItemKind};

fn item(id: &str) -> ItemDef {
    ItemDef { id: id.to_string(), name: id.to_string(), kind: ItemKind::Unique, is_terminal: false }
}

#[test]
fn registry_register_and_get() {
    let mut reg = ItemRegistry::default();
    reg.register(item("iron"));
    assert!(reg.get("iron").is_some());
    assert!(reg.get("gold").is_none());
}

#[test]
fn hotbar_active_empty() {
    let h = Hotbar::default();
    assert!(h.active_item_id().is_none());
}

#[test]
fn hotbar_active_returns_selected_slot() {
    let mut h = Hotbar::default();
    h.slots[0] = Some(HotbarSlot { item_id: "iron".to_string() });
    assert_eq!(h.active_item_id(), Some("iron"));
}

#[test]
fn hotbar_selection_out_of_range_is_none() {
    let mut h = Hotbar::default();
    h.slots[8] = Some(HotbarSlot { item_id: "coal".to_string() });
    h.selected = 9;
    assert_eq!(h.active_item_id(), None);
    h.selected = 8;
    assert_eq!(h.active_item_id(), Some("coal"));
}

#[test]
fn registering_again_replaces_definition() {
    let mut reg = ItemRegistry::new();
    reg.register(item("iron"));
    let mut again = item("iron");
    again.name = "Iron".to_string();
    reg.register(again);
    assert_eq!(reg.get("iron").unwrap().name, "Iron");
}
