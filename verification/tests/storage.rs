use exergon_core::storage::{give_items, has_items, take_items, StorageUnit};
use exergon_core::strmap::StrMap;

fn unit(entries: &[(&str, u32)]) -> StorageUnit {
    let mut items = StrMap::new();
    for (k, v) in entries {
        items.insert(k.to_string(), *v);
    }
    StorageUnit { items }
}

fn count(u: &StorageUnit, item: &str) -> u32 {
    u.items.get(item).copied().unwrap_or(0)
}

#[test]
fn has_items_sums_over_units() {
    let units = vec![unit(&[("iron", 3)]), unit(&[]), unit(&[("iron", 4)])];
    assert!(has_items(&units, "iron", 7));
    assert!(!has_items(&units, "iron", 8));
    assert!(has_items(&units, "gold", 0));
}

#[test]
fn take_items_drains_in_member_order() {
    let mut units = vec![unit(&[("iron", 3)]), unit(&[("iron", 4), ("coal", 1)])];
    take_items(&mut units, "iron", 5);
    assert!(!units[0].items.contains_key("iron"), "emptied entry is removed");
    assert_eq!(count(&units[1], "iron"), 2);
    assert_eq!(count(&units[1], "coal"), 1);
}

#[test]
fn take_items_takes_at_most_what_is_held() {
    let mut units = vec![unit(&[("iron", 2)])];
    take_items(&mut units, "iron", 10);
    assert_eq!(count(&units[0], "iron"), 0);
    assert!(!has_items(&units, "iron", 1));
}

#[test]
fn give_items_goes_to_first_unit() {
    let mut units = vec![unit(&[]), unit(&[("iron", 1)])];
    give_items(&mut units, "iron", 5);
    assert_eq!(count(&units[0], "iron"), 5);
    assert_eq!(count(&units[1], "iron"), 1);
    let mut none: Vec<StorageUnit> = vec![];
    give_items(&mut none, "iron", 5);
    assert!(none.is_empty());
}

#[test]
fn give_then_take_restores_total() {
    let mut units = vec![unit(&[("iron", 2)]), unit(&[("iron", 3)])];
    give_items(&mut units, "iron", 4);
    assert!(has_items(&units, "iron", 9));
    take_items(&mut units, "iron", 4);
    assert!(has_items(&units, "iron", 5));
    assert!(!has_items(&units, "iron", 6));
}
