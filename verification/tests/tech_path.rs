use exergon_core::tech_path::{checked_tech_path, find_levels, tech_path};
use exergon_core::tech_tree::{NodeCategory, NodeDef, NodeEffect, NodeRarity, UnlockVector};

fn node(id: &str, prereqs: &[&str]) -> NodeDef {
    NodeDef {
        id: id.to_string(),
        name: id.to_string(),
        category: NodeCategory::Processing,
        tier: 1,
        rarity: NodeRarity::Common,
        prerequisites: prereqs.iter().map(|s| s.to_string()).collect(),
        primary_unlock: UnlockVector::ResearchSpend { type_id: "material".to_string(), amount: 1 },
        effects: vec![NodeEffect::UnlockRecipes(vec![])],
        exclusive_group: None,
    }
}

#[test]
fn path_lists_prerequisites_before_node() {
    let nodes = vec![node("c", &["a", "b"]), node("a", &[]), node("b", &["a"])];
    assert_eq!(tech_path(&nodes, "c"), vec!["a".to_string(), "b".to_string(), "c".to_string()]);
}

#[test]
fn path_lists_shared_prerequisite_once() {
    let nodes = vec![node("root", &[]), node("x", &["root"]), node("y", &["root"]), node("goal", &["x", "y"])];
    assert_eq!(tech_path(&nodes, "goal"), vec!["root", "x", "y", "goal"]);
}

#[test]
fn path_skips_unknown_ids() {
    let nodes = vec![node("a", &["ghost"])];
    assert_eq!(tech_path(&nodes, "a"), vec!["a"]);
    assert!(tech_path(&nodes, "missing").is_empty());
}

#[test]
fn path_follows_first_definition() {
    let nodes = vec![node("a", &[]), node("a", &["b"]), node("b", &[])];
    assert_eq!(tech_path(&nodes, "a"), vec!["a"]);
}

#[test]
fn checked_path_refuses_cycles() {
    let nodes = vec![node("a", &["b"]), node("b", &["a"])];
    assert!(checked_tech_path(&nodes, "a").is_none());
    assert!(find_levels(&nodes).is_none());
}

#[test]
fn checked_path_refuses_self_prerequisite() {
    let nodes = vec![node("a", &["a"])];
    assert!(checked_tech_path(&nodes, "a").is_none());
}

#[test]
fn checked_path_walks_acyclic_trees() {
    let nodes = vec![node("c", &["a", "b"]), node("a", &[]), node("b", &["a"])];
    assert_eq!(checked_tech_path(&nodes, "c"), Some(vec!["a".to_string(), "b".to_string(), "c".to_string()]));
    let levels = find_levels(&nodes).unwrap();
    assert!(levels[1] < levels[2] && levels[2] < levels[0]);
}

#[test]
fn later_duplicate_definitions_do_not_count_as_cycles() {
    let nodes = vec![node("a", &[]), node("a", &["a"])];
    assert_eq!(checked_tech_path(&nodes, "a"), Some(vec!["a".to_string()]));
}
