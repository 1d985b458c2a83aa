use exergon_core::tech_tree::{NodeCategory, NodeDef, NodeRarity, TechTree, UnlockVector};

fn node(id: &str, tier: u8, prereqs: Vec<&str>) -> NodeDef {
    NodeDef {
        id: id.to_string(),
        name: id.to_string(),
        category: NodeCategory::Science,
        tier,
        rarity: NodeRarity::Common,
        prerequisites: prereqs.into_iter().map(str::to_string).collect(),
        primary_unlock: UnlockVector::ResearchSpend { type_id: "material".to_string(), amount: 1 },
        effects: vec![],
        exclusive_group: None,
    }
}

#[test]
fn empty_nodes_gives_empty_tree() {
    let tree = TechTree::from_nodes(vec![]);
    assert!(tree.nodes.is_empty());
    assert!(tree.dependents.is_empty());
    assert!(tree.tier_order.is_empty());
}

#[test]
fn single_node_no_dependents() {
    let tree = TechTree::from_nodes(vec![node("a", 1, vec![])]);
    assert_eq!(tree.nodes.len(), 1);
    assert!(tree.dependents.is_empty());
    assert_eq!(tree.tier_order, vec!["a"]);
}

#[test]
fn dependents_populated_from_prerequisites() {
    let nodes = vec![node("a", 1, vec![]), node("b", 2, vec!["a"])];
    let tree = TechTree::from_nodes(nodes);
    let deps = tree.dependents.get("a").unwrap();
    assert_eq!(deps, &vec!["b"]);
    assert!(!tree.dependents.contains_key("b"));
}

#[test]
fn tier_order_sorted_ascending() {
    let nodes = vec![node("c", 3, vec![]), node("a", 1, vec![]), node("b", 2, vec![])];
    let tree = TechTree::from_nodes(nodes);
    assert_eq!(tree.tier_order[0], "a");
    assert_eq!(tree.tier_order[1], "b");
    assert_eq!(tree.tier_order[2], "c");
}

#[test]
fn multiple_dependents_on_one_node() {
    let nodes = vec![node("root", 1, vec![]), node("x", 2, vec!["root"]), node("y", 2, vec!["root"])];
    let tree = TechTree::from_nodes(nodes);
    let mut deps = tree.dependents.get("root").unwrap().clone();
    deps.sort();
    assert_eq!(deps, vec!["x", "y"]);
}

#[test]
fn redefined_node_replaces_earlier_definition() {
    let tree = TechTree::from_nodes(vec![node("a", 1, vec![]), node("a", 4, vec![])]);
    assert_eq!(tree.nodes.len(), 1);
    assert_eq!(tree.nodes.get("a").unwrap().tier, 4);
}

#[test]
fn tier_order_keeps_definition_order_within_a_tier() {
    let tree = TechTree::from_nodes(vec![node("q", 2, vec![]), node("p", 1, vec![]), node("r", 2, vec![])]);
    assert_eq!(tree.tier_order, vec!["p", "q", "r"]);
}
