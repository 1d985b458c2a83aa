use exergon_core::recipe_graph::RecipeGraph;
use exergon_core::research::{
    check_research_unlocks, format_research_balances, research_theme_of, ProductionTally, ResearchPool, TechTreeProgress,
};
use exergon_core::strmap::StrMap;
use exergon_core::tech_tree::{NodeCategory, NodeDef, NodeEffect, NodeRarity, TechTree, UnlockVector};

fn make_tree(nodes: Vec<NodeDef>) -> TechTree {
    let tier_order: Vec<String> = nodes.iter().map(|n| n.id.clone()).collect();
    let mut map = StrMap::new();
    for n in nodes {
        map.insert(n.id.clone(), n);
    }
    TechTree { nodes: map, dependents: StrMap::new(), tier_order }
}

fn base_node(id: &str, cost: u32, prereqs: Vec<String>) -> NodeDef {
    NodeDef {
        id: id.to_string(),
        name: id.to_string(),
        category: NodeCategory::Processing,
        tier: 1,
        rarity: NodeRarity::Common,
        prerequisites: prereqs,
        primary_unlock: UnlockVector::ResearchSpend { type_id: "material".to_string(), amount: cost },
        effects: vec![NodeEffect::UnlockRecipes(vec![format!("recipe_{id}")])],
        exclusive_group: None,
    }
}

fn material_pool(amount: u64) -> ResearchPool {
    let mut p = ResearchPool::new();
    p.add("material", amount);
    p
}

fn requests(ids: &[&str]) -> Vec<String> {
    ids.iter().map(|s| s.to_string()).collect()
}

/// One frame of the research system with the given requests and discoveries.
fn run(
    tree: Option<&TechTree>,
    graph: Option<&RecipeGraph>,
    pool: &mut ResearchPool,
    progress: &mut TechTreeProgress,
    tally: Option<&ProductionTally>,
    reqs: &[&str],
    found: &[&str],
) -> usize {
    check_research_unlocks(tree, graph, pool, progress, tally, &requests(reqs), &requests(found)).len()
}

#[test]
fn unlocks_node_on_player_request_with_enough_points() {
    let tree = make_tree(vec![base_node("alpha", 50, vec![])]);
    let mut pool = material_pool(50);
    let mut progress = TechTreeProgress::new();
    run(Some(&tree), None, &mut pool, &mut progress, None, &["alpha"], &[]);
    assert!(progress.unlocked_nodes.contains("alpha"));
    assert!(progress.unlocked_recipes.contains("recipe_alpha"));
    assert_eq!(pool.get("material"), 0);
}

#[test]
fn does_not_unlock_without_enough_points() {
    let tree = make_tree(vec![base_node("alpha", 50, vec![])]);
    let mut pool = material_pool(49);
    let mut progress = TechTreeProgress::new();
    run(Some(&tree), None, &mut pool, &mut progress, None, &["alpha"], &[]);
    assert!(!progress.unlocked_nodes.contains("alpha"));
    assert_eq!(pool.get("material"), 49, "no RP deducted on failed unlock");
}

#[test]
fn does_not_unlock_when_prereqs_missing() {
    let tree = make_tree(vec![base_node("alpha", 50, vec![]), base_node("beta", 50, vec!["alpha".to_string()])]);
    let mut pool = material_pool(50);
    let mut progress = TechTreeProgress::new();
    run(Some(&tree), None, &mut pool, &mut progress, None, &["beta"], &[]);
    assert!(!progress.unlocked_nodes.contains("beta"), "beta needs alpha first");
    assert_eq!(pool.get("material"), 50, "no RP deducted when prereqs not met");
}

#[test]
fn unlocks_chain_in_single_frame() {
    let tree = make_tree(vec![base_node("alpha", 50, vec![]), base_node("beta", 50, vec!["alpha".to_string()])]);
    let mut pool = material_pool(100);
    let mut progress = TechTreeProgress::new();
    run(Some(&tree), None, &mut pool, &mut progress, None, &["alpha", "beta"], &[]);
    assert!(progress.unlocked_nodes.contains("alpha"));
    assert!(progress.unlocked_nodes.contains("beta"));
}

#[test]
fn no_tech_tree_resource_is_noop() {
    let mut pool = material_pool(999);
    let mut progress = TechTreeProgress::new();
    run(None, None, &mut pool, &mut progress, None, &["alpha"], &[]);
    assert_eq!(pool.get("material"), 999);
}

#[test]
fn unlock_machine_effect_populates_unlocked_machines() {
    let mut node = base_node("alpha", 10, vec![]);
    node.effects = vec![NodeEffect::UnlockMachine("smelter".to_string())];
    let tree = make_tree(vec![node]);
    let mut pool = material_pool(10);
    let mut progress = TechTreeProgress::new();
    run(Some(&tree), None, &mut pool, &mut progress, None, &["alpha"], &[]);
    assert!(progress.unlocked_machines.contains("smelter"));
}

#[test]
fn research_spend_does_not_auto_unlock() {
    let tree = make_tree(vec![base_node("alpha", 50, vec![])]);
    let mut pool = material_pool(999);
    let mut progress = TechTreeProgress::new();
    run(Some(&tree), None, &mut pool, &mut progress, None, &[], &[]);
    assert!(!progress.unlocked_nodes.contains("alpha"));
}

#[test]
fn exploration_discovery_unlocks_on_matching_key() {
    let mut node = base_node("alpha", 0, vec![]);
    node.primary_unlock = UnlockVector::ExplorationDiscovery("xalite_deposit".to_string());
    let tree = make_tree(vec![node]);
    let mut pool = material_pool(0);
    let mut progress = TechTreeProgress::new();
    run(Some(&tree), None, &mut pool, &mut progress, None, &[], &["xalite_deposit"]);
    assert!(progress.unlocked_nodes.contains("alpha"));
}

#[test]
fn exploration_discovery_does_not_unlock_on_wrong_key() {
    let mut node = base_node("alpha", 0, vec![]);
    node.primary_unlock = UnlockVector::ExplorationDiscovery("xalite_deposit".to_string());
    let tree = make_tree(vec![node]);
    let mut pool = material_pool(0);
    let mut progress = TechTreeProgress::new();
    run(Some(&tree), None, &mut pool, &mut progress, None, &[], &["wrong_key"]);
    assert!(!progress.unlocked_nodes.contains("alpha"));
}

fn milestone_node(id: &str, material: &str, quantity: u64, prereqs: Vec<String>) -> NodeDef {
    let mut node = base_node(id, 0, prereqs);
    node.primary_unlock = UnlockVector::ProductionMilestone { material: material.to_string(), quantity };
    node
}

#[test]
fn production_milestone_unlocks_when_threshold_reached() {
    let tree = make_tree(vec![milestone_node("miner", "stone", 50, vec![])]);
    let mut pool = material_pool(0);
    let mut progress = TechTreeProgress::new();
    let mut tally = ProductionTally::new();
    tally.record("stone", 50);
    run(Some(&tree), None, &mut pool, &mut progress, Some(&tally), &[], &[]);
    assert!(progress.unlocked_nodes.contains("miner"));
}

#[test]
fn production_milestone_does_not_unlock_below_threshold() {
    let tree = make_tree(vec![milestone_node("miner", "stone", 50, vec![])]);
    let mut pool = material_pool(0);
    let mut progress = TechTreeProgress::new();
    let mut tally = ProductionTally::new();
    tally.record("stone", 49);
    run(Some(&tree), None, &mut pool, &mut progress, Some(&tally), &[], &[]);
    assert!(!progress.unlocked_nodes.contains("miner"));
}

#[test]
fn production_milestone_respects_prerequisites() {
    let tree = make_tree(vec![base_node("alpha", 50, vec![]), milestone_node("beta", "stone", 10, vec!["alpha".to_string()])]);
    let mut pool = material_pool(0);
    let mut progress = TechTreeProgress::new();
    let mut tally = ProductionTally::new();
    tally.record("stone", 10);
    run(Some(&tree), None, &mut pool, &mut progress, Some(&tally), &[], &[]);
    assert!(!progress.unlocked_nodes.contains("beta"), "milestone met but prereq alpha not unlocked");
}

#[test]
fn research_theme_routing() {
    assert_eq!(research_theme_of("research_points"), Some("material"));
    assert_eq!(research_theme_of("research.engineering"), Some("engineering"));
    assert_eq!(research_theme_of("iron_ingot"), None);
}

#[test]
fn pool_spend_isolated_per_theme() {
    let mut p = ResearchPool::new();
    p.add("material", 50);
    assert!(!p.spend("engineering", 10), "no engineering balance to spend");
    assert!(p.spend("material", 30));
    assert_eq!(p.get("material"), 20);
    assert_eq!(p.get("engineering"), 0);
}

#[test]
fn research_spend_uses_named_theme_only() {
    let mut node = base_node("eng_node", 10, vec![]);
    node.primary_unlock = UnlockVector::ResearchSpend { type_id: "engineering".to_string(), amount: 10 };
    let tree = make_tree(vec![node]);
    let mut pool = material_pool(100);
    let mut progress = TechTreeProgress::new();
    run(Some(&tree), None, &mut pool, &mut progress, None, &["eng_node"], &[]);
    assert!(!progress.unlocked_nodes.contains("eng_node"), "material currency must not pay an engineering cost");
    pool.add("engineering", 10);
    run(Some(&tree), None, &mut pool, &mut progress, None, &["eng_node"], &[]);
    assert!(progress.unlocked_nodes.contains("eng_node"), "engineering balance should pay the engineering cost");
}

#[test]
fn production_tally_record_accumulates() {
    let mut tally = ProductionTally::new();
    tally.record("iron_ingot", 3);
    tally.record("iron_ingot", 2);
    assert_eq!(tally.get("iron_ingot"), 5);
    assert_eq!(tally.get("never_made"), 0);
}

#[test]
fn exclusive_group_disables_peers_on_unlock() {
    let mut node_a = base_node("solar", 50, vec![]);
    node_a.exclusive_group = Some("power_tier1".into());
    let mut node_b = base_node("wind", 50, vec![]);
    node_b.exclusive_group = Some("power_tier1".into());
    let tree = make_tree(vec![node_a, node_b]);
    let mut pool = material_pool(50);
    let mut progress = TechTreeProgress::new();
    run(Some(&tree), None, &mut pool, &mut progress, None, &["solar"], &[]);
    assert!(progress.unlocked_nodes.contains("solar"));
    assert!(progress.disabled_nodes.contains("wind"), "wind should be locked out");
    assert!(!progress.unlocked_nodes.contains("wind"));
}

#[test]
fn exclusive_peers_discovered_together_unlock_only_the_first() {
    let mut node_a = base_node("solar", 0, vec![]);
    node_a.exclusive_group = Some("power_tier1".into());
    node_a.primary_unlock = UnlockVector::ExplorationDiscovery("sunny_ridge".to_string());
    let mut node_b = base_node("wind", 0, vec![]);
    node_b.exclusive_group = Some("power_tier1".into());
    node_b.primary_unlock = UnlockVector::ExplorationDiscovery("windy_pass".to_string());
    let tree = make_tree(vec![node_a, node_b]);
    let mut pool = material_pool(0);
    let mut progress = TechTreeProgress::new();
    let n = run(Some(&tree), None, &mut pool, &mut progress, None, &[], &["sunny_ridge", "windy_pass"]);
    assert_eq!(n, 1);
    assert!(progress.unlocked_nodes.contains("solar"));
    assert!(!progress.unlocked_nodes.contains("wind"));
    assert!(progress.disabled_nodes.contains("wind"));
    assert!(!progress.disabled_nodes.contains("solar"));
}

#[test]
fn disabled_node_cannot_be_unlocked() {
    let tree = make_tree(vec![base_node("alpha", 10, vec![])]);
    let mut pool = material_pool(999);
    let mut progress = TechTreeProgress::new();
    progress.disabled_nodes.insert("alpha".into());
    run(Some(&tree), None, &mut pool, &mut progress, None, &["alpha"], &[]);
    assert!(!progress.unlocked_nodes.contains("alpha"));
}

fn make_recipe_graph_with_template(template_id: &str, recipe_ids: Vec<&str>) -> RecipeGraph {
    let mut template_recipes = StrMap::new();
    template_recipes.insert(template_id.to_string(), recipe_ids.into_iter().map(str::to_string).collect());
    RecipeGraph {
        materials: StrMap::new(),
        form_groups: StrMap::new(),
        templates: StrMap::new(),
        items: StrMap::new(),
        recipes: StrMap::new(),
        terminal: String::new(),
        producers: StrMap::new(),
        consumers: StrMap::new(),
        template_recipes,
    }
}

#[test]
fn unlock_recipe_template_unlocks_all_expanded_recipes() {
    let mut node = base_node("smelting", 10, vec![]);
    node.effects = vec![NodeEffect::UnlockRecipeTemplate("smelt_metal".to_string())];
    let tree = make_tree(vec![node]);
    let graph = make_recipe_graph_with_template("smelt_metal", vec!["smelt_metal__iron", "smelt_metal__copper"]);
    let mut pool = material_pool(10);
    let mut progress = TechTreeProgress::new();
    run(Some(&tree), Some(&graph), &mut pool, &mut progress, None, &["smelting"], &[]);
    assert!(progress.unlocked_recipes.contains("smelt_metal__iron"));
    assert!(progress.unlocked_recipes.contains("smelt_metal__copper"));
}

#[test]
fn unlock_events_report_how_each_node_unlocked() {
    let mut chained = base_node("beta", 0, vec!["alpha".to_string()]);
    chained.primary_unlock = UnlockVector::PrerequisiteChain;
    let tree = make_tree(vec![base_node("alpha", 5, vec![]), chained]);
    let mut pool = material_pool(5);
    let mut progress = TechTreeProgress::new();
    let events = check_research_unlocks(Some(&tree), None, &mut pool, &mut progress, None, &requests(&["alpha"]), &vec![]);
    assert_eq!(events.len(), 2);
    assert_eq!(events[0].node_id, "alpha");
    assert!(events[0].via_research);
    assert_eq!(events[1].node_id, "beta");
    assert!(!events[1].via_research);
}

#[test]
fn already_unlocked_node_is_not_paid_twice() {
    let tree = make_tree(vec![base_node("alpha", 5, vec![])]);
    let mut pool = material_pool(10);
    let mut progress = TechTreeProgress::new();
    run(Some(&tree), None, &mut pool, &mut progress, None, &["alpha"], &[]);
    run(Some(&tree), None, &mut pool, &mut progress, None, &["alpha"], &[]);
    assert_eq!(pool.get("material"), 5);
}

#[test]
fn balances_empty_pool_is_zero() {
    assert_eq!(format_research_balances(&ResearchPool::new()), "0");
}

#[test]
fn balances_sorted_by_theme_nonzero_only() {
    let mut pool = ResearchPool::new();
    pool.add("material", 120);
    pool.add("synthesis", 0);
    pool.add("engineering", 40);
    assert!(pool.spend("discovery", 5) == false);
    assert_eq!(format_research_balances(&pool), "engineering:40  material:120");
}

#[test]
fn balances_all_spent_is_zero() {
    let mut pool = ResearchPool::new();
    pool.add("material", 10);
    assert!(pool.spend("material", 10));
    assert_eq!(format_research_balances(&pool), "0");
}
