use exergon_core::recipe_graph::{ConcreteRecipe, ItemStack, RecipeGraph};
use exergon_core::scenario::{
    baseline_path, build_spec, default_one, default_true, lowest_difficulty, node_closure, plan_smoke, DifficultyTier,
    MineTarget, ScenarioSpec, Select, SmokePlan, Step, Target, target_reached,
};
use exergon_core::research::TechTreeProgress;
use exergon_core::strmap::StrMap;
use exergon_core::tech_tree::{NodeCategory, NodeDef, NodeEffect, NodeRarity, TechTree, UnlockVector};

fn node(id: &str, tier: u8, prereqs: &[&str], unlocks: &[&str]) -> NodeDef {
    NodeDef {
        id: id.into(),
        name: id.into(),
        category: NodeCategory::Science,
        tier,
        rarity: NodeRarity::Common,
        prerequisites: prereqs.iter().map(|s| s.to_string()).collect(),
        primary_unlock: UnlockVector::PrerequisiteChain,
        effects: vec![NodeEffect::UnlockRecipes(unlocks.iter().map(|s| s.to_string()).collect())],
        exclusive_group: None,
    }
}

fn tree(nodes: Vec<NodeDef>) -> TechTree {
    let mut map = StrMap::new();
    for n in nodes {
        map.insert(n.id.clone(), n);
    }
    TechTree { nodes: map, dependents: StrMap::new(), tier_order: Vec::new() }
}

fn recipe(id: &str, output: &str) -> ConcreteRecipe {
    ConcreteRecipe {
        id: id.into(),
        inputs: vec![],
        outputs: vec![ItemStack { item: output.into(), quantity: 1 }],
        byproducts: vec![],
        machine_type: "assembler".into(),
        machine_tier: 1,
        processing_time_bits: 1.0f32.to_bits(),
        energy_cost_bits: 0,
        energy_output_bits: 0,
        template_id: None,
    }
}

fn graph(recipes: Vec<ConcreteRecipe>) -> RecipeGraph {
    let mut producers: StrMap<Vec<String>> = StrMap::new();
    for r in &recipes {
        for out in &r.outputs {
            let mut list = producers.get(&out.item).cloned().unwrap_or_default();
            list.push(r.id.clone());
            producers.insert(out.item.clone(), list);
        }
    }
    let mut map = StrMap::new();
    for r in recipes {
        map.insert(r.id.clone(), r);
    }
    RecipeGraph {
        materials: StrMap::new(),
        form_groups: StrMap::new(),
        templates: StrMap::new(),
        items: StrMap::new(),
        recipes: map,
        terminal: String::new(),
        producers,
        consumers: StrMap::new(),
        template_recipes: StrMap::new(),
    }
}

#[test]
fn picks_lowest_difficulty_covering_the_target_tier() {
    let t = tree(vec![node("early", 2, &[], &[]), node("late", 4, &[], &[])]);
    let g = graph(vec![]);

    let early = plan_smoke(&t, &g, &Target::Node("early".into()), None).unwrap();
    assert_eq!(early.difficulty, DifficultyTier::Initiation, "tier 2 fits Initiation (cap 3)");

    let late = plan_smoke(&t, &g, &Target::Node("late".into()), None).unwrap();
    assert_eq!(late.difficulty, DifficultyTier::Standard, "tier 4 needs Standard (cap 5)");
}

#[test]
fn item_with_no_producer_fails_preflight_naming_it() {
    let t = tree(vec![]);
    let g = graph(vec![]);
    let err = plan_smoke(&t, &g, &Target::Item("phantom_plate".into()), None).err().unwrap();
    assert!(err.contains("phantom_plate"), "error must name the item, got: {err}");
    assert!(err.contains("no producing recipe"), "error must explain the gap, got: {err}");
}

#[test]
fn broken_prerequisite_chain_fails_naming_the_missing_node() {
    let t = tree(vec![node("child", 2, &["ghost"], &[])]);
    let g = graph(vec![]);
    let err = plan_smoke(&t, &g, &Target::Node("child".into()), None).err().unwrap();
    assert!(err.contains("ghost"), "error must name the missing prereq, got: {err}");
}

#[test]
fn item_target_resolves_tier_via_its_unlocking_node() {
    let t = tree(vec![node("forming", 3, &[], &["roll_widget"])]);
    let g = graph(vec![recipe("roll_widget", "widget")]);

    let plan = plan_smoke(&t, &g, &Target::Item("widget".into()), None).unwrap();
    assert_eq!(plan.tier, 3);
    assert_eq!(plan.difficulty, DifficultyTier::Initiation, "tier 3 fits Initiation cap");
    assert!(
        matches!(&plan.exercise, Step::Craft { item, count: 1 } if item == "widget"),
        "item target is exercised by crafting it, got {:?}",
        plan.exercise
    );
}

#[test]
fn build_spec_truncates_the_build_tail_and_appends_the_exercise() {
    let baseline = ScenarioSpec {
        name: "baseline".into(),
        seed: 0xABCD,
        difficulty: DifficultyTier::Standard,
        steps: vec![
            Step::Pump(true),
            Step::Research { node: "a".into() },
            Step::Pump(false),
            Step::Build { jobs: vec![("launch".into(), 1)] },
        ],
        max_secs_bits: 1234.0f32.to_bits(),
        require: vec![],
        select: Select::Force,
    };
    let plan = SmokePlan {
        difficulty: DifficultyTier::Initiation,
        tier: 2,
        exercise: Step::Research { node: "target".into() },
        require: vec!["target".into()],
    };

    let spec = build_spec("smoke__target", &baseline, &plan, Select::Force);

    assert_eq!(spec.difficulty, DifficultyTier::Initiation, "plan difficulty wins");
    assert_eq!(spec.seed, 0xABCD, "seed carried from the baseline");
    assert_eq!(spec.require, vec!["target".to_string()], "closure recorded on the require seam");
    assert!(!spec.steps.iter().any(|s| matches!(s, Step::Build { .. })), "the successor build tail is dropped");
    assert!(matches!(spec.steps[spec.steps.len() - 2], Step::Research { ref node } if node == "target"));
    assert!(matches!(spec.steps.last(), Some(Step::Pump(false))));
}

#[test]
fn build_spec_without_disarm_drops_only_build_steps() {
    let baseline = ScenarioSpec {
        name: "b".into(),
        seed: 1,
        difficulty: DifficultyTier::Standard,
        steps: vec![
            Step::Scan,
            Step::Build { jobs: vec![] },
            Step::Recon { ore: "xalite".into() },
        ],
        max_secs_bits: 0,
        require: vec![],
        select: Select::Force,
    };
    let plan = SmokePlan {
        difficulty: DifficultyTier::Standard,
        tier: 0,
        exercise: Step::Craft { item: "widget".into(), count: 1 },
        require: vec![],
    };
    let spec = build_spec("n", &baseline, &plan, Select::Force);
    assert_eq!(spec.steps.len(), 4);
    assert!(matches!(spec.steps[0], Step::Scan));
    assert!(matches!(spec.steps[1], Step::Recon { ref ore } if ore == "xalite"));
    assert!(matches!(spec.steps[2], Step::Craft { ref item, count: 1 } if item == "widget"));
    assert!(matches!(spec.steps[3], Step::Pump(false)));
    assert_eq!(spec.name, "n");
}

#[test]
fn lowest_difficulty_caps() {
    assert_eq!(lowest_difficulty(0), DifficultyTier::Initiation);
    assert_eq!(lowest_difficulty(3), DifficultyTier::Initiation);
    assert_eq!(lowest_difficulty(4), DifficultyTier::Standard);
    assert_eq!(lowest_difficulty(5), DifficultyTier::Standard);
    assert_eq!(DifficultyTier::Initiation.max_tier(), 3);
    assert_eq!(DifficultyTier::Standard.max_tier(), 5);
}

#[test]
fn forced_difficulty_below_tier_is_refused() {
    let t = tree(vec![node("late", 4, &[], &[])]);
    let g = graph(vec![]);
    let err = plan_smoke(&t, &g, &Target::Node("late".into()), Some(DifficultyTier::Initiation)).err().unwrap();
    assert_eq!(err, "target is tier 4 but difficulty Initiation caps at tier 3");
}

#[test]
fn unknown_targets_are_named() {
    let t = tree(vec![]);
    let g = graph(vec![ConcreteRecipe { outputs: vec![], ..recipe("empty", "x") }]);
    assert_eq!(plan_smoke(&t, &g, &Target::Node("nope".into()), None).err().unwrap(), "unknown tech node `nope`");
    assert_eq!(plan_smoke(&t, &g, &Target::Recipe("nope".into()), None).err().unwrap(), "unknown recipe `nope`");
    assert_eq!(
        plan_smoke(&t, &g, &Target::Recipe("empty".into()), None).err().unwrap(),
        "recipe `empty` has no output to craft"
    );
}

#[test]
fn starter_recipe_is_tier_zero_with_empty_closure() {
    let t = tree(vec![]);
    let g = graph(vec![recipe("starter", "brick")]);
    let plan = plan_smoke(&t, &g, &Target::Recipe("starter".into()), None).unwrap();
    assert_eq!(plan.tier, 0);
    assert!(plan.require.is_empty());
    assert_eq!(plan.difficulty, DifficultyTier::Initiation);
}

#[test]
fn closure_is_tier_sorted_and_complete() {
    let t = tree(vec![
        node("top", 3, &["mid", "base"], &[]),
        node("mid", 2, &["base"], &[]),
        node("base", 1, &[], &[]),
        node("other", 1, &[], &[]),
    ]);
    let closure = node_closure(&t, "top").unwrap();
    assert_eq!(closure, vec!["base", "mid", "top"]);
    let plan = plan_smoke(&t, &graph(vec![]), &Target::Node("top".into()), None).unwrap();
    assert_eq!(plan.require, vec!["base", "mid", "top"]);
}

#[test]
fn closure_error_names_missing_node() {
    let t = tree(vec![node("a", 1, &["b"], &[]), node("b", 1, &["gone"], &[])]);
    assert_eq!(node_closure(&t, "a").err().unwrap(), "prerequisite `gone` is missing from the tech tree");
}

#[test]
fn baseline_paths_by_difficulty() {
    assert_eq!(baseline_path(DifficultyTier::Initiation).unwrap(), "scenarios/initiation.ron");
    assert_eq!(baseline_path(DifficultyTier::Standard).unwrap(), "scenarios/standard.ron");
    assert_eq!(baseline_path(DifficultyTier::Advanced).err().unwrap(), "no baseline scenario for difficulty Advanced yet");
}

#[test]
fn target_ids_and_defaults() {
    assert_eq!(Target::Node("n".into()).id(), "n");
    assert_eq!(Target::Recipe("r".into()).id(), "r");
    assert_eq!(Target::Item("i".into()).id(), "i");
    assert!(default_true());
    assert_eq!(default_one(), 1);
    let deploy = Step::Deploy { machine: "miner".into(), powered: default_true(), count: default_one(), on: Some(MineTarget::Origin), bind: None };
    assert!(matches!(deploy.duplicate(), Step::Deploy { count: 1, powered: true, on: Some(MineTarget::Origin), .. }));
}

#[test]
fn target_reached_by_unlock_or_hub_stock() {
    let mut p = TechTreeProgress::new();
    p.unlocked_nodes.insert("smelting".to_string());
    p.unlocked_recipes.insert("iron_plate".to_string());
    assert!(target_reached(&Target::Node("smelting".into()), &p, 0));
    assert!(!target_reached(&Target::Node("iron_plate".into()), &p, 5));
    assert!(target_reached(&Target::Recipe("iron_plate".into()), &p, 0));
    assert!(!target_reached(&Target::Recipe("steel".into()), &p, 0));
    assert!(target_reached(&Target::Item("steel".into()), &p, 1));
    assert!(!target_reached(&Target::Item("steel".into()), &p, 0));
}
