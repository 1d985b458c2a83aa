use exergon_core::job_queue::{NetworkCraftQueue, QueuedJob};
use exergon_core::recipe_graph::{ConcreteRecipe, ItemStack, RecipeGraph};
use exergon_core::strmap::StrMap;

fn recipe(id: &str, machine: &str, inputs: &[(&str, u32)], outputs: &[(&str, u32)]) -> ConcreteRecipe {
    ConcreteRecipe {
        id: id.to_string(),
        inputs: inputs.iter().map(|(i, q)| ItemStack { item: i.to_string(), quantity: *q }).collect(),
        outputs: outputs.iter().map(|(o, q)| ItemStack { item: o.to_string(), quantity: *q }).collect(),
        byproducts: vec![],
        machine_type: machine.to_string(),
        machine_tier: 1,
        processing_time_bits: 1.0f32.to_bits(),
        energy_cost_bits: 0,
        energy_output_bits: 0,
        template_id: None,
    }
}

fn graph(recipes: Vec<ConcreteRecipe>) -> RecipeGraph {
    RecipeGraph::from_vecs(vec![], vec![], vec![], recipes, vec![])
}

fn storage(entries: &[(&str, u32)]) -> StrMap<u32> {
    let mut m = StrMap::new();
    for (k, v) in entries {
        m.insert(k.to_string(), *v);
    }
    m
}

fn reserved(q: &NetworkCraftQueue, item: &str) -> u32 {
    q.reserved.get(item).copied().unwrap_or(0)
}

#[test]
fn single_craftable_item_enqueues_one_job() {
    let rg = graph(vec![recipe("make_smelter", "assembler", &[("stone", 20), ("iron_ore", 10)], &[("smelter", 1)])]);
    let mut q = NetworkCraftQueue::new();
    q.enqueue_item("smelter", 1, &rg, &StrMap::new());
    assert_eq!(q.jobs.len(), 1);
    assert_eq!(q.jobs[0].recipe_id, "make_smelter");
}

#[test]
fn dep_enqueued_before_dependent() {
    let rg = graph(vec![
        recipe("smelt_iron", "smelter", &[("iron_ore", 2)], &[("iron_ingot", 1)]),
        recipe("make_circuit", "assembler", &[("iron_ingot", 1)], &[("circuit", 1)]),
    ]);
    let mut q = NetworkCraftQueue::new();
    q.enqueue_item("circuit", 1, &rg, &StrMap::new());
    assert_eq!(q.jobs.len(), 2);
    assert_eq!(q.jobs[0].recipe_id, "smelt_iron");
    assert_eq!(q.jobs[1].recipe_id, "make_circuit");
}

#[test]
fn storage_satisfies_dep_skips_its_job() {
    let rg = graph(vec![
        recipe("smelt_iron", "smelter", &[("iron_ore", 2)], &[("iron_ingot", 1)]),
        recipe("make_circuit", "assembler", &[("iron_ingot", 1)], &[("circuit", 1)]),
    ]);
    let mut q = NetworkCraftQueue::new();
    q.enqueue_item("circuit", 1, &rg, &storage(&[("iron_ingot", 5)]));
    assert_eq!(q.jobs.len(), 1);
    assert_eq!(q.jobs[0].recipe_id, "make_circuit");
}

#[test]
fn storage_satisifes_dep_reserves_item() {
    let rg = graph(vec![
        recipe("smelt_iron", "smelter", &[("iron_ore", 2)], &[("iron_ingot", 1)]),
        recipe("make_circuit", "assembler", &[("iron_ingot", 1)], &[("circuit", 1)]),
    ]);
    let mut q = NetworkCraftQueue::new();
    q.enqueue_item("circuit", 1, &rg, &storage(&[("iron_ingot", 5)]));
    assert_eq!(reserved(&q, "iron_ingot"), 1);
}

#[test]
fn quantity_two_enqueues_two_runs() {
    let rg = graph(vec![recipe("make_smelter", "assembler", &[("stone", 20)], &[("smelter", 1)])]);
    let mut q = NetworkCraftQueue::new();
    q.enqueue_item("smelter", 2, &rg, &StrMap::new());
    assert_eq!(q.jobs.len(), 2);
}

#[test]
fn raw_material_with_no_recipe_not_enqueued() {
    let rg = graph(vec![]);
    let mut q = NetworkCraftQueue::new();
    q.enqueue_item("iron_ore", 5, &rg, &StrMap::new());
    assert_eq!(q.jobs.len(), 0);
}

#[test]
fn inputs_still_needed_sums_across_remaining_jobs() {
    let rg = graph(vec![
        recipe("job_a", "m", &[("x", 2)], &[("out_a", 1)]),
        recipe("job_b", "m", &[("x", 1), ("y", 3)], &[("out_b", 1)]),
    ]);
    let mut q = NetworkCraftQueue::new();
    q.jobs.push_back(QueuedJob { recipe_id: "job_a".into() });
    q.jobs.push_back(QueuedJob { recipe_id: "job_b".into() });
    let needed = q.inputs_still_needed(&rg);
    assert_eq!(needed.get("x").copied().unwrap_or(0), 3);
    assert_eq!(needed.get("y").copied().unwrap_or(0), 3);
}

#[test]
fn multi_unit_output_rounds_runs_up() {
    let rg = graph(vec![recipe("press_plates", "press", &[("iron_ingot", 1)], &[("plate", 4)])]);
    let mut q = NetworkCraftQueue::new();
    q.enqueue_item("plate", 5, &rg, &StrMap::new());
    assert_eq!(q.jobs.len(), 2);
}

#[test]
fn partial_stock_is_reserved_and_rest_crafted() {
    let rg = graph(vec![recipe("smelt_iron", "smelter", &[("iron_ore", 2)], &[("iron_ingot", 1)])]);
    let mut q = NetworkCraftQueue::new();
    q.enqueue_item("iron_ingot", 3, &rg, &storage(&[("iron_ingot", 1), ("iron_ore", 10)]));
    assert_eq!(q.jobs.len(), 2);
    assert_eq!(reserved(&q, "iron_ingot"), 1);
    assert_eq!(reserved(&q, "iron_ore"), 4);
}

#[test]
fn enqueue_appends_after_existing_jobs_and_adds_reservations() {
    let rg = graph(vec![recipe("smelt_iron", "smelter", &[("iron_ore", 2)], &[("iron_ingot", 1)])]);
    let mut q = NetworkCraftQueue::new();
    q.jobs.push_back(QueuedJob { recipe_id: "earlier".into() });
    q.reserved.insert("iron_ore".to_string(), 7);
    q.enqueue_item("iron_ingot", 1, &rg, &storage(&[("iron_ore", 2)]));
    assert_eq!(q.jobs.len(), 2);
    assert_eq!(q.jobs[0].recipe_id, "earlier");
    assert_eq!(q.jobs[1].recipe_id, "smelt_iron");
    assert_eq!(reserved(&q, "iron_ore"), 9);
}
