use exergon_core::job_queue::{NetworkCraftQueue, QueuedJob};
use exergon_core::production::{
    check_recipes, energy_positive, finish_recipe, pick_recipe, refund_inputs, start_recipe, DispatchMachine, MachineView,
    NetworkQueue, NetworkStock,
};
use exergon_core::recipe_graph::{ConcreteRecipe, ItemStack, RecipeGraph};
use exergon_core::research::{ProductionTally, ResearchPool};
use exergon_core::storage::StorageUnit;
use exergon_core::strmap::{StrMap, StrSet};

fn recipe(id: &str, machine: &str, inputs: &[(&str, u32)], outputs: &[(&str, u32)]) -> ConcreteRecipe {
    ConcreteRecipe {
        id: id.to_string(),
        inputs: inputs.iter().map(|(i, q)| ItemStack { item: i.to_string(), quantity: *q }).collect(),
        outputs: outputs.iter().map(|(o, q)| ItemStack { item: o.to_string(), quantity: *q }).collect(),
        byproducts: vec![],
        machine_type: machine.to_string(),
        machine_tier: 1,
        processing_time_bits: 1.0f32.to_bits(),
        energy_cost_bits: 0,
        energy_output_bits: 0,
        template_id: None,
    }
}

fn graph(recipes: Vec<ConcreteRecipe>) -> RecipeGraph {
    RecipeGraph::from_vecs(vec![], vec![], vec![], recipes, vec![])
}

fn unit(entries: &[(&str, u32)]) -> StorageUnit {
    let mut items = StrMap::new();
    for (k, v) in entries {
        items.insert(k.to_string(), *v);
    }
    StorageUnit { items }
}

fn machine(kind: &str) -> MachineView {
    MachineView { machine_type: kind.to_string(), tier: 1, pod_powered: false, manual_only: false }
}

fn stock(net: u64, units: Vec<StorageUnit>) -> NetworkStock {
    NetworkStock { network: net, units }
}

fn held(stocks: &[NetworkStock], i: usize, item: &str) -> u32 {
    stocks[i].units.iter().map(|u| u.items.get(item).copied().unwrap_or(0)).sum()
}

#[test]
fn idle_machine_picks_recipe_with_inputs_available() {
    let g = graph(vec![recipe("test_recipe", "furnace", &[("iron", 1)], &[("copper", 1)])]);
    let stocks = vec![stock(1, vec![unit(&[("iron", 10)])])];
    let mut q = NetworkCraftQueue::new();
    let picked = pick_recipe(&g, None, &StrSet::new(), &machine("furnace"), &vec![Some(1)], &stocks, &mut q, false);
    assert_eq!(picked.as_deref(), Some("test_recipe"));
}

#[test]
fn no_inputs_no_start() {
    let g = graph(vec![recipe("r", "furnace", &[("iron", 1)], &[("copper", 1)])]);
    let stocks = vec![stock(1, vec![unit(&[])])];
    let mut q = NetworkCraftQueue::new();
    assert!(pick_recipe(&g, None, &StrSet::new(), &machine("furnace"), &vec![Some(1)], &stocks, &mut q, false).is_none());
}

#[test]
fn locked_recipe_not_picked() {
    let g = graph(vec![recipe("r", "furnace", &[], &[("copper", 1)])]);
    let stocks = vec![stock(1, vec![unit(&[])])];
    let unlocked = StrSet::new();
    let mut q = NetworkCraftQueue::new();
    assert!(pick_recipe(&g, Some(&unlocked), &StrSet::new(), &machine("furnace"), &vec![Some(1)], &stocks, &mut q, false).is_none());
    let mut unlocked = StrSet::new();
    unlocked.insert("r".to_string());
    assert_eq!(
        pick_recipe(&g, Some(&unlocked), &StrSet::new(), &machine("furnace"), &vec![Some(1)], &stocks, &mut q, false).as_deref(),
        Some("r")
    );
}

#[test]
fn queued_job_wins_and_releases_reservation() {
    let g = graph(vec![
        recipe("auto", "press", &[("iron", 1)], &[("nail", 1)]),
        recipe("queued", "press", &[("iron", 2)], &[("plate", 1)]),
    ]);
    let stocks = vec![stock(1, vec![unit(&[("iron", 2)])])];
    let mut q = NetworkCraftQueue::new();
    q.jobs.push_back(QueuedJob { recipe_id: "queued".into() });
    q.reserved.insert("iron".to_string(), 2);
    let picked = pick_recipe(&g, None, &StrSet::new(), &machine("press"), &vec![Some(1)], &stocks, &mut q, false);
    assert_eq!(picked.as_deref(), Some("queued"));
    assert!(q.jobs.is_empty());
    assert_eq!(q.reserved.get("iron").copied(), Some(0));
}

#[test]
fn auto_craft_leaves_reserved_items_alone() {
    let g = graph(vec![recipe("auto", "press", &[("iron", 1)], &[("nail", 1)])]);
    let stocks = vec![stock(1, vec![unit(&[("iron", 2)])])];
    let mut q = NetworkCraftQueue::new();
    q.reserved.insert("iron".to_string(), 2);
    assert!(pick_recipe(&g, None, &StrSet::new(), &machine("press"), &vec![Some(1)], &stocks, &mut q, false).is_none());
    q.reserved.insert("iron".to_string(), 1);
    assert_eq!(
        pick_recipe(&g, None, &StrSet::new(), &machine("press"), &vec![Some(1)], &stocks, &mut q, false).as_deref(),
        Some("auto")
    );
}

#[test]
fn manual_only_machine_waits_for_trigger() {
    let g = graph(vec![recipe("r", "bench", &[], &[("widget", 1)])]);
    let stocks = vec![stock(1, vec![unit(&[])])];
    let mut m = machine("bench");
    m.manual_only = true;
    let mut q = NetworkCraftQueue::new();
    assert!(pick_recipe(&g, None, &StrSet::new(), &m, &vec![Some(1)], &stocks, &mut q, false).is_none());
    assert_eq!(pick_recipe(&g, None, &StrSet::new(), &m, &vec![Some(1)], &stocks, &mut q, true).as_deref(), Some("r"));
}

#[test]
fn energy_recipe_needs_power_or_pod() {
    let mut r = recipe("hot", "furnace", &[], &[("glass", 1)]);
    r.energy_cost_bits = 5.0f32.to_bits();
    let g = graph(vec![r]);
    let stocks = vec![stock(1, vec![unit(&[])])];
    let mut q = NetworkCraftQueue::new();
    assert!(pick_recipe(&g, None, &StrSet::new(), &machine("furnace"), &vec![Some(1)], &stocks, &mut q, false).is_none());
    let mut power = StrSet::new();
    power.insert("hot".to_string());
    assert!(pick_recipe(&g, None, &power, &machine("furnace"), &vec![Some(1)], &stocks, &mut q, false).is_some());
    let mut pod = machine("furnace");
    pod.pod_powered = true;
    assert!(pick_recipe(&g, None, &StrSet::new(), &pod, &vec![Some(1)], &stocks, &mut q, false).is_some());
}

#[test]
fn energy_sign_of_bits() {
    assert!(energy_positive(1.5f32.to_bits()));
    assert!(!energy_positive(0.0f32.to_bits()));
    assert!(!energy_positive((-0.0f32).to_bits()));
    assert!(!energy_positive((-2.0f32).to_bits()));
    assert!(!energy_positive(f32::NAN.to_bits()));
    assert!(energy_positive(f32::INFINITY.to_bits()));
}

#[test]
fn outputs_need_a_port_unless_research() {
    let g = graph(vec![recipe("r", "lab", &[], &[("research.engineering", 1)])]);
    let stocks: Vec<NetworkStock> = vec![];
    let mut q = NetworkCraftQueue::new();
    assert!(pick_recipe(&g, None, &StrSet::new(), &machine("lab"), &vec![None], &stocks, &mut q, false).is_some());
    let g = graph(vec![recipe("r2", "lab", &[], &[("beaker", 1)])]);
    assert!(pick_recipe(&g, None, &StrSet::new(), &machine("lab"), &vec![None], &stocks, &mut q, false).is_none());
}

#[test]
fn start_recipe_takes_inputs_from_port_network() {
    let r = recipe("r", "furnace", &[("iron", 1)], &[("copper", 1)]);
    let mut stocks = vec![stock(1, vec![unit(&[("iron", 10)])]), stock(2, vec![unit(&[("iron", 10)])])];
    start_recipe(&r, &vec![None, Some(2)], 1, &mut stocks);
    assert_eq!(held(&stocks, 0, "iron"), 10);
    assert_eq!(held(&stocks, 1, "iron"), 9);
}

#[test]
fn finish_recipe_stores_outputs_and_credits_research() {
    let g = graph(vec![]);
    let mut stocks = vec![stock(1, vec![unit(&[])])];
    let mut queues: Vec<NetworkQueue> = vec![];
    let mut pool = ResearchPool::new();
    let mut tally = ProductionTally::new();
    let outputs = vec![("copper".to_string(), 2), ("research_points".to_string(), 3), ("dust".to_string(), 0)];
    let changed = finish_recipe(&outputs, &vec![Some(1)], &g, &mut stocks, &mut queues, &mut pool, &mut tally);
    assert_eq!(held(&stocks, 0, "copper"), 2);
    assert_eq!(pool.get("material"), 3);
    assert_eq!(tally.get("copper"), 2);
    assert_eq!(tally.get("research_points"), 0);
    assert_eq!(changed, vec![1]);
}

#[test]
fn finish_recipe_reserves_outputs_for_queued_jobs() {
    let g = graph(vec![recipe("use_ingot", "press", &[("ingot", 3)], &[("plate", 1)])]);
    let mut stocks = vec![stock(1, vec![unit(&[])])];
    let mut q = NetworkCraftQueue::new();
    q.jobs.push_back(QueuedJob { recipe_id: "use_ingot".into() });
    let mut queues = vec![NetworkQueue { network: 1, queue: q }];
    let mut pool = ResearchPool::new();
    let mut tally = ProductionTally::new();
    let outputs = vec![("ingot".to_string(), 5)];
    finish_recipe(&outputs, &vec![Some(1)], &g, &mut stocks, &mut queues, &mut pool, &mut tally);
    assert_eq!(queues[0].queue.reserved.get("ingot").copied(), Some(3));
    assert_eq!(held(&stocks, 0, "ingot"), 5);
}

#[test]
fn check_recipes_dispatches_each_machine_once() {
    let g = graph(vec![recipe("r", "furnace", &[], &[("copper", 1)])]);
    let machines = vec![
        DispatchMachine { view: machine("furnace"), idle: true, ports: vec![Some(1), Some(2)], power_ok: StrSet::new() },
        DispatchMachine { view: machine("furnace"), idle: false, ports: vec![Some(1)], power_ok: StrSet::new() },
    ];
    let stocks = vec![stock(1, vec![unit(&[])]), stock(2, vec![unit(&[])])];
    let mut queues = vec![NetworkQueue { network: 1, queue: NetworkCraftQueue::new() }];
    let starts = check_recipes(&g, None, &machines, &vec![1, 2], &stocks, &mut queues, &vec![1, 2], false);
    assert_eq!(starts.len(), 1);
    assert_eq!(starts[0].machine, 0);
    assert_eq!(starts[0].network, 1);
    assert_eq!(starts[0].recipe_id, "r");
}

#[test]
fn check_recipes_idle_frame_starts_nothing() {
    let g = graph(vec![recipe("r", "furnace", &[], &[("copper", 1)])]);
    let machines = vec![DispatchMachine { view: machine("furnace"), idle: true, ports: vec![Some(1)], power_ok: StrSet::new() }];
    let stocks = vec![stock(1, vec![unit(&[])])];
    let mut queues = vec![NetworkQueue { network: 1, queue: NetworkCraftQueue::new() }];
    let starts = check_recipes(&g, None, &machines, &vec![1], &stocks, &mut queues, &vec![], false);
    assert!(starts.is_empty());
}

#[test]
fn idle_machine_starts_recipe_when_inputs_available() {
    let g = graph(vec![recipe("test_recipe", "furnace", &[("iron", 1)], &[("copper", 1)])]);
    let machines = vec![DispatchMachine { view: machine("furnace"), idle: true, ports: vec![Some(1)], power_ok: StrSet::new() }];
    let mut stocks = vec![stock(1, vec![unit(&[("iron", 10)])])];
    let mut queues = vec![NetworkQueue { network: 1, queue: NetworkCraftQueue::new() }];
    let starts = check_recipes(&g, None, &machines, &vec![1], &stocks, &mut queues, &vec![1], false);
    assert_eq!(starts.len(), 1);
    assert_eq!(starts[0].recipe_id, "test_recipe");
    start_recipe(&g.recipes.get("test_recipe").unwrap(), &machines[0].ports, starts[0].network, &mut stocks);
    assert_eq!(held(&stocks, 0, "iron"), 9);
}

#[test]
fn running_machine_completes_and_stores_output() {
    let g = graph(vec![recipe("test_recipe", "furnace", &[], &[("copper", 2)])]);
    let mut stocks = vec![stock(1, vec![unit(&[])])];
    let mut queues: Vec<NetworkQueue> = vec![];
    let mut pool = ResearchPool::new();
    let mut tally = ProductionTally::new();
    let outputs = vec![("copper".to_string(), 2)];
    finish_recipe(&outputs, &vec![Some(1)], &g, &mut stocks, &mut queues, &mut pool, &mut tally);
    assert_eq!(held(&stocks, 0, "copper"), 2);
}

#[test]
fn locked_recipe_not_started_with_progress_resource() {
    let g = graph(vec![recipe("test_recipe", "furnace", &[("iron", 1)], &[("copper", 1)])]);
    let machines = vec![DispatchMachine { view: machine("furnace"), idle: true, ports: vec![Some(1)], power_ok: StrSet::new() }];
    let stocks = vec![stock(1, vec![unit(&[("iron", 10)])])];
    let mut queues = vec![NetworkQueue { network: 1, queue: NetworkCraftQueue::new() }];
    let unlocked = StrSet::new();
    let starts = check_recipes(&g, Some(&unlocked), &machines, &vec![1], &stocks, &mut queues, &vec![1], false);
    assert!(starts.is_empty());
}

#[test]
fn recipe_completion_adds_research_points() {
    let g = graph(vec![]);
    let mut stocks = vec![stock(1, vec![unit(&[])])];
    let mut queues: Vec<NetworkQueue> = vec![];
    let mut pool = ResearchPool::new();
    let mut tally = ProductionTally::new();
    let outputs = vec![("research_points".to_string(), 5)];
    finish_recipe(&outputs, &vec![Some(1)], &g, &mut stocks, &mut queues, &mut pool, &mut tally);
    assert_eq!(pool.get("material"), 5);
}

#[test]
fn idle_machine_starts_recipe_when_power_network_gains_capacity() {
    let mut r = recipe("smelt", "smelter", &[("iron_ore", 1)], &[("iron_ingot", 1)]);
    r.energy_cost_bits = 10.0f32.to_bits();
    let g = graph(vec![r]);
    let mut power_ok = StrSet::new();
    power_ok.insert("smelt".to_string());
    let machines = vec![DispatchMachine { view: machine("smelter"), idle: true, ports: vec![Some(1)], power_ok }];
    let stocks = vec![stock(1, vec![unit(&[("iron_ore", 5)])])];
    let mut queues = vec![NetworkQueue { network: 1, queue: NetworkCraftQueue::new() }];
    // The power network's change marks the machine's logistics network for a check.
    let starts = check_recipes(&g, None, &machines, &vec![1], &stocks, &mut queues, &vec![1], false);
    assert_eq!(starts.len(), 1, "smelter should start when power network gains capacity");
}

#[test]
fn machine_removed_while_running_returns_inputs_to_network() {
    let r = recipe("smelt", "smelter", &[("iron_ore", 3)], &[("iron_ingot", 1)]);
    let mut stocks = vec![stock(1, vec![unit(&[])])];
    refund_inputs(&r, &vec![Some(1)], &mut stocks);
    assert_eq!(held(&stocks, 0, "iron_ore"), 3);
}

#[test]
fn refund_needs_a_port_on_a_stocked_network() {
    let r = recipe("smelt", "smelter", &[("iron_ore", 3), ("coal", 1), ("iron_ore", 2)], &[]);
    let mut stocks = vec![stock(1, vec![unit(&[("iron_ore", 1)]), unit(&[])]), stock(2, vec![unit(&[])])];
    refund_inputs(&r, &vec![None], &mut stocks);
    assert_eq!(held(&stocks, 0, "iron_ore"), 1);
    refund_inputs(&r, &vec![None, Some(9)], &mut stocks);
    assert_eq!(held(&stocks, 0, "iron_ore"), 1);
    refund_inputs(&r, &vec![None, Some(1), Some(2)], &mut stocks);
    assert_eq!(stocks[0].units[0].items.get("iron_ore").copied(), Some(6));
    assert_eq!(held(&stocks, 0, "coal"), 1);
    assert_eq!(held(&stocks, 1, "coal"), 0);
}
