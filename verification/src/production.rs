//! Crafting decisions of the logistics simulation: which recipe an idle
//! machine starts (a queued job first, else an auto-craft recipe that leaves
//! the queue's earmarked items alone), and the stock checks behind it.

use vstd::prelude::*;
use crate::job_queue::{NetworkCraftQueue, QueuedJob, get0, job_ids, queued_inputs, totals};
use crate::recipe_graph::{ConcreteRecipe, ItemStack, RecipeGraph};
use crate::research::{ProductionTally, ResearchPool, balance, research_theme_of, theme_of};
use crate::storage::{StorageUnit, give_items, has_items, stored, take_items};
use crate::strmap::{StrMap, StrSet};
use crate::text::{owned, str_eq};

verus! {

/// The storage units of one logistics network, in member order.
pub struct NetworkStock {
    pub network: u64,
    pub units: Vec<StorageUnit>,
}

/// What the dispatcher knows of an idle machine.
pub struct MachineView {
    pub machine_type: String,
    pub tier: u8,
    /// Powered by the landing pod: needs no power network.
    pub pod_powered: bool,
    /// Runs only queued jobs, or on an explicit manual trigger.
    pub manual_only: bool,
}

/// Every network's count of every item fits in a `u32`.
pub open spec fn stocks_bounded(stocks: Seq<NetworkStock>) -> bool {
    forall|i: int, item: Seq<char>| 0 <= i < stocks.len() ==> #[trigger] stored(stocks[i].units@, item) <= u32::MAX
}

/// The position of the first stock of network `net`.
pub open spec fn stock_index(stocks: Seq<NetworkStock>, net: u64) -> Option<int> {
    if exists|i: int| 0 <= i < stocks.len() && (#[trigger] stocks[i]).network == net {
        Some(choose|i: int| 0 <= i < stocks.len() && (#[trigger] stocks[i]).network == net
            && forall|j: int| 0 <= j < i ==> (#[trigger] stocks[j]).network != net)
    } else {
        None
    }
}

/// Whether network `net` is known and holds at least `count` of `item`.
pub open spec fn net_has(stocks: Seq<NetworkStock>, net: u64, item: Seq<char>, count: u32) -> bool {
    match stock_index(stocks, net) {
        Some(i) => stored(stocks[i].units@, item) >= count,
        None => false,
    }
}

/// `a + b`, capped at `u32::MAX`.
pub open spec fn sat_add(a: u32, b: u32) -> u32 {
    if a + b > u32::MAX {
        u32::MAX
    } else {
        (a + b) as u32
    }
}

/// `a - b`, floored at 0.
pub open spec fn sat_sub(a: u32, b: u32) -> u32 {
    if a >= b {
        (a - b) as u32
    } else {
        0
    }
}

/// Whether one input can be drawn: some port's network holds the quantity
/// plus what is earmarked of the item.
pub open spec fn input_ok(input: ItemStack, ports: Seq<Option<u64>>, stocks: Seq<NetworkStock>, reserved: Map<Seq<char>, u32>) -> bool {
    exists|p: int| 0 <= p < ports.len() && (#[trigger] ports[p]) is Some && net_has(
        stocks,
        ports[p]->0,
        input.item@,
        sat_add(input.quantity, get0(reserved, input.item@)),
    )
}

/// Whether every input of the recipe can be drawn.
pub open spec fn inputs_ok(r: ConcreteRecipe, ports: Seq<Option<u64>>, stocks: Seq<NetworkStock>, reserved: Map<Seq<char>, u32>) -> bool {
    forall|k: int| 0 <= k < r.inputs@.len() ==> input_ok(#[trigger] r.inputs@[k], ports, stocks, reserved)
}

/// Whether every output and byproduct has somewhere to go: research points
/// go to the pool, anything else needs a port on a network.
pub open spec fn routable(r: ConcreteRecipe, ports: Seq<Option<u64>>) -> bool {
    let any_port = exists|p: int| 0 <= p < ports.len() && (#[trigger] ports[p]) is Some;
    &&& forall|k: int| 0 <= k < r.outputs@.len() ==> (theme_of((#[trigger] r.outputs@[k]).item@) is Some || any_port)
    &&& forall|k: int| 0 <= k < r.byproducts@.len() ==> (theme_of((#[trigger] r.byproducts@[k]).item@) is Some || any_port)
}

/// Whether the `f32` with these bits is greater than zero.
pub open spec fn positive_bits(bits: u32) -> bool {
    (bits & 0x8000_0000u32) == 0 && bits != 0 && !((bits & 0x7F80_0000u32) == 0x7F80_0000u32 && (bits & 0x007F_FFFFu32) != 0)
}

/// Whether the machine may run the recipe: its type, a tier it reaches,
/// unlocked (when progress is tracked), and powered when it draws energy.
pub open spec fn eligible(r: ConcreteRecipe, m: MachineView, unlocked: Option<Set<Seq<char>>>, power_ok: Set<Seq<char>>) -> bool {
    &&& r.machine_type@ == m.machine_type@
    &&& r.machine_tier <= m.tier
    &&& unlocked matches Some(u) ==> u.contains(r.id@)
    &&& (!positive_bits(r.energy_cost_bits) || m.pod_powered || power_ok.contains(r.id@))
}

/// Whether queued job `rid` can start on the machine now (queued jobs may
/// use earmarked items).
pub open spec fn job_ready(
    g: RecipeGraph,
    rid: Seq<char>,
    m: MachineView,
    unlocked: Option<Set<Seq<char>>>,
    power_ok: Set<Seq<char>>,
    ports: Seq<Option<u64>>,
    stocks: Seq<NetworkStock>,
) -> bool {
    &&& g.recipes@.contains_key(rid)
    &&& eligible(g.recipes@[rid], m, unlocked, power_ok)
    &&& inputs_ok(g.recipes@[rid], ports, stocks, Map::empty())
    &&& routable(g.recipes@[rid], ports)
}

/// The first queued job that can start.
pub open spec fn first_ready_job(
    g: RecipeGraph,
    jobs: Seq<Seq<char>>,
    m: MachineView,
    unlocked: Option<Set<Seq<char>>>,
    power_ok: Set<Seq<char>>,
    ports: Seq<Option<u64>>,
    stocks: Seq<NetworkStock>,
) -> Option<int> {
    if exists|i: int| 0 <= i < jobs.len() && job_ready(g, #[trigger] jobs[i], m, unlocked, power_ok, ports, stocks) {
        Some(choose|i: int| 0 <= i < jobs.len() && job_ready(g, #[trigger] jobs[i], m, unlocked, power_ok, ports, stocks)
            && forall|j: int| 0 <= j < i ==> !job_ready(g, #[trigger] jobs[j], m, unlocked, power_ok, ports, stocks))
    } else {
        None
    }
}

/// Whether the recipe stored under key `k` can auto-start without touching
/// earmarked items.
pub open spec fn auto_ready(
    g: RecipeGraph,
    k: Seq<char>,
    m: MachineView,
    unlocked: Option<Set<Seq<char>>>,
    power_ok: Set<Seq<char>>,
    ports: Seq<Option<u64>>,
    stocks: Seq<NetworkStock>,
    reserved: Map<Seq<char>, u32>,
) -> bool {
    &&& eligible(g.recipes@[k], m, unlocked, power_ok)
    &&& inputs_ok(g.recipes@[k], ports, stocks, reserved)
    &&& routable(g.recipes@[k], ports)
}

/// The position, in the graph's recipe order, of the first recipe that can auto-start.
pub open spec fn first_auto(
    g: RecipeGraph,
    m: MachineView,
    unlocked: Option<Set<Seq<char>>>,
    power_ok: Set<Seq<char>>,
    ports: Seq<Option<u64>>,
    stocks: Seq<NetworkStock>,
    reserved: Map<Seq<char>, u32>,
) -> Option<int> {
    let ks = g.recipes.key_seq();
    if exists|i: int| 0 <= i < ks.len() && auto_ready(g, #[trigger] ks[i], m, unlocked, power_ok, ports, stocks, reserved) {
        Some(choose|i: int| 0 <= i < ks.len() && auto_ready(g, #[trigger] ks[i], m, unlocked, power_ok, ports, stocks, reserved)
            && forall|j: int| 0 <= j < i ==> !auto_ready(g, #[trigger] ks[j], m, unlocked, power_ok, ports, stocks, reserved))
    } else {
        None
    }
}

/// The earmarks after a started job's inputs are released, one input at a
/// time; each released item keeps an entry, floored at 0.
pub open spec fn release(m: Map<Seq<char>, u32>, inputs: Seq<ItemStack>, n: nat) -> Map<Seq<char>, u32>
    decreases n,
{
    if n == 0 || n > inputs.len() {
        m
    } else {
        let m1 = release(m, inputs, (n - 1) as nat);
        let it = inputs[n - 1];
        m1.insert(it.item@, sat_sub(get0(m1, it.item@), it.quantity))
    }
}

/// The unlocked-recipe set of optional progress.
pub open spec fn unlocked_view(p: Option<&StrSet>) -> Option<Set<Seq<char>>> {
    match p {
        Some(u) => Some(u@),
        None => None,
    }
}

/// Whether the `f32` with these bits is greater than zero.
pub fn energy_positive(bits: u32) -> (b: bool)
    ensures
        b == positive_bits(bits),
{
    (bits & 0x8000_0000u32) == 0 && bits != 0 && !((bits & 0x7F80_0000u32) == 0x7F80_0000u32 && (bits & 0x007F_FFFFu32) != 0)
}

fn find_stock(stocks: &Vec<NetworkStock>, net: u64) -> (r: Option<usize>)
    ensures
        match r {
            Some(i) => stock_index(stocks@, net) == Some(i as int) && i < stocks@.len() && stocks@[i as int].network == net,
            None => stock_index(stocks@, net) is None,
        },
{
    let mut i: usize = 0;
    while i < stocks.len()
        invariant
            i <= stocks@.len(),
            forall|j: int| 0 <= j < i ==> (#[trigger] stocks@[j]).network != net,
        decreases stocks@.len() - i,
    {
        if stocks[i].network == net {
            proof {
                let s = stocks@;
                let c = choose|c: int| 0 <= c < s.len() && (#[trigger] s[c]).network == net
                    && forall|j: int| 0 <= j < c ==> (#[trigger] s[j]).network != net;
                assert(s[i as int].network == net);
                assert(c == i as int) by {
                    if c < i {
                        assert(s[c].network != net);
                    } else if c > i {
                        assert(s[i as int].network != net);
                    }
                }
            }
            return Some(i);
        }
        i += 1;
    }
    None
}

#[verifier::rlimit(50)]
fn input_available(input: &ItemStack, ports: &Vec<Option<u64>>, stocks: &Vec<NetworkStock>, reserved: &StrMap<u32>) -> (b: bool)
    requires
        stocks_bounded(stocks@),
    ensures
        b == input_ok(*input, ports@, stocks@, reserved@),
{
    let extra = match reserved.get(input.item.as_str()) {
        Some(v) => *v,
        None => 0,
    };
    let needed = input.quantity.saturating_add(extra);
    assert(needed == sat_add(input.quantity, get0(reserved@, input.item@)));
    let mut p: usize = 0;
    while p < ports.len()
        invariant
            p <= ports@.len(),
            stocks_bounded(stocks@),
            needed == sat_add(input.quantity, get0(reserved@, input.item@)),
            forall|j: int| 0 <= j < p ==> !((#[trigger] ports@[j]) is Some && net_has(stocks@, ports@[j]->0, input.item@, needed)),
        decreases ports@.len() - p,
    {
        if let Some(net) = ports[p] {
            if let Some(si) = find_stock(stocks, net) {
                assert(stored(stocks@[si as int].units@, input.item@) <= u32::MAX);
                if has_items(&stocks[si].units, input.item.as_str(), needed) {
                    assert(ports@[p as int] is Some && net_has(stocks@, ports@[p as int]->0, input.item@, needed));
                    return true;
                }
            }
        }
        p += 1;
    }
    false
}

fn recipe_inputs_available(recipe: &ConcreteRecipe, ports: &Vec<Option<u64>>, stocks: &Vec<NetworkStock>, reserved: &StrMap<u32>) -> (b: bool)
    requires
        stocks_bounded(stocks@),
    ensures
        b == inputs_ok(*recipe, ports@, stocks@, reserved@),
{
    let mut k: usize = 0;
    while k < recipe.inputs.len()
        invariant
            k <= recipe.inputs@.len(),
            stocks_bounded(stocks@),
            forall|j: int| 0 <= j < k ==> input_ok(#[trigger] recipe.inputs@[j], ports@, stocks@, reserved@),
        decreases recipe.inputs@.len() - k,
    {
        if !input_available(&recipe.inputs[k], ports, stocks, reserved) {
            return false;
        }
        k += 1;
    }
    true
}

fn any_port(ports: &Vec<Option<u64>>) -> (b: bool)
    ensures
        b == exists|p: int| 0 <= p < ports@.len() && (#[trigger] ports@[p]) is Some,
{
    let mut p: usize = 0;
    while p < ports.len()
        invariant
            p <= ports@.len(),
            forall|j: int| 0 <= j < p ==> !((#[trigger] ports@[j]) is Some),
        decreases ports@.len() - p,
    {
        if ports[p].is_some() {
            return true;
        }
        p += 1;
    }
    false
}

fn all_have_destination(stacks: &Vec<ItemStack>, has_port: bool) -> (b: bool)
    ensures
        b == forall|k: int| 0 <= k < stacks@.len() ==> (theme_of((#[trigger] stacks@[k]).item@) is Some || has_port),
{
    let mut k: usize = 0;
    while k < stacks.len()
        invariant
            k <= stacks@.len(),
            forall|j: int| 0 <= j < k ==> (theme_of((#[trigger] stacks@[j]).item@) is Some || has_port),
        decreases stacks@.len() - k,
    {
        if research_theme_of(stacks[k].item.as_str()).is_none() && !has_port {
            return false;
        }
        k += 1;
    }
    true
}

fn recipe_outputs_routable(recipe: &ConcreteRecipe, ports: &Vec<Option<u64>>) -> (b: bool)
    ensures
        b == routable(*recipe, ports@),
{
    let has_port = any_port(ports);
    all_have_destination(&recipe.outputs, has_port) && all_have_destination(&recipe.byproducts, has_port)
}

fn recipe_eligible(recipe: &ConcreteRecipe, machine: &MachineView, unlocked: Option<&StrSet>, power_ok: &StrSet) -> (b: bool)
    ensures
        b == eligible(*recipe, *machine, unlocked_view(unlocked), power_ok@),
{
    if !str_eq(recipe.machine_type.as_str(), machine.machine_type.as_str()) || recipe.machine_tier > machine.tier {
        return false;
    }
    if let Some(u) = unlocked {
        if !u.contains(recipe.id.as_str()) {
            return false;
        }
    }
    !energy_positive(recipe.energy_cost_bits) || machine.pod_powered || power_ok.contains(recipe.id.as_str())
}

fn release_inputs(reserved: &mut StrMap<u32>, inputs: &Vec<ItemStack>)
    ensures
        final(reserved)@ == release(old(reserved)@, inputs@, inputs@.len()),
{
    let mut k: usize = 0;
    while k < inputs.len()
        invariant
            k <= inputs@.len(),
            reserved@ == release(old(reserved)@, inputs@, k as nat),
        decreases inputs@.len() - k,
    {
        let item = &inputs[k].item;
        let cur = match reserved.get(item.as_str()) {
            Some(v) => *v,
            None => 0,
        };
        reserved.insert(item.clone(), cur.saturating_sub(inputs[k].quantity));
        k += 1;
    }
}

/// Picks the recipe an idle machine on this network starts. The first queued
/// job that is ready wins: it leaves the queue and its inputs' earmarks are
/// released. Otherwise a manual-only machine starts nothing unless manually
/// triggered; any other machine auto-starts the first ready recipe of the
/// graph, counting the queue's earmarks as unavailable.
pub fn pick_recipe(
    graph: &RecipeGraph,
    unlocked: Option<&StrSet>,
    power_ok: &StrSet,
    machine: &MachineView,
    ports: &Vec<Option<u64>>,
    stocks: &Vec<NetworkStock>,
    queue: &mut NetworkCraftQueue,
    manual: bool,
) -> (r: Option<String>)
    requires
        stocks_bounded(stocks@),
    ensures
        ({
            let g = *graph;
            let u = unlocked_view(unlocked);
            let jobs = job_ids(old(queue).jobs@);
            match first_ready_job(g, jobs, *machine, u, power_ok@, ports@, stocks@) {
                Some(i) => {
                    &&& r matches Some(id) && id@ == jobs[i]
                    &&& job_ids(final(queue).jobs@) == jobs.remove(i)
                    &&& final(queue).reserved@ == release(old(queue).reserved@, g.recipes@[jobs[i]].inputs@, g.recipes@[jobs[i]].inputs@.len())
                },
                None => {
                    &&& final(queue).jobs@ == old(queue).jobs@
                    &&& final(queue).reserved@ == old(queue).reserved@
                    &&& (machine.manual_only && !manual) ==> r is None
                    &&& !(machine.manual_only && !manual) ==> match first_auto(g, *machine, u, power_ok@, ports@, stocks@, old(queue).reserved@) {
                        Some(k) => r matches Some(id) && id@ == g.recipes@[g.recipes.key_seq()[k]].id@,
                        None => r is None,
                    }
                },
            }
        }),
        final(queue).jobs@.len() <= old(queue).jobs@.len(),
{
    let ghost g = *graph;
    let ghost u = unlocked_view(unlocked);
    let ghost jobs = job_ids(queue.jobs@);
    let empty: StrMap<u32> = StrMap::new();
    let n = queue.jobs.len();
    let mut i: usize = 0;
    while i < n
        invariant
            n == jobs.len(),
            jobs == job_ids(queue.jobs@),
            queue.jobs@ == old(queue).jobs@,
            queue.reserved@ == old(queue).reserved@,
            empty@ == Map::<Seq<char>, u32>::empty(),
            stocks_bounded(stocks@),
            g == *graph,
            u == unlocked_view(unlocked),
            i <= n,
            forall|j: int| 0 <= j < i ==> !job_ready(g, #[trigger] jobs[j], *machine, u, power_ok@, ports@, stocks@),
        decreases n - i,
    {
        let rid = &queue.jobs[i].recipe_id;
        assert(rid@ == jobs[i as int]);
        let ready = match graph.recipes.get(rid.as_str()) {
            None => false,
            Some(recipe) => recipe_eligible(recipe, machine, unlocked, power_ok)
                && recipe_inputs_available(recipe, ports, stocks, &empty)
                && recipe_outputs_routable(recipe, ports),
        };
        if ready {
            let id = rid.clone();
            proof {
                let c = choose|c: int| 0 <= c < jobs.len() && job_ready(g, #[trigger] jobs[c], *machine, u, power_ok@, ports@, stocks@)
                    && forall|j: int| 0 <= j < c ==> !job_ready(g, #[trigger] jobs[j], *machine, u, power_ok@, ports@, stocks@);
                assert(job_ready(g, jobs[i as int], *machine, u, power_ok@, ports@, stocks@));
                assert(c == i as int) by {
                    if c < i {
                        assert(!job_ready(g, jobs[c], *machine, u, power_ok@, ports@, stocks@));
                    } else if c > i {
                        assert(!job_ready(g, jobs[i as int], *machine, u, power_ok@, ports@, stocks@));
                    }
                }
            }
            let ghost before = queue.jobs@;
            queue.jobs.remove(i);
            assert(job_ids(queue.jobs@) =~= jobs.remove(i as int)) by {
                assert(queue.jobs@ == before.remove(i as int));
            }
            let recipe = graph.recipes.get(id.as_str()).unwrap();
            release_inputs(&mut queue.reserved, &recipe.inputs);
            return Some(id);
        }
        i += 1;
    }
    assert(first_ready_job(g, jobs, *machine, u, power_ok@, ports@, stocks@) is None);
    if machine.manual_only && !manual {
        return None;
    }
    let ghost ks = graph.recipes.key_seq();
    let m = graph.recipes.len();
    let mut k: usize = 0;
    while k < m
        invariant
            m == ks.len(),
            m == graph.recipes.spec_len(),
            ks == graph.recipes.key_seq(),
            jobs == job_ids(old(queue).jobs@),
            first_ready_job(g, jobs, *machine, u, power_ok@, ports@, stocks@) is None,
            !(machine.manual_only && !manual),
            queue.jobs@ == old(queue).jobs@,
            queue.reserved@ == old(queue).reserved@,
            stocks_bounded(stocks@),
            g == *graph,
            u == unlocked_view(unlocked),
            k <= m,
            forall|j: int| 0 <= j < k ==> !auto_ready(g, #[trigger] ks[j], *machine, u, power_ok@, ports@, stocks@, old(queue).reserved@),
        decreases m - k,
    {
        let recipe = graph.recipes.value_at(k);
        if recipe_eligible(recipe, machine, unlocked, power_ok)
            && recipe_inputs_available(recipe, ports, stocks, &queue.reserved)
            && recipe_outputs_routable(recipe, ports) {
            proof {
                let c = choose|c: int| 0 <= c < ks.len() && auto_ready(g, #[trigger] ks[c], *machine, u, power_ok@, ports@, stocks@, old(queue).reserved@)
                    && forall|j: int| 0 <= j < c ==> !auto_ready(g, #[trigger] ks[j], *machine, u, power_ok@, ports@, stocks@, old(queue).reserved@);
                assert(auto_ready(g, ks[k as int], *machine, u, power_ok@, ports@, stocks@, old(queue).reserved@));
                assert(c == k as int) by {
                    if c < k {
                        assert(!auto_ready(g, ks[c], *machine, u, power_ok@, ports@, stocks@, old(queue).reserved@));
                    } else if c > k {
                        assert(!auto_ready(g, ks[k as int], *machine, u, power_ok@, ports@, stocks@, old(queue).reserved@));
                    }
                }
            }
            return Some(recipe.id.clone());
        }
        k += 1;
    }
    None
}

/// An idle-or-busy machine as the dispatcher sees it.
pub struct DispatchMachine {
    pub view: MachineView,
    /// Whether the machine is idle (only idle machines start recipes).
    pub idle: bool,
    /// The network of each logistics port, `None` for a port on no network.
    pub ports: Vec<Option<u64>>,
    /// The recipes whose energy draw this machine's power network can meet now.
    pub power_ok: StrSet,
}

/// A decision to start a recipe on a machine, drawing from a network.
pub struct RecipeStart {
    pub machine: usize,
    pub recipe_id: String,
    pub network: u64,
}

/// A network's crafting queue, keyed by the network.
pub struct NetworkQueue {
    pub network: u64,
    pub queue: NetworkCraftQueue,
}

fn queue_index(queues: &Vec<NetworkQueue>, net: u64) -> (r: Option<usize>)
    ensures
        match r {
            Some(i) => i < queues@.len() && queues@[i as int].network == net && queue_of(queues@, net) == Some(i as int),
            None => forall|j: int| 0 <= j < queues@.len() ==> (#[trigger] queues@[j]).network != net,
        },
        r is None <==> queue_of(queues@, net) is None,
{
    let mut i: usize = 0;
    while i < queues.len()
        invariant
            i <= queues@.len(),
            forall|j: int| 0 <= j < i ==> (#[trigger] queues@[j]).network != net,
        decreases queues@.len() - i,
    {
        if queues[i].network == net {
            proof {
                let s = queues@;
                let c = choose|c: int| 0 <= c < s.len() && (#[trigger] s[c]).network == net
                    && forall|j: int| 0 <= j < c ==> (#[trigger] s[j]).network != net;
                assert(s[i as int].network == net);
                assert(c == i as int) by {
                    if c < i {
                        assert(s[c].network != net);
                    } else if c > i {
                        assert(s[i as int].network != net);
                    }
                }
            }
            return Some(i);
        }
        i += 1;
    }
    None
}

fn contains_net(v: &Vec<u64>, net: u64) -> (b: bool)
    ensures
        b == v@.contains(net),
{
    let mut i: usize = 0;
    while i < v.len()
        invariant
            i <= v@.len(),
            forall|j: int| 0 <= j < i ==> v@[j] != net,
        decreases v@.len() - i,
    {
        if v[i] == net {
            return true;
        }
        i += 1;
    }
    false
}

fn port_on(ports: &Vec<Option<u64>>, net: u64) -> (b: bool)
    ensures
        b == ports@.contains(Some(net)),
{
    let mut i: usize = 0;
    while i < ports.len()
        invariant
            i <= ports@.len(),
            forall|j: int| 0 <= j < i ==> ports@[j] != Some(net),
        decreases ports@.len() - i,
    {
        if ports[i] == Some(net) {
            return true;
        }
        i += 1;
    }
    false
}

/// A crafting queue as the dispatcher sees it: its jobs' recipe ids and its
/// earmarks.
pub ghost struct QState {
    pub jobs: Seq<Seq<char>>,
    pub reserved: Map<Seq<char>, u32>,
}

/// The dispatcher's view of a queue.
pub open spec fn qstate(q: NetworkCraftQueue) -> QState {
    QState { jobs: job_ids(q.jobs@), reserved: q.reserved@ }
}

/// The dispatcher's view of every network queue, in order.
pub open spec fn queue_states(qs: Seq<NetworkQueue>) -> Seq<QState> {
    qs.map_values(|q: NetworkQueue| qstate(q.queue))
}

/// A start as (machine, recipe id, network).
pub open spec fn start_views(s: Seq<RecipeStart>) -> Seq<(usize, Seq<char>, u64)> {
    s.map_values(|st: RecipeStart| (st.machine, st.recipe_id@, st.network))
}

/// What offering queue `q` to machine `m` yields, as `pick_recipe` states
/// it: the recipe started, if any, and the queue afterwards.
pub open spec fn pick_outcome(
    g: RecipeGraph,
    u: Option<Set<Seq<char>>>,
    m: DispatchMachine,
    stocks: Seq<NetworkStock>,
    q: QState,
    manual: bool,
) -> (Option<Seq<char>>, QState) {
    match first_ready_job(g, q.jobs, m.view, u, m.power_ok@, m.ports@, stocks) {
        Some(i) => (
            Some(q.jobs[i]),
            QState { jobs: q.jobs.remove(i), reserved: release(q.reserved, g.recipes@[q.jobs[i]].inputs@, g.recipes@[q.jobs[i]].inputs@.len()) },
        ),
        None => (
            if m.view.manual_only && !manual {
                None
            } else {
                match first_auto(g, m.view, u, m.power_ok@, m.ports@, stocks, q.reserved) {
                    Some(k) => Some(g.recipes@[g.recipes.key_seq()[k]].id@),
                    None => None,
                }
            },
            q,
        ),
    }
}

/// The dispatcher's progress: the starts so far and every queue's state.
pub ghost struct DState {
    pub starts: Seq<(usize, Seq<char>, u64)>,
    pub queues: Seq<QState>,
}

/// Machine `mi` has started something already.
pub open spec fn has_started(st: DState, mi: int) -> bool {
    exists|a: int| 0 <= a < st.starts.len() && (#[trigger] st.starts[a]).0 == mi
}

/// Offering network `net` (whose queue is at `qi`, if it has one) to machine
/// `mi`: an idle machine with a port on the network that has not started
/// anything yet takes what the queue, or else auto-crafting, gives it.
pub open spec fn machine_step(
    g: RecipeGraph,
    u: Option<Set<Seq<char>>>,
    machines: Seq<DispatchMachine>,
    stocks: Seq<NetworkStock>,
    manual: bool,
    net: u64,
    qi: Option<int>,
    st: DState,
    mi: int,
) -> DState {
    let m = machines[mi];
    if has_started(st, mi) || !m.idle || !m.ports@.contains(Some(net)) {
        st
    } else {
        let q = match qi {
            Some(i) => st.queues[i],
            None => QState { jobs: Seq::empty(), reserved: Map::empty() },
        };
        let out = pick_outcome(g, u, m, stocks, q, manual);
        let queues = match qi {
            Some(i) => st.queues.update(i, out.1),
            None => st.queues,
        };
        match out.0 {
            Some(id) => DState { starts: st.starts.push((mi as usize, id, net)), queues },
            None => DState { starts: st.starts, queues },
        }
    }
}

/// Offering network `net` to the first `k` machines in order.
pub open spec fn machines_upto(
    g: RecipeGraph,
    u: Option<Set<Seq<char>>>,
    machines: Seq<DispatchMachine>,
    stocks: Seq<NetworkStock>,
    manual: bool,
    net: u64,
    qi: Option<int>,
    st: DState,
    k: int,
) -> DState
    decreases k,
{
    if k <= 0 {
        st
    } else {
        machine_step(g, u, machines, stocks, manual, net, qi, machines_upto(g, u, machines, stocks, manual, net, qi, st, k - 1), k - 1)
    }
}

/// Running the first `n` networks in order: a network is checked on a manual
/// trigger, when its storage or power changed, or when its queue still has
/// jobs; a checked network is offered to every machine.
pub open spec fn nets_upto(
    g: RecipeGraph,
    u: Option<Set<Seq<char>>>,
    machines: Seq<DispatchMachine>,
    networks: Seq<u64>,
    stocks: Seq<NetworkStock>,
    queues: Seq<NetworkQueue>,
    affected: Seq<u64>,
    manual: bool,
    st: DState,
    n: int,
) -> DState
    decreases n,
{
    if n <= 0 {
        st
    } else {
        let s1 = nets_upto(g, u, machines, networks, stocks, queues, affected, manual, st, n - 1);
        let net = networks[n - 1];
        let qi = queue_of(queues, net);
        let queued = match qi {
            Some(i) => s1.queues[i].jobs.len() > 0,
            None => false,
        };
        if manual || queued || affected.contains(net) {
            machines_upto(g, u, machines, stocks, manual, net, qi, s1, machines.len() as int)
        } else {
            s1
        }
    }
}

/// Everything one frame of dispatching does, from fresh queues.
pub open spec fn dispatch(
    g: RecipeGraph,
    u: Option<Set<Seq<char>>>,
    machines: Seq<DispatchMachine>,
    networks: Seq<u64>,
    stocks: Seq<NetworkStock>,
    queues: Seq<NetworkQueue>,
    affected: Seq<u64>,
    manual: bool,
) -> DState {
    nets_upto(g, u, machines, networks, stocks, queues, affected, manual, DState { starts: Seq::empty(), queues: queue_states(queues) }, networks.len() as int)
}

/// Whether a network is checked this frame: on a manual trigger, when its
/// queue has jobs, or when its storage or power changed.
pub open spec fn net_checked(queues: Seq<NetworkQueue>, affected: Seq<u64>, manual: bool, net: u64) -> bool {
    manual || affected.contains(net) || exists|q: int| 0 <= q < queues.len() && (#[trigger] queues[q]).network == net
        && queues[q].queue.jobs@.len() > 0
}

proof fn lemma_started_is_dispatched(t0: DState, starts: Seq<RecipeStart>, dispatched: Seq<usize>)
    requires
        start_views(starts) == t0.starts,
        starts.len() == dispatched.len(),
        forall|a: int| 0 <= a < starts.len() ==> (#[trigger] starts[a]).machine == dispatched[a],
    ensures
        forall|x: usize| has_started(t0, x as int) <==> dispatched.contains(x),
{
    assert forall|x: usize| has_started(t0, x as int) <==> dispatched.contains(x) by {
        if has_started(t0, x as int) {
            let a = choose|a: int| 0 <= a < t0.starts.len() && (#[trigger] t0.starts[a]).0 == x as int;
            assert(start_views(starts)[a] == (starts[a].machine, starts[a].recipe_id@, starts[a].network));
            assert(dispatched[a] == x);
        }
        if dispatched.contains(x) {
            let a = choose|a: int| 0 <= a < dispatched.len() && dispatched[a] == x;
            assert(start_views(starts)[a] == (starts[a].machine, starts[a].recipe_id@, starts[a].network));
            assert(t0.starts[a].0 == x as int);
        }
    }
}

/// Starts recipes on idle machines, network by network: each checked
/// network offers its queue (then auto-crafting) to every idle machine with a
/// port on it that has not started anything yet. Nothing starts when no
/// network changed, no trigger came and every queue is empty.
#[verifier::rlimit(100)]
pub fn check_recipes(
    graph: &RecipeGraph,
    unlocked: Option<&StrSet>,
    machines: &Vec<DispatchMachine>,
    networks: &Vec<u64>,
    stocks: &Vec<NetworkStock>,
    queues: &mut Vec<NetworkQueue>,
    affected: &Vec<u64>,
    manual: bool,
) -> (starts: Vec<RecipeStart>)
    requires
        stocks_bounded(stocks@),
    ensures
        forall|a: int, b: int| 0 <= a < b < starts@.len() ==> (#[trigger] starts@[a]).machine != (#[trigger] starts@[b]).machine,
        forall|a: int| 0 <= a < starts@.len() ==> {
            let st = #[trigger] starts@[a];
            &&& st.machine < machines@.len()
            &&& machines@[st.machine as int].idle
            &&& machines@[st.machine as int].ports@.contains(Some(st.network))
            &&& networks@.contains(st.network)
            &&& net_checked(old(queues)@, affected@, manual, st.network)
        },
        final(queues)@.len() == old(queues)@.len(),
        forall|q: int| 0 <= q < old(queues)@.len() ==> (#[trigger] final(queues)@[q]).network == old(queues)@[q].network,
        (!manual && affected@.len() == 0 && forall|q: int| 0 <= q < old(queues)@.len() ==> (#[trigger] old(queues)@[q]).queue.jobs@.len() == 0)
            ==> starts@.len() == 0,
        start_views(starts@) == dispatch(*graph, unlocked_view(unlocked), machines@, networks@, stocks@, old(queues)@, affected@, manual).starts,
        queue_states(final(queues)@) == dispatch(*graph, unlocked_view(unlocked), machines@, networks@, stocks@, old(queues)@, affected@, manual).queues,
{
    let ghost g = *graph;
    let ghost u = unlocked_view(unlocked);
    let ghost st0 = DState { starts: Seq::empty(), queues: queue_states(queues@) };
    let mut starts: Vec<RecipeStart> = Vec::new();
    let mut any_queued = false;
    let mut q: usize = 0;
    while q < queues.len()
        invariant
            q <= queues@.len(),
            any_queued == exists|j: int| 0 <= j < q && (#[trigger] queues@[j]).queue.jobs@.len() > 0,
        decreases queues@.len() - q,
    {
        if queues[q].queue.jobs.len() > 0 {
            any_queued = true;
        }
        q += 1;
    }
    if affected.len() == 0 && !manual && !any_queued {
        proof {
            lemma_idle_frame(g, u, machines@, networks@, stocks@, queues@, affected@, manual, networks@.len() as int);
            assert(start_views(starts@) =~= Seq::<(usize, Seq<char>, u64)>::empty());
        }
        return starts;
    }
    let ghost q0 = queues@;
    proof {
        assert(start_views(starts@) =~= Seq::<(usize, Seq<char>, u64)>::empty());
    }
    let mut dispatched: Vec<usize> = Vec::new();
    let mut ni: usize = 0;
    while ni < networks.len()
        invariant
            ni <= networks@.len(),
            stocks_bounded(stocks@),
            queues@.len() == q0.len(),
            forall|j: int| 0 <= j < q0.len() ==> (#[trigger] queues@[j]).network == q0[j].network,
            forall|j: int| 0 <= j < q0.len() ==> (#[trigger] queues@[j]).queue.jobs@.len() <= q0[j].queue.jobs@.len(),
            starts@.len() == dispatched@.len(),
            forall|a: int| 0 <= a < starts@.len() ==> (#[trigger] starts@[a]).machine == dispatched@[a],
            forall|a: int, b: int| 0 <= a < b < dispatched@.len() ==> (#[trigger] dispatched@[a]) != (#[trigger] dispatched@[b]),
            forall|a: int| 0 <= a < starts@.len() ==> {
                let st = #[trigger] starts@[a];
                &&& st.machine < machines@.len()
                &&& machines@[st.machine as int].idle
                &&& machines@[st.machine as int].ports@.contains(Some(st.network))
                &&& networks@.contains(st.network)
                &&& net_checked(q0, affected@, manual, st.network)
            },
            g == *graph,
            u == unlocked_view(unlocked),
            st0 == (DState { starts: Seq::empty(), queues: queue_states(q0) }),
            start_views(starts@) == nets_upto(g, u, machines@, networks@, stocks@, q0, affected@, manual, st0, ni as int).starts,
            queue_states(queues@) == nets_upto(g, u, machines@, networks@, stocks@, q0, affected@, manual, st0, ni as int).queues,
        decreases networks@.len() - ni,
    {
        let ghost s1 = nets_upto(g, u, machines@, networks@, stocks@, q0, affected@, manual, st0, ni as int);
        let net = networks[ni];
        let qi = queue_index(queues, net);
        let has_queued = match qi {
            Some(i) => queues[i].queue.jobs.len() > 0,
            None => false,
        };
        let checked = manual || has_queued || contains_net(affected, net);
        let ghost qs = queue_of(q0, net);
        proof {
            lemma_queue_of_same(queues@, q0, net);
            if has_queued {
                let i = qi.unwrap() as int;
                assert(q0[i].network == net);
                assert(q0[i].queue.jobs@.len() > 0);
            }
            match qi {
                Some(i) => {
                    assert(queue_states(queues@)[i as int] == qstate(queues@[i as int].queue));
                    assert(has_queued == (s1.queues[i as int].jobs.len() > 0));
                },
                None => {},
            }
            assert(checked == (manual || (match qs { Some(i) => s1.queues[i].jobs.len() > 0, None => false }) || affected@.contains(net)));
            assert(networks@[ni as int] == net);
        }
        if checked {
            let mut mi: usize = 0;
            while mi < machines.len()
                invariant
                    mi <= machines@.len(),
                    ni < networks@.len(),
                    net == networks@[ni as int],
                    checked,
                    net_checked(q0, affected@, manual, net),
                    stocks_bounded(stocks@),
                    queues@.len() == q0.len(),
                    forall|j: int| 0 <= j < q0.len() ==> (#[trigger] queues@[j]).network == q0[j].network,
                    forall|j: int| 0 <= j < q0.len() ==> (#[trigger] queues@[j]).queue.jobs@.len() <= q0[j].queue.jobs@.len(),
                    qi matches Some(i) ==> i < queues@.len() && queues@[i as int].network == net,
                    starts@.len() == dispatched@.len(),
                    forall|a: int| 0 <= a < starts@.len() ==> (#[trigger] starts@[a]).machine == dispatched@[a],
                    forall|a: int, b: int| 0 <= a < b < dispatched@.len() ==> (#[trigger] dispatched@[a]) != (#[trigger] dispatched@[b]),
                    forall|a: int| 0 <= a < starts@.len() ==> {
                        let st = #[trigger] starts@[a];
                        &&& st.machine < machines@.len()
                        &&& machines@[st.machine as int].idle
                        &&& machines@[st.machine as int].ports@.contains(Some(st.network))
                        &&& networks@.contains(st.network)
                        &&& net_checked(q0, affected@, manual, st.network)
                    },
                    g == *graph,
                    u == unlocked_view(unlocked),
                    qs == queue_of(q0, net),
                    qi matches Some(i) ==> qs == Some(i as int),
                    qi is None ==> qs is None,
                    start_views(starts@) == machines_upto(g, u, machines@, stocks@, manual, net, qs, s1, mi as int).starts,
                    queue_states(queues@) == machines_upto(g, u, machines@, stocks@, manual, net, qs, s1, mi as int).queues,
                decreases machines@.len() - mi,
            {
                let ghost t0 = machines_upto(g, u, machines@, stocks@, manual, net, qs, s1, mi as int);
                proof {
                    lemma_started_is_dispatched(t0, starts@, dispatched@);
                }
                let m = &machines[mi];
                let already = contains_index(&dispatched, mi);
                let ghost out = pick_outcome(g, u, machines@[mi as int], stocks@, match qs {
                    Some(i) => t0.queues[i],
                    None => QState { jobs: Seq::empty(), reserved: Map::empty() },
                }, manual);
                if !already && m.idle && port_on(&m.ports, net) {
                    let picked = match qi {
                        Some(i) => {
                            let ghost qv = queues@;
                            let mut nq = queues.remove(i);
                            let ghost before_len = nq.queue.jobs@.len();
                            proof {
                                assert(qstate(nq.queue) == t0.queues[i as int]) by {
                                    assert(queue_states(qv)[i as int] == qstate(qv[i as int].queue));
                                }
                            }
                            let r = pick_recipe(graph, unlocked, &m.power_ok, &m.view, &m.ports, stocks, &mut nq.queue, manual);
                            proof {
                                assert(qstate(nq.queue) == out.1);
                            }
                            queues.insert(i, nq);
                            assert forall|j: int| 0 <= j < q0.len() implies (#[trigger] queues@[j]).queue.jobs@.len() <= q0[j].queue.jobs@.len()
                                && queues@[j].network == q0[j].network by {
                                if j != i {
                                    assert(queues@[j] == qv[j]);
                                }
                            }
                            proof {
                                assert(queue_states(queues@) =~= t0.queues.update(i as int, out.1)) by {
                                    assert forall|j: int| 0 <= j < queues@.len() implies #[trigger] queue_states(queues@)[j] == t0.queues.update(i as int, out.1)[j] by {
                                        if j != i {
                                            assert(queues@[j] == qv[j]);
                                            assert(queue_states(qv)[j] == qstate(qv[j].queue));
                                        }
                                    }
                                }
                            }
                            r
                        },
                        None => {
                            let mut scratch = NetworkCraftQueue::new();
                            proof {
                                assert(job_ids(scratch.jobs@) =~= Seq::<Seq<char>>::empty());
                                assert(qstate(scratch) == (QState { jobs: Seq::empty(), reserved: Map::empty() }));
                            }
                            pick_recipe(graph, unlocked, &m.power_ok, &m.view, &m.ports, stocks, &mut scratch, manual)
                        },
                    };
                    proof {
                        assert(match picked { Some(id) => out.0 == Some(id@), None => out.0 is None });
                    }
                    if let Some(id) = picked {
                        let ghost d0 = dispatched@;
                        let ghost sv0 = start_views(starts@);
                        starts.push(RecipeStart { machine: mi, recipe_id: id, network: net });
                        dispatched.push(mi);
                        proof {
                            assert(networks@[ni as int] == net);
                            assert forall|a: int, b: int| 0 <= a < b < dispatched@.len() implies (#[trigger] dispatched@[a]) != (#[trigger] dispatched@[b]) by {
                                if b == d0.len() {
                                    assert(dispatched@[a] == d0[a]);
                                }
                            }
                            assert(start_views(starts@) =~= sv0.push((mi, out.0->0, net)));
                        }
                    }
                    proof {
                        assert(!has_started(t0, mi as int));
                        assert(machine_step(g, u, machines@, stocks@, manual, net, qs, t0, mi as int).starts == start_views(starts@));
                        assert(machine_step(g, u, machines@, stocks@, manual, net, qs, t0, mi as int).queues == queue_states(queues@));
                    }
                }
                mi += 1;
            }
        }
        ni += 1;
    }
    starts
}

fn contains_index(v: &Vec<usize>, x: usize) -> (b: bool)
    ensures
        b == v@.contains(x),
{
    let mut i: usize = 0;
    while i < v.len()
        invariant
            i <= v@.len(),
            forall|j: int| 0 <= j < i ==> v@[j] != x,
        decreases v@.len() - i,
    {
        if v[i] == x {
            return true;
        }
        i += 1;
    }
    false
}

/// The network a machine's inputs are drawn from and outputs delivered to:
/// that of its first port on a network.
pub open spec fn first_port(ports: Seq<Option<u64>>) -> Option<u64> {
    if exists|p: int| 0 <= p < ports.len() && (#[trigger] ports[p]) is Some {
        ports[choose|p: int| 0 <= p < ports.len() && (#[trigger] ports[p]) is Some
            && forall|j: int| 0 <= j < p ==> (#[trigger] ports[j]) is None]
    } else {
        None
    }
}

fn first_port_exec(ports: &Vec<Option<u64>>) -> (r: Option<u64>)
    ensures
        r == first_port(ports@),
{
    let mut p: usize = 0;
    while p < ports.len()
        invariant
            p <= ports@.len(),
            forall|j: int| 0 <= j < p ==> (#[trigger] ports@[j]) is None,
        decreases ports@.len() - p,
    {
        if ports[p].is_some() {
            proof {
                let s = ports@;
                let c = choose|c: int| 0 <= c < s.len() && (#[trigger] s[c]) is Some
                    && forall|j: int| 0 <= j < c ==> (#[trigger] s[j]) is None;
                assert(s[p as int] is Some);
                assert(c == p as int) by {
                    if c < p {
                        assert(s[c] is None);
                    } else if c > p {
                        assert(s[p as int] is None);
                    }
                }
            }
            return ports[p];
        }
        p += 1;
    }
    None
}

/// How much of `item` the first `n` inputs ask for together.
pub open spec fn input_total(inputs: Seq<ItemStack>, n: nat, item: Seq<char>) -> nat
    decreases n,
{
    if n == 0 || n > inputs.len() {
        0
    } else {
        input_total(inputs, (n - 1) as nat, item) + if inputs[n - 1].item@ == item {
            inputs[n - 1].quantity as nat
        } else {
            0nat
        }
    }
}

/// The stock a started recipe draws from: that of the machine's first port's
/// network, or else that of the network the start was decided on.
pub open spec fn source_stock(stocks: Seq<NetworkStock>, ports: Seq<Option<u64>>, net: u64) -> Option<int> {
    let take_net = match first_port(ports) {
        Some(n) => n,
        None => net,
    };
    match stock_index(stocks, take_net) {
        Some(i) => Some(i),
        None => stock_index(stocks, net),
    }
}

/// Takes each input in turn from the units: of each item they lose what the
/// inputs ask for together, or all they hold when that is less.
fn take_inputs(units: &mut Vec<StorageUnit>, inputs: &Vec<ItemStack>)
    ensures
        forall|item: Seq<char>| {
            let had = stored(old(units)@, item);
            let want = input_total(inputs@, inputs@.len(), item);
            #[trigger] stored(final(units)@, item) == had - (if had <= want { had } else { want })
        },
{
    let ghost u0 = units@;
    let n = inputs.len();
    let mut k: usize = 0;
    while k < n
        invariant
            n == inputs@.len(),
            k <= n,
            forall|item: Seq<char>| {
                let had = stored(u0, item);
                let want = input_total(inputs@, k as nat, item);
                #[trigger] stored(units@, item) == had - (if had <= want { had } else { want })
            },
        decreases n - k,
    {
        let ghost before = units@;
        let input = &inputs[k];
        take_items(units, input.item.as_str(), input.quantity);
        proof {
            assert forall|item: Seq<char>| {
                let had = stored(u0, item);
                let want = input_total(inputs@, (k + 1) as nat, item);
                #[trigger] stored(units@, item) == had - (if had <= want { had } else { want })
            } by {
                let had = stored(u0, item);
                let w0 = input_total(inputs@, k as nat, item);
                assert(stored(before, item) == had - (if had <= w0 { had } else { w0 }));
                if item != input.item@ {
                    assert(stored(units@, item) == stored(before, item));
                }
            }
        }
        k += 1;
    }
}

/// Takes a starting recipe's inputs from the source stock, input by input.
/// Of each item the stock loses what the inputs ask for, or all it has when
/// that is less; every other stock stays as it was.
#[verifier::spinoff_prover]
#[verifier::rlimit(80)]
pub fn start_recipe(recipe: &ConcreteRecipe, ports: &Vec<Option<u64>>, net: u64, stocks: &mut Vec<NetworkStock>)
    ensures
        final(stocks)@.len() == old(stocks)@.len(),
        forall|i: int| 0 <= i < old(stocks)@.len() ==> (#[trigger] final(stocks)@[i]).network == old(stocks)@[i].network,
        forall|i: int| 0 <= i < old(stocks)@.len() && source_stock(old(stocks)@, ports@, net) != Some(i)
            ==> #[trigger] final(stocks)@[i] == old(stocks)@[i],
        source_stock(old(stocks)@, ports@, net) matches Some(si) ==> forall|item: Seq<char>| {
            let had = stored(old(stocks)@[si].units@, item);
            let want = input_total(recipe.inputs@, recipe.inputs@.len(), item);
            #[trigger] stored(final(stocks)@[si].units@, item) == had - (if had <= want { had } else { want })
        },
{
    let ghost s0 = stocks@;
    let take_net = match first_port_exec(ports) {
        Some(n) => n,
        None => net,
    };
    let si = match find_stock(stocks, take_net) {
        Some(i) => i,
        None => match find_stock(stocks, net) {
            Some(i) => i,
            None => return,
        },
    };
    assert(source_stock(s0, ports@, net) == Some(si as int));
    let mut stock = stocks.remove(si);
    assert(stock == s0[si as int]);
    take_inputs(&mut stock.units, &recipe.inputs);
    let ghost s1 = stocks@;
    stocks.insert(si, stock);
    proof {
        assert(stocks@[si as int] == stock);
        assert forall|i: int| 0 <= i < s0.len() && i != si implies #[trigger] stocks@[i] == s0[i] by {
            if i < si {
                assert(stocks@[i] == s1[i]);
            } else {
                assert(stocks@[i] == s1[i - 1]);
            }
        }
    }
}

/// Gives each input in turn back to the units' first unit.
fn give_inputs(units: &mut Vec<StorageUnit>, inputs: &Vec<ItemStack>)
    requires
        old(units)@.len() > 0,
        forall|item: Seq<char>| get0(old(units)@[0].items@, item) + #[trigger] input_total(inputs@, inputs@.len(), item)
            <= u32::MAX,
    ensures
        final(units)@.len() == old(units)@.len(),
        forall|i: int| 1 <= i < old(units)@.len() ==> #[trigger] final(units)@[i] == old(units)@[i],
        forall|item: Seq<char>| #[trigger] stored(final(units)@, item) == stored(old(units)@, item)
            + input_total(inputs@, inputs@.len(), item),
{
    let ghost u0 = units@;
    let mut k: usize = 0;
    while k < inputs.len()
        invariant
            k <= inputs@.len(),
            units@.len() == u0.len(),
            u0.len() > 0,
            forall|i: int| 1 <= i < u0.len() ==> #[trigger] units@[i] == u0[i],
            forall|item: Seq<char>| get0(u0[0].items@, item) + #[trigger] input_total(inputs@, inputs@.len(), item)
                <= u32::MAX,
            forall|item: Seq<char>| #[trigger] get0(units@[0].items@, item) == get0(u0[0].items@, item)
                + input_total(inputs@, k as nat, item),
            forall|item: Seq<char>| #[trigger] stored(units@, item) == stored(u0, item) + input_total(inputs@, k as nat, item),
        decreases inputs@.len() - k,
    {
        let input = &inputs[k];
        proof {
            lemma_input_total_mono(inputs@, (k + 1) as nat, inputs@.len(), input.item@);
            assert(input_total(inputs@, (k + 1) as nat, input.item@) == input_total(inputs@, k as nat, input.item@)
                + input.quantity);
        }
        let ghost before = units@;
        give_items(units, input.item.as_str(), input.quantity);
        proof {
            let m0 = before[0].items@;
            let m1 = units@[0].items@;
            assert(m1 == m0.insert(input.item@, (get0(m0, input.item@) + input.quantity) as u32));
            assert forall|item: Seq<char>| #[trigger] get0(units@[0].items@, item) == get0(u0[0].items@, item)
                + input_total(inputs@, (k + 1) as nat, item) by {
                assert(input_total(inputs@, (k + 1) as nat, item) == input_total(inputs@, k as nat, item) + if inputs@[k as int].item@
                    == item {
                    inputs@[k as int].quantity as nat
                } else {
                    0nat
                });
                assert(get0(m0, item) == get0(u0[0].items@, item) + input_total(inputs@, k as nat, item));
                if item == input.item@ {
                    assert(m1.contains_key(item));
                    assert(get0(m1, item) == (get0(m0, input.item@) + input.quantity) as u32);
                } else {
                    assert(m1.contains_key(item) == m0.contains_key(item));
                    if m0.contains_key(item) {
                        assert(m1[item] == m0[item]);
                    }
                }
            }
            assert forall|i: int| 1 <= i < u0.len() implies #[trigger] units@[i] == u0[i] by {
                assert(units@[i] == before[i]);
            }
        }
        k += 1;
    }
}

proof fn lemma_input_total_mono(inputs: Seq<ItemStack>, a: nat, b: nat, item: Seq<char>)
    requires
        a <= b <= inputs.len(),
    ensures
        input_total(inputs, a, item) <= input_total(inputs, b, item),
    decreases b - a,
{
    if a < b {
        lemma_input_total_mono(inputs, a, (b - 1) as nat, item);
    }
}

/// Gives a removed machine's running recipe inputs back to the stock of its
/// first port's network (to the stock's first unit); nothing comes back when
/// no port is on a network, or that network has no stock or no unit.
pub fn refund_inputs(recipe: &ConcreteRecipe, ports: &Vec<Option<u64>>, stocks: &mut Vec<NetworkStock>)
    requires
        first_port(ports@) matches Some(n) ==> (stock_index(old(stocks)@, n) matches Some(si) ==> (
        old(stocks)@[si].units@.len() > 0 ==> forall|item: Seq<char>| get0(old(stocks)@[si].units@[0].items@, item)
            + #[trigger] input_total(recipe.inputs@, recipe.inputs@.len(), item) <= u32::MAX)),
    ensures
        final(stocks)@.len() == old(stocks)@.len(),
        match first_port(ports@) {
            Some(n) => match stock_index(old(stocks)@, n) {
                Some(si) => {
                    &&& forall|i: int| 0 <= i < old(stocks)@.len() && i != si ==> #[trigger] final(stocks)@[i] == old(stocks)@[i]
                    &&& final(stocks)@[si].network == n
                    &&& final(stocks)@[si].units@.len() == old(stocks)@[si].units@.len()
                    &&& forall|u: int| 1 <= u < old(stocks)@[si].units@.len() ==> #[trigger] final(stocks)@[si].units@[u]
                        == old(stocks)@[si].units@[u]
                    &&& forall|item: Seq<char>| #[trigger] stored(final(stocks)@[si].units@, item) == stored(
                        old(stocks)@[si].units@,
                        item,
                    ) + if old(stocks)@[si].units@.len() > 0 {
                        input_total(recipe.inputs@, recipe.inputs@.len(), item)
                    } else {
                        0
                    }
                },
                None => final(stocks)@ == old(stocks)@,
            },
            None => final(stocks)@ == old(stocks)@,
        },
{
    let ghost s0 = stocks@;
    let net = match first_port_exec(ports) {
        Some(n) => n,
        None => return,
    };
    let si = match find_stock(stocks, net) {
        Some(i) => i,
        None => return,
    };
    if stocks[si].units.len() == 0 {
        return;
    }
    let mut stock = stocks.remove(si);
    assert(stock == s0[si as int]);
    give_inputs(&mut stock.units, &recipe.inputs);
    let ghost s1 = stocks@;
    stocks.insert(si, stock);
    proof {
        assert(stocks@[si as int] == stock);
        assert forall|i: int| 0 <= i < s0.len() && i != si implies #[trigger] stocks@[i] == s0[i] by {
            if i < si {
                assert(stocks@[i] == s1[i]);
            } else {
                assert(stocks@[i] == s1[i - 1]);
            }
        }
    }
}

/// The recipe outputs, by item id and count.
pub open spec fn output_views(v: Seq<(String, u32)>) -> Seq<(Seq<char>, u32)> {
    v.map_values(|o: (String, u32)| (o.0@, o.1))
}

/// The research points of theme `t` one output brings.
pub open spec fn theme_part(o: (Seq<char>, u32), t: Seq<char>) -> nat {
    if theme_of(o.0) == Some(t) {
        o.1 as nat
    } else {
        0
    }
}

/// The count of `x` one output brings when it is not research points.
pub open spec fn plain_part(o: (Seq<char>, u32), x: Seq<char>) -> nat {
    if o.0 == x && theme_of(x) is None {
        o.1 as nat
    } else {
        0
    }
}

/// What the queue earmarks of `x` from one output, given what the jobs still need.
pub open spec fn reserve_part(o: (Seq<char>, u32), x: Seq<char>, needed: nat) -> nat {
    if o.0 == x && theme_of(x) is None {
        if o.1 <= needed {
            o.1 as nat
        } else {
            needed
        }
    } else {
        0
    }
}

/// The research points of theme `t` among the outputs.
pub open spec fn theme_sum(outs: Seq<(Seq<char>, u32)>, t: Seq<char>) -> nat
    decreases outs.len(),
{
    if outs.len() == 0 {
        0
    } else {
        theme_sum(outs.drop_last(), t) + theme_part(outs.last(), t)
    }
}

/// The count of `x` among the outputs that are not research points.
pub open spec fn plain_sum(outs: Seq<(Seq<char>, u32)>, x: Seq<char>) -> nat
    decreases outs.len(),
{
    if outs.len() == 0 {
        0
    } else {
        plain_sum(outs.drop_last(), x) + plain_part(outs.last(), x)
    }
}

/// What the queue earmarks of `x` from the outputs: of each output of the
/// item, as much as the remaining jobs still need, at most the output itself.
pub open spec fn reserve_sum(outs: Seq<(Seq<char>, u32)>, x: Seq<char>, needed: nat) -> nat
    decreases outs.len(),
{
    if outs.len() == 0 {
        0
    } else {
        reserve_sum(outs.drop_last(), x, needed) + reserve_part(outs.last(), x, needed)
    }
}

/// Whether some output is neither research points nor empty.
pub open spec fn has_plain_output(outs: Seq<(Seq<char>, u32)>) -> bool {
    exists|k: int| 0 <= k < outs.len() && theme_of((#[trigger] outs[k]).0) is None && outs[k].1 > 0
}

/// What the remaining jobs of a queue still need of `item`.
pub open spec fn still_needed(g: RecipeGraph, q: NetworkCraftQueue, item: Seq<char>) -> nat {
    let t = totals(queued_inputs(g, job_ids(q.jobs@)));
    if t.contains_key(item) {
        t[item]
    } else {
        0
    }
}

/// The position of the queue of network `net`.
pub open spec fn queue_of(queues: Seq<NetworkQueue>, net: u64) -> Option<int> {
    if exists|i: int| 0 <= i < queues.len() && (#[trigger] queues[i]).network == net {
        Some(choose|i: int| 0 <= i < queues.len() && (#[trigger] queues[i]).network == net
            && forall|j: int| 0 <= j < i ==> (#[trigger] queues[j]).network != net)
    } else {
        None
    }
}

proof fn lemma_sums_step(outs: Seq<(Seq<char>, u32)>, k: int)
    requires
        0 <= k < outs.len(),
    ensures
        forall|t: Seq<char>| #[trigger] theme_sum(outs.take(k + 1), t) == theme_sum(outs.take(k), t) + theme_part(outs[k], t),
        forall|x: Seq<char>| #[trigger] plain_sum(outs.take(k + 1), x) == plain_sum(outs.take(k), x) + plain_part(outs[k], x),
        forall|x: Seq<char>, n: nat| #[trigger] reserve_sum(outs.take(k + 1), x, n) == reserve_sum(outs.take(k), x, n) + reserve_part(outs[k], x, n),
{
    assert(outs.take(k + 1).drop_last() =~= outs.take(k));
    assert(outs.take(k + 1).last() == outs[k]);
}

proof fn lemma_sums_prefix(outs: Seq<(Seq<char>, u32)>, k: int)
    requires
        0 <= k <= outs.len(),
    ensures
        forall|t: Seq<char>| #[trigger] theme_sum(outs.take(k), t) <= theme_sum(outs, t),
        forall|x: Seq<char>| #[trigger] plain_sum(outs.take(k), x) <= plain_sum(outs, x),
        forall|x: Seq<char>, n: nat| #[trigger] reserve_sum(outs.take(k), x, n) <= reserve_sum(outs, x, n),
    decreases outs.len() - k,
{
    if k < outs.len() {
        lemma_sums_prefix(outs, k + 1);
        lemma_sums_step(outs, k);
        assert forall|t: Seq<char>| #[trigger] theme_sum(outs.take(k), t) <= theme_sum(outs, t) by {
            assert(theme_sum(outs.take(k + 1), t) <= theme_sum(outs, t));
        }
        assert forall|x: Seq<char>| #[trigger] plain_sum(outs.take(k), x) <= plain_sum(outs, x) by {
            assert(plain_sum(outs.take(k + 1), x) <= plain_sum(outs, x));
        }
        assert forall|x: Seq<char>, n: nat| #[trigger] reserve_sum(outs.take(k), x, n) <= reserve_sum(outs, x, n) by {
            assert(reserve_sum(outs.take(k + 1), x, n) <= reserve_sum(outs, x, n));
        }
    } else {
        assert(outs.take(k) =~= outs);
    }
}

/// Delivers one output as [`finish_recipe`] states, to the stock and queue
/// taken out of their lists.
fn deliver_one(
    item: &String,
    count: u32,
    target: Option<u64>,
    has_stock: bool,
    has_queue: bool,
    stock: &mut NetworkStock,
    nq: &mut NetworkQueue,
    graph: &RecipeGraph,
    pool: &mut ResearchPool,
    tally: &mut ProductionTally,
    changed: &mut Vec<u64>,
)
    requires
        forall|t: Seq<char>| balance(old(pool).amounts@, t) + #[trigger] theme_part((item@, count), t) <= u64::MAX,
        forall|x: Seq<char>| balance(old(tally).produced@, x) + #[trigger] plain_part((item@, count), x) <= u64::MAX,
        target is Some && has_stock && old(stock).units@.len() > 0 ==> forall|x: Seq<char>|
            get0(old(stock).units@[0].items@, x) + #[trigger] plain_part((item@, count), x) <= u32::MAX,
        target is Some && has_queue && theme_of(item@) is None && count > 0 ==> {
            let t = totals(queued_inputs(*graph, job_ids(old(nq).queue.jobs@)));
            &&& forall|kk: Seq<char>| #[trigger] t.contains_key(kk) ==> t[kk] <= u32::MAX
            &&& forall|x: Seq<char>| get0(old(nq).queue.reserved@, x) + #[trigger] reserve_part((item@, count), x, still_needed(*graph, old(nq).queue, x)) <= u32::MAX
        },
    ensures
        forall|t: Seq<char>| #[trigger] balance(final(pool).amounts@, t) == balance(old(pool).amounts@, t) + theme_part((item@, count), t),
        forall|x: Seq<char>| #[trigger] balance(final(tally).produced@, x) == balance(old(tally).produced@, x) + plain_part((item@, count), x),
        final(stock).network == old(stock).network,
        final(stock).units@.len() == old(stock).units@.len(),
        target is Some && has_stock && old(stock).units@.len() > 0 ==> {
            &&& forall|x: Seq<char>| #[trigger] get0(final(stock).units@[0].items@, x) == get0(old(stock).units@[0].items@, x) + plain_part((item@, count), x)
            &&& forall|i: int| 1 <= i < old(stock).units@.len() ==> #[trigger] final(stock).units@[i] == old(stock).units@[i]
            &&& forall|x: Seq<char>| #[trigger] stored(final(stock).units@, x) == stored(old(stock).units@, x) + plain_part((item@, count), x)
        },
        !(target is Some && has_stock && old(stock).units@.len() > 0) ==> final(stock).units@ == old(stock).units@,
        final(nq).network == old(nq).network,
        final(nq).queue.jobs@ == old(nq).queue.jobs@,
        forall|x: Seq<char>| #[trigger] get0(final(nq).queue.reserved@, x) == get0(old(nq).queue.reserved@, x) + (if target is Some && has_queue {
            reserve_part((item@, count), x, still_needed(*graph, old(nq).queue, x))
        } else {
            0
        }),
        forall|c: int| 0 <= c < final(changed)@.len() ==> (c < old(changed)@.len() && #[trigger] final(changed)@[c] == old(changed)@[c]) || Some(final(changed)@[c]) == target,
        !has_stock ==> final(changed)@ == old(changed)@,
{
    match research_theme_of(item.as_str()) {
        Some(theme) => {
            assert(theme_part((item@, count), theme@) == count);
            pool.add(theme, count as u64);
            assert forall|t: Seq<char>| #[trigger] balance(pool.amounts@, t) == balance(old(pool).amounts@, t) + theme_part((item@, count), t) by {}
            return;
        },
        None => {},
    }
    assert(forall|t: Seq<char>| #[trigger] theme_part((item@, count), t) == 0);
    if count == 0 {
        return;
    }
    assert(plain_part((item@, count), item@) == count);
    tally.record(item.as_str(), count as u64);
    if let Some(net) = target {
        if has_stock {
            if stock.units.len() > 0 {
                give_items(&mut stock.units, item.as_str(), count);
            }
            changed.push(net);
        }
        if has_queue {
            let still = nq.queue.inputs_still_needed(graph);
            let needed: u32 = match still.get(item.as_str()) {
                Some(v) => *v,
                None => 0,
            };
            assert(needed == still_needed(*graph, nq.queue, item@));
            let to_reserve = if count < needed { count } else { needed };
            if to_reserve > 0 {
                let cur = match nq.queue.reserved.get(item.as_str()) {
                    Some(v) => *v,
                    None => 0,
                };
                assert(reserve_part((item@, count), item@, still_needed(*graph, old(nq).queue, item@)) == to_reserve);
                nq.queue.reserved.insert(item.clone(), cur + to_reserve);
            }
        }
    }
}

/// The queue's remaining needs and its earmarks plus what the outputs would
/// add stay within `u32`.
pub open spec fn queue_bounds_ok(g: RecipeGraph, q: NetworkCraftQueue, outs: Seq<(Seq<char>, u32)>) -> bool {
    let t = totals(queued_inputs(g, job_ids(q.jobs@)));
    &&& forall|kk: Seq<char>| #[trigger] t.contains_key(kk) ==> t[kk] <= u32::MAX
    &&& forall|x: Seq<char>| get0(q.reserved@, x) + #[trigger] reserve_sum(outs, x, still_needed(g, q, x)) <= u32::MAX
}

/// The first unit's counts plus what the outputs would add stay within `u32`.
pub open spec fn unit_bounds_ok(units: Seq<StorageUnit>, outs: Seq<(Seq<char>, u32)>) -> bool {
    units.len() > 0 ==> forall|x: Seq<char>| get0(units[0].items@, x) + #[trigger] plain_sum(outs, x) <= u32::MAX
}

/// Delivers every output in order, as [`finish_recipe`] states, to the
/// stock and queue taken out of their lists.
#[verifier::rlimit(60)]
fn deliver_all(
    outputs: &Vec<(String, u32)>,
    target: Option<u64>,
    has_stock: bool,
    has_queue: bool,
    stock: &mut NetworkStock,
    nq: &mut NetworkQueue,
    graph: &RecipeGraph,
    pool: &mut ResearchPool,
    tally: &mut ProductionTally,
) -> (changed: Vec<u64>)
    requires
        has_stock ==> target is Some,
        has_queue ==> target is Some,
        forall|t: Seq<char>| balance(old(pool).amounts@, t) + #[trigger] theme_sum(output_views(outputs@), t) <= u64::MAX,
        forall|x: Seq<char>| balance(old(tally).produced@, x) + #[trigger] plain_sum(output_views(outputs@), x) <= u64::MAX,
        has_stock ==> unit_bounds_ok(old(stock).units@, output_views(outputs@)),
        has_queue && has_plain_output(output_views(outputs@)) ==> queue_bounds_ok(*graph, old(nq).queue, output_views(outputs@)),
    ensures
        forall|t: Seq<char>| #[trigger] balance(final(pool).amounts@, t) == balance(old(pool).amounts@, t) + theme_sum(output_views(outputs@), t),
        forall|x: Seq<char>| #[trigger] balance(final(tally).produced@, x) == balance(old(tally).produced@, x) + plain_sum(output_views(outputs@), x),
        final(stock).network == old(stock).network,
        final(stock).units@.len() == old(stock).units@.len(),
        has_stock && old(stock).units@.len() > 0 ==> forall|x: Seq<char>| #[trigger] stored(final(stock).units@, x) == stored(old(stock).units@, x)
            + plain_sum(output_views(outputs@), x),
        has_stock && old(stock).units@.len() > 0 ==> forall|x: Seq<char>| #[trigger] get0(final(stock).units@[0].items@, x)
            == get0(old(stock).units@[0].items@, x) + plain_sum(output_views(outputs@), x),
        has_stock && old(stock).units@.len() > 0 ==> forall|i: int| 1 <= i < old(stock).units@.len() ==> #[trigger] final(stock).units@[i]
            == old(stock).units@[i],
        !(has_stock && old(stock).units@.len() > 0) ==> final(stock).units@ == old(stock).units@,
        final(nq).network == old(nq).network,
        final(nq).queue.jobs@ == old(nq).queue.jobs@,
        forall|x: Seq<char>| #[trigger] get0(final(nq).queue.reserved@, x) == get0(old(nq).queue.reserved@, x) + (if has_queue {
            reserve_sum(output_views(outputs@), x, still_needed(*graph, old(nq).queue, x))
        } else {
            0
        }),
        forall|c: int| 0 <= c < changed@.len() ==> target == Some(#[trigger] changed@[c]),
        !has_stock ==> changed@.len() == 0,
{
    let ghost outs = output_views(outputs@);
    let ghost p0 = pool.amounts@;
    let ghost t0 = tally.produced@;
    let ghost st0 = *stock;
    let ghost nq0 = *nq;
    let mut changed: Vec<u64> = Vec::new();
    let n = outputs.len();
    let mut k: usize = 0;
    proof {
        assert(outs.take(0) =~= Seq::<(Seq<char>, u32)>::empty());
    }
    while k < n
        invariant
            n == outputs@.len(),
            outs == output_views(outputs@),
            k <= n,
            has_stock ==> target is Some,
            has_queue ==> target is Some,
            forall|t: Seq<char>| balance(p0, t) + #[trigger] theme_sum(outs, t) <= u64::MAX,
            forall|x: Seq<char>| balance(t0, x) + #[trigger] plain_sum(outs, x) <= u64::MAX,
            forall|t: Seq<char>| #[trigger] balance(pool.amounts@, t) == balance(p0, t) + theme_sum(outs.take(k as int), t),
            forall|x: Seq<char>| #[trigger] balance(tally.produced@, x) == balance(t0, x) + plain_sum(outs.take(k as int), x),
            stock.network == st0.network,
            stock.units@.len() == st0.units@.len(),
            has_stock && st0.units@.len() > 0 ==> {
                &&& forall|x: Seq<char>| get0(st0.units@[0].items@, x) + #[trigger] plain_sum(outs, x) <= u32::MAX
                &&& forall|x: Seq<char>| #[trigger] get0(stock.units@[0].items@, x) == get0(st0.units@[0].items@, x) + plain_sum(outs.take(k as int), x)
                &&& forall|i: int| 1 <= i < st0.units@.len() ==> #[trigger] stock.units@[i] == st0.units@[i]
                &&& forall|x: Seq<char>| #[trigger] stored(stock.units@, x) == stored(st0.units@, x) + plain_sum(outs.take(k as int), x)
            },
            !(has_stock && st0.units@.len() > 0) ==> stock.units@ == st0.units@,
            nq.network == nq0.network,
            nq.queue.jobs@ == nq0.queue.jobs@,
            has_queue && has_plain_output(outs) ==> {
                let t = totals(queued_inputs(*graph, job_ids(nq0.queue.jobs@)));
                &&& forall|kk: Seq<char>| #[trigger] t.contains_key(kk) ==> t[kk] <= u32::MAX
                &&& forall|x: Seq<char>| get0(nq0.queue.reserved@, x) + #[trigger] reserve_sum(outs, x, still_needed(*graph, nq0.queue, x)) <= u32::MAX
            },
            forall|x: Seq<char>| #[trigger] get0(nq.queue.reserved@, x) == get0(nq0.queue.reserved@, x) + (if has_queue {
                reserve_sum(outs.take(k as int), x, still_needed(*graph, nq0.queue, x))
            } else {
                0
            }),
            forall|c: int| 0 <= c < changed@.len() ==> target == Some(#[trigger] changed@[c]),
            !has_stock ==> changed@.len() == 0,
        decreases n - k,
    {
        proof {
            lemma_sums_step(outs, k as int);
            lemma_sums_prefix(outs, k + 1);
        }
        let item = &outputs[k].0;
        let count = outputs[k].1;
        let ghost o = (item@, count);
        assert(outs[k as int] == o);
        proof {
            assert forall|x: Seq<char>| #[trigger] still_needed(*graph, nq.queue, x) == still_needed(*graph, nq0.queue, x) by {}
            if has_queue && theme_of(item@) is None && count > 0 {
                assert(has_plain_output(outs)) by {
                    assert(theme_of(outs[k as int].0) is None && outs[k as int].1 > 0);
                }
                assert forall|x: Seq<char>| get0(nq.queue.reserved@, x) + #[trigger] reserve_part(o, x, still_needed(*graph, nq.queue, x)) <= u32::MAX by {
                    assert(reserve_sum(outs.take(k + 1), x, still_needed(*graph, nq0.queue, x)) <= reserve_sum(outs, x, still_needed(*graph, nq0.queue, x)));
                }
            }
            assert forall|t: Seq<char>| balance(pool.amounts@, t) + #[trigger] theme_part(o, t) <= u64::MAX by {
                assert(theme_sum(outs.take(k + 1), t) <= theme_sum(outs, t));
            }
            assert forall|x: Seq<char>| balance(tally.produced@, x) + #[trigger] plain_part(o, x) <= u64::MAX by {
                assert(plain_sum(outs.take(k + 1), x) <= plain_sum(outs, x));
            }
            if has_stock && st0.units@.len() > 0 {
                assert forall|x: Seq<char>| get0(stock.units@[0].items@, x) + #[trigger] plain_part(o, x) <= u32::MAX by {
                    assert(plain_sum(outs.take(k + 1), x) <= plain_sum(outs, x));
                }
            }
        }
        deliver_one(item, count, target, has_stock, has_queue, stock, nq, graph, pool, tally, &mut changed);
        k += 1;
    }
    proof {
        assert(outs.take(n as int) =~= outs);
    }
    changed
}

/// Delivers a finished recipe's outputs. Research points go to the pool by
/// theme; empty outputs are skipped; every other output counts toward the
/// production tally and goes to the first unit of the network of the
/// machine's first port on a network (lost without one). When that network
/// has a queue, each delivered output is earmarked up to what the remaining
/// jobs still need of it. Returns the networks whose storage changed, once
/// per delivery.
#[verifier::rlimit(100)]
pub fn finish_recipe(
    outputs: &Vec<(String, u32)>,
    ports: &Vec<Option<u64>>,
    graph: &RecipeGraph,
    stocks: &mut Vec<NetworkStock>,
    queues: &mut Vec<NetworkQueue>,
    pool: &mut ResearchPool,
    tally: &mut ProductionTally,
) -> (changed: Vec<u64>)
    requires
        forall|t: Seq<char>| balance(old(pool).amounts@, t) + #[trigger] theme_sum(output_views(outputs@), t) <= u64::MAX,
        forall|x: Seq<char>| balance(old(tally).produced@, x) + #[trigger] plain_sum(output_views(outputs@), x) <= u64::MAX,
        first_port(ports@) matches Some(n) ==> (stock_index(old(stocks)@, n) matches Some(si) ==> unit_bounds_ok(
            old(stocks)@[si].units@,
            output_views(outputs@),
        )),
        first_port(ports@) matches Some(n) ==> (queue_of(old(queues)@, n) matches Some(qi) ==> (has_plain_output(output_views(outputs@))
            ==> queue_bounds_ok(*graph, old(queues)@[qi].queue, output_views(outputs@)))),
    ensures
        forall|t: Seq<char>| #[trigger] balance(final(pool).amounts@, t) == balance(old(pool).amounts@, t) + theme_sum(output_views(outputs@), t),
        forall|x: Seq<char>| #[trigger] balance(final(tally).produced@, x) == balance(old(tally).produced@, x) + plain_sum(output_views(outputs@), x),
        final(stocks)@.len() == old(stocks)@.len(),
        final(queues)@.len() == old(queues)@.len(),
        forall|c: int| 0 <= c < changed@.len() ==> first_port(ports@) == Some(#[trigger] changed@[c]),
        match first_port(ports@) {
            None => final(stocks)@ == old(stocks)@ && final(queues)@ == old(queues)@ && changed@.len() == 0,
            Some(n) => {
                &&& match stock_index(old(stocks)@, n) {
                    Some(si) => {
                        &&& forall|i: int| 0 <= i < old(stocks)@.len() && i != si ==> #[trigger] final(stocks)@[i] == old(stocks)@[i]
                        &&& final(stocks)@[si].network == n
                        &&& old(stocks)@[si].units@.len() > 0 ==> forall|x: Seq<char>| #[trigger] stored(final(stocks)@[si].units@, x)
                            == stored(old(stocks)@[si].units@, x) + plain_sum(output_views(outputs@), x)
                        &&& final(stocks)@[si].units@.len() == old(stocks)@[si].units@.len()
                        &&& old(stocks)@[si].units@.len() > 0 ==> forall|x: Seq<char>| #[trigger] get0(final(stocks)@[si].units@[0].items@, x)
                            == get0(old(stocks)@[si].units@[0].items@, x) + plain_sum(output_views(outputs@), x)
                        &&& forall|u: int| 1 <= u < old(stocks)@[si].units@.len() ==> #[trigger] final(stocks)@[si].units@[u]
                            == old(stocks)@[si].units@[u]
                        &&& old(stocks)@[si].units@.len() == 0 ==> final(stocks)@[si].units@ == old(stocks)@[si].units@
                    },
                    None => final(stocks)@ == old(stocks)@ && changed@.len() == 0,
                }
                &&& match queue_of(old(queues)@, n) {
                    Some(qi) => {
                        &&& forall|i: int| 0 <= i < old(queues)@.len() && i != qi ==> #[trigger] final(queues)@[i] == old(queues)@[i]
                        &&& final(queues)@[qi].network == n
                        &&& final(queues)@[qi].queue.jobs@ == old(queues)@[qi].queue.jobs@
                        &&& forall|x: Seq<char>| #[trigger] get0(final(queues)@[qi].queue.reserved@, x) == get0(old(queues)@[qi].queue.reserved@, x)
                            + reserve_sum(output_views(outputs@), x, still_needed(*graph, old(queues)@[qi].queue, x))
                    },
                    None => final(queues)@ == old(queues)@,
                }
            },
        },
{
    let target = first_port_exec(ports);
    let si_opt: Option<usize> = match target {
        Some(n) => find_stock(stocks, n),
        None => None,
    };
    let qi_opt: Option<usize> = match target {
        Some(n) => queue_index(queues, n),
        None => None,
    };
    let has_stock = si_opt.is_some();
    let has_queue = qi_opt.is_some();
    let ghost s0 = stocks@;
    let ghost q0 = queues@;
    let mut stock: NetworkStock = match si_opt {
        Some(i) => stocks.remove(i),
        None => NetworkStock { network: 0, units: Vec::new() },
    };
    let mut nq: NetworkQueue = match qi_opt {
        Some(i) => queues.remove(i),
        None => NetworkQueue { network: 0, queue: NetworkCraftQueue::new() },
    };
    proof {
        if let Some(i) = qi_opt {
            assert(nq == q0[i as int]);
        }
        if let Some(i) = si_opt {
            assert(stock == s0[i as int]);
        }
    }
    let ghost st0 = stock;
    let ghost nq0 = nq;
    let ghost s1 = stocks@;
    let ghost q1 = queues@;
    let ghost outs = output_views(outputs@);
    proof {
        assert(q0 == old(queues)@);
        assert(s0 == old(stocks)@);
        if let Some(i) = qi_opt {
            let q = q0[i as int].queue;
            let n = target.unwrap();
            assert(first_port(ports@) == Some(n));
            assert(queue_of(old(queues)@, n) == Some(i as int));
        }
        if let Some(i) = si_opt {
            let n = target.unwrap();
            assert(first_port(ports@) == Some(n));
            assert(stock_index(old(stocks)@, n) == Some(i as int));
        }
    }
    let changed = deliver_all(outputs, target, has_stock, has_queue, &mut stock, &mut nq, graph, pool, tally);
    match si_opt {
        Some(i) => {
            stocks.insert(i, stock);
            proof {
                assert(stocks@[i as int] == stock);
                assert(s1 == s0.remove(i as int));
                assert forall|j: int| 0 <= j < s0.len() && j != i implies #[trigger] stocks@[j] == s0[j] by {
                    if j < i {
                        assert(stocks@[j] == s1[j]);
                    } else {
                        assert(stocks@[j] == s1[j - 1]);
                    }
                }
            }
        },
        None => {},
    }
    match qi_opt {
        Some(i) => {
            queues.insert(i, nq);
            proof {
                assert(queues@[i as int] == nq);
                assert(q1 == q0.remove(i as int));
                assert forall|j: int| 0 <= j < q0.len() && j != i implies #[trigger] queues@[j] == q0[j] by {
                    if j < i {
                        assert(queues@[j] == q1[j]);
                    } else {
                        assert(queues@[j] == q1[j - 1]);
                    }
                }
            }
        },
        None => {},
    }
    proof {
        match target {
            None => {},
            Some(n) => {
                if let Some(i) = si_opt {
                    assert(s0[i as int].network == n);
                    assert(stocks@[i as int] == stock);
                    assert(stock.network == st0.network);
                    assert(st0 == s0[i as int]);
                    assert(stocks@[i as int].network == n);
                }
                if let Some(i) = qi_opt {
                    assert(queues@[i as int] == nq);
                    assert(nq0 == q0[i as int]);
                    assert(queues@[i as int].network == n);
                    assert(queues@[i as int].queue.jobs@ == q0[i as int].queue.jobs@);
                }
            },
        }
    }
    changed
}

proof fn lemma_queue_of_same(a: Seq<NetworkQueue>, b: Seq<NetworkQueue>, net: u64)
    requires
        a.len() == b.len(),
        forall|j: int| 0 <= j < a.len() ==> (#[trigger] a[j]).network == b[j].network,
    ensures
        queue_of(a, net) == queue_of(b, net),
{
    if exists|i: int| 0 <= i < a.len() && (#[trigger] a[i]).network == net {
        let i = choose|i: int| 0 <= i < a.len() && (#[trigger] a[i]).network == net;
        assert(b[i].network == net);
        let ia = choose|c: int| 0 <= c < a.len() && (#[trigger] a[c]).network == net
            && forall|j: int| 0 <= j < c ==> (#[trigger] a[j]).network != net;
        let ib = choose|c: int| 0 <= c < b.len() && (#[trigger] b[c]).network == net
            && forall|j: int| 0 <= j < c ==> (#[trigger] b[j]).network != net;
        lemma_first_net_exists(a, net, i);
        lemma_first_net_exists(b, net, i);
        if ia < ib {
            assert(b[ia].network == net);
        } else if ib < ia {
            assert(a[ib].network == net);
        }
    } else {
        assert forall|i: int| 0 <= i < b.len() implies (#[trigger] b[i]).network != net by {
            assert(a[i].network != net);
        }
    }
}

proof fn lemma_first_net_exists(a: Seq<NetworkQueue>, net: u64, i: int)
    requires
        0 <= i < a.len(),
        a[i].network == net,
    ensures
        exists|c: int| 0 <= c < a.len() && (#[trigger] a[c]).network == net
            && forall|j: int| 0 <= j < c ==> (#[trigger] a[j]).network != net,
    decreases i,
{
    if exists|j: int| 0 <= j < i && (#[trigger] a[j]).network == net {
        let j = choose|j: int| 0 <= j < i && (#[trigger] a[j]).network == net;
        lemma_first_net_exists(a, net, j);
    } else {
        assert(0 <= i < a.len() && a[i].network == net && forall|j: int| 0 <= j < i ==> (#[trigger] a[j]).network != net);
    }
}

proof fn lemma_idle_frame(
    g: RecipeGraph,
    u: Option<Set<Seq<char>>>,
    machines: Seq<DispatchMachine>,
    networks: Seq<u64>,
    stocks: Seq<NetworkStock>,
    queues: Seq<NetworkQueue>,
    affected: Seq<u64>,
    manual: bool,
    n: int,
)
    requires
        !manual,
        affected.len() == 0,
        forall|q: int| 0 <= q < queues.len() ==> (#[trigger] queues[q]).queue.jobs@.len() == 0,
        n <= networks.len(),
    ensures
        nets_upto(g, u, machines, networks, stocks, queues, affected, manual, DState { starts: Seq::empty(), queues: queue_states(queues) }, n)
            == (DState { starts: Seq::empty(), queues: queue_states(queues) }),
    decreases n,
{
    if n > 0 {
        lemma_idle_frame(g, u, machines, networks, stocks, queues, affected, manual, n - 1);
        let net = networks[n - 1];
        match queue_of(queues, net) {
            Some(i) => {
                assert(0 <= i < queues.len()) by {
                    lemma_queue_of_range(queues, net);
                }
                assert(queue_states(queues)[i] == qstate(queues[i].queue));
            },
            None => {},
        }
    }
}

proof fn lemma_queue_of_range(queues: Seq<NetworkQueue>, net: u64)
    ensures
        queue_of(queues, net) matches Some(i) ==> 0 <= i < queues.len() && queues[i].network == net,
{
    if exists|i: int| 0 <= i < queues.len() && (#[trigger] queues[i]).network == net {
        let i = choose|i: int| 0 <= i < queues.len() && (#[trigger] queues[i]).network == net;
        lemma_first_net_exists(queues, net, i);
    }
}

} // verus!
