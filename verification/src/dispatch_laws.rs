//! Laws of recipe dispatch: what every start of a frame satisfies.

use vstd::prelude::*;
use crate::production::{
    DState, DispatchMachine, MachineView, NetworkQueue, NetworkStock, QState, auto_ready, dispatch, eligible, first_auto,
    first_ready_job, has_started, job_ready, machine_step, machines_upto, nets_upto, pick_outcome, positive_bits, queue_of,
    queue_states,
};
use crate::recipe_graph::RecipeGraph;

verus! {

/// A start names a machine in range that is idle, has a port on the start's
/// network, and a recipe of the graph (stored under the started id, or with
/// that id) that the machine may run: made for the machine's type, of a tier
/// no higher than the machine's, unlocked when progress is tracked, and,
/// when it draws energy, powered by the pod or by the machine's network.
pub open spec fn start_ok(
    g: RecipeGraph,
    u: Option<Set<Seq<char>>>,
    machines: Seq<DispatchMachine>,
    s: (usize, Seq<char>, u64),
) -> bool {
    &&& s.0 < machines.len()
    &&& machines[s.0 as int].idle
    &&& machines[s.0 as int].ports@.contains(Some(s.2))
    &&& exists|k: Seq<char>|
        #![trigger g.recipes@[k]]
        {
            let r = g.recipes@[k];
            let m = machines[s.0 as int];
            &&& g.recipes@.contains_key(k)
            &&& (k == s.1 || r.id@ == s.1)
            &&& r.machine_type@ == m.view.machine_type@
            &&& r.machine_tier <= m.view.tier
            &&& (u matches Some(uu) ==> uu.contains(r.id@))
            &&& (!positive_bits(r.energy_cost_bits) || m.view.pod_powered || m.power_ok@.contains(r.id@))
        }
}

/// Where some index below `n` satisfies `p`, a least one does.
proof fn lemma_least(p: spec_fn(int) -> bool, n: int, i: int)
    requires
        0 <= i < n,
        p(i),
    ensures
        exists|j: int| 0 <= j < n && #[trigger] p(j) && forall|t: int| 0 <= t < j ==> !#[trigger] p(t),
    decreases i,
{
    if exists|t: int| 0 <= t < i && #[trigger] p(t) {
        let t = choose|t: int| 0 <= t < i && #[trigger] p(t);
        lemma_least(p, n, t);
    } else {
        assert(forall|t: int| 0 <= t < i ==> !#[trigger] p(t));
    }
}

#[verifier::spinoff_prover]
#[verifier::rlimit(100)]
proof fn lemma_first_ready_ok(
    g: RecipeGraph,
    jobs: Seq<Seq<char>>,
    m: MachineView,
    u: Option<Set<Seq<char>>>,
    power_ok: Set<Seq<char>>,
    ports: Seq<Option<u64>>,
    stocks: Seq<NetworkStock>,
)
    ensures
        first_ready_job(g, jobs, m, u, power_ok, ports, stocks) matches Some(i) ==> 0 <= i < jobs.len()
            && g.recipes@.contains_key(jobs[i]) && eligible(g.recipes@[jobs[i]], m, u, power_ok),
{
    let p = |i: int| job_ready(g, jobs[i], m, u, power_ok, ports, stocks);
    if exists|i: int| 0 <= i < jobs.len() && job_ready(g, #[trigger] jobs[i], m, u, power_ok, ports, stocks) {
        let i = choose|i: int| 0 <= i < jobs.len() && job_ready(g, #[trigger] jobs[i], m, u, power_ok, ports, stocks);
        lemma_least(p, jobs.len() as int, i);
        let j = choose|j: int| 0 <= j < jobs.len() && #[trigger] p(j) && forall|t: int| 0 <= t < j ==> !#[trigger] p(t);
        assert(job_ready(g, jobs[j], m, u, power_ok, ports, stocks));
        assert forall|t: int| 0 <= t < j implies !job_ready(g, #[trigger] jobs[t], m, u, power_ok, ports, stocks) by {
            assert(!p(t));
        }
        let c = first_ready_job(g, jobs, m, u, power_ok, ports, stocks)->0;
        assert(job_ready(g, jobs[c], m, u, power_ok, ports, stocks));
    }
}

#[verifier::spinoff_prover]
#[verifier::rlimit(100)]
proof fn lemma_first_auto_ok(
    g: RecipeGraph,
    m: MachineView,
    u: Option<Set<Seq<char>>>,
    power_ok: Set<Seq<char>>,
    ports: Seq<Option<u64>>,
    stocks: Seq<NetworkStock>,
    reserved: Map<Seq<char>, u32>,
)
    ensures
        first_auto(g, m, u, power_ok, ports, stocks, reserved) matches Some(k) ==> 0 <= k < g.recipes.key_seq().len()
            && g.recipes@.contains_key(g.recipes.key_seq()[k]) && eligible(g.recipes@[g.recipes.key_seq()[k]], m, u, power_ok),
{
    let ks = g.recipes.key_seq();
    let p = |i: int| auto_ready(g, ks[i], m, u, power_ok, ports, stocks, reserved);
    if exists|i: int| 0 <= i < ks.len() && auto_ready(g, #[trigger] ks[i], m, u, power_ok, ports, stocks, reserved) {
        let i = choose|i: int| 0 <= i < ks.len() && auto_ready(g, #[trigger] ks[i], m, u, power_ok, ports, stocks, reserved);
        lemma_least(p, ks.len() as int, i);
        let j = choose|j: int| 0 <= j < ks.len() && #[trigger] p(j) && forall|t: int| 0 <= t < j ==> !#[trigger] p(t);
        assert(auto_ready(g, ks[j], m, u, power_ok, ports, stocks, reserved));
        assert forall|t: int| 0 <= t < j implies !auto_ready(g, #[trigger] ks[t], m, u, power_ok, ports, stocks, reserved) by {
            assert(!p(t));
        }
        let c = first_auto(g, m, u, power_ok, ports, stocks, reserved)->0;
        assert(auto_ready(g, ks[c], m, u, power_ok, ports, stocks, reserved));
        g.recipes.lemma_key_seq_dom();
        assert(ks.contains(ks[c]));
    }
}

/// What `pick_outcome` starts is a recipe of the graph the machine may run.
#[verifier::spinoff_prover]
#[verifier::rlimit(100)]
proof fn lemma_picked_ok(
    g: RecipeGraph,
    u: Option<Set<Seq<char>>>,
    m: DispatchMachine,
    stocks: Seq<NetworkStock>,
    q: QState,
    manual: bool,
)
    ensures
        pick_outcome(g, u, m, stocks, q, manual).0 matches Some(id) ==> exists|k: Seq<char>|
            #![trigger g.recipes@[k]]
            g.recipes@.contains_key(k) && (k == id || g.recipes@[k].id@ == id) && eligible(g.recipes@[k], m.view, u, m.power_ok@),
{
    lemma_first_ready_ok(g, q.jobs, m.view, u, m.power_ok@, m.ports@, stocks);
    lemma_first_auto_ok(g, m.view, u, m.power_ok@, m.ports@, stocks, q.reserved);
    if let Some(id) = pick_outcome(g, u, m, stocks, q, manual).0 {
        match first_ready_job(g, q.jobs, m.view, u, m.power_ok@, m.ports@, stocks) {
            Some(j) => {
                let k = q.jobs[j];
                assert(g.recipes@.contains_key(k) && k == id);
            },
            None => {
                let k = g.recipes.key_seq()[first_auto(g, m.view, u, m.power_ok@, m.ports@, stocks, q.reserved)->0];
                assert(g.recipes@.contains_key(k) && g.recipes@[k].id@ == id);
            },
        }
    }
}

#[verifier::spinoff_prover]
#[verifier::rlimit(100)]
proof fn lemma_machine_step_ok(
    g: RecipeGraph,
    u: Option<Set<Seq<char>>>,
    machines: Seq<DispatchMachine>,
    stocks: Seq<NetworkStock>,
    manual: bool,
    net: u64,
    qi: Option<int>,
    st: DState,
    mi: int,
)
    requires
        0 <= mi < machines.len(),
        machines.len() <= usize::MAX,
        forall|a: int| 0 <= a < st.starts.len() ==> start_ok(g, u, machines, #[trigger] st.starts[a]),
    ensures
        ({
            let s2 = machine_step(g, u, machines, stocks, manual, net, qi, st, mi);
            forall|a: int| 0 <= a < s2.starts.len() ==> start_ok(g, u, machines, #[trigger] s2.starts[a])
        }),
{
    let m = machines[mi];
    let s2 = machine_step(g, u, machines, stocks, manual, net, qi, st, mi);
    if !(has_started(st, mi) || !m.idle || !m.ports@.contains(Some(net))) {
        let q = match qi {
            Some(i) => st.queues[i],
            None => QState { jobs: Seq::empty(), reserved: Map::empty() },
        };
        let out = pick_outcome(g, u, m, stocks, q, manual);
        if let Some(id) = out.0 {
            assert(s2.starts == st.starts.push((mi as usize, id, net)));
            lemma_picked_ok(g, u, m, stocks, q, manual);
            assert(start_ok(g, u, machines, (mi as usize, id, net)));
            assert forall|a: int| 0 <= a < s2.starts.len() implies start_ok(g, u, machines, #[trigger] s2.starts[a]) by {
                if a < st.starts.len() {
                    assert(s2.starts[a] == st.starts[a]);
                }
            }
        }
    }
}

proof fn lemma_machines_upto_ok(
    g: RecipeGraph,
    u: Option<Set<Seq<char>>>,
    machines: Seq<DispatchMachine>,
    stocks: Seq<NetworkStock>,
    manual: bool,
    net: u64,
    qi: Option<int>,
    st: DState,
    k: int,
)
    requires
        k <= machines.len(),
        machines.len() <= usize::MAX,
        forall|a: int| 0 <= a < st.starts.len() ==> start_ok(g, u, machines, #[trigger] st.starts[a]),
    ensures
        ({
            let s2 = machines_upto(g, u, machines, stocks, manual, net, qi, st, k);
            forall|a: int| 0 <= a < s2.starts.len() ==> start_ok(g, u, machines, #[trigger] s2.starts[a])
        }),
    decreases k,
{
    if k > 0 {
        lemma_machines_upto_ok(g, u, machines, stocks, manual, net, qi, st, k - 1);
        lemma_machine_step_ok(g, u, machines, stocks, manual, net, qi, machines_upto(g, u, machines, stocks, manual, net, qi, st, k - 1), k - 1);
    }
}

proof fn lemma_nets_upto_ok(
    g: RecipeGraph,
    u: Option<Set<Seq<char>>>,
    machines: Seq<DispatchMachine>,
    networks: Seq<u64>,
    stocks: Seq<NetworkStock>,
    queues: Seq<NetworkQueue>,
    affected: Seq<u64>,
    manual: bool,
    st: DState,
    n: int,
)
    requires
        n <= networks.len(),
        machines.len() <= usize::MAX,
        forall|a: int| 0 <= a < st.starts.len() ==> start_ok(g, u, machines, #[trigger] st.starts[a]),
    ensures
        ({
            let s2 = nets_upto(g, u, machines, networks, stocks, queues, affected, manual, st, n);
            forall|a: int| 0 <= a < s2.starts.len() ==> start_ok(g, u, machines, #[trigger] s2.starts[a])
        }),
    decreases n,
{
    if n > 0 {
        lemma_nets_upto_ok(g, u, machines, networks, stocks, queues, affected, manual, st, n - 1);
        let s1 = nets_upto(g, u, machines, networks, stocks, queues, affected, manual, st, n - 1);
        let net = networks[n - 1];
        lemma_machines_upto_ok(g, u, machines, stocks, manual, net, queue_of(queues, net), s1, machines.len() as int);
    }
}

/// Every recipe start of a dispatch frame is on an idle machine with a port
/// on the start's network, for a recipe of the graph that the machine may
/// run: of its type, within its tier, unlocked when progress is tracked, and
/// powered when it draws energy.
pub proof fn lemma_starts_eligible(
    g: RecipeGraph,
    u: Option<Set<Seq<char>>>,
    machines: Seq<DispatchMachine>,
    networks: Seq<u64>,
    stocks: Seq<NetworkStock>,
    queues: Seq<NetworkQueue>,
    affected: Seq<u64>,
    manual: bool,
)
    requires
        machines.len() <= usize::MAX,
    ensures
        ({
            let d = dispatch(g, u, machines, networks, stocks, queues, affected, manual);
            forall|a: int| 0 <= a < d.starts.len() ==> start_ok(g, u, machines, #[trigger] d.starts[a])
        }),
{
    lemma_nets_upto_ok(g, u, machines, networks, stocks, queues, affected, manual, DState { starts: Seq::empty(), queues: queue_states(queues) }, networks.len() as int);
}

/// No two starts of `st` are on the same machine.
pub open spec fn machines_distinct(st: DState) -> bool {
    forall|a: int, b: int| 0 <= a < b < st.starts.len() ==> (#[trigger] st.starts[a]).0 != (#[trigger] st.starts[b]).0
}

proof fn lemma_step_starts(
    g: RecipeGraph,
    u: Option<Set<Seq<char>>>,
    machines: Seq<DispatchMachine>,
    stocks: Seq<NetworkStock>,
    manual: bool,
    net: u64,
    qi: Option<int>,
    st: DState,
    mi: int,
)
    requires
        0 <= mi <= usize::MAX,
    ensures
        ({
            let s2 = machine_step(g, u, machines, stocks, manual, net, qi, st, mi);
            s2.starts == st.starts || (!has_started(st, mi) && exists|x: (usize, Seq<char>, u64)| x.0 == mi && s2.starts == st.starts.push(x))
        }),
{
    let m = machines[mi];
    if !(has_started(st, mi) || !m.idle || !m.ports@.contains(Some(net))) {
        let q = match qi {
            Some(i) => st.queues[i],
            None => QState { jobs: Seq::empty(), reserved: Map::empty() },
        };
        let out = pick_outcome(g, u, m, stocks, q, manual);
        match out.0 {
            Some(id) => {
                let x = (mi as usize, id, net);
                assert(x.0 == mi);
            },
            None => {},
        }
    }
}

proof fn lemma_machines_upto_distinct(
    g: RecipeGraph,
    u: Option<Set<Seq<char>>>,
    machines: Seq<DispatchMachine>,
    stocks: Seq<NetworkStock>,
    manual: bool,
    net: u64,
    qi: Option<int>,
    st: DState,
    k: int,
)
    requires
        machines_distinct(st),
        k <= machines.len() <= usize::MAX,
    ensures
        machines_distinct(machines_upto(g, u, machines, stocks, manual, net, qi, st, k)),
    decreases k,
{
    if k > 0 {
        lemma_machines_upto_distinct(g, u, machines, stocks, manual, net, qi, st, k - 1);
        let s1 = machines_upto(g, u, machines, stocks, manual, net, qi, st, k - 1);
        let s2 = machine_step(g, u, machines, stocks, manual, net, qi, s1, k - 1);
        lemma_step_starts(g, u, machines, stocks, manual, net, qi, s1, k - 1);
        if s2.starts != s1.starts {
            assert forall|a: int, b: int| 0 <= a < b < s2.starts.len() implies (#[trigger] s2.starts[a]).0 != (#[trigger] s2.starts[b]).0 by {
                let x = choose|x: (usize, Seq<char>, u64)| x.0 == k - 1 && s2.starts == s1.starts.push(x);
                assert(s2.starts[a] == s1.starts[a]);
                if b < s1.starts.len() {
                    assert(s2.starts[b] == s1.starts[b]);
                } else {
                    assert(s2.starts[b] == x);
                    assert(s1.starts[a].0 != k - 1);
                }
            }
        }
    }
}

proof fn lemma_nets_upto_distinct(
    g: RecipeGraph,
    u: Option<Set<Seq<char>>>,
    machines: Seq<DispatchMachine>,
    networks: Seq<u64>,
    stocks: Seq<NetworkStock>,
    queues: Seq<NetworkQueue>,
    affected: Seq<u64>,
    manual: bool,
    st: DState,
    n: int,
)
    requires
        machines_distinct(st),
        machines.len() <= usize::MAX,
    ensures
        machines_distinct(nets_upto(g, u, machines, networks, stocks, queues, affected, manual, st, n)),
    decreases n,
{
    if n > 0 {
        lemma_nets_upto_distinct(g, u, machines, networks, stocks, queues, affected, manual, st, n - 1);
        let s1 = nets_upto(g, u, machines, networks, stocks, queues, affected, manual, st, n - 1);
        let net = networks[n - 1];
        lemma_machines_upto_distinct(g, u, machines, stocks, manual, net, queue_of(queues, net), s1, machines.len() as int);
    }
}

/// A dispatch frame starts at most one recipe per machine.
pub proof fn lemma_one_start_per_machine(
    g: RecipeGraph,
    u: Option<Set<Seq<char>>>,
    machines: Seq<DispatchMachine>,
    networks: Seq<u64>,
    stocks: Seq<NetworkStock>,
    queues: Seq<NetworkQueue>,
    affected: Seq<u64>,
    manual: bool,
)
    requires
        machines.len() <= usize::MAX,
    ensures
        machines_distinct(dispatch(g, u, machines, networks, stocks, queues, affected, manual)),
{
    lemma_nets_upto_distinct(g, u, machines, networks, stocks, queues, affected, manual, DState { starts: Seq::empty(), queues: queue_states(queues) }, networks.len() as int);
}

} // verus!
