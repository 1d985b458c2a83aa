//! Per-network crafting queue: expanding a request for an item into crafting
//! jobs, dependencies first, while earmarking the stored items the jobs will use.

use vstd::prelude::*;
use std::collections::VecDeque;
use crate::recipe_graph::{ItemStack, RecipeGraph};
use crate::strmap::StrMap;
use crate::text::owned;

verus! {

/// One queued crafting job.
pub struct QueuedJob {
    pub recipe_id: String,
}

/// A network's crafting queue: jobs in dependency order, and the stored
/// items earmarked for them, which auto-crafting must leave alone.
pub struct NetworkCraftQueue {
    pub jobs: VecDeque<QueuedJob>,
    pub reserved: StrMap<u32>,
}

/// The count stored under `k`, 0 when absent.
pub open spec fn get0(m: Map<Seq<char>, u32>, k: Seq<char>) -> u32 {
    if m.contains_key(k) {
        m[k]
    } else {
        0
    }
}

/// The recipe ids of a job sequence.
pub open spec fn job_ids(jobs: Seq<QueuedJob>) -> Seq<Seq<char>> {
    jobs.map_values(|j: QueuedJob| j.recipe_id@)
}

/// The state a request expansion works on: the stock still unclaimed, the
/// jobs so far, the earmarks so far, and whether every step stayed in range.
pub struct Expansion {
    pub avail: Map<Seq<char>, u32>,
    pub jobs: Seq<Seq<char>>,
    pub reserved: Map<Seq<char>, u32>,
    pub ok: bool,
}

/// Earmarks `qty` more of `item`; out of range when the count would overflow.
pub open spec fn reserve(s: Expansion, item: Seq<char>, qty: u32) -> Expansion {
    let cur = get0(s.reserved, item);
    if cur + qty <= u32::MAX {
        Expansion { reserved: s.reserved.insert(item, (cur + qty) as u32), ..s }
    } else {
        Expansion { ok: false, ..s }
    }
}

/// The first recipe listed as producing `item`.
pub open spec fn first_producer(g: RecipeGraph, item: Seq<char>) -> Option<Seq<char>> {
    if g.producers@.contains_key(item) && g.producers@[item]@.len() > 0 {
        Some(g.producers@[item]@[0]@)
    } else {
        None
    }
}

/// How much of `item` one run of a recipe with these outputs yields: the
/// quantity of its first output of that item, 1 when it lists none.
pub open spec fn output_qty(outputs: Seq<ItemStack>, item: Seq<char>) -> u32
    decreases outputs.len(),
{
    if outputs.len() == 0 {
        1
    } else if outputs[0].item@ == item {
        outputs[0].quantity
    } else {
        output_qty(outputs.drop_first(), item)
    }
}

/// Expands a request for `q` of `item`: take what the stock holds and
/// earmark it; for the rest, run the item's first producing recipe as often
/// as needed, expanding each run's inputs before queueing the run. An item
/// without a producing recipe is taken as present. `fuel` bounds the depth.
pub open spec fn expand(g: RecipeGraph, item: Seq<char>, q: u32, s: Expansion, fuel: nat) -> Expansion
    decreases fuel, 0nat, 0nat,
{
    if !s.ok {
        s
    } else if fuel == 0 {
        Expansion { ok: false, ..s }
    } else {
        let have = get0(s.avail, item);
        if have >= q {
            let s1 = if s.avail.contains_key(item) {
                Expansion { avail: s.avail.insert(item, (have - q) as u32), ..s }
            } else {
                s
            };
            reserve(s1, item, q)
        } else {
            let still = q - have;
            let s1 = Expansion { avail: s.avail.insert(item, 0), ..s };
            let s2 = if have > 0 {
                reserve(s1, item, have)
            } else {
                s1
            };
            match first_producer(g, item) {
                None => s2,
                Some(rid) => if !g.recipes@.contains_key(rid) {
                    s2
                } else {
                    let recipe = g.recipes@[rid];
                    let out = output_qty(recipe.outputs@, item);
                    if out == 0 {
                        Expansion { ok: false, ..s2 }
                    } else {
                        let runs = ((still + out - 1) / (out as int)) as nat;
                        expand_runs(g, item, rid, recipe.inputs@, out, runs, s2, (fuel - 1) as nat)
                    }
                },
            }
        }
    }
}

/// `runs` runs of recipe `rid`: each expands the inputs, queues the run and
/// adds its output to the stock.
pub open spec fn expand_runs(
    g: RecipeGraph,
    item: Seq<char>,
    rid: Seq<char>,
    inputs: Seq<ItemStack>,
    out: u32,
    runs: nat,
    s: Expansion,
    fuel: nat,
) -> Expansion
    decreases fuel, 2nat, runs,
{
    if runs == 0 {
        s
    } else {
        let s1 = expand_runs(g, item, rid, inputs, out, (runs - 1) as nat, s, fuel);
        let s2 = expand_inputs(g, inputs, inputs.len(), s1, fuel);
        run_done(s2, item, rid, out)
    }
}

/// Queues one run of `rid` and adds its `out` units of `item` to the stock.
pub open spec fn run_done(s: Expansion, item: Seq<char>, rid: Seq<char>, out: u32) -> Expansion {
    if !s.ok {
        s
    } else {
        let cur = get0(s.avail, item);
        if cur + out <= u32::MAX {
            Expansion { jobs: s.jobs.push(rid), avail: s.avail.insert(item, (cur + out) as u32), ..s }
        } else {
            Expansion { ok: false, ..s }
        }
    }
}

/// Expands the first `n` inputs of a run, in order.
pub open spec fn expand_inputs(g: RecipeGraph, inputs: Seq<ItemStack>, n: nat, s: Expansion, fuel: nat) -> Expansion
    decreases fuel, 1nat, n,
{
    if n == 0 || n > inputs.len() {
        s
    } else {
        let s1 = expand_inputs(g, inputs, (n - 1) as nat, s, fuel);
        expand(g, inputs[n - 1].item@, inputs[n - 1].quantity, s1, fuel)
    }
}

/// The expansion of a request from a fresh state over `storage`.
pub open spec fn fresh(storage: Map<Seq<char>, u32>) -> Expansion {
    Expansion { avail: storage, jobs: Seq::empty(), reserved: Map::empty(), ok: true }
}

/// Whether the request expands within some depth without leaving range.
pub open spec fn expandable(g: RecipeGraph, item: Seq<char>, q: u32, storage: Map<Seq<char>, u32>) -> bool {
    exists|fuel: nat| #[trigger] expand(g, item, q, fresh(storage), fuel).ok
}

/// The expansion of a request that expands.
pub open spec fn expansion_of(g: RecipeGraph, item: Seq<char>, q: u32, storage: Map<Seq<char>, u32>) -> Expansion {
    expand(g, item, q, fresh(storage), choose|fuel: nat| #[trigger] expand(g, item, q, fresh(storage), fuel).ok)
}

proof fn lemma_failed_stays_failed(g: RecipeGraph, item: Seq<char>, q: u32, s: Expansion, fuel: nat)
    requires
        !s.ok,
    ensures
        expand(g, item, q, s, fuel) == s,
{
}

proof fn lemma_inputs_failed(g: RecipeGraph, inputs: Seq<ItemStack>, n: nat, s: Expansion, fuel: nat)
    requires
        !s.ok,
    ensures
        !expand_inputs(g, inputs, n, s, fuel).ok,
    decreases n,
{
    if n > 0 && n <= inputs.len() {
        lemma_inputs_failed(g, inputs, (n - 1) as nat, s, fuel);
        let s1 = expand_inputs(g, inputs, (n - 1) as nat, s, fuel);
        lemma_failed_stays_failed(g, inputs[n - 1].item@, inputs[n - 1].quantity, s1, fuel);
    }
}

proof fn lemma_runs_failed(g: RecipeGraph, item: Seq<char>, rid: Seq<char>, inputs: Seq<ItemStack>, out: u32, runs: nat, s: Expansion, fuel: nat)
    requires
        !s.ok,
    ensures
        !expand_runs(g, item, rid, inputs, out, runs, s, fuel).ok,
    decreases runs,
{
    if runs > 0 {
        lemma_runs_failed(g, item, rid, inputs, out, (runs - 1) as nat, s, fuel);
        let s1 = expand_runs(g, item, rid, inputs, out, (runs - 1) as nat, s, fuel);
        lemma_inputs_failed(g, inputs, inputs.len(), s1, fuel);
    }
}

/// A prefix of the runs stays in range when all of them do.
proof fn lemma_runs_prefix_ok(g: RecipeGraph, item: Seq<char>, rid: Seq<char>, inputs: Seq<ItemStack>, out: u32, r: nat, runs: nat, s: Expansion, fuel: nat)
    requires
        r <= runs,
        expand_runs(g, item, rid, inputs, out, runs, s, fuel).ok,
    ensures
        expand_runs(g, item, rid, inputs, out, r, s, fuel).ok,
    decreases runs - r,
{
    if r < runs {
        let s1 = expand_runs(g, item, rid, inputs, out, (runs - 1) as nat, s, fuel);
        if !s1.ok {
            lemma_inputs_failed(g, inputs, inputs.len(), s1, fuel);
        }
        lemma_runs_prefix_ok(g, item, rid, inputs, out, r, (runs - 1) as nat, s, fuel);
    }
}

/// A prefix of the inputs stays in range when all of them do.
proof fn lemma_inputs_prefix_ok(g: RecipeGraph, inputs: Seq<ItemStack>, k: nat, n: nat, s: Expansion, fuel: nat)
    requires
        k <= n <= inputs.len(),
        expand_inputs(g, inputs, n, s, fuel).ok,
    ensures
        expand_inputs(g, inputs, k, s, fuel).ok,
    decreases n - k,
{
    if k < n {
        let s1 = expand_inputs(g, inputs, (n - 1) as nat, s, fuel);
        if !s1.ok {
            lemma_failed_stays_failed(g, inputs[n - 1].item@, inputs[n - 1].quantity, s1, fuel);
        }
        lemma_inputs_prefix_ok(g, inputs, k, (n - 1) as nat, s, fuel);
    }
}

/// What an expansion holds of `i`: earmarked plus still unclaimed.
pub open spec fn held(s: Expansion, i: Seq<char>) -> int {
    get0(s.reserved, i) + get0(s.avail, i)
}

/// `b` extends the job list `a`.
pub open spec fn extends(a: Seq<Seq<char>>, b: Seq<Seq<char>>) -> bool {
    a.len() <= b.len() && forall|k: int| 0 <= k < a.len() ==> #[trigger] b[k] == a[k]
}

/// None of the jobs of `jobs` from position `from` on is the recipe `p`
/// (vacuous when there is no such recipe).
pub open spec fn queues_none_of(jobs: Seq<Seq<char>>, from: int, p: Option<Seq<char>>) -> bool {
    match p {
        None => true,
        Some(rid) => forall|k: int| from <= k < jobs.len() ==> #[trigger] jobs[k] != rid,
    }
}

proof fn lemma_queues_none_split(jobs: Seq<Seq<char>>, mid: Seq<Seq<char>>, from: int, p: Option<Seq<char>>)
    requires
        extends(mid, jobs),
        0 <= from <= mid.len(),
        queues_none_of(jobs, from, p),
    ensures
        queues_none_of(mid, from, p),
        queues_none_of(jobs, mid.len() as int, p),
{
    match p {
        None => {},
        Some(rid) => {
            assert forall|k: int| from <= k < mid.len() implies #[trigger] mid[k] != rid by {
                assert(jobs[k] == mid[k]);
            }
        },
    }
}

proof fn lemma_expand_held(g: RecipeGraph, x: Seq<char>, q: u32, s: Expansion, fuel: nat, i: Seq<char>)
    ensures
        ({
            let r = expand(g, x, q, s, fuel);
            &&& extends(s.jobs, r.jobs)
            &&& r.ok ==> s.ok
            &&& r.ok && queues_none_of(r.jobs, s.jobs.len() as int, first_producer(g, i)) ==> held(r, i) == held(s, i)
        }),
    decreases fuel, 0nat, 0nat,
{
    if s.ok && fuel > 0 {
        let have = get0(s.avail, x);
        if have < q {
            let still = q - have;
            let s1 = Expansion { avail: s.avail.insert(x, 0), ..s };
            let s2 = if have > 0 { reserve(s1, x, have) } else { s1 };
            assert(held(s2, i) == held(s, i) || !s2.ok);
            match first_producer(g, x) {
                None => {},
                Some(rid) => if g.recipes@.contains_key(rid) {
                    let recipe = g.recipes@[rid];
                    let out = output_qty(recipe.outputs@, x);
                    if out != 0 {
                        let runs = ((still + out - 1) / (out as int)) as nat;
                        lemma_runs_held(g, x, rid, recipe.inputs@, out, runs, s2, (fuel - 1) as nat, i);
                    }
                },
            }
        }
    }
}

proof fn lemma_runs_held(
    g: RecipeGraph,
    item: Seq<char>,
    rid: Seq<char>,
    inputs: Seq<ItemStack>,
    out: u32,
    runs: nat,
    s: Expansion,
    fuel: nat,
    i: Seq<char>,
)
    requires
        first_producer(g, item) == Some(rid),
    ensures
        ({
            let r = expand_runs(g, item, rid, inputs, out, runs, s, fuel);
            &&& extends(s.jobs, r.jobs)
            &&& r.ok ==> s.ok
            &&& r.ok && queues_none_of(r.jobs, s.jobs.len() as int, first_producer(g, i)) ==> held(r, i) == held(s, i)
        }),
    decreases fuel, 2nat, runs,
{
    if runs > 0 {
        let s1 = expand_runs(g, item, rid, inputs, out, (runs - 1) as nat, s, fuel);
        lemma_runs_held(g, item, rid, inputs, out, (runs - 1) as nat, s, fuel, i);
        let s2 = expand_inputs(g, inputs, inputs.len(), s1, fuel);
        lemma_inputs_held(g, inputs, inputs.len(), s1, fuel, i);
        let r = run_done(s2, item, rid, out);
        if r.ok {
            assert(s2.ok);
            assert(r.jobs == s2.jobs.push(rid));
            assert(extends(s2.jobs, r.jobs));
            assert(extends(s.jobs, r.jobs)) by {
                assert forall|k: int| 0 <= k < s.jobs.len() implies #[trigger] r.jobs[k] == s.jobs[k] by {
                    assert(s1.jobs[k] == s.jobs[k]);
                    assert(s2.jobs[k] == s1.jobs[k]);
                }
            }
            if queues_none_of(r.jobs, s.jobs.len() as int, first_producer(g, i)) {
                assert(r.jobs[r.jobs.len() - 1] == rid);
                assert(i != item);
                lemma_queues_none_split(r.jobs, s2.jobs, s.jobs.len() as int, first_producer(g, i));
                lemma_queues_none_split(s2.jobs, s1.jobs, s.jobs.len() as int, first_producer(g, i));
            }
        } else {
            assert(r.jobs == s2.jobs);
            assert(extends(s.jobs, r.jobs)) by {
                assert forall|k: int| 0 <= k < s.jobs.len() implies #[trigger] r.jobs[k] == s.jobs[k] by {
                    assert(s1.jobs[k] == s.jobs[k]);
                    assert(s2.jobs[k] == s1.jobs[k]);
                }
            }
        }
    }
}

proof fn lemma_inputs_held(g: RecipeGraph, inputs: Seq<ItemStack>, n: nat, s: Expansion, fuel: nat, i: Seq<char>)
    ensures
        ({
            let r = expand_inputs(g, inputs, n, s, fuel);
            &&& extends(s.jobs, r.jobs)
            &&& r.ok ==> s.ok
            &&& r.ok && queues_none_of(r.jobs, s.jobs.len() as int, first_producer(g, i)) ==> held(r, i) == held(s, i)
        }),
    decreases fuel, 1nat, n,
{
    if n > 0 && n <= inputs.len() {
        let s1 = expand_inputs(g, inputs, (n - 1) as nat, s, fuel);
        lemma_inputs_held(g, inputs, (n - 1) as nat, s, fuel, i);
        let r = expand(g, inputs[n - 1].item@, inputs[n - 1].quantity, s1, fuel);
        lemma_expand_held(g, inputs[n - 1].item@, inputs[n - 1].quantity, s1, fuel, i);
        assert(extends(s.jobs, r.jobs)) by {
            assert forall|k: int| 0 <= k < s.jobs.len() implies #[trigger] r.jobs[k] == s.jobs[k] by {
                assert(s1.jobs[k] == s.jobs[k]);
            }
        }
        if r.ok && queues_none_of(r.jobs, s.jobs.len() as int, first_producer(g, i)) {
            lemma_queues_none_split(r.jobs, s1.jobs, s.jobs.len() as int, first_producer(g, i));
        }
    }
}

/// Stock claimed from storage leaves the available pool. For an item whose
/// producing recipe the expansion of a request queues no job of, what the
/// expansion earmarks plus what it leaves unclaimed is exactly what storage
/// held; so it never earmarks more of an item than storage holds unless it
/// queues a job of the item's producing recipe.
pub proof fn lemma_expansion_claims_stock(g: RecipeGraph, item: Seq<char>, q: u32, storage: Map<Seq<char>, u32>, i: Seq<char>)
    requires
        expandable(g, item, q, storage),
    ensures
        ({
            let e = expansion_of(g, item, q, storage);
            &&& queues_none_of(e.jobs, 0, first_producer(g, i)) ==> get0(e.reserved, i) + get0(e.avail, i) == get0(storage, i)
            &&& get0(e.reserved, i) > get0(storage, i) ==> exists|k: int| 0 <= k < e.jobs.len() && first_producer(g, i) == Some(#[trigger] e.jobs[k])
        }),
{
    let fuel = choose|fuel: nat| #[trigger] expand(g, item, q, fresh(storage), fuel).ok;
    lemma_expand_held(g, item, q, fresh(storage), fuel, i);
    let e = expansion_of(g, item, q, storage);
    if get0(e.reserved, i) > get0(storage, i) {
        assert(!queues_none_of(e.jobs, 0, first_producer(g, i)));
    }
}

fn count_of(m: &StrMap<u32>, k: &str) -> (v: u32)
    ensures
        v == get0(m@, k@),
{
    match m.get(k) {
        Some(v) => *v,
        None => 0,
    }
}

fn reserve_exec(reserved: &mut StrMap<u32>, item: &str, qty: u32, Ghost(s): Ghost<Expansion>)
    requires
        s.reserved == old(reserved)@,
        s.ok,
        reserve(s, item@, qty).ok,
    ensures
        final(reserved)@ == reserve(s, item@, qty).reserved,
{
    let cur = count_of(reserved, item);
    reserved.insert(owned(item), cur + qty);
}

/// The state of the three working collections.
pub open spec fn state_of(avail: Map<Seq<char>, u32>, jobs: Seq<QueuedJob>, reserved: Map<Seq<char>, u32>) -> Expansion {
    Expansion { avail, jobs: job_ids(jobs), reserved, ok: true }
}

fn first_producer_exec<'a>(g: &'a RecipeGraph, item: &str) -> (r: Option<&'a String>)
    ensures
        match r {
            Some(x) => first_producer(*g, item@) == Some(x@),
            None => first_producer(*g, item@) is None,
        },
{
    match g.producers.get(item) {
        Some(p) => if p.len() > 0 {
            Some(&p[0])
        } else {
            None
        },
        None => None,
    }
}

fn output_qty_exec(outputs: &Vec<ItemStack>, item: &str) -> (q: u32)
    ensures
        q == output_qty(outputs@, item@),
{
    let mut i: usize = 0;
    assert(outputs@.subrange(0, outputs@.len() as int) =~= outputs@);
    while i < outputs.len()
        invariant
            i <= outputs@.len(),
            output_qty(outputs@, item@) == output_qty(outputs@.subrange(i as int, outputs@.len() as int), item@),
        decreases outputs@.len() - i,
    {
        let ghost rest = outputs@.subrange(i as int, outputs@.len() as int);
        if crate::text::str_eq(outputs[i].item.as_str(), item) {
            assert(rest[0] == outputs@[i as int]);
            return outputs[i].quantity;
        }
        assert(rest.drop_first() =~= outputs@.subrange(i + 1, outputs@.len() as int));
        i += 1;
    }
    assert(outputs@.subrange(i as int, outputs@.len() as int) =~= Seq::<ItemStack>::empty());
    1
}

/// Expands a request into `jobs`, claiming stock from `available` and
/// earmarking in `reserved`, exactly as [`expand`] states.
fn build_recursive(
    item_id: &str,
    quantity: u32,
    recipe_graph: &RecipeGraph,
    available: &mut StrMap<u32>,
    jobs: &mut Vec<QueuedJob>,
    reserved: &mut StrMap<u32>,
    Ghost(fuel): Ghost<nat>,
)
    requires
        expand(*recipe_graph, item_id@, quantity, state_of(old(available)@, old(jobs)@, old(reserved)@), fuel).ok,
    ensures
        state_of(final(available)@, final(jobs)@, final(reserved)@) == expand(
            *recipe_graph,
            item_id@,
            quantity,
            state_of(old(available)@, old(jobs)@, old(reserved)@),
            fuel,
        ),
    decreases fuel,
{
    let ghost s0 = state_of(available@, jobs@, reserved@);
    let have = count_of(available, item_id);
    if have >= quantity {
        if available.contains_key(item_id) {
            available.insert(owned(item_id), have - quantity);
        }
        let ghost s1 = state_of(available@, jobs@, reserved@);
        reserve_exec(reserved, item_id, quantity, Ghost(s1));
        return;
    }
    let still = quantity - have;
    available.insert(owned(item_id), 0);
    let ghost s1 = state_of(available@, jobs@, reserved@);
    proof {
        let g = *recipe_graph;
        let item = item_id@;
        let s2 = if have > 0 { reserve(s1, item, have) } else { s1 };
        if !s2.ok {
            match first_producer(g, item) {
                None => {},
                Some(rid) => if g.recipes@.contains_key(rid) {
                    let recipe = g.recipes@[rid];
                    let out = output_qty(recipe.outputs@, item);
                    if out != 0 {
                        let runs = ((still + out - 1) / (out as int)) as nat;
                        lemma_runs_failed(g, item, rid, recipe.inputs@, out, runs, s2, (fuel - 1) as nat);
                    }
                },
            }
        }
    }
    if have > 0 {
        reserve_exec(reserved, item_id, have, Ghost(s1));
    }
    let ghost s2 = state_of(available@, jobs@, reserved@);
    let recipe_id = match first_producer_exec(recipe_graph, item_id) {
        Some(r) => r,
        None => return,
    };
    let recipe = match recipe_graph.recipes.get(recipe_id.as_str()) {
        Some(r) => r,
        None => return,
    };
    let out = output_qty_exec(&recipe.outputs, item_id);
    assert(out > 0);
    let whole = still / out;
    let rem = still % out;
    assert(rem != 0 ==> whole < 0xffff_ffff) by (nonlinear_arith)
        requires
            out > 0,
            whole == still / out,
            rem == still % out,
            still <= 0xffff_ffff,
    {
        if rem != 0 {
            assert(out >= 2);
            assert(whole * out <= still);
        }
    }
    let runs: u32 = whole + if rem != 0 { 1 } else { 0 };
    proof {
        assert(runs as nat == ((still + out - 1) / (out as int)) as nat) by (nonlinear_arith)
            requires
                out > 0,
                runs == (still / out) + if still % out != 0 { 1int } else { 0int },
        {
        }
    }
    let ghost inputs = recipe.inputs@;
    let ghost rid = recipe_id@;
    let ghost total = expand_runs(*recipe_graph, item_id@, rid, inputs, out, runs as nat, s2, (fuel - 1) as nat);
    assert(expand(*recipe_graph, item_id@, quantity, s0, fuel) == total);
    let mut r: u32 = 0;
    while r < runs
        invariant
            r <= runs,
            inputs == recipe.inputs@,
            rid == recipe_id@,
            out > 0,
            total == expand_runs(*recipe_graph, item_id@, rid, inputs, out, runs as nat, s2, (fuel - 1) as nat),
            total.ok,
            fuel > 0,
            state_of(available@, jobs@, reserved@) == expand_runs(*recipe_graph, item_id@, rid, inputs, out, r as nat, s2, (fuel - 1) as nat),
        decreases runs - r,
    {
        proof {
            lemma_runs_prefix_ok(*recipe_graph, item_id@, rid, inputs, out, (r + 1) as nat, runs as nat, s2, (fuel - 1) as nat);
        }
        let ghost sr = state_of(available@, jobs@, reserved@);
        let ghost after_inputs = expand_inputs(*recipe_graph, inputs, inputs.len(), sr, (fuel - 1) as nat);
        let n = recipe.inputs.len();
        let mut k: usize = 0;
        proof {
            if !after_inputs.ok {
                assert(!run_done(after_inputs, item_id@, rid, out).ok);
            }
        }
        while k < n
            invariant
                n == inputs.len(),
                inputs == recipe.inputs@,
                k <= n,
                after_inputs == expand_inputs(*recipe_graph, inputs, inputs.len(), sr, (fuel - 1) as nat),
                after_inputs.ok,
                fuel > 0,
                state_of(available@, jobs@, reserved@) == expand_inputs(*recipe_graph, inputs, k as nat, sr, (fuel - 1) as nat),
            decreases n - k,
        {
            proof {
                lemma_inputs_prefix_ok(*recipe_graph, inputs, (k + 1) as nat, n as nat, sr, (fuel - 1) as nat);
            }
            let input = &recipe.inputs[k];
            build_recursive(input.item.as_str(), input.quantity, recipe_graph, available, jobs, reserved, Ghost((fuel - 1) as nat));
            k += 1;
        }
        let ghost si = state_of(available@, jobs@, reserved@);
        assert(si == after_inputs);
        let cur = count_of(available, item_id);
        available.insert(owned(item_id), cur + out);
        jobs.push(QueuedJob { recipe_id: recipe_id.clone() });
        proof {
            assert(job_ids(jobs@) =~= si.jobs.push(rid));
        }
        r += 1;
    }
}

fn copy_counts(m: &StrMap<u32>) -> (r: StrMap<u32>)
    ensures
        r@ == m@,
{
    let n = m.len();
    let ghost ks = m.key_seq();
    proof {
        m.lemma_key_seq_dom();
    }
    let mut r: StrMap<u32> = StrMap::new();
    let mut i: usize = 0;
    while i < n
        invariant
            n == ks.len(),
            n == m.spec_len(),
            ks == m.key_seq(),
            i <= n,
            forall|k: Seq<char>| #[trigger] m@.contains_key(k) <==> ks.contains(k),
            forall|k: Seq<char>| #[trigger] r@.contains_key(k) <==> ks.subrange(0, i as int).contains(k),
            forall|k: Seq<char>| #[trigger] r@.contains_key(k) ==> r@[k] == m@[k],
        decreases n - i,
    {
        let k = m.key_at(i).clone();
        let v = *m.value_at(i);
        r.insert(k, v);
        proof {
            let next = ks.subrange(0, i + 1);
            let prev = ks.subrange(0, i as int);
            assert forall|x: Seq<char>| #[trigger] r@.contains_key(x) <==> next.contains(x) by {
                if next.contains(x) {
                    let w = choose|w: int| 0 <= w < next.len() && next[w] == x;
                    if w < i {
                        assert(prev[w] == x);
                    }
                }
                if prev.contains(x) {
                    let w = choose|w: int| 0 <= w < prev.len() && prev[w] == x;
                    assert(next[w] == x);
                }
                if x == ks[i as int] {
                    assert(next[i as int] == x);
                }
            }
        }
        i += 1;
    }
    proof {
        assert(ks.subrange(0, n as int) =~= ks);
        assert(r@ =~= m@);
    }
    r
}

/// `base` with each count of `extra` added.
pub open spec fn add_counts(base: Map<Seq<char>, u32>, extra: Map<Seq<char>, u32>) -> Map<Seq<char>, u32> {
    Map::new(
        |k: Seq<char>| base.contains_key(k) || extra.contains_key(k),
        |k: Seq<char>| (get0(base, k) + get0(extra, k)) as u32,
    )
}

impl NetworkCraftQueue {
    /// An empty queue.
    pub fn new() -> (q: Self)
        ensures
            q.jobs@.len() == 0,
            q.reserved@ == Map::<Seq<char>, u32>::empty(),
    {
        NetworkCraftQueue { jobs: VecDeque::new(), reserved: StrMap::new() }
    }

    /// Expands a request for `quantity` of `item_id` into jobs (dependencies
    /// first) appended to the queue, and earmarks the stored items they use.
    pub fn enqueue_item(&mut self, item_id: &str, quantity: u32, recipe_graph: &RecipeGraph, storage: &StrMap<u32>)
        requires
            expandable(*recipe_graph, item_id@, quantity, storage@),
            forall|k: Seq<char>| get0(old(self).reserved@, k) + get0(
                #[trigger] expansion_of(*recipe_graph, item_id@, quantity, storage@).reserved,
                k,
            ) <= u32::MAX,
        ensures
            job_ids(final(self).jobs@) == job_ids(old(self).jobs@) + expansion_of(*recipe_graph, item_id@, quantity, storage@).jobs,
            final(self).reserved@ == add_counts(old(self).reserved@, expansion_of(*recipe_graph, item_id@, quantity, storage@).reserved),
            forall|i: Seq<char>| #[trigger] get0(final(self).reserved@, i) > get0(old(self).reserved@, i) + get0(storage@, i)
                ==> exists|k: int| old(self).jobs@.len() <= k < final(self).jobs@.len()
                    && first_producer(*recipe_graph, i) == Some(#[trigger] job_ids(final(self).jobs@)[k]),
    {
        let ghost fuel = choose|fuel: nat| #[trigger] expand(*recipe_graph, item_id@, quantity, fresh(storage@), fuel).ok;
        let ghost st = expansion_of(*recipe_graph, item_id@, quantity, storage@);
        let mut available = copy_counts(storage);
        let mut new_jobs: Vec<QueuedJob> = Vec::new();
        let mut to_reserve: StrMap<u32> = StrMap::new();
        proof {
            assert(job_ids(new_jobs@) =~= Seq::<Seq<char>>::empty());
            assert(state_of(available@, new_jobs@, to_reserve@) == fresh(storage@));
        }
        build_recursive(item_id, quantity, recipe_graph, &mut available, &mut new_jobs, &mut to_reserve, Ghost(fuel));
        let ghost old_jobs = job_ids(self.jobs@);
        assert(st.jobs == job_ids(new_jobs@));
        assert(st.reserved == to_reserve@);
        let mut i: usize = 0;
        while i < new_jobs.len()
            invariant
                old_jobs == job_ids(old(self).jobs@),
                self.reserved@ == old(self).reserved@,
                st == expansion_of(*recipe_graph, item_id@, quantity, storage@),
                i <= new_jobs@.len(),
                job_ids(new_jobs@) == st.jobs,
                job_ids(self.jobs@) == old_jobs + st.jobs.subrange(0, i as int),
            decreases new_jobs@.len() - i,
        {
            let ghost j0 = self.jobs@;
            self.jobs.push_back(QueuedJob { recipe_id: new_jobs[i].recipe_id.clone() });
            assert(job_ids(self.jobs@) =~= job_ids(j0).push(st.jobs[i as int]));
            assert(st.jobs.subrange(0, i + 1) =~= st.jobs.subrange(0, i as int).push(st.jobs[i as int]));
            i += 1;
        }
        assert(st.jobs.subrange(0, st.jobs.len() as int) =~= st.jobs);
        let keys = to_reserve.keys();
        let ghost base = self.reserved@;
        proof {
            to_reserve.lemma_key_seq_dom();
            assert forall|x: Seq<char>| get0(base, x) + get0(#[trigger] st.reserved, x) <= u32::MAX by {
                assert(get0(old(self).reserved@, x) + get0(expansion_of(*recipe_graph, item_id@, quantity, storage@).reserved, x) <= u32::MAX);
            }
        }
        let mut k: usize = 0;
        while k < keys.len()
            invariant
                job_ids(self.jobs@) == job_ids(old(self).jobs@) + st.jobs,
                base == old(self).reserved@,
                st == expansion_of(*recipe_graph, item_id@, quantity, storage@),
                k <= keys@.len(),
                to_reserve@ == st.reserved,
                crate::strmap::str_views(keys@) == to_reserve.key_seq(),
                to_reserve.key_seq().no_duplicates(),
                forall|x: Seq<char>| #[trigger] to_reserve@.contains_key(x) <==> to_reserve.key_seq().contains(x),
                forall|x: Seq<char>| get0(base, x) + get0(#[trigger] st.reserved, x) <= u32::MAX,
                forall|x: Seq<char>| #[trigger] self.reserved@.contains_key(x) <==> (base.contains_key(x)
                    || crate::strmap::str_views(keys@).subrange(0, k as int).contains(x)),
                forall|x: Seq<char>| #[trigger] self.reserved@.contains_key(x) ==> self.reserved@[x] == (if crate::strmap::str_views(
                    keys@,
                ).subrange(0, k as int).contains(x) {
                    get0(base, x) + get0(st.reserved, x)
                } else {
                    get0(base, x) as int
                }),
            decreases keys@.len() - k,
        {
            let key = &keys[k];
            let ghost kv = key@;
            let ghost ks = crate::strmap::str_views(keys@);
            assert(ks[k as int] == kv);
            assert(to_reserve@.contains_key(kv));
            let add = count_of(&to_reserve, key.as_str());
            let cur = count_of(&self.reserved, key.as_str());
            let ghost prev = ks.subrange(0, k as int);
            assert(!prev.contains(kv)) by {
                if prev.contains(kv) {
                    let w = choose|w: int| 0 <= w < prev.len() && prev[w] == kv;
                    assert(ks[w] == ks[k as int]);
                }
            }
            assert(get0(base, kv) + get0(st.reserved, kv) <= u32::MAX);
            self.reserved.insert(key.clone(), cur + add);
            proof {
                let next = ks.subrange(0, k + 1);
                let prev = ks.subrange(0, k as int);
                assert forall|x: Seq<char>| #[trigger] next.contains(x) <==> (prev.contains(x) || x == kv) by {
                    if next.contains(x) {
                        let w = choose|w: int| 0 <= w < next.len() && next[w] == x;
                        if w < k {
                            assert(prev[w] == x);
                        }
                    }
                    if prev.contains(x) {
                        let w = choose|w: int| 0 <= w < prev.len() && prev[w] == x;
                        assert(next[w] == x);
                    }
                    if x == kv {
                        assert(next[k as int] == x);
                    }
                }
            }
            k += 1;
        }
        proof {
            let ks = crate::strmap::str_views(keys@);
            assert(ks.subrange(0, ks.len() as int) =~= ks);
            assert(self.reserved@ =~= add_counts(base, st.reserved));
            let g = *recipe_graph;
            let fj = job_ids(self.jobs@);
            assert forall|i: Seq<char>| #[trigger] get0(self.reserved@, i) > get0(base, i) + get0(storage@, i)
                implies exists|k: int| old(self).jobs@.len() <= k < self.jobs@.len()
                    && first_producer(g, i) == Some(#[trigger] fj[k]) by {
                assert(get0(base, i) + get0(st.reserved, i) <= u32::MAX);
                assert(get0(self.reserved@, i) == get0(base, i) + get0(st.reserved, i));
                lemma_expansion_claims_stock(g, item_id@, quantity, storage@, i);
                let k = choose|k: int| 0 <= k < st.jobs.len() && first_producer(g, i) == Some(#[trigger] st.jobs[k]);
                assert(fj[old_jobs.len() + k] == st.jobs[k]);
            }
        }
    }
}

/// The `(item, quantity)` inputs of the queued jobs whose recipe the graph
/// knows, in queue order.
pub open spec fn queued_inputs(g: RecipeGraph, jobs: Seq<Seq<char>>) -> Seq<(Seq<char>, u32)>
    decreases jobs.len(),
{
    if jobs.len() == 0 {
        Seq::empty()
    } else {
        queued_inputs(g, jobs.drop_last()) + recipe_inputs(g, jobs.last())
    }
}

/// The `(item, quantity)` inputs of a recipe, none for an unknown recipe.
pub open spec fn recipe_inputs(g: RecipeGraph, rid: Seq<char>) -> Seq<(Seq<char>, u32)> {
    if g.recipes@.contains_key(rid) {
        g.recipes@[rid].inputs@.map_values(|s: ItemStack| (s.item@, s.quantity))
    } else {
        Seq::empty()
    }
}

/// The total quantity of each item over a list of `(item, quantity)` pairs.
pub open spec fn totals(pairs: Seq<(Seq<char>, u32)>) -> Map<Seq<char>, nat>
    decreases pairs.len(),
{
    if pairs.len() == 0 {
        Map::empty()
    } else {
        let m = totals(pairs.drop_last());
        let k = pairs.last().0;
        m.insert(k, ((if m.contains_key(k) { m[k] } else { 0 }) + pairs.last().1) as nat)
    }
}

proof fn lemma_totals_prefix(p: Seq<(Seq<char>, u32)>, q: Seq<(Seq<char>, u32)>)
    requires
        p.is_prefix_of(q),
    ensures
        forall|k: Seq<char>| #[trigger] totals(p).contains_key(k) ==> totals(q).contains_key(k) && totals(p)[k] <= totals(q)[k],
    decreases q.len() - p.len(),
{
    if p.len() < q.len() {
        let q1 = q.drop_last();
        assert(p.is_prefix_of(q1)) by {
            assert(q1.subrange(0, p.len() as int) =~= q.subrange(0, p.len() as int));
        }
        lemma_totals_prefix(p, q1);
    } else {
        assert(p =~= q);
    }
}

proof fn lemma_queued_prefix(g: RecipeGraph, jobs: Seq<Seq<char>>, a: int, b: int)
    requires
        0 <= a <= b <= jobs.len(),
    ensures
        queued_inputs(g, jobs.take(a)).is_prefix_of(queued_inputs(g, jobs.take(b))),
    decreases b - a,
{
    if a < b {
        lemma_queued_prefix(g, jobs, a, b - 1);
        assert(jobs.take(b).drop_last() =~= jobs.take(b - 1));
        let x = queued_inputs(g, jobs.take(a));
        let y = queued_inputs(g, jobs.take(b - 1));
        let z = queued_inputs(g, jobs.take(b));
        assert(z == y + recipe_inputs(g, jobs.take(b).last()));
        assert(z.subrange(0, x.len() as int) =~= y.subrange(0, x.len() as int));
    }
}

impl NetworkCraftQueue {
    /// The total of each input still needed by the remaining jobs.
    pub fn inputs_still_needed(&self, recipe_graph: &RecipeGraph) -> (needed: StrMap<u32>)
        requires
            forall|k: Seq<char>| #[trigger] totals(queued_inputs(*recipe_graph, job_ids(self.jobs@))).contains_key(k)
                ==> totals(queued_inputs(*recipe_graph, job_ids(self.jobs@)))[k] <= u32::MAX,
        ensures
            forall|k: Seq<char>| #[trigger] needed@.contains_key(k) <==> totals(queued_inputs(*recipe_graph, job_ids(self.jobs@))).contains_key(k),
            forall|k: Seq<char>| #[trigger] needed@.contains_key(k) ==> needed@[k] == totals(queued_inputs(*recipe_graph, job_ids(self.jobs@)))[k],
    {
        let ghost g = *recipe_graph;
        let ghost ids = job_ids(self.jobs@);
        let ghost all = queued_inputs(g, ids);
        let mut needed: StrMap<u32> = StrMap::new();
        let n = self.jobs.len();
        let mut j: usize = 0;
        proof {
            assert(ids.take(0) =~= Seq::<Seq<char>>::empty());
        }
        while j < n
            invariant
                n == ids.len(),
                ids == job_ids(self.jobs@),
                g == *recipe_graph,
                all == queued_inputs(g, ids),
                j <= n,
                forall|k: Seq<char>| #[trigger] totals(all).contains_key(k) ==> totals(all)[k] <= u32::MAX,
                forall|k: Seq<char>| #[trigger] needed@.contains_key(k) <==> totals(queued_inputs(g, ids.take(j as int))).contains_key(k),
                forall|k: Seq<char>| #[trigger] needed@.contains_key(k) ==> needed@[k] == totals(queued_inputs(g, ids.take(j as int)))[k],
            decreases n - j,
        {
            let ghost before = queued_inputs(g, ids.take(j as int));
            let ghost after = queued_inputs(g, ids.take(j + 1));
            proof {
                assert(ids.take(j + 1).drop_last() =~= ids.take(j as int));
                assert(ids.take(j + 1).last() == ids[j as int]);
                assert(after == before + recipe_inputs(g, ids[j as int]));
                lemma_queued_prefix(g, ids, j + 1, n as int);
                assert(ids.take(n as int) =~= ids);
            }
            let rid = &self.jobs[j].recipe_id;
            assert(rid@ == ids[j as int]);
            match recipe_graph.recipes.get(rid.as_str()) {
                None => {
                    assert(after =~= before);
                },
                Some(recipe) => {
                    let ghost ins = recipe_inputs(g, rid@);
                    let m = recipe.inputs.len();
                    let mut i: usize = 0;
                    assert(before + ins.take(0) =~= before);
                    while i < m
                        invariant
                            m == recipe.inputs@.len(),
                            ins == recipe.inputs@.map_values(|s: ItemStack| (s.item@, s.quantity)),
                            after == before + ins,
                            after.is_prefix_of(all),
                            i <= m,
                            forall|k: Seq<char>| #[trigger] totals(all).contains_key(k) ==> totals(all)[k] <= u32::MAX,
                            forall|k: Seq<char>| #[trigger] needed@.contains_key(k) <==> totals(before + ins.take(i as int)).contains_key(k),
                            forall|k: Seq<char>| #[trigger] needed@.contains_key(k) ==> needed@[k] == totals(before + ins.take(i as int))[k],
                        decreases m - i,
                    {
                        let input = &recipe.inputs[i];
                        let ghost cur = before + ins.take(i as int);
                        let ghost nxt = before + ins.take(i + 1);
                        proof {
                            assert(nxt.drop_last() =~= cur);
                            assert(nxt.last() == (input.item@, input.quantity));
                            assert(nxt.is_prefix_of(all)) by {
                                assert(nxt.is_prefix_of(after)) by {
                                    assert(after.subrange(0, nxt.len() as int) =~= nxt);
                                }
                                assert(all.subrange(0, nxt.len() as int) =~= after.subrange(0, nxt.len() as int));
                            }
                            lemma_totals_prefix(nxt, all);
                            assert(totals(nxt).contains_key(input.item@));
                        }
                        let c = count_of(&needed, input.item.as_str());
                        let v = c + input.quantity;
                        needed.insert(input.item.clone(), v);
                        i += 1;
                    }
                    assert(before + ins.take(m as int) =~= after);
                },
            }
            j += 1;
        }
        proof {
            assert(ids.take(n as int) =~= ids);
        }
        needed
    }
}

} // verus!
