//! Prescriptive scenarios and smoke planning: the run script's steps, the
//! difficulty ladder with its tier caps, and the preflight that turns a
//! content target (a node, a recipe or an item) into a smoke plan spliced onto
//! a baseline scenario.

use vstd::prelude::*;
use crate::recipe_graph::RecipeGraph;
use crate::research::TechTreeProgress;
use crate::strmap::{StrMap, contains_str, str_views};
use crate::tech_tree::{NodeDef, NodeEffect, TechTree};
use crate::text::{decimal, owned, push_decimal, push_str};

verus! {

/// How hard a run is; each difficulty caps the tech tier a run may reach.
#[derive(Clone, Copy, Debug, PartialEq, Eq, Structural)]
pub enum DifficultyTier {
    Initiation,
    Standard,
    Advanced,
    Pinnacle,
}

impl DifficultyTier {
    /// The highest tech tier the difficulty allows.
    pub open spec fn cap(self) -> u8 {
        match self {
            DifficultyTier::Initiation => 3,
            DifficultyTier::Standard => 5,
            DifficultyTier::Advanced => 7,
            DifficultyTier::Pinnacle => 9,
        }
    }

    /// The difficulty's name as written in messages.
    pub open spec fn label(self) -> Seq<char> {
        match self {
            DifficultyTier::Initiation => "Initiation"@,
            DifficultyTier::Standard => "Standard"@,
            DifficultyTier::Advanced => "Advanced"@,
            DifficultyTier::Pinnacle => "Pinnacle"@,
        }
    }

    /// The highest tech tier the difficulty allows.
    pub fn max_tier(&self) -> (t: u8)
        ensures
            t == self.cap(),
    {
        match self {
            DifficultyTier::Initiation => 3,
            DifficultyTier::Standard => 5,
            DifficultyTier::Advanced => 7,
            DifficultyTier::Pinnacle => 9,
        }
    }

    /// The difficulty's name.
    pub fn name(&self) -> (s: String)
        ensures
            s@ == self.label(),
    {
        match self {
            DifficultyTier::Initiation => owned("Initiation"),
            DifficultyTier::Standard => owned("Standard"),
            DifficultyTier::Advanced => owned("Advanced"),
            DifficultyTier::Pinnacle => owned("Pinnacle"),
        }
    }
}

/// The easiest difficulty whose cap covers `tier`; the hardest when none does.
pub open spec fn lowest_covering(tier: u8) -> DifficultyTier {
    if tier <= 3 {
        DifficultyTier::Initiation
    } else if tier <= 5 {
        DifficultyTier::Standard
    } else if tier <= 7 {
        DifficultyTier::Advanced
    } else {
        DifficultyTier::Pinnacle
    }
}

/// The lowest difficulty whose tier cap covers `tier`: its cap covers the
/// tier whenever any difficulty's does, and no difficulty that covers the
/// tier has a lower cap.
pub fn lowest_difficulty(tier: u8) -> (d: DifficultyTier)
    ensures
        d == lowest_covering(tier),
        tier <= DifficultyTier::Pinnacle.cap() ==> d.cap() >= tier,
        forall|e: DifficultyTier| #[trigger] e.cap() >= tier ==> e.cap() >= d.cap(),
{
    if tier <= 3 {
        DifficultyTier::Initiation
    } else if tier <= 5 {
        DifficultyTier::Standard
    } else if tier <= 7 {
        DifficultyTier::Advanced
    } else {
        DifficultyTier::Pinnacle
    }
}

/// The difficulty a scenario runs at when it names none.
pub fn default_difficulty() -> (d: DifficultyTier)
    ensures
        d == DifficultyTier::Standard,
{
    DifficultyTier::Standard
}

/// Whether a deployed machine is wired to power when the scenario does not say.
pub fn default_true() -> (b: bool)
    ensures
        b,
{
    true
}

/// How many machines a deploy places when the scenario does not say.
pub fn default_one() -> (n: usize)
    ensures
        n == 1,
{
    1
}

/// The `f32` bit pattern of the default runaway guard, 40000 simulated seconds.
pub const DEFAULT_MAX_SECS_BITS: u32 = 0x471C_4000;

/// The runaway guard a scenario gets when it names none, as `f32` bits.
pub fn default_max_secs_bits() -> (b: u32)
    ensures
        b == DEFAULT_MAX_SECS_BITS,
{
    DEFAULT_MAX_SECS_BITS
}

/// What a smoke scenario proves reachable.
#[derive(Clone, Debug)]
pub enum Target {
    /// A tech-tree node, exercised by researching it.
    Node(String),
    /// A concrete recipe id, exercised by crafting its primary output.
    Recipe(String),
    /// An item id, exercised by crafting it through its first producing recipe.
    Item(String),
}

impl Target {
    /// The bare content id.
    pub open spec fn id_view(self) -> Seq<char> {
        match self {
            Target::Node(id) => id@,
            Target::Recipe(id) => id@,
            Target::Item(id) => id@,
        }
    }

    /// The bare content id, for naming the generated scenario.
    pub fn id(&self) -> (r: &str)
        ensures
            r@ == self.id_view(),
    {
        match self {
            Target::Node(id) => id.as_str(),
            Target::Recipe(id) => id.as_str(),
            Target::Item(id) => id.as_str(),
        }
    }
}

/// Whether a finished run reached `target`: the node or the recipe is
/// unlocked, or at least one of the item (`hub_count` of it) is stored in the hub.
pub fn target_reached(target: &Target, progress: &TechTreeProgress, hub_count: u32) -> (b: bool)
    ensures
        b == match *target {
            Target::Node(id) => progress@.unlocked_nodes.contains(id@),
            Target::Recipe(id) => progress@.unlocked_recipes.contains(id@),
            Target::Item(_) => hub_count >= 1,
        },
{
    match target {
        Target::Node(id) => progress.unlocked_nodes.contains(id.as_str()),
        Target::Recipe(id) => progress.unlocked_recipes.contains(id.as_str()),
        Target::Item(_) => hub_count >= 1,
    }
}

/// Where a deploy or place of a miner goes.
#[derive(Clone, Debug)]
pub enum MineTarget {
    /// The starter deposit of the origin chunk.
    Origin,
    /// The nearest fresh surface vein yielding this ore.
    Vein(String),
}

/// One instruction of a scenario's run script.
#[derive(Clone, Debug)]
pub enum Step {
    /// Own or craft the machine, then place and wire it.
    Deploy { machine: String, powered: bool, count: usize, on: Option<MineTarget>, bind: Option<String> },
    /// Place and wire an already owned machine, without crafting.
    Place { machine: String, powered: bool, count: usize, on: Option<MineTarget>, bind: Option<String> },
    /// Enqueue the dependency tree for `count` of `item` and wait for them.
    Craft { item: String, count: u32 },
    /// Top the craft queue up to `count` jobs of `recipe`.
    Ensure { recipe: String, count: usize },
    /// Request the node every frame until it unlocks.
    Research { node: String },
    /// Fly the drone to the nearest deposit yielding `ore`.
    Recon { ore: String },
    /// Reveal the origin fog cell.
    Scan,
    /// Own or craft the module, then install it into the machine bound as `machine`.
    Install { machine: String, module: String },
    /// Arm or disarm the auto-feed economy.
    Pump(bool),
    /// Terminal: enqueue the successor build list and run to completion.
    Build { jobs: Vec<(String, usize)> },
}

/// How a run selects the tech nodes it surfaces.
#[derive(Clone, Copy, Debug, PartialEq, Eq, Structural)]
pub enum Select {
    /// Every node of the tree is available.
    Force,
}

/// A prescriptive scenario: the run script and its top-level knobs.
pub struct ScenarioSpec {
    pub name: String,
    pub seed: u64,
    pub difficulty: DifficultyTier,
    pub steps: Vec<Step>,
    /// The runaway guard in simulated seconds, as the bits of an `f32`.
    pub max_secs_bits: u32,
    /// Nodes a run must surface (the target's prerequisite closure).
    pub require: Vec<String>,
    pub select: Select,
}

/// The resolved plan of one smoke run.
pub struct SmokePlan {
    pub difficulty: DifficultyTier,
    pub tier: u8,
    pub exercise: Step,
    pub require: Vec<String>,
}

fn copy_strings(v: &Vec<String>) -> (r: Vec<String>)
    ensures
        r@ == v@,
{
    let mut r: Vec<String> = Vec::new();
    let mut i: usize = 0;
    while i < v.len()
        invariant
            i <= v@.len(),
            r@ == v@.subrange(0, i as int),
        decreases v@.len() - i,
    {
        r.push(v[i].clone());
        assert(r@ =~= v@.subrange(0, i + 1));
        i += 1;
    }
    assert(v@.subrange(0, v@.len() as int) =~= v@);
    r
}

fn copy_option_string(o: &Option<String>) -> (r: Option<String>)
    ensures
        r == *o,
{
    match o {
        Some(s) => Some(s.clone()),
        None => None,
    }
}

fn copy_mine_target(o: &Option<MineTarget>) -> (r: Option<MineTarget>)
    ensures
        r == *o,
{
    match o {
        Some(MineTarget::Origin) => Some(MineTarget::Origin),
        Some(MineTarget::Vein(s)) => Some(MineTarget::Vein(s.clone())),
        None => None,
    }
}

fn copy_jobs(v: &Vec<(String, usize)>) -> (r: Vec<(String, usize)>)
    ensures
        r@ == v@,
{
    let mut r: Vec<(String, usize)> = Vec::new();
    let mut i: usize = 0;
    while i < v.len()
        invariant
            i <= v@.len(),
            r@ == v@.subrange(0, i as int),
        decreases v@.len() - i,
    {
        let (s, n) = (v[i].0.clone(), v[i].1);
        r.push((s, n));
        assert(r@ =~= v@.subrange(0, i + 1));
        i += 1;
    }
    assert(v@.subrange(0, v@.len() as int) =~= v@);
    r
}

/// Two steps are the same instruction: equal, with a build list compared by
/// its entries.
pub open spec fn same_step(a: Step, b: Step) -> bool {
    match (a, b) {
        (Step::Build { jobs: x }, Step::Build { jobs: y }) => x@ == y@,
        _ => a == b,
    }
}

/// Two step lists hold the same instructions in the same order.
pub open spec fn same_steps(a: Seq<Step>, b: Seq<Step>) -> bool {
    &&& a.len() == b.len()
    &&& forall|i: int| 0 <= i < a.len() ==> same_step(#[trigger] a[i], b[i])
}

impl Step {
    /// A copy of the step holding the same instruction.
    pub fn duplicate(&self) -> (r: Step)
        ensures
            same_step(r, *self),
    {
        match self {
            Step::Deploy { machine, powered, count, on, bind } => Step::Deploy {
                machine: machine.clone(),
                powered: *powered,
                count: *count,
                on: copy_mine_target(on),
                bind: copy_option_string(bind),
            },
            Step::Place { machine, powered, count, on, bind } => Step::Place {
                machine: machine.clone(),
                powered: *powered,
                count: *count,
                on: copy_mine_target(on),
                bind: copy_option_string(bind),
            },
            Step::Craft { item, count } => Step::Craft { item: item.clone(), count: *count },
            Step::Ensure { recipe, count } => Step::Ensure { recipe: recipe.clone(), count: *count },
            Step::Research { node } => Step::Research { node: node.clone() },
            Step::Recon { ore } => Step::Recon { ore: ore.clone() },
            Step::Scan => Step::Scan,
            Step::Install { machine, module } => Step::Install { machine: machine.clone(), module: module.clone() },
            Step::Pump(b) => Step::Pump(*b),
            Step::Build { jobs } => Step::Build { jobs: copy_jobs(jobs) },
        }
    }
}

// ---------------------------------------------------------------------------
// Splicing a plan onto a baseline
// ---------------------------------------------------------------------------

/// The position of the first `Pump(false)` of `steps`.
pub open spec fn first_disarm(steps: Seq<Step>) -> Option<int> {
    if exists|i: int| 0 <= i < steps.len() && steps[i] == Step::Pump(false) {
        Some(choose|i: int| 0 <= i < steps.len() && steps[i] == Step::Pump(false)
            && forall|j: int| 0 <= j < i ==> steps[j] != Step::Pump(false))
    } else {
        None
    }
}

/// The part of a baseline a smoke keeps: everything before its first
/// `Pump(false)`, or, without one, every step that is not a `Build`.
pub open spec fn kept_steps(steps: Seq<Step>) -> Seq<Step> {
    match first_disarm(steps) {
        Some(i) => steps.take(i),
        None => steps.filter(|s: Step| !(s is Build)),
    }
}

/// Splices a smoke plan onto a baseline scenario: the baseline through the
/// end of its research economy, then the plan's exercise, then a disarm.
pub fn build_spec(name: &str, baseline: &ScenarioSpec, plan: &SmokePlan, select: Select) -> (spec: ScenarioSpec)
    ensures
        spec.name@ == name@,
        spec.seed == baseline.seed,
        spec.difficulty == plan.difficulty,
        same_steps(spec.steps@, kept_steps(baseline.steps@) + seq![plan.exercise, Step::Pump(false)]),
        spec.max_secs_bits == baseline.max_secs_bits,
        spec.require@ == plan.require@,
        spec.select == select,
{
    let src = &baseline.steps;
    let n = src.len();
    let mut pos: usize = 0;
    while pos < n && !matches!(src[pos], Step::Pump(false))
        invariant
            n == src@.len(),
            pos <= n,
            forall|j: int| 0 <= j < pos ==> src@[j] != Step::Pump(false),
        decreases n - pos,
    {
        pos += 1;
    }
    let mut steps: Vec<Step> = Vec::new();
    if pos < n {
        proof {
            let s = src@;
            assert(s[pos as int] == Step::Pump(false));
            let c = choose|i: int| 0 <= i < s.len() && s[i] == Step::Pump(false)
                && forall|j: int| 0 <= j < i ==> s[j] != Step::Pump(false);
            assert(c == pos as int) by {
                if c < pos {
                    assert(s[c] != Step::Pump(false));
                } else if c > pos {
                    assert(s[pos as int] != Step::Pump(false));
                }
            }
        }
        let mut i: usize = 0;
        while i < pos
            invariant
                n == src@.len(),
                pos < n,
                i <= pos,
                same_steps(steps@, src@.take(i as int)),
            decreases pos - i,
        {
            let ghost s0 = steps@;
            steps.push(src[i].duplicate());
            assert forall|k: int| 0 <= k < steps@.len() implies same_step(#[trigger] steps@[k], src@.take(i + 1)[k]) by {
                if k < s0.len() {
                    assert(steps@[k] == s0[k]);
                    assert(same_step(s0[k], src@.take(i as int)[k]));
                }
            }
            i += 1;
        }
    } else {
        let mut i: usize = 0;
        while i < n
            invariant
                n == src@.len(),
                i <= n,
                same_steps(steps@, src@.take(i as int).filter(|s: Step| !(s is Build))),
            decreases n - i,
        {
            let ghost f = src@.take(i as int).filter(|s: Step| !(s is Build));
            proof {
                assert(src@.take(i + 1) =~= src@.take(i as int).push(src@[i as int]));
                src@.take(i as int).lemma_filter_push(src@[i as int], |s: Step| !(s is Build));
            }
            if !matches!(src[i], Step::Build { .. }) {
                let ghost s0 = steps@;
                steps.push(src[i].duplicate());
                assert forall|k: int| 0 <= k < steps@.len() implies same_step(#[trigger] steps@[k], f.push(src@[i as int])[k]) by {
                    if k < s0.len() {
                        assert(steps@[k] == s0[k]);
                        assert(same_step(s0[k], f[k]));
                    }
                }
            }
            i += 1;
        }
        assert(src@.take(n as int) =~= src@);
    }
    let ghost kept = steps@;
    let ghost expect = kept_steps(src@);
    assert(same_steps(kept, expect));
    steps.push(plan.exercise.duplicate());
    steps.push(Step::Pump(false));
    proof {
        let full = expect + seq![plan.exercise, Step::Pump(false)];
        assert forall|k: int| 0 <= k < steps@.len() implies same_step(#[trigger] steps@[k], full[k]) by {
            if k < kept.len() {
                assert(steps@[k] == kept[k]);
                assert(same_step(kept[k], expect[k]));
            }
        }
    }
    ScenarioSpec {
        name: owned(name),
        seed: baseline.seed,
        difficulty: plan.difficulty,
        steps,
        max_secs_bits: baseline.max_secs_bits,
        require: copy_strings(&plan.require),
        select,
    }
}

/// The scenario file a smoke of a difficulty derives from; only the tested
/// difficulties have one.
pub fn baseline_path(difficulty: DifficultyTier) -> (r: Result<String, String>)
    ensures
        difficulty == DifficultyTier::Initiation ==> (r matches Ok(p) && p@ == "scenarios/initiation.ron"@),
        difficulty == DifficultyTier::Standard ==> (r matches Ok(p) && p@ == "scenarios/standard.ron"@),
        difficulty != DifficultyTier::Initiation && difficulty != DifficultyTier::Standard ==> (r matches Err(e)
            && e@ == "no baseline scenario for difficulty "@ + difficulty.label() + " yet"@),
{
    match difficulty {
        DifficultyTier::Initiation => Ok(owned("scenarios/initiation.ron")),
        DifficultyTier::Standard => Ok(owned("scenarios/standard.ron")),
        d => {
            let mut m = owned("no baseline scenario for difficulty ");
            let label = d.name();
            push_str(&mut m, label.as_str());
            push_str(&mut m, " yet");
            Err(m)
        },
    }
}

// ---------------------------------------------------------------------------
// Prerequisite closure
// ---------------------------------------------------------------------------

/// The prerequisites of a node, by id.
pub open spec fn prereqs(n: NodeDef) -> Seq<Seq<char>> {
    str_views(n.prerequisites@)
}

/// Each id of `path` but the last is a defined node that lists the next id
/// as a prerequisite.
pub open spec fn is_chain(t: Map<Seq<char>, NodeDef>, path: Seq<Seq<char>>) -> bool {
    &&& path.len() >= 1
    &&& forall|i: int| 0 <= i < path.len() - 1 ==> t.contains_key(#[trigger] path[i]) && prereqs(t[path[i]]).contains(path[i + 1])
}

/// `to` is `from` or one of its transitive prerequisites.
pub open spec fn reaches(t: Map<Seq<char>, NodeDef>, from: Seq<char>, to: Seq<char>) -> bool {
    exists|path: Seq<Seq<char>>| #[trigger] is_chain(t, path) && path[0] == from && path.last() == to
}

/// The tier by which an id sorts: its node's tier, 0 for an id not in the table.
pub open spec fn tier_key(t: Map<Seq<char>, NodeDef>, id: Seq<char>) -> u8 {
    if t.contains_key(id) {
        t[id].tier
    } else {
        0
    }
}

/// The ids of `v` come in non-decreasing tier order.
pub open spec fn tier_sorted(t: Map<Seq<char>, NodeDef>, v: Seq<Seq<char>>) -> bool {
    forall|i: int, j: int| 0 <= i < j < v.len() ==> tier_key(t, #[trigger] v[i]) <= tier_key(t, #[trigger] v[j])
}

/// `v` is the prerequisite closure of `id`: each node `id` reaches, once, in
/// tier order.
pub open spec fn is_closure_of(t: Map<Seq<char>, NodeDef>, id: Seq<char>, v: Seq<Seq<char>>) -> bool {
    &&& v.no_duplicates()
    &&& forall|x: Seq<char>| #[trigger] v.contains(x) <==> reaches(t, id, x)
    &&& tier_sorted(t, v)
}

/// Every node that `id` reaches is defined.
pub open spec fn closure_complete(t: Map<Seq<char>, NodeDef>, id: Seq<char>) -> bool {
    forall|m: Seq<char>| #[trigger] reaches(t, id, m) ==> t.contains_key(m)
}

/// The answer to a prerequisite chain that names an undefined node.
pub open spec fn missing_prereq_message(m: Seq<char>) -> Seq<char> {
    "prerequisite `"@ + m + "` is missing from the tech tree"@
}

/// `e` names an undefined node that `id` reaches.
pub open spec fn is_missing_prereq_error(t: Map<Seq<char>, NodeDef>, id: Seq<char>, e: Seq<char>) -> bool {
    exists|m: Seq<char>| #[trigger] reaches(t, id, m) && !t.contains_key(m) && e == missing_prereq_message(m)
}

/// Every id in `seen` has each prerequisite in `seen` or in `stack`.
spec fn closed_under(t: Map<Seq<char>, NodeDef>, seen: Seq<Seq<char>>, stack: Seq<Seq<char>>) -> bool {
    forall|i: int, j: int| 0 <= i < seen.len() && 0 <= j < prereqs(t[seen[i]]).len() ==> (seen.contains(
        #[trigger] prereqs(t[#[trigger] seen[i]])[j],
    ) || stack.contains(prereqs(t[seen[i]])[j]))
}

proof fn lemma_reach_step(t: Map<Seq<char>, NodeDef>, from: Seq<char>, m: Seq<char>, p: Seq<char>)
    requires
        reaches(t, from, m),
        t.contains_key(m),
        prereqs(t[m]).contains(p),
    ensures
        reaches(t, from, p),
{
    let path = choose|path: Seq<Seq<char>>| #[trigger] is_chain(t, path) && path[0] == from && path.last() == m;
    let q = path.push(p);
    assert forall|i: int| 0 <= i < q.len() - 1 implies t.contains_key(#[trigger] q[i]) && prereqs(t[q[i]]).contains(q[i + 1]) by {
        if i < path.len() - 1 {
            assert(q[i] == path[i] && q[i + 1] == path[i + 1]);
        } else {
            assert(q[i] == m && q[i + 1] == p);
        }
    }
    assert(is_chain(t, q));
}

proof fn lemma_reach_self(t: Map<Seq<char>, NodeDef>, from: Seq<char>)
    ensures
        reaches(t, from, from),
{
    assert(is_chain(t, seq![from]));
}

proof fn lemma_closed_has_chain(t: Map<Seq<char>, NodeDef>, seen: Seq<Seq<char>>, path: Seq<Seq<char>>, i: int)
    requires
        closed_under(t, seen, Seq::empty()),
        is_chain(t, path),
        seen.contains(path[0]),
        0 <= i < path.len(),
    ensures
        seen.contains(path[i]),
    decreases i,
{
    if i > 0 {
        lemma_closed_has_chain(t, seen, path, i - 1);
        let m = path[i - 1];
        assert(t.contains_key(path[i - 1]) && prereqs(t[path[i - 1]]).contains(path[i]));
        let a = choose|a: int| 0 <= a < seen.len() && seen[a] == m;
        let b = choose|b: int| 0 <= b < prereqs(t[m]).len() && prereqs(t[m])[b] == path[i];
        assert(seen.contains(prereqs(t[seen[a]])[b]) || Seq::<Seq<char>>::empty().contains(prereqs(t[seen[a]])[b]));
    }
}

fn tier_of_id(tree: &TechTree, id: &str) -> (t: u8)
    ensures
        t == tier_key(tree.nodes@, id@),
{
    match tree.nodes.get(id) {
        Some(n) => n.tier,
        None => 0,
    }
}

/// Sorts ids into non-decreasing tier order, keeping the order of equal tiers.
fn sort_by_tier(tree: &TechTree, v: Vec<String>) -> (r: Vec<String>)
    ensures
        tier_sorted(tree.nodes@, str_views(r@)),
        str_views(r@).to_multiset() == str_views(v@).to_multiset(),
{
    let ghost t = tree.nodes@;
    let ghost input = str_views(v@);
    let n = v.len();
    let mut out: Vec<String> = Vec::new();
    let mut i: usize = 0;
    assert(input.subrange(0, 0) =~= Seq::<Seq<char>>::empty());
    assert(str_views(out@) =~= Seq::<Seq<char>>::empty());
    while i < n
        invariant
            n == v@.len(),
            input == str_views(v@),
            t == tree.nodes@,
            i <= n,
            tier_sorted(t, str_views(out@)),
            str_views(out@).to_multiset() == input.subrange(0, i as int).to_multiset(),
        decreases n - i,
    {
        let x = v[i].clone();
        let kx = tier_of_id(tree, x.as_str());
        let ghost before = str_views(out@);
        let mut p: usize = 0;
        loop
            invariant
                p <= out@.len(),
                before == str_views(out@),
                t == tree.nodes@,
                kx == tier_key(t, x@),
                forall|k: int| 0 <= k < p ==> tier_key(t, #[trigger] before[k]) <= kx,
            ensures
                p <= out@.len(),
                p == out@.len() || tier_key(t, before[p as int]) > kx,
                forall|k: int| 0 <= k < p ==> tier_key(t, #[trigger] before[k]) <= kx,
            decreases out@.len() - p,
        {
            if p == out.len() {
                break;
            }
            if tier_of_id(tree, out[p].as_str()) > kx {
                break;
            }
            p += 1;
        }
        let ghost xv = x@;
        out.insert(p, x);
        proof {
            let after = str_views(out@);
            assert(after =~= before.insert(p as int, xv));
            assert forall|a: int, b: int| 0 <= a < b < after.len() implies tier_key(t, #[trigger] after[a]) <= tier_key(t, #[trigger] after[b]) by {
                if a < p && b < p {
                    assert(after[a] == before[a] && after[b] == before[b]);
                } else if a < p && b == p {
                    assert(after[a] == before[a]);
                } else if a < p {
                    assert(after[a] == before[a] && after[b] == before[b - 1]);
                } else if a == p {
                    assert(after[b] == before[b - 1]);
                    assert(tier_key(t, before[p as int]) <= tier_key(t, before[b - 1]));
                } else {
                    assert(after[a] == before[a - 1] && after[b] == before[b - 1]);
                }
            }
            assert(input.subrange(0, i + 1) =~= input.subrange(0, i as int).push(xv));
            vstd::seq_lib::to_multiset_build(input.subrange(0, i as int), xv);
            vstd::seq_lib::to_multiset_insert(before, p as int, xv);
        }
        i += 1;
    }
    assert(input.subrange(0, n as int) =~= input);
    out
}

/// A node plus all its transitive prerequisites, in tier order; an error
/// naming an undefined node that the chain reaches.
pub fn node_closure(tree: &TechTree, id: &str) -> (r: Result<Vec<String>, String>)
    ensures
        r is Ok <==> closure_complete(tree.nodes@, id@),
        match r {
            Ok(v) => is_closure_of(tree.nodes@, id@, str_views(v@)),
            Err(e) => is_missing_prereq_error(tree.nodes@, id@, e@),
        },
{
    let ghost t = tree.nodes@;
    let ghost keys = tree.nodes.key_seq().to_set();
    proof {
        tree.nodes.lemma_key_seq_dom();
        vstd::seq_lib::seq_to_set_is_finite(tree.nodes.key_seq());
        lemma_reach_self(t, id@);
    }
    let mut seen: Vec<String> = Vec::new();
    let mut stack: Vec<String> = Vec::new();
    stack.push(owned(id));
    let ghost mut done: Set<Seq<char>> = Set::empty();
    proof {
        assert(str_views(stack@)[0] == id@);
        assert(str_views(seen@).to_set() =~= Set::<Seq<char>>::empty());
    }
    while stack.len() > 0
        invariant
            t == tree.nodes@,
            keys == tree.nodes.key_seq().to_set(),
            keys.finite(),
            forall|k: Seq<char>| #[trigger] t.contains_key(k) <==> keys.contains(k),
            done == str_views(seen@).to_set(),
            str_views(seen@).no_duplicates(),
            forall|i: int| 0 <= i < seen@.len() ==> t.contains_key(#[trigger] str_views(seen@)[i]),
            closed_under(t, str_views(seen@), str_views(stack@)),
            str_views(seen@).contains(id@) || str_views(stack@).contains(id@),
            forall|i: int| 0 <= i < seen@.len() ==> reaches(t, id@, #[trigger] str_views(seen@)[i]),
            forall|i: int| 0 <= i < stack@.len() ==> reaches(t, id@, #[trigger] str_views(stack@)[i]),
        decreases keys.difference(done).len(), stack@.len(),
    {
        let ghost sv = str_views(seen@);
        let ghost st0 = str_views(stack@);
        let n = stack.pop().unwrap();
        let ghost st1 = str_views(stack@);
        assert(st0 =~= st1.push(n@));
        assert(reaches(t, id@, st0[st0.len() - 1]));
        if contains_str(&seen, n.as_str()) {
            proof {
                assert forall|i: int, j: int| 0 <= i < sv.len() && 0 <= j < prereqs(t[sv[i]]).len() implies (sv.contains(
                    #[trigger] prereqs(t[#[trigger] sv[i]])[j],
                ) || st1.contains(prereqs(t[sv[i]])[j])) by {
                    let q = prereqs(t[sv[i]])[j];
                    if st0.contains(q) && !sv.contains(q) {
                        let w = choose|w: int| 0 <= w < st0.len() && st0[w] == q;
                        if w < st1.len() {
                            assert(st1[w] == q);
                        }
                    }
                }
                if st0.contains(id@) && !sv.contains(id@) {
                    let w = choose|w: int| 0 <= w < st0.len() && st0[w] == id@;
                    if w < st1.len() {
                        assert(st1[w] == id@);
                    }
                }
                assert forall|i: int| 0 <= i < stack@.len() implies reaches(t, id@, #[trigger] str_views(stack@)[i]) by {
                    assert(st1[i] == st0[i]);
                }
            }
            continue;
        }
        match tree.nodes.get(n.as_str()) {
            None => {
                let mut m = owned("prerequisite `");
                push_str(&mut m, n.as_str());
                push_str(&mut m, "` is missing from the tech tree");
                proof {
                    assert(reaches(t, id@, n@));
                }
                return Err(m);
            },
            Some(node) => {
                let ghost pre = prereqs(*node);
                let m = node.prerequisites.len();
                let mut j: usize = 0;
                proof {
                    assert(pre.subrange(0, 0) =~= Seq::<Seq<char>>::empty());
                    assert(st1 + pre.subrange(0, 0) =~= st1);
                    assert forall|i: int| 0 <= i < stack@.len() implies reaches(t, id@, #[trigger] str_views(stack@)[i]) by {
                        assert(st1[i] == st0[i]);
                    }
                }
                while j < m
                    invariant
                        m == node.prerequisites@.len(),
                        pre == prereqs(*node),
                        t == tree.nodes@,
                        t.contains_key(n@),
                        t[n@] == *node,
                        reaches(t, id@, n@),
                        j <= m,
                        str_views(stack@) == st1 + pre.subrange(0, j as int),
                        forall|i: int| 0 <= i < stack@.len() ==> reaches(t, id@, #[trigger] str_views(stack@)[i]),
                    decreases m - j,
                {
                    let q = node.prerequisites[j].clone();
                    proof {
                        assert(pre[j as int] == q@);
                        assert(prereqs(t[n@]).contains(q@));
                        lemma_reach_step(t, id@, n@, q@);
                    }
                    let ghost sk = stack@;
                    stack.push(q);
                    proof {
                        assert(stack@ == sk.push(q));
                        assert(str_views(stack@) =~= str_views(sk).push(q@));
                        assert(str_views(stack@) =~= st1 + pre.subrange(0, j + 1));
                        assert forall|i: int| 0 <= i < stack@.len() implies reaches(t, id@, #[trigger] str_views(stack@)[i]) by {
                            if i < sk.len() {
                                assert(str_views(stack@)[i] == str_views(sk)[i]);
                            }
                        }
                    }
                    j += 1;
                }
                proof {
                    assert(pre.subrange(0, m as int) =~= pre);
                }
                let ghost st2 = str_views(stack@);
                seen.push(n);
                proof {
                    let sv2 = str_views(seen@);
                    assert(sv2 =~= sv.push(n@));
                    assert forall|x: Seq<char>| #[trigger] sv2.contains(x) <==> (sv.contains(x) || x == n@) by {
                        if sv2.contains(x) {
                            let w = choose|w: int| 0 <= w < sv2.len() && sv2[w] == x;
                            if w < sv.len() {
                                assert(sv[w] == x);
                            }
                        }
                        if sv.contains(x) {
                            let w = choose|w: int| 0 <= w < sv.len() && sv[w] == x;
                            assert(sv2[w] == x);
                        }
                        if x == n@ {
                            assert(sv2[sv.len() as int] == x);
                        }
                    }
                    assert(sv2.to_set() =~= sv.to_set().insert(n@));
                    assert(keys.contains(n@));
                    assert(!done.contains(n@));
                    keys.lemma_set_insert_diff_decreases(done, n@);
                    proof_closed_after_expand(t, sv, st1, n@, pre, st2);
                    if st0.contains(id@) && !sv.contains(id@) && id@ != n@ {
                        let w = choose|w: int| 0 <= w < st0.len() && st0[w] == id@;
                        assert(st1[w] == id@);
                        assert(st2[w] == id@);
                    }
                    assert(sv2[sv.len() as int] == n@);
                    assert forall|a: int, b: int| 0 <= a < sv2.len() && 0 <= b < sv2.len() && a != b implies sv2[a] != sv2[b] by {
                        if a == sv.len() || b == sv.len() {
                            if a < sv.len() {
                                assert(sv.contains(sv2[a]));
                            }
                            if b < sv.len() {
                                assert(sv.contains(sv2[b]));
                            }
                        }
                    }
                }
                proof {
                    done = done.insert(n@);
                }
            },
        }
    }
    proof {
        let sv = str_views(seen@);
        assert(str_views(stack@) =~= Seq::<Seq<char>>::empty());
        assert forall|x: Seq<char>| #[trigger] sv.contains(x) <==> reaches(t, id@, x) by {
            if reaches(t, id@, x) {
                let path = choose|path: Seq<Seq<char>>| #[trigger] is_chain(t, path) && path[0] == id@ && path.last() == x;
                lemma_closed_has_chain(t, sv, path, path.len() - 1);
            }
        }
        assert forall|m: Seq<char>| #[trigger] reaches(t, id@, m) implies t.contains_key(m) by {
            assert(sv.contains(m));
        }
    }
    let sorted = sort_by_tier(tree, seen);
    proof {
        let a = str_views(sorted@);
        let b = str_views(seen@);
        assert forall|x: Seq<char>| #[trigger] a.contains(x) <==> b.contains(x) by {
            vstd::seq_lib::to_multiset_contains(a, x);
            vstd::seq_lib::to_multiset_contains(b, x);
        }
        vstd::seq_lib::to_multiset_len(a);
        vstd::seq_lib::to_multiset_len(b);
        lemma_no_dup_same_multiset(b, a);
    }
    Ok(sorted)
}

proof fn proof_closed_after_expand(
    t: Map<Seq<char>, NodeDef>,
    sv: Seq<Seq<char>>,
    st1: Seq<Seq<char>>,
    n: Seq<char>,
    pre: Seq<Seq<char>>,
    st2: Seq<Seq<char>>,
)
    requires
        closed_under(t, sv, st1.push(n)),
        t.contains_key(n),
        pre == prereqs(t[n]),
        st2 == st1 + pre,
    ensures
        closed_under(t, sv.push(n), st2),
{
    let sv2 = sv.push(n);
    assert forall|i: int, j: int| 0 <= i < sv2.len() && 0 <= j < prereqs(t[sv2[i]]).len() implies (sv2.contains(
        #[trigger] prereqs(t[#[trigger] sv2[i]])[j],
    ) || st2.contains(prereqs(t[sv2[i]])[j])) by {
        let q = prereqs(t[sv2[i]])[j];
        if i < sv.len() {
            assert(sv2[i] == sv[i]);
            assert(sv.contains(prereqs(t[sv[i]])[j]) || st1.push(n).contains(prereqs(t[sv[i]])[j]));
            if sv.contains(q) {
                let w = choose|w: int| 0 <= w < sv.len() && sv[w] == q;
                assert(sv2[w] == q);
            } else {
                let w = choose|w: int| 0 <= w < st1.push(n).len() && st1.push(n)[w] == q;
                if w < st1.len() {
                    assert(st2[w] == q);
                } else {
                    assert(sv2[sv.len() as int] == q);
                }
            }
        } else {
            assert(sv2[i] == n);
            assert(st2[st1.len() + j] == q);
        }
    }
}

proof fn lemma_no_dup_same_multiset(a: Seq<Seq<char>>, b: Seq<Seq<char>>)
    requires
        a.no_duplicates(),
        a.to_multiset() == b.to_multiset(),
    ensures
        b.no_duplicates(),
{
    broadcast use vstd::seq_lib::group_to_multiset_ensures;
    assert forall|i: int, j: int| 0 <= i < b.len() && 0 <= j < b.len() && i != j implies b[i] != b[j] by {
        if b[i] == b[j] {
            let x = b[i];
            lemma_count_two(b, i, j);
            lemma_count_no_dup(a, x);
        }
    }
}

proof fn lemma_count_two(s: Seq<Seq<char>>, i: int, j: int)
    requires
        0 <= i < s.len(),
        0 <= j < s.len(),
        i != j,
        s[i] == s[j],
    ensures
        s.to_multiset().count(s[i]) >= 2,
{
    broadcast use vstd::seq_lib::group_to_multiset_ensures;
    let x = s[i];
    let lo = if i < j { i } else { j };
    let hi = if i < j { j } else { i };
    let s1 = s.remove(hi);
    assert(s1[lo] == x);
    assert(s1.to_multiset().contains(x));
    assert(s.to_multiset().count(x) == s1.to_multiset().count(x) + 1);
}

proof fn lemma_count_no_dup(s: Seq<Seq<char>>, x: Seq<char>)
    requires
        s.no_duplicates(),
    ensures
        s.to_multiset().count(x) <= 1,
    decreases s.len(),
{
    broadcast use vstd::seq_lib::group_to_multiset_ensures;
    if s.len() > 0 {
        let s1 = s.drop_last();
        assert(s =~= s1.push(s.last()));
        lemma_count_no_dup(s1, x);
        if s.last() == x {
            assert(!s1.contains(x)) by {
                if s1.contains(x) {
                    let w = choose|w: int| 0 <= w < s1.len() && s1[w] == x;
                    assert(s[w] == s[s.len() - 1]);
                }
            }
        }
    }
}

// ---------------------------------------------------------------------------
// Resolving a target into a plan
// ---------------------------------------------------------------------------

/// Whether an effect unlocks the recipe, directly or through its template.
pub open spec fn effect_unlocks(e: NodeEffect, recipe: Seq<char>, template: Option<Seq<char>>) -> bool {
    match e {
        NodeEffect::UnlockRecipes(ids) => str_views(ids@).contains(recipe),
        NodeEffect::UnlockRecipeTemplate(t) => template == Some(t@),
        NodeEffect::UnlockMachine(_) => false,
    }
}

/// Whether some effect of the node unlocks the recipe.
pub open spec fn node_unlocks(n: NodeDef, recipe: Seq<char>, template: Option<Seq<char>>) -> bool {
    exists|i: int| 0 <= i < n.effects@.len() && effect_unlocks(#[trigger] n.effects@[i], recipe, template)
}

/// The template a recipe of the graph was expanded from.
pub open spec fn recipe_template(g: RecipeGraph, recipe: Seq<char>) -> Option<Seq<char>> {
    if g.recipes@.contains_key(recipe) {
        match g.recipes@[recipe].template_id {
            Some(t) => Some(t@),
            None => None,
        }
    } else {
        None
    }
}

/// The position, in the tree's key order, of the first node that unlocks the recipe.
pub open spec fn first_unlocker(tree: TechTree, g: RecipeGraph, recipe: Seq<char>) -> Option<int> {
    let ks = tree.nodes.key_seq();
    let tm = recipe_template(g, recipe);
    if exists|i: int| 0 <= i < ks.len() && node_unlocks(tree.nodes@[#[trigger] ks[i]], recipe, tm) {
        Some(choose|i: int| 0 <= i < ks.len() && node_unlocks(tree.nodes@[#[trigger] ks[i]], recipe, tm)
            && forall|j: int| 0 <= j < i ==> !node_unlocks(tree.nodes@[#[trigger] ks[j]], recipe, tm))
    } else {
        None
    }
}

/// The id of the first node that unlocks the recipe.
pub open spec fn unlocker_id(tree: TechTree, g: RecipeGraph, recipe: Seq<char>) -> Option<Seq<char>> {
    match first_unlocker(tree, g, recipe) {
        Some(i) => Some(tree.nodes@[tree.nodes.key_seq()[i]].id@),
        None => None,
    }
}

fn effects_unlock(n: &NodeDef, recipe: &str, template: &Option<String>) -> (b: bool)
    ensures
        b == node_unlocks(*n, recipe@, match template { Some(t) => Some(t@), None => None }),
{
    let ghost tm = match template { Some(t) => Some(t@), None => None::<Seq<char>> };
    let mut i: usize = 0;
    while i < n.effects.len()
        invariant
            i <= n.effects@.len(),
            tm == match template { Some(t) => Some(t@), None => None::<Seq<char>> },
            forall|j: int| 0 <= j < i ==> !effect_unlocks(#[trigger] n.effects@[j], recipe@, tm),
        decreases n.effects@.len() - i,
    {
        let hit = match &n.effects[i] {
            NodeEffect::UnlockRecipes(ids) => contains_str(ids, recipe),
            NodeEffect::UnlockRecipeTemplate(t) => match template {
                Some(x) => crate::text::str_eq(x.as_str(), t.as_str()),
                None => false,
            },
            NodeEffect::UnlockMachine(_) => false,
        };
        if hit {
            return true;
        }
        i += 1;
    }
    false
}

/// The first node, in the tree's key order, whose effects unlock `recipe_id`
/// directly or through the template it was expanded from.
pub fn unlocking_node<'a>(tree: &'a TechTree, graph: &RecipeGraph, recipe_id: &str) -> (r: Option<&'a NodeDef>)
    ensures
        match r {
            Some(n) => first_unlocker(*tree, *graph, recipe_id@) matches Some(i) && *n == tree.nodes@[tree.nodes.key_seq()[i]],
            None => first_unlocker(*tree, *graph, recipe_id@) is None,
        },
{
    let template: Option<String> = match graph.recipes.get(recipe_id) {
        Some(rc) => match &rc.template_id {
            Some(t) => Some(t.clone()),
            None => None,
        },
        None => None,
    };
    let ghost tm = recipe_template(*graph, recipe_id@);
    assert(tm == match template { Some(t) => Some(t@), None => None::<Seq<char>> });
    let ghost ks = tree.nodes.key_seq();
    let n = tree.nodes.len();
    let mut i: usize = 0;
    while i < n
        invariant
            n == ks.len(),
            n == tree.nodes.spec_len(),
            ks == tree.nodes.key_seq(),
            tm == recipe_template(*graph, recipe_id@),
            tm == match template { Some(t) => Some(t@), None => None::<Seq<char>> },
            i <= n,
            forall|j: int| 0 <= j < i ==> !node_unlocks(tree.nodes@[#[trigger] ks[j]], recipe_id@, tm),
        decreases n - i,
    {
        let node = tree.nodes.value_at(i);
        if effects_unlock(node, recipe_id, &template) {
            proof {
                let c = choose|c: int| 0 <= c < ks.len() && node_unlocks(tree.nodes@[#[trigger] ks[c]], recipe_id@, tm)
                    && forall|j: int| 0 <= j < c ==> !node_unlocks(tree.nodes@[#[trigger] ks[j]], recipe_id@, tm);
                assert(node_unlocks(tree.nodes@[ks[i as int]], recipe_id@, tm));
                assert(c == i as int) by {
                    if c < i {
                        assert(!node_unlocks(tree.nodes@[ks[c]], recipe_id@, tm));
                    } else if c > i {
                        assert(!node_unlocks(tree.nodes@[ks[i as int]], recipe_id@, tm));
                    }
                }
            }
            return Some(node);
        }
        i += 1;
    }
    None
}

/// The step that exercises a target, in the form a plan can state it.
pub enum Exercise {
    Research(Seq<char>),
    Craft(Seq<char>),
}

/// The exercise a step performs: researching a node, or crafting one item.
pub open spec fn exercise_of(s: Step) -> Option<Exercise> {
    match s {
        Step::Research { node } => Some(Exercise::Research(node@)),
        Step::Craft { item, count } => if count == 1 {
            Some(Exercise::Craft(item@))
        } else {
            None
        },
        _ => None,
    }
}

/// How a target resolves before planning: the node that unlocks it (none
/// for content no node gates) and the exercise; or the preflight error.
pub open spec fn resolve(tree: TechTree, g: RecipeGraph, target: Target) -> Result<(Option<Seq<char>>, Exercise), Seq<char>> {
    match target {
        Target::Node(id) => if tree.nodes@.contains_key(id@) {
            Ok((Some(id@), Exercise::Research(id@)))
        } else {
            Err("unknown tech node `"@ + id@ + "`"@)
        },
        Target::Recipe(id) => if !g.recipes@.contains_key(id@) {
            Err("unknown recipe `"@ + id@ + "`"@)
        } else if g.recipes@[id@].outputs@.len() == 0 {
            Err("recipe `"@ + id@ + "` has no output to craft"@)
        } else {
            Ok((unlocker_id(tree, g, id@), Exercise::Craft(g.recipes@[id@].outputs@[0].item@)))
        },
        Target::Item(id) => if g.producers@.contains_key(id@) && g.producers@[id@]@.len() > 0 {
            Ok((unlocker_id(tree, g, g.producers@[id@]@[0]@), Exercise::Craft(id@)))
        } else {
            Err("item `"@ + id@ + "` has no producing recipe"@)
        },
    }
}

/// The tier a resolved node gives the target: its node's tier, 0 without one.
pub open spec fn node_tier(t: Map<Seq<char>, NodeDef>, node: Option<Seq<char>>) -> u8 {
    match node {
        Some(n) => tier_key(t, n),
        None => 0,
    }
}

/// The answer to a difficulty whose cap is below the target's tier.
pub open spec fn tier_message(tier: u8, d: DifficultyTier) -> Seq<char> {
    "target is tier "@ + decimal(tier as nat) + " but difficulty "@ + d.label() + " caps at tier "@ + decimal(
        d.cap() as nat,
    )
}

fn unknown_message(prefix: &str, id: &str, suffix: &str) -> (m: String)
    ensures
        m@ == prefix@ + id@ + suffix@,
{
    let mut m = owned(prefix);
    push_str(&mut m, id);
    push_str(&mut m, suffix);
    m
}

fn resolve_target(tree: &TechTree, graph: &RecipeGraph, target: &Target) -> (r: Result<(Option<String>, Step), String>)
    ensures
        match resolve(*tree, *graph, *target) {
            Ok((node, ex)) => r matches Ok((n, s)) && (match n { Some(x) => Some(x@), None => None::<Seq<char>> }) == node
                && exercise_of(s) == Some(ex),
            Err(e) => r matches Err(x) && x@ == e,
        },
{
    match target {
        Target::Node(id) => {
            if !tree.nodes.contains_key(id.as_str()) {
                return Err(unknown_message("unknown tech node `", id.as_str(), "`"));
            }
            Ok((Some(id.clone()), Step::Research { node: id.clone() }))
        },
        Target::Recipe(id) => match graph.recipes.get(id.as_str()) {
            None => Err(unknown_message("unknown recipe `", id.as_str(), "`")),
            Some(recipe) => {
                if recipe.outputs.len() == 0 {
                    return Err(unknown_message("recipe `", id.as_str(), "` has no output to craft"));
                }
                let output = recipe.outputs[0].item.clone();
                let node = match unlocking_node(tree, graph, id.as_str()) {
                    Some(n) => Some(n.id.clone()),
                    None => None,
                };
                Ok((node, Step::Craft { item: output, count: 1 }))
            },
        },
        Target::Item(id) => {
            let first: Option<&String> = match graph.producers.get(id.as_str()) {
                Some(p) => if p.len() > 0 {
                    Some(&p[0])
                } else {
                    None
                },
                None => None,
            };
            match first {
                None => Err(unknown_message("item `", id.as_str(), "` has no producing recipe")),
                Some(recipe_id) => {
                    let node = match unlocking_node(tree, graph, recipe_id.as_str()) {
                        Some(n) => Some(n.id.clone()),
                        None => None,
                    };
                    Ok((node, Step::Craft { item: id.clone(), count: 1 }))
                },
            }
        },
    }
}

/// Resolves and preflights a target into a smoke plan. `difficulty` forces a
/// difficulty; without one the lowest whose cap covers the target's tier is
/// picked. The errors name an unknown target, a target nothing produces, a
/// broken prerequisite chain, or a forced difficulty below the target's tier.
pub fn plan_smoke(tree: &TechTree, graph: &RecipeGraph, target: &Target, difficulty: Option<DifficultyTier>) -> (r: Result<SmokePlan, String>)
    ensures
        resolve(*tree, *graph, *target) matches Err(e) ==> (r matches Err(x) && x@ == e),
        resolve(*tree, *graph, *target) matches Ok((node, ex)) ==> {
            let t = tree.nodes@;
            let tier = node_tier(t, node);
            let d = match difficulty {
                Some(d) => d,
                None => lowest_covering(tier),
            };
            let complete = match node {
                Some(n) => closure_complete(t, n),
                None => true,
            };
            &&& node matches Some(n) ==> (!closure_complete(t, n) ==> (r matches Err(x) && is_missing_prereq_error(t, n, x@)))
            &&& (complete && d.cap() < tier) ==> (r matches Err(x) && x@ == tier_message(tier, d))
            &&& (complete && d.cap() >= tier) ==> (r matches Ok(p) && p.difficulty == d && p.tier == tier
                && exercise_of(p.exercise) == Some(ex) && match node {
                Some(n) => is_closure_of(t, n, str_views(p.require@)),
                None => p.require@.len() == 0,
            })
        },
        r matches Ok(p) ==> p.difficulty.cap() >= p.tier,
{
    let (node_id, exercise) = match resolve_target(tree, graph, target) {
        Ok(x) => x,
        Err(e) => return Err(e),
    };
    let (tier, require) = match &node_id {
        Some(id) => {
            let tier = tier_of_id(tree, id.as_str());
            match node_closure(tree, id.as_str()) {
                Ok(v) => (tier, v),
                Err(e) => return Err(e),
            }
        },
        None => (0u8, Vec::new()),
    };
    let d = match difficulty {
        Some(d) => d,
        None => lowest_difficulty(tier),
    };
    if d.max_tier() < tier {
        let mut m = owned("target is tier ");
        push_decimal(&mut m, tier as u64);
        push_str(&mut m, " but difficulty ");
        let label = d.name();
        push_str(&mut m, label.as_str());
        push_str(&mut m, " caps at tier ");
        push_decimal(&mut m, d.max_tier() as u64);
        return Err(m);
    }
    Ok(SmokePlan { difficulty: d, tier, exercise, require })
}

} // verus!
