//! Research currencies, the production tally, tech-tree progress, and the
//! per-frame unlock rules that move nodes from locked to unlocked.

use vstd::prelude::*;
use vstd::string::StrSliceExecFns;
use crate::recipe_graph::RecipeGraph;
use crate::strmap::{StrMap, StrSet, contains_str, str_views};
use crate::research_laws::lemma_research_frame;
use crate::tech_tree::{NodeDef, NodeEffect, TechTree, UnlockVector};
use crate::ordering::{chars_lt, chars_sorted, sort_strings};
use crate::text::{decimal, owned, push_decimal, str_eq};

verus! {

/// The item id of the legacy research currency.
pub const RESEARCH_POINTS_ID: &'static str = "research_points";

/// Prefix of a themed research-currency item, such as `research.engineering`.
pub const RESEARCH_PREFIX: &'static str = "research.";

/// The theme the legacy research currency credits.
pub const DEFAULT_RESEARCH_THEME: &'static str = "material";

/// The theme a research-currency item credits, if it is one.
pub open spec fn theme_of(item: Seq<char>) -> Option<Seq<char>> {
    if item == RESEARCH_POINTS_ID@ {
        Some(DEFAULT_RESEARCH_THEME@)
    } else if item.len() >= RESEARCH_PREFIX@.len()
        && item.subrange(0, RESEARCH_PREFIX@.len() as int) == RESEARCH_PREFIX@ {
        Some(item.subrange(RESEARCH_PREFIX@.len() as int, item.len() as int))
    } else {
        None
    }
}

/// If `item` is a research-currency item, the theme it credits: the legacy
/// `research_points` credits the default theme, `research.<theme>` credits `<theme>`.
pub fn research_theme_of(item: &str) -> (r: Option<&str>)
    ensures
        match r {
            Some(t) => theme_of(item@) == Some(t@),
            None => theme_of(item@) is None,
        },
{
    proof {
        reveal_strlit("research_points");
        reveal_strlit("research.");
        reveal_strlit("material");
    }
    if str_eq(item, RESEARCH_POINTS_ID) {
        return Some(DEFAULT_RESEARCH_THEME);
    }
    let n = item.unicode_len();
    let p = RESEARCH_PREFIX.unicode_len();
    if n >= p && str_eq(item.substring_char(0, p), RESEARCH_PREFIX) {
        Some(item.substring_char(p, n))
    } else {
        None
    }
}

/// A balance in `m`, zero when absent.
pub open spec fn balance(m: Map<Seq<char>, u64>, k: Seq<char>) -> u64 {
    if m.contains_key(k) {
        m[k]
    } else {
        0
    }
}

/// Per-theme research currency balances, in whole points.
pub struct ResearchPool {
    pub amounts: StrMap<u64>,
}

impl ResearchPool {
    /// An empty pool.
    pub fn new() -> (p: Self)
        ensures
            p.amounts@ == Map::<Seq<char>, u64>::empty(),
    {
        ResearchPool { amounts: StrMap::new() }
    }

    /// Credits `amount` of the `type_id` currency.
    pub fn add(&mut self, type_id: &str, amount: u64)
        requires
            balance(old(self).amounts@, type_id@) + amount <= u64::MAX,
        ensures
            final(self).amounts@ == old(self).amounts@.insert(type_id@, (balance(old(self).amounts@, type_id@) + amount) as u64),
    {
        let cur = self.get(type_id);
        self.amounts.insert(owned(type_id), cur + amount);
    }

    /// The balance of `type_id` (zero if none).
    pub fn get(&self, type_id: &str) -> (v: u64)
        ensures
            v == balance(self.amounts@, type_id@),
    {
        match self.amounts.get(type_id) {
            Some(v) => *v,
            None => 0,
        }
    }

    /// Deducts `amount` of `type_id`; returns false and deducts nothing if the
    /// balance is insufficient. Either way the currency gets an entry.
    pub fn spend(&mut self, type_id: &str, amount: u64) -> (ok: bool)
        ensures
            ok == (balance(old(self).amounts@, type_id@) >= amount),
            final(self).amounts@ == old(self).amounts@.insert(
                type_id@,
                if ok { (balance(old(self).amounts@, type_id@) - amount) as u64 } else { balance(old(self).amounts@, type_id@) },
            ),
    {
        let bal = self.get(type_id);
        if bal < amount {
            self.amounts.insert(owned(type_id), bal);
            return false;
        }
        self.amounts.insert(owned(type_id), bal - amount);
        true
    }
}

/// Cumulative gross count of every item produced this run.
pub struct ProductionTally {
    pub produced: StrMap<u64>,
}

impl ProductionTally {
    /// An empty tally.
    pub fn new() -> (t: Self)
        ensures
            t.produced@ == Map::<Seq<char>, u64>::empty(),
    {
        ProductionTally { produced: StrMap::new() }
    }

    /// Adds `qty` to the total for `item`.
    pub fn record(&mut self, item: &str, qty: u64)
        requires
            balance(old(self).produced@, item@) + qty <= u64::MAX,
        ensures
            final(self).produced@ == old(self).produced@.insert(item@, (balance(old(self).produced@, item@) + qty) as u64),
    {
        let cur = self.get(item);
        self.produced.insert(owned(item), cur + qty);
    }

    /// The total produced of `item` so far (zero if never produced).
    pub fn get(&self, item: &str) -> (v: u64)
        ensures
            v == balance(self.produced@, item@),
    {
        match self.produced.get(item) {
            Some(v) => *v,
            None => 0,
        }
    }
}

/// The themes with a positive balance.
pub open spec fn positive_themes(m: Map<Seq<char>, u64>) -> Set<Seq<char>> {
    Set::new(|k: Seq<char>| m.contains_key(k) && m[k] > 0)
}

/// `ks` lists the set `s` in ascending order, each member once.
pub open spec fn sorted_listing(ks: Seq<Seq<char>>, s: Set<Seq<char>>) -> bool {
    &&& ks.no_duplicates()
    &&& chars_sorted(ks)
    &&& forall|k: Seq<char>| ks.contains(k) <==> s.contains(k)
}

/// `theme:balance` entries for the themes `ks`, separated by two spaces.
pub open spec fn balances_text(ks: Seq<Seq<char>>, m: Map<Seq<char>, u64>) -> Seq<char>
    decreases ks.len(),
{
    if ks.len() == 0 {
        Seq::empty()
    } else if ks.len() == 1 {
        ks[0] + seq![':'] + decimal(m[ks[0]] as nat)
    } else {
        balances_text(ks.drop_last(), m) + seq![' ', ' '] + ks.last() + seq![':'] + decimal(m[ks.last()] as nat)
    }
}

/// The balance line of a pool whose positive themes are listed by `ks`:
/// `0` when nothing is banked.
pub open spec fn balance_line(ks: Seq<Seq<char>>, m: Map<Seq<char>, u64>) -> Seq<char> {
    if ks.len() == 0 { seq!['0'] } else { balances_text(ks, m) }
}

/// A set has one ascending listing without repeats, so the balance line is
/// determined by the pool.
pub proof fn lemma_sorted_listing_unique(a: Seq<Seq<char>>, b: Seq<Seq<char>>, s: Set<Seq<char>>)
    requires
        sorted_listing(a, s),
        sorted_listing(b, s),
    ensures
        a == b,
    decreases a.len(),
{
    if a.len() == 0 {
        if b.len() > 0 {
            assert(b.contains(b[0]));
        }
        assert(a =~= b);
    } else if b.len() == 0 {
        assert(a.contains(a[0]));
    } else {
        assert(a.contains(a[0]));
        assert(b.contains(b[0]));
        let k = choose|k: int| 0 <= k < b.len() && b[k] == a[0];
        let l = choose|l: int| 0 <= l < a.len() && a[l] == b[0];
        if a[0] != b[0] {
            assert(k > 0 && l > 0);
            assert(!chars_lt(b[k], b[0]));
            assert(!chars_lt(a[l], a[0]));
            crate::ordering::lemma_chars_lt_total(a[0], b[0]);
        }
        let x = a[0];
        let s2 = s.remove(x);
        let a2 = a.drop_first();
        let b2 = b.drop_first();
        assert forall|y: Seq<char>| a2.contains(y) <==> s2.contains(y) by {
            if a2.contains(y) {
                let t = choose|t: int| 0 <= t < a2.len() && a2[t] == y;
                assert(a[t + 1] == y);
                assert(a.contains(y));
                assert(y != x);
            }
            if s2.contains(y) {
                assert(a.contains(y));
                let t = choose|t: int| 0 <= t < a.len() && a[t] == y;
                assert(t != 0);
                assert(a2[t - 1] == y);
            }
        }
        assert forall|y: Seq<char>| b2.contains(y) <==> s2.contains(y) by {
            if b2.contains(y) {
                let t = choose|t: int| 0 <= t < b2.len() && b2[t] == y;
                assert(b[t + 1] == y);
                assert(b.contains(y));
                assert(y != x);
            }
            if s2.contains(y) {
                assert(b.contains(y));
                let t = choose|t: int| 0 <= t < b.len() && b[t] == y;
                assert(t != 0);
                assert(b2[t - 1] == y);
            }
        }
        assert(chars_sorted(a2)) by {
            assert forall|i: int, j: int| 0 <= i < j < a2.len() implies !chars_lt(#[trigger] a2[j], #[trigger] a2[i]) by {
                assert(a2[i] == a[i + 1] && a2[j] == a[j + 1]);
            }
        }
        assert(chars_sorted(b2)) by {
            assert forall|i: int, j: int| 0 <= i < j < b2.len() implies !chars_lt(#[trigger] b2[j], #[trigger] b2[i]) by {
                assert(b2[i] == b[i + 1] && b2[j] == b[j + 1]);
            }
        }
        lemma_sorted_listing_unique(a2, b2, s2);
        assert(a =~= seq![x] + a2);
        assert(b =~= seq![x] + b2);
    }
}

/// Banked research by theme as one line: `theme:balance` for each theme with
/// a positive balance, in ascending theme order, separated by two spaces;
/// `0` when nothing is banked.
pub fn format_research_balances(pool: &ResearchPool) -> (r: String)
    ensures
        exists|ks: Seq<Seq<char>>| sorted_listing(ks, positive_themes(pool.amounts@)) && r@ == balance_line(ks, pool.amounts@),
{
    let m = &pool.amounts;
    let keys = m.keys();
    let ghost ks = m.key_seq();
    let mut pos: Vec<String> = Vec::new();
    let mut i: usize = 0;
    while i < keys.len()
        invariant
            str_views(keys@) == ks,
            ks.no_duplicates(),
            forall|k: Seq<char>| #[trigger] m@.contains_key(k) <==> ks.contains(k),
            i <= keys@.len(),
            str_views(pos@).no_duplicates(),
            forall|k: Seq<char>| str_views(pos@).contains(k) <==> (exists|j: int| 0 <= j < i && ks[j] == k) && m@[k] > 0,
            forall|k: Seq<char>| str_views(pos@).contains(k) ==> m@.contains_key(k),
        decreases keys@.len() - i,
    {
        let k = &keys[i];
        assert(ks[i as int] == k@);
        assert(ks.contains(k@));
        let v = match m.get(k.as_str()) {
            Some(v) => *v,
            None => 0,
        };
        let ghost p0 = str_views(pos@);
        if v > 0 {
            pos.push(k.clone());
            proof {
                assert(str_views(pos@) =~= p0.push(k@));
                assert(!p0.contains(k@)) by {
                    if p0.contains(k@) {
                        let j = choose|j: int| 0 <= j < i && ks[j] == k@;
                        assert(ks[j] == ks[i as int]);
                    }
                }
                assert forall|a: int, b: int| 0 <= a < str_views(pos@).len() && 0 <= b < str_views(pos@).len() && a != b implies str_views(pos@)[a] != str_views(pos@)[b] by {
                    if a < p0.len() && b < p0.len() {
                    } else if a < p0.len() {
                        assert(p0.contains(p0[a]));
                    } else {
                        assert(p0.contains(p0[b]));
                    }
                }
                assert forall|y: Seq<char>| str_views(pos@).contains(y) <==> (exists|j: int| 0 <= j < i + 1 && ks[j] == y) && m@[y] > 0 by {
                    if str_views(pos@).contains(y) {
                        let t = choose|t: int| 0 <= t < str_views(pos@).len() && str_views(pos@)[t] == y;
                        if t < p0.len() {
                            assert(p0.contains(y));
                        }
                    }
                    if (exists|j: int| 0 <= j < i + 1 && ks[j] == y) && m@[y] > 0 {
                        let j = choose|j: int| 0 <= j < i + 1 && ks[j] == y;
                        if j < i {
                            assert(p0.contains(y));
                            let t = choose|t: int| 0 <= t < p0.len() && p0[t] == y;
                            assert(str_views(pos@)[t] == y);
                        } else {
                            assert(str_views(pos@)[p0.len() as int] == y);
                        }
                    }
                }
                assert forall|y: Seq<char>| str_views(pos@).contains(y) implies m@.contains_key(y) by {
                    let t = choose|t: int| 0 <= t < str_views(pos@).len() && str_views(pos@)[t] == y;
                    if t < p0.len() {
                        assert(p0.contains(y));
                    }
                }
            }
        } else {
            proof {
                assert forall|y: Seq<char>| str_views(pos@).contains(y) <==> (exists|j: int| 0 <= j < i + 1 && ks[j] == y) && m@[y] > 0 by {
                    if (exists|j: int| 0 <= j < i + 1 && ks[j] == y) && m@[y] > 0 {
                        let j = choose|j: int| 0 <= j < i + 1 && ks[j] == y;
                        if j == i {
                            assert(m@[k@] == v);
                        }
                    }
                }
            }
        }
        i += 1;
    }
    let ghost pv = str_views(pos@);
    let sorted = sort_strings(pos);
    let ghost sv = str_views(sorted@);
    proof {
        assert(sv =~= sorted@.map_values(|s: String| s@));
        assert(pv =~= pos@.map_values(|s: String| s@));
        pv.lemma_multiset_has_no_duplicates();
        assert forall|x: Seq<char>| sv.to_multiset().contains(x) implies sv.to_multiset().count(x) == 1 by {
            assert(pv.to_multiset().contains(x));
        }
        sv.lemma_multiset_has_no_duplicates_conv();
        assert forall|k: Seq<char>| sv.contains(k) <==> positive_themes(m@).contains(k) by {
            vstd::seq_lib::to_multiset_contains(sv, k);
            vstd::seq_lib::to_multiset_contains(pv, k);
            if positive_themes(m@).contains(k) {
                assert(ks.contains(k));
                let j = choose|j: int| 0 <= j < ks.len() && ks[j] == k;
                assert(pv.contains(k));
            }
        }
        assert(sorted_listing(sv, positive_themes(m@)));
    }
    let mut r = String::new();
    if sorted.len() == 0 {
        r.push('0');
        assert(r@ =~= balance_line(sv, m@));
        return r;
    }
    let mut t: usize = 0;
    while t < sorted.len()
        invariant
            sv == str_views(sorted@),
            forall|k: Seq<char>| sv.contains(k) ==> m@.contains_key(k),
            t <= sorted@.len(),
            r@ == balances_text(sv.subrange(0, t as int), m@),
        decreases sorted@.len() - t,
    {
        let k = &sorted[t];
        assert(sv[t as int] == k@);
        assert(sv.contains(k@));
        let v = match m.get(k.as_str()) {
            Some(v) => *v,
            None => 0,
        };
        assert(v == m@[k@]);
        let ghost r0 = r@;
        if t > 0 {
            r.push(' ');
            r.push(' ');
        }
        crate::text::push_str(&mut r, k.as_str());
        r.push(':');
        push_decimal(&mut r, v);
        proof {
            let sub = sv.subrange(0, t + 1);
            assert(sub.drop_last() =~= sv.subrange(0, t as int));
            assert(sub.last() == k@);
            if t == 0 {
                assert(r@ =~= balances_text(sub, m@));
            } else {
                assert(r@ =~= balances_text(sub, m@));
            }
        }
        t += 1;
    }
    proof {
        assert(sv.subrange(0, sorted@.len() as int) =~= sv);
        assert(sv.len() > 0);
        assert(r@ == balance_line(sv, pool.amounts@));
        assert(sorted_listing(sv, positive_themes(pool.amounts@)));
    }
    r
}

/// The abstract state of tech-tree progress.
pub ghost struct Progress {
    pub unlocked_nodes: Set<Seq<char>>,
    pub unlocked_recipes: Set<Seq<char>>,
    pub unlocked_machines: Set<Seq<char>>,
    pub disabled_nodes: Set<Seq<char>>,
}

/// What has been unlocked and locked out so far.
pub struct TechTreeProgress {
    pub unlocked_nodes: StrSet,
    pub unlocked_recipes: StrSet,
    pub unlocked_machines: StrSet,
    /// Nodes permanently locked out by an exclusive group.
    pub disabled_nodes: StrSet,
}

impl TechTreeProgress {
    pub open spec fn view(&self) -> Progress {
        Progress {
            unlocked_nodes: self.unlocked_nodes@,
            unlocked_recipes: self.unlocked_recipes@,
            unlocked_machines: self.unlocked_machines@,
            disabled_nodes: self.disabled_nodes@,
        }
    }

    /// Nothing unlocked, nothing disabled.
    pub fn new() -> (p: Self)
        ensures
            p@.unlocked_nodes == Set::<Seq<char>>::empty(),
            p@.unlocked_recipes == Set::<Seq<char>>::empty(),
            p@.unlocked_machines == Set::<Seq<char>>::empty(),
            p@.disabled_nodes == Set::<Seq<char>>::empty(),
    {
        TechTreeProgress {
            unlocked_nodes: StrSet::new(),
            unlocked_recipes: StrSet::new(),
            unlocked_machines: StrSet::new(),
            disabled_nodes: StrSet::new(),
        }
    }
}

/// A node was unlocked, by a research purchase or automatically.
pub struct TechNodeUnlocked {
    pub node_id: String,
    pub via_research: bool,
}

/// The (id, via research) pairs of a list of unlock events.
pub open spec fn event_views(v: Seq<TechNodeUnlocked>) -> Seq<(Seq<char>, bool)> {
    v.map_values(|e: TechNodeUnlocked| (e.node_id@, e.via_research))
}

/// The template index of an optional recipe graph.
pub open spec fn templates_of(rg: Option<&RecipeGraph>) -> Option<Map<Seq<char>, Vec<String>>> {
    match rg {
        Some(g) => Some(g.template_recipes@),
        None => None,
    }
}

/// The recipes one effect unlocks.
pub open spec fn effect_recipes(e: NodeEffect, templates: Option<Map<Seq<char>, Vec<String>>>) -> Set<Seq<char>> {
    match e {
        NodeEffect::UnlockRecipes(rs) => str_views(rs@).to_set(),
        NodeEffect::UnlockMachine(_) => Set::empty(),
        NodeEffect::UnlockRecipeTemplate(t) => match templates {
            Some(m) => if m.contains_key(t@) { str_views(m[t@]@).to_set() } else { Set::empty() },
            None => Set::empty(),
        },
    }
}

/// The machines one effect unlocks.
pub open spec fn effect_machines(e: NodeEffect) -> Set<Seq<char>> {
    match e {
        NodeEffect::UnlockMachine(m) => set![m@],
        _ => Set::empty(),
    }
}

/// The recipes a list of effects unlocks.
pub open spec fn effects_recipes(effs: Seq<NodeEffect>, templates: Option<Map<Seq<char>, Vec<String>>>) -> Set<Seq<char>> {
    Set::new(|r: Seq<char>| exists|j: int| 0 <= j < effs.len() && (#[trigger] effect_recipes(effs[j], templates)).contains(r))
}

/// The machines a list of effects unlocks.
pub open spec fn effects_machines(effs: Seq<NodeEffect>) -> Set<Seq<char>> {
    Set::new(|m: Seq<char>| exists|j: int| 0 <= j < effs.len() && (#[trigger] effect_machines(effs[j])).contains(m))
}

/// Whether `peer` shares the exclusive group `g`.
pub open spec fn in_group(peer: NodeDef, g: Seq<char>) -> bool {
    match peer.exclusive_group {
        Some(h) => h@ == g,
        None => false,
    }
}

/// The other nodes of the table in the exclusive group of `node` (none if it has no group).
pub open spec fn group_peers(table: Map<Seq<char>, NodeDef>, id: Seq<char>, node: NodeDef) -> Set<Seq<char>> {
    match node.exclusive_group {
        Some(g) => Set::new(|k: Seq<char>| table.contains_key(k) && k != id && in_group(table[k], g@)),
        None => Set::empty(),
    }
}

/// The progress after the effects of node `id` are applied: recipes and machines
/// granted, exclusive-group peers disabled. An unknown id changes nothing.
pub open spec fn effects_applied(
    table: Map<Seq<char>, NodeDef>,
    templates: Option<Map<Seq<char>, Vec<String>>>,
    p: Progress,
    id: Seq<char>,
) -> Progress {
    if table.contains_key(id) {
        let n = table[id];
        Progress {
            unlocked_nodes: p.unlocked_nodes,
            unlocked_recipes: p.unlocked_recipes.union(effects_recipes(n.effects@, templates)),
            unlocked_machines: p.unlocked_machines.union(effects_machines(n.effects@)),
            disabled_nodes: p.disabled_nodes.union(group_peers(table, id, n)),
        }
    } else {
        p
    }
}

/// The progress after node `id` is unlocked.
pub open spec fn unlock_one(
    table: Map<Seq<char>, NodeDef>,
    templates: Option<Map<Seq<char>, Vec<String>>>,
    p: Progress,
    id: Seq<char>,
) -> Progress {
    effects_applied(
        table,
        templates,
        Progress { unlocked_nodes: p.unlocked_nodes.insert(id), ..p },
        id,
    )
}

/// Applies the effects of node `node_id`: grants its recipes and machines and
/// disables the other members of its exclusive group.
pub fn apply_effects(progress: &mut TechTreeProgress, tree: &TechTree, node_id: &str, recipe_graph: Option<&RecipeGraph>)
    ensures
        final(progress)@ == effects_applied(tree.nodes@, templates_of(recipe_graph), old(progress)@, node_id@),
{
    let ghost templates = templates_of(recipe_graph);
    let node = match tree.nodes.get(node_id) {
        Some(n) => n,
        None => return,
    };
    let ghost p0 = progress@;
    let effs = &node.effects;
    let mut i: usize = 0;
    while i < effs.len()
        invariant
            i <= effs@.len(),
            templates == templates_of(recipe_graph),
            progress@.unlocked_nodes == p0.unlocked_nodes,
            progress@.disabled_nodes == p0.disabled_nodes,
            progress@.unlocked_recipes == p0.unlocked_recipes.union(effects_recipes(effs@.subrange(0, i as int), templates)),
            progress@.unlocked_machines == p0.unlocked_machines.union(effects_machines(effs@.subrange(0, i as int))),
        decreases effs@.len() - i,
    {
        let ghost r0 = progress@.unlocked_recipes;
        let ghost m0 = progress@.unlocked_machines;
        match &effs[i] {
            NodeEffect::UnlockRecipes(rs) => {
                add_all(&mut progress.unlocked_recipes, rs);
            },
            NodeEffect::UnlockMachine(m) => {
                progress.unlocked_machines.insert(m.clone());
            },
            NodeEffect::UnlockRecipeTemplate(t) => {
                match recipe_graph {
                    Some(g) => {
                        match g.template_recipes.get(t.as_str()) {
                            Some(ids) => {
                                add_all(&mut progress.unlocked_recipes, ids);
                            },
                            None => {},
                        }
                    },
                    None => {},
                }
            },
        }
        proof {
            let pre = effs@.subrange(0, i as int);
            let post = effs@.subrange(0, i + 1);
            assert forall|r: Seq<char>| effects_recipes(post, templates).contains(r) <==> (effects_recipes(pre, templates).contains(r) || effect_recipes(effs@[i as int], templates).contains(r)) by {
                if effects_recipes(post, templates).contains(r) {
                    let j = choose|j: int| 0 <= j < post.len() && (#[trigger] effect_recipes(post[j], templates)).contains(r);
                    if j < i {
                        assert(pre[j] == post[j]);
                    }
                }
                if effects_recipes(pre, templates).contains(r) {
                    let j = choose|j: int| 0 <= j < pre.len() && (#[trigger] effect_recipes(pre[j], templates)).contains(r);
                    assert(pre[j] == post[j]);
                }
                if effect_recipes(effs@[i as int], templates).contains(r) {
                    assert(post[i as int] == effs@[i as int]);
                }
            }
            assert forall|m: Seq<char>| effects_machines(post).contains(m) <==> (effects_machines(pre).contains(m) || effect_machines(effs@[i as int]).contains(m)) by {
                if effects_machines(post).contains(m) {
                    let j = choose|j: int| 0 <= j < post.len() && (#[trigger] effect_machines(post[j])).contains(m);
                    if j < i {
                        assert(pre[j] == post[j]);
                    }
                }
                if effects_machines(pre).contains(m) {
                    let j = choose|j: int| 0 <= j < pre.len() && (#[trigger] effect_machines(pre[j])).contains(m);
                    assert(pre[j] == post[j]);
                }
                if effect_machines(effs@[i as int]).contains(m) {
                    assert(post[i as int] == effs@[i as int]);
                }
            }
            assert(progress@.unlocked_recipes =~= p0.unlocked_recipes.union(effects_recipes(post, templates)));
            assert(progress@.unlocked_machines =~= p0.unlocked_machines.union(effects_machines(post)));
        }
        i += 1;
    }
    proof {
        assert(effs@.subrange(0, effs@.len() as int) =~= effs@);
    }
    match &node.exclusive_group {
        Some(group) => {
            let keys = tree.nodes.keys();
            let ghost d0 = progress@.disabled_nodes;
            let ghost peers = group_peers(tree.nodes@, node_id@, *node);
            let mut k: usize = 0;
            while k < keys.len()
                invariant
                    k <= keys@.len(),
                    str_views(keys@) == tree.nodes.key_seq(),
                    forall|x: Seq<char>| #[trigger] tree.nodes@.contains_key(x) <==> tree.nodes.key_seq().contains(x),
                    peers == group_peers(tree.nodes@, node_id@, *node),
                    node.exclusive_group == Some(*group),
                    progress@.unlocked_nodes == p0.unlocked_nodes,
                    progress@.unlocked_recipes == p0.unlocked_recipes.union(effects_recipes(node.effects@, templates)),
                    progress@.unlocked_machines == p0.unlocked_machines.union(effects_machines(node.effects@)),
                    forall|x: Seq<char>| #[trigger] progress@.disabled_nodes.contains(x) <==> (d0.contains(x) || (peers.contains(x) && str_views(keys@).subrange(0, k as int).contains(x))),
                decreases keys@.len() - k,
            {
                let id = &keys[k];
                let ghost before = progress@.disabled_nodes;
                assert(str_views(keys@)[k as int] == id@);
                assert(tree.nodes.key_seq().contains(id@));
                let peer = tree.nodes.get(id.as_str()).unwrap();
                let same = match &peer.exclusive_group {
                    Some(h) => str_eq(h.as_str(), group.as_str()),
                    None => false,
                };
                if !str_eq(id.as_str(), node_id) && same {
                    progress.disabled_nodes.insert(id.clone());
                }
                proof {
                    let pre = str_views(keys@).subrange(0, k as int);
                    let post = str_views(keys@).subrange(0, k + 1);
                    assert forall|x: Seq<char>| post.contains(x) <==> (pre.contains(x) || x == id@) by {
                        if post.contains(x) {
                            let j = choose|j: int| 0 <= j < post.len() && post[j] == x;
                            if j < k {
                                assert(pre[j] == x);
                            }
                        }
                        if pre.contains(x) {
                            let j = choose|j: int| 0 <= j < pre.len() && pre[j] == x;
                            assert(post[j] == x);
                        }
                        if x == id@ {
                            assert(post[k as int] == x);
                        }
                    }
                    assert forall|x: Seq<char>| #[trigger] progress@.disabled_nodes.contains(x) <==> (d0.contains(x) || (peers.contains(x) && post.contains(x))) by {
                        if x == id@ {
                            assert(tree.nodes@.contains_key(x));
                        }
                    }
                }
                k += 1;
            }
            proof {
                assert(str_views(keys@).subrange(0, keys@.len() as int) =~= str_views(keys@));
                assert forall|x: Seq<char>| peers.contains(x) implies str_views(keys@).contains(x) by {
                    assert(tree.nodes@.contains_key(x));
                    assert(tree.nodes.key_seq().contains(x));
                }
                assert(d0 == p0.disabled_nodes);
                assert forall|x: Seq<char>| #[trigger] progress@.disabled_nodes.contains(x) <==> (d0.contains(x) || peers.contains(x)) by {
                    assert(str_views(keys@).subrange(0, k as int) == str_views(keys@));
                    if peers.contains(x) {
                        assert(str_views(keys@).contains(x));
                        assert(str_views(keys@).subrange(0, k as int).contains(x));
                    }
                }

                assert(progress@.disabled_nodes =~= p0.disabled_nodes.union(group_peers(tree.nodes@, node_id@, *node)));
            }
        },
        None => {
            proof {
                assert(group_peers(tree.nodes@, node_id@, *node) =~= Set::<Seq<char>>::empty());
                assert(progress@.disabled_nodes =~= p0.disabled_nodes.union(group_peers(tree.nodes@, node_id@, *node)));
            }
        },
    }
}

/// Adds every string of `items` to `set`.
fn add_all(set: &mut StrSet, items: &Vec<String>)
    ensures
        final(set)@ == old(set)@.union(str_views(items@).to_set()),
{
    let ghost s0 = set@;
    let mut i: usize = 0;
    while i < items.len()
        invariant
            i <= items@.len(),
            set@ == s0.union(str_views(items@).subrange(0, i as int).to_set()),
        decreases items@.len() - i,
    {
        set.insert(items[i].clone());
        proof {
            let pre = str_views(items@).subrange(0, i as int);
            let post = str_views(items@).subrange(0, i + 1);
            assert(post =~= pre.push(items@[i as int]@));
            assert forall|x: Seq<char>| post.contains(x) <==> (pre.contains(x) || x == items@[i as int]@) by {
                if post.contains(x) {
                    let j = choose|j: int| 0 <= j < post.len() && post[j] == x;
                    if j < i {
                        assert(pre[j] == x);
                    }
                }
                if pre.contains(x) {
                    let j = choose|j: int| 0 <= j < pre.len() && pre[j] == x;
                    assert(post[j] == x);
                }
                if x == items@[i as int]@ {
                    assert(post[i as int] == x);
                }
            }
            assert(post.to_set() =~= pre.to_set().insert(items@[i as int]@));
            assert(set@ =~= s0.union(post.to_set()));
        }
        i += 1;
    }
    proof {
        assert(str_views(items@).subrange(0, items@.len() as int) =~= str_views(items@));
    }
}

/// Unlocks node `node_id`: records it, applies its effects and reports the unlock.
pub fn do_unlock(
    progress: &mut TechTreeProgress,
    tree: &TechTree,
    node_id: &String,
    via_research: bool,
    events: &mut Vec<TechNodeUnlocked>,
    recipe_graph: Option<&RecipeGraph>,
)
    ensures
        final(progress)@ == unlock_one(tree.nodes@, templates_of(recipe_graph), old(progress)@, node_id@),
        event_views(final(events)@) == event_views(old(events)@).push((node_id@, via_research)),
{
    progress.unlocked_nodes.insert(node_id.clone());
    apply_effects(progress, tree, node_id.as_str(), recipe_graph);
    let ghost e0 = events@;
    events.push(TechNodeUnlocked { node_id: node_id.clone(), via_research });
    assert(event_views(events@) =~= event_views(e0).push((node_id@, via_research)));
}


/// Every prerequisite of `node` is unlocked.
pub open spec fn prereqs_met(node: NodeDef, p: Progress) -> bool {
    forall|i: int| 0 <= i < node.prerequisites@.len() ==> p.unlocked_nodes.contains(#[trigger] node.prerequisites@[i]@)
}

/// Node `id` is neither unlocked nor disabled.
pub open spec fn still_locked(p: Progress, id: Seq<char>) -> bool {
    !p.unlocked_nodes.contains(id) && !p.disabled_nodes.contains(id)
}

/// Exclusive groups are respected: no node is both unlocked and disabled, and
/// every other member of an unlocked node's exclusive group is disabled.
pub open spec fn exclusive_ok(table: Map<Seq<char>, NodeDef>, p: Progress) -> bool {
    &&& p.unlocked_nodes.disjoint(p.disabled_nodes)
    &&& forall|u: Seq<char>| #[trigger] p.unlocked_nodes.contains(u) && table.contains_key(u)
        ==> group_peers(table, u, table[u]).subset_of(p.disabled_nodes)
}

/// The research state the unlock rules act on, with the unlocks reported so far.
pub ghost struct ResearchState {
    pub pool: Map<Seq<char>, u64>,
    pub progress: Progress,
    pub events: Seq<(Seq<char>, bool)>,
}

/// One player request to unlock node `id`: honoured when the node exists, is
/// still locked, has its prerequisites, is bought with research, and its
/// currency balance covers the cost.
pub open spec fn request_step(
    table: Map<Seq<char>, NodeDef>,
    templates: Option<Map<Seq<char>, Vec<String>>>,
    s: ResearchState,
    id: Seq<char>,
) -> ResearchState {
    if still_locked(s.progress, id) && table.contains_key(id) && prereqs_met(table[id], s.progress) {
        match table[id].primary_unlock {
            UnlockVector::ResearchSpend { type_id, amount } => {
                if balance(s.pool, type_id@) >= amount {
                    ResearchState {
                        pool: s.pool.insert(type_id@, (balance(s.pool, type_id@) - amount) as u64),
                        progress: unlock_one(table, templates, s.progress, id),
                        events: s.events.push((id, true)),
                    }
                } else {
                    s
                }
            },
            _ => s,
        }
    } else {
        s
    }
}

/// The requests handled in order.
pub open spec fn process_requests(
    table: Map<Seq<char>, NodeDef>,
    templates: Option<Map<Seq<char>, Vec<String>>>,
    s: ResearchState,
    reqs: Seq<Seq<char>>,
) -> ResearchState
    decreases reqs.len(),
{
    if reqs.len() == 0 {
        s
    } else {
        request_step(table, templates, process_requests(table, templates, s, reqs.drop_last()), reqs.last())
    }
}

/// The nodes of `order` that the automatic rule `rule` unlocks from progress `p`:
/// still locked, prerequisites met, and the rule holds of the node's unlock vector.
pub open spec fn auto_candidates(
    table: Map<Seq<char>, NodeDef>,
    p: Progress,
    order: Seq<Seq<char>>,
    rule: spec_fn(UnlockVector) -> bool,
) -> Seq<Seq<char>>
    decreases order.len(),
{
    if order.len() == 0 {
        Seq::empty()
    } else {
        let id = order.last();
        auto_candidates(table, p, order.drop_last(), rule) + if table.contains_key(id) && still_locked(p, id)
            && rule(table[id].primary_unlock) && prereqs_met(table[id], p) {
            seq![id]
        } else {
            Seq::empty()
        }
    }
}

/// One automatic batch over `ids`, in order: each id still locked when its turn
/// comes is unlocked; one that an earlier unlock of the batch has meanwhile
/// disabled through its exclusive group is skipped. Returns the progress and
/// the ids unlocked.
pub open spec fn unlock_all(
    table: Map<Seq<char>, NodeDef>,
    templates: Option<Map<Seq<char>, Vec<String>>>,
    p: Progress,
    ids: Seq<Seq<char>>,
) -> (Progress, Seq<Seq<char>>)
    decreases ids.len(),
{
    if ids.len() == 0 {
        (p, Seq::empty())
    } else {
        let (q, done) = unlock_all(table, templates, p, ids.drop_last());
        let id = ids.last();
        if still_locked(q, id) {
            (unlock_one(table, templates, q, id), done.push(id))
        } else {
            (q, done)
        }
    }
}

/// One batch of automatic unlocks: the candidates are chosen from the state at
/// the start of the batch, then unlocked in order while still locked.
pub open spec fn auto_phase(
    table: Map<Seq<char>, NodeDef>,
    templates: Option<Map<Seq<char>, Vec<String>>>,
    s: ResearchState,
    order: Seq<Seq<char>>,
    rule: spec_fn(UnlockVector) -> bool,
) -> ResearchState {
    let c = auto_candidates(table, s.progress, order, rule);
    let (q, done) = unlock_all(table, templates, s.progress, c);
    ResearchState {
        pool: s.pool,
        progress: q,
        events: s.events + done.map_values(|id: Seq<char>| (id, false)),
    }
}

/// Discovery rule: the node is unlocked by one of the discovered keys.
pub open spec fn discovery_rule(keys: Set<Seq<char>>) -> spec_fn(UnlockVector) -> bool {
    |u: UnlockVector| match u {
        UnlockVector::ExplorationDiscovery(k) => keys.contains(k@),
        _ => false,
    }
}

/// Milestone rule: enough of the node's material has been produced.
pub open spec fn milestone_rule(tally: Map<Seq<char>, u64>) -> spec_fn(UnlockVector) -> bool {
    |u: UnlockVector| match u {
        UnlockVector::ProductionMilestone { material, quantity } => balance(tally, material@) >= quantity,
        _ => false,
    }
}

/// Chain rule: the node unlocks once its prerequisites are met.
pub open spec fn chain_rule() -> spec_fn(UnlockVector) -> bool {
    |u: UnlockVector| u is PrerequisiteChain
}

/// How many ids of `order` are not in `u`.
pub open spec fn locked_count(order: Seq<Seq<char>>, u: Set<Seq<char>>) -> nat
    decreases order.len(),
{
    if order.len() == 0 {
        0
    } else {
        locked_count(order.drop_last(), u) + if u.contains(order.last()) { 0nat } else { 1nat }
    }
}

pub proof fn lemma_locked_count_mono(order: Seq<Seq<char>>, u: Set<Seq<char>>, v: Set<Seq<char>>)
    requires
        u.subset_of(v),
    ensures
        locked_count(order, v) <= locked_count(order, u),
        (exists|i: int| 0 <= i < order.len() && !u.contains(#[trigger] order[i]) && v.contains(order[i]))
            ==> locked_count(order, v) < locked_count(order, u),
    decreases order.len(),
{
    if order.len() > 0 {
        let init = order.drop_last();
        lemma_locked_count_mono(init, u, v);
        if exists|i: int| 0 <= i < order.len() && !u.contains(#[trigger] order[i]) && v.contains(order[i]) {
            let i = choose|i: int| 0 <= i < order.len() && !u.contains(#[trigger] order[i]) && v.contains(order[i]);
            if i < order.len() - 1 {
                assert(init[i] == order[i]);
                assert(exists|j: int| 0 <= j < init.len() && !u.contains(#[trigger] init[j]) && v.contains(init[j]));
            }
        }
    }
}

/// A batch keeps every unlocked node, and unlocks its first id when that id
/// is still locked at the start.
pub proof fn lemma_unlock_all_grows(
    table: Map<Seq<char>, NodeDef>,
    templates: Option<Map<Seq<char>, Vec<String>>>,
    p: Progress,
    ids: Seq<Seq<char>>,
)
    ensures
        p.unlocked_nodes.subset_of(unlock_all(table, templates, p, ids).0.unlocked_nodes),
        ids.len() > 0 && still_locked(p, ids[0]) ==> unlock_all(table, templates, p, ids).0.unlocked_nodes.contains(ids[0]),
    decreases ids.len(),
{
    if ids.len() > 0 {
        let init = ids.drop_last();
        lemma_unlock_all_grows(table, templates, p, init);
        if ids.len() > 1 {
            assert(init[0] == ids[0]);
        } else {
            assert(init.len() == 0);
        }
    }
}

pub proof fn lemma_candidates_locked(
    table: Map<Seq<char>, NodeDef>,
    p: Progress,
    order: Seq<Seq<char>>,
    rule: spec_fn(UnlockVector) -> bool,
    i: int,
)
    requires
        0 <= i < auto_candidates(table, p, order, rule).len(),
    ensures
        order.contains(auto_candidates(table, p, order, rule)[i]),
        !p.unlocked_nodes.contains(auto_candidates(table, p, order, rule)[i]),
        !p.disabled_nodes.contains(auto_candidates(table, p, order, rule)[i]),
    decreases order.len(),
{
    let c = auto_candidates(table, p, order, rule);
    let init = order.drop_last();
    let ci = auto_candidates(table, p, init, rule);
    if i < ci.len() {
        lemma_candidates_locked(table, p, init, rule, i);
        let j = choose|j: int| 0 <= j < init.len() && init[j] == ci[i];
        assert(order[j] == ci[i]);
        assert(c[i] == ci[i]);
    } else {
        assert(c[i] == order.last());
        assert(order[order.len() - 1] == order.last());
    }
}

/// The chain rule applied batch after batch until no node qualifies.
pub open spec fn chain_closure(
    table: Map<Seq<char>, NodeDef>,
    templates: Option<Map<Seq<char>, Vec<String>>>,
    s: ResearchState,
    order: Seq<Seq<char>>,
) -> ResearchState
    decreases locked_count(order, s.progress.unlocked_nodes),
{
    let c = auto_candidates(table, s.progress, order, chain_rule());
    if c.len() == 0 {
        s
    } else {
        proof {
            lemma_candidates_locked(table, s.progress, order, chain_rule(), 0);
            lemma_unlock_all_grows(table, templates, s.progress, c);
            let x = c[0];
            let j = choose|j: int| 0 <= j < order.len() && order[j] == x;
            lemma_locked_count_mono(order, s.progress.unlocked_nodes, auto_phase(table, templates, s, order, chain_rule()).progress.unlocked_nodes);
        }
        chain_closure(table, templates, auto_phase(table, templates, s, order, chain_rule()), order)
    }
}

/// The outcome of one frame of the unlock rules: player requests in order, then
/// discoveries, then production milestones (when a tally exists), then
/// prerequisite chains until stable. Without a tech tree nothing happens.
pub open spec fn research_outcome(
    tree: Option<&TechTree>,
    templates: Option<Map<Seq<char>, Vec<String>>>,
    pool: Map<Seq<char>, u64>,
    progress: Progress,
    tally: Option<Map<Seq<char>, u64>>,
    requests: Seq<Seq<char>>,
    discoveries: Seq<Seq<char>>,
) -> ResearchState {
    let s0 = ResearchState { pool, progress, events: Seq::empty() };
    match tree {
        None => s0,
        Some(t) => {
            let table = t.nodes@;
            let order = t.nodes.key_seq();
            let s1 = process_requests(table, templates, s0, requests);
            let s2 = auto_phase(table, templates, s1, order, discovery_rule(discoveries.to_set()));
            let s3 = match tally {
                Some(m) => auto_phase(table, templates, s2, order, milestone_rule(m)),
                None => s2,
            };
            chain_closure(table, templates, s3, order)
        },
    }
}

/// Whether every prerequisite of `node` is unlocked.
fn prerequisites_unlocked(node: &NodeDef, progress: &TechTreeProgress) -> (b: bool)
    ensures
        b == prereqs_met(*node, progress@),
{
    let mut i: usize = 0;
    while i < node.prerequisites.len()
        invariant
            i <= node.prerequisites@.len(),
            forall|j: int| 0 <= j < i ==> progress@.unlocked_nodes.contains(#[trigger] node.prerequisites@[j]@),
        decreases node.prerequisites@.len() - i,
    {
        if !progress.unlocked_nodes.contains(node.prerequisites[i].as_str()) {
            return false;
        }
        i += 1;
    }
    true
}

/// An automatic unlock rule, with the inputs it reads.
enum AutoRule<'a> {
    Discovery(&'a Vec<String>),
    Milestone(&'a ProductionTally),
    Chain,
}

spec fn rule_spec(r: AutoRule) -> spec_fn(UnlockVector) -> bool {
    match r {
        AutoRule::Discovery(keys) => discovery_rule(str_views(keys@).to_set()),
        AutoRule::Milestone(t) => milestone_rule(t.produced@),
        AutoRule::Chain => chain_rule(),
    }
}

fn rule_holds(r: &AutoRule, u: &UnlockVector) -> (b: bool)
    ensures
        b == (rule_spec(*r))(*u),
{
    match r {
        AutoRule::Discovery(keys) => match u {
            UnlockVector::ExplorationDiscovery(k) => contains_str(keys, k.as_str()),
            _ => false,
        },
        AutoRule::Milestone(t) => match u {
            UnlockVector::ProductionMilestone { material, quantity } => t.get(material.as_str()) >= *quantity,
            _ => false,
        },
        AutoRule::Chain => match u {
            UnlockVector::PrerequisiteChain => true,
            _ => false,
        },
    }
}

/// The ids the rule unlocks from the current progress, in table order.
fn candidates(tree: &TechTree, progress: &TechTreeProgress, rule: &AutoRule) -> (c: Vec<String>)
    ensures
        str_views(c@) == auto_candidates(tree.nodes@, progress@, tree.nodes.key_seq(), rule_spec(*rule)),
{
    let keys = tree.nodes.keys();
    let ghost order = tree.nodes.key_seq();
    let mut c: Vec<String> = Vec::new();
    let mut i: usize = 0;
    while i < keys.len()
        invariant
            i <= keys@.len(),
            str_views(keys@) == order,
            order == tree.nodes.key_seq(),
            forall|x: Seq<char>| #[trigger] tree.nodes@.contains_key(x) <==> order.contains(x),
            str_views(c@) == auto_candidates(tree.nodes@, progress@, order.subrange(0, i as int), rule_spec(*rule)),
        decreases keys@.len() - i,
    {
        let id = &keys[i];
        proof {
            assert(order[i as int] == id@);
            assert(order.contains(id@));
            assert(order.subrange(0, i + 1).drop_last() =~= order.subrange(0, i as int));
        }
        let node = tree.nodes.get(id.as_str()).unwrap();
        let ok = !progress.unlocked_nodes.contains(id.as_str())
            && !progress.disabled_nodes.contains(id.as_str())
            && rule_holds(rule, &node.primary_unlock)
            && prerequisites_unlocked(node, progress);
        let ghost c0 = c@;
        if ok {
            c.push(id.clone());
        }
        proof {
            if ok {
                assert(str_views(c@) =~= str_views(c0) + seq![id@]);
            } else {
                assert(str_views(c@) =~= str_views(c0) + Seq::<Seq<char>>::empty());
            }
        }
        i += 1;
    }
    proof {
        assert(order.subrange(0, keys@.len() as int) =~= order);
    }
    c
}

/// Unlocks, in order, each id of `ids` that is still locked when its turn
/// comes; an id disabled by an earlier unlock of the batch is skipped.
fn unlock_batch(
    progress: &mut TechTreeProgress,
    tree: &TechTree,
    ids: &Vec<String>,
    events: &mut Vec<TechNodeUnlocked>,
    recipe_graph: Option<&RecipeGraph>,
)
    ensures
        final(progress)@ == unlock_all(tree.nodes@, templates_of(recipe_graph), old(progress)@, str_views(ids@)).0,
        event_views(final(events)@) == event_views(old(events)@)
            + unlock_all(tree.nodes@, templates_of(recipe_graph), old(progress)@, str_views(ids@)).1.map_values(|id: Seq<char>| (id, false)),
{
    let ghost p0 = progress@;
    let ghost e0 = event_views(events@);
    let ghost table = tree.nodes@;
    let ghost templates = templates_of(recipe_graph);
    let mut i: usize = 0;
    while i < ids.len()
        invariant
            i <= ids@.len(),
            table == tree.nodes@,
            templates == templates_of(recipe_graph),
            progress@ == unlock_all(table, templates, p0, str_views(ids@).subrange(0, i as int)).0,
            event_views(events@) == e0 + unlock_all(table, templates, p0, str_views(ids@).subrange(0, i as int)).1.map_values(|id: Seq<char>| (id, false)),
        decreases ids@.len() - i,
    {
        let ghost pre = str_views(ids@).subrange(0, i as int);
        let ghost post = str_views(ids@).subrange(0, i + 1);
        let ghost done = unlock_all(table, templates, p0, pre).1;
        proof {
            assert(post.drop_last() =~= pre);
            assert(post.last() == ids@[i as int]@);
        }
        let id = &ids[i];
        if !progress.unlocked_nodes.contains(id.as_str()) && !progress.disabled_nodes.contains(id.as_str()) {
            do_unlock(progress, tree, id, false, events, recipe_graph);
            proof {
                assert(done.push(id@).map_values(|x: Seq<char>| (x, false)) =~= done.map_values(|x: Seq<char>| (x, false)).push((id@, false)));
                assert(event_views(events@) =~= e0 + done.push(id@).map_values(|x: Seq<char>| (x, false)));
            }
        }
        i += 1;
    }
    proof {
        assert(str_views(ids@).subrange(0, ids@.len() as int) =~= str_views(ids@));
    }
}

fn auto_unlock(
    progress: &mut TechTreeProgress,
    tree: &TechTree,
    rule: &AutoRule,
    events: &mut Vec<TechNodeUnlocked>,
    recipe_graph: Option<&RecipeGraph>,
) -> (n: usize)
    ensures
        ({
            let s = auto_phase(
                tree.nodes@,
                templates_of(recipe_graph),
                ResearchState { pool: Map::empty(), progress: old(progress)@, events: event_views(old(events)@) },
                tree.nodes.key_seq(),
                rule_spec(*rule),
            );
            final(progress)@ == s.progress && event_views(final(events)@) == s.events
        }),
        n == auto_candidates(tree.nodes@, old(progress)@, tree.nodes.key_seq(), rule_spec(*rule)).len(),
{
    let c = candidates(tree, progress, rule);
    unlock_batch(progress, tree, &c, events, recipe_graph);
    c.len()
}

/// One frame of the unlock rules. Player requests are honoured in order (paid
/// from the node's currency); then nodes unlocked by the frame's discoveries;
/// then, when a tally exists, nodes whose production milestone is reached; then
/// prerequisite chains, batch after batch until none qualifies. Returns the
/// unlocks in the order they happened.
pub fn check_research_unlocks(
    tech_tree: Option<&TechTree>,
    recipe_graph: Option<&RecipeGraph>,
    pool: &mut ResearchPool,
    progress: &mut TechTreeProgress,
    tally: Option<&ProductionTally>,
    requests: &Vec<String>,
    discoveries: &Vec<String>,
) -> (unlocked: Vec<TechNodeUnlocked>)
    ensures
        ({
            let out = research_outcome(
                tech_tree,
                templates_of(recipe_graph),
                old(pool).amounts@,
                old(progress)@,
                match tally { Some(t) => Some(t.produced@), None => None },
                str_views(requests@),
                str_views(discoveries@),
            );
            &&& final(pool).amounts@ == out.pool
            &&& final(progress)@ == out.progress
            &&& event_views(unlocked@) == out.events
        }),
        old(progress)@.unlocked_nodes.subset_of(final(progress)@.unlocked_nodes),
        old(progress)@.disabled_nodes.subset_of(final(progress)@.disabled_nodes),
        forall|id: Seq<char>| #[trigger] final(progress)@.unlocked_nodes.contains(id) && old(progress)@.disabled_nodes.contains(id)
            ==> old(progress)@.unlocked_nodes.contains(id),
        match tech_tree {
            Some(t) => exclusive_ok(t.nodes@, old(progress)@) ==> exclusive_ok(t.nodes@, final(progress)@),
            None => true,
        },
{
    let ghost p0 = progress@;
    let ghost pool0 = pool.amounts@;
    let ghost tally_view = match tally { Some(t) => Some(t.produced@), None => None };
    let mut events: Vec<TechNodeUnlocked> = Vec::new();
    let tree = match tech_tree {
        Some(t) => t,
        None => {
            assert(event_views(events@) =~= Seq::<(Seq<char>, bool)>::empty());
            return events;
        },
    };
    let ghost table = tree.nodes@;
    let ghost order = tree.nodes.key_seq();
    let ghost templates = templates_of(recipe_graph);
    let ghost s0 = ResearchState { pool: pool.amounts@, progress: progress@, events: Seq::empty() };
    proof {
        assert(event_views(events@) =~= Seq::<(Seq<char>, bool)>::empty());
    }
    let mut i: usize = 0;
    while i < requests.len()
        invariant
            i <= requests@.len(),
            table == tree.nodes@,
            templates == templates_of(recipe_graph),
            process_requests(table, templates, s0, str_views(requests@).subrange(0, i as int))
                == (ResearchState { pool: pool.amounts@, progress: progress@, events: event_views(events@) }),
        decreases requests@.len() - i,
    {
        let node_id = &requests[i];
        let ghost s = ResearchState { pool: pool.amounts@, progress: progress@, events: event_views(events@) };
        proof {
            let pre = str_views(requests@).subrange(0, i as int);
            let post = str_views(requests@).subrange(0, i + 1);
            assert(post.drop_last() =~= pre);
            assert(post.last() == node_id@);
        }
        if !progress.unlocked_nodes.contains(node_id.as_str()) && !progress.disabled_nodes.contains(node_id.as_str()) {
            match tree.nodes.get(node_id.as_str()) {
                Some(node) => {
                    if prerequisites_unlocked(node, progress) {
                        match &node.primary_unlock {
                            UnlockVector::ResearchSpend { type_id, amount } => {
                                if pool.get(type_id.as_str()) >= *amount as u64 {
                                    pool.spend(type_id.as_str(), *amount as u64);
                                    do_unlock(progress, tree, node_id, true, &mut events, recipe_graph);
                                }
                            },
                            _ => {},
                        }
                    }
                },
                None => {},
            }
        }
        i += 1;
    }
    proof {
        assert(str_views(requests@).subrange(0, requests@.len() as int) =~= str_views(requests@));
    }
    let ghost s1 = ResearchState { pool: pool.amounts@, progress: progress@, events: event_views(events@) };
    auto_unlock(progress, tree, &AutoRule::Discovery(discoveries), &mut events, recipe_graph);
    match tally {
        Some(t) => {
            auto_unlock(progress, tree, &AutoRule::Milestone(t), &mut events, recipe_graph);
        },
        None => {},
    }
    let ghost s3 = ResearchState { pool: pool.amounts@, progress: progress@, events: event_views(events@) };
    loop
        invariant
            table == tree.nodes@,
            order == tree.nodes.key_seq(),
            templates == templates_of(recipe_graph),
            chain_closure(table, templates, ResearchState { pool: pool.amounts@, progress: progress@, events: event_views(events@) }, order)
                == chain_closure(table, templates, s3, order),
        ensures
            (ResearchState { pool: pool.amounts@, progress: progress@, events: event_views(events@) })
                == chain_closure(table, templates, s3, order),
        decreases locked_count(order, progress@.unlocked_nodes),
    {
        let ghost s = ResearchState { pool: pool.amounts@, progress: progress@, events: event_views(events@) };
        let n = auto_unlock(progress, tree, &AutoRule::Chain, &mut events, recipe_graph);
        if n == 0 {
            proof {
                assert(auto_candidates(table, s.progress, order, chain_rule()) =~= Seq::<Seq<char>>::empty());
                assert(s.progress == progress@);
            }
            break;
        }
        proof {
            let c = auto_candidates(table, s.progress, order, chain_rule());
            lemma_candidates_locked(table, s.progress, order, chain_rule(), 0);
            lemma_unlock_all_grows(table, templates, s.progress, c);
            lemma_locked_count_mono(order, s.progress.unlocked_nodes, progress@.unlocked_nodes);
        }
    }
    proof {
        lemma_research_frame(tech_tree, templates, pool0, p0, tally_view, str_views(requests@), str_views(discoveries@));
    }
    events
}

} // verus!
