//! Tech-tree definitions and the derived indexes: the node table keyed by id,
//! each node's dependents, and the tier-ascending node order.

use vstd::prelude::*;
use crate::strmap::{StrMap, str_views};

verus! {

/// The area of play a node belongs to.
#[derive(Clone, Copy, Debug, PartialEq, Eq, Structural)]
pub enum NodeCategory {
    Power,
    Processing,
    Logistics,
    Science,
    Exploration,
    Escape,
}

/// How rare a node is, from most to least common.
#[derive(Clone, Copy, Debug, PartialEq, Eq, Structural)]
pub enum NodeRarity {
    Common,
    Uncommon,
    Rare,
    Unique,
}

/// What unlocks a node.
#[derive(Debug)]
pub enum UnlockVector {
    /// Paid from the `type_id` research currency on a player's request.
    ResearchSpend { type_id: String, amount: u32 },
    /// Unlocks by itself once every prerequisite is unlocked.
    PrerequisiteChain,
    /// Unlocks once the run has produced `quantity` whole units of `material`.
    ProductionMilestone { material: String, quantity: u64 },
    /// Unlocks when the discovery with this key fires.
    ExplorationDiscovery(String),
    /// Unlocked by observation; no automatic rule.
    Observation(String),
}

/// What unlocking a node grants.
#[derive(Debug)]
pub enum NodeEffect {
    UnlockRecipes(Vec<String>),
    UnlockMachine(String),
    /// Every recipe expanded from the named recipe template.
    UnlockRecipeTemplate(String),
}

/// One tech-tree node as defined in content.
#[derive(Debug)]
pub struct NodeDef {
    pub id: String,
    pub name: String,
    pub category: NodeCategory,
    pub tier: u8,
    pub rarity: NodeRarity,
    pub prerequisites: Vec<String>,
    pub primary_unlock: UnlockVector,
    pub effects: Vec<NodeEffect>,
    /// Unlocking one node of an exclusive group locks out the others for good.
    pub exclusive_group: Option<String>,
}

/// The tech tree with its derived indexes.
pub struct TechTree {
    /// Node id to node; a later definition of the same id replaces an earlier one.
    pub nodes: StrMap<NodeDef>,
    /// Node id to the ids of the nodes that list it as a prerequisite.
    pub dependents: StrMap<Vec<String>>,
    /// Every defined id, ordered by tier, ties kept in definition order.
    pub tier_order: Vec<String>,
}

/// The node table built from definitions in order: a later id replaces an earlier one.
pub open spec fn node_table(nodes: Seq<NodeDef>) -> Map<Seq<char>, NodeDef>
    decreases nodes.len(),
{
    if nodes.len() == 0 {
        Map::empty()
    } else {
        node_table(nodes.drop_last()).insert(nodes.last().id@, nodes.last())
    }
}

/// How often `p` occurs in `ids`.
pub open spec fn occurrences(ids: Seq<Seq<char>>, p: Seq<char>) -> nat
    decreases ids.len(),
{
    if ids.len() == 0 {
        0
    } else {
        occurrences(ids.drop_last(), p) + if ids.last() == p { 1nat } else { 0nat }
    }
}

/// The dependents of `p`: each node's id once per occurrence of `p` among its
/// prerequisites, in definition order.
pub open spec fn dependents_of(nodes: Seq<NodeDef>, p: Seq<char>) -> Seq<Seq<char>>
    decreases nodes.len(),
{
    if nodes.len() == 0 {
        Seq::empty()
    } else {
        dependents_of(nodes.drop_last(), p) + Seq::new(
            occurrences(str_views(nodes.last().prerequisites@), p),
            |i: int| nodes.last().id@,
        )
    }
}

/// Whether some node lists `p` as a prerequisite.
pub open spec fn is_prerequisite(nodes: Seq<NodeDef>, p: Seq<char>) -> bool {
    exists|i: int| 0 <= i < nodes.len() && str_views((#[trigger] nodes[i]).prerequisites@).contains(p)
}

/// The tier by which an id is ordered: that of its last definition.
pub open spec fn tier_of(nodes: Seq<NodeDef>, id: Seq<char>) -> u8 {
    node_table(nodes)[id].tier
}

/// The ids of the nodes whose (last-defined) tier is `t`, in definition order.
pub open spec fn ids_at_tier(nodes: Seq<NodeDef>, all: Seq<NodeDef>, t: u8) -> Seq<Seq<char>>
    decreases nodes.len(),
{
    if nodes.len() == 0 {
        Seq::empty()
    } else {
        ids_at_tier(nodes.drop_last(), all, t) + if tier_of(all, nodes.last().id@) == t {
            seq![nodes.last().id@]
        } else {
            Seq::empty()
        }
    }
}

/// All ids grouped by ascending tier below `bound`, ties in definition order.
pub open spec fn ids_by_tier(nodes: Seq<NodeDef>, bound: nat) -> Seq<Seq<char>>
    decreases bound,
{
    if bound == 0 {
        Seq::empty()
    } else {
        ids_by_tier(nodes, (bound - 1) as nat) + ids_at_tier(nodes, nodes, (bound - 1) as u8)
    }
}

proof fn lemma_node_table_has(nodes: Seq<NodeDef>, i: int)
    requires
        0 <= i < nodes.len(),
    ensures
        node_table(nodes).contains_key(nodes[i].id@),
    decreases nodes.len(),
{
    if i < nodes.len() - 1 {
        lemma_node_table_has(nodes.drop_last(), i);
    }
}

impl TechTree {
    /// Builds the tree from node definitions.
    pub fn from_nodes(nodes: Vec<NodeDef>) -> (tree: TechTree)
        requires
            nodes@.len() < usize::MAX,
        ensures
            tree.nodes@ == node_table(nodes@),
            forall|p: Seq<char>| #[trigger] tree.dependents@.contains_key(p) <==> is_prerequisite(nodes@, p),
            forall|p: Seq<char>| #[trigger] tree.dependents@.contains_key(p) ==> str_views(tree.dependents@[p]@) == dependents_of(nodes@, p),
            str_views(tree.tier_order@) == ids_by_tier(nodes@, 256),
    {
        let mut dependents: StrMap<Vec<String>> = StrMap::new();
        let mut tiers: StrMap<u8> = StrMap::new();
        let n = nodes.len();
        let mut i: usize = 0;
        while i < n
            invariant
                n == nodes@.len(),
                i <= n,
                forall|p: Seq<char>| #[trigger] dependents@.contains_key(p) <==> is_prerequisite(nodes@.subrange(0, i as int), p),
                forall|p: Seq<char>| #[trigger] dependents@.contains_key(p) ==> str_views(dependents@[p]@) == dependents_of(nodes@.subrange(0, i as int), p),
                forall|k: Seq<char>| #[trigger] tiers@.contains_key(k) <==> node_table(nodes@.subrange(0, i as int)).contains_key(k),
                forall|k: Seq<char>| #[trigger] tiers@.contains_key(k) ==> tiers@[k] == node_table(nodes@.subrange(0, i as int))[k].tier,
            decreases n - i,
        {
            let node = &nodes[i];
            let ghost pre = nodes@.subrange(0, i as int);
            let ghost post = nodes@.subrange(0, i + 1);
            assert(post.drop_last() =~= pre);
            assert(post.last() == *node);
            let m = node.prerequisites.len();
            let mut j: usize = 0;
            while j < m
                invariant
                    n == nodes@.len(),
                    i < n,
                    *node == nodes@[i as int],
                    pre == nodes@.subrange(0, i as int),
                    m == node.prerequisites@.len(),
                    j <= m,
                    forall|p: Seq<char>| #[trigger] dependents@.contains_key(p) <==> (is_prerequisite(pre, p) || str_views(node.prerequisites@.subrange(0, j as int)).contains(p)),
                    forall|p: Seq<char>| #[trigger] dependents@.contains_key(p) ==> str_views(dependents@[p]@) == dependents_of(pre, p) + Seq::new(
                        occurrences(str_views(node.prerequisites@.subrange(0, j as int)), p),
                        |k: int| node.id@,
                    ),
                decreases m - j,
            {
                let p = &node.prerequisites[j];
                let ghost pv = p@;
                let ghost pj = str_views(node.prerequisites@.subrange(0, j as int));
                let ghost pj1 = str_views(node.prerequisites@.subrange(0, j + 1));
                assert(pj1.drop_last() =~= pj);
                assert(pj1.last() == pv);
                let entry = dependents.remove(p.as_str());
                let had = entry.is_some();
                let mut list = match entry {
                    Some(l) => l,
                    None => Vec::new(),
                };
                let ghost before = list@;
                proof {
                    if !had {
                        lemma_occ_zero(pj, pv);
                        lemma_deps_empty(pre, pv);
                    }
                }
                let nid = node.id.clone();
                list.push(nid);
                dependents.insert(p.clone(), list);
                proof {
                    assert forall|q: Seq<char>| #[trigger] dependents@.contains_key(q) <==> (is_prerequisite(pre, q) || pj1.contains(q)) by {
                        if pj.contains(q) {
                            let k = choose|k: int| 0 <= k < pj.len() && pj[k] == q;
                            assert(pj1[k] == q);
                        }
                        if pj1.contains(q) && q != pv {
                            let k = choose|k: int| 0 <= k < pj1.len() && pj1[k] == q;
                            assert(k < pj.len());
                            assert(pj[k] == q);
                        }
                        if q == pv {
                            assert(pj1[j as int] == q);
                        }
                    }
                    assert forall|q: Seq<char>| #[trigger] dependents@.contains_key(q) implies str_views(dependents@[q]@) == dependents_of(pre, q) + Seq::new(occurrences(pj1, q), |k: int| node.id@) by {
                        if q == pv {
                            assert(occurrences(pj1, q) == occurrences(pj, q) + 1);
                            assert(str_views(list@) =~= str_views(before).push(node.id@));
                            assert(Seq::new(occurrences(pj1, q), |k: int| node.id@) =~= Seq::new(occurrences(pj, q), |k: int| node.id@).push(node.id@));
                            assert(str_views(dependents@[q]@) =~= dependents_of(pre, q) + Seq::new(occurrences(pj1, q), |k: int| node.id@));
                        } else {
                            assert(occurrences(pj1, q) == occurrences(pj, q));
                        }
                    }
                }
                j += 1;
            }
            proof {
                assert(node.prerequisites@.subrange(0, m as int) =~= node.prerequisites@);
                assert forall|p: Seq<char>| #[trigger] dependents@.contains_key(p) <==> is_prerequisite(post, p) by {
                    if is_prerequisite(pre, p) {
                        let k = choose|k: int| 0 <= k < pre.len() && str_views((#[trigger] pre[k]).prerequisites@).contains(p);
                        assert(post[k] == pre[k]);
                    }
                    if str_views(node.prerequisites@).contains(p) {
                        assert(post[i as int] == *node);
                    }
                    if is_prerequisite(post, p) {
                        let k = choose|k: int| 0 <= k < post.len() && str_views((#[trigger] post[k]).prerequisites@).contains(p);
                        if k < i {
                            assert(pre[k] == post[k]);
                        }
                    }
                }
                assert forall|p: Seq<char>| #[trigger] dependents@.contains_key(p) implies str_views(dependents@[p]@) == dependents_of(post, p) by {
                    assert(dependents_of(post, p) == dependents_of(pre, p) + Seq::new(
                        occurrences(str_views(node.prerequisites@), p),
                        |k: int| node.id@,
                    ));
                }
            }
            tiers.insert(node.id.clone(), node.tier);
            proof {
                assert(node_table(post) == node_table(pre).insert(node.id@, *node));
            }
            i += 1;
        }
        proof {
            assert(nodes@.subrange(0, n as int) =~= nodes@);
        }
        let tier_order = Self::order_by_tier(&nodes, &tiers);
        let mut table: StrMap<NodeDef> = StrMap::new();
        let mut rest = nodes;
        let ghost all = rest@;
        let mut k: usize = 0;
        while rest.len() > 0
            invariant
                k + rest@.len() == all.len(),
                all.len() <= usize::MAX,
                rest@ == all.subrange(k as int, all.len() as int),
                table@ == node_table(all.subrange(0, k as int)),
            decreases rest@.len(),
        {
            let node = rest.remove(0);
            proof {
                assert(all.subrange(0, k + 1).drop_last() =~= all.subrange(0, k as int));
                assert(all.subrange(0, k + 1).last() == node);
            }
            let id = node.id.clone();
            table.insert(id, node);
            proof {
                assert(rest@ =~= all.subrange(k + 1, all.len() as int));
            }
            k += 1;
        }
        proof {
            assert(all.subrange(0, k as int) =~= all);
        }
        TechTree { nodes: table, dependents, tier_order }
    }

    fn order_by_tier(nodes: &Vec<NodeDef>, tiers: &StrMap<u8>) -> (order: Vec<String>)
        requires
            forall|k: Seq<char>| #[trigger] tiers@.contains_key(k) <==> node_table(nodes@).contains_key(k),
            forall|k: Seq<char>| #[trigger] tiers@.contains_key(k) ==> tiers@[k] == node_table(nodes@)[k].tier,
        ensures
            str_views(order@) == ids_by_tier(nodes@, 256),
    {
        let mut order: Vec<String> = Vec::new();
        let mut t: u16 = 0;
        while t < 256
            invariant
                t <= 256,
                forall|k: Seq<char>| #[trigger] tiers@.contains_key(k) <==> node_table(nodes@).contains_key(k),
                forall|k: Seq<char>| #[trigger] tiers@.contains_key(k) ==> tiers@[k] == node_table(nodes@)[k].tier,
                str_views(order@) == ids_by_tier(nodes@, t as nat),
            decreases 256 - t,
        {
            let tt = t as u8;
            let ghost base = str_views(order@);
            let mut i: usize = 0;
            while i < nodes.len()
                invariant
                    i <= nodes@.len(),
                    t < 256,
                    tt == t,
                    forall|k: Seq<char>| #[trigger] tiers@.contains_key(k) <==> node_table(nodes@).contains_key(k),
                    forall|k: Seq<char>| #[trigger] tiers@.contains_key(k) ==> tiers@[k] == node_table(nodes@)[k].tier,
                    str_views(order@) == base + ids_at_tier(nodes@.subrange(0, i as int), nodes@, tt),
                decreases nodes@.len() - i,
            {
                let node = &nodes[i];
                let ghost pre = nodes@.subrange(0, i as int);
                let ghost post = nodes@.subrange(0, i + 1);
                assert(post.drop_last() =~= pre);
                assert(post.last() == *node);
                proof { lemma_node_table_has(nodes@, i as int); }
                let tier = match tiers.get(node.id.as_str()) {
                    Some(x) => *x,
                    None => 0,
                };
                if tier == tt {
                    let ghost o = order@;
                    order.push(node.id.clone());
                    assert(str_views(order@) =~= str_views(o).push(node.id@));
                }
                assert(str_views(order@) =~= base + ids_at_tier(post, nodes@, tt));
                i += 1;
            }
            assert(nodes@.subrange(0, nodes@.len() as int) =~= nodes@);
            t += 1;
        }
        order
    }
}

proof fn lemma_occ_zero(ids: Seq<Seq<char>>, p: Seq<char>)
    requires
        !ids.contains(p),
    ensures
        occurrences(ids, p) == 0,
    decreases ids.len(),
{
    if ids.len() > 0 {
        assert(!ids.drop_last().contains(p)) by {
            if ids.drop_last().contains(p) {
                let k = choose|k: int| 0 <= k < ids.drop_last().len() && ids.drop_last()[k] == p;
                assert(ids[k] == p);
            }
        }
        lemma_occ_zero(ids.drop_last(), p);
        assert(ids[ids.len() - 1] != p);
    }
}

proof fn lemma_deps_empty(nodes: Seq<NodeDef>, p: Seq<char>)
    requires
        !is_prerequisite(nodes, p),
    ensures
        dependents_of(nodes, p) == Seq::<Seq<char>>::empty(),
    decreases nodes.len(),
{
    if nodes.len() > 0 {
        let init = nodes.drop_last();
        assert(!is_prerequisite(init, p)) by {
            if is_prerequisite(init, p) {
                let k = choose|k: int| 0 <= k < init.len() && str_views((#[trigger] init[k]).prerequisites@).contains(p);
                assert(nodes[k] == init[k]);
            }
        }
        lemma_deps_empty(init, p);
        assert(!str_views(nodes[nodes.len() - 1].prerequisites@).contains(p));
        lemma_occ_zero(str_views(nodes.last().prerequisites@), p);
        assert(dependents_of(nodes, p) =~= Seq::<Seq<char>>::empty());
    }
}

} // verus!
