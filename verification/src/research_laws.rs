//! Laws of the research unlock rules: what one frame of `check_research_unlocks`
//! preserves, whatever the requests, discoveries and tally.

use vstd::prelude::*;
use crate::research::{
    ResearchState, Progress, auto_candidates, auto_phase, balance, chain_closure, chain_rule,
    discovery_rule, exclusive_ok, group_peers, in_group, lemma_candidates_locked,
    lemma_locked_count_mono, lemma_unlock_all_grows, locked_count, milestone_rule, prereqs_met,
    process_requests, request_step, research_outcome, still_locked, unlock_all, unlock_one,
};
use crate::tech_tree::{NodeDef, TechTree, UnlockVector};

verus! {

/// Progress `b` keeps everything of progress `a`.
pub open spec fn grows(a: Progress, b: Progress) -> bool {
    &&& a.unlocked_nodes.subset_of(b.unlocked_nodes)
    &&& a.unlocked_recipes.subset_of(b.unlocked_recipes)
    &&& a.unlocked_machines.subset_of(b.unlocked_machines)
    &&& a.disabled_nodes.subset_of(b.disabled_nodes)
}

/// No balance of pool `b` exceeds its balance in pool `a`.
pub open spec fn pool_within(a: Map<Seq<char>, u64>, b: Map<Seq<char>, u64>) -> bool {
    forall|k: Seq<char>| #[trigger] balance(b, k) <= balance(a, k)
}

/// How `cur` relates to the progress `start` of the frame: it only grew; each
/// node it newly unlocked was not disabled at the start, has its prerequisites
/// unlocked, and, if it is bought with research, was requested.
pub open spec fn sound_since(
    table: Map<Seq<char>, NodeDef>,
    requests: Set<Seq<char>>,
    start: Progress,
    cur: Progress,
) -> bool {
    &&& grows(start, cur)
    &&& forall|id: Seq<char>| #[trigger] cur.unlocked_nodes.contains(id) && !start.unlocked_nodes.contains(id) ==> {
        &&& !start.disabled_nodes.contains(id)
        &&& table.contains_key(id) ==> prereqs_met(table[id], cur)
        &&& table.contains_key(id) && table[id].primary_unlock is ResearchSpend ==> requests.contains(id)
    }
}

proof fn lemma_prereqs_mono(node: NodeDef, a: Progress, b: Progress)
    requires
        prereqs_met(node, a),
        a.unlocked_nodes.subset_of(b.unlocked_nodes),
    ensures
        prereqs_met(node, b),
{
    assert forall|i: int| 0 <= i < node.prerequisites@.len() implies b.unlocked_nodes.contains(#[trigger] node.prerequisites@[i]@) by {
        assert(a.unlocked_nodes.contains(node.prerequisites@[i]@));
    }
}

proof fn lemma_unlock_one_sound(
    table: Map<Seq<char>, NodeDef>,
    templates: Option<Map<Seq<char>, Vec<String>>>,
    requests: Set<Seq<char>>,
    start: Progress,
    cur: Progress,
    id: Seq<char>,
)
    requires
        sound_since(table, requests, start, cur),
        !start.disabled_nodes.contains(id) || start.unlocked_nodes.contains(id),
        table.contains_key(id) ==> prereqs_met(table[id], cur),
        table.contains_key(id) && table[id].primary_unlock is ResearchSpend && !start.unlocked_nodes.contains(id) ==> requests.contains(id),
    ensures
        sound_since(table, requests, start, unlock_one(table, templates, cur, id)),
        grows(cur, unlock_one(table, templates, cur, id)),
{
    let next = unlock_one(table, templates, cur, id);
    assert(grows(cur, next));
    assert forall|x: Seq<char>| #[trigger] next.unlocked_nodes.contains(x) && !start.unlocked_nodes.contains(x) implies {
        &&& !start.disabled_nodes.contains(x)
        &&& table.contains_key(x) ==> prereqs_met(table[x], next)
        &&& table.contains_key(x) && table[x].primary_unlock is ResearchSpend ==> requests.contains(x)
    } by {
        if table.contains_key(x) {
            if x == id {
                lemma_prereqs_mono(table[x], cur, next);
            } else {
                assert(cur.unlocked_nodes.contains(x));
                lemma_prereqs_mono(table[x], cur, next);
            }
        }
    }
}

proof fn lemma_grows_trans(a: Progress, b: Progress, c: Progress)
    requires
        grows(a, b),
        grows(b, c),
    ensures
        grows(a, c),
{
}

proof fn lemma_unlock_one_exclusive(
    table: Map<Seq<char>, NodeDef>,
    templates: Option<Map<Seq<char>, Vec<String>>>,
    p: Progress,
    id: Seq<char>,
)
    requires
        exclusive_ok(table, p),
        still_locked(p, id),
    ensures
        exclusive_ok(table, unlock_one(table, templates, p, id)),
{
    let q = unlock_one(table, templates, p, id);
    if table.contains_key(id) {
        let peers = group_peers(table, id, table[id]);
        assert(q.disabled_nodes == p.disabled_nodes.union(peers));
        assert forall|x: Seq<char>| q.unlocked_nodes.contains(x) implies !q.disabled_nodes.contains(x) by {
            if x != id {
                assert(p.unlocked_nodes.contains(x));
                if peers.contains(x) {
                    let g = table[id].exclusive_group.unwrap();
                    assert(in_group(table[x], g@));
                    let h = table[x].exclusive_group.unwrap();
                    assert(in_group(table[id], h@));
                    assert(group_peers(table, x, table[x]).contains(id));
                    assert(p.disabled_nodes.contains(id));
                }
            }
        }
        assert forall|u: Seq<char>| #[trigger] q.unlocked_nodes.contains(u) && table.contains_key(u)
            implies group_peers(table, u, table[u]).subset_of(q.disabled_nodes) by {
            if u != id {
                assert(p.unlocked_nodes.contains(u));
                assert(group_peers(table, u, table[u]).subset_of(p.disabled_nodes));
            }
        }
    }
}

proof fn lemma_candidate_facts(
    table: Map<Seq<char>, NodeDef>,
    p: Progress,
    order: Seq<Seq<char>>,
    rule: spec_fn(UnlockVector) -> bool,
    i: int,
)
    requires
        0 <= i < auto_candidates(table, p, order, rule).len(),
    ensures
        ({
            let id = auto_candidates(table, p, order, rule)[i];
            &&& table.contains_key(id)
            &&& still_locked(p, id)
            &&& rule(table[id].primary_unlock)
            &&& prereqs_met(table[id], p)
        }),
    decreases order.len(),
{
    let init = order.drop_last();
    let ci = auto_candidates(table, p, init, rule);
    if i < ci.len() {
        lemma_candidate_facts(table, p, init, rule, i);
        assert(auto_candidates(table, p, order, rule)[i] == ci[i]);
    }
}

/// The automatic rules never unlock a node that is bought with research.
pub open spec fn spares_research_spend(rule: spec_fn(UnlockVector) -> bool) -> bool {
    forall|u: UnlockVector| u is ResearchSpend ==> !(#[trigger] rule(u))
}

proof fn lemma_unlock_batch_sound(
    table: Map<Seq<char>, NodeDef>,
    templates: Option<Map<Seq<char>, Vec<String>>>,
    requests: Set<Seq<char>>,
    start: Progress,
    p: Progress,
    order: Seq<Seq<char>>,
    rule: spec_fn(UnlockVector) -> bool,
    n: int,
)
    requires
        sound_since(table, requests, start, p),
        spares_research_spend(rule),
        0 <= n <= auto_candidates(table, p, order, rule).len(),
    ensures
        ({
            let r = unlock_all(table, templates, p, auto_candidates(table, p, order, rule).subrange(0, n)).0;
            &&& sound_since(table, requests, start, r)
            &&& grows(p, r)
            &&& exclusive_ok(table, p) ==> exclusive_ok(table, r)
        }),
    decreases n,
{
    let c = auto_candidates(table, p, order, rule);
    if n == 0 {
        assert(c.subrange(0, 0) =~= Seq::<Seq<char>>::empty());
    } else {
        lemma_unlock_batch_sound(table, templates, requests, start, p, order, rule, n - 1);
        let pre = c.subrange(0, n - 1);
        let cur = unlock_all(table, templates, p, pre).0;
        assert(c.subrange(0, n).drop_last() =~= pre);
        let id = c[n - 1];
        assert(c.subrange(0, n).last() == id);
        if still_locked(cur, id) {
            lemma_candidate_facts(table, p, order, rule, n - 1);
            lemma_prereqs_mono(table[id], p, cur);
            assert(!(table[id].primary_unlock is ResearchSpend)) by {
                if table[id].primary_unlock is ResearchSpend {
                    assert(!rule(table[id].primary_unlock));
                }
            }
            lemma_unlock_one_sound(table, templates, requests, start, cur, id);
            lemma_grows_trans(p, cur, unlock_one(table, templates, cur, id));
            if exclusive_ok(table, p) {
                lemma_unlock_one_exclusive(table, templates, cur, id);
            }
        }
    }
}

proof fn lemma_auto_phase_sound(
    table: Map<Seq<char>, NodeDef>,
    templates: Option<Map<Seq<char>, Vec<String>>>,
    requests: Set<Seq<char>>,
    start: Progress,
    s: ResearchState,
    order: Seq<Seq<char>>,
    rule: spec_fn(UnlockVector) -> bool,
)
    requires
        sound_since(table, requests, start, s.progress),
        spares_research_spend(rule),
    ensures
        sound_since(table, requests, start, auto_phase(table, templates, s, order, rule).progress),
        auto_phase(table, templates, s, order, rule).pool == s.pool,
        exclusive_ok(table, s.progress) ==> exclusive_ok(table, auto_phase(table, templates, s, order, rule).progress),
{
    let c = auto_candidates(table, s.progress, order, rule);
    lemma_unlock_batch_sound(table, templates, requests, start, s.progress, order, rule, c.len() as int);
    assert(c.subrange(0, c.len() as int) =~= c);
}

proof fn lemma_requests_sound(
    table: Map<Seq<char>, NodeDef>,
    templates: Option<Map<Seq<char>, Vec<String>>>,
    start: ResearchState,
    reqs: Seq<Seq<char>>,
)
    ensures
        sound_since(table, reqs.to_set(), start.progress, process_requests(table, templates, start, reqs).progress),
        pool_within(start.pool, process_requests(table, templates, start, reqs).pool),
        exclusive_ok(table, start.progress) ==> exclusive_ok(table, process_requests(table, templates, start, reqs).progress),
    decreases reqs.len(),
{
    if reqs.len() == 0 {
    } else {
        let init = reqs.drop_last();
        lemma_requests_sound(table, templates, start, init);
        let s = process_requests(table, templates, start, init);
        let id = reqs.last();
        assert(reqs[reqs.len() - 1] == id);
        assert forall|x: Seq<char>| init.to_set().contains(x) implies reqs.to_set().contains(x) by {
            let j = choose|j: int| 0 <= j < init.len() && init[j] == x;
            assert(reqs[j] == x);
        }
        assert(sound_since(table, reqs.to_set(), start.progress, s.progress));
        if still_locked(s.progress, id) && table.contains_key(id) && prereqs_met(table[id], s.progress) {
            match table[id].primary_unlock {
                UnlockVector::ResearchSpend { type_id, amount } => {
                    if balance(s.pool, type_id@) >= amount {
                        assert(reqs.to_set().contains(id));
                        assert(!start.progress.disabled_nodes.contains(id));
                        lemma_unlock_one_sound(table, templates, reqs.to_set(), start.progress, s.progress, id);
                        if exclusive_ok(table, start.progress) {
                            lemma_unlock_one_exclusive(table, templates, s.progress, id);
                        }
                        let next = request_step(table, templates, s, id);
                        assert forall|k: Seq<char>| #[trigger] balance(next.pool, k) <= balance(start.pool, k) by {
                            assert(balance(s.pool, k) <= balance(start.pool, k));
                        }
                    }
                },
                _ => {},
            }
        }
    }
}

proof fn lemma_chain_sound(
    table: Map<Seq<char>, NodeDef>,
    templates: Option<Map<Seq<char>, Vec<String>>>,
    requests: Set<Seq<char>>,
    start: Progress,
    s: ResearchState,
    order: Seq<Seq<char>>,
)
    requires
        sound_since(table, requests, start, s.progress),
    ensures
        sound_since(table, requests, start, chain_closure(table, templates, s, order).progress),
        chain_closure(table, templates, s, order).pool == s.pool,
        auto_candidates(table, chain_closure(table, templates, s, order).progress, order, chain_rule()).len() == 0,
        exclusive_ok(table, s.progress) ==> exclusive_ok(table, chain_closure(table, templates, s, order).progress),
    decreases locked_count(order, s.progress.unlocked_nodes),
{
    let c = auto_candidates(table, s.progress, order, chain_rule());
    if c.len() > 0 {
        assert(spares_research_spend(chain_rule()));
        lemma_auto_phase_sound(table, templates, requests, start, s, order, chain_rule());
        let next = auto_phase(table, templates, s, order, chain_rule());
        lemma_candidates_locked(table, s.progress, order, chain_rule(), 0);
        lemma_unlock_all_grows(table, templates, s.progress, c);
        lemma_locked_count_mono(order, s.progress.unlocked_nodes, next.progress.unlocked_nodes);
        lemma_chain_sound(table, templates, requests, start, next, order);
    }
}

/// One frame of the unlock rules only ever adds: unlocked nodes, recipes,
/// machines and disabled nodes are kept; no currency balance rises; a node
/// disabled at the start stays locked; every newly unlocked node has its
/// prerequisites unlocked; a node bought with research is unlocked only when
/// requested; afterwards no prerequisite-chain node is left that could unlock;
/// and when exclusive groups were respected at the start (no node both unlocked
/// and disabled, the group peers of every unlocked node disabled), they still are.
pub proof fn lemma_research_frame(
    tree: Option<&TechTree>,
    templates: Option<Map<Seq<char>, Vec<String>>>,
    pool: Map<Seq<char>, u64>,
    progress: Progress,
    tally: Option<Map<Seq<char>, u64>>,
    requests: Seq<Seq<char>>,
    discoveries: Seq<Seq<char>>,
)
    ensures
        ({
            let out = research_outcome(tree, templates, pool, progress, tally, requests, discoveries);
            let table = match tree { Some(t) => t.nodes@, None => Map::empty() };
            &&& sound_since(table, requests.to_set(), progress, out.progress)
            &&& pool_within(pool, out.pool)
            &&& tree is Some ==> auto_candidates(table, out.progress, tree.unwrap().nodes.key_seq(), chain_rule()).len() == 0
            &&& exclusive_ok(table, progress) ==> exclusive_ok(table, out.progress)
        }),
{
    match tree {
        None => {},
        Some(t) => {
            let table = t.nodes@;
            let order = t.nodes.key_seq();
            let rs = requests.to_set();
            let s0 = ResearchState { pool, progress, events: Seq::empty() };
            lemma_requests_sound(table, templates, s0, requests);
            let s1 = process_requests(table, templates, s0, requests);
            assert(spares_research_spend(discovery_rule(discoveries.to_set())));
            lemma_auto_phase_sound(table, templates, rs, progress, s1, order, discovery_rule(discoveries.to_set()));
            let s2 = auto_phase(table, templates, s1, order, discovery_rule(discoveries.to_set()));
            match tally {
                Some(m) => {
                    assert(spares_research_spend(milestone_rule(m)));
                    lemma_auto_phase_sound(table, templates, rs, progress, s2, order, milestone_rule(m));
                    let s3 = auto_phase(table, templates, s2, order, milestone_rule(m));
                    lemma_chain_sound(table, templates, rs, progress, s3, order);
                },
                None => {
                    lemma_chain_sound(table, templates, rs, progress, s2, order);
                },
            }
        },
    }
}

/// Without a tech tree a frame changes nothing and reports nothing.
pub proof fn lemma_research_frame_without_tree(
    templates: Option<Map<Seq<char>, Vec<String>>>,
    pool: Map<Seq<char>, u64>,
    progress: Progress,
    tally: Option<Map<Seq<char>, u64>>,
    requests: Seq<Seq<char>>,
    discoveries: Seq<Seq<char>>,
)
    ensures
        research_outcome(None, templates, pool, progress, tally, requests, discoveries)
            == (ResearchState { pool, progress, events: Seq::empty() }),
{
}

} // verus!
