//! The prerequisite chain of a tech node: a depth-first walk that lists each
//! node once, its prerequisites before it.

use vstd::prelude::*;
use crate::strmap::{contains_str, str_views};
use crate::tech_tree::NodeDef;
use crate::text::{owned, str_eq};

verus! {

/// The position of the first node with id `k`, or -1.
pub open spec fn node_index(nodes: Seq<NodeDef>, k: Seq<char>) -> int
    decreases nodes.len(),
{
    if nodes.len() == 0 {
        -1
    } else {
        let i = node_index(nodes.subrange(0, nodes.len() - 1), k);
        if i >= 0 {
            i
        } else if nodes[nodes.len() - 1].id@ == k {
            nodes.len() - 1
        } else {
            -1
        }
    }
}

/// The prerequisite ids of a node.
pub open spec fn prereq_ids(n: NodeDef) -> Seq<Seq<char>> {
    str_views(n.prerequisites@)
}

/// `rank` strictly decreases from every listed node to each of its listed
/// prerequisites.
pub open spec fn ranked(nodes: Seq<NodeDef>, rank: spec_fn(Seq<char>) -> nat) -> bool {
    forall|k: Seq<char>, j: int|
        #![trigger node_index(nodes, k), prereq_ids(nodes[node_index(nodes, k)])[j]]
        node_index(nodes, k) >= 0 && 0 <= j < prereq_ids(nodes[node_index(nodes, k)]).len()
            && node_index(nodes, prereq_ids(nodes[node_index(nodes, k)])[j]) >= 0
            ==> rank(prereq_ids(nodes[node_index(nodes, k)])[j]) < rank(k)
}

/// No node is, directly or through others, its own prerequisite.
pub open spec fn acyclic(nodes: Seq<NodeDef>) -> bool {
    exists|rank: spec_fn(Seq<char>) -> nat| ranked(nodes, rank)
}

/// The walk from `id` with `fuel` levels to spare, appending to `seen`: a
/// node already seen or not listed adds nothing; otherwise its prerequisites
/// are walked in order, then the node itself is appended.
pub open spec fn walk(nodes: Seq<NodeDef>, id: Seq<char>, seen: Seq<Seq<char>>, fuel: nat) -> Seq<Seq<char>>
    decreases fuel, 0nat,
{
    if seen.contains(id) {
        seen
    } else {
        let i = node_index(nodes, id);
        if i < 0 || i >= nodes.len() || fuel == 0 {
            seen
        } else {
            walk_all(nodes, prereq_ids(nodes[i]), seen, (fuel - 1) as nat).push(id)
        }
    }
}

/// The walks from each of `ps` in turn.
pub open spec fn walk_all(nodes: Seq<NodeDef>, ps: Seq<Seq<char>>, seen: Seq<Seq<char>>, fuel: nat) -> Seq<Seq<char>>
    decreases fuel, ps.len(),
{
    if ps.len() == 0 {
        seen
    } else {
        walk_all(nodes, ps.drop_first(), walk(nodes, ps[0], seen, fuel), fuel)
    }
}

/// The walk's depth budget: one more than the rank of `id` under some ranking.
pub open spec fn path_fuel(nodes: Seq<NodeDef>, id: Seq<char>) -> nat {
    let rank = choose|rank: spec_fn(Seq<char>) -> nat| ranked(nodes, rank);
    rank(id) + 1
}

proof fn lemma_node_index(nodes: Seq<NodeDef>, k: Seq<char>)
    ensures
        -1 <= node_index(nodes, k) < nodes.len(),
        node_index(nodes, k) == -1 <==> forall|t: int| 0 <= t < nodes.len() ==> (#[trigger] nodes[t]).id@ != k,
        node_index(nodes, k) >= 0 ==> nodes[node_index(nodes, k)].id@ == k
            && forall|t: int| 0 <= t < node_index(nodes, k) ==> (#[trigger] nodes[t]).id@ != k,
    decreases nodes.len(),
{
    if nodes.len() > 0 {
        let c = nodes.subrange(0, nodes.len() - 1);
        lemma_node_index(c, k);
        let i = node_index(c, k);
        if i >= 0 {
            assert(nodes[i] == c[i]);
            assert forall|t: int| 0 <= t < i implies (#[trigger] nodes[t]).id@ != k by {
                assert(c[t] == nodes[t]);
            }
        } else if nodes[nodes.len() - 1].id@ == k {
            assert forall|t: int| 0 <= t < nodes.len() - 1 implies (#[trigger] nodes[t]).id@ != k by {
                assert(c[t] == nodes[t]);
            }
        } else {
            assert forall|t: int| 0 <= t < nodes.len() implies (#[trigger] nodes[t]).id@ != k by {
                if t < nodes.len() - 1 {
                    assert(c[t] == nodes[t]);
                }
            }
        }
    }
}

fn find_node(nodes: &Vec<NodeDef>, id: &str) -> (r: Option<usize>)
    ensures
        match r {
            Some(i) => i < nodes@.len() && node_index(nodes@, id@) == i,
            None => node_index(nodes@, id@) == -1,
        },
{
    let mut i: usize = 0;
    while i < nodes.len()
        invariant
            i <= nodes@.len(),
            forall|t: int| 0 <= t < i ==> (#[trigger] nodes@[t]).id@ != id@,
        decreases nodes@.len() - i,
    {
        if str_eq(nodes[i].id.as_str(), id) {
            proof {
                lemma_node_index(nodes@, id@);
                let ki = node_index(nodes@, id@);
                if ki != i {
                    if ki == -1 {
                        assert(nodes@[i as int].id@ != id@);
                    } else if ki < i {
                        assert(nodes@[ki].id@ != id@);
                    } else {
                        assert(nodes@[i as int].id@ != id@);
                    }
                }
            }
            return Some(i);
        }
        i += 1;
    }
    proof {
        lemma_node_index(nodes@, id@);
    }
    None
}

fn walk_path(id: &str, nodes: &Vec<NodeDef>, seen: &mut Vec<String>, Ghost(fuel): Ghost<nat>, Ghost(rank): Ghost<spec_fn(Seq<char>) -> nat>)
    requires
        ranked(nodes@, rank),
        node_index(nodes@, id@) >= 0 ==> fuel > rank(id@),
    ensures
        str_views(final(seen)@) == walk(nodes@, id@, str_views(old(seen)@), fuel),
    decreases fuel,
{
    if contains_str(seen, id) {
        return;
    }
    let found = find_node(nodes, id);
    match found {
        None => {
            return;
        },
        Some(i) => {
            let node = &nodes[i];
            let ps = &node.prerequisites;
            let ghost pv = prereq_ids(*node);
            let ghost start = str_views(seen@);
            let ghost f1: nat = (fuel - 1) as nat;
            proof {
                assert(pv.subrange(0, pv.len() as int) =~= pv);
            }
            let mut j: usize = 0;
            while j < ps.len()
                invariant
                    ranked(nodes@, rank),
                    i < nodes@.len(),
                    node_index(nodes@, id@) == i,
                    *node == nodes@[i as int],
                    *ps == node.prerequisites,
                    pv == prereq_ids(*node),
                    fuel > rank(id@),
                    f1 == fuel - 1,
                    j <= ps@.len(),
                    walk_all(nodes@, pv, start, f1) == walk_all(nodes@, pv.subrange(j as int, pv.len() as int), str_views(seen@), f1),
                decreases ps@.len() - j,
            {
                let p = &ps[j];
                proof {
                    let rest = pv.subrange(j as int, pv.len() as int);
                    assert(rest[0] == p@);
                    assert(rest.drop_first() =~= pv.subrange(j + 1, pv.len() as int));
                    if node_index(nodes@, p@) >= 0 {
                        assert(prereq_ids(nodes@[node_index(nodes@, id@)])[j as int] == p@);
                        assert(rank(p@) < rank(id@));
                    }
                }
                walk_path(p.as_str(), nodes, seen, Ghost(f1), Ghost(rank));
                j += 1;
            }
            proof {
                assert(pv.subrange(pv.len() as int, pv.len() as int) =~= Seq::<Seq<char>>::empty());
            }
            let ghost before = seen@;
            seen.push(owned(id));
            proof {
                assert(str_views(seen@) =~= str_views(before).push(id@));
            }
        },
    }
}

/// The prerequisite chain to reach node `id`, in dependency order: each node
/// once, its prerequisites before it; unknown ids are skipped. The first
/// definition of an id is the one followed.
pub fn tech_path(nodes: &Vec<NodeDef>, id: &str) -> (path: Vec<String>)
    requires
        acyclic(nodes@),
    ensures
        str_views(path@) == walk(nodes@, id@, Seq::empty(), path_fuel(nodes@, id@)),
{
    let ghost rank = choose|rank: spec_fn(Seq<char>) -> nat| ranked(nodes@, rank);
    let mut seen: Vec<String> = Vec::new();
    proof {
        assert(str_views(seen@) =~= Seq::<Seq<char>>::empty());
    }
    walk_path(id, nodes, &mut seen, Ghost(path_fuel(nodes@, id@)), Ghost(rank));
    seen
}

/// Node `k` is listed.
pub open spec fn known(nodes: Seq<NodeDef>, k: Seq<char>) -> bool {
    node_index(nodes, k) >= 0
}

/// A listing in dependency order: no id twice, every id listed as a node,
/// and every listed prerequisite of an id earlier than it.
pub open spec fn dependency_ordered(nodes: Seq<NodeDef>, s: Seq<Seq<char>>) -> bool {
    &&& s.no_duplicates()
    &&& forall|a: int| 0 <= a < s.len() ==> known(nodes, #[trigger] s[a])
    &&& forall|a: int, j: int|
        #![trigger s[a], prereq_ids(nodes[node_index(nodes, s[a])])[j]]
        0 <= a < s.len() && 0 <= j < prereq_ids(nodes[node_index(nodes, s[a])]).len()
            && known(nodes, prereq_ids(nodes[node_index(nodes, s[a])])[j])
            ==> exists|b: int| 0 <= b < a && s[b] == prereq_ids(nodes[node_index(nodes, s[a])])[j]
}

/// What one walk guarantees: it only appends, it appends listed ids, and it
/// keeps a dependency-ordered listing so.
pub open spec fn walk_facts(nodes: Seq<NodeDef>, s: Seq<Seq<char>>, r: Seq<Seq<char>>) -> bool {
    &&& r.len() >= s.len()
    &&& r.subrange(0, s.len() as int) == s
    &&& forall|t: int| s.len() <= t < r.len() ==> known(nodes, #[trigger] r[t])
    &&& dependency_ordered(nodes, s) ==> dependency_ordered(nodes, r)
}

proof fn lemma_walk(nodes: Seq<NodeDef>, rank: spec_fn(Seq<char>) -> nat, id: Seq<char>, s: Seq<Seq<char>>, fuel: nat)
    requires
        ranked(nodes, rank),
        known(nodes, id) ==> fuel > rank(id),
    ensures
        walk_facts(nodes, s, walk(nodes, id, s, fuel)),
        forall|t: int| s.len() <= t < walk(nodes, id, s, fuel).len() ==> rank(#[trigger] walk(nodes, id, s, fuel)[t]) <= rank(id),
        known(nodes, id) ==> walk(nodes, id, s, fuel).contains(id),
    decreases fuel, 0nat,
{
    let r = walk(nodes, id, s, fuel);
    lemma_node_index(nodes, id);
    if s.contains(id) {
        assert(r.subrange(0, s.len() as int) =~= s);
    } else if !known(nodes, id) {
        assert(r.subrange(0, s.len() as int) =~= s);
    } else {
        let i = node_index(nodes, id);
        let ps = prereq_ids(nodes[i]);
        let f1 = (fuel - 1) as nat;
        assert forall|q: int| 0 <= q < ps.len() && known(nodes, #[trigger] ps[q]) implies f1 > rank(ps[q]) by {
            assert(node_index(nodes, id) == i);
            assert(ps[q] == prereq_ids(nodes[node_index(nodes, id)])[q]);
        }
        assert forall|q: int| 0 <= q < ps.len() && known(nodes, #[trigger] ps[q]) implies rank(ps[q]) < rank(id) by {
            assert(ps[q] == prereq_ids(nodes[node_index(nodes, id)])[q]);
        }
        lemma_walk_all(nodes, rank, ps, s, f1);
        let s1 = walk_all(nodes, ps, s, f1);
        assert(r == s1.push(id));
        assert(r.subrange(0, s.len() as int) =~= s1.subrange(0, s.len() as int));
        assert forall|t: int| s.len() <= t < r.len() implies known(nodes, #[trigger] r[t]) && rank(r[t]) <= rank(id) by {
            if t < s1.len() {
                assert(r[t] == s1[t]);
                let q = choose|q: int| 0 <= q < ps.len() && known(nodes, ps[q]) && rank(s1[t]) <= rank(#[trigger] ps[q]);
            }
        }
        assert(r[r.len() - 1] == id);
        if dependency_ordered(nodes, s) {
            assert(dependency_ordered(nodes, s1));
            assert(!s1.contains(id)) by {
                if s1.contains(id) {
                    let t = choose|t: int| 0 <= t < s1.len() && s1[t] == id;
                    if t < s.len() {
                        assert(s[t] == s1[t]);
                        assert(s.contains(id));
                    } else {
                        let q = choose|q: int| 0 <= q < ps.len() && known(nodes, ps[q]) && rank(s1[t]) <= rank(#[trigger] ps[q]);
                        assert(rank(ps[q]) < rank(id));
                    }
                }
            }
            assert forall|a: int, b: int| 0 <= a < r.len() && 0 <= b < r.len() && a != b implies r[a] != r[b] by {
                if a < s1.len() && b < s1.len() {
                    assert(r[a] == s1[a] && r[b] == s1[b]);
                } else if a < s1.len() {
                    assert(r[a] == s1[a]);
                    assert(s1.contains(s1[a]));
                } else {
                    assert(r[b] == s1[b]);
                    assert(s1.contains(s1[b]));
                }
            }
            assert forall|a: int| 0 <= a < r.len() implies known(nodes, #[trigger] r[a]) by {
                if a < s1.len() {
                    assert(r[a] == s1[a]);
                }
            }
            assert forall|a: int, j: int|
                #![trigger r[a], prereq_ids(nodes[node_index(nodes, r[a])])[j]]
                0 <= a < r.len() && 0 <= j < prereq_ids(nodes[node_index(nodes, r[a])]).len()
                    && known(nodes, prereq_ids(nodes[node_index(nodes, r[a])])[j])
                    implies exists|b: int| 0 <= b < a && r[b] == prereq_ids(nodes[node_index(nodes, r[a])])[j] by {
                if a < s1.len() {
                    assert(r[a] == s1[a]);
                    let b = choose|b: int| 0 <= b < a && s1[b] == prereq_ids(nodes[node_index(nodes, s1[a])])[j];
                    assert(r[b] == s1[b]);
                } else {
                    let q = prereq_ids(nodes[node_index(nodes, r[a])])[j];
                    assert(r[a] == id);
                    assert(ps[j] == q);
                    assert(s1.contains(q));
                    let b = choose|b: int| 0 <= b < s1.len() && s1[b] == q;
                    assert(r[b] == s1[b]);
                }
            }
        }
    }
}

proof fn lemma_walk_all(nodes: Seq<NodeDef>, rank: spec_fn(Seq<char>) -> nat, ps: Seq<Seq<char>>, s: Seq<Seq<char>>, fuel: nat)
    requires
        ranked(nodes, rank),
        forall|q: int| 0 <= q < ps.len() && known(nodes, #[trigger] ps[q]) ==> fuel > rank(ps[q]),
    ensures
        walk_facts(nodes, s, walk_all(nodes, ps, s, fuel)),
        forall|t: int| s.len() <= t < walk_all(nodes, ps, s, fuel).len()
            ==> exists|q: int| 0 <= q < ps.len() && known(nodes, ps[q]) && rank(#[trigger] walk_all(nodes, ps, s, fuel)[t]) <= rank(#[trigger] ps[q]),
        forall|q: int| 0 <= q < ps.len() && known(nodes, #[trigger] ps[q]) ==> walk_all(nodes, ps, s, fuel).contains(ps[q]),
    decreases fuel, ps.len(),
{
    let r = walk_all(nodes, ps, s, fuel);
    if ps.len() == 0 {
        assert(r.subrange(0, s.len() as int) =~= s);
    } else {
        let p0 = ps[0];
        let d = ps.drop_first();
        lemma_walk(nodes, rank, p0, s, fuel);
        let s1 = walk(nodes, p0, s, fuel);
        assert forall|q: int| 0 <= q < d.len() && known(nodes, #[trigger] d[q]) implies fuel > rank(d[q]) by {
            assert(d[q] == ps[q + 1]);
        }
        lemma_walk_all(nodes, rank, d, s1, fuel);
        assert(r == walk_all(nodes, d, s1, fuel));
        assert(r.subrange(0, s.len() as int) =~= s1.subrange(0, s.len() as int)) by {
            assert(r.subrange(0, s1.len() as int) == s1);
        }
        assert forall|t: int| s.len() <= t < r.len()
            implies exists|q: int| 0 <= q < ps.len() && known(nodes, ps[q]) && rank(#[trigger] r[t]) <= rank(#[trigger] ps[q]) by {
            if t < s1.len() {
                assert(r.subrange(0, s1.len() as int)[t] == s1[t]);
                assert(r[t] == s1[t]);
                if !known(nodes, p0) || s.contains(p0) {
                    assert(s1.len() == s.len()) by {
                        lemma_node_index(nodes, p0);
                    }
                }
                assert(known(nodes, ps[0]) && rank(r[t]) <= rank(ps[0]));
            } else {
                let q = choose|q: int| 0 <= q < d.len() && known(nodes, d[q]) && rank(r[t]) <= rank(#[trigger] d[q]);
                assert(d[q] == ps[q + 1]);
                assert(known(nodes, ps[q + 1]) && rank(r[t]) <= rank(ps[q + 1]));
            }
        }
        assert forall|t: int| s.len() <= t < r.len() implies known(nodes, #[trigger] r[t]) by {
            if t < s1.len() {
                assert(r.subrange(0, s1.len() as int)[t] == s1[t]);
                assert(r[t] == s1[t]);
            }
        }
        assert forall|q: int| 0 <= q < ps.len() && known(nodes, #[trigger] ps[q]) implies r.contains(ps[q]) by {
            if q == 0 {
                let t = choose|t: int| 0 <= t < s1.len() && s1[t] == p0;
                assert(r.subrange(0, s1.len() as int)[t] == s1[t]);
                assert(r[t] == p0);
            } else {
                assert(ps[q] == d[q - 1]);
            }
        }
    }
}

/// The chain `tech_path` lists is in dependency order: each node once, each
/// listed, and every listed prerequisite of a node before the node itself;
/// a listed `id` comes last.
pub proof fn lemma_tech_path_ordered(nodes: Seq<NodeDef>, id: Seq<char>)
    requires
        acyclic(nodes),
    ensures
        dependency_ordered(nodes, walk(nodes, id, Seq::empty(), path_fuel(nodes, id))),
        known(nodes, id) ==> walk(nodes, id, Seq::empty(), path_fuel(nodes, id)).last() == id,
{
    let rank = choose|rank: spec_fn(Seq<char>) -> nat| ranked(nodes, rank);
    let f = path_fuel(nodes, id);
    lemma_walk(nodes, rank, id, Seq::empty(), f);
    assert(dependency_ordered(nodes, Seq::<Seq<char>>::empty()));
    lemma_node_index(nodes, id);
}

/// Node position `i` is the first definition of its id.
pub open spec fn canonical(nodes: Seq<NodeDef>, i: int) -> bool {
    node_index(nodes, nodes[i].id@) == i
}

/// In `done` (by node position), every finished first definition has each of
/// its listed prerequisites finished, at a lower level.
pub open spec fn levels_ok(nodes: Seq<NodeDef>, done: Seq<bool>, level: Seq<u64>) -> bool {
    forall|i: int, j: int|
        #![trigger done[i], prereq_ids(nodes[i])[j]]
        0 <= i < nodes.len() && done[i] && canonical(nodes, i) && 0 <= j < prereq_ids(nodes[i]).len()
            && node_index(nodes, prereq_ids(nodes[i])[j]) >= 0
            ==> done[node_index(nodes, prereq_ids(nodes[i])[j])]
                && level[node_index(nodes, prereq_ids(nodes[i])[j])] < level[i]
}

/// Every unfinished first definition has a listed prerequisite that is
/// unfinished too.
pub open spec fn stuck(nodes: Seq<NodeDef>, done: Seq<bool>) -> bool {
    forall|i: int| 0 <= i < nodes.len() && !done[i] && canonical(nodes, i) ==> exists|j: int|
        0 <= j < prereq_ids(nodes[i]).len() && node_index(nodes, #[trigger] prereq_ids(nodes[i])[j]) >= 0
            && !done[node_index(nodes, prereq_ids(nodes[i])[j])]
}

proof fn lemma_stuck_means_cycle(nodes: Seq<NodeDef>, done: Seq<bool>, rank: spec_fn(Seq<char>) -> nat, i: int)
    requires
        done.len() == nodes.len(),
        ranked(nodes, rank),
        stuck(nodes, done),
        0 <= i < nodes.len(),
        canonical(nodes, i),
    ensures
        done[i],
    decreases rank(nodes[i].id@),
{
    if done[i] {
        return;
    }
    let k = nodes[i].id@;
    let j = choose|j: int| 0 <= j < prereq_ids(nodes[i]).len() && node_index(nodes, #[trigger] prereq_ids(nodes[i])[j]) >= 0
        && !done[node_index(nodes, prereq_ids(nodes[i])[j])];
    let p = prereq_ids(nodes[i])[j];
    let t = node_index(nodes, p);
    lemma_node_index(nodes, p);
    assert(node_index(nodes, k) == i);
    assert(prereq_ids(nodes[node_index(nodes, k)])[j] == p);
    assert(rank(p) < rank(k));
    assert(nodes[t].id@ == p);
    lemma_stuck_means_cycle(nodes, done, rank, t);
}

/// The number of unfinished positions.
pub open spec fn undone(s: Seq<bool>) -> nat
    decreases s.len(),
{
    if s.len() == 0 {
        0
    } else {
        undone(s.drop_last()) + if s.last() { 0nat } else { 1nat }
    }
}

proof fn lemma_undone_update(s: Seq<bool>, i: int)
    requires
        0 <= i < s.len(),
        !s[i],
    ensures
        undone(s.update(i, true)) + 1 == undone(s),
    decreases s.len(),
{
    let u = s.update(i, true);
    if i < s.len() - 1 {
        assert(u.drop_last() =~= s.drop_last().update(i, true));
        lemma_undone_update(s.drop_last(), i);
    } else {
        assert(u.drop_last() =~= s.drop_last());
    }
}

proof fn lemma_undone_le(s: Seq<bool>)
    ensures
        undone(s) <= s.len(),
    decreases s.len(),
{
    if s.len() > 0 {
        lemma_undone_le(s.drop_last());
    }
}

proof fn lemma_undone_zero(s: Seq<bool>)
    ensures
        (undone(s) == 0) == (forall|i: int| 0 <= i < s.len() ==> #[trigger] s[i]),
    decreases s.len(),
{
    if s.len() > 0 {
        lemma_undone_zero(s.drop_last());
        if undone(s) == 0 {
            assert forall|i: int| 0 <= i < s.len() implies #[trigger] s[i] by {
                if i < s.len() - 1 {
                    assert(s.drop_last()[i] == s[i]);
                }
            }
        }
        if forall|i: int| 0 <= i < s.len() ==> #[trigger] s[i] {
            assert forall|i: int| 0 <= i < s.drop_last().len() implies #[trigger] s.drop_last()[i] by {
                assert(s.drop_last()[i] == s[i]);
            }
            assert(s[s.len() - 1]);
        }
    }
}

/// Checks the prerequisites of the first definition at position `i`:
/// `Some(top)` when each listed one is finished (`top` the highest of their
/// levels, 0 with none), `None` when one is unfinished.
fn ready_level(nodes: &Vec<NodeDef>, i: usize, done: &Vec<bool>, level: &Vec<u64>, bound: u64) -> (r: Option<u64>)
    requires
        i < nodes@.len(),
        done@.len() == nodes@.len(),
        level@.len() == nodes@.len(),
        forall|t: int| 0 <= t < level@.len() ==> #[trigger] level@[t] <= bound,
    ensures
        match r {
            Some(top) => forall|j: int| 0 <= j < prereq_ids(nodes@[i as int]).len()
                && node_index(nodes@, #[trigger] prereq_ids(nodes@[i as int])[j]) >= 0
                ==> done@[node_index(nodes@, prereq_ids(nodes@[i as int])[j])]
                    && level@[node_index(nodes@, prereq_ids(nodes@[i as int])[j])] <= top,
            None => exists|j: int| 0 <= j < prereq_ids(nodes@[i as int]).len()
                && node_index(nodes@, #[trigger] prereq_ids(nodes@[i as int])[j]) >= 0
                && !done@[node_index(nodes@, prereq_ids(nodes@[i as int])[j])],
        },
        r matches Some(top) ==> top <= bound,
{
    let ps = &nodes[i].prerequisites;
    let ghost pv = prereq_ids(nodes@[i as int]);
    let mut top: u64 = 0;
    let mut j: usize = 0;
    while j < ps.len()
        invariant
            *ps == nodes@[i as int].prerequisites,
            pv == prereq_ids(nodes@[i as int]),
            pv.len() == ps@.len(),
            done@.len() == nodes@.len(),
            level@.len() == nodes@.len(),
            j <= ps@.len(),
            forall|jj: int| 0 <= jj < j && node_index(nodes@, #[trigger] pv[jj]) >= 0
                ==> done@[node_index(nodes@, pv[jj])] && level@[node_index(nodes@, pv[jj])] <= top,
            forall|t: int| 0 <= t < level@.len() ==> #[trigger] level@[t] <= bound,
            top <= bound,
        decreases ps@.len() - j,
    {
        assert(pv[j as int] == ps@[j as int]@);
        match find_node(nodes, ps[j].as_str()) {
            Some(t) => {
                if !done[t] {
                    return None;
                }
                if level[t] > top {
                    top = level[t];
                }
            },
            None => {},
        }
        j += 1;
    }
    Some(top)
}

/// Looks for a ranking of the nodes: `Some` with a level per node position
/// exactly when the prerequisites have no cycle.
pub fn find_levels(nodes: &Vec<NodeDef>) -> (r: Option<Vec<u64>>)
    ensures
        r is Some <==> acyclic(nodes@),
        r matches Some(level) ==> level@.len() == nodes@.len()
            && ranked(nodes@, |k: Seq<char>| if node_index(nodes@, k) >= 0 { level@[node_index(nodes@, k)] as nat } else { 0nat }),
{
    let n = nodes.len();
    let mut done: Vec<bool> = Vec::new();
    let mut level: Vec<u64> = Vec::new();
    let mut i: usize = 0;
    while i < n
        invariant
            n == nodes@.len(),
            i <= n,
            done@.len() == i,
            level@.len() == i,
            forall|t: int| 0 <= t < i ==> (#[trigger] done@[t]) == !canonical(nodes@, t),
            forall|t: int| 0 <= t < i ==> (#[trigger] level@[t]) == 0,
        decreases n - i,
    {
        let f = find_node(nodes, nodes[i].id.as_str());
        let is_first = match f {
            Some(t) => t == i,
            None => false,
        };
        proof {
            lemma_node_index(nodes@, nodes@[i as int].id@);
        }
        done.push(!is_first);
        level.push(0);
        i += 1;
    }
    let mut steps: u64 = 0;
    proof {
        assert(levels_ok(nodes@, done@, level@));
        lemma_undone_le(done@);
    }
    loop
        invariant
            n == nodes@.len(),
            done@.len() == n,
            level@.len() == n,
            forall|t: int| 0 <= t < n && !canonical(nodes@, t) ==> #[trigger] done@[t],
            levels_ok(nodes@, done@, level@),
            forall|t: int| 0 <= t < n ==> #[trigger] level@[t] <= steps,
            steps + undone(done@) <= n,
        decreases undone(done@),
    {
        let ghost start = done@;
        let mut progress = false;
        let mut i: usize = 0;
        while i < n
            invariant
                n == nodes@.len(),
                done@.len() == n,
                level@.len() == n,
                forall|t: int| 0 <= t < n && !canonical(nodes@, t) ==> #[trigger] done@[t],
                levels_ok(nodes@, done@, level@),
                forall|t: int| 0 <= t < n ==> #[trigger] level@[t] <= steps,
                steps + undone(done@) <= n,
                i <= n,
                !progress ==> done@ == start,
                progress ==> undone(done@) < undone(start),
                !progress ==> forall|t: int| 0 <= t < i && !done@[t] && canonical(nodes@, t) ==> exists|j: int|
                    0 <= j < prereq_ids(nodes@[t]).len() && node_index(nodes@, #[trigger] prereq_ids(nodes@[t])[j]) >= 0
                        && !done@[node_index(nodes@, prereq_ids(nodes@[t])[j])],
            decreases n - i,
        {
            if !done[i] {
                match ready_level(nodes, i, &done, &level, steps) {
                    Some(top) => {
                        let ghost d0 = done@;
                        let ghost l0 = level@;
                        proof {
                            lemma_undone_update(d0, i as int);
                        }
                        done.set(i, true);
                        level.set(i, top + 1);
                        proof {
                            assert(canonical(nodes@, i as int));
                            assert forall|a: int, j: int|
                                #![trigger done@[a], prereq_ids(nodes@[a])[j]]
                                0 <= a < nodes@.len() && done@[a] && canonical(nodes@, a) && 0 <= j < prereq_ids(nodes@[a]).len()
                                    && node_index(nodes@, prereq_ids(nodes@[a])[j]) >= 0
                                    implies done@[node_index(nodes@, prereq_ids(nodes@[a])[j])]
                                        && level@[node_index(nodes@, prereq_ids(nodes@[a])[j])] < level@[a] by {
                                let t = node_index(nodes@, prereq_ids(nodes@[a])[j]);
                                lemma_node_index(nodes@, prereq_ids(nodes@[a])[j]);
                                if a == i {
                                    assert(d0[t]);
                                    assert(t != i);
                                    assert(l0[t] <= top);
                                } else {
                                    assert(d0[a]);
                                    assert(d0[t]);
                                    assert(t != i);
                                }
                            }
                        }
                        progress = true;
                        steps = steps + 1;
                    },
                    None => {},
                }
            }
            i += 1;
        }
        if !progress {
            proof {
                lemma_undone_zero(done@);
            }
            if all_done(&done) {
                proof {
                    let rank = |k: Seq<char>| if node_index(nodes@, k) >= 0 { level@[node_index(nodes@, k)] as nat } else { 0nat };
                    assert forall|k: Seq<char>, j: int|
                        #![trigger node_index(nodes@, k), prereq_ids(nodes@[node_index(nodes@, k)])[j]]
                        node_index(nodes@, k) >= 0 && 0 <= j < prereq_ids(nodes@[node_index(nodes@, k)]).len()
                            && node_index(nodes@, prereq_ids(nodes@[node_index(nodes@, k)])[j]) >= 0
                            implies rank(prereq_ids(nodes@[node_index(nodes@, k)])[j]) < rank(k) by {
                        let a = node_index(nodes@, k);
                        lemma_node_index(nodes@, k);
                        assert(canonical(nodes@, a));
                        assert(done@[a]);
                    }
                    assert(ranked(nodes@, rank));
                }
                return Some(level);
            } else {
                proof {
                    assert(stuck(nodes@, done@));
                    if acyclic(nodes@) {
                        let rank = choose|rank: spec_fn(Seq<char>) -> nat| ranked(nodes@, rank);
                        let t = choose|t: int| 0 <= t < n && !done@[t];
                        assert(canonical(nodes@, t));
                        lemma_stuck_means_cycle(nodes@, done@, rank, t);
                    }
                }
                return None;
            }
        }
    }
}

fn all_done(done: &Vec<bool>) -> (b: bool)
    ensures
        b == forall|i: int| 0 <= i < done@.len() ==> #[trigger] done@[i],
{
    let mut i: usize = 0;
    while i < done.len()
        invariant
            i <= done@.len(),
            forall|t: int| 0 <= t < i ==> #[trigger] done@[t],
        decreases done@.len() - i,
    {
        if !done[i] {
            return false;
        }
        i += 1;
    }
    true
}

/// The prerequisite chain of node `id` when the prerequisites have no
/// cycle (see `tech_path`); `None` when they have one.
pub fn checked_tech_path(nodes: &Vec<NodeDef>, id: &str) -> (r: Option<Vec<String>>)
    ensures
        r is Some <==> acyclic(nodes@),
        r matches Some(path) ==> str_views(path@) == walk(nodes@, id@, Seq::empty(), path_fuel(nodes@, id@)),
{
    match find_levels(nodes) {
        Some(_) => Some(tech_path(nodes, id)),
        None => None,
    }
}

} // verus!
