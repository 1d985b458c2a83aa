//! Network membership decisions: which network a newly laid cable joins (and
//! which networks it merges), and how a network regroups when a cable goes.

use vstd::prelude::*;
use crate::components::{Segment, find_segment_components, flatten, linked, apart};
use crate::routing::Cell;
use vstd::multiset::Multiset;

verus! {

/// A network next to a new cable, with its member count.
#[derive(Clone, Copy, Debug, PartialEq, Eq, Structural)]
pub struct NetSize {
    pub net: u64,
    pub members: usize,
}

/// What a newly laid cable does to the networks it touches.
#[derive(Debug)]
pub enum JoinPlan {
    /// No network is adjacent: the cable starts a network of its own.
    NewNetwork,
    /// The cable joins `survivor`; every network in `absorbed` moves its
    /// members into `survivor` and is dissolved.
    Join { survivor: u64, absorbed: Vec<u64> },
}

/// `c[k]` is the first of the largest candidates.
pub open spec fn first_largest(c: Seq<NetSize>, k: int) -> bool {
    &&& 0 <= k < c.len()
    &&& forall|j: int| 0 <= j < c.len() ==> (#[trigger] c[j]).members <= c[k].members
    &&& forall|j: int| 0 <= j < k ==> (#[trigger] c[j]).members < c[k].members
}

/// Some candidate names network `n`.
pub open spec fn names_net(c: Seq<NetSize>, n: u64) -> bool {
    exists|j: int| 0 <= j < c.len() && (#[trigger] c[j]).net == n
}

fn has_net(v: &Vec<u64>, x: u64) -> (b: bool)
    ensures
        b == v@.contains(x),
{
    let mut i: usize = 0;
    while i < v.len()
        invariant
            i <= v@.len(),
            forall|j: int| 0 <= j < i ==> v@[j] != x,
        decreases v@.len() - i,
    {
        if v[i] == x {
            return true;
        }
        i += 1;
    }
    false
}

/// Chooses the network a new cable joins. With no adjacent network the cable
/// starts a new one. Otherwise the largest adjacent network survives (the
/// first listed among equally large ones) and every other adjacent network,
/// each named once, is absorbed into it.
pub fn join_plan(candidates: &Vec<NetSize>) -> (p: JoinPlan)
    ensures
        (p is NewNetwork) == (candidates@.len() == 0),
        p matches JoinPlan::Join { survivor, absorbed } ==> {
            &&& exists|k: int| first_largest(candidates@, k) && candidates@[k].net == survivor
            &&& absorbed@.no_duplicates()
            &&& forall|n: u64| absorbed@.contains(n) <==> (n != survivor && names_net(candidates@, n))
        },
{
    let n = candidates.len();
    if n == 0 {
        return JoinPlan::NewNetwork;
    }
    let mut k: usize = 0;
    let mut i: usize = 1;
    while i < n
        invariant
            n == candidates@.len(),
            0 <= k < i <= n,
            forall|j: int| 0 <= j < i ==> (#[trigger] candidates@[j]).members <= candidates@[k as int].members,
            forall|j: int| 0 <= j < k ==> (#[trigger] candidates@[j]).members < candidates@[k as int].members,
        decreases n - i,
    {
        if candidates[i].members > candidates[k].members {
            k = i;
        }
        i += 1;
    }
    let survivor = candidates[k].net;
    assert(first_largest(candidates@, k as int));
    let mut absorbed: Vec<u64> = Vec::new();
    let mut i: usize = 0;
    while i < n
        invariant
            n == candidates@.len(),
            i <= n,
            absorbed@.no_duplicates(),
            forall|x: u64| absorbed@.contains(x) <==> (x != survivor && exists|j: int| 0 <= j < i && (#[trigger] candidates@[j]).net == x),
        decreases n - i,
    {
        let x = candidates[i].net;
        if x != survivor && !has_net(&absorbed, x) {
            let ghost a0 = absorbed@;
            absorbed.push(x);
            proof {
                assert forall|y: u64| absorbed@.contains(y) <==> (y != survivor && exists|j: int| 0 <= j < i + 1 && (#[trigger] candidates@[j]).net == y) by {
                    if absorbed@.contains(y) {
                        let t = choose|t: int| 0 <= t < absorbed@.len() && absorbed@[t] == y;
                        if t < a0.len() {
                            assert(a0.contains(y));
                        } else {
                            assert(candidates@[i as int].net == y);
                        }
                    }
                    if y != survivor && exists|j: int| 0 <= j < i + 1 && (#[trigger] candidates@[j]).net == y {
                        let j = choose|j: int| 0 <= j < i + 1 && (#[trigger] candidates@[j]).net == y;
                        if j < i {
                            assert(a0.contains(y));
                            let t = choose|t: int| 0 <= t < a0.len() && a0[t] == y;
                            assert(absorbed@[t] == y);
                        } else {
                            assert(absorbed@[a0.len() as int] == y);
                        }
                    }
                }
            }
        } else {
            proof {
                assert forall|y: u64| absorbed@.contains(y) <==> (y != survivor && exists|j: int| 0 <= j < i + 1 && (#[trigger] candidates@[j]).net == y) by {
                    if y != survivor && exists|j: int| 0 <= j < i + 1 && (#[trigger] candidates@[j]).net == y {
                        let j = choose|j: int| 0 <= j < i + 1 && (#[trigger] candidates@[j]).net == y;
                        if j == i {
                            assert(absorbed@.contains(y));
                        }
                    }
                }
            }
        }
        i += 1;
    }
    JoinPlan::Join { survivor, absorbed }
}

/// A cable of some network.
#[derive(Clone, Copy, Debug, PartialEq, Eq, Structural)]
pub struct CableRec {
    pub seg: Segment,
    pub net: u64,
}

/// A machine port at a cell, with the machine it belongs to and the network
/// it is a member of, if any.
#[derive(Clone, Copy, Debug, PartialEq, Eq, Structural)]
pub struct PortRec {
    pub id: u64,
    pub machine: u64,
    pub cell: Cell,
    pub net: Option<u64>,
}

/// What removing the cables at a cell does to their network.
#[derive(Debug)]
pub enum RemovalPlan {
    /// No cable ends at the cell: nothing changes.
    Untouched,
    /// The cables in `removed` go and no cable is left at all: the ports in
    /// `unlink` leave `net`, and `net` is dissolved.
    Dissolve { net: u64, removed: Vec<u64>, unlink: Vec<u64> },
    /// The cables in `removed` go and the rest fall into the connected
    /// `parts`, largest first. `parts[0]` stays in `net`; each further part
    /// becomes a network of its own. Each port of `net` joins the network of
    /// the part it lies on (`Some(index)`) or leaves (`None`).
    Regroup { net: u64, removed: Vec<u64>, parts: Vec<Vec<Segment>>, relink: Vec<(u64, Option<usize>)> },
}

/// The segment ends at cell `c`.
pub open spec fn ends_at(s: Segment, c: Cell) -> bool {
    s.a == c || s.b == c
}

/// The ids of the cables that end at `pos`, in order.
pub open spec fn hit_ids(c: Seq<CableRec>, pos: Cell) -> Seq<u64>
    decreases c.len(),
{
    if c.len() == 0 {
        Seq::empty()
    } else if ends_at(c.last().seg, pos) {
        hit_ids(c.drop_last(), pos).push(c.last().seg.id)
    } else {
        hit_ids(c.drop_last(), pos)
    }
}

/// The segments of the cables that do not end at `pos`, in order.
pub open spec fn kept(c: Seq<CableRec>, pos: Cell) -> Seq<Segment>
    decreases c.len(),
{
    if c.len() == 0 {
        Seq::empty()
    } else if ends_at(c.last().seg, pos) {
        kept(c.drop_last(), pos)
    } else {
        kept(c.drop_last(), pos).push(c.last().seg)
    }
}

/// `c[k]` is the first cable that ends at `pos`.
pub open spec fn first_hit(c: Seq<CableRec>, pos: Cell, k: int) -> bool {
    &&& 0 <= k < c.len()
    &&& ends_at(c[k].seg, pos)
    &&& forall|j: int| 0 <= j < k ==> !ends_at(#[trigger] c[j].seg, pos)
}

/// The ports that belong to network `net`, in order.
pub open spec fn members_of(p: Seq<PortRec>, net: u64) -> Seq<PortRec>
    decreases p.len(),
{
    if p.len() == 0 {
        Seq::empty()
    } else if p.last().net == Some(net) {
        members_of(p.drop_last(), net).push(p.last())
    } else {
        members_of(p.drop_last(), net)
    }
}

/// Some segment of `part` ends at `c`.
pub open spec fn on_part(part: Seq<Segment>, c: Cell) -> bool {
    exists|t: int| 0 <= t < part.len() && ends_at(#[trigger] part[t], c)
}

/// `parts` are the connected components of `segs`: together they hold exactly
/// `segs`, each is nonempty and connected, no two touch, and they come
/// largest first.
pub open spec fn components_of(parts: Seq<Vec<Segment>>, segs: Seq<Segment>) -> bool {
    &&& flatten(parts).to_multiset() == segs.to_multiset()
    &&& forall|i: int| 0 <= i < parts.len() ==> (#[trigger] parts[i])@.len() >= 1 && linked(parts[i]@)
    &&& forall|i: int, j: int| 0 <= i < parts.len() && 0 <= j < parts.len() && i != j ==> apart(#[trigger] parts[i]@, #[trigger] parts[j]@)
    &&& forall|i: int, j: int| 0 <= i < j < parts.len() ==> (#[trigger] parts[i])@.len() >= (#[trigger] parts[j])@.len()
}

/// Where a port of the regrouped network goes: onto the part it lies on, or
/// out of every network.
pub open spec fn placed(parts: Seq<Vec<Segment>>, c: Cell, r: Option<usize>) -> bool {
    match r {
        Some(k) => k < parts.len() && on_part(parts[k as int]@, c),
        None => forall|k: int| 0 <= k < parts.len() ==> !on_part(#[trigger] parts[k]@, c),
    }
}

proof fn lemma_flatten_remove(s: Seq<Vec<Segment>>, m: int)
    requires
        0 <= m < s.len(),
    ensures
        flatten(s).to_multiset() == flatten(s.remove(m)).to_multiset().add(s[m]@.to_multiset()),
    decreases s.len(),
{
    broadcast use vstd::seq_lib::lemma_multiset_commutative;
    let last = s.len() - 1;
    if m == last {
        assert(s.remove(m) =~= s.drop_last());
    } else {
        let d = s.drop_last();
        lemma_flatten_remove(d, m);
        assert(s.remove(m).drop_last() =~= d.remove(m));
        assert(s.remove(m).last() == s.last());
        assert(d[m] == s[m]);
        assert(flatten(s.remove(m)) == flatten(d.remove(m)) + s.last()@);
        assert(flatten(s) == flatten(d) + s.last()@);
    }
}

/// Reorders components largest first, keeping each one whole.
fn largest_first(comps: Vec<Vec<Segment>>) -> (out: Vec<Vec<Segment>>)
    requires
        forall|i: int| 0 <= i < comps@.len() ==> (#[trigger] comps@[i])@.len() >= 1 && linked(comps@[i]@),
        forall|i: int, j: int| 0 <= i < comps@.len() && 0 <= j < comps@.len() && i != j ==> apart(#[trigger] comps@[i]@, #[trigger] comps@[j]@),
    ensures
        components_of(out@, flatten(comps@)),
        out@.len() == comps@.len(),
{
    broadcast use vstd::seq_lib::lemma_multiset_commutative;
    let ghost total = flatten(comps@).to_multiset();
    let mut rest = comps;
    let mut out: Vec<Vec<Segment>> = Vec::new();
    let ghost n0 = rest@.len();
    proof {
        broadcast use vstd::multiset::group_multiset_axioms;
        lemma_flatten_empty(out@);
        assert(flatten(out@).to_multiset().add(flatten(rest@).to_multiset()) =~= total);
    }
    while rest.len() > 0
        invariant
            out@.len() + rest@.len() == n0,
            flatten(out@).to_multiset().add(flatten(rest@).to_multiset()) == total,
            forall|i: int| 0 <= i < out@.len() ==> (#[trigger] out@[i])@.len() >= 1 && linked(out@[i]@),
            forall|i: int| 0 <= i < rest@.len() ==> (#[trigger] rest@[i])@.len() >= 1 && linked(rest@[i]@),
            forall|i: int, j: int| 0 <= i < out@.len() && 0 <= j < out@.len() && i != j ==> apart(#[trigger] out@[i]@, #[trigger] out@[j]@),
            forall|i: int, j: int| 0 <= i < rest@.len() && 0 <= j < rest@.len() && i != j ==> apart(#[trigger] rest@[i]@, #[trigger] rest@[j]@),
            forall|i: int, j: int| 0 <= i < out@.len() && 0 <= j < rest@.len() ==> apart(#[trigger] out@[i]@, #[trigger] rest@[j]@) && apart(rest@[j]@, out@[i]@),
            forall|i: int, j: int| 0 <= i < j < out@.len() ==> (#[trigger] out@[i])@.len() >= (#[trigger] out@[j])@.len(),
            forall|i: int, j: int| 0 <= i < out@.len() && 0 <= j < rest@.len() ==> (#[trigger] out@[i])@.len() >= (#[trigger] rest@[j])@.len(),
        decreases rest@.len(),
    {
        let mut m: usize = 0;
        let mut i: usize = 1;
        while i < rest.len()
            invariant
                0 <= m < rest@.len(),
                1 <= i <= rest@.len(),
                m < i,
                forall|j: int| 0 <= j < i ==> (#[trigger] rest@[j])@.len() <= rest@[m as int]@.len(),
            decreases rest@.len() - i,
        {
            if rest[i].len() > rest[m].len() {
                m = i;
            }
            i += 1;
        }
        let ghost r0 = rest@;
        let ghost o0 = out@;
        proof {
            lemma_flatten_remove(r0, m as int);
        }
        let x = rest.remove(m);
        out.push(x);
        proof {
            assert(rest@ == r0.remove(m as int));
            assert(out@.drop_last() =~= o0);
            assert(flatten(out@) == flatten(o0) + x@);
            assert(flatten(out@).to_multiset().add(flatten(rest@).to_multiset()) =~= total) by {
                broadcast use vstd::multiset::group_multiset_axioms;
                vstd::seq_lib::lemma_multiset_commutative(flatten(o0), x@);
                assert(flatten(out@).to_multiset() == flatten(o0).to_multiset().add(x@.to_multiset()));
            }
            assert forall|a: int, b: int| 0 <= a < out@.len() && 0 <= b < rest@.len() implies apart(#[trigger] out@[a]@, #[trigger] rest@[b]@) && apart(rest@[b]@, out@[a]@) by {
                let bb = if b < m { b } else { b + 1 };
                assert(rest@[b] == r0[bb]);
                if a < o0.len() {
                    assert(out@[a] == o0[a]);
                } else {
                    assert(out@[a] == r0[m as int]);
                    assert(bb != m);
                }
            }
            assert forall|a: int, b: int| 0 <= a < out@.len() && 0 <= b < out@.len() && a != b implies apart(#[trigger] out@[a]@, #[trigger] out@[b]@) by {
                if a < o0.len() && b < o0.len() {
                } else if a < o0.len() {
                    assert(out@[b] == r0[m as int]);
                    assert(out@[a] == o0[a]);
                } else {
                    assert(out@[a] == r0[m as int]);
                    assert(out@[b] == o0[b]);
                }
            }
            assert forall|a: int, b: int| 0 <= a < rest@.len() && 0 <= b < rest@.len() && a != b implies apart(#[trigger] rest@[a]@, #[trigger] rest@[b]@) by {
                let aa = if a < m { a } else { a + 1 };
                let bb = if b < m { b } else { b + 1 };
                assert(rest@[a] == r0[aa] && rest@[b] == r0[bb]);
            }
            assert forall|a: int, b: int| 0 <= a < out@.len() && 0 <= b < rest@.len() implies (#[trigger] out@[a])@.len() >= (#[trigger] rest@[b])@.len() by {
                let bb = if b < m { b } else { b + 1 };
                assert(rest@[b] == r0[bb]);
                if a < o0.len() {
                    assert(out@[a] == o0[a]);
                } else {
                    assert(out@[a] == r0[m as int]);
                }
            }
            assert forall|a: int, b: int| 0 <= a < b < out@.len() implies (#[trigger] out@[a])@.len() >= (#[trigger] out@[b])@.len() by {
                if b < o0.len() {
                    assert(out@[a] == o0[a] && out@[b] == o0[b]);
                } else {
                    assert(out@[a] == o0[a]);
                    assert(out@[b] == r0[m as int]);
                }
            }
            assert forall|a: int| 0 <= a < rest@.len() implies (#[trigger] rest@[a])@.len() >= 1 && linked(rest@[a]@) by {
                let aa = if a < m { a } else { a + 1 };
                assert(rest@[a] == r0[aa]);
            }
            assert forall|a: int| 0 <= a < out@.len() implies (#[trigger] out@[a])@.len() >= 1 && linked(out@[a]@) by {
                if a < o0.len() {
                    assert(out@[a] == o0[a]);
                }
            }
        }
    }
    proof {
        broadcast use vstd::multiset::group_multiset_axioms;
        lemma_flatten_empty(rest@);
        assert(flatten(out@).to_multiset() =~= total);
    }
    out
}

proof fn lemma_flatten_empty(s: Seq<Vec<Segment>>)
    requires
        s.len() == 0,
    ensures
        flatten(s).to_multiset() =~= Multiset::empty(),
{
    assert(flatten(s) =~= Seq::<Segment>::empty());
    vstd::seq_lib::to_multiset_len(flatten(s));
    vstd::multiset::lemma_multiset_empty_len(flatten(s).to_multiset());
}

/// The index of the part that has a segment ending at `c`, if any.
pub(crate) fn part_of(parts: &Vec<Vec<Segment>>, c: Cell) -> (r: Option<usize>)
    ensures
        placed(parts@, c, r),
{
    let mut i: usize = 0;
    while i < parts.len()
        invariant
            i <= parts@.len(),
            forall|k: int| 0 <= k < i ==> !on_part(#[trigger] parts@[k]@, c),
        decreases parts@.len() - i,
    {
        let part = &parts[i];
        let mut j: usize = 0;
        while j < part.len()
            invariant
                i < parts@.len(),
                part == parts@[i as int],
                j <= part@.len(),
                forall|t: int| 0 <= t < j ==> !ends_at(#[trigger] part@[t], c),
            decreases part@.len() - j,
        {
            if part[j].a == c || part[j].b == c {
                assert(ends_at(parts@[i as int]@[j as int], c));
                return Some(i);
            }
            j += 1;
        }
        i += 1;
    }
    None
}

/// Plans the removal of every cable that ends at `pos`. `cables` are all the
/// cables of one kind, `ports` all ports of that kind. Nothing changes when no
/// cable ends at `pos`. Otherwise those cables go, and their network is the
/// one of the first of them. If no cable is left at all, that network's ports
/// leave it and it is dissolved. Otherwise the remaining cables are split into
/// connected parts, largest first, and each port of the network is placed on
/// the part it lies on, or leaves when it lies on none.
pub fn plan_removal(cables: &Vec<CableRec>, pos: Cell, ports: &Vec<PortRec>) -> (p: RemovalPlan)
    ensures
        (p is Untouched) == (hit_ids(cables@, pos).len() == 0),
        p matches RemovalPlan::Dissolve { net, removed, unlink } ==> {
            &&& exists|k: int| first_hit(cables@, pos, k) && cables@[k].net == net
            &&& removed@ == hit_ids(cables@, pos)
            &&& kept(cables@, pos).len() == 0
            &&& unlink@ == members_of(ports@, net).map_values(|q: PortRec| q.id)
        },
        p matches RemovalPlan::Regroup { net, removed, parts, relink } ==> {
            &&& exists|k: int| first_hit(cables@, pos, k) && cables@[k].net == net
            &&& removed@ == hit_ids(cables@, pos)
            &&& kept(cables@, pos).len() > 0
            &&& parts@.len() >= 1
            &&& components_of(parts@, kept(cables@, pos))
            &&& relink@.len() == members_of(ports@, net).len()
            &&& forall|t: int| 0 <= t < relink@.len() ==> (#[trigger] relink@[t]).0 == members_of(ports@, net)[t].id
                && placed(parts@, members_of(ports@, net)[t].cell, relink@[t].1)
        },
{
    let n = cables.len();
    let mut removed: Vec<u64> = Vec::new();
    let mut rest: Vec<Segment> = Vec::new();
    let mut net: u64 = 0;
    let mut found = false;
    let mut i: usize = 0;
    while i < n
        invariant
            n == cables@.len(),
            i <= n,
            removed@ == hit_ids(cables@.subrange(0, i as int), pos),
            rest@ == kept(cables@.subrange(0, i as int), pos),
            found == (removed@.len() > 0),
            found ==> exists|k: int| first_hit(cables@, pos, k) && k < i && cables@[k].net == net,
            !found ==> forall|j: int| 0 <= j < i ==> !ends_at(#[trigger] cables@[j].seg, pos),
        decreases n - i,
    {
        let c = cables[i];
        proof {
            assert(cables@.subrange(0, i + 1).drop_last() =~= cables@.subrange(0, i as int));
            assert(cables@.subrange(0, i + 1).last() == c);
        }
        if c.seg.a == pos || c.seg.b == pos {
            if !found {
                net = c.net;
                found = true;
                assert(first_hit(cables@, pos, i as int));
            }
            removed.push(c.seg.id);
        } else {
            rest.push(c.seg);
        }
        i += 1;
    }
    proof {
        assert(cables@.subrange(0, n as int) =~= cables@);
    }
    if !found {
        return RemovalPlan::Untouched;
    }
    let ghost mem = members_of(ports@, net);
    if rest.len() == 0 {
        let mut unlink: Vec<u64> = Vec::new();
        let mut j: usize = 0;
        while j < ports.len()
            invariant
                j <= ports@.len(),
                unlink@ == members_of(ports@.subrange(0, j as int), net).map_values(|q: PortRec| q.id),
            decreases ports@.len() - j,
        {
            let q = ports[j];
            proof {
                assert(ports@.subrange(0, j + 1).drop_last() =~= ports@.subrange(0, j as int));
                assert(ports@.subrange(0, j + 1).last() == q);
            }
            if q.net == Some(net) {
                let ghost u0 = unlink@;
                unlink.push(q.id);
                proof {
                    let m1 = members_of(ports@.subrange(0, j + 1), net);
                    assert(m1 == members_of(ports@.subrange(0, j as int), net).push(q));
                    assert(unlink@ =~= m1.map_values(|q: PortRec| q.id));
                }
            } else {
                proof {
                    assert(members_of(ports@.subrange(0, j + 1), net) == members_of(ports@.subrange(0, j as int), net));
                }
            }
            j += 1;
        }
        proof {
            assert(ports@.subrange(0, ports@.len() as int) =~= ports@);
        }
        return RemovalPlan::Dissolve { net, removed, unlink };
    }
    let ghost kept_segs = rest@;
    let comps = find_segment_components(rest);
    proof {
        assert(comps@.len() >= 1) by {
            if comps@.len() == 0 {
                assert(flatten(comps@) =~= Seq::<Segment>::empty());
                vstd::seq_lib::to_multiset_len(flatten(comps@));
                vstd::seq_lib::to_multiset_len(kept_segs);
            }
        }
    }
    let parts = largest_first(comps);
    let mut relink: Vec<(u64, Option<usize>)> = Vec::new();
    let mut j: usize = 0;
    while j < ports.len()
        invariant
            j <= ports@.len(),
            relink@.len() == members_of(ports@.subrange(0, j as int), net).len(),
            forall|t: int| 0 <= t < relink@.len() ==> (#[trigger] relink@[t]).0 == members_of(ports@.subrange(0, j as int), net)[t].id
                && placed(parts@, members_of(ports@.subrange(0, j as int), net)[t].cell, relink@[t].1),
        decreases ports@.len() - j,
    {
        let q = ports[j];
        proof {
            assert(ports@.subrange(0, j + 1).drop_last() =~= ports@.subrange(0, j as int));
            assert(ports@.subrange(0, j + 1).last() == q);
        }
        let ghost m0 = members_of(ports@.subrange(0, j as int), net);
        if q.net == Some(net) {
            let r = part_of(&parts, q.cell);
            relink.push((q.id, r));
            proof {
                let m1 = members_of(ports@.subrange(0, j + 1), net);
                assert(m1 == m0.push(q));
                assert forall|t: int| 0 <= t < relink@.len() implies (#[trigger] relink@[t]).0 == m1[t].id
                    && placed(parts@, m1[t].cell, relink@[t].1) by {
                    if t < m0.len() {
                        assert(m1[t] == m0[t]);
                    }
                }
            }
        } else {
            proof {
                assert(members_of(ports@.subrange(0, j + 1), net) == m0);
            }
        }
        j += 1;
    }
    proof {
        assert(ports@.subrange(0, ports@.len() as int) =~= ports@);
    }
    RemovalPlan::Regroup { net, removed, parts, relink }
}

/// After a regroup, a cell lies on at most one part: parts never touch, so a
/// port can belong to only one of the resulting networks.
pub proof fn lemma_cell_on_one_part(parts: Seq<Vec<Segment>>, segs: Seq<Segment>, c: Cell, i: int, j: int)
    requires
        components_of(parts, segs),
        0 <= i < parts.len(),
        0 <= j < parts.len(),
        on_part(parts[i]@, c),
        on_part(parts[j]@, c),
    ensures
        i == j,
{
    if i != j {
        let s = choose|t: int| 0 <= t < parts[i]@.len() && ends_at(#[trigger] parts[i]@[t], c);
        let u = choose|t: int| 0 <= t < parts[j]@.len() && ends_at(#[trigger] parts[j]@[t], c);
        assert(apart(parts[i]@, parts[j]@));
        assert(!crate::components::touches(parts[i]@[s], parts[j]@[u]));
    }
}

} // verus!
