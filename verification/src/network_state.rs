//! The cable networks of one kind (logistics or power) as a state: the laid
//! cables with their networks, the machine ports with theirs, and the live
//! networks. Laying a cable, cutting the cables at a cell and re-reading the
//! ports' memberships each move it to its next state.

use vstd::prelude::*;
use crate::components::Segment;
use crate::components::{apart, flatten, touches};
use crate::membership::{
    CableRec, JoinPlan, NetSize, PortRec, RemovalPlan, components_of, ends_at, first_hit, first_largest, hit_ids,
    join_plan, kept, lemma_cell_on_one_part, on_part, part_of, plan_removal, placed,
};
use crate::routing::Cell;

verus! {

/// The networks of one cable kind.
pub struct NetworkState {
    /// Every laid cable, with the network it belongs to.
    pub cables: Vec<CableRec>,
    /// Every machine port, with the network it is a member of, if any.
    pub ports: Vec<PortRec>,
    /// The live networks, each once.
    pub networks: Vec<u64>,
    /// The next unused id; networks and cables draw their ids from it.
    pub next_id: u64,
}

/// The number of members (cables and ports) of network `n`.
pub open spec fn member_count(cables: Seq<CableRec>, ports: Seq<PortRec>, n: u64) -> nat {
    cables.filter(|c: CableRec| c.net == n).len() + ports.filter(|p: PortRec| p.net == Some(n)).len()
}

/// The network of the last cable (in `c`'s order) with an endpoint at `p`.
pub open spec fn endpoint_net(c: Seq<CableRec>, p: Cell) -> Option<u64>
    decreases c.len(),
{
    if c.len() == 0 {
        None
    } else if ends_at(c.last().seg, p) {
        Some(c.last().net)
    } else {
        endpoint_net(c.drop_last(), p)
    }
}

/// The networks of the member ports of machine `m`, in port order.
pub open spec fn machine_nets(p: Seq<PortRec>, m: u64) -> Seq<u64>
    decreases p.len(),
{
    if p.len() == 0 {
        Seq::empty()
    } else {
        let q = p.last();
        machine_nets(p.drop_last(), m) + if q.machine == m && q.net is Some {
            seq![q.net->0]
        } else {
            Seq::empty()
        }
    }
}

/// For each port flagged in `near` (among the first `k`), the networks of its machine.
pub open spec fn near_nets(p: Seq<PortRec>, near: Seq<bool>, k: int) -> Seq<u64>
    decreases k,
{
    if k <= 0 {
        Seq::empty()
    } else {
        near_nets(p, near, k - 1) + if near[k - 1] {
            machine_nets(p, p[k - 1].machine)
        } else {
            Seq::empty()
        }
    }
}

/// The option as a sequence of at most one element.
pub open spec fn opt_seq(o: Option<u64>) -> Seq<u64> {
    match o {
        Some(n) => seq![n],
        None => Seq::empty(),
    }
}

/// The networks a new cable from `from` to `to` touches: those of the cables
/// ending at either end, and those of the machines whose ports lie near an
/// end (the ports flagged in `near`).
pub open spec fn adjacent(s: NetworkState, from: Cell, to: Cell, near: Seq<bool>) -> Seq<u64> {
    opt_seq(endpoint_net(s.cables@, from)) + opt_seq(endpoint_net(s.cables@, to)) + near_nets(
        s.ports@,
        near,
        s.ports@.len() as int,
    )
}

/// The touched networks with their sizes, in the same order.
pub open spec fn sized(s: NetworkState, adj: Seq<u64>) -> Seq<NetSize> {
    adj.map_values(|n: u64| NetSize { net: n, members: member_count(s.cables@, s.ports@, n) as usize })
}

/// A network touched by the new cable is relabelled to the target network.
pub open spec fn relabel(n: u64, adj: Seq<u64>, target: u64) -> u64 {
    if adj.contains(n) {
        target
    } else {
        n
    }
}

/// The cables after the touched networks merged into `target`.
pub open spec fn joined_cables(c: Seq<CableRec>, adj: Seq<u64>, target: u64) -> Seq<CableRec> {
    c.map_values(|r: CableRec| CableRec { seg: r.seg, net: relabel(r.net, adj, target) })
}

/// The ports after the touched networks merged into `target`, the flagged
/// ports joining it too.
pub open spec fn joined_ports(p: Seq<PortRec>, near: Seq<bool>, adj: Seq<u64>, target: u64) -> Seq<PortRec> {
    Seq::new(
        p.len(),
        |i: int|
            PortRec {
                id: p[i].id,
                machine: p[i].machine,
                cell: p[i].cell,
                net: if near[i] {
                    Some(target)
                } else {
                    match p[i].net {
                        Some(n) => Some(relabel(n, adj, target)),
                        None => None,
                    }
                },
            },
    )
}

impl NetworkState {
    /// The state is well formed: networks are live and distinct, every id is
    /// below the next one, cable ids are distinct, and every membership names
    /// a live network.
    pub open spec fn wf(&self) -> bool {
        &&& self.networks@.no_duplicates()
        &&& forall|i: int| 0 <= i < self.networks@.len() ==> #[trigger] self.networks@[i] < self.next_id
        &&& forall|i: int| 0 <= i < self.cables@.len() ==> (#[trigger] self.cables@[i]).seg.id < self.next_id
        &&& forall|i: int, j: int| 0 <= i < j < self.cables@.len() ==> (#[trigger] self.cables@[i]).seg.id
            != (#[trigger] self.cables@[j]).seg.id
        &&& forall|i: int| 0 <= i < self.cables@.len() ==> self.networks@.contains(#[trigger] self.cables@[i].net)
        &&& forall|i: int| 0 <= i < self.ports@.len() ==> ((#[trigger] self.ports@[i]).net matches Some(n)
            ==> self.networks@.contains(n))
    }

    /// No cables and no networks; the given ports belong to none.
    pub fn new(ports: Vec<PortRec>) -> (s: Self)
        requires
            forall|i: int| 0 <= i < ports@.len() ==> (#[trigger] ports@[i]).net is None,
        ensures
            s.wf(),
            s.cables@.len() == 0,
            s.networks@.len() == 0,
            s.ports@ == ports@,
            s.next_id == 0,
    {
        NetworkState { cables: Vec::new(), ports, networks: Vec::new(), next_id: 0 }
    }
}

fn find_endpoint_net(c: &Vec<CableRec>, p: Cell) -> (r: Option<u64>)
    ensures
        r == endpoint_net(c@, p),
{
    let mut r: Option<u64> = None;
    let mut i: usize = 0;
    while i < c.len()
        invariant
            i <= c@.len(),
            r == endpoint_net(c@.subrange(0, i as int), p),
        decreases c@.len() - i,
    {
        proof {
            assert(c@.subrange(0, i + 1).drop_last() =~= c@.subrange(0, i as int));
        }
        if c[i].seg.a == p || c[i].seg.b == p {
            r = Some(c[i].net);
        }
        i += 1;
    }
    assert(c@.subrange(0, c@.len() as int) =~= c@);
    r
}

fn push_machine_nets(out: &mut Vec<u64>, p: &Vec<PortRec>, m: u64)
    ensures
        final(out)@ == old(out)@ + machine_nets(p@, m),
{
    let mut i: usize = 0;
    while i < p.len()
        invariant
            i <= p@.len(),
            out@ == old(out)@ + machine_nets(p@.subrange(0, i as int), m),
        decreases p@.len() - i,
    {
        proof {
            assert(p@.subrange(0, i + 1).drop_last() =~= p@.subrange(0, i as int));
        }
        let q = p[i];
        if q.machine == m {
            if let Some(n) = q.net {
                out.push(n);
            }
        }
        proof {
            let pre = p@.subrange(0, i as int);
            let ext = if q.machine == m && q.net is Some { seq![q.net->0] } else { Seq::<u64>::empty() };
            assert(machine_nets(p@.subrange(0, i + 1), m) == machine_nets(pre, m) + ext);
            assert(out@ =~= old(out)@ + machine_nets(pre, m) + ext);
        }
        i += 1;
    }
    assert(p@.subrange(0, p@.len() as int) =~= p@);
}

fn count_members(c: &Vec<CableRec>, p: &Vec<PortRec>, n: u64) -> (r: usize)
    requires
        c@.len() + p@.len() <= usize::MAX,
    ensures
        r == member_count(c@, p@, n),
{
    let mut k: usize = 0;
    let mut i: usize = 0;
    let ghost fc = |x: CableRec| x.net == n;
    let ghost fp = |x: PortRec| x.net == Some(n);
    while i < c.len()
        invariant
            i <= c@.len(),
            k == c@.subrange(0, i as int).filter(fc).len(),
            k <= i,
            fc == (|x: CableRec| x.net == n),
        decreases c@.len() - i,
    {
        proof {
            c@.subrange(0, i as int).lemma_filter_push(c@[i as int], fc);
            assert(c@.subrange(0, i + 1) =~= c@.subrange(0, i as int).push(c@[i as int]));
        }
        if c[i].net == n {
            k += 1;
        }
        i += 1;
    }
    assert(c@.subrange(0, c@.len() as int) =~= c@);
    let mut j: usize = 0;
    while j < p.len()
        invariant
            j <= p@.len(),
            i == c@.len(),
            c@.len() + p@.len() <= usize::MAX,
            k == c@.filter(fc).len() + p@.subrange(0, j as int).filter(fp).len(),
            k <= i + j,
            fp == (|x: PortRec| x.net == Some(n)),
            fc == (|x: CableRec| x.net == n),
        decreases p@.len() - j,
    {
        proof {
            p@.subrange(0, j as int).lemma_filter_push(p@[j as int], fp);
            assert(p@.subrange(0, j + 1) =~= p@.subrange(0, j as int).push(p@[j as int]));
        }
        if p[j].net == Some(n) {
            k += 1;
        }
        j += 1;
    }
    assert(p@.subrange(0, p@.len() as int) =~= p@);
    k
}

impl NetworkState {
    /// The networks a new cable from `from` to `to` touches, in order (a
    /// network may appear more than once).
    fn touched(&self, from: Cell, to: Cell, near: &Vec<bool>) -> (adj: Vec<u64>)
        requires
            near@.len() == self.ports@.len(),
        ensures
            adj@ == adjacent(*self, from, to, near@),
    {
        let mut adj: Vec<u64> = Vec::new();
        if let Some(n) = find_endpoint_net(&self.cables, from) {
            adj.push(n);
        }
        if let Some(n) = find_endpoint_net(&self.cables, to) {
            adj.push(n);
        }
        let ghost head = adj@;
        assert(head =~= opt_seq(endpoint_net(self.cables@, from)) + opt_seq(endpoint_net(self.cables@, to)));
        let mut i: usize = 0;
        while i < self.ports.len()
            invariant
                i <= self.ports@.len(),
                near@.len() == self.ports@.len(),
                adj@ == head + near_nets(self.ports@, near@, i as int),
            decreases self.ports@.len() - i,
        {
            if near[i] {
                let m = self.ports[i].machine;
                push_machine_nets(&mut adj, &self.ports, m);
            }
            assert(adj@ =~= head + near_nets(self.ports@, near@, i + 1));
            i += 1;
        }
        adj
    }
}

/// The networks that stay when the touched networks `adj` merge into `t`:
/// `t` itself and every network not touched, in order.
pub open spec fn without_merged(nets: Seq<u64>, adj: Seq<u64>, t: u64) -> Seq<u64>
    decreases nets.len(),
{
    if nets.len() == 0 {
        Seq::empty()
    } else {
        let rest = without_merged(nets.drop_last(), adj, t);
        let n = nets.last();
        if n == t || !adj.contains(n) {
            rest.push(n)
        } else {
            rest
        }
    }
}

proof fn lemma_without_merged(nets: Seq<u64>, adj: Seq<u64>, t: u64)
    ensures
        forall|x: u64| #![trigger without_merged(nets, adj, t).contains(x)] without_merged(nets, adj, t).contains(x)
            <==> (nets.contains(x) && (x == t || !adj.contains(x))),
        nets.no_duplicates() ==> without_merged(nets, adj, t).no_duplicates(),
    decreases nets.len(),
{
    if nets.len() > 0 {
        let d = nets.drop_last();
        let n = nets.last();
        lemma_without_merged(d, adj, t);
        let r = without_merged(d, adj, t);
        let keepn = n == t || !adj.contains(n);
        let wm = without_merged(nets, adj, t);
        assert(wm == if keepn { r.push(n) } else { r });
        assert(nets =~= d.push(n));
        assert forall|x: u64| wm.contains(x) implies nets.contains(x) && (x == t || !adj.contains(x)) by {
            let j = choose|j: int| 0 <= j < wm.len() && wm[j] == x;
            if keepn && j == r.len() {
                assert(x == n);
                assert(nets[nets.len() - 1] == n);
            } else {
                assert(r[j] == x);
                assert(r.contains(x));
                let k = choose|k: int| 0 <= k < d.len() && d[k] == x;
                assert(nets[k] == x);
            }
        }
        assert forall|x: u64| nets.contains(x) && (x == t || !adj.contains(x)) implies wm.contains(x) by {
            let j = choose|j: int| 0 <= j < nets.len() && nets[j] == x;
            if x == n {
                assert(r.push(n)[r.len() as int] == n);
            } else {
                assert(j < d.len());
                assert(d[j] == x);
                assert(d.contains(x));
                assert(r.contains(x));
                let k = choose|k: int| 0 <= k < r.len() && r[k] == x;
                if keepn {
                    assert(r.push(n)[k] == x);
                }
            }
        }
        if nets.no_duplicates() {
            assert(d.no_duplicates()) by {
                assert forall|i: int, j: int| 0 <= i < j < d.len() implies d[i] != d[j] by {
                    assert(d[i] == nets[i] && d[j] == nets[j]);
                }
            }
            if n == t || !adj.contains(n) {
                assert(!d.contains(n)) by {
                    if d.contains(n) {
                        let j = choose|j: int| 0 <= j < d.len() && d[j] == n;
                        assert(nets[j] == nets[nets.len() - 1]);
                    }
                }
                assert(!r.contains(n));
                assert(r.push(n).no_duplicates()) by {
                    assert forall|i: int, j: int| 0 <= i < j < r.len() + 1 implies r.push(n)[i] != r.push(n)[j] by {
                        if j == r.len() {
                            assert(r.push(n)[i] == r[i]);
                            assert(r.contains(r[i]));
                        } else {
                            assert(r.push(n)[i] == r[i] && r.push(n)[j] == r[j]);
                        }
                    }
                }
            }
        }
    }
}

/// The state after laying a cable from `from` to `to` into network `t`.
pub open spec fn laid(old: NetworkState, new: NetworkState, from: Cell, to: Cell, near: Seq<bool>, t: u64) -> bool {
    let adj = adjacent(old, from, to, near);
    let cid: int = if adj.len() == 0 { old.next_id + 1 } else { old.next_id as int };
    &&& new.cables@ == joined_cables(old.cables@, adj, t).push(
        CableRec { seg: Segment { id: cid as u64, a: from, b: to }, net: t },
    )
    &&& new.ports@ == joined_ports(old.ports@, near, adj, t)
    &&& new.networks@ == if adj.len() == 0 {
        old.networks@.push(t)
    } else {
        without_merged(old.networks@, adj, t)
    }
    &&& new.next_id == cid + 1
    &&& adj.len() == 0 ==> t == old.next_id
    &&& adj.len() > 0 ==> exists|k: int| first_largest(sized(old, adj), k) && sized(old, adj)[k].net == t
}

proof fn lemma_endpoint_net_live(c: Seq<CableRec>, p: Cell, nets: Seq<u64>)
    requires
        forall|i: int| 0 <= i < c.len() ==> nets.contains(#[trigger] c[i].net),
    ensures
        endpoint_net(c, p) matches Some(n) ==> nets.contains(n),
    decreases c.len(),
{
    if c.len() > 0 {
        let d = c.drop_last();
        assert forall|i: int| 0 <= i < d.len() implies nets.contains(#[trigger] d[i].net) by {
            assert(d[i] == c[i]);
        }
        lemma_endpoint_net_live(d, p, nets);
        assert(c.last() == c[c.len() - 1]);
    }
}

proof fn lemma_machine_nets_live(p: Seq<PortRec>, m: u64, nets: Seq<u64>)
    requires
        forall|i: int| 0 <= i < p.len() ==> ((#[trigger] p[i]).net matches Some(n) ==> nets.contains(n)),
    ensures
        forall|j: int| 0 <= j < machine_nets(p, m).len() ==> nets.contains(#[trigger] machine_nets(p, m)[j]),
    decreases p.len(),
{
    if p.len() > 0 {
        let d = p.drop_last();
        assert forall|i: int| 0 <= i < d.len() implies ((#[trigger] d[i]).net matches Some(n) ==> nets.contains(n)) by {
            assert(d[i] == p[i]);
        }
        lemma_machine_nets_live(d, m, nets);
        let q = p.last();
        assert(q == p[p.len() - 1]);
        let ext = if q.machine == m && q.net is Some { seq![q.net->0] } else { Seq::<u64>::empty() };
        assert forall|j: int| 0 <= j < machine_nets(p, m).len() implies nets.contains(#[trigger] machine_nets(p, m)[j]) by {
            let mn = machine_nets(d, m);
            if j < mn.len() {
                assert(machine_nets(p, m)[j] == mn[j]);
            } else {
                assert(machine_nets(p, m)[j] == ext[j - mn.len()]);
            }
        }
    }
}

proof fn lemma_near_nets_live(p: Seq<PortRec>, near: Seq<bool>, k: int, nets: Seq<u64>)
    requires
        0 <= k <= p.len(),
        forall|i: int| 0 <= i < p.len() ==> ((#[trigger] p[i]).net matches Some(n) ==> nets.contains(n)),
    ensures
        forall|j: int| 0 <= j < near_nets(p, near, k).len() ==> nets.contains(#[trigger] near_nets(p, near, k)[j]),
    decreases k,
{
    if k > 0 {
        lemma_near_nets_live(p, near, k - 1, nets);
        lemma_machine_nets_live(p, p[k - 1].machine, nets);
        let a = near_nets(p, near, k - 1);
        let b = if near[k - 1] { machine_nets(p, p[k - 1].machine) } else { Seq::<u64>::empty() };
        assert forall|j: int| 0 <= j < near_nets(p, near, k).len() implies nets.contains(#[trigger] near_nets(p, near, k)[j]) by {
            if j < a.len() {
                assert(near_nets(p, near, k)[j] == a[j]);
            } else {
                assert(near_nets(p, near, k)[j] == b[j - a.len()]);
            }
        }
    }
}

impl NetworkState {
    /// Every network a new cable touches is live.
    proof fn lemma_adjacent_live(&self, from: Cell, to: Cell, near: Seq<bool>)
        requires
            self.wf(),
        ensures
            forall|n: u64| adjacent(*self, from, to, near).contains(n) ==> self.networks@.contains(n),
    {
        let nets = self.networks@;
        lemma_endpoint_net_live(self.cables@, from, nets);
        lemma_endpoint_net_live(self.cables@, to, nets);
        lemma_near_nets_live(self.ports@, near, self.ports@.len() as int, nets);
        let a = opt_seq(endpoint_net(self.cables@, from));
        let b = opt_seq(endpoint_net(self.cables@, to));
        let c = near_nets(self.ports@, near, self.ports@.len() as int);
        assert forall|n: u64| adjacent(*self, from, to, near).contains(n) implies nets.contains(n) by {
            let adj = adjacent(*self, from, to, near);
            let j = choose|j: int| 0 <= j < adj.len() && adj[j] == n;
            if j < a.len() {
                assert(adj[j] == a[j]);
            } else if j < a.len() + b.len() {
                assert(adj[j] == b[j - a.len()]);
            } else {
                assert(adj[j] == c[j - a.len() - b.len()]);
            }
        }
    }
}

fn contains_u64(v: &Vec<u64>, x: u64) -> (b: bool)
    ensures
        b == v@.contains(x),
{
    let mut i: usize = 0;
    while i < v.len()
        invariant
            i <= v@.len(),
            forall|j: int| 0 <= j < i ==> v@[j] != x,
        decreases v@.len() - i,
    {
        if v[i] == x {
            return true;
        }
        i += 1;
    }
    false
}

impl NetworkState {
    /// Lays a cable from `from` to `to`; `near` flags the ports (of formed
    /// machines) that lie near either end. A cable that starts where it ends
    /// is ignored. A cable touching no network starts a new one. Otherwise
    /// the largest touched network (by members, cables and ports; the first
    /// listed among equals) takes the cable, the flagged ports and every
    /// member of the other touched networks, which are dissolved. Returns the
    /// network that changed.
    pub fn lay_cable(&mut self, from: Cell, to: Cell, near: &Vec<bool>) -> (r: Option<u64>)
        requires
            old(self).wf(),
            near@.len() == old(self).ports@.len(),
            old(self).next_id < u64::MAX - 1,
            old(self).cables@.len() + old(self).ports@.len() < usize::MAX,
        ensures
            final(self).wf(),
            from == to ==> r is None && final(self).cables@ == old(self).cables@ && final(self).ports@
                == old(self).ports@ && final(self).networks@ == old(self).networks@ && final(self).next_id
                == old(self).next_id,
            from != to ==> (r matches Some(t) && laid(*old(self), *final(self), from, to, near@, t)),
    {
        if from == to {
            return None;
        }
        let ghost s0 = *self;
        let adj = self.touched(from, to, near);
        proof {
            self.lemma_adjacent_live(from, to, near@);
        }
        let mut cands: Vec<NetSize> = Vec::new();
        let mut i: usize = 0;
        while i < adj.len()
            invariant
                i <= adj@.len(),
                s0 == *self,
                self.cables@.len() + self.ports@.len() < usize::MAX,
                cands@.len() == i,
                forall|j: int| 0 <= j < i ==> #[trigger] cands@[j] == sized(*self, adj@)[j],
            decreases adj@.len() - i,
        {
            let m = count_members(&self.cables, &self.ports, adj[i]);
            cands.push(NetSize { net: adj[i], members: m });
            i += 1;
        }
        assert(cands@ =~= sized(*self, adj@));
        let plan = join_plan(&cands);
        let (t, absorbed, cid, fresh) = match plan {
            JoinPlan::NewNetwork => (self.next_id, Vec::new(), self.next_id + 1, true),
            JoinPlan::Join { survivor, absorbed } => (survivor, absorbed, self.next_id, false),
        };
        proof {
            assert(fresh == (adj@.len() == 0));
            assert forall|n: u64| absorbed@.contains(n) <==> (n != t && adj@.contains(n)) by {
                if !fresh {
                    if adj@.contains(n) {
                        let j = choose|j: int| 0 <= j < adj@.len() && adj@[j] == n;
                        assert(cands@[j].net == n);
                    }
                    if exists|j: int| 0 <= j < cands@.len() && (#[trigger] cands@[j]).net == n {
                        let j = choose|j: int| 0 <= j < cands@.len() && (#[trigger] cands@[j]).net == n;
                        assert(adj@[j] == n);
                    }
                }
            }
            if !fresh {
                let k = choose|k: int| first_largest(cands@, k) && cands@[k].net == t;
                assert(adj@[k] == t);
                assert(adj@.contains(t));
            }
        }
        let mut cables: Vec<CableRec> = Vec::new();
        let mut i: usize = 0;
        while i < self.cables.len()
            invariant
                i <= self.cables@.len(),
                s0 == *self,
                cables@ == joined_cables(self.cables@, adj@, t).subrange(0, i as int),
                forall|n: u64| absorbed@.contains(n) <==> (n != t && adj@.contains(n)),
            decreases self.cables@.len() - i,
        {
            let c = self.cables[i];
            let net = if contains_u64(&absorbed, c.net) { t } else { c.net };
            cables.push(CableRec { seg: c.seg, net });
            assert(cables@ =~= joined_cables(self.cables@, adj@, t).subrange(0, i + 1));
            i += 1;
        }
        cables.push(CableRec { seg: Segment { id: cid, a: from, b: to }, net: t });
        let mut ports: Vec<PortRec> = Vec::new();
        let mut i: usize = 0;
        while i < self.ports.len()
            invariant
                i <= self.ports@.len(),
                near@.len() == self.ports@.len(),
                s0 == *self,
                ports@ == joined_ports(self.ports@, near@, adj@, t).subrange(0, i as int),
                forall|n: u64| absorbed@.contains(n) <==> (n != t && adj@.contains(n)),
            decreases self.ports@.len() - i,
        {
            let q = self.ports[i];
            let net = if near[i] {
                Some(t)
            } else {
                match q.net {
                    Some(n) => Some(if contains_u64(&absorbed, n) { t } else { n }),
                    None => None,
                }
            };
            ports.push(PortRec { id: q.id, machine: q.machine, cell: q.cell, net });
            assert(ports@ =~= joined_ports(self.ports@, near@, adj@, t).subrange(0, i + 1));
            i += 1;
        }
        let mut networks: Vec<u64> = Vec::new();
        if fresh {
            networks = self.networks.clone();
            networks.push(t);
        } else {
            let mut i: usize = 0;
            while i < self.networks.len()
                invariant
                    i <= self.networks@.len(),
                    s0 == *self,
                    networks@ == without_merged(self.networks@.subrange(0, i as int), adj@, t),
                    forall|n: u64| absorbed@.contains(n) <==> (n != t && adj@.contains(n)),
                decreases self.networks@.len() - i,
            {
                let n = self.networks[i];
                proof {
                    let next = self.networks@.subrange(0, i + 1);
                    assert(next.drop_last() =~= self.networks@.subrange(0, i as int));
                    assert(next.last() == n);
                }
                if !contains_u64(&absorbed, n) {
                    networks.push(n);
                }
                i += 1;
            }
            assert(self.networks@.subrange(0, self.networks@.len() as int) =~= self.networks@);
        }
        let ghost new_next = cid + 1;
        self.cables = cables;
        self.ports = ports;
        self.networks = networks;
        self.next_id = cid + 1;
        proof {
            assert(self.cables@ =~= joined_cables(s0.cables@, adj@, t).push(
                CableRec { seg: Segment { id: cid, a: from, b: to }, net: t },
            ));
            assert(self.ports@ =~= joined_ports(s0.ports@, near@, adj@, t));
            assert(adj@ == adjacent(s0, from, to, near@));
            if fresh {
                assert(self.networks@ =~= s0.networks@.push(t));
            } else {
                assert(exists|k: int| first_largest(sized(s0, adj@), k) && sized(s0, adj@)[k].net == t);
            }
            assert(laid(s0, *self, from, to, near@, t));
            self.lemma_laid_wf(s0, from, to, near@, t);
        }
        Some(t)
    }
}

impl NetworkState {
    proof fn lemma_laid_wf(&self, s0: NetworkState, from: Cell, to: Cell, near: Seq<bool>, t: u64)
        requires
            s0.wf(),
            s0.next_id < u64::MAX - 1,
            laid(s0, *self, from, to, near, t),
            near.len() == s0.ports@.len(),
        ensures
            self.wf(),
    {
        let adj = adjacent(s0, from, to, near);
        s0.lemma_adjacent_live(from, to, near);
        let fresh = adj.len() == 0;
        lemma_without_merged(s0.networks@, adj, t);
        let cid: int = if fresh { s0.next_id + 1 } else { s0.next_id as int };
        if fresh {
            assert(!s0.networks@.contains(t)) by {
                if s0.networks@.contains(t) {
                    let j = choose|j: int| 0 <= j < s0.networks@.len() && s0.networks@[j] == t;
                    assert(s0.networks@[j] < s0.next_id);
                }
            }
            assert(self.networks@.no_duplicates()) by {
                assert forall|i: int, j: int| 0 <= i < j < self.networks@.len() implies self.networks@[i] != self.networks@[j] by {
                    if j == self.networks@.len() - 1 {
                        assert(self.networks@[i] == s0.networks@[i]);
                    } else {
                        assert(self.networks@[i] == s0.networks@[i] && self.networks@[j] == s0.networks@[j]);
                    }
                }
            }
        } else {
            let k = choose|k: int| first_largest(sized(s0, adj), k) && sized(s0, adj)[k].net == t;
            assert(adj[k] == t);
        }
        // The target network is live afterwards.
        assert(self.networks@.contains(t)) by {
            if fresh {
                assert(self.networks@[self.networks@.len() - 1] == t);
            } else {
                assert(adj.contains(t));
                assert(s0.networks@.contains(t));
            }
        }
        // A network untouched by the cable stays live.
        assert forall|n: u64| s0.networks@.contains(n) && !adj.contains(n) implies self.networks@.contains(n) by {
            let j = choose|j: int| 0 <= j < s0.networks@.len() && s0.networks@[j] == n;
            if fresh {
                assert(self.networks@[j] == n);
            }
        }
        assert forall|i: int| 0 <= i < self.networks@.len() implies #[trigger] self.networks@[i] < self.next_id by {
            if fresh {
                if i < s0.networks@.len() {
                    assert(self.networks@[i] == s0.networks@[i]);
                }
            } else {
                let x = self.networks@[i];
                assert(self.networks@.contains(x));
                let j = choose|j: int| 0 <= j < s0.networks@.len() && s0.networks@[j] == x;
                assert(s0.networks@[j] < s0.next_id);
            }
        }
        let n0 = s0.cables@.len();
        assert forall|i: int| 0 <= i < self.cables@.len() implies (#[trigger] self.cables@[i]).seg.id < self.next_id by {
            if i < n0 {
                assert(self.cables@[i].seg == s0.cables@[i].seg);
                assert(s0.cables@[i].seg.id < s0.next_id);
            }
        }
        assert forall|i: int, j: int| 0 <= i < j < self.cables@.len() implies (#[trigger] self.cables@[i]).seg.id
            != (#[trigger] self.cables@[j]).seg.id by {
            assert(self.cables@[i].seg == s0.cables@[i].seg);
            assert(s0.cables@[i].seg.id < s0.next_id);
            if j < n0 {
                assert(self.cables@[j].seg == s0.cables@[j].seg);
            }
        }
        assert forall|i: int| 0 <= i < self.cables@.len() implies self.networks@.contains(#[trigger] self.cables@[i].net) by {
            if i < n0 {
                let n = s0.cables@[i].net;
                assert(s0.networks@.contains(n));
                assert(self.cables@[i].net == relabel(n, adj, t));
            }
        }
        assert forall|i: int| 0 <= i < self.ports@.len() implies ((#[trigger] self.ports@[i]).net matches Some(n)
            ==> self.networks@.contains(n)) by {
            if !near[i] {
                if let Some(n) = s0.ports@[i].net {
                    assert(s0.networks@.contains(n));
                    assert(self.ports@[i].net == Some(relabel(n, adj, t)));
                }
            }
        }
    }
}

/// The networks other than `net`, in order.
pub open spec fn without_net(nets: Seq<u64>, net: u64) -> Seq<u64>
    decreases nets.len(),
{
    if nets.len() == 0 {
        Seq::empty()
    } else if nets.last() == net {
        without_net(nets.drop_last(), net)
    } else {
        without_net(nets.drop_last(), net).push(nets.last())
    }
}

proof fn lemma_without_net(nets: Seq<u64>, net: u64)
    ensures
        forall|x: u64| #![trigger without_net(nets, net).contains(x)] without_net(nets, net).contains(x)
            <==> (nets.contains(x) && x != net),
        nets.no_duplicates() ==> without_net(nets, net).no_duplicates(),
    decreases nets.len(),
{
    if nets.len() > 0 {
        let d = nets.drop_last();
        let n = nets.last();
        lemma_without_net(d, net);
        let r = without_net(d, net);
        let w = without_net(nets, net);
        assert(nets =~= d.push(n));
        assert(w == if n == net { r } else { r.push(n) });
        assert forall|x: u64| w.contains(x) implies nets.contains(x) && x != net by {
            let j = choose|j: int| 0 <= j < w.len() && w[j] == x;
            if n != net && j == r.len() {
                assert(nets[nets.len() - 1] == x);
            } else {
                assert(r[j] == x);
                assert(r.contains(x));
                let k = choose|k: int| 0 <= k < d.len() && d[k] == x;
                assert(nets[k] == x);
            }
        }
        assert forall|x: u64| nets.contains(x) && x != net implies w.contains(x) by {
            let j = choose|j: int| 0 <= j < nets.len() && nets[j] == x;
            if x == n && n != net {
                assert(r.push(n)[r.len() as int] == n);
            } else {
                if j == nets.len() - 1 {
                    assert(nets[j] == n);
                }
                assert(d[j] == x);
                assert(d.contains(x));
                assert(r.contains(x));
                let k = choose|k: int| 0 <= k < r.len() && r[k] == x;
                if n != net {
                    assert(r.push(n)[k] == x);
                }
            }
        }
        if nets.no_duplicates() {
            assert(d.no_duplicates()) by {
                assert forall|i: int, j: int| 0 <= i < j < d.len() implies d[i] != d[j] by {
                    assert(d[i] == nets[i] && d[j] == nets[j]);
                }
            }
            if n != net {
                assert(!r.contains(n)) by {
                    if r.contains(n) {
                        let j = choose|j: int| 0 <= j < d.len() && d[j] == n;
                        assert(nets[j] == nets[nets.len() - 1]);
                    }
                }
                assert(r.push(n).no_duplicates()) by {
                    assert forall|i: int, j: int| 0 <= i < j < r.len() + 1 implies r.push(n)[i] != r.push(n)[j] by {
                        if j == r.len() {
                            assert(r.push(n)[i] == r[i]);
                            assert(r.contains(r[i]));
                        } else {
                            assert(r.push(n)[i] == r[i] && r.push(n)[j] == r[j]);
                        }
                    }
                }
            }
        }
    }
}

/// The ports after network `net` is dissolved: its members belong to none.
pub open spec fn unlinked(p: Seq<PortRec>, net: u64) -> Seq<PortRec> {
    p.map_values(
        |q: PortRec|
            PortRec { id: q.id, machine: q.machine, cell: q.cell, net: if q.net == Some(net) { None } else { q.net } },
    )
}

/// The cables that do not end at `pos`, in order.
pub open spec fn kept_cables(c: Seq<CableRec>, pos: Cell) -> Seq<CableRec>
    decreases c.len(),
{
    if c.len() == 0 {
        Seq::empty()
    } else if ends_at(c.last().seg, pos) {
        kept_cables(c.drop_last(), pos)
    } else {
        kept_cables(c.drop_last(), pos).push(c.last())
    }
}

/// The part with a segment ending at `c`, if any.
pub open spec fn cell_part(parts: Seq<Vec<Segment>>, c: Cell) -> Option<int> {
    if exists|k: int| 0 <= k < parts.len() && on_part(#[trigger] parts[k]@, c) {
        Some(choose|k: int| 0 <= k < parts.len() && on_part(#[trigger] parts[k]@, c))
    } else {
        None
    }
}

/// The id of the network that part `k` (`k >= 1`) becomes.
pub open spec fn fresh_net(next: u64, k: int) -> u64 {
    (next + k - 1) as u64
}

/// The networks made for parts `1..=count`.
pub open spec fn fresh_nets(next: u64, count: int) -> Seq<u64> {
    Seq::new(count as nat, |i: int| (next + i) as u64)
}

/// The remaining cables after a regroup: a cable on the first part keeps
/// its network, one on a further part moves to that part's new network.
pub open spec fn regrouped_cables(c: Seq<CableRec>, parts: Seq<Vec<Segment>>, next: u64) -> Seq<CableRec> {
    c.map_values(
        |r: CableRec|
            CableRec {
                seg: r.seg,
                net: match cell_part(parts, r.seg.a) {
                    Some(k) => if k == 0 { r.net } else { fresh_net(next, k) },
                    None => r.net,
                },
            },
    )
}

/// The ports after network `net` regroups: each member joins the network of
/// the part it lies on, or leaves when it lies on none; other ports stay.
pub open spec fn regrouped_ports(p: Seq<PortRec>, net: u64, parts: Seq<Vec<Segment>>, next: u64) -> Seq<PortRec> {
    p.map_values(
        |q: PortRec|
            PortRec {
                id: q.id,
                machine: q.machine,
                cell: q.cell,
                net: if q.net == Some(net) {
                    match cell_part(parts, q.cell) {
                        Some(k) => Some(if k == 0 { net } else { fresh_net(next, k) }),
                        None => None,
                    }
                } else {
                    q.net
                },
            },
    )
}

/// The state after cutting the cables at `pos`, with the networks that
/// changed (`r`).
pub open spec fn cut(old: NetworkState, new: NetworkState, pos: Cell, r: Seq<u64>) -> bool {
    if hit_ids(old.cables@, pos).len() == 0 {
        &&& new.cables@ == old.cables@
        &&& new.ports@ == old.ports@
        &&& new.networks@ == old.networks@
        &&& new.next_id == old.next_id
        &&& r.len() == 0
    } else {
        exists|k: int|
            #![trigger first_hit(old.cables@, pos, k)]
            first_hit(old.cables@, pos, k) && {
                let net = old.cables@[k].net;
                if kept(old.cables@, pos).len() == 0 {
                    &&& new.cables@.len() == 0
                    &&& new.ports@ == unlinked(old.ports@, net)
                    &&& new.networks@ == without_net(old.networks@, net)
                    &&& new.next_id == old.next_id
                    &&& r.len() == 0
                } else {
                    exists|parts: Seq<Vec<Segment>>|
                        #![trigger components_of(parts, kept(old.cables@, pos))]
                        {
                            &&& components_of(parts, kept(old.cables@, pos))
                            &&& parts.len() >= 1
                            &&& new.cables@ == regrouped_cables(kept_cables(old.cables@, pos), parts, old.next_id)
                            &&& new.ports@ == regrouped_ports(old.ports@, net, parts, old.next_id)
                            &&& new.networks@ == old.networks@ + fresh_nets(old.next_id, parts.len() - 1)
                            &&& new.next_id == old.next_id + parts.len() - 1
                            &&& r == seq![net] + fresh_nets(old.next_id, parts.len() - 1)
                        }
                }
            }
    }
}

/// `part_of`'s answer is the part a cell lies on.
proof fn lemma_part_of(parts: Seq<Vec<Segment>>, segs: Seq<Segment>, c: Cell, r: Option<usize>)
    requires
        components_of(parts, segs),
        placed(parts, c, r),
    ensures
        match r {
            Some(k) => cell_part(parts, c) == Some(k as int),
            None => cell_part(parts, c) is None,
        },
{
    if let Some(k) = r {
        assert(on_part(parts[k as int]@, c));
        let j = choose|j: int| 0 <= j < parts.len() && on_part(#[trigger] parts[j]@, c);
        lemma_cell_on_one_part(parts, segs, c, k as int, j);
    }
}

/// A split never yields more parts than there are cables.
proof fn lemma_parts_bounded(parts: Seq<Vec<Segment>>, segs: Seq<Segment>)
    requires
        components_of(parts, segs),
    ensures
        parts.len() <= segs.len(),
{
    lemma_flatten_at_least(parts);
    vstd::seq_lib::to_multiset_len(flatten(parts));
    vstd::seq_lib::to_multiset_len(segs);
}

proof fn lemma_flatten_at_least(parts: Seq<Vec<Segment>>)
    requires
        forall|i: int| 0 <= i < parts.len() ==> (#[trigger] parts[i])@.len() >= 1,
    ensures
        flatten(parts).len() >= parts.len(),
    decreases parts.len(),
{
    if parts.len() > 0 {
        let d = parts.drop_last();
        assert forall|i: int| 0 <= i < d.len() implies (#[trigger] d[i])@.len() >= 1 by {
            assert(d[i] == parts[i]);
        }
        lemma_flatten_at_least(d);
        assert(parts.last() == parts[parts.len() - 1]);
    }
}

proof fn lemma_kept_cables(c: Seq<CableRec>, pos: Cell)
    ensures
        forall|j: int| 0 <= j < kept_cables(c, pos).len() ==> c.contains(#[trigger] kept_cables(c, pos)[j]),
        (forall|i: int, j: int| 0 <= i < j < c.len() ==> (#[trigger] c[i]).seg.id != (#[trigger] c[j]).seg.id) ==> (
        forall|i: int, j: int| 0 <= i < j < kept_cables(c, pos).len() ==> (#[trigger] kept_cables(c, pos)[i]).seg.id
            != (#[trigger] kept_cables(c, pos)[j]).seg.id),
        kept(c, pos) == kept_cables(c, pos).map_values(|r: CableRec| r.seg),
        forall|j: int| 0 <= j < kept_cables(c, pos).len() ==> !ends_at(#[trigger] kept_cables(c, pos)[j].seg, pos),
    decreases c.len(),
{
    if c.len() > 0 {
        let d = c.drop_last();
        let x = c.last();
        lemma_kept_cables(d, pos);
        let kd = kept_cables(d, pos);
        let kc = kept_cables(c, pos);
        assert(x == c[c.len() - 1]);
        assert forall|j: int| 0 <= j < kc.len() implies c.contains(#[trigger] kc[j]) by {
            if j < kd.len() {
                assert(kc[j] == kd[j]);
                assert(d.contains(kd[j]));
                let t = choose|t: int| 0 <= t < d.len() && d[t] == kd[j];
                assert(c[t] == kd[j]);
            }
        }
        if forall|i: int, j: int| 0 <= i < j < c.len() ==> (#[trigger] c[i]).seg.id != (#[trigger] c[j]).seg.id {
            assert forall|i: int, j: int| 0 <= i < j < d.len() implies (#[trigger] d[i]).seg.id != (#[trigger] d[j]).seg.id by {
                assert(d[i] == c[i] && d[j] == c[j]);
            }
            assert forall|i: int, j: int| 0 <= i < j < kc.len() implies (#[trigger] kc[i]).seg.id != (#[trigger] kc[j]).seg.id by {
                if j < kd.len() {
                    assert(kc[i] == kd[i] && kc[j] == kd[j]);
                } else {
                    assert(kc[i] == kd[i]);
                    assert(d.contains(kd[i]));
                    let t = choose|t: int| 0 <= t < d.len() && d[t] == kd[i];
                    assert(c[t] == d[t]);
                    assert(kc[j] == x);
                }
            }
        }
        assert(kept(c, pos) =~= kc.map_values(|r: CableRec| r.seg));
        assert forall|j: int| 0 <= j < kc.len() implies !ends_at(#[trigger] kc[j].seg, pos) by {
            if j < kd.len() {
                assert(kc[j] == kd[j]);
            }
        }
    } else {
        assert(kept(c, pos) =~= kept_cables(c, pos).map_values(|r: CableRec| r.seg));
    }
}

fn unlink_ports(p: &Vec<PortRec>, net: u64) -> (r: Vec<PortRec>)
    ensures
        r@ == unlinked(p@, net),
{
    let mut r: Vec<PortRec> = Vec::new();
    let mut i: usize = 0;
    while i < p.len()
        invariant
            i <= p@.len(),
            r@ == unlinked(p@, net).subrange(0, i as int),
        decreases p@.len() - i,
    {
        let q = p[i];
        let n = if q.net == Some(net) { None } else { q.net };
        r.push(PortRec { id: q.id, machine: q.machine, cell: q.cell, net: n });
        assert(r@ =~= unlinked(p@, net).subrange(0, i + 1));
        i += 1;
    }
    assert(unlinked(p@, net).subrange(0, p@.len() as int) =~= unlinked(p@, net));
    r
}

fn drop_net(v: &Vec<u64>, net: u64) -> (r: Vec<u64>)
    ensures
        r@ == without_net(v@, net),
{
    let mut r: Vec<u64> = Vec::new();
    let mut i: usize = 0;
    while i < v.len()
        invariant
            i <= v@.len(),
            r@ == without_net(v@.subrange(0, i as int), net),
        decreases v@.len() - i,
    {
        proof {
            assert(v@.subrange(0, i + 1).drop_last() =~= v@.subrange(0, i as int));
        }
        if v[i] != net {
            r.push(v[i]);
        }
        i += 1;
    }
    assert(v@.subrange(0, v@.len() as int) =~= v@);
    r
}

fn regroup_cables(c: &Vec<CableRec>, pos: Cell, parts: &Vec<Vec<Segment>>, next: u64) -> (r: Vec<CableRec>)
    requires
        components_of(parts@, kept(c@, pos)),
        next as int + parts@.len() <= u64::MAX,
    ensures
        r@ == regrouped_cables(kept_cables(c@, pos), parts@, next),
{
    let mut r: Vec<CableRec> = Vec::new();
    let mut i: usize = 0;
    while i < c.len()
        invariant
            i <= c@.len(),
            components_of(parts@, kept(c@, pos)),
            next as int + parts@.len() <= u64::MAX,
            r@ == regrouped_cables(kept_cables(c@.subrange(0, i as int), pos), parts@, next),
        decreases c@.len() - i,
    {
        let x = c[i];
        proof {
            assert(c@.subrange(0, i + 1).drop_last() =~= c@.subrange(0, i as int));
            assert(c@.subrange(0, i + 1).last() == x);
        }
        if !(x.seg.a == pos || x.seg.b == pos) {
            let k = part_of(parts, x.seg.a);
            proof {
                lemma_part_of(parts@, kept(c@, pos), x.seg.a, k);
            }
            let net = match k {
                Some(k) => if k == 0 { x.net } else { next + k as u64 - 1 },
                None => x.net,
            };
            r.push(CableRec { seg: x.seg, net });
            proof {
                let pre = kept_cables(c@.subrange(0, i as int), pos);
                assert(kept_cables(c@.subrange(0, i + 1), pos) == pre.push(x));
                assert(r@ =~= regrouped_cables(pre.push(x), parts@, next));
            }
        }
        i += 1;
    }
    assert(c@.subrange(0, c@.len() as int) =~= c@);
    r
}

fn regroup_ports(p: &Vec<PortRec>, net: u64, parts: &Vec<Vec<Segment>>, segs: Ghost<Seq<Segment>>, next: u64) -> (r: Vec<PortRec>)
    requires
        components_of(parts@, segs@),
        next as int + parts@.len() <= u64::MAX,
    ensures
        r@ == regrouped_ports(p@, net, parts@, next),
{
    let mut r: Vec<PortRec> = Vec::new();
    let mut i: usize = 0;
    while i < p.len()
        invariant
            i <= p@.len(),
            components_of(parts@, segs@),
            next as int + parts@.len() <= u64::MAX,
            r@ == regrouped_ports(p@, net, parts@, next).subrange(0, i as int),
        decreases p@.len() - i,
    {
        let q = p[i];
        let n = if q.net == Some(net) {
            let k = part_of(parts, q.cell);
            proof {
                lemma_part_of(parts@, segs@, q.cell, k);
            }
            match k {
                Some(k) => Some(if k == 0 { net } else { next + k as u64 - 1 }),
                None => None,
            }
        } else {
            q.net
        };
        r.push(PortRec { id: q.id, machine: q.machine, cell: q.cell, net: n });
        assert(r@ =~= regrouped_ports(p@, net, parts@, next).subrange(0, i + 1));
        i += 1;
    }
    assert(regrouped_ports(p@, net, parts@, next).subrange(0, p@.len() as int) =~= regrouped_ports(p@, net, parts@, next));
    r
}

impl NetworkState {
    /// Removes every cable that ends at `pos` and regroups what remains, as
    /// `plan_removal` plans it: with no cable left, the network of the first
    /// removed cable is dissolved and its ports leave it; otherwise the
    /// remaining cables (of every network) fall into connected parts, largest
    /// first. The first part's cables keep their networks; each further part
    /// becomes a new network. Each port of the cut network joins the network
    /// of the part it lies on, or leaves when it lies on none. Returns the
    /// networks that changed: none when nothing was cut or the network was
    /// dissolved, otherwise the cut network and the new ones.
    pub fn cut_at(&mut self, pos: Cell) -> (changed: Vec<u64>)
        requires
            old(self).wf(),
            old(self).next_id as int + old(self).cables@.len() < u64::MAX,
        ensures
            final(self).wf(),
            cut(*old(self), *final(self), pos, changed@),
    {
        let ghost s0 = *self;
        let plan = plan_removal(&self.cables, pos, &self.ports);
        match plan {
            RemovalPlan::Untouched => Vec::new(),
            RemovalPlan::Dissolve { net, removed, unlink } => {
                let ports = unlink_ports(&self.ports, net);
                let networks = drop_net(&self.networks, net);
                self.cables = Vec::new();
                self.ports = ports;
                self.networks = networks;
                proof {
                    lemma_without_net(s0.networks@, net);
                    assert forall|i: int| 0 <= i < self.networks@.len() implies #[trigger] self.networks@[i] < self.next_id by {
                        let x = self.networks@[i];
                        assert(self.networks@.contains(x));
                        let j = choose|j: int| 0 <= j < s0.networks@.len() && s0.networks@[j] == x;
                        assert(s0.networks@[j] < s0.next_id);
                    }
                    assert forall|i: int| 0 <= i < self.ports@.len() implies ((#[trigger] self.ports@[i]).net matches Some(n)
                        ==> self.networks@.contains(n)) by {
                        assert(self.ports@[i].net == if s0.ports@[i].net == Some(net) { None } else { s0.ports@[i].net });
                    }
                    let k = choose|k: int| first_hit(s0.cables@, pos, k) && s0.cables@[k].net == net;
                    assert(first_hit(s0.cables@, pos, k));
                }
                Vec::new()
            },
            RemovalPlan::Regroup { net, removed, parts, relink } => {
                proof {
                    lemma_parts_bounded(parts@, kept(s0.cables@, pos));
                    lemma_kept_cables(s0.cables@, pos);
                    vstd::seq_lib::to_multiset_len(kept(s0.cables@, pos));
                    lemma_kept_len(s0.cables@, pos);
                }
                let next = self.next_id;
                let cables = regroup_cables(&self.cables, pos, &parts, next);
                let ports = regroup_ports(&self.ports, net, &parts, Ghost(kept(s0.cables@, pos)), next);
                let mut networks = self.networks.clone();
                let mut changed: Vec<u64> = Vec::new();
                changed.push(net);
                let count = parts.len() - 1;
                let mut k: usize = 0;
                while k < count
                    invariant
                        k <= count,
                        count == parts@.len() - 1,
                        next as int + parts@.len() <= u64::MAX,
                        networks@ == s0.networks@ + fresh_nets(next, k as int),
                        changed@ == seq![net] + fresh_nets(next, k as int),
                    decreases count - k,
                {
                    networks.push(next + k as u64);
                    changed.push(next + k as u64);
                    assert(fresh_nets(next, k + 1) =~= fresh_nets(next, k as int).push((next + k) as u64));
                    assert(networks@ =~= s0.networks@ + fresh_nets(next, k + 1));
                    assert(changed@ =~= seq![net] + fresh_nets(next, k + 1));
                    k += 1;
                }
                self.cables = cables;
                self.ports = ports;
                self.networks = networks;
                self.next_id = next + count as u64;
                proof {
                    self.lemma_regroup_wf(s0, pos, net, parts@);
                    let h = choose|h: int| first_hit(s0.cables@, pos, h) && s0.cables@[h].net == net;
                    assert(first_hit(s0.cables@, pos, h));
                    assert(components_of(parts@, kept(s0.cables@, pos)));
                }
                changed
            },
        }
    }

    proof fn lemma_regroup_wf(&self, s0: NetworkState, pos: Cell, net: u64, parts: Seq<Vec<Segment>>)
        requires
            s0.wf(),
            exists|h: int| first_hit(s0.cables@, pos, h) && s0.cables@[h].net == net,
            components_of(parts, kept(s0.cables@, pos)),
            parts.len() >= 1,
            s0.next_id as int + parts.len() <= u64::MAX,
            self.cables@ == regrouped_cables(kept_cables(s0.cables@, pos), parts, s0.next_id),
            self.ports@ == regrouped_ports(s0.ports@, net, parts, s0.next_id),
            self.networks@ == s0.networks@ + fresh_nets(s0.next_id, parts.len() - 1),
            self.next_id == s0.next_id + parts.len() - 1,
        ensures
            self.wf(),
    {
        let fresh = fresh_nets(s0.next_id, parts.len() - 1);
        let n0 = s0.networks@.len();
        let h = choose|h: int| first_hit(s0.cables@, pos, h) && s0.cables@[h].net == net;
        assert(s0.networks@.contains(net));
        lemma_kept_cables(s0.cables@, pos);
        let kc = kept_cables(s0.cables@, pos);
        // Old networks stay live.
        assert forall|x: u64| s0.networks@.contains(x) implies self.networks@.contains(x) by {
            let j = choose|j: int| 0 <= j < n0 && s0.networks@[j] == x;
            assert(self.networks@[j] == x);
        }
        // Part `k >= 1` is live as its fresh network.
        assert forall|k: int| 1 <= k < parts.len() implies self.networks@.contains(fresh_net(s0.next_id, k)) by {
            assert(self.networks@[n0 + k - 1] == fresh[k - 1]);
        }
        assert(self.networks@.no_duplicates()) by {
            assert forall|i: int, j: int| 0 <= i < j < self.networks@.len() implies self.networks@[i] != self.networks@[j] by {
                if j < n0 {
                    assert(self.networks@[i] == s0.networks@[i] && self.networks@[j] == s0.networks@[j]);
                } else if i < n0 {
                    assert(self.networks@[i] == s0.networks@[i]);
                    assert(s0.networks@[i] < s0.next_id);
                } else {
                    assert(self.networks@[i] == fresh[i - n0] && self.networks@[j] == fresh[j - n0]);
                }
            }
        }
        assert forall|i: int| 0 <= i < self.networks@.len() implies #[trigger] self.networks@[i] < self.next_id by {
            if i < n0 {
                assert(self.networks@[i] == s0.networks@[i]);
                assert(s0.networks@[i] < s0.next_id);
            } else {
                assert(self.networks@[i] == fresh[i - n0]);
            }
        }
        assert forall|i: int| 0 <= i < self.cables@.len() implies (#[trigger] self.cables@[i]).seg.id < self.next_id by {
            assert(self.cables@[i].seg == kc[i].seg);
            assert(s0.cables@.contains(kc[i]));
            let t = choose|t: int| 0 <= t < s0.cables@.len() && s0.cables@[t] == kc[i];
            assert(s0.cables@[t].seg.id < s0.next_id);
        }
        assert forall|i: int, j: int| 0 <= i < j < self.cables@.len() implies (#[trigger] self.cables@[i]).seg.id
            != (#[trigger] self.cables@[j]).seg.id by {
            assert(self.cables@[i].seg == kc[i].seg && self.cables@[j].seg == kc[j].seg);
        }
        assert forall|i: int| 0 <= i < self.cables@.len() implies self.networks@.contains(#[trigger] self.cables@[i].net) by {
            assert(s0.cables@.contains(kc[i]));
            let t = choose|t: int| 0 <= t < s0.cables@.len() && s0.cables@[t] == kc[i];
            assert(s0.networks@.contains(s0.cables@[t].net));
            match cell_part(parts, kc[i].seg.a) {
                Some(k) => {
                    if k != 0 {
                        assert(0 <= k < parts.len());
                    }
                },
                None => {},
            }
        }
        assert forall|i: int| 0 <= i < self.ports@.len() implies ((#[trigger] self.ports@[i]).net matches Some(n)
            ==> self.networks@.contains(n)) by {
            let q = s0.ports@[i];
            if q.net == Some(net) {
                match cell_part(parts, q.cell) {
                    Some(k) => {
                        if k != 0 {
                            assert(0 <= k < parts.len());
                        }
                    },
                    None => {},
                }
            } else if let Some(n) = q.net {
                assert(s0.networks@.contains(n));
            }
        }
    }
}

proof fn lemma_kept_len(c: Seq<CableRec>, pos: Cell)
    ensures
        kept(c, pos).len() <= c.len(),
    decreases c.len(),
{
    if c.len() > 0 {
        lemma_kept_len(c.drop_last(), pos);
    }
}

/// The ports after re-reading memberships: a port of a formed machine joins
/// the network of the cable ending at its cell (the last such cable), a port
/// with no cable there or of an unformed machine belongs to none.
pub open spec fn refreshed(c: Seq<CableRec>, p: Seq<PortRec>, formed: Seq<bool>) -> Seq<PortRec> {
    Seq::new(
        p.len(),
        |i: int|
            PortRec {
                id: p[i].id,
                machine: p[i].machine,
                cell: p[i].cell,
                net: if formed[i] { endpoint_net(c, p[i].cell) } else { None },
            },
    )
}

impl NetworkState {
    /// Adds a port of machine `machine` at `cell`, in no network yet.
    pub fn add_port(&mut self, id: u64, machine: u64, cell: Cell)
        requires
            old(self).wf(),
        ensures
            final(self).wf(),
            final(self).ports@ == old(self).ports@.push(PortRec { id, machine, cell, net: None }),
            final(self).cables@ == old(self).cables@,
            final(self).networks@ == old(self).networks@,
            final(self).next_id == old(self).next_id,
    {
        self.ports.push(PortRec { id, machine, cell, net: None });
        proof {
            assert forall|i: int| 0 <= i < self.ports@.len() implies ((#[trigger] self.ports@[i]).net matches Some(n)
                ==> self.networks@.contains(n)) by {
                if i < old(self).ports@.len() {
                    assert(self.ports@[i] == old(self).ports@[i]);
                }
            }
        }
    }

    /// Re-reads every port's membership after machines were placed or
    /// removed; `formed` flags the ports whose machine is formed. Returns the
    /// networks that gained a port, each once.
    pub fn refresh_ports(&mut self, formed: &Vec<bool>) -> (changed: Vec<u64>)
        requires
            old(self).wf(),
            formed@.len() == old(self).ports@.len(),
        ensures
            final(self).wf(),
            final(self).ports@ == refreshed(old(self).cables@, old(self).ports@, formed@),
            final(self).cables@ == old(self).cables@,
            final(self).networks@ == old(self).networks@,
            final(self).next_id == old(self).next_id,
            changed@.no_duplicates(),
            forall|n: u64| changed@.contains(n) <==> exists|i: int| 0 <= i < formed@.len() && formed@[i]
                && endpoint_net(old(self).cables@, #[trigger] old(self).ports@[i].cell) == Some(n),
    {
        let ghost s0 = *self;
        let mut ports: Vec<PortRec> = Vec::new();
        let mut changed: Vec<u64> = Vec::new();
        let mut i: usize = 0;
        while i < self.ports.len()
            invariant
                i <= self.ports@.len(),
                s0 == *self,
                formed@.len() == self.ports@.len(),
                ports@ == refreshed(self.cables@, self.ports@, formed@).subrange(0, i as int),
                changed@.no_duplicates(),
                forall|n: u64| changed@.contains(n) <==> exists|j: int| 0 <= j < i && formed@[j]
                    && endpoint_net(self.cables@, #[trigger] self.ports@[j].cell) == Some(n),
            decreases self.ports@.len() - i,
        {
            let q = self.ports[i];
            let net = if formed[i] { find_endpoint_net(&self.cables, q.cell) } else { None };
            let ghost c_prev = changed@;
            assert(net == if formed@[i as int] { endpoint_net(self.cables@, self.ports@[i as int].cell) } else { None });
            if let Some(n) = net {
                if !contains_u64(&changed, n) {
                    let ghost c0 = changed@;
                    changed.push(n);
                    proof {
                        assert forall|a: int, b: int| 0 <= a < b < changed@.len() implies changed@[a] != changed@[b] by {
                            if b == c0.len() {
                                assert(changed@[a] == c0[a]);
                                assert(c0.contains(c0[a]));
                            } else {
                                assert(changed@[a] == c0[a] && changed@[b] == c0[b]);
                            }
                        }
                        assert(changed@[c0.len() as int] == n);
                    }
                }
                assert(changed@.contains(n));
            }
            assert(forall|x: u64| changed@.contains(x) <==> (c_prev.contains(x) || net == Some(x))) by {
                assert forall|x: u64| changed@.contains(x) implies (c_prev.contains(x) || net == Some(x)) by {
                    let j = choose|j: int| 0 <= j < changed@.len() && changed@[j] == x;
                    if j < c_prev.len() {
                        assert(c_prev[j] == x);
                    }
                }
                assert forall|x: u64| c_prev.contains(x) implies changed@.contains(x) by {
                    let j = choose|j: int| 0 <= j < c_prev.len() && c_prev[j] == x;
                    assert(changed@[j] == x);
                }
            }
            ports.push(PortRec { id: q.id, machine: q.machine, cell: q.cell, net });
            proof {
                assert(ports@ =~= refreshed(self.cables@, self.ports@, formed@).subrange(0, i + 1));
                assert forall|n: u64| changed@.contains(n) <==> exists|j: int| 0 <= j < i + 1 && formed@[j]
                    && endpoint_net(self.cables@, #[trigger] self.ports@[j].cell) == Some(n) by {
                    assert(c_prev.contains(n) == exists|j: int| 0 <= j < i && formed@[j]
                        && endpoint_net(self.cables@, #[trigger] self.ports@[j].cell) == Some(n));
                    if exists|j: int| 0 <= j < i + 1 && formed@[j] && endpoint_net(self.cables@, #[trigger] self.ports@[j].cell) == Some(n) {
                        let j = choose|j: int| 0 <= j < i + 1 && formed@[j] && endpoint_net(self.cables@, #[trigger] self.ports@[j].cell) == Some(n);
                        if j == i {
                            assert(net == Some(n));
                        } else {
                            assert(c_prev.contains(n));
                        }
                    }
                    if changed@.contains(n) && !(exists|j: int| 0 <= j < i && formed@[j]
                        && endpoint_net(self.cables@, #[trigger] self.ports@[j].cell) == Some(n)) {
                        assert(net == Some(n));
                        assert(formed@[i as int] && endpoint_net(self.cables@, self.ports@[i as int].cell) == Some(n));
                    }
                }
            }
            i += 1;
        }
        proof {
            assert(refreshed(self.cables@, self.ports@, formed@).subrange(0, self.ports@.len() as int)
                =~= refreshed(self.cables@, self.ports@, formed@));
        }
        self.ports = ports;
        proof {
            assert forall|i: int| 0 <= i < self.ports@.len() implies ((#[trigger] self.ports@[i]).net matches Some(n)
                ==> self.networks@.contains(n)) by {
                lemma_endpoint_net_live(s0.cables@, s0.ports@[i].cell, s0.networks@);
            }
        }
        changed
    }
}

impl NetworkState {
    /// Cables that share an endpoint belong to the same network.
    pub open spec fn consistent(&self) -> bool {
        forall|i: int, j: int|
            0 <= i < self.cables@.len() && 0 <= j < self.cables@.len() && touches(
                #[trigger] self.cables@[i].seg,
                #[trigger] self.cables@[j].seg,
            ) ==> self.cables@[i].net == self.cables@[j].net
    }
}

proof fn lemma_endpoint_net_some(c: Seq<CableRec>, p: Cell, i: int)
    requires
        0 <= i < c.len(),
        ends_at(c[i].seg, p),
    ensures
        endpoint_net(c, p) is Some,
        exists|j: int| 0 <= j < c.len() && ends_at(#[trigger] c[j].seg, p) && c[j].net == endpoint_net(c, p)->0,
    decreases c.len(),
{
    let d = c.drop_last();
    assert(c.last() == c[c.len() - 1]);
    if !ends_at(c.last().seg, p) {
        assert(d[i] == c[i]);
        lemma_endpoint_net_some(d, p, i);
        let j = choose|j: int| 0 <= j < d.len() && ends_at(#[trigger] d[j].seg, p) && d[j].net == endpoint_net(d, p)->0;
        assert(c[j] == d[j]);
    }
}

/// Laying a cable joins everything it touches: when cables that share an
/// endpoint share a network, then afterwards the new cable's network holds
/// every cable ending where it starts or ends, and that sharing still holds.
pub proof fn lemma_lay_keeps_consistent(s0: NetworkState, s1: NetworkState, from: Cell, to: Cell, near: Seq<bool>, t: u64)
    requires
        s0.wf(),
        s0.consistent(),
        from != to,
        laid(s0, s1, from, to, near, t),
    ensures
        s1.consistent(),
        forall|i: int| 0 <= i < s1.cables@.len() && (ends_at(#[trigger] s1.cables@[i].seg, from) || ends_at(
            s1.cables@[i].seg,
            to,
        )) ==> s1.cables@[i].net == t,
{
    let adj = adjacent(s0, from, to, near);
    let n0 = s0.cables@.len();
    let a = opt_seq(endpoint_net(s0.cables@, from));
    let b = opt_seq(endpoint_net(s0.cables@, to));
    // An old cable ending at either end was in a touched network.
    assert forall|i: int| 0 <= i < n0 && (ends_at(#[trigger] s0.cables@[i].seg, from) || ends_at(
        s0.cables@[i].seg,
        to,
    )) implies adj.contains(s0.cables@[i].net) by {
        let e = if ends_at(s0.cables@[i].seg, from) { from } else { to };
        lemma_endpoint_net_some(s0.cables@, e, i);
        let j = choose|j: int| 0 <= j < n0 && ends_at(#[trigger] s0.cables@[j].seg, e) && s0.cables@[j].net
            == endpoint_net(s0.cables@, e)->0;
        assert(touches(s0.cables@[i].seg, s0.cables@[j].seg));
        if e == from {
            assert(adj[0] == a[0]);
        } else {
            assert(adj[a.len() as int] == b[0]);
        }
    }
    assert forall|i: int| 0 <= i < s1.cables@.len() && (ends_at(#[trigger] s1.cables@[i].seg, from) || ends_at(
        s1.cables@[i].seg,
        to,
    )) implies s1.cables@[i].net == t by {
        if i < n0 {
            assert(s1.cables@[i].seg == s0.cables@[i].seg);
        }
    }
    assert forall|i: int, j: int|
        0 <= i < s1.cables@.len() && 0 <= j < s1.cables@.len() && touches(
            #[trigger] s1.cables@[i].seg,
            #[trigger] s1.cables@[j].seg,
        ) implies s1.cables@[i].net == s1.cables@[j].net by {
        if i < n0 && j < n0 {
            assert(s1.cables@[i].seg == s0.cables@[i].seg && s1.cables@[j].seg == s0.cables@[j].seg);
            assert(s0.cables@[i].net == s0.cables@[j].net);
        } else if i < n0 {
            assert(s1.cables@[i].seg == s0.cables@[i].seg);
            assert(ends_at(s0.cables@[i].seg, from) || ends_at(s0.cables@[i].seg, to));
        } else if j < n0 {
            assert(s1.cables@[j].seg == s0.cables@[j].seg);
            assert(ends_at(s0.cables@[j].seg, from) || ends_at(s0.cables@[j].seg, to));
        }
    }
}

proof fn lemma_flatten_contains(parts: Seq<Vec<Segment>>, x: Segment)
    requires
        flatten(parts).contains(x),
    ensures
        exists|k: int| 0 <= k < parts.len() && (#[trigger] parts[k])@.contains(x),
    decreases parts.len(),
{
    let d = parts.drop_last();
    let f = flatten(d);
    let l = parts.last()@;
    assert(flatten(parts) == f + l);
    let j = choose|j: int| 0 <= j < flatten(parts).len() && flatten(parts)[j] == x;
    if j < f.len() {
        assert(f[j] == x);
        lemma_flatten_contains(d, x);
        let k = choose|k: int| 0 <= k < d.len() && (#[trigger] d[k])@.contains(x);
        assert(parts[k] == d[k]);
    } else {
        assert(l[j - f.len()] == x);
        assert(parts[parts.len() - 1]@.contains(x));
    }
}

/// The part a kept segment lies in is the part its first endpoint lies on.
proof fn lemma_seg_part(parts: Seq<Vec<Segment>>, segs: Seq<Segment>, x: Segment)
    requires
        components_of(parts, segs),
        segs.contains(x),
    ensures
        cell_part(parts, x.a) matches Some(k) && 0 <= k < parts.len() && parts[k]@.contains(x),
{
    vstd::seq_lib::to_multiset_contains(segs, x);
    vstd::seq_lib::to_multiset_contains(flatten(parts), x);
    assert(flatten(parts).to_multiset().count(x) > 0);
    assert(flatten(parts).contains(x));
    lemma_flatten_contains(parts, x);
    let k = choose|k: int| 0 <= k < parts.len() && (#[trigger] parts[k])@.contains(x);
    let t = choose|t: int| 0 <= t < parts[k]@.len() && parts[k]@[t] == x;
    assert(ends_at(parts[k]@[t], x.a));
    assert(on_part(parts[k]@, x.a));
    let c = choose|c: int| 0 <= c < parts.len() && on_part(#[trigger] parts[c]@, x.a);
    lemma_cell_on_one_part(parts, segs, x.a, k, c);
}

/// Cutting keeps shared endpoints in one network: when cables that share
/// an endpoint share a network before a cut, they still do after it, and no
/// cable is left ending at the cut cell.
pub proof fn lemma_cut_keeps_consistent(s0: NetworkState, s1: NetworkState, pos: Cell, r: Seq<u64>)
    requires
        s0.wf(),
        s0.consistent(),
        cut(s0, s1, pos, r),
    ensures
        s1.consistent(),
        forall|i: int| 0 <= i < s1.cables@.len() ==> !ends_at(#[trigger] s1.cables@[i].seg, pos),
{
    lemma_kept_cables(s0.cables@, pos);
    if hit_ids(s0.cables@, pos).len() == 0 {
        lemma_no_hit_all_kept(s0.cables@, pos);
    } else {
        let k = choose|k: int| #![trigger first_hit(s0.cables@, pos, k)] first_hit(s0.cables@, pos, k) && {
            let net = s0.cables@[k].net;
            if kept(s0.cables@, pos).len() == 0 {
                &&& s1.cables@.len() == 0
                &&& s1.ports@ == unlinked(s0.ports@, net)
                &&& s1.networks@ == without_net(s0.networks@, net)
                &&& s1.next_id == s0.next_id
                &&& r.len() == 0
            } else {
                exists|parts: Seq<Vec<Segment>>|
                    #![trigger components_of(parts, kept(s0.cables@, pos))]
                    {
                        &&& components_of(parts, kept(s0.cables@, pos))
                        &&& parts.len() >= 1
                        &&& s1.cables@ == regrouped_cables(kept_cables(s0.cables@, pos), parts, s0.next_id)
                        &&& s1.ports@ == regrouped_ports(s0.ports@, net, parts, s0.next_id)
                        &&& s1.networks@ == s0.networks@ + fresh_nets(s0.next_id, parts.len() - 1)
                        &&& s1.next_id == s0.next_id + parts.len() - 1
                        &&& r == seq![net] + fresh_nets(s0.next_id, parts.len() - 1)
                    }
            }
        };
        let net = s0.cables@[k].net;
        if kept(s0.cables@, pos).len() > 0 {
            let parts = choose|parts: Seq<Vec<Segment>>|
                #![trigger components_of(parts, kept(s0.cables@, pos))]
                {
                    &&& components_of(parts, kept(s0.cables@, pos))
                    &&& parts.len() >= 1
                    &&& s1.cables@ == regrouped_cables(kept_cables(s0.cables@, pos), parts, s0.next_id)
                    &&& s1.ports@ == regrouped_ports(s0.ports@, net, parts, s0.next_id)
                    &&& s1.networks@ == s0.networks@ + fresh_nets(s0.next_id, parts.len() - 1)
                    &&& s1.next_id == s0.next_id + parts.len() - 1
                    &&& r == seq![net] + fresh_nets(s0.next_id, parts.len() - 1)
                };
            let kc = kept_cables(s0.cables@, pos);
            let segs = kept(s0.cables@, pos);
            assert forall|i: int| 0 <= i < kc.len() implies segs.contains(#[trigger] kc[i].seg) by {
                assert(segs[i] == kc[i].seg);
            }
            assert forall|i: int, j: int|
                0 <= i < s1.cables@.len() && 0 <= j < s1.cables@.len() && touches(
                    #[trigger] s1.cables@[i].seg,
                    #[trigger] s1.cables@[j].seg,
                ) implies s1.cables@[i].net == s1.cables@[j].net by {
                let x = kc[i].seg;
                let y = kc[j].seg;
                assert(segs.contains(x) && segs.contains(y));
                lemma_seg_part(parts, segs, x);
                lemma_seg_part(parts, segs, y);
                let ki = cell_part(parts, x.a)->0;
                let kj = cell_part(parts, y.a)->0;
                if ki != kj {
                    let a = choose|a: int| 0 <= a < parts[ki]@.len() && parts[ki]@[a] == x;
                    let b = choose|b: int| 0 <= b < parts[kj]@.len() && parts[kj]@[b] == y;
                    assert(apart(parts[ki]@, parts[kj]@));
                    assert(!touches(parts[ki]@[a], parts[kj]@[b]));
                }
                if ki == 0 {
                    assert(s0.cables@.contains(kc[i]) && s0.cables@.contains(kc[j]));
                    let a = choose|a: int| 0 <= a < s0.cables@.len() && s0.cables@[a] == kc[i];
                    let b = choose|b: int| 0 <= b < s0.cables@.len() && s0.cables@[b] == kc[j];
                    assert(touches(s0.cables@[a].seg, s0.cables@[b].seg));
                }
            }
        }
    }
}

proof fn lemma_no_hit_all_kept(c: Seq<CableRec>, pos: Cell)
    requires
        hit_ids(c, pos).len() == 0,
    ensures
        forall|i: int| 0 <= i < c.len() ==> !ends_at(#[trigger] c[i].seg, pos),
    decreases c.len(),
{
    if c.len() > 0 {
        let d = c.drop_last();
        assert(!ends_at(c.last().seg, pos));
        lemma_no_hit_all_kept(d, pos);
        assert forall|i: int| 0 <= i < c.len() implies !ends_at(#[trigger] c[i].seg, pos) by {
            if i < d.len() {
                assert(c[i] == d[i]);
            }
        }
    }
}

} // verus!
