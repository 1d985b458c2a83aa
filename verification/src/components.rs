//! Connected components of cable segments: two segments are connected when
//! they share an endpoint.

use vstd::prelude::*;
use crate::routing::Cell;

verus! {

broadcast use {vstd::seq_lib::to_multiset_build, vstd::seq_lib::to_multiset_remove, vstd::seq_lib::lemma_multiset_commutative};

/// A cable segment between two endpoint cells.
#[derive(Clone, Copy, Debug, PartialEq, Eq, Structural)]
pub struct Segment {
    pub id: u64,
    pub a: Cell,
    pub b: Cell,
}

/// The two segments have an endpoint in common.
pub open spec fn touches(s: Segment, t: Segment) -> bool {
    s.a == t.a || s.a == t.b || s.b == t.a || s.b == t.b
}

/// All segments of the components, in order.
pub open spec fn flatten(cs: Seq<Vec<Segment>>) -> Seq<Segment>
    decreases cs.len(),
{
    if cs.len() == 0 {
        Seq::empty()
    } else {
        flatten(cs.drop_last()) + cs.last()@
    }
}

/// Every segment after the first touches an earlier one, so the component is connected.
pub open spec fn linked(c: Seq<Segment>) -> bool {
    forall|k: int| #![trigger c[k]] 1 <= k < c.len() ==> exists|j: int| 0 <= j < k && touches(#[trigger] c[j], c[k])
}

/// No segment of `c` touches a segment of `d`.
pub open spec fn apart(c: Seq<Segment>, d: Seq<Segment>) -> bool {
    forall|i: int, j: int| 0 <= i < c.len() && 0 <= j < d.len() ==> !touches(#[trigger] c[i], #[trigger] d[j])
}

fn touches_exec(s: &Segment, t: &Segment) -> (r: bool)
    ensures
        r == touches(*s, *t),
{
    s.a == t.a || s.a == t.b || s.b == t.a || s.b == t.b
}

/// Grows the component of `comp[0]` out of `unvisited`.
fn grow(comp: &mut Vec<Segment>, unvisited: &mut Vec<Segment>)
    requires
        old(comp)@.len() == 1,
    ensures
        final(comp)@.len() >= 1,
        final(comp)@[0] == old(comp)@[0],
        linked(final(comp)@),
        apart(final(comp)@, final(unvisited)@),
        (final(comp)@ + final(unvisited)@).to_multiset() == (old(comp)@ + old(unvisited)@).to_multiset(),
        final(comp)@.len() + final(unvisited)@.len() == old(comp)@.len() + old(unvisited)@.len(),
{
    let ghost start = comp@ + unvisited@;
    let ghost total = comp@.len() + unvisited@.len();
    let mut q: usize = 0;
    while q < comp.len()
        invariant
            q <= comp@.len(),
            comp@.len() >= 1,
            old(comp)@.len() == 1,
            comp@.len() + unvisited@.len() == total,
            comp@[0] == old(comp)@[0],
            linked(comp@),
            apart(comp@.subrange(0, q as int), unvisited@),
            (comp@ + unvisited@).to_multiset() == start.to_multiset(),
        decreases unvisited@.len() + comp@.len() - q,
    {
        let cur = comp[q];
        let mut i: usize = 0;
        while i < unvisited.len()
            invariant
                q < comp@.len(),
                cur == comp@[q as int],
                i <= unvisited@.len(),
                comp@.len() >= 1,
                old(comp)@.len() == 1,
                comp@.len() + unvisited@.len() == total,
                comp@[0] == old(comp)@[0],
                linked(comp@),
                apart(comp@.subrange(0, q as int), unvisited@),
                forall|j: int| 0 <= j < i ==> !touches(cur, #[trigger] unvisited@[j]),
                (comp@ + unvisited@).to_multiset() == start.to_multiset(),
            decreases unvisited@.len() - i,
        {
            if touches_exec(&cur, &unvisited[i]) {
                let ghost c0 = comp@;
                let ghost u0 = unvisited@;
                let s = unvisited.remove(i);
                comp.push(s);
                proof {
                    assert(comp@ == c0.push(s));
                    assert(unvisited@ == u0.remove(i as int));
                    assert forall|k: int| #![trigger comp@[k]] 1 <= k < comp@.len() implies exists|j: int| 0 <= j < k && touches(#[trigger] comp@[j], comp@[k]) by {
                        if k < c0.len() {
                            let j = choose|j: int| 0 <= j < k && touches(#[trigger] c0[j], c0[k]);
                            assert(comp@[j] == c0[j]);
                        } else {
                            assert(comp@[q as int] == cur);
                            assert(touches(comp@[q as int], comp@[k]));
                        }
                    }
                    assert forall|a: int, b: int| 0 <= a < comp@.subrange(0, q as int).len() && 0 <= b < unvisited@.len() implies !touches(#[trigger] comp@.subrange(0, q as int)[a], #[trigger] unvisited@[b]) by {
                        let b2 = if b < i { b } else { b + 1 };
                        assert(unvisited@[b] == u0[b2]);
                        assert(comp@.subrange(0, q as int)[a] == c0.subrange(0, q as int)[a]);
                    }
                    assert forall|j: int| 0 <= j < i implies !touches(cur, #[trigger] unvisited@[j]) by {
                        assert(unvisited@[j] == u0[j]);
                    }
                    assert((c0 + u0).to_multiset() == c0.to_multiset().add(u0.to_multiset()));
                    assert((comp@ + unvisited@).to_multiset() == comp@.to_multiset().add(unvisited@.to_multiset()));
                    assert(comp@.to_multiset() == c0.to_multiset().insert(s));
                    assert(unvisited@.to_multiset() == u0.to_multiset().remove(u0[i as int]));
                    assert(u0.to_multiset().contains(s)) by {
                        assert(u0.contains(s)) by { assert(u0[i as int] == s); }
                        vstd::seq_lib::to_multiset_contains(u0, s);
                    }
                    assert(c0.to_multiset().insert(s).add(u0.to_multiset().remove(s)) =~= c0.to_multiset().add(u0.to_multiset()));
                }
            } else {
                i += 1;
            }
        }
        proof {
            assert forall|a: int, b: int| 0 <= a < comp@.subrange(0, q + 1).len() && 0 <= b < unvisited@.len() implies !touches(#[trigger] comp@.subrange(0, q + 1)[a], #[trigger] unvisited@[b]) by {
                if a < q {
                    assert(comp@.subrange(0, q + 1)[a] == comp@.subrange(0, q as int)[a]);
                } else {
                    assert(comp@.subrange(0, q + 1)[a] == cur);
                }
            }
        }
        q += 1;
    }
    proof {
        assert(comp@.subrange(0, q as int) =~= comp@);
    }
}

/// Partitions `remaining` into connected components: within a component every
/// segment after the first touches an earlier one, segments of different
/// components never touch, and together the components hold exactly the input.
pub fn find_segment_components(remaining: Vec<Segment>) -> (comps: Vec<Vec<Segment>>)
    ensures
        flatten(comps@).to_multiset() == remaining@.to_multiset(),
        forall|i: int| 0 <= i < comps@.len() ==> (#[trigger] comps@[i])@.len() >= 1 && linked(comps@[i]@),
        forall|i: int, j: int| 0 <= i < comps@.len() && 0 <= j < comps@.len() && i != j ==> apart(#[trigger] comps@[i]@, #[trigger] comps@[j]@),
        remaining@.len() == 0 ==> comps@.len() == 0,
{
    let mut unvisited = remaining;
    let mut comps: Vec<Vec<Segment>> = Vec::new();
    proof {
        assert(flatten(comps@) =~= Seq::<Segment>::empty());
        assert(flatten(comps@) + unvisited@ =~= unvisited@);
    }
    while unvisited.len() > 0
        invariant
            (flatten(comps@) + unvisited@).to_multiset() == remaining@.to_multiset(),
            forall|i: int| 0 <= i < comps@.len() ==> (#[trigger] comps@[i])@.len() >= 1 && linked(comps@[i]@),
            forall|i: int, j: int| 0 <= i < comps@.len() && 0 <= j < comps@.len() && i != j ==> apart(#[trigger] comps@[i]@, #[trigger] comps@[j]@),
            forall|i: int| 0 <= i < comps@.len() ==> apart((#[trigger] comps@[i])@, unvisited@),
            comps@.len() > 0 ==> remaining@.len() > 0,
        decreases unvisited@.len(),
    {
        proof {
            vstd::seq_lib::to_multiset_len(flatten(comps@) + unvisited@);
            vstd::seq_lib::to_multiset_len(remaining@);
        }
        let ghost u0 = unvisited@;
        let seed = unvisited.remove(0);
        let mut comp: Vec<Segment> = Vec::new();
        comp.push(seed);
        proof {
            assert(u0 =~= seq![seed] + unvisited@);
            assert(comp@ =~= seq![seed]);
        }
        let ghost u1 = unvisited@;
        grow(&mut comp, &mut unvisited);
        let ghost cs0 = comps@;
        comps.push(comp);
        proof {
            let c = comp@;
            assert(flatten(comps@) == flatten(cs0) + c) by {
                assert(comps@.drop_last() =~= cs0);
            }
            assert((flatten(comps@) + unvisited@) =~= flatten(cs0) + (c + unvisited@));
            assert(apart(c, unvisited@));
            assert((c + unvisited@).to_multiset() == u0.to_multiset()) by {
                assert(seq![seed] + u1 =~= u0);
            }
            lemma_parts_from(c, unvisited@, u0);
            assert forall|i: int, j: int| 0 <= i < comps@.len() && 0 <= j < comps@.len() && i != j implies apart(#[trigger] comps@[i]@, #[trigger] comps@[j]@) by {
                if i < cs0.len() && j < cs0.len() {
                } else if i < cs0.len() {
                    lemma_apart_sub(cs0[i]@, u0, c);
                } else {
                    lemma_apart_sub(cs0[j]@, u0, c);
                    lemma_apart_sym(cs0[j]@, c);
                }
            }
            assert forall|i: int| 0 <= i < comps@.len() implies apart((#[trigger] comps@[i])@, unvisited@) by {
                if i < cs0.len() {
                    lemma_apart_sub(cs0[i]@, u0, unvisited@);
                }
            }
        }
    }
    assert(flatten(comps@) + unvisited@ =~= flatten(comps@));
    comps
}

proof fn lemma_apart_sym(c: Seq<Segment>, d: Seq<Segment>)
    requires
        apart(c, d),
    ensures
        apart(d, c),
{
    assert forall|i: int, j: int| 0 <= i < d.len() && 0 <= j < c.len() implies !touches(#[trigger] d[i], #[trigger] c[j]) by {
        assert(!touches(c[j], d[i]));
    }
}

proof fn lemma_apart_sub(c: Seq<Segment>, u: Seq<Segment>, d: Seq<Segment>)
    requires
        apart(c, u),
        forall|x: Segment| d.contains(x) ==> u.contains(x),
    ensures
        apart(c, d),
{
    assert forall|i: int, j: int| 0 <= i < c.len() && 0 <= j < d.len() implies !touches(#[trigger] c[i], #[trigger] d[j]) by {
        assert(d.contains(d[j]));
        let k = choose|k: int| 0 <= k < u.len() && u[k] == d[j];
        assert(!touches(c[i], u[k]));
    }
}

proof fn lemma_parts_from(d: Seq<Segment>, e: Seq<Segment>, u: Seq<Segment>)
    requires
        (d + e).to_multiset() == u.to_multiset(),
    ensures
        forall|x: Segment| d.contains(x) ==> u.contains(x),
        forall|x: Segment| e.contains(x) ==> u.contains(x),
{
    assert forall|x: Segment| d.contains(x) implies u.contains(x) by {
        vstd::seq_lib::to_multiset_contains(d, x);
        assert((d + e).to_multiset() == d.to_multiset().add(e.to_multiset()));
        vstd::seq_lib::to_multiset_contains(u, x);
    }
    assert forall|x: Segment| e.contains(x) implies u.contains(x) by {
        vstd::seq_lib::to_multiset_contains(e, x);
        assert((d + e).to_multiset() == d.to_multiset().add(e.to_multiset()));
        vstd::seq_lib::to_multiset_contains(u, x);
    }
}

/// `p` is a chain of segments of `c` from `s` to `t`, each touching the next.
pub open spec fn chain_in(c: Seq<Segment>, p: Seq<Segment>, s: Segment, t: Segment) -> bool {
    &&& p.len() >= 1
    &&& p[0] == s
    &&& p.last() == t
    &&& forall|k: int| 0 <= k < p.len() ==> c.contains(#[trigger] p[k])
    &&& forall|k: int| 0 <= k < p.len() - 1 ==> touches(#[trigger] p[k], p[k + 1])
}

/// Some chain of segments of `c` joins `s` to `t`.
pub open spec fn chained(c: Seq<Segment>, s: Segment, t: Segment) -> bool {
    exists|p: Seq<Segment>| chain_in(c, p, s, t)
}

proof fn lemma_chain_from_first(c: Seq<Segment>, i: int)
    requires
        linked(c),
        0 <= i < c.len(),
    ensures
        exists|p: Seq<Segment>| chain_in(c, p, c[0], c[i]),
    decreases i,
{
    if i == 0 {
        assert(chain_in(c, seq![c[0]], c[0], c[0]));
    } else {
        let j = choose|j: int| 0 <= j < i && touches(#[trigger] c[j], c[i]);
        lemma_chain_from_first(c, j);
        let p = choose|p: Seq<Segment>| chain_in(c, p, c[0], c[j]);
        let q = p.push(c[i]);
        assert forall|k: int| 0 <= k < q.len() implies c.contains(#[trigger] q[k]) by {
            if k < p.len() {
                assert(q[k] == p[k]);
            }
        }
        assert forall|k: int| 0 <= k < q.len() - 1 implies touches(#[trigger] q[k], q[k + 1]) by {
            if k < p.len() - 1 {
                assert(q[k] == p[k] && q[k + 1] == p[k + 1]);
            } else {
                assert(q[k] == c[j]);
            }
        }
        assert(chain_in(c, q, c[0], c[i]));
    }
}

proof fn lemma_chain_reverse(c: Seq<Segment>, p: Seq<Segment>, s: Segment, t: Segment)
    requires
        chain_in(c, p, s, t),
    ensures
        chain_in(c, p.reverse(), t, s),
{
    let r = p.reverse();
    assert forall|k: int| 0 <= k < r.len() implies c.contains(#[trigger] r[k]) by {
        assert(r[k] == p[p.len() - 1 - k]);
    }
    assert forall|k: int| 0 <= k < r.len() - 1 implies touches(#[trigger] r[k], r[k + 1]) by {
        assert(r[k] == p[p.len() - 1 - k] && r[k + 1] == p[p.len() - 2 - k]);
        assert(touches(p[p.len() - 2 - k], p[p.len() - 1 - k]));
    }
}

/// The components `find_segment_components` returns partition the segments
/// it was given: together they hold exactly those segments, no segment lies
/// in two components, any two segments of one component are joined by a
/// chain of segments of that component sharing endpoints, and segments of
/// different components share no endpoint.
pub proof fn lemma_components_partition(comps: Seq<Vec<Segment>>, remaining: Seq<Segment>)
    requires
        flatten(comps).to_multiset() == remaining.to_multiset(),
        forall|i: int| 0 <= i < comps.len() ==> (#[trigger] comps[i])@.len() >= 1 && linked(comps[i]@),
        forall|i: int, j: int| 0 <= i < comps.len() && 0 <= j < comps.len() && i != j ==> apart(#[trigger] comps[i]@, #[trigger] comps[j]@),
    ensures
        flatten(comps).to_multiset() == remaining.to_multiset(),
        forall|i: int, j: int, s: Segment| 0 <= i < comps.len() && 0 <= j < comps.len() && i != j && #[trigger] comps[i]@.contains(s)
            ==> !#[trigger] comps[j]@.contains(s),
        forall|i: int, a: int, b: int| 0 <= i < comps.len() && 0 <= a < comps[i]@.len() && 0 <= b < comps[i]@.len()
            ==> chained(comps[i]@, #[trigger] comps[i]@[a], #[trigger] comps[i]@[b]),
{
    assert forall|i: int, j: int, s: Segment| 0 <= i < comps.len() && 0 <= j < comps.len() && i != j && #[trigger] comps[i]@.contains(s)
        implies !#[trigger] comps[j]@.contains(s) by {
        if comps[j]@.contains(s) {
            let a = choose|a: int| 0 <= a < comps[i]@.len() && comps[i]@[a] == s;
            let b = choose|b: int| 0 <= b < comps[j]@.len() && comps[j]@[b] == s;
            assert(apart(comps[i]@, comps[j]@));
            assert(!touches(comps[i]@[a], comps[j]@[b]));
        }
    }
    assert forall|i: int, a: int, b: int| 0 <= i < comps.len() && 0 <= a < comps[i]@.len() && 0 <= b < comps[i]@.len()
        implies chained(comps[i]@, #[trigger] comps[i]@[a], #[trigger] comps[i]@[b]) by {
        let c = comps[i]@;
        lemma_chain_from_first(c, a);
        lemma_chain_from_first(c, b);
        let pa = choose|p: Seq<Segment>| chain_in(c, p, c[0], c[a]);
        let pb = choose|p: Seq<Segment>| chain_in(c, p, c[0], c[b]);
        lemma_chain_reverse(c, pa, c[0], c[a]);
        let ra = pa.reverse();
        let q = ra + pb.drop_first();
        assert forall|k: int| 0 <= k < q.len() implies c.contains(#[trigger] q[k]) by {
            if k < ra.len() {
                assert(q[k] == ra[k]);
            } else {
                assert(q[k] == pb[k - ra.len() + 1]);
            }
        }
        assert forall|k: int| 0 <= k < q.len() - 1 implies touches(#[trigger] q[k], q[k + 1]) by {
            if k < ra.len() - 1 {
                assert(q[k] == ra[k] && q[k + 1] == ra[k + 1]);
            } else if k == ra.len() - 1 {
                assert(q[k] == c[0]);
                assert(q[k + 1] == pb[1]);
                assert(pb[0] == c[0]);
            } else {
                assert(q[k] == pb[k - ra.len() + 1] && q[k + 1] == pb[k - ra.len() + 2]);
            }
        }
        if pb.len() == 1 {
            assert(q =~= ra);
        } else {
            assert(q.last() == pb.last());
        }
        assert(chain_in(c, q, c[a], c[b]));
    }
}

} // verus!
