//! Cable routing on the voxel grid: the straight X-then-Y-then-Z route, and an
//! A* search for the cheapest route around blocked cells, where turns cost extra.

use vstd::prelude::*;

verus! {

/// A voxel cell.
#[derive(Clone, Copy, Debug, PartialEq, Eq, Structural)]
pub struct Cell {
    pub x: i32,
    pub y: i32,
    pub z: i32,
}

/// Absolute value.
pub open spec fn absi(a: int) -> int {
    if a < 0 { -a } else { a }
}

/// Manhattan distance between two cells.
pub open spec fn manhattan(a: Cell, b: Cell) -> int {
    absi(a.x - b.x) + absi(a.y - b.y) + absi(a.z - b.z)
}

/// The two cells are face neighbours.
pub open spec fn adjacent(a: Cell, b: Cell) -> bool {
    manhattan(a, b) == 1
}

/// `p` walks from `from` to `to` one face-neighbour step at a time.
pub open spec fn is_route(p: Seq<Cell>, from: Cell, to: Cell) -> bool {
    &&& p.len() > 0
    &&& p[0] == from
    &&& p.last() == to
    &&& forall|i: int| 0 <= i < p.len() - 1 ==> adjacent(#[trigger] p[i], p[i + 1])
}

/// `i` steps from `a` toward `b`.
pub open spec fn toward(a: int, b: int, i: int) -> int {
    if b >= a { a + i } else { a - i }
}

/// The X leg of the straight route, `from` included.
pub open spec fn x_leg(from: Cell, to: Cell) -> Seq<Cell> {
    Seq::new((absi(to.x - from.x) + 1) as nat, |i: int| Cell { x: toward(from.x as int, to.x as int, i) as i32, y: from.y, z: from.z })
}

/// The Y leg of the straight route.
pub open spec fn y_leg(from: Cell, to: Cell) -> Seq<Cell> {
    Seq::new(absi(to.y - from.y) as nat, |i: int| Cell { x: to.x, y: toward(from.y as int, to.y as int, i + 1) as i32, z: from.z })
}

/// The Z leg of the straight route.
pub open spec fn z_leg(from: Cell, to: Cell) -> Seq<Cell> {
    Seq::new(absi(to.z - from.z) as nat, |i: int| Cell { x: to.x, y: to.y, z: toward(from.z as int, to.z as int, i + 1) as i32 })
}

/// The straight route: along X, then Y, then Z.
pub open spec fn straight_route(from: Cell, to: Cell) -> Seq<Cell> {
    x_leg(from, to) + y_leg(from, to) + z_leg(from, to)
}

fn step(a: i32, b: i32) -> (r: i32)
    requires
        a != b,
    ensures
        r == toward(a as int, b as int, 1),
{
    if b > a { a + 1 } else { a - 1 }
}

/// The straight route from `from` to `to`, stepping along X, then Y, then Z.
pub fn auto_route(from: Cell, to: Cell) -> (path: Vec<Cell>)
    ensures
        path@ == straight_route(from, to),
{
    let mut path: Vec<Cell> = Vec::new();
    path.push(from);
    let mut cur = from;
    assert(path@ =~= x_leg(from, to).subrange(0, 1));
    while cur.x != to.x
        invariant
            cur.y == from.y,
            cur.z == from.z,
            absi(cur.x - from.x) <= absi(to.x - from.x),
            cur.x == toward(from.x as int, to.x as int, absi(cur.x - from.x)),
            path@ == x_leg(from, to).subrange(0, absi(cur.x - from.x) + 1),
        decreases absi(to.x - cur.x),
    {
        let ghost k = absi(cur.x - from.x);
        let ghost p0 = path@;
        cur.x = step(cur.x, to.x);
        assert(absi(cur.x - from.x) == k + 1);
        assert(k + 1 <= absi(to.x - from.x));
        assert(cur == x_leg(from, to)[k + 1]);
        path.push(cur);
        assert(path@ =~= x_leg(from, to).subrange(0, k + 2));
    }
    assert(path@ =~= x_leg(from, to));
    while cur.y != to.y
        invariant
            cur.x == to.x,
            cur.z == from.z,
            absi(cur.y - from.y) <= absi(to.y - from.y),
            cur.y == toward(from.y as int, to.y as int, absi(cur.y - from.y)),
            path@ == x_leg(from, to) + y_leg(from, to).subrange(0, absi(cur.y - from.y)),
        decreases absi(to.y - cur.y),
    {
        let ghost k = absi(cur.y - from.y);
        cur.y = step(cur.y, to.y);
        assert(absi(cur.y - from.y) == k + 1);
        assert(k + 1 <= absi(to.y - from.y));
        assert(cur == y_leg(from, to)[k]);
        path.push(cur);
        assert(path@ =~= x_leg(from, to) + y_leg(from, to).subrange(0, k + 1));
    }
    assert(path@ =~= x_leg(from, to) + y_leg(from, to));
    while cur.z != to.z
        invariant
            cur.x == to.x,
            cur.y == to.y,
            absi(cur.z - from.z) <= absi(to.z - from.z),
            cur.z == toward(from.z as int, to.z as int, absi(cur.z - from.z)),
            path@ == x_leg(from, to) + y_leg(from, to) + z_leg(from, to).subrange(0, absi(cur.z - from.z)),
        decreases absi(to.z - cur.z),
    {
        let ghost k = absi(cur.z - from.z);
        cur.z = step(cur.z, to.z);
        assert(absi(cur.z - from.z) == k + 1);
        assert(k + 1 <= absi(to.z - from.z));
        assert(cur == z_leg(from, to)[k]);
        path.push(cur);
        assert(path@ =~= x_leg(from, to) + y_leg(from, to) + z_leg(from, to).subrange(0, k + 1));
    }
    assert(path@ =~= x_leg(from, to) + y_leg(from, to) + z_leg(from, to));
    path
}

/// The straight route walks from `from` to `to` in `manhattan(from, to)` unit steps.
pub proof fn lemma_straight_route_is_route(from: Cell, to: Cell)
    ensures
        is_route(straight_route(from, to), from, to),
        straight_route(from, to).len() == manhattan(from, to) + 1,
{
    let xs = x_leg(from, to);
    let ys = y_leg(from, to);
    let zs = z_leg(from, to);
    let p = straight_route(from, to);
    assert(p == xs + ys + zs);
    let nx = xs.len() as int;
    let ny = ys.len() as int;
    assert forall|i: int| 0 <= i < p.len() - 1 implies adjacent(#[trigger] p[i], p[i + 1]) by {
        if i + 1 < nx {
            assert(p[i] == xs[i] && p[i + 1] == xs[i + 1]);
        } else if i + 1 == nx {
            assert(p[i] == xs[i]);
            if ny > 0 {
                assert(p[i + 1] == ys[0]);
            } else {
                assert(p[i + 1] == zs[0]);
            }
        } else if i + 1 < nx + ny {
            assert(p[i] == ys[i - nx] && p[i + 1] == ys[i + 1 - nx]);
        } else if i + 1 == nx + ny {
            assert(p[i] == ys[i - nx]);
            assert(p[i + 1] == zs[0]);
        } else {
            assert(p[i] == zs[i - nx - ny] && p[i + 1] == zs[i + 1 - nx - ny]);
        }
    }
    assert(p[0] == xs[0]);
    if zs.len() > 0 {
        assert(p.last() == zs[zs.len() - 1]);
    } else if ys.len() > 0 {
        assert(p.last() == ys[ys.len() - 1]);
    } else {
        assert(p.last() == xs[xs.len() - 1]);
    }
}


/// The six face-neighbour directions.
pub open spec fn is_dir(d: Cell) -> bool {
    absi(d.x as int) + absi(d.y as int) + absi(d.z as int) == 1
}

/// The heading before a route's first step.
pub open spec fn no_heading() -> Cell {
    Cell { x: 0, y: 0, z: 0 }
}

/// Cell `b` is one step from `a` in direction `d`.
pub open spec fn steps(a: Cell, d: Cell, b: Cell) -> bool {
    &&& b.x == a.x + d.x
    &&& b.y == a.y + d.y
    &&& b.z == a.z + d.z
}

/// Extra cost of a change of direction.
pub const TURN_PENALTY: u64 = 3;

/// The cost of a step in direction `d` after heading `prev`: one, plus the
/// turn penalty when the heading changes (the first step never turns).
pub open spec fn step_cost(prev: Cell, d: Cell) -> int {
    1 + if prev != no_heading() && d != prev { TURN_PENALTY as int } else { 0 }
}

/// The route changes direction at its cell `k`.
pub open spec fn turns_at(p: Seq<Cell>, k: int) -> bool {
    !(p[k].x - p[k - 1].x == p[k + 1].x - p[k].x && p[k].y - p[k - 1].y == p[k + 1].y - p[k].y
        && p[k].z - p[k - 1].z == p[k + 1].z - p[k].z)
}

/// What a route costs: one per step, plus `TURN_PENALTY` per change of direction.
pub open spec fn route_cost(p: Seq<Cell>) -> int
    decreases p.len(),
{
    if p.len() <= 1 {
        0
    } else {
        route_cost(p.drop_last()) + 1 + if p.len() >= 3 && turns_at(p, p.len() - 2) {
            TURN_PENALTY as int
        } else {
            0
        }
    }
}

/// A cable may enter cell `c`: it is not blocked, or it is the destination.
pub open spec fn open_cell(c: Cell, to: Cell, blocked: Seq<Cell>) -> bool {
    !blocked.contains(c) || c == to
}

/// A route from `from` to `to` whose inner cells are neither blocked nor `to`.
pub open spec fn free_route(p: Seq<Cell>, from: Cell, to: Cell, blocked: Seq<Cell>) -> bool {
    &&& is_route(p, from, to)
    &&& forall|j: int| 1 <= j < p.len() - 1 ==> !blocked.contains(#[trigger] p[j]) && p[j] != to
}

/// The search budget: how many states may be expanded.
pub open spec fn search_budget(from: Cell, to: Cell) -> int {
    manhattan(from, to) * 30 + 500
}

/// The heading with which a route arrives at its cell `k`.
pub open spec fn heading_at(r: Seq<Cell>, k: int) -> Cell {
    if k == 0 {
        no_heading()
    } else {
        Cell {
            x: (r[k].x - r[k - 1].x) as i32,
            y: (r[k].y - r[k - 1].y) as i32,
            z: (r[k].z - r[k - 1].z) as i32,
        }
    }
}

proof fn lemma_step_dir(a: Cell, d: Cell, b: Cell)
    requires
        is_dir(d),
        steps(a, d, b),
    ensures
        adjacent(a, b),
        d != no_heading(),
{
}

proof fn lemma_route_step(r: Seq<Cell>, k: int)
    requires
        0 <= k < r.len() - 1,
        forall|i: int| 0 <= i < r.len() - 1 ==> adjacent(#[trigger] r[i], r[i + 1]),
    ensures
        is_dir(heading_at(r, k + 1)),
        steps(r[k], heading_at(r, k + 1), r[k + 1]),
        route_cost(r.subrange(0, k + 2)) == route_cost(r.subrange(0, k + 1)) + step_cost(heading_at(r, k), heading_at(r, k + 1)),
{
    assert(adjacent(r[k], r[k + 1]));
    let e = heading_at(r, k + 1);
    assert(e.x == r[k + 1].x - r[k].x && e.y == r[k + 1].y - r[k].y && e.z == r[k + 1].z - r[k].z);
    let sub = r.subrange(0, k + 2);
    assert(sub.drop_last() =~= r.subrange(0, k + 1));
    if k >= 1 {
        assert(adjacent(r[k - 1], r[k]));
        let p = heading_at(r, k);
        assert(p.x == r[k].x - r[k - 1].x && p.y == r[k].y - r[k - 1].y && p.z == r[k].z - r[k - 1].z);
        assert(p != no_heading());
        assert(sub[k - 1] == r[k - 1] && sub[k] == r[k] && sub[k + 1] == r[k + 1]);
        assert(turns_at(sub, k) <==> e != p);
    }
}

proof fn lemma_cost_tail(r: Seq<Cell>, k: int, j: int)
    requires
        0 <= k <= j < r.len(),
    ensures
        route_cost(r.subrange(0, j + 1)) >= route_cost(r.subrange(0, k + 1)) + (j - k),
    decreases j - k,
{
    if j > k {
        lemma_cost_tail(r, k, j - 1);
        assert(r.subrange(0, j + 1).drop_last() =~= r.subrange(0, j));
    }
}

proof fn lemma_distance_left(r: Seq<Cell>, k: int)
    requires
        0 <= k < r.len(),
        forall|i: int| 0 <= i < r.len() - 1 ==> adjacent(#[trigger] r[i], r[i + 1]),
    ensures
        manhattan(r[k], r.last()) <= r.len() - 1 - k,
    decreases r.len() - k,
{
    if k < r.len() - 1 {
        lemma_distance_left(r, k + 1);
        assert(adjacent(r[k], r[k + 1]));
    }
}

struct SearchNode {
    pos: Cell,
    dir: Cell,
    g: u64,
    f: u64,
    parent: usize,
    has_parent: bool,
    depth: u64,
}

spec fn arena_ok(a: Seq<SearchNode>, from: Cell, to: Cell, blocked: Seq<Cell>, explored: int) -> bool {
    &&& a.len() >= 1
    &&& a[0].pos == from
    &&& !a[0].has_parent
    &&& a[0].depth == 0
    &&& a[0].dir == no_heading()
    &&& a[0].g == 0
    &&& forall|i: int| 0 <= i < a.len() ==> (#[trigger] a[i]).depth <= explored
    &&& forall|i: int| 0 <= i < a.len() ==> (#[trigger] a[i]).g <= 4 * a[i].depth
    &&& forall|i: int| 0 <= i < a.len() ==> (#[trigger] a[i]).f == a[i].g + manhattan(a[i].pos, to)
    &&& forall|i: int| 1 <= i < a.len() ==> {
        &&& (#[trigger] a[i]).has_parent
        &&& a[i].parent < i
        &&& is_dir(a[i].dir)
        &&& steps(a[a[i].parent as int].pos, a[i].dir, a[i].pos)
        &&& a[i].g == a[a[i].parent as int].g + step_cost(a[a[i].parent as int].dir, a[i].dir)
        &&& open_cell(a[i].pos, to, blocked)
        &&& a[a[i].parent as int].pos != to
    }
}

spec fn chain(a: Seq<SearchNode>, i: int) -> Seq<Cell>
    decreases i,
{
    if 0 <= i < a.len() && a[i].has_parent && 0 <= a[i].parent < i {
        chain(a, a[i].parent as int).push(a[i].pos)
    } else {
        seq![a[i].pos]
    }
}

proof fn lemma_chain(a: Seq<SearchNode>, from: Cell, to: Cell, blocked: Seq<Cell>, explored: int, i: int)
    requires
        arena_ok(a, from, to, blocked, explored),
        0 <= i < a.len(),
    ensures
        is_route(chain(a, i), from, a[i].pos),
        forall|j: int| 1 <= j < chain(a, i).len() ==> open_cell(#[trigger] chain(a, i)[j], to, blocked),
        forall|j: int| 0 <= j < chain(a, i).len() - 1 ==> #[trigger] chain(a, i)[j] != to,
        route_cost(chain(a, i)) == a[i].g,
        i == 0 ==> chain(a, i).len() == 1,
        i >= 1 ==> chain(a, i).len() >= 2 && steps(chain(a, i)[chain(a, i).len() - 2], a[i].dir, a[i].pos),
    decreases i,
{
    if i == 0 {
        assert(chain(a, i) =~= seq![from]);
    } else {
        let p = a[i].parent as int;
        lemma_chain(a, from, to, blocked, explored, p);
        let c = chain(a, p);
        let ci = chain(a, i);
        assert(ci == c.push(a[i].pos));
        lemma_step_dir(a[p].pos, a[i].dir, a[i].pos);
        assert forall|k: int| 0 <= k < ci.len() - 1 implies adjacent(#[trigger] ci[k], ci[k + 1]) by {
            if k < c.len() - 1 {
                assert(ci[k] == c[k] && ci[k + 1] == c[k + 1]);
            } else {
                assert(ci[k] == c.last());
            }
        }
        assert forall|j: int| 1 <= j < ci.len() implies open_cell(#[trigger] ci[j], to, blocked) by {
            if j < c.len() {
                assert(ci[j] == c[j]);
            }
        }
        assert forall|j: int| 0 <= j < ci.len() - 1 implies #[trigger] ci[j] != to by {
            assert(ci[j] == c[j]);
            if j == c.len() - 1 {
                assert(c[j] == a[p].pos);
            }
        }
        assert(ci.drop_last() =~= c);
        if p >= 1 {
            assert(ci[ci.len() - 3] == c[c.len() - 2]);
            assert(ci[ci.len() - 2] == c.last());
            lemma_step_dir(c[c.len() - 2], a[p].dir, a[p].pos);
            let dp = a[p].dir;
            let di = a[i].dir;
            assert(turns_at(ci, ci.len() - 2) <==> di != dp);
        }
    }
}

/// The best cost recorded for state (`p`, `d`): the first matching entry.
spec fn score_of(s: Seq<(Cell, Cell, u64)>, p: Cell, d: Cell) -> Option<u64>
    decreases s.len(),
{
    if s.len() == 0 {
        None
    } else if s[0].0 == p && s[0].1 == d {
        Some(s[0].2)
    } else {
        score_of(s.drop_first(), p, d)
    }
}

proof fn lemma_score_update(s: Seq<(Cell, Cell, u64)>, i: int, p: Cell, d: Cell, g: u64, q: Cell, e: Cell)
    requires
        0 <= i < s.len(),
        s[i].0 == p && s[i].1 == d,
        forall|j: int| 0 <= j < i ==> !((#[trigger] s[j]).0 == p && s[j].1 == d),
    ensures
        score_of(s.update(i, (p, d, g)), q, e) == if q == p && e == d { Some(g) } else { score_of(s, q, e) },
    decreases i,
{
    let t = s.update(i, (p, d, g));
    if i == 0 {
        assert(t.drop_first() =~= s.drop_first());
    } else {
        assert(!(s[0].0 == p && s[0].1 == d));
        assert(t[0] == s[0]);
        assert(t.drop_first() =~= s.drop_first().update(i - 1, (p, d, g)));
        assert forall|j: int| 0 <= j < i - 1 implies !((#[trigger] s.drop_first()[j]).0 == p && s.drop_first()[j].1 == d) by {
            assert(s.drop_first()[j] == s[j + 1]);
        }
        lemma_score_update(s.drop_first(), i - 1, p, d, g, q, e);
    }
}

proof fn lemma_score_push(s: Seq<(Cell, Cell, u64)>, p: Cell, d: Cell, g: u64, q: Cell, e: Cell)
    requires
        forall|j: int| 0 <= j < s.len() ==> !((#[trigger] s[j]).0 == p && s[j].1 == d),
    ensures
        score_of(s.push((p, d, g)), q, e) == if q == p && e == d { Some(g) } else { score_of(s, q, e) },
    decreases s.len(),
{
    let t = s.push((p, d, g));
    if s.len() == 0 {
        assert(t[0] == (p, d, g));
        assert(t.drop_first() =~= Seq::<(Cell, Cell, u64)>::empty());
        assert(score_of(t.drop_first(), q, e) is None);
    } else {
        assert(t[0] == s[0]);
        assert(t.drop_first() =~= s.drop_first().push((p, d, g)));
        assert forall|j: int| 0 <= j < s.drop_first().len() implies !((#[trigger] s.drop_first()[j]).0 == p && s.drop_first()[j].1 == d) by {
            assert(s.drop_first()[j] == s[j + 1]);
        }
        lemma_score_push(s.drop_first(), p, d, g, q, e);
    }
}

/// The position of the first entry for state (`p`, `d`).
spec fn first_match(s: Seq<(Cell, Cell, u64)>, p: Cell, d: Cell) -> Option<int>
    decreases s.len(),
{
    if s.len() == 0 {
        None
    } else if s[0].0 == p && s[0].1 == d {
        Some(0)
    } else {
        match first_match(s.drop_first(), p, d) {
            Some(i) => Some(i + 1),
            None => None,
        }
    }
}

/// The scores after recording cost `g` for state (`p`, `d`): its first entry
/// is overwritten, or a new entry is appended.
spec fn set_score(s: Seq<(Cell, Cell, u64)>, p: Cell, d: Cell, g: u64) -> Seq<(Cell, Cell, u64)> {
    match first_match(s, p, d) {
        Some(i) => s.update(i, (p, d, g)),
        None => s.push((p, d, g)),
    }
}

proof fn lemma_first_match(s: Seq<(Cell, Cell, u64)>, p: Cell, d: Cell, i: int)
    requires
        0 <= i <= s.len(),
        forall|j: int| 0 <= j < i ==> !((#[trigger] s[j]).0 == p && s[j].1 == d),
        i < s.len() ==> s[i].0 == p && s[i].1 == d,
    ensures
        first_match(s, p, d) == if i < s.len() { Some(i) } else { None::<int> },
    decreases s.len(),
{
    if s.len() > 0 && i > 0 {
        let t = s.drop_first();
        assert forall|j: int| 0 <= j < i - 1 implies !((#[trigger] t[j]).0 == p && t[j].1 == d) by {
            assert(t[j] == s[j + 1]);
        }
        assert(!(s[0].0 == p && s[0].1 == d));
        if i < s.len() {
            assert(t[i - 1] == s[i]);
        }
        lemma_first_match(t, p, d, i - 1);
    }
}

fn best_g(scores: &Vec<(Cell, Cell, u64)>, pos: Cell, dir: Cell) -> (r: Option<u64>)
    ensures
        r == score_of(scores@, pos, dir),
{
    let ghost s = scores@;
    let mut i: usize = 0;
    assert(s.subrange(0, s.len() as int) =~= s);
    while i < scores.len()
        invariant
            i <= s.len(),
            s == scores@,
            score_of(s, pos, dir) == score_of(s.subrange(i as int, s.len() as int), pos, dir),
        decreases s.len() - i,
    {
        let ghost t = s.subrange(i as int, s.len() as int);
        assert(t[0] == s[i as int]);
        assert(t.drop_first() =~= s.subrange(i + 1, s.len() as int));
        if scores[i].0 == pos && scores[i].1 == dir {
            return Some(scores[i].2);
        }
        i += 1;
    }
    None
}

fn set_g(scores: &mut Vec<(Cell, Cell, u64)>, pos: Cell, dir: Cell, g: u64)
    ensures
        final(scores)@ == set_score(old(scores)@, pos, dir, g),
        forall|q: Cell, e: Cell| #[trigger] score_of(final(scores)@, q, e)
            == if q == pos && e == dir { Some(g) } else { score_of(old(scores)@, q, e) },
{
    let ghost s0 = scores@;
    let mut i: usize = 0;
    while i < scores.len()
        invariant
            i <= s0.len(),
            scores@ == s0,
            forall|j: int| 0 <= j < i ==> !((#[trigger] s0[j]).0 == pos && s0[j].1 == dir),
        ensures
            i <= s0.len(),
            forall|j: int| 0 <= j < i ==> !((#[trigger] s0[j]).0 == pos && s0[j].1 == dir),
            i < s0.len() ==> s0[i as int].0 == pos && s0[i as int].1 == dir,
        decreases s0.len() - i,
    {
        if scores[i].0 == pos && scores[i].1 == dir {
            break;
        }
        i += 1;
    }
    proof {
        lemma_first_match(s0, pos, dir, i as int);
    }
    if i < scores.len() {
        scores.set(i, (pos, dir, g));
        proof {
            assert forall|q: Cell, e: Cell| #[trigger] score_of(scores@, q, e)
                == if q == pos && e == dir { Some(g) } else { score_of(s0, q, e) } by {
                lemma_score_update(s0, i as int, pos, dir, g, q, e);
            }
        }
    } else {
        scores.push((pos, dir, g));
        proof {
            assert forall|q: Cell, e: Cell| #[trigger] score_of(scores@, q, e)
                == if q == pos && e == dir { Some(g) } else { score_of(s0, q, e) } by {
                lemma_score_push(s0, pos, dir, g, q, e);
            }
        }
    }
}

/// A node of the heap holds state (`p`, `d`) with cost `v`.
spec fn witnessed(a: Seq<SearchNode>, h: Seq<usize>, p: Cell, d: Cell, v: u64) -> bool {
    exists|k: int| #![trigger h[k]] 0 <= k < h.len() && a[h[k] as int].pos == p && a[h[k] as int].dir == d && a[h[k] as int].g == v
}

/// Every open step out of state (`p`, `d`) reaches a state recorded at no more
/// than the cost of (`p`, `d`) plus the step's cost.
spec fn closed(s: Seq<(Cell, Cell, u64)>, p: Cell, d: Cell, to: Cell, blocked: Seq<Cell>) -> bool {
    forall|t: Cell, e: Cell| #![trigger steps(p, e, t)] is_dir(e) && steps(p, e, t) && open_cell(t, to, blocked)
        ==> score_of(s, t, e) is Some && score_of(s, t, e).unwrap() <= score_of(s, p, d).unwrap() + step_cost(d, e)
}

/// Every recorded state is in the heap at its recorded cost, or closed (never
/// at `to`), save the state `ex` being expanded.
spec fn frontier_ok(a: Seq<SearchNode>, h: Seq<usize>, s: Seq<(Cell, Cell, u64)>, to: Cell, blocked: Seq<Cell>, ex: Option<(Cell, Cell)>) -> bool {
    forall|p: Cell, d: Cell| #![trigger score_of(s, p, d)] score_of(s, p, d) is Some ==> {
        ||| ex == Some((p, d))
        ||| witnessed(a, h, p, d, score_of(s, p, d).unwrap())
        ||| p != to && closed(s, p, d, to, blocked)
    }
}

/// Each heap node refers into the arena, and its state is recorded at no more than its cost.
spec fn heap_sound(a: Seq<SearchNode>, h: Seq<usize>, s: Seq<(Cell, Cell, u64)>) -> bool {
    forall|k: int| 0 <= k < h.len() ==> {
        &&& (#[trigger] h[k]) < a.len()
        &&& score_of(s, a[h[k] as int].pos, a[h[k] as int].dir) is Some
        &&& score_of(s, a[h[k] as int].pos, a[h[k] as int].dir).unwrap() <= a[h[k] as int].g
    }
}

/// No recorded cost of `s0` rose or disappeared in `s1`.
spec fn scores_drop(s0: Seq<(Cell, Cell, u64)>, s1: Seq<(Cell, Cell, u64)>) -> bool {
    forall|q: Cell, e: Cell| #![trigger score_of(s1, q, e)] score_of(s0, q, e) is Some ==> score_of(s1, q, e) is Some
        && score_of(s1, q, e).unwrap() <= score_of(s0, q, e).unwrap()
}

proof fn lemma_frontier_keep(
    a0: Seq<SearchNode>, h0: Seq<usize>, s0: Seq<(Cell, Cell, u64)>,
    a1: Seq<SearchNode>, h1: Seq<usize>, s1: Seq<(Cell, Cell, u64)>,
    to: Cell, blocked: Seq<Cell>, ex: Option<(Cell, Cell)>,
)
    requires
        frontier_ok(a0, h0, s0, to, blocked, ex),
        heap_sound(a0, h0, s0),
        a1.len() >= a0.len(),
        forall|i: int| 0 <= i < a0.len() ==> a1[i] == a0[i],
        h1.len() >= h0.len(),
        forall|k: int| 0 <= k < h0.len() ==> h1[k] == h0[k],
        scores_drop(s0, s1),
        forall|q: Cell, e: Cell| #![trigger score_of(s1, q, e)] score_of(s1, q, e) is Some ==>
            score_of(s1, q, e) == score_of(s0, q, e) || witnessed(a1, h1, q, e, score_of(s1, q, e).unwrap()),
    ensures
        frontier_ok(a1, h1, s1, to, blocked, ex),
{
    assert forall|p: Cell, d: Cell| #[trigger] score_of(s1, p, d) is Some implies {
        ||| ex == Some((p, d))
        ||| witnessed(a1, h1, p, d, score_of(s1, p, d).unwrap())
        ||| p != to && closed(s1, p, d, to, blocked)
    } by {
        if score_of(s1, p, d) == score_of(s0, p, d) && !witnessed(a1, h1, p, d, score_of(s1, p, d).unwrap()) {
            let v = score_of(s0, p, d).unwrap();
            if witnessed(a0, h0, p, d, v) {
                let k = choose|k: int| #![trigger h0[k]] 0 <= k < h0.len() && a0[h0[k] as int].pos == p && a0[h0[k] as int].dir == d && a0[h0[k] as int].g == v;
                assert(h1[k] == h0[k]);
                assert(a1[h0[k] as int] == a0[h0[k] as int]);
            } else if ex != Some((p, d)) {
                assert(p != to && closed(s0, p, d, to, blocked));
                assert forall|t: Cell, e: Cell| #![trigger steps(p, e, t)] is_dir(e) && steps(p, e, t) && open_cell(t, to, blocked)
                    implies score_of(s1, t, e) is Some && score_of(s1, t, e).unwrap() <= score_of(s1, p, d).unwrap() + step_cost(d, e) by {
                    assert(score_of(s0, t, e) is Some);
                }
            }
        }
    }
}

proof fn lemma_witness_remove(a: Seq<SearchNode>, h: Seq<usize>, m: int, p: Cell, d: Cell, v: u64)
    requires
        0 <= m < h.len(),
        witnessed(a, h, p, d, v),
        !(a[h[m] as int].pos == p && a[h[m] as int].dir == d && a[h[m] as int].g == v),
    ensures
        witnessed(a, h.remove(m), p, d, v),
{
    let k = choose|k: int| #![trigger h[k]] 0 <= k < h.len() && a[h[k] as int].pos == p && a[h[k] as int].dir == d && a[h[k] as int].g == v;
    let h1 = h.remove(m);
    if k < m {
        assert(h1[k] == h[k]);
    } else {
        assert(k > m);
        assert(h1[k - 1] == h[k]);
    }
}

proof fn lemma_frontier(
    a: Seq<SearchNode>, h: Seq<usize>, s: Seq<(Cell, Cell, u64)>,
    to: Cell, blocked: Seq<Cell>, from: Cell, r: Seq<Cell>, k: int,
)
    requires
        forall|i: int| 0 <= i < a.len() ==> (#[trigger] a[i]).f == a[i].g + manhattan(a[i].pos, to),
        heap_sound(a, h, s),
        frontier_ok(a, h, s, to, blocked, None),
        free_route(r, from, to, blocked),
        0 <= k < r.len(),
        score_of(s, r[k], heading_at(r, k)) is Some,
        score_of(s, r[k], heading_at(r, k)).unwrap() <= route_cost(r.subrange(0, k + 1)),
    ensures
        exists|j: int| 0 <= j < h.len() && a[h[j] as int].f <= route_cost(r),
    decreases r.len() - k,
{
    let v = score_of(s, r[k], heading_at(r, k)).unwrap();
    lemma_cost_tail(r, k, r.len() - 1);
    assert(r.subrange(0, r.len() as int) =~= r);
    lemma_distance_left(r, k);
    if witnessed(a, h, r[k], heading_at(r, k), v) {
        let j = choose|j: int| #![trigger h[j]] 0 <= j < h.len() && a[h[j] as int].pos == r[k] && a[h[j] as int].dir == heading_at(r, k) && a[h[j] as int].g == v;
        assert(h[j] < a.len());
        assert(a[h[j] as int].f <= route_cost(r));
    } else {
        assert(r[k] != to && closed(s, r[k], heading_at(r, k), to, blocked));
        assert(k < r.len() - 1);
        lemma_route_step(r, k);
        let e = heading_at(r, k + 1);
        let t = r[k + 1];
        assert(steps(r[k], e, t));
        assert(open_cell(t, to, blocked));
        lemma_frontier(a, h, s, to, blocked, from, r, k + 1);
    }
}

proof fn lemma_heap_remove(a: Seq<SearchNode>, h: Seq<usize>, m: int, s: Seq<(Cell, Cell, u64)>)
    requires
        0 <= m < h.len(),
        heap_sound(a, h, s),
    ensures
        heap_sound(a, h.remove(m), s),
{
    let h1 = h.remove(m);
    assert forall|k: int| 0 <= k < h1.len() implies {
        &&& (#[trigger] h1[k]) < a.len()
        &&& score_of(s, a[h1[k] as int].pos, a[h1[k] as int].dir) is Some
        &&& score_of(s, a[h1[k] as int].pos, a[h1[k] as int].dir).unwrap() <= a[h1[k] as int].g
    } by {
        if k < m {
            assert(h1[k] == h[k]);
        } else {
            assert(h1[k] == h[k + 1]);
        }
    }
}

/// Popping a heap node keeps the frontier: a stale node witnesses nothing, and
/// a current one leaves only its own state to be expanded.
proof fn lemma_pop(a: Seq<SearchNode>, h: Seq<usize>, m: int, s: Seq<(Cell, Cell, u64)>, to: Cell, blocked: Seq<Cell>)
    requires
        0 <= m < h.len(),
        heap_sound(a, h, s),
        frontier_ok(a, h, s, to, blocked, None),
    ensures
        ({
            let n = a[h[m] as int];
            &&& score_of(s, n.pos, n.dir).unwrap() < n.g ==> frontier_ok(a, h.remove(m), s, to, blocked, None)
            &&& score_of(s, n.pos, n.dir) == Some(n.g) ==> frontier_ok(a, h.remove(m), s, to, blocked, Some((n.pos, n.dir)))
        }),
{
    let n = a[h[m] as int];
    let h1 = h.remove(m);
    assert forall|p: Cell, d: Cell| #![trigger score_of(s, p, d)] score_of(s, p, d) is Some && witnessed(a, h, p, d, score_of(s, p, d).unwrap())
        && !(p == n.pos && d == n.dir && score_of(s, p, d) == Some(n.g)) implies witnessed(a, h1, p, d, score_of(s, p, d).unwrap()) by {
        lemma_witness_remove(a, h, m, p, d, score_of(s, p, d).unwrap());
    }
}

proof fn lemma_goal_optimal(
    a: Seq<SearchNode>, h: Seq<usize>, m: int, s: Seq<(Cell, Cell, u64)>,
    from: Cell, to: Cell, blocked: Seq<Cell>, explored: int,
)
    requires
        0 <= m < h.len(),
        arena_ok(a, from, to, blocked, explored),
        heap_sound(a, h, s),
        frontier_ok(a, h, s, to, blocked, None),
        score_of(s, from, no_heading()) == Some(0u64),
        a[h[m] as int].pos == to,
        forall|i: int| 0 <= i < h.len() ==> a[h[m] as int].f <= a[#[trigger] h[i] as int].f,
    ensures
        free_route(chain(a, h[m] as int), from, to, blocked),
        forall|r: Seq<Cell>| #[trigger] free_route(r, from, to, blocked) ==> route_cost(chain(a, h[m] as int)) <= route_cost(r),
{
    let idx = h[m] as int;
    lemma_chain(a, from, to, blocked, explored, idx);
    assert forall|r: Seq<Cell>| #[trigger] free_route(r, from, to, blocked) implies route_cost(chain(a, idx)) <= route_cost(r) by {
        assert(r.subrange(0, 1).len() == 1);
        assert(heading_at(r, 0) == no_heading());
        lemma_frontier(a, h, s, to, blocked, from, r, 0);
        let jj = choose|jj: int| 0 <= jj < h.len() && a[h[jj] as int].f <= route_cost(r);
        assert(a[idx].f <= a[h[jj] as int].f);
    }
}

/// The state of the route search: the nodes found, the heap of open nodes,
/// the best cost recorded per (cell, heading), and the expansions so far.
ghost struct SearchModel {
    arena: Seq<SearchNode>,
    heap: Seq<usize>,
    scores: Seq<(Cell, Cell, u64)>,
    explored: nat,
}

/// Cell `pos` moved one step in direction `d`, when it lies on the `i32` grid.
spec fn next_of(pos: Cell, d: Cell) -> Option<Cell> {
    let x = pos.x + d.x;
    let y = pos.y + d.y;
    let z = pos.z + d.z;
    if i32::MIN <= x <= i32::MAX && i32::MIN <= y <= i32::MAX && i32::MIN <= z <= i32::MAX {
        Some(Cell { x: x as i32, y: y as i32, z: z as i32 })
    } else {
        None
    }
}

/// The position in `h[0..j]` of the first node of least `f`.
spec fn min_pos(a: Seq<SearchNode>, h: Seq<usize>, j: int) -> int
    decreases j,
{
    if j <= 1 {
        0
    } else {
        let m = min_pos(a, h, j - 1);
        if a[h[j - 1] as int].f < a[h[m] as int].f {
            j - 1
        } else {
            m
        }
    }
}

/// The step from node `idx` in direction `d`: an open neighbour on the grid
/// whose cost beats its recorded one gets a new node, in the heap, and the
/// new cost is recorded.
spec fn relax_spec(st: SearchModel, idx: int, d: Cell, blocked: Seq<Cell>, to: Cell) -> SearchModel {
    let n = st.arena[idx];
    match next_of(n.pos, d) {
        None => st,
        Some(next) => {
            let new_g = (n.g + step_cost(n.dir, d)) as u64;
            let better = match score_of(st.scores, next, d) {
                Some(b) => new_g < b,
                None => true,
            };
            if !open_cell(next, to, blocked) || !better {
                st
            } else {
                let node = SearchNode {
                    pos: next,
                    dir: d,
                    g: new_g,
                    f: (new_g + manhattan(next, to)) as u64,
                    parent: idx as usize,
                    has_parent: true,
                    depth: (n.depth + 1) as u64,
                };
                SearchModel {
                    arena: st.arena.push(node),
                    heap: st.heap.push(st.arena.len() as usize),
                    scores: set_score(st.scores, next, d, new_g),
                    explored: st.explored,
                }
            }
        },
    }
}

/// Node `idx` expanded in the first `k` of the six directions, in order.
spec fn expand_spec(st: SearchModel, idx: int, k: int, blocked: Seq<Cell>, to: Cell) -> SearchModel
    decreases k,
{
    if k <= 0 {
        st
    } else {
        relax_spec(expand_spec(st, idx, k - 1, blocked, to), idx, six_dirs()[k - 1], blocked, to)
    }
}

proof fn lemma_expand_explored(st: SearchModel, idx: int, k: int, blocked: Seq<Cell>, to: Cell)
    ensures
        expand_spec(st, idx, k, blocked, to).explored == st.explored,
    decreases k,
{
    if k > 0 {
        lemma_expand_explored(st, idx, k - 1, blocked, to);
    }
}

/// The search run from state `st` until it pops a node at `to` (the route to
/// that node), runs out of open nodes, or has made `budget` expansions (`None`).
spec fn run(st: SearchModel, to: Cell, blocked: Seq<Cell>, budget: nat) -> Option<Seq<Cell>>
    decreases budget - st.explored,
{
    if st.explored >= budget || st.heap.len() == 0 {
        None
    } else {
        let m = min_pos(st.arena, st.heap, st.heap.len() as int);
        let idx = st.heap[m] as int;
        let n = st.arena[idx];
        let st1 = SearchModel { heap: st.heap.remove(m), explored: st.explored + 1, ..st };
        if n.pos == to {
            Some(chain(st.arena, idx))
        } else if score_of(st.scores, n.pos, n.dir) matches Some(b) && b < n.g {
            run(st1, to, blocked, budget)
        } else {
            proof {
                lemma_expand_explored(st1, idx, 6, blocked, to);
            }
            run(expand_spec(st1, idx, 6, blocked, to), to, blocked, budget)
        }
    }
}

proof fn lemma_run_unfold(st: SearchModel, to: Cell, blocked: Seq<Cell>, budget: nat)
    ensures
        st.explored >= budget || st.heap.len() == 0 ==> run(st, to, blocked, budget) is None,
        st.explored < budget && st.heap.len() > 0 ==> ({
            let m = min_pos(st.arena, st.heap, st.heap.len() as int);
            let idx = st.heap[m] as int;
            let n = st.arena[idx];
            let st1 = SearchModel { heap: st.heap.remove(m), explored: st.explored + 1, ..st };
            &&& n.pos == to ==> run(st, to, blocked, budget) == Some(chain(st.arena, idx))
            &&& n.pos != to && (score_of(st.scores, n.pos, n.dir) matches Some(b) && b < n.g)
                ==> run(st, to, blocked, budget) == run(st1, to, blocked, budget)
            &&& n.pos != to && !(score_of(st.scores, n.pos, n.dir) matches Some(b) && b < n.g)
                ==> run(st, to, blocked, budget) == run(expand_spec(st1, idx, 6, blocked, to), to, blocked, budget)
        }),
{
}

/// The search's first state: the node at `from`, with no heading and cost zero.
spec fn search_start(from: Cell, to: Cell) -> SearchModel {
    SearchModel {
        arena: seq![SearchNode { pos: from, dir: no_heading(), g: 0, f: manhattan(from, to) as u64, parent: 0, has_parent: false, depth: 0 }],
        heap: seq![0usize],
        scores: seq![(from, no_heading(), 0u64)],
        explored: 0,
    }
}

/// What the A* search over (cell, heading) states finds within its budget of
/// `search_budget(from, to)` expansions: the route to the first node it pops
/// at `to`, or `None`.
pub closed spec fn route_search(from: Cell, to: Cell, blocked: Seq<Cell>) -> Option<Seq<Cell>> {
    run(search_start(from, to), to, blocked, search_budget(from, to) as nat)
}

fn abs_diff(a: i32, b: i32) -> (r: u64)
    ensures
        r == absi(a - b),
{
    let d = a as i64 - b as i64;
    if d < 0 { (-d) as u64 } else { d as u64 }
}

fn dist(a: Cell, b: Cell) -> (r: u64)
    ensures
        r == manhattan(a, b),
{
    abs_diff(a.x, b.x) + abs_diff(a.y, b.y) + abs_diff(a.z, b.z)
}

fn cells_contain(v: &Vec<Cell>, c: Cell) -> (b: bool)
    ensures
        b == v@.contains(c),
{
    let mut i: usize = 0;
    while i < v.len()
        invariant
            i <= v@.len(),
            forall|j: int| 0 <= j < i ==> v@[j] != c,
        decreases v@.len() - i,
    {
        if v[i] == c {
            return true;
        }
        i += 1;
    }
    false
}

spec fn six_dirs() -> Seq<Cell> {
    seq![
        Cell { x: 1, y: 0, z: 0 },
        Cell { x: -1i32, y: 0, z: 0 },
        Cell { x: 0, y: 1, z: 0 },
        Cell { x: 0, y: -1i32, z: 0 },
        Cell { x: 0, y: 0, z: 1 },
        Cell { x: 0, y: 0, z: -1i32 },
    ]
}

proof fn lemma_six_dirs(e: Cell)
    requires
        is_dir(e),
    ensures
        exists|k: int| 0 <= k < 6 && #[trigger] six_dirs()[k] == e,
{
    if e.x == 1 {
        assert(six_dirs()[0] == e);
    } else if e.x == -1 {
        assert(six_dirs()[1] == e);
    } else if e.y == 1 {
        assert(six_dirs()[2] == e);
    } else if e.y == -1 {
        assert(six_dirs()[3] == e);
    } else if e.z == 1 {
        assert(six_dirs()[4] == e);
    } else {
        assert(six_dirs()[5] == e);
    }
}

fn directions() -> (d: Vec<Cell>)
    ensures
        d@ == six_dirs(),
{
    let mut d: Vec<Cell> = Vec::new();
    d.push(Cell { x: 1, y: 0, z: 0 });
    d.push(Cell { x: -1, y: 0, z: 0 });
    d.push(Cell { x: 0, y: 1, z: 0 });
    d.push(Cell { x: 0, y: -1, z: 0 });
    d.push(Cell { x: 0, y: 0, z: 1 });
    d.push(Cell { x: 0, y: 0, z: -1 });
    assert(d@ =~= six_dirs());
    d
}

fn reconstruct(arena: &Vec<SearchNode>, idx: usize) -> (path: Vec<Cell>)
    requires
        idx < arena@.len(),
    ensures
        path@ == chain(arena@, idx as int),
{
    let ghost a = arena@;
    let mut rev: Vec<Cell> = Vec::new();
    let mut cur = idx;
    loop
        invariant_except_break
            chain(a, idx as int) == chain(a, cur as int) + rev@.reverse(),
        invariant
            a == arena@,
            cur < a.len(),
        ensures
            chain(a, idx as int) == rev@.reverse(),
        decreases cur,
    {
        let ghost r0 = rev@;
        let node = &arena[cur];
        rev.push(node.pos);
        if !node.has_parent || node.parent >= cur {
            proof {
                assert(chain(a, cur as int) == seq![node.pos]);
                assert(rev@.reverse() =~= seq![node.pos] + r0.reverse());
            }
            break;
        }
        proof {
            assert(chain(a, cur as int) == chain(a, node.parent as int).push(node.pos));
            assert(rev@.reverse() =~= seq![node.pos] + r0.reverse());
            assert(chain(a, node.parent as int).push(node.pos) + r0.reverse() =~= chain(a, node.parent as int) + rev@.reverse());
        }
        cur = node.parent;
    }
    let mut path: Vec<Cell> = Vec::new();
    let mut k = rev.len();
    while k > 0
        invariant
            k <= rev@.len(),
            path@ == rev@.reverse().subrange(0, (rev@.len() - k) as int),
        decreases k,
    {
        k -= 1;
        path.push(rev[k]);
        assert(path@ =~= rev@.reverse().subrange(0, (rev@.len() - k) as int));
    }
    assert(path@ =~= rev@.reverse());
    path
}

/// The cheapest route from `from` to `to` that avoids the blocked cells (`to`
/// itself may be blocked), where a route costs one per step plus
/// `TURN_PENALTY` per change of direction. It is found by A* over (cell,
/// heading) states, guided by the Manhattan distance to `to`. When the search
/// finds nothing within its budget of `30 × distance + 500` expansions, the
/// straight route is returned instead. Cells outside the `i32` grid are never
/// entered.
#[verifier::spinoff_prover]
#[verifier::rlimit(100)]
pub fn route_avoiding(from: Cell, to: Cell, blocked: &Vec<Cell>) -> (path: Vec<Cell>)
    requires
        search_budget(from, to) <= u32::MAX,
    ensures
        is_route(path@, from, to),
        from == to ==> path@ == seq![from],
        match route_search(from, to, blocked@) {
            Some(p) => {
                &&& path@ == p
                &&& free_route(p, from, to, blocked@)
                &&& forall|r: Seq<Cell>| #[trigger] free_route(r, from, to, blocked@) ==> route_cost(p) <= route_cost(r)
            },
            None => path@ == straight_route(from, to),
        },
{
    if from == to {
        let mut p: Vec<Cell> = Vec::new();
        p.push(from);
        proof {
            let st = search_start(from, to);
            assert(st.heap[0] == 0);
            assert(chain(st.arena, 0) =~= seq![from]);
            assert(route_search(from, to, blocked@) == Some(seq![from]));
            assert forall|r: Seq<Cell>| #[trigger] free_route(r, from, to, blocked@) implies route_cost(seq![from]) <= route_cost(r) by {
                lemma_cost_tail(r, 0, r.len() - 1);
                assert(r.subrange(0, r.len() as int) =~= r);
            }
            assert(p@ =~= seq![from]);
        }
        return p;
    }
    let dirs = directions();
    let zero = Cell { x: 0, y: 0, z: 0 };
    let max_nodes: u64 = dist(from, to) * 30 + 500;
    let mut explored: u64 = 0;
    let mut scores: Vec<(Cell, Cell, u64)> = Vec::new();
    scores.push((from, zero, 0));
    let mut arena: Vec<SearchNode> = Vec::new();
    arena.push(SearchNode { pos: from, dir: zero, g: 0, f: dist(from, to), parent: 0, has_parent: false, depth: 0 });
    let mut heap: Vec<usize> = Vec::new();
    heap.push(0);
    proof {
        assert(arena@ =~= search_start(from, to).arena);
        assert(heap@ =~= search_start(from, to).heap);
        assert(scores@ =~= search_start(from, to).scores);
        let s = scores@;
        assert(s.drop_first() =~= Seq::<(Cell, Cell, u64)>::empty());
        assert forall|p: Cell, d: Cell| #![trigger score_of(s, p, d)] score_of(s, p, d) is Some implies
            witnessed(arena@, heap@, p, d, score_of(s, p, d).unwrap()) by {
            assert(s[0] == (from, zero, 0u64));
            assert(score_of(s.drop_first(), p, d) is None);
            assert(p == from && d == zero);
            assert(heap@[0] == 0);
            assert(arena@[heap@[0] as int].pos == p && arena@[heap@[0] as int].dir == d && arena@[heap@[0] as int].g == 0);
        }
    }
    while heap.len() > 0
        invariant
            max_nodes == search_budget(from, to),
            max_nodes <= u32::MAX,
            from != to,
            explored <= max_nodes,
            dirs@ == six_dirs(),
            arena_ok(arena@, from, to, blocked@, explored as int),
            heap_sound(arena@, heap@, scores@),
            frontier_ok(arena@, heap@, scores@, to, blocked@, None),
            score_of(scores@, from, no_heading()) == Some(0u64),
            run(SearchModel { arena: arena@, heap: heap@, scores: scores@, explored: explored as nat }, to, blocked@, max_nodes as nat)
                == route_search(from, to, blocked@),
        ensures
            route_search(from, to, blocked@) is None,
        decreases max_nodes - explored,
    {
        proof {
            lemma_run_unfold(SearchModel { arena: arena@, heap: heap@, scores: scores@, explored: explored as nat }, to, blocked@, max_nodes as nat);
        }
        if explored >= max_nodes {
            break;
        }
        let found = search_step(&mut arena, &mut heap, &mut scores, &mut explored, &dirs, blocked, to, Ghost(from), Ghost(max_nodes as int));
        match found {
            Some(idx) => {
                let path = reconstruct(&arena, idx);
                return path;
            },
            None => {},
        }
    }
    let p = auto_route(from, to);
    proof {
        lemma_straight_route_is_route(from, to);
    }
    p
}

/// The position in the heap of its first node of least `f`.
fn pick_min(arena: &Vec<SearchNode>, heap: &Vec<usize>) -> (m: usize)
    requires
        heap@.len() > 0,
        forall|k: int| 0 <= k < heap@.len() ==> (#[trigger] heap@[k]) < arena@.len(),
    ensures
        m < heap@.len(),
        m == min_pos(arena@, heap@, heap@.len() as int),
        forall|i: int| 0 <= i < heap@.len() ==> arena@[heap@[m as int] as int].f <= arena@[#[trigger] heap@[i] as int].f,
{
    let mut m: usize = 0;
    let mut j: usize = 1;
    while j < heap.len()
        invariant
            0 < heap@.len(),
            m < heap@.len(),
            m < j <= heap@.len(),
            m == min_pos(arena@, heap@, j as int),
            forall|k: int| 0 <= k < heap@.len() ==> (#[trigger] heap@[k]) < arena@.len(),
            forall|i: int| 0 <= i < j ==> arena@[heap@[m as int] as int].f <= arena@[#[trigger] heap@[i] as int].f,
        decreases heap@.len() - j,
    {
        if arena[heap[j]].f < arena[heap[m]].f {
            m = j;
        }
        j += 1;
    }
    m
}

/// One round of the search: pops the open node of least `f`; returns it when
/// it lies at `to`, and otherwise expands it, unless a cheaper way to its
/// state has been recorded since it was pushed.
#[verifier::spinoff_prover]
#[verifier::rlimit(100)]
fn search_step(
    arena: &mut Vec<SearchNode>,
    heap: &mut Vec<usize>,
    scores: &mut Vec<(Cell, Cell, u64)>,
    explored: &mut u64,
    dirs: &Vec<Cell>,
    blocked: &Vec<Cell>,
    to: Cell,
    Ghost(from): Ghost<Cell>,
    Ghost(max_nodes): Ghost<int>,
) -> (found: Option<usize>)
    requires
        old(heap)@.len() > 0,
        *old(explored) < max_nodes,
        max_nodes <= u32::MAX,
        dirs@ == six_dirs(),
        arena_ok(old(arena)@, from, to, blocked@, *old(explored) as int),
        heap_sound(old(arena)@, old(heap)@, old(scores)@),
        frontier_ok(old(arena)@, old(heap)@, old(scores)@, to, blocked@, None),
        score_of(old(scores)@, from, no_heading()) == Some(0u64),
    ensures
        *final(explored) == *old(explored) + 1,
        found is None ==> {
            &&& arena_ok(final(arena)@, from, to, blocked@, *final(explored) as int)
            &&& heap_sound(final(arena)@, final(heap)@, final(scores)@)
            &&& frontier_ok(final(arena)@, final(heap)@, final(scores)@, to, blocked@, None)
            &&& score_of(final(scores)@, from, no_heading()) == Some(0u64)
        },
        ({
            let st = SearchModel { arena: old(arena)@, heap: old(heap)@, scores: old(scores)@, explored: *old(explored) as nat };
            match found {
                Some(idx) => {
                    &&& idx < final(arena)@.len()
                    &&& run(st, to, blocked@, max_nodes as nat) == Some(chain(final(arena)@, idx as int))
                    &&& is_route(chain(final(arena)@, idx as int), from, to)
                    &&& free_route(chain(final(arena)@, idx as int), from, to, blocked@)
                    &&& forall|r: Seq<Cell>| #[trigger] free_route(r, from, to, blocked@)
                        ==> route_cost(chain(final(arena)@, idx as int)) <= route_cost(r)
                },
                None => run(st, to, blocked@, max_nodes as nat)
                    == run(SearchModel { arena: final(arena)@, heap: final(heap)@, scores: final(scores)@, explored: *final(explored) as nat }, to, blocked@, max_nodes as nat),
            }
        }),
{
    let ghost st0 = SearchModel { arena: arena@, heap: heap@, scores: scores@, explored: *explored as nat };
    proof {
        lemma_run_unfold(st0, to, blocked@, max_nodes as nat);
    }
    let m = pick_min(arena, heap);
    let ghost h0 = heap@;
    let ghost a = arena@;
    let idx = heap.remove(m);
    proof {
        lemma_heap_remove(a, h0, m as int, scores@);
        lemma_pop(a, h0, m as int, scores@, to, blocked@);
    }
    *explored = *explored + 1;
    let pos = arena[idx].pos;
    let dir = arena[idx].dir;
    let g = arena[idx].g;
    if pos == to {
        proof {
            lemma_goal_optimal(a, h0, m as int, scores@, from, to, blocked@, *explored as int);
            lemma_chain(a, from, to, blocked@, *explored as int, idx as int);
        }
        return Some(idx);
    }
    let best = best_g(scores, pos, dir);
    let skip = match best {
        Some(b) => b < g,
        None => false,
    };
    proof {
        assert(heap@ == h0.remove(m as int));
        assert((SearchModel { arena: arena@, heap: heap@, scores: scores@, explored: *explored as nat })
            == SearchModel { heap: st0.heap.remove(m as int), explored: st0.explored + 1, ..st0 });
    }
    if !skip {
        let ghost s_before = scores@;
        expand(arena, heap, scores, dirs, idx, blocked, to, *explored, Ghost(from));
        proof {
            assert(score_of(s_before, from, no_heading()) is Some);
        }
    }
    None
}

#[verifier::spinoff_prover]
#[verifier::rlimit(80)]
fn expand(
    arena: &mut Vec<SearchNode>,
    heap: &mut Vec<usize>,
    scores: &mut Vec<(Cell, Cell, u64)>,
    dirs: &Vec<Cell>,
    idx: usize,
    blocked: &Vec<Cell>,
    to: Cell,
    explored: u64,
    Ghost(from): Ghost<Cell>,
)
    requires
        dirs@ == six_dirs(),
        explored <= u32::MAX,
        idx < old(arena)@.len(),
        old(arena)@[idx as int].pos != to,
        old(arena)@[idx as int].depth + 1 <= explored,
        arena_ok(old(arena)@, from, to, blocked@, explored as int),
        heap_sound(old(arena)@, old(heap)@, old(scores)@),
        frontier_ok(old(arena)@, old(heap)@, old(scores)@, to, blocked@, Some((old(arena)@[idx as int].pos, old(arena)@[idx as int].dir))),
        score_of(old(scores)@, old(arena)@[idx as int].pos, old(arena)@[idx as int].dir) == Some(old(arena)@[idx as int].g),
    ensures
        arena_ok(final(arena)@, from, to, blocked@, explored as int),
        heap_sound(final(arena)@, final(heap)@, final(scores)@),
        frontier_ok(final(arena)@, final(heap)@, final(scores)@, to, blocked@, None),
        scores_drop(old(scores)@, final(scores)@),
        (SearchModel { arena: final(arena)@, heap: final(heap)@, scores: final(scores)@, explored: explored as nat })
            == expand_spec(SearchModel { arena: old(arena)@, heap: old(heap)@, scores: old(scores)@, explored: explored as nat }, idx as int, 6, blocked@, to),
{
    let ghost a0 = arena@;
    let ghost s0 = scores@;
    let ghost m0 = SearchModel { arena: arena@, heap: heap@, scores: scores@, explored: explored as nat };
    let pos = arena[idx].pos;
    let dir = arena[idx].dir;
    let g = arena[idx].g;
    let mut k: usize = 0;
    while k < 6
        invariant
            k <= 6,
            dirs@ == six_dirs(),
            explored <= u32::MAX,
            idx < a0.len(),
            a0[idx as int].pos == pos,
            a0[idx as int].dir == dir,
            a0[idx as int].g == g,
            pos != to,
            a0[idx as int].depth + 1 <= explored,
            arena@.len() >= a0.len(),
            forall|i: int| 0 <= i < a0.len() ==> arena@[i] == a0[i],
            arena_ok(arena@, from, to, blocked@, explored as int),
            heap_sound(arena@, heap@, scores@),
            frontier_ok(arena@, heap@, scores@, to, blocked@, Some((pos, dir))),
            score_of(scores@, pos, dir) == Some(g),
            scores_drop(s0, scores@),
            (SearchModel { arena: arena@, heap: heap@, scores: scores@, explored: explored as nat })
                == expand_spec(m0, idx as int, k as int, blocked@, to),
            forall|kk: int, t: Cell| #![trigger steps(pos, six_dirs()[kk], t)] 0 <= kk < k && steps(pos, six_dirs()[kk], t) && open_cell(t, to, blocked@)
                ==> score_of(scores@, t, six_dirs()[kk]) is Some && score_of(scores@, t, six_dirs()[kk]).unwrap() <= g + step_cost(dir, six_dirs()[kk]),
        decreases 6 - k,
    {
        let d = dirs[k];
        let ghost s1 = scores@;
        let ghost a1 = arena@;
        proof {
            assert(is_dir(d)) by {
                assert(d == six_dirs()[k as int]);
            }
            assert(arena@[idx as int] == a0[idx as int]);
        }
        relax(arena, heap, scores, idx, d, blocked, to, explored, Ghost(from), Ghost(Some((pos, dir))));
        proof {
            assert(!steps(pos, d, pos));
            assert forall|q: Cell, e: Cell| #![trigger score_of(scores@, q, e)] score_of(s0, q, e) is Some implies score_of(scores@, q, e) is Some
                && score_of(scores@, q, e).unwrap() <= score_of(s0, q, e).unwrap() by {
                assert(score_of(s1, q, e) is Some);
            }
            assert forall|kk: int, t: Cell| #![trigger steps(pos, six_dirs()[kk], t)] 0 <= kk < k + 1 && steps(pos, six_dirs()[kk], t) && open_cell(t, to, blocked@)
                implies score_of(scores@, t, six_dirs()[kk]) is Some && score_of(scores@, t, six_dirs()[kk]).unwrap() <= g + step_cost(dir, six_dirs()[kk]) by {
                if kk < k {
                    assert(score_of(s1, t, six_dirs()[kk]) is Some);
                } else {
                    assert(six_dirs()[kk] == d);
                }
            }
        }
        k += 1;
    }
    proof {
        let s = scores@;
        assert forall|t: Cell, e: Cell| #![trigger steps(pos, e, t)] is_dir(e) && steps(pos, e, t) && open_cell(t, to, blocked@)
            implies score_of(s, t, e) is Some && score_of(s, t, e).unwrap() <= score_of(s, pos, dir).unwrap() + step_cost(dir, e) by {
            lemma_six_dirs(e);
            let kk = choose|kk: int| 0 <= kk < 6 && #[trigger] six_dirs()[kk] == e;
            assert(steps(pos, six_dirs()[kk], t));
        }
        assert(closed(s, pos, dir, to, blocked@));
    }
}

/// Cell `pos` moved one step in direction `d`, when that cell lies on the `i32` grid.
fn next_cell(pos: Cell, d: Cell) -> (n: Option<Cell>)
    requires
        is_dir(d),
    ensures
        n == next_of(pos, d),
        match n {
            Some(c) => steps(pos, d, c),
            None => forall|c: Cell| !#[trigger] steps(pos, d, c),
        },
{
    let x = pos.x as i64 + d.x as i64;
    let y = pos.y as i64 + d.y as i64;
    let z = pos.z as i64 + d.z as i64;
    if x < i32::MIN as i64 || x > i32::MAX as i64 || y < i32::MIN as i64 || y > i32::MAX as i64 || z < i32::MIN as i64 || z > i32::MAX as i64 {
        return None;
    }
    Some(Cell { x: x as i32, y: y as i32, z: z as i32 })
}

/// Tries the step from the node at `idx` in direction `d`, recording the
/// neighbour when it is open and cheaper than any earlier way of reaching it.
#[verifier::spinoff_prover]
#[verifier::rlimit(100)]
fn relax(
    arena: &mut Vec<SearchNode>,
    heap: &mut Vec<usize>,
    scores: &mut Vec<(Cell, Cell, u64)>,
    idx: usize,
    d: Cell,
    blocked: &Vec<Cell>,
    to: Cell,
    explored: u64,
    Ghost(from): Ghost<Cell>,
    Ghost(ex): Ghost<Option<(Cell, Cell)>>,
)
    requires
        explored <= u32::MAX,
        is_dir(d),
        idx < old(arena)@.len(),
        old(arena)@[idx as int].pos != to,
        old(arena)@[idx as int].depth + 1 <= explored,
        arena_ok(old(arena)@, from, to, blocked@, explored as int),
        heap_sound(old(arena)@, old(heap)@, old(scores)@),
        frontier_ok(old(arena)@, old(heap)@, old(scores)@, to, blocked@, ex),
    ensures
        final(arena)@.len() >= old(arena)@.len(),
        forall|i: int| 0 <= i < old(arena)@.len() ==> final(arena)@[i] == old(arena)@[i],
        arena_ok(final(arena)@, from, to, blocked@, explored as int),
        heap_sound(final(arena)@, final(heap)@, final(scores)@),
        frontier_ok(final(arena)@, final(heap)@, final(scores)@, to, blocked@, ex),
        scores_drop(old(scores)@, final(scores)@),
        forall|q: Cell, e: Cell| #![trigger score_of(final(scores)@, q, e)] !(e == d && steps(old(arena)@[idx as int].pos, d, q))
            ==> score_of(final(scores)@, q, e) == score_of(old(scores)@, q, e),
        forall|t: Cell| #![trigger steps(old(arena)@[idx as int].pos, d, t)] steps(old(arena)@[idx as int].pos, d, t) && open_cell(t, to, blocked@)
            ==> score_of(final(scores)@, t, d) is Some
                && score_of(final(scores)@, t, d).unwrap() <= old(arena)@[idx as int].g + step_cost(old(arena)@[idx as int].dir, d),
        (SearchModel { arena: final(arena)@, heap: final(heap)@, scores: final(scores)@, explored: explored as nat })
            == relax_spec(SearchModel { arena: old(arena)@, heap: old(heap)@, scores: old(scores)@, explored: explored as nat }, idx as int, d, blocked@, to),
{
    let zero = Cell { x: 0, y: 0, z: 0 };
    let pos = arena[idx].pos;
    let dir = arena[idx].dir;
    let g = arena[idx].g;
    let depth = arena[idx].depth;
    let next = match next_cell(pos, d) {
        Some(c) => c,
        None => {
            return;
        },
    };
    let blocked_here = cells_contain(blocked, next);
    if blocked_here && next != to {
        return;
    }
    let turn: u64 = if dir != zero && d != dir { TURN_PENALTY } else { 0 };
    let new_g = g + 1 + turn;
    let better = match best_g(scores, next, d) {
        Some(b) => new_g < b,
        None => true,
    };
    if !better {
        return;
    }
    let ghost a0 = arena@;
    let ghost h0 = heap@;
    let ghost s0 = scores@;
    set_g(scores, next, d, new_g);
    let h = dist(next, to);
    proof {
        assert(new_g == g + step_cost(dir, d));
        assert(new_g <= 4 * (depth + 1));
    }
    push_child(arena, SearchNode { pos: next, dir: d, g: new_g, f: new_g + h, parent: idx, has_parent: true, depth: depth + 1 }, Ghost(from), Ghost(to), Ghost(blocked@), Ghost(explored as int));
    let ni = arena.len() - 1;
    heap.push(ni);
    proof {
        let a1 = arena@;
        let h1 = heap@;
        let s1 = scores@;
        assert(h1[h0.len() as int] == ni);
        assert(witnessed(a1, h1, next, d, new_g));
        assert forall|k: int| 0 <= k < h1.len() implies {
            &&& (#[trigger] h1[k]) < a1.len()
            &&& score_of(s1, a1[h1[k] as int].pos, a1[h1[k] as int].dir) is Some
            &&& score_of(s1, a1[h1[k] as int].pos, a1[h1[k] as int].dir).unwrap() <= a1[h1[k] as int].g
        } by {
            if k < h0.len() {
                assert(h1[k] == h0[k]);
                assert(a1[h0[k] as int] == a0[h0[k] as int]);
            }
        }
        assert forall|q: Cell, e: Cell| #![trigger score_of(s1, q, e)] score_of(s0, q, e) is Some implies score_of(s1, q, e) is Some
            && score_of(s1, q, e).unwrap() <= score_of(s0, q, e).unwrap() by {
        }
        assert forall|q: Cell, e: Cell| #![trigger score_of(s1, q, e)] score_of(s1, q, e) is Some implies
            score_of(s1, q, e) == score_of(s0, q, e) || witnessed(a1, h1, q, e, score_of(s1, q, e).unwrap()) by {
        }
        lemma_frontier_keep(a0, h0, s0, a1, h1, s1, to, blocked@, ex);
        assert forall|q: Cell, e: Cell| #![trigger score_of(s1, q, e)] !(e == d && steps(pos, d, q)) implies score_of(s1, q, e) == score_of(s0, q, e) by {
            if q == next && e == d {
                assert(steps(pos, d, q));
            }
        }
        assert forall|t: Cell| #![trigger steps(pos, d, t)] steps(pos, d, t) && open_cell(t, to, blocked@) implies score_of(s1, t, d) is Some
            && score_of(s1, t, d).unwrap() <= g + step_cost(dir, d) by {
            assert(t == next);
        }
    }
}

fn push_child(arena: &mut Vec<SearchNode>, node: SearchNode, Ghost(from): Ghost<Cell>, Ghost(to): Ghost<Cell>, Ghost(blocked): Ghost<Seq<Cell>>, Ghost(explored): Ghost<int>)
    requires
        arena_ok(old(arena)@, from, to, blocked, explored),
        node.has_parent,
        node.parent < old(arena)@.len(),
        is_dir(node.dir),
        steps(old(arena)@[node.parent as int].pos, node.dir, node.pos),
        node.g == old(arena)@[node.parent as int].g + step_cost(old(arena)@[node.parent as int].dir, node.dir),
        node.f == node.g + manhattan(node.pos, to),
        old(arena)@[node.parent as int].pos != to,
        open_cell(node.pos, to, blocked),
        node.depth <= explored,
        node.g <= 4 * node.depth,
    ensures
        arena_ok(final(arena)@, from, to, blocked, explored),
        final(arena)@ == old(arena)@.push(node),
{
    let ghost a0 = arena@;
    let ghost pidx = node.parent as int;
    arena.push(node);
    proof {
        let a = arena@;
        assert forall|i: int| 1 <= i < a.len() implies {
            &&& (#[trigger] a[i]).has_parent
            &&& a[i].parent < i
            &&& is_dir(a[i].dir)
            &&& steps(a[a[i].parent as int].pos, a[i].dir, a[i].pos)
            &&& a[i].g == a[a[i].parent as int].g + step_cost(a[a[i].parent as int].dir, a[i].dir)
            &&& open_cell(a[i].pos, to, blocked)
            &&& a[a[i].parent as int].pos != to
        } by {
            if i < a0.len() {
                assert(a[i] == a0[i]);
                assert(a[a[i].parent as int] == a0[a0[i].parent as int]);
            } else {
                assert(a[a[i].parent as int] == a0[pidx]);
            }
        }
        assert forall|i: int| 0 <= i < a.len() implies (#[trigger] a[i]).depth <= explored by {
            if i < a0.len() {
                assert(a[i] == a0[i]);
            }
        }
        assert forall|i: int| 0 <= i < a.len() implies (#[trigger] a[i]).g <= 4 * a[i].depth by {
            if i < a0.len() {
                assert(a[i] == a0[i]);
            }
        }
        assert forall|i: int| 0 <= i < a.len() implies (#[trigger] a[i]).f == a[i].g + manhattan(a[i].pos, to) by {
            if i < a0.len() {
                assert(a[i] == a0[i]);
            }
        }
    }
}

} // verus!
