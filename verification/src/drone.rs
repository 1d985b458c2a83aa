//! The scouting drone's bookkeeping: the fog of war it clears, cell by cell,
//! and the ore it carries home.

use vstd::prelude::*;
use crate::job_queue::get0;
use crate::storage::StorageUnit;
use crate::strmap::StrMap;
use crate::text::owned;

verus! {

/// The chunk coordinate of cell coordinate `c`: chunks are four cells wide.
pub open spec fn chunk_of(c: int) -> int {
    c / 4
}

/// The position of cell coordinate `c` within its chunk, from 0 to 3.
pub open spec fn within(c: int) -> int {
    c % 4
}

/// The bit of a chunk's mask that stands for cell (`x`, `z`).
pub open spec fn cell_bit(x: int, z: int) -> int {
    within(x) + within(z) * 4
}

/// Bit `b` of `mask` is set.
pub open spec fn bit_set(mask: u16, b: u16) -> bool {
    mask & (1u16 << b) != 0
}

/// Fog of war: for each chunk of 4×4 cells that has any cleared cell, a
/// bitmask of its cleared cells.
pub struct FogOfWar {
    chunks: Vec<(i32, i32, u16)>,
}

/// No chunk appears twice.
pub open spec fn unique_chunks(c: Seq<(i32, i32, u16)>) -> bool {
    forall|i: int, j: int| 0 <= i < c.len() && 0 <= j < c.len() && i != j ==> ((#[trigger] c[i]).0, c[i].1) != ((#[trigger] c[j]).0, c[j].1)
}

/// Cell (`x`, `z`) is cleared in the chunk list `c`.
pub open spec fn cleared_in(c: Seq<(i32, i32, u16)>, x: int, z: int) -> bool {
    exists|i: int| 0 <= i < c.len() && (#[trigger] c[i]).0 == chunk_of(x) && c[i].1 == chunk_of(z) && bit_set(c[i].2, cell_bit(x, z) as u16)
}

fn split(c: i32) -> (r: (i32, u16))
    ensures
        r.0 == chunk_of(c as int),
        r.1 == within(c as int),
        0 <= r.1 < 4,
{
    if c >= 0 {
        let q = c / 4;
        let m = c % 4;
        (q, m as u16)
    } else {
        let n: i32 = -(c + 1);
        let q: i32 = -(n / 4) - 1;
        let m: i32 = 3 - n % 4;
        proof {
            assert(n as int == -(c as int) - 1);
            assert(q * 4 + m == c as int) by (nonlinear_arith)
                requires
                    n >= 0,
                    n == -(c as int) - 1,
                    q == -(n / 4) - 1,
                    m == 3 - n % 4,
                    n == (n / 4) * 4 + n % 4,
            ;
            assert(0 <= m < 4);
            vstd::arithmetic::div_mod::lemma_fundamental_div_mod_converse(c as int, 4, q as int, m as int);
        }
        (q, m as u16)
    }
}

proof fn lemma_bit_or(m: u16, b: u16, c: u16)
    requires
        b < 16,
        c < 16,
    ensures
        bit_set(m | (1u16 << b), c) == (bit_set(m, c) || b == c),
        bit_set(m | (1u16 << b), b),
{
    assert((m | (1u16 << b)) & (1u16 << c) != 0 <==> (m & (1u16 << c) != 0 || b == c)) by (bit_vector)
        requires
            b < 16,
            c < 16,
    ;
    assert((m | (1u16 << b)) & (1u16 << b) != 0) by (bit_vector)
        requires
            b < 16,
    ;
}

proof fn lemma_bit_zero(c: u16)
    requires
        c < 16,
    ensures
        !bit_set(0, c),
{
    assert(0u16 & (1u16 << c) == 0) by (bit_vector);
}

impl FogOfWar {
    /// The chunk masks.
    pub closed spec fn view(&self) -> Seq<(i32, i32, u16)> {
        self.chunks@
    }

    #[verifier::type_invariant]
    spec fn inv(self) -> bool {
        unique_chunks(self.chunks@)
    }

    /// Whether cell (`x`, `z`) has been cleared.
    pub open spec fn cleared(&self, x: int, z: int) -> bool {
        cleared_in(self@, x, z)
    }

    /// Fog over everything.
    pub fn new() -> (f: Self)
        ensures
            forall|x: int, z: int| !f.cleared(x, z),
    {
        FogOfWar { chunks: Vec::new() }
    }

    /// The number of chunks with a cleared cell.
    pub fn chunk_count(&self) -> (n: usize)
        ensures
            n == self@.len(),
    {
        self.chunks.len()
    }

    /// Clears cell (`x`, `z`). Returns whether it was still fogged, that is,
    /// whether this clearing is news; no other cell changes.
    pub fn reveal_cell(&mut self, x: i32, z: i32) -> (fresh: bool)
        ensures
            fresh == !old(self).cleared(x as int, z as int),
            final(self).cleared(x as int, z as int),
            forall|a: int, b: int| (a, b) != (x as int, z as int) ==> (final(self).cleared(a, b) == old(self).cleared(a, b)),
    {
        proof { use_type_invariant(&*self); }
        let (cx, rx) = split(x);
        let (cz, rz) = split(z);
        let bit: u16 = rx + rz * 4;
        let ghost c0 = self.chunks@;
        assert(bit == cell_bit(x as int, z as int));
        let mut i: usize = 0;
        while i < self.chunks.len()
            invariant
                c0 == self.chunks@,
                c0 == old(self)@,
                i <= c0.len(),
                forall|t: int| 0 <= t < i ==> ((#[trigger] c0[t]).0, c0[t].1) != (cx, cz),
                bit < 16,
                bit == cell_bit(x as int, z as int),
                cx == chunk_of(x as int),
                cz == chunk_of(z as int),
                unique_chunks(c0),
            decreases c0.len() - i,
        {
            let (ax, az, m) = self.chunks[i];
            if ax == cx && az == cz {
                let fresh = m & (1u16 << bit) == 0;
                let nm = m | (1u16 << bit);
                let mut chunks: Vec<(i32, i32, u16)> = Vec::new();
                std::mem::swap(&mut chunks, &mut self.chunks);
                chunks.set(i, (ax, az, nm));
                proof {
                    let c1 = chunks@;
                    assert(c1 == c0.update(i as int, (ax, az, nm)));
                    assert forall|a: int, b: int| #![auto] 0 <= a < c1.len() && 0 <= b < c1.len() && a != b implies (c1[a].0, c1[a].1) != (c1[b].0, c1[b].1) by {
                        if a != i && b != i {
                            assert(c1[a] == c0[a] && c1[b] == c0[b]);
                        } else if a == i {
                            assert(c1[b] == c0[b]);
                        } else {
                            assert(c1[a] == c0[a]);
                        }
                    }
                }
                self.chunks = chunks;
                proof {
                    let c1 = self.chunks@;
                    assert(fresh == !old(self).cleared(x as int, z as int)) by {
                        if old(self).cleared(x as int, z as int) {
                            let t = choose|t: int| 0 <= t < c0.len() && (#[trigger] c0[t]).0 == chunk_of(x as int) && c0[t].1 == chunk_of(z as int) && bit_set(c0[t].2, cell_bit(x as int, z as int) as u16);
                            if t != i {
                                assert(((c0[t]).0, c0[t].1) != ((c0[i as int]).0, c0[i as int].1));
                            }
                            assert(t == i);
                        }
                    }
                    lemma_bit_or(m, bit, bit);
                    assert(c1[i as int].2 == nm);
                    assert(final(self).cleared(x as int, z as int));
                    assert forall|a: int, b: int| (a, b) != (x as int, z as int) implies (final(self).cleared(a, b) == old(self).cleared(a, b)) by {
                        if final(self).cleared(a, b) {
                            let t = choose|t: int| 0 <= t < c1.len() && (#[trigger] c1[t]).0 == chunk_of(a) && c1[t].1 == chunk_of(b) && bit_set(c1[t].2, cell_bit(a, b) as u16);
                            if t == i {
                                assert(0 <= within(a) < 4 && 0 <= within(b) < 4);
                                lemma_bit_or(m, bit, cell_bit(a, b) as u16);
                                assert(c0[t].2 == m);
                                if cell_bit(a, b) as u16 == bit {
                                    assert(within(a) == within(x as int) && within(b) == within(z as int));
                                    assert(a == chunk_of(a) * 4 + within(a));
                                    assert(x as int == chunk_of(x as int) * 4 + within(x as int));
                                    assert(b == chunk_of(b) * 4 + within(b));
                                    assert(z as int == chunk_of(z as int) * 4 + within(z as int));
                                }
                                assert(c0[t].0 == chunk_of(a) && c0[t].1 == chunk_of(b) && bit_set(c0[t].2, cell_bit(a, b) as u16));
                            } else {
                                assert(c0[t] == c1[t]);
                            }
                        }
                        if old(self).cleared(a, b) {
                            let t = choose|t: int| 0 <= t < c0.len() && (#[trigger] c0[t]).0 == chunk_of(a) && c0[t].1 == chunk_of(b) && bit_set(c0[t].2, cell_bit(a, b) as u16);
                            if t == i {
                                assert(0 <= within(a) < 4 && 0 <= within(b) < 4);
                                lemma_bit_or(m, bit, cell_bit(a, b) as u16);
                                assert(c0[t].2 == m);
                                assert(c1[t].0 == chunk_of(a) && c1[t].1 == chunk_of(b) && bit_set(c1[t].2, cell_bit(a, b) as u16));
                            } else {
                                assert(c0[t] == c1[t]);
                            }
                        }
                    }
                }
                return fresh;
            }
            i += 1;
        }
        let nm: u16 = 1u16 << bit;
        let mut chunks: Vec<(i32, i32, u16)> = Vec::new();
        std::mem::swap(&mut chunks, &mut self.chunks);
        chunks.push((cx, cz, nm));
        proof {
            let c1 = chunks@;
            assert(c1 == c0.push((cx, cz, nm)));
            assert forall|a: int, b: int| #![auto] 0 <= a < c1.len() && 0 <= b < c1.len() && a != b implies (c1[a].0, c1[a].1) != (c1[b].0, c1[b].1) by {
                if a < c0.len() && b < c0.len() {
                    assert(c1[a] == c0[a] && c1[b] == c0[b]);
                } else if a < c0.len() {
                    assert(c1[a] == c0[a]);
                } else {
                    assert(c1[b] == c0[b]);
                }
            }
        }
        self.chunks = chunks;
        proof {
            let c1 = self.chunks@;
            assert(c1 == c0.push((cx, cz, nm)));
            lemma_bit_or(0, bit, bit);
            assert((0u16 | (1u16 << bit)) == nm) by (bit_vector)
                requires
                    nm == 1u16 << bit,
            ;
            assert(!old(self).cleared(x as int, z as int)) by {
                if old(self).cleared(x as int, z as int) {
                    let t = choose|t: int| 0 <= t < c0.len() && (#[trigger] c0[t]).0 == chunk_of(x as int) && c0[t].1 == chunk_of(z as int) && bit_set(c0[t].2, cell_bit(x as int, z as int) as u16);
                }
            }
            assert(c1[c0.len() as int] == (cx, cz, nm));
            assert(final(self).cleared(x as int, z as int));
            assert forall|a: int, b: int| (a, b) != (x as int, z as int) implies (final(self).cleared(a, b) == old(self).cleared(a, b)) by {
                if final(self).cleared(a, b) {
                    let t = choose|t: int| 0 <= t < c1.len() && (#[trigger] c1[t]).0 == chunk_of(a) && c1[t].1 == chunk_of(b) && bit_set(c1[t].2, cell_bit(a, b) as u16);
                    if t == c0.len() {
                        assert(0 <= within(a) < 4 && 0 <= within(b) < 4);
                        lemma_bit_or(0, bit, cell_bit(a, b) as u16);
                        lemma_bit_zero(cell_bit(a, b) as u16);
                        assert(within(a) == within(x as int) && within(b) == within(z as int));
                        assert(a == chunk_of(a) * 4 + within(a));
                        assert(x as int == chunk_of(x as int) * 4 + within(x as int));
                        assert(b == chunk_of(b) * 4 + within(b));
                        assert(z as int == chunk_of(z as int) * 4 + within(z as int));
                    } else {
                        assert(c0[t] == c1[t]);
                    }
                }
                if old(self).cleared(a, b) {
                    let t = choose|t: int| 0 <= t < c0.len() && (#[trigger] c0[t]).0 == chunk_of(a) && c0[t].1 == chunk_of(b) && bit_set(c0[t].2, cell_bit(a, b) as u16);
                    assert(c0[t] == c1[t]);
                }
            }
            assert forall|a: int, b: int| #![auto] 0 <= a < c1.len() && 0 <= b < c1.len() && a != b implies (c1[a].0, c1[a].1) != (c1[b].0, c1[b].1) by {
                if a < c0.len() && b < c0.len() {
                    assert(c1[a] == c0[a] && c1[b] == c0[b]);
                } else if a < c0.len() {
                    assert(c1[a] == c0[a]);
                } else {
                    assert(c1[b] == c0[b]);
                }
            }
        }
        true
    }

    /// Clears each of `cells` in turn (the cells within a revealer's radius)
    /// and returns those whose clearing is news, in order, each once.
    pub fn reveal_cells(&mut self, cells: &Vec<(i32, i32)>) -> (fresh: Vec<(i32, i32)>)
        ensures
            fresh@ == newly_cleared(*old(self), cells@),
            forall|j: int| 0 <= j < cells@.len() ==> final(self).cleared(cells@[j].0 as int, cells@[j].1 as int),
            forall|a: i32, b: i32| !cells@.contains((a, b)) ==> (final(self).cleared(a as int, b as int)
                == old(self).cleared(a as int, b as int)),
    {
        let ghost start = *self;
        let mut fresh: Vec<(i32, i32)> = Vec::new();
        let mut i: usize = 0;
        while i < cells.len()
            invariant
                i <= cells@.len(),
                fresh@ == newly_cleared(start, cells@.subrange(0, i as int)),
                forall|j: int| 0 <= j < i ==> self.cleared(cells@[j].0 as int, cells@[j].1 as int),
                forall|a: i32, b: i32| !cells@.subrange(0, i as int).contains((a, b)) ==> (self.cleared(a as int, b as int)
                    == start.cleared(a as int, b as int)),
            decreases cells@.len() - i,
        {
            let (x, z) = cells[i];
            let ghost pre = cells@.subrange(0, i as int);
            let ghost before = *self;
            proof {
                if pre.contains((x, z)) {
                    let j = choose|j: int| 0 <= j < pre.len() && pre[j] == (x, z);
                    assert(cells@[j] == (x, z));
                }
            }
            let news = self.reveal_cell(x, z);
            assert(news == (!start.cleared(x as int, z as int) && !pre.contains((x, z))));
            if news {
                fresh.push((x, z));
            }
            proof {
                let next = cells@.subrange(0, i + 1);
                assert(next.drop_last() =~= pre);
                assert(next.last() == (x, z));
                assert forall|a: i32, b: i32| !next.contains((a, b)) implies (self.cleared(a as int, b as int)
                    == start.cleared(a as int, b as int)) by {
                    assert(next[i as int] == (x, z));
                    if pre.contains((a, b)) {
                        let j = choose|j: int| 0 <= j < pre.len() && pre[j] == (a, b);
                        assert(next[j] == (a, b));
                    }
                    assert((a as int, b as int) != (x as int, z as int));
                    assert(before.cleared(a as int, b as int) == self.cleared(a as int, b as int));
                }
                assert forall|j: int| 0 <= j < i + 1 implies self.cleared(cells@[j].0 as int, cells@[j].1 as int) by {
                    if j < i && (cells@[j].0 as int, cells@[j].1 as int) != (x as int, z as int) {
                        assert(before.cleared(cells@[j].0 as int, cells@[j].1 as int));
                    }
                }
            }
            i += 1;
        }
        assert(cells@.subrange(0, cells@.len() as int) =~= cells@);
        fresh
    }
}

/// The cells of `cells` that were fogged in `f`, in order, each once.
pub open spec fn newly_cleared(f: FogOfWar, cells: Seq<(i32, i32)>) -> Seq<(i32, i32)>
    decreases cells.len(),
{
    if cells.len() == 0 {
        Seq::empty()
    } else {
        let pre = cells.drop_last();
        let c = cells.last();
        newly_cleared(f, pre) + if !f.cleared(c.0 as int, c.1 as int) && !pre.contains(c) {
            seq![c]
        } else {
            Seq::empty()
        }
    }
}

/// What the drone carries: item id to count.
pub struct DroneInventory {
    pub items: StrMap<u32>,
}

/// `s` with the counts of `d` added in.
pub open spec fn added(s: Map<Seq<char>, u32>, d: Map<Seq<char>, u32>) -> Map<Seq<char>, u32> {
    Map::new(|k: Seq<char>| s.contains_key(k) || d.contains_key(k), |k: Seq<char>| (get0(s, k) + get0(d, k)) as u32)
}

/// Unloads the drone into a storage unit: every carried count is added to
/// the unit's count of that item, and the drone is left empty. The unit's
/// counts must have room.
pub fn deposit_inventory(inventory: &mut DroneInventory, storage: &mut StorageUnit)
    requires
        forall|k: Seq<char>| old(inventory).items@.contains_key(k) ==> get0(old(storage).items@, k) + old(inventory).items@[k] <= u32::MAX,
    ensures
        final(inventory).items@ == Map::<Seq<char>, u32>::empty(),
        final(storage).items@ == added(old(storage).items@, old(inventory).items@),
{
    let ghost d = inventory.items@;
    let ghost s0 = storage.items@;
    let keys = inventory.items.keys();
    let ghost ks = inventory.items.key_seq();
    let mut i: usize = 0;
    while i < keys.len()
        invariant
            crate::strmap::str_views(keys@) == ks,
            ks.no_duplicates(),
            forall|k: Seq<char>| #[trigger] d.contains_key(k) <==> ks.contains(k),
            d == inventory.items@,
            forall|k: Seq<char>| d.contains_key(k) ==> get0(s0, k) + d[k] <= u32::MAX,
            i <= keys@.len(),
            storage.items@ == added(s0, d.restrict(ks.subrange(0, i as int).to_set())),
        decreases keys@.len() - i,
    {
        let k = &keys[i];
        assert(ks[i as int] == k@);
        assert(ks.contains(k@));
        let c = match inventory.items.get(k.as_str()) {
            Some(c) => *c,
            None => 0,
        };
        let cur = match storage.items.get(k.as_str()) {
            Some(v) => *v,
            None => 0,
        };
        let ghost before = storage.items@;
        proof {
            assert(!ks.subrange(0, i as int).contains(k@)) by {
                if ks.subrange(0, i as int).contains(k@) {
                    let t = choose|t: int| 0 <= t < i && ks.subrange(0, i as int)[t] == k@;
                    assert(ks[t] == ks[i as int]);
                }
            }
            assert(cur == get0(s0, k@));
        }
        storage.items.insert(owned(k.as_str()), cur + c);
        proof {
            let done1 = ks.subrange(0, i + 1).to_set();
            assert(ks.subrange(0, i + 1) =~= ks.subrange(0, i as int).push(k@));
            ks.subrange(0, i as int).lemma_push_to_set_commute(k@);
            assert(done1 =~= ks.subrange(0, i as int).to_set().insert(k@));
            assert(storage.items@ =~= added(s0, d.restrict(done1)));
        }
        i += 1;
    }
    proof {
        assert(ks.subrange(0, keys@.len() as int) =~= ks);
        assert(d.restrict(ks.to_set()) =~= d);
    }
    inventory.items = StrMap::new();
}

/// Whether a deposit holding ores `ore_ids` is the xalite discovery site.
pub fn is_xalite_deposit(ore_ids: &Vec<String>) -> (b: bool)
    ensures
        b == crate::strmap::str_views(ore_ids@).contains("xalite"@),
{
    crate::strmap::contains_str(ore_ids, "xalite")
}

} // verus!
