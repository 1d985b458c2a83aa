//! Underground ore content: vein definitions with weighted ores, layers by
//! cell height, biomes with weighted vein pools, and the registry that
//! resolves biomes against layers and veins and picks a cell's vein.

use vstd::prelude::*;
use rand_pcg::Lcg128Xsl64;
use crate::seed::{le_bytes, le_bytes_of, xxh64_hash, xxh64_of};
use crate::text::{owned, str_eq};
use vstd::string::StringSliceAdditionalSpecFns;

verus! {

/// The state of a PCG 128/64 generator (`rand_pcg::Pcg64`).
#[verifier::external_type_specification]
#[verifier::external_body]
pub struct ExLcg128Xsl64(Lcg128Xsl64);

/// `rand::Rng::gen_range(0..total)` on a PCG generator: a value below
/// `total`. The range must not be empty. The call draws at least one word
/// from the generator, and each draw steps its state by `state * MULTIPLIER
/// + increment` with an odd increment and an odd multiplier, which never
/// leaves the state as it was (the generator has full period 2^128): the
/// generator afterwards differs from before.
#[verifier::external_body]
fn roll_below(rng: &mut Lcg128Xsl64, total: u32) -> (r: u32)
    requires
        total > 0,
    ensures
        r < total,
        *final(rng) != *old(rng),
{
    rand::Rng::gen_range(rng, 0..total)
}

/// Whether a PCG generator freshly seeded from `seed` draws true with a
/// chance of `numerator` in `denominator`.
pub uninterp spec fn seeded_ratio_of(seed: u64, numerator: u32, denominator: u32) -> bool;

/// The value below `total` that a PCG generator freshly seeded from `seed`
/// gives `gen_range` right after its `gen_ratio` call.
pub uninterp spec fn seeded_roll_of(seed: u64, numerator: u32, denominator: u32, total: u32) -> u32;

/// `rand::Rng::gen_ratio` on `rand_pcg::Pcg64::seed_from_u64(seed)`: the
/// outcome for a generator seeded from `seed`, true with a chance of
/// `numerator` in `denominator`. It depends on its arguments alone; it is
/// always true when they are equal and always false when the numerator is
/// zero. Which way any other draw falls is not restated here.
#[verifier::external_body]
fn seeded_ratio(seed: u64, numerator: u32, denominator: u32) -> (r: bool)
    requires
        numerator <= denominator,
        denominator > 0,
    ensures
        r == seeded_ratio_of(seed, numerator, denominator),
        numerator == denominator ==> r,
        numerator == 0 ==> !r,
{
    let mut rng = <Lcg128Xsl64 as rand::SeedableRng>::seed_from_u64(seed);
    rand::Rng::gen_ratio(&mut rng, numerator, denominator)
}

/// `rand::Rng::gen_range(0..total)` on `rand_pcg::Pcg64::seed_from_u64(seed)`
/// after one `gen_ratio(numerator, denominator)` call on it (a call that takes
/// no random word from the generator when the ratio is one): a value below
/// `total`, which depends on the arguments alone.
#[verifier::external_body]
fn seeded_roll_after_ratio(seed: u64, numerator: u32, denominator: u32, total: u32) -> (r: u32)
    requires
        numerator <= denominator,
        denominator > 0,
        total > 0,
    ensures
        r == seeded_roll_of(seed, numerator, denominator, total),
        r < total,
{
    let mut rng = <Lcg128Xsl64 as rand::SeedableRng>::seed_from_u64(seed);
    rand::Rng::gen_ratio(&mut rng, numerator, denominator);
    rand::Rng::gen_range(&mut rng, 0..total)
}

/// One ore of a vein, with its material and relative weight.
pub struct OreSpec {
    pub name: String,
    pub material: u8,
    pub weight: u32,
}

/// A vein: its ores by weight, and its density as the bits of an `f32`.
pub struct VeinDef {
    pub id: String,
    pub density_bits: u32,
    pub primary: OreSpec,
    pub secondary: OreSpec,
    pub sporadic: Option<OreSpec>,
}

/// A layer of the underground covering an inclusive range of cell heights.
pub struct LayerDef {
    pub id: String,
    pub name: String,
    pub y_cell_range: (i32, i32),
}

/// A biome of a layer with its weighted vein pool, by vein id.
pub struct BiomeDef {
    pub id: String,
    pub layer: String,
    pub vein_pool: Vec<(String, u32)>,
}

/// A biome resolved against its layer and the veins: its cell-height range,
/// its pool as (vein position, weight), and the pool's total weight.
pub struct ResolvedBiome {
    pub id: String,
    pub layer_id: String,
    pub y_cell_range: (i32, i32),
    pub pool: Vec<(usize, u32)>,
    pub pool_total: u32,
}

/// The content registry the world generator queries.
pub struct VeinRegistry {
    pub veins: Vec<VeinDef>,
    pub layers: Vec<LayerDef>,
    pub biomes: Vec<ResolvedBiome>,
    /// The display name of each material, indexed by material.
    pub material_names: Vec<Option<String>>,
}

impl VeinRegistry {
    /// The registry is well formed: one name slot per material, and every
    /// biome's pool points at known veins and weighs its total.
    pub open spec fn wf(&self) -> bool {
        &&& self.material_names@.len() == 256
        &&& forall|i: int, k: int| 0 <= i < self.biomes@.len() && 0 <= k < self.biomes@[i].pool@.len()
            ==> (#[trigger] self.biomes@[i].pool@[k]).0 < self.veins@.len()
        &&& forall|i: int| 0 <= i < self.biomes@.len() ==> #[trigger] self.biomes@[i].pool_total == pool_weight(self.biomes@[i].pool@)
    }
}

proof fn lemma_vein_index_range(veins: Seq<VeinDef>, id: Seq<char>)
    ensures
        vein_index(veins, id) matches Some(i) ==> 0 <= i < veins.len(),
{
    if exists|i: int| 0 <= i < veins.len() && (#[trigger] veins[i]).id@ == id {
        let c = choose|i: int| 0 <= i < veins.len() && (#[trigger] veins[i]).id@ == id
            && forall|j: int| 0 <= j < i ==> (#[trigger] veins[j]).id@ != id;
        lemma_first_exists(veins, id);
        assert(vein_index(veins, id) == Some(c));
    }
}

proof fn lemma_first_exists(veins: Seq<VeinDef>, id: Seq<char>)
    requires
        exists|i: int| 0 <= i < veins.len() && (#[trigger] veins[i]).id@ == id,
    ensures
        exists|i: int| 0 <= i < veins.len() && (#[trigger] veins[i]).id@ == id
            && forall|j: int| 0 <= j < i ==> (#[trigger] veins[j]).id@ != id,
    decreases veins.len(),
{
    let w = choose|i: int| 0 <= i < veins.len() && (#[trigger] veins[i]).id@ == id;
    if veins[0].id@ == id {
        assert(veins[0].id@ == id && forall|j: int| 0 <= j < 0 ==> (#[trigger] veins[j]).id@ != id);
    } else {
        let rest = veins.drop_first();
        assert(rest[w - 1].id@ == id);
        lemma_first_exists(rest, id);
        let c = choose|i: int| 0 <= i < rest.len() && (#[trigger] rest[i]).id@ == id
            && forall|j: int| 0 <= j < i ==> (#[trigger] rest[j]).id@ != id;
        assert(veins[c + 1].id@ == id);
        assert forall|j: int| 0 <= j < c + 1 implies (#[trigger] veins[j]).id@ != id by {
            if j > 0 {
                assert(veins[j] == rest[j - 1]);
            }
        }
    }
}

proof fn lemma_resolved_pool_in_range(pool: Seq<(String, u32)>, veins: Seq<VeinDef>)
    ensures
        forall|k: int| 0 <= k < resolved_pool(pool, veins).len() ==> (#[trigger] resolved_pool(pool, veins)[k]).0 < veins.len(),
    decreases pool.len(),
{
    if pool.len() > 0 {
        lemma_resolved_pool_in_range(pool.drop_last(), veins);
        lemma_vein_index_range(veins, pool.last().0@);
        let a = resolved_pool(pool.drop_last(), veins);
        let tail: Seq<(usize, u32)> = match vein_index(veins, pool.last().0@) {
            Some(i) => seq![(i as usize, pool.last().1)],
            None => Seq::empty(),
        };
        let b = resolved_pool(pool, veins);
        assert(b == a + tail);
        assert forall|k: int| 0 <= k < b.len() implies (#[trigger] b[k]).0 < veins.len() by {
            if k < a.len() {
                assert(b[k] == a[k]);
            } else {
                assert(b[k] == tail[k - a.len()]);
            }
        }
    }
}

/// What a biome query returns.
pub struct BiomeInfo<'a> {
    pub id: &'a str,
    pub layer_id: &'a str,
    pub layer_name: &'a str,
}

/// The total weight of a vein's ores.
pub open spec fn ore_total(v: VeinDef) -> int {
    v.primary.weight + v.secondary.weight + match v.sporadic {
        Some(s) => s.weight as int,
        None => 0,
    }
}

/// The ore a roll below the total weight lands on: the primary's weight
/// first, then the secondary's, then the sporadic ore (the primary without one).
pub open spec fn ore_at_roll(v: VeinDef, roll: u32) -> OreSpec {
    if roll < v.primary.weight {
        v.primary
    } else if roll < v.primary.weight + v.secondary.weight {
        v.secondary
    } else {
        match v.sporadic {
            Some(s) => s,
            None => v.primary,
        }
    }
}

impl VeinDef {
    /// The ore a roll lands on, as [`ore_at_roll`] states.
    pub fn pick_ore_by_roll(&self, roll: u32) -> (o: &OreSpec)
        ensures
            *o == ore_at_roll(*self, roll),
    {
        if roll < self.primary.weight {
            return &self.primary;
        }
        if (roll as u64) < self.primary.weight as u64 + self.secondary.weight as u64 {
            return &self.secondary;
        }
        match &self.sporadic {
            Some(s) => s,
            None => &self.primary,
        }
    }

    /// Picks an ore by weight with the generator: the primary when every
    /// weight is 0, else the ore a uniform roll below the total lands on.
    pub fn pick_ore(&self, rng: &mut Lcg128Xsl64) -> (o: &OreSpec)
        requires
            ore_total(*self) <= u32::MAX,
        ensures
            ore_total(*self) == 0 ==> *o == self.primary && *final(rng) == *old(rng),
            ore_total(*self) > 0 ==> exists|roll: u32| roll < ore_total(*self) && *o == ore_at_roll(*self, roll),
            ore_total(*self) > 0 ==> *final(rng) != *old(rng),
    {
        let extra: u32 = match &self.sporadic {
            Some(s) => s.weight,
            None => 0,
        };
        let total = self.primary.weight + self.secondary.weight + extra;
        if total == 0 {
            return &self.primary;
        }
        let roll = roll_below(rng, total);
        self.pick_ore_by_roll(roll)
    }
}

/// The display name of material `m` after the defaults and every vein's
/// ores are registered in order: a later registration replaces an earlier one.
pub open spec fn material_name_of(veins: Seq<VeinDef>, m: u8) -> Option<Seq<char>>
    decreases veins.len(),
{
    if veins.len() == 0 {
        if m == 0 {
            Some("Stone"@)
        } else if m == 1 {
            Some("Surface Rock"@)
        } else {
            None
        }
    } else {
        let v = veins.last();
        if v.sporadic is Some && v.sporadic->0.material == m {
            Some(v.sporadic->0.name@)
        } else if v.secondary.material == m {
            Some(v.secondary.name@)
        } else if v.primary.material == m {
            Some(v.primary.name@)
        } else {
            material_name_of(veins.drop_last(), m)
        }
    }
}

/// The name table as options of characters, indexed by material.
pub open spec fn names_view(names: Seq<Option<String>>) -> Seq<Option<Seq<char>>> {
    names.map_values(|o: Option<String>| match o {
        Some(s) => Some(s@),
        None => None,
    })
}

/// The first position of a vein with id `id`.
pub open spec fn vein_index(veins: Seq<VeinDef>, id: Seq<char>) -> Option<int> {
    if exists|i: int| 0 <= i < veins.len() && (#[trigger] veins[i]).id@ == id {
        Some(choose|i: int| 0 <= i < veins.len() && (#[trigger] veins[i]).id@ == id
            && forall|j: int| 0 <= j < i ==> (#[trigger] veins[j]).id@ != id)
    } else {
        None
    }
}

/// The first position of a layer with id `id`.
pub open spec fn layer_index(layers: Seq<LayerDef>, id: Seq<char>) -> Option<int> {
    if exists|i: int| 0 <= i < layers.len() && (#[trigger] layers[i]).id@ == id {
        Some(choose|i: int| 0 <= i < layers.len() && (#[trigger] layers[i]).id@ == id
            && forall|j: int| 0 <= j < i ==> (#[trigger] layers[j]).id@ != id)
    } else {
        None
    }
}

/// A biome's pool resolved against the veins: each entry naming a known
/// vein, as (its position, weight), in pool order.
pub open spec fn resolved_pool(pool: Seq<(String, u32)>, veins: Seq<VeinDef>) -> Seq<(usize, u32)>
    decreases pool.len(),
{
    if pool.len() == 0 {
        Seq::empty()
    } else {
        resolved_pool(pool.drop_last(), veins) + match vein_index(veins, pool.last().0@) {
            Some(i) => seq![(i as usize, pool.last().1)],
            None => Seq::empty(),
        }
    }
}

/// The total weight of a resolved pool.
pub open spec fn pool_weight(pool: Seq<(usize, u32)>) -> nat
    decreases pool.len(),
{
    if pool.len() == 0 {
        0
    } else {
        pool_weight(pool.drop_last()) + pool.last().1 as nat
    }
}

/// Every biome's resolved pool weighs at most `u32::MAX`.
pub open spec fn pools_bounded(biomes: Seq<BiomeDef>, veins: Seq<VeinDef>) -> bool {
    forall|i: int| 0 <= i < biomes.len() ==> pool_weight(resolved_pool((#[trigger] biomes[i]).vein_pool@, veins)) <= u32::MAX
}

/// A resolved biome, in the form the registry's contract states it.
pub struct BiomeView {
    pub id: Seq<char>,
    pub layer_id: Seq<char>,
    pub y_cell_range: (i32, i32),
    pub pool: Seq<(usize, u32)>,
    pub pool_total: nat,
}

/// The view of a resolved biome.
pub open spec fn biome_view(b: ResolvedBiome) -> BiomeView {
    BiomeView { id: b.id@, layer_id: b.layer_id@, y_cell_range: b.y_cell_range, pool: b.pool@, pool_total: b.pool_total as nat }
}

/// The biomes whose layer is known, resolved in order; the others are dropped.
pub open spec fn resolved_biomes(biomes: Seq<BiomeDef>, layers: Seq<LayerDef>, veins: Seq<VeinDef>) -> Seq<BiomeView>
    decreases biomes.len(),
{
    if biomes.len() == 0 {
        Seq::empty()
    } else {
        let b = biomes.last();
        resolved_biomes(biomes.drop_last(), layers, veins) + match layer_index(layers, b.layer@) {
            Some(li) => {
                let pool = resolved_pool(b.vein_pool@, veins);
                seq![BiomeView { id: b.id@, layer_id: layers[li].id@, y_cell_range: layers[li].y_cell_range, pool, pool_total: pool_weight(pool) }]
            },
            None => Seq::empty(),
        }
    }
}

/// Whether a biome covers cell height `y`.
pub open spec fn covers(b: BiomeView, y: i32) -> bool {
    b.y_cell_range.0 <= y && y <= b.y_cell_range.1
}

/// The position of the first biome covering cell height `y`.
pub open spec fn biome_index(bs: Seq<BiomeView>, y: i32) -> Option<int> {
    if exists|i: int| 0 <= i < bs.len() && covers(#[trigger] bs[i], y) {
        Some(choose|i: int| 0 <= i < bs.len() && covers(#[trigger] bs[i], y)
            && forall|j: int| 0 <= j < i ==> !covers(#[trigger] bs[j], y))
    } else {
        None
    }
}

/// The pool entry a roll below the pool's weight lands on: the first whose
/// running total of weights exceeds the roll.
pub open spec fn pool_pick(pool: Seq<(usize, u32)>, roll: nat) -> Option<usize>
    decreases pool.len(),
{
    if pool.len() == 0 {
        None
    } else if roll < pool[0].1 {
        Some(pool[0].0)
    } else {
        pool_pick(pool.drop_first(), (roll - pool[0].1) as nat)
    }
}

/// The bytes hashed for a cell's vein seed: the world seed, `vein`, then
/// the cell coordinates, all little-endian.
pub open spec fn cell_key(world_seed: u64, x: i32, y: i32, z: i32) -> Seq<u8> {
    le_bytes(world_seed) + "vein".spec_bytes() + le4(x as u32) + le4(y as u32) + le4(z as u32)
}

/// The four little-endian bytes of `x`.
pub open spec fn le4(x: u32) -> Seq<u8> {
    seq![(x & 0xff) as u8, ((x >> 8u32) & 0xff) as u8, ((x >> 16u32) & 0xff) as u8, ((x >> 24u32) & 0xff) as u8]
}

/// The bytes hashed for a voxel's seed under `tag`: the world seed, the tag,
/// then the voxel coordinates, all little-endian.
pub open spec fn voxel_key(world_seed: u64, tag: Seq<u8>, x: i32, y: i32, z: i32) -> Seq<u8> {
    le_bytes(world_seed) + tag + le4(x as u32) + le4(y as u32) + le4(z as u32)
}

/// The seed of voxel (`wx`, `wy`, `wz`) under `tag`: the XXH64 hash (seed 0)
/// of its key. Ore placement draws its jitter under `jit` and its ore under `ore`.
pub fn voxel_seed(world_seed: u64, tag: &[u8], wx: i32, wy: i32, wz: i32) -> (r: u64)
    ensures
        r == xxh64_of(voxel_key(world_seed, tag@, wx, wy, wz), 0),
{
    let mut key = le_bytes_of(world_seed);
    let mut i: usize = 0;
    while i < tag.len()
        invariant
            i <= tag@.len(),
            key@ == le_bytes(world_seed) + tag@.subrange(0, i as int),
        decreases tag@.len() - i,
    {
        key.push(tag[i]);
        assert(key@ =~= le_bytes(world_seed) + tag@.subrange(0, i + 1));
        i += 1;
    }
    assert(tag@.subrange(0, tag@.len() as int) =~= tag@);
    push_le4(&mut key, wx as u32);
    push_le4(&mut key, wy as u32);
    push_le4(&mut key, wz as u32);
    assert(key@ =~= voxel_key(world_seed, tag@, wx, wy, wz));
    xxh64_hash(key.as_slice(), 0)
}

fn push_le4(v: &mut Vec<u8>, x: u32)
    ensures
        final(v)@ == old(v)@ + le4(x),
{
    v.push((x & 0xff) as u8);
    v.push(((x >> 8u32) & 0xff) as u8);
    v.push(((x >> 16u32) & 0xff) as u8);
    v.push(((x >> 24u32) & 0xff) as u8);
    assert(v@ =~= old(v)@ + le4(x));
}

fn find_vein(veins: &Vec<VeinDef>, id: &str) -> (r: Option<usize>)
    ensures
        match r {
            Some(i) => vein_index(veins@, id@) == Some(i as int) && i < veins@.len(),
            None => vein_index(veins@, id@) is None,
        },
{
    let mut i: usize = 0;
    while i < veins.len()
        invariant
            i <= veins@.len(),
            forall|j: int| 0 <= j < i ==> (#[trigger] veins@[j]).id@ != id@,
        decreases veins@.len() - i,
    {
        if str_eq(veins[i].id.as_str(), id) {
            proof {
                let s = veins@;
                let c = choose|c: int| 0 <= c < s.len() && (#[trigger] s[c]).id@ == id@
                    && forall|j: int| 0 <= j < c ==> (#[trigger] s[j]).id@ != id@;
                assert(s[i as int].id@ == id@);
                assert(c == i as int) by {
                    if c < i {
                        assert(s[c].id@ != id@);
                    } else if c > i {
                        assert(s[i as int].id@ != id@);
                    }
                }
            }
            return Some(i);
        }
        i += 1;
    }
    None
}

fn find_layer(layers: &Vec<LayerDef>, id: &str) -> (r: Option<usize>)
    ensures
        match r {
            Some(i) => layer_index(layers@, id@) == Some(i as int) && i < layers@.len(),
            None => layer_index(layers@, id@) is None,
        },
{
    let mut i: usize = 0;
    while i < layers.len()
        invariant
            i <= layers@.len(),
            forall|j: int| 0 <= j < i ==> (#[trigger] layers@[j]).id@ != id@,
        decreases layers@.len() - i,
    {
        if str_eq(layers[i].id.as_str(), id) {
            proof {
                let s = layers@;
                let c = choose|c: int| 0 <= c < s.len() && (#[trigger] s[c]).id@ == id@
                    && forall|j: int| 0 <= j < c ==> (#[trigger] s[j]).id@ != id@;
                assert(s[i as int].id@ == id@);
                assert(c == i as int) by {
                    if c < i {
                        assert(s[c].id@ != id@);
                    } else if c > i {
                        assert(s[i as int].id@ != id@);
                    }
                }
            }
            return Some(i);
        }
        i += 1;
    }
    None
}

#[verifier::rlimit(50)]
fn resolve_pool(pool: &Vec<(String, u32)>, veins: &Vec<VeinDef>) -> (r: (Vec<(usize, u32)>, u32))
    requires
        pool_weight(resolved_pool(pool@, veins@)) <= u32::MAX,
    ensures
        r.0@ == resolved_pool(pool@, veins@),
        r.1 == pool_weight(r.0@),
{
    let mut out: Vec<(usize, u32)> = Vec::new();
    let mut total: u32 = 0;
    let mut k: usize = 0;
    while k < pool.len()
        invariant
            k <= pool@.len(),
            out@ == resolved_pool(pool@.take(k as int), veins@),
            total == pool_weight(out@),
            pool_weight(resolved_pool(pool@, veins@)) <= u32::MAX,
        decreases pool@.len() - k,
    {
        proof {
            assert(pool@.take(k + 1).drop_last() =~= pool@.take(k as int));
            assert(pool@.take(k + 1).last() == pool@[k as int]);
            lemma_pool_weight_prefix(pool@, veins@, k + 1);
        }
        match find_vein(veins, pool[k].0.as_str()) {
            Some(i) => {
                let ghost before = out@;
                out.push((i, pool[k].1));
                proof {
                    assert(out@ =~= resolved_pool(pool@.take(k + 1), veins@));
                    assert(out@.drop_last() =~= before);
                }
                total = total + pool[k].1;
            },
            None => {
                assert(out@ =~= resolved_pool(pool@.take(k + 1), veins@));
            },
        }
        k += 1;
    }
    assert(pool@.take(pool@.len() as int) =~= pool@);
    (out, total)
}

#[verifier::rlimit(60)]
proof fn lemma_pool_weight_prefix(pool: Seq<(String, u32)>, veins: Seq<VeinDef>, k: int)
    requires
        0 <= k <= pool.len(),
    ensures
        pool_weight(resolved_pool(pool.take(k), veins)) <= pool_weight(resolved_pool(pool, veins)),
    decreases pool.len() - k,
{
    if k < pool.len() {
        lemma_pool_weight_prefix(pool, veins, k + 1);
        assert(pool.take(k + 1).drop_last() =~= pool.take(k));
        let a = resolved_pool(pool.take(k), veins);
        let b = resolved_pool(pool.take(k + 1), veins);
        match vein_index(veins, pool[k].0@) {
            Some(i) => {
                assert(b =~= a + seq![(i as usize, pool[k].1)]);
                assert(b.drop_last() =~= a);
            },
            None => {
                assert(b =~= a);
            },
        }
    } else {
        assert(pool.take(k) =~= pool);
    }
}

fn register_name(names: &mut Vec<Option<String>>, ore: &OreSpec)
    requires
        old(names)@.len() == 256,
    ensures
        final(names)@.len() == 256,
        names_view(final(names)@) == names_view(old(names)@).update(ore.material as int, Some(ore.name@)),
{
    let ghost before = names@;
    names.set(ore.material as usize, Some(ore.name.clone()));
    assert(names_view(names@) =~= names_view(before).update(ore.material as int, Some(ore.name@)));
}

impl VeinRegistry {
    /// Builds the registry: names every material (the two defaults, then each
    /// vein's ores in order, a later name replacing an earlier one) and
    /// resolves each biome whose layer is known, dropping the others.
    pub fn new(veins: Vec<VeinDef>, layers: Vec<LayerDef>, biomes: Vec<BiomeDef>) -> (r: Self)
        requires
            pools_bounded(biomes@, veins@),
        ensures
            r.veins@ == veins@,
            r.layers@ == layers@,
            r.biomes@.map_values(|b: ResolvedBiome| biome_view(b)) == resolved_biomes(biomes@, layers@, veins@),
            r.wf(),
            forall|m: u8| #[trigger] names_view(r.material_names@)[m as int] == material_name_of(veins@, m),
    {
        let mut names: Vec<Option<String>> = Vec::new();
        let mut m: usize = 0;
        while m < 256
            invariant
                m <= 256,
                names@.len() == m,
                forall|j: int| 0 <= j < m ==> names@[j] is None,
            decreases 256 - m,
        {
            names.push(None);
            m += 1;
        }
        names.set(0, Some(owned("Stone")));
        names.set(1, Some(owned("Surface Rock")));
        proof {
            assert forall|mm: u8| #[trigger] names_view(names@)[mm as int] == material_name_of(veins@.take(0), mm) by {
                assert(veins@.take(0) =~= Seq::<VeinDef>::empty());
            }
        }
        let mut i: usize = 0;
        while i < veins.len()
            invariant
                i <= veins@.len(),
                names@.len() == 256,
                forall|mm: u8| #[trigger] names_view(names@)[mm as int] == material_name_of(veins@.take(i as int), mm),
            decreases veins@.len() - i,
        {
            let v = &veins[i];
            register_name(&mut names, &v.primary);
            register_name(&mut names, &v.secondary);
            if let Some(s) = &v.sporadic {
                register_name(&mut names, s);
            }
            proof {
                assert(veins@.take(i + 1).drop_last() =~= veins@.take(i as int));
                assert(veins@.take(i + 1).last() == *v);
                assert forall|mm: u8| #[trigger] names_view(names@)[mm as int] == material_name_of(veins@.take(i + 1), mm) by {
                    assert(material_name_of(veins@.take(i + 1), mm) == (if v.sporadic is Some && v.sporadic->0.material == mm {
                        Some(v.sporadic->0.name@)
                    } else if v.secondary.material == mm {
                        Some(v.secondary.name@)
                    } else if v.primary.material == mm {
                        Some(v.primary.name@)
                    } else {
                        material_name_of(veins@.take(i as int), mm)
                    }));
                }
            }
            i += 1;
        }
        assert(veins@.take(veins@.len() as int) =~= veins@);
        let mut resolved: Vec<ResolvedBiome> = Vec::new();
        let mut bi: usize = 0;
        while bi < biomes.len()
            invariant
                bi <= biomes@.len(),
                pools_bounded(biomes@, veins@),
                resolved@.map_values(|b: ResolvedBiome| biome_view(b)) == resolved_biomes(biomes@.take(bi as int), layers@, veins@),
                forall|i: int, k: int| 0 <= i < resolved@.len() && 0 <= k < resolved@[i].pool@.len()
                    ==> (#[trigger] resolved@[i].pool@[k]).0 < veins@.len(),
                forall|i: int| 0 <= i < resolved@.len() ==> #[trigger] resolved@[i].pool_total == pool_weight(resolved@[i].pool@),
            decreases biomes@.len() - bi,
        {
            let b = &biomes[bi];
            let ghost before = resolved@.map_values(|b: ResolvedBiome| biome_view(b));
            proof {
                assert(biomes@.take(bi + 1).drop_last() =~= biomes@.take(bi as int));
                assert(biomes@.take(bi + 1).last() == *b);
            }
            match find_layer(&layers, b.layer.as_str()) {
                Some(li) => {
                    let (pool, total) = resolve_pool(&b.vein_pool, &veins);
                    proof {
                        lemma_resolved_pool_in_range(b.vein_pool@, veins@);
                    }
                    let layer = &layers[li];
                    let rb = ResolvedBiome {
                        id: b.id.clone(),
                        layer_id: layer.id.clone(),
                        y_cell_range: layer.y_cell_range,
                        pool,
                        pool_total: total,
                    };
                    let ghost rbv = biome_view(rb);
                    let ghost r0 = resolved@;
                    resolved.push(rb);
                    assert(resolved@.map_values(|b: ResolvedBiome| biome_view(b)) =~= before.push(rbv));
                    assert forall|i: int, k: int| 0 <= i < resolved@.len() && 0 <= k < resolved@[i].pool@.len()
                        implies (#[trigger] resolved@[i].pool@[k]).0 < veins@.len() by {
                        if i < r0.len() {
                            assert(resolved@[i] == r0[i]);
                        }
                    }
                    assert forall|i: int| 0 <= i < resolved@.len() implies #[trigger] resolved@[i].pool_total == pool_weight(resolved@[i].pool@) by {
                        if i < r0.len() {
                            assert(resolved@[i] == r0[i]);
                        }
                    }
                },
                None => {},
            }
            bi += 1;
        }
        assert(biomes@.take(biomes@.len() as int) =~= biomes@);
        VeinRegistry { veins, layers, biomes: resolved, material_names: names }
    }

    /// The display name of a material, if registered.
    pub fn material_name(&self, material: u8) -> (r: Option<&str>)
        requires
            self.wf(),
        ensures
            match r {
                Some(s) => names_view(self.material_names@)[material as int] == Some(s@),
                None => names_view(self.material_names@)[material as int] is None,
            },
    {
        match &self.material_names[material as usize] {
            Some(s) => Some(s.as_str()),
            None => None,
        }
    }

    fn find_biome(&self, cell_y: i32) -> (r: Option<usize>)
        ensures
            match r {
                Some(i) => biome_index(self.biomes@.map_values(|b: ResolvedBiome| biome_view(b)), cell_y) == Some(i as int)
                    && i < self.biomes@.len(),
                None => biome_index(self.biomes@.map_values(|b: ResolvedBiome| biome_view(b)), cell_y) is None,
            },
    {
        let ghost bs = self.biomes@.map_values(|b: ResolvedBiome| biome_view(b));
        let mut i: usize = 0;
        while i < self.biomes.len()
            invariant
                i <= self.biomes@.len(),
                bs == self.biomes@.map_values(|b: ResolvedBiome| biome_view(b)),
                forall|j: int| 0 <= j < i ==> !covers(#[trigger] bs[j], cell_y),
            decreases self.biomes@.len() - i,
        {
            let b = &self.biomes[i];
            if cell_y >= b.y_cell_range.0 && cell_y <= b.y_cell_range.1 {
                proof {
                    assert(covers(bs[i as int], cell_y));
                    let c = choose|c: int| 0 <= c < bs.len() && covers(#[trigger] bs[c], cell_y)
                        && forall|j: int| 0 <= j < c ==> !covers(#[trigger] bs[j], cell_y);
                    assert(c == i as int) by {
                        if c < i {
                            assert(!covers(bs[c], cell_y));
                        } else if c > i {
                            assert(!covers(bs[i as int], cell_y));
                        }
                    }
                }
                return Some(i);
            }
            i += 1;
        }
        None
    }

    /// The first biome covering cell height `cell_y`, with the name of its
    /// layer (empty when the layer is unknown).
    pub fn biome_at_cell_y(&self, cell_y: i32) -> (r: Option<BiomeInfo<'_>>)
        ensures
            match biome_index(self.biomes@.map_values(|b: ResolvedBiome| biome_view(b)), cell_y) {
                Some(i) => r matches Some(info) && info.id@ == self.biomes@[i].id@ && info.layer_id@ == self.biomes@[i].layer_id@
                    && match layer_index(self.layers@, self.biomes@[i].layer_id@) {
                    Some(li) => info.layer_name@ == self.layers@[li].name@,
                    None => info.layer_name@ == Seq::<char>::empty(),
                },
                None => r is None,
            },
    {
        let i = match self.find_biome(cell_y) {
            Some(i) => i,
            None => return None,
        };
        let b = &self.biomes[i];
        let layer_name: &str = match find_layer(&self.layers, b.layer_id.as_str()) {
            Some(li) => self.layers[li].name.as_str(),
            None => {
                proof {
                    reveal_strlit("");
                }
                ""
            },
        };
        Some(BiomeInfo { id: b.id.as_str(), layer_id: b.layer_id.as_str(), layer_name })
    }

    /// The seed and pool weight of a cell's vein draw: none when no biome
    /// covers the cell's height or its pool is empty or weightless. The seed
    /// is XXH64 (seed 0) of [`cell_key`].
    pub fn cell_draw(&self, world_seed: u64, cell_x: i32, cell_y: i32, cell_z: i32) -> (r: Option<(u64, u32)>)
        ensures
            match biome_index(self.biomes@.map_values(|b: ResolvedBiome| biome_view(b)), cell_y) {
                Some(i) => if self.biomes@[i].pool@.len() == 0 || self.biomes@[i].pool_total == 0 {
                    r is None
                } else {
                    r == Some((xxh64_of(cell_key(world_seed, cell_x, cell_y, cell_z), 0), self.biomes@[i].pool_total))
                },
                None => r is None,
            },
    {
        let i = match self.find_biome(cell_y) {
            Some(i) => i,
            None => return None,
        };
        let b = &self.biomes[i];
        if b.pool.len() == 0 || b.pool_total == 0 {
            return None;
        }
        let mut key = le_bytes_of(world_seed);
        key.push(118u8);
        key.push(101u8);
        key.push(105u8);
        key.push(110u8);
        proof {
            reveal_strlit("vein");
            assert(vstd::string::is_ascii("vein"));
            vstd::string::is_ascii_spec_bytes("vein");
            assert("vein".spec_bytes() =~= seq![118u8, 101u8, 105u8, 110u8]);
        }
        push_le4(&mut key, cell_x as u32);
        push_le4(&mut key, cell_y as u32);
        push_le4(&mut key, cell_z as u32);
        assert(key@ =~= cell_key(world_seed, cell_x, cell_y, cell_z));
        let seed = xxh64_hash(key.as_slice(), 0);
        Some((seed, b.pool_total))
    }

    /// The vein a roll draws for a cell at height `cell_y`: the pool entry of
    /// the first covering biome that the roll lands on.
    pub fn vein_by_roll(&self, cell_y: i32, roll: u32) -> (r: Option<&VeinDef>)
        requires
            self.wf(),
        ensures
            match biome_index(self.biomes@.map_values(|b: ResolvedBiome| biome_view(b)), cell_y) {
                Some(i) => match pool_pick(self.biomes@[i].pool@, roll as nat) {
                    Some(idx) => r matches Some(v) && *v == self.veins@[idx as int],
                    None => r is None,
                },
                None => r is None,
            },
    {
        let i = match self.find_biome(cell_y) {
            Some(i) => i,
            None => return None,
        };
        let b = &self.biomes[i];
        let ghost pool = b.pool@;
        assert(b.pool_total == pool_weight(pool));
        let mut acc: u32 = 0;
        let mut k: usize = 0;
        assert(pool.skip(0) =~= pool);
        assert(pool.take(0) =~= Seq::<(usize, u32)>::empty());
        while k < b.pool.len()
            invariant
                k <= pool.len(),
                pool == b.pool@,
                i < self.biomes@.len(),
                pool == self.biomes@[i as int].pool@,
                biome_index(self.biomes@.map_values(|b: ResolvedBiome| biome_view(b)), cell_y) == Some(i as int),
                b.pool_total == pool_weight(pool),
                acc == pool_weight(pool.take(k as int)),
                roll >= acc,
                pool_pick(pool, roll as nat) == pool_pick(pool.skip(k as int), (roll - acc) as nat),
                forall|kk: int| 0 <= kk < pool.len() ==> (#[trigger] pool[kk]).0 < self.veins@.len(),
            decreases pool.len() - k,
        {
            proof {
                assert(pool.take(k + 1).drop_last() =~= pool.take(k as int));
                lemma_pool_weight_take(pool, k + 1);
                assert(pool.skip(k as int)[0] == pool[k as int]);
                assert(pool.skip(k as int).drop_first() =~= pool.skip(k + 1));
            }
            let (idx, w) = b.pool[k];
            let ghost before = acc;
            acc = acc + w;
            if roll < acc {
                proof {
                    let rest = pool.skip(k as int);
                    assert(rest[0] == (idx, w));
                    assert(((roll - before) as nat) < w);
                    assert(pool_pick(rest, (roll - before) as nat) == Some(idx));
                }
                return Some(&self.veins[idx]);
            }
            k += 1;
        }
        assert(pool.skip(k as int) =~= Seq::<(usize, u32)>::empty());
        None
    }
}

impl VeinRegistry {
    /// The vein of an underground cell, if any. No vein lies where no biome
    /// covers the cell's height or its pool is empty or weightless. Otherwise
    /// a generator seeded from the cell's draw seed decides, with a chance of
    /// 33 in 100, whether the cell holds a vein, and if so its next draw rolls
    /// below the pool's weight to pick it. The same seed and cell always give
    /// the same vein.
    pub fn cell_vein(&self, world_seed: u64, cell_x: i32, cell_y: i32, cell_z: i32) -> (r: Option<&VeinDef>)
        requires
            self.wf(),
        ensures
            match biome_index(self.biomes@.map_values(|b: ResolvedBiome| biome_view(b)), cell_y) {
                Some(i) => if self.biomes@[i].pool@.len() == 0 || self.biomes@[i].pool_total == 0 {
                    r is None
                } else {
                    let seed = xxh64_of(cell_key(world_seed, cell_x, cell_y, cell_z), 0);
                    if !seeded_ratio_of(seed, 33, 100) {
                        r is None
                    } else {
                        match pool_pick(
                            self.biomes@[i].pool@,
                            seeded_roll_of(seed, 33, 100, self.biomes@[i].pool_total) as nat,
                        ) {
                            Some(idx) => r matches Some(v) && *v == self.veins@[idx as int],
                            None => r is None,
                        }
                    }
                },
                None => r is None,
            },
    {
        let (seed, total) = match self.cell_draw(world_seed, cell_x, cell_y, cell_z) {
            Some(d) => d,
            None => return None,
        };
        if !seeded_ratio(seed, 33, 100) {
            return None;
        }
        let roll = seeded_roll_after_ratio(seed, 33, 100, total);
        self.vein_by_roll(cell_y, roll)
    }
}

proof fn lemma_pool_weight_take(pool: Seq<(usize, u32)>, k: int)
    requires
        0 <= k <= pool.len(),
    ensures
        pool_weight(pool.take(k)) <= pool_weight(pool),
    decreases pool.len() - k,
{
    if k < pool.len() {
        lemma_pool_weight_take(pool, k + 1);
        assert(pool.take(k + 1).drop_last() =~= pool.take(k));
    } else {
        assert(pool.take(k) =~= pool);
    }
}

/// Layer positions ordered by the first cell height each covers; layers
/// starting at the same height keep their order.
pub open spec fn by_start(layers: Seq<LayerDef>, idx: Seq<usize>) -> Seq<usize>
    decreases idx.len(),
{
    if idx.len() == 0 {
        Seq::empty()
    } else {
        let t = by_start(layers, idx.drop_last());
        t.insert(start_slot(layers, t, idx.last()), idx.last())
    }
}

/// Where layer `x` goes in start-ordered `t`: after every layer starting no
/// higher.
pub open spec fn start_slot(layers: Seq<LayerDef>, t: Seq<usize>, x: usize) -> int
    decreases t.len(),
{
    if t.len() == 0 {
        0
    } else if layers[t.last() as int].y_cell_range.0 <= layers[x as int].y_cell_range.0 {
        t.len() as int
    } else {
        start_slot(layers, t.drop_last(), x)
    }
}

/// The positions `0..n`.
pub open spec fn upto(n: nat) -> Seq<usize> {
    Seq::new(n, |i: int| i as usize)
}

/// The neighbouring pairs of start-ordered layers `o` that overlap: the
/// lower one reaches the start of the next.
pub open spec fn overlapping_pairs(layers: Seq<LayerDef>, o: Seq<usize>) -> Seq<(usize, usize)>
    decreases o.len(),
{
    if o.len() < 2 {
        Seq::empty()
    } else {
        let d = o.drop_last();
        let a = o[o.len() - 2];
        let b = o.last();
        let rest = overlapping_pairs(layers, d);
        if layers[a as int].y_cell_range.1 >= layers[b as int].y_cell_range.0 { rest.push((a, b)) } else { rest }
    }
}

/// The overlapping layers, reported as pairs of positions: the layers are
/// ordered by the first height they cover (ties keep their order), and each
/// layer that reaches the start of the next one is reported with it.
pub fn layer_overlaps(layers: &Vec<LayerDef>) -> (r: Vec<(usize, usize)>)
    ensures
        r@ == overlapping_pairs(layers@, by_start(layers@, upto(layers@.len()))),
{
    let n = layers.len();
    let mut order: Vec<usize> = Vec::new();
    let mut i: usize = 0;
    while i < n
        invariant
            n == layers@.len(),
            i <= n,
            order@ == by_start(layers@, upto(i as nat)),
            forall|k: int| 0 <= k < order@.len() ==> (#[trigger] order@[k]) < i,
            order@.len() == i,
        decreases n - i,
    {
        proof {
            assert(upto((i + 1) as nat).drop_last() =~= upto(i as nat));
            assert(upto((i + 1) as nat).last() == i);
        }
        let key = layers[i].y_cell_range.0;
        let ghost t = order@;
        let mut p: usize = order.len();
        assert(t.subrange(0, p as int) =~= t);
        while p > 0 && layers[order[p - 1]].y_cell_range.0 > key
            invariant
                t == order@,
                n == layers@.len(),
                i < n,
                key == layers@[i as int].y_cell_range.0,
                forall|k: int| 0 <= k < t.len() ==> (#[trigger] t[k]) < i,
                p <= t.len(),
                start_slot(layers@, t.subrange(0, p as int), i) == start_slot(layers@, t, i),
            decreases p,
        {
            proof {
                let sp = t.subrange(0, p as int);
                assert(sp.drop_last() =~= t.subrange(0, p - 1));
                assert(sp.last() == t[p - 1]);
            }
            p -= 1;
        }
        proof {
            let sp = t.subrange(0, p as int);
            if p > 0 {
                assert(sp.last() == t[p - 1]);
            } else {
                assert(sp =~= Seq::<usize>::empty());
            }
        }
        order.insert(p, i);
        proof {
            assert forall|k: int| 0 <= k < order@.len() implies (#[trigger] order@[k]) < i + 1 by {
                if k < p {
                    assert(order@[k] == t[k]);
                } else if k > p {
                    assert(order@[k] == t[k - 1]);
                }
            }
        }
        i += 1;
    }
    let mut r: Vec<(usize, usize)> = Vec::new();
    if n < 2 {
        proof {
            assert(r@ =~= overlapping_pairs(layers@, order@));
        }
        return r;
    }
    let mut k: usize = 1;
    while k < n
        invariant
            n == layers@.len(),
            n >= 2,
            order@.len() == n,
            forall|j: int| 0 <= j < order@.len() ==> (#[trigger] order@[j]) < n,
            1 <= k <= n,
            r@ == overlapping_pairs(layers@, order@.subrange(0, k as int)),
        decreases n - k,
    {
        let a = order[k - 1];
        let b = order[k];
        proof {
            let sub = order@.subrange(0, k + 1);
            assert(sub.drop_last() =~= order@.subrange(0, k as int));
            assert(sub[sub.len() - 2] == a);
            assert(sub.last() == b);
        }
        if layers[a].y_cell_range.1 >= layers[b].y_cell_range.0 {
            r.push((a, b));
        }
        k += 1;
    }
    proof {
        assert(order@.subrange(0, n as int) =~= order@);
    }
    r
}

} // verus!
