use exergon_core::content::{layer_overlaps, BiomeDef, LayerDef, OreSpec, VeinDef, VeinRegistry};
use rand::{Rng, SeedableRng};
use rand_pcg::Pcg64;

fn ore(name: &str, material: u8, weight: u32) -> OreSpec {
    OreSpec { name: name.to_string(), material, weight }
}

fn vein(id: &str, primary_w: u32, secondary_w: u32, sporadic: Option<OreSpec>) -> VeinDef {
    VeinDef {
        id: id.to_string(),
        density_bits: 1.0f32.to_bits(),
        primary: ore("Primary", 1, primary_w),
        secondary: ore("Secondary", 2, secondary_w),
        sporadic,
    }
}

fn layer(id: &str, y_range: (i32, i32)) -> LayerDef {
    LayerDef { id: id.to_string(), name: format!("Layer {id}"), y_cell_range: y_range }
}

fn biome(id: &str, layer_id: &str, pool: Vec<(&str, u32)>) -> BiomeDef {
    BiomeDef {
        id: id.to_string(),
        layer: layer_id.to_string(),
        vein_pool: pool.into_iter().map(|(s, w)| (s.to_string(), w)).collect(),
    }
}

#[test]
fn pick_ore_zero_weight_returns_primary() {
    let v = vein("v", 0, 0, None);
    let mut rng = Pcg64::seed_from_u64(0);
    assert_eq!(v.pick_ore(&mut rng).material, 1);
}

#[test]
fn pick_ore_primary_only() {
    let v = vein("v", 100, 0, None);
    let mut rng = Pcg64::seed_from_u64(0);
    for _ in 0..20 {
        assert_eq!(v.pick_ore(&mut rng).material, 1);
    }
}

#[test]
fn pick_ore_sporadic_when_only_weight() {
    let v = vein("v", 0, 0, Some(ore("Sporadic", 3, 100)));
    let mut rng = Pcg64::seed_from_u64(0);
    assert_eq!(v.pick_ore(&mut rng).material, 3);
}

#[test]
fn pick_ore_secondary_reachable() {
    let v = VeinDef {
        id: "v".into(),
        density_bits: 1.0f32.to_bits(),
        primary: ore("P", 1, 0),
        secondary: ore("S", 2, 100),
        sporadic: None,
    };
    let mut rng = Pcg64::seed_from_u64(42);
    assert_eq!(v.pick_ore(&mut rng).material, 2);
}

#[test]
fn material_name_defaults_present() {
    let reg = VeinRegistry::new(vec![], vec![], vec![]);
    assert_eq!(reg.material_name(0), Some("Stone"));
    assert_eq!(reg.material_name(1), Some("Surface Rock"));
    assert_eq!(reg.material_name(99), None);
}

#[test]
fn material_name_from_vein() {
    let v = vein("v", 50, 50, Some(ore("Copper", 5, 10)));
    let l = layer("l", (0, 5));
    let b = biome("b", "l", vec![("v", 1)]);
    let reg = VeinRegistry::new(vec![v], vec![l], vec![b]);
    assert_eq!(reg.material_name(1), Some("Primary"));
    assert_eq!(reg.material_name(2), Some("Secondary"));
    assert_eq!(reg.material_name(5), Some("Copper"));
}

#[test]
fn biome_at_cell_y_in_range() {
    let l = layer("deep", (0, 10));
    let v = vein("v", 1, 1, None);
    let b = biome("deep_biome", "deep", vec![("v", 1)]);
    let reg = VeinRegistry::new(vec![v], vec![l], vec![b]);
    let info = reg.biome_at_cell_y(5).unwrap();
    assert_eq!(info.id, "deep_biome");
    assert_eq!(info.layer_id, "deep");
    assert_eq!(info.layer_name, "Layer deep");
}

#[test]
fn biome_at_cell_y_boundary() {
    let l = layer("l", (0, 5));
    let v = vein("v", 1, 1, None);
    let b = biome("b", "l", vec![("v", 1)]);
    let reg = VeinRegistry::new(vec![v], vec![l], vec![b]);
    assert!(reg.biome_at_cell_y(0).is_some());
    assert!(reg.biome_at_cell_y(5).is_some());
    assert!(reg.biome_at_cell_y(-1).is_none());
    assert!(reg.biome_at_cell_y(6).is_none());
}

#[test]
fn biome_at_cell_y_no_biomes_returns_none() {
    let reg = VeinRegistry::new(vec![], vec![], vec![]);
    assert!(reg.biome_at_cell_y(0).is_none());
}

#[test]
fn biome_with_unknown_layer_is_dropped() {
    let reg = VeinRegistry::new(vec![], vec![layer("l", (0, 5))], vec![biome("lost", "nowhere", vec![]), biome("b", "l", vec![])]);
    assert_eq!(reg.biomes.len(), 1);
    assert_eq!(reg.biome_at_cell_y(1).unwrap().id, "b");
}

#[test]
fn pool_drops_unknown_veins_and_sums_weights() {
    let reg = VeinRegistry::new(
        vec![vein("iron", 1, 1, None), vein("gold", 1, 1, None)],
        vec![layer("l", (0, 5))],
        vec![biome("b", "l", vec![("gold", 3), ("ghost", 7), ("iron", 2)])],
    );
    assert_eq!(reg.biomes[0].pool, vec![(1, 3), (0, 2)]);
    assert_eq!(reg.biomes[0].pool_total, 5);
}

#[test]
fn vein_by_roll_walks_running_weights() {
    let reg = VeinRegistry::new(
        vec![vein("iron", 1, 1, None), vein("gold", 1, 1, None)],
        vec![layer("l", (0, 5))],
        vec![biome("b", "l", vec![("gold", 3), ("iron", 2)])],
    );
    assert_eq!(reg.vein_by_roll(0, 0).unwrap().id, "gold");
    assert_eq!(reg.vein_by_roll(0, 2).unwrap().id, "gold");
    assert_eq!(reg.vein_by_roll(0, 3).unwrap().id, "iron");
    assert_eq!(reg.vein_by_roll(0, 4).unwrap().id, "iron");
    assert!(reg.vein_by_roll(0, 5).is_none());
    assert!(reg.vein_by_roll(9, 0).is_none());
}

#[test]
fn cell_draw_needs_a_weighted_pool() {
    let reg = VeinRegistry::new(vec![], vec![layer("l", (0, 5))], vec![biome("b", "l", vec![])]);
    assert!(reg.cell_draw(0, 0, 0, 0).is_none());
    let reg = VeinRegistry::new(vec![vein("iron", 1, 1, None)], vec![layer("l", (0, 5))], vec![biome("b", "l", vec![("iron", 4)])]);
    let (seed, total) = reg.cell_draw(12345, 1, 0, 1).unwrap();
    assert_eq!(total, 4);
    let mut key = 12345u64.to_le_bytes().to_vec();
    key.extend_from_slice(b"vein");
    key.extend_from_slice(&1i32.to_le_bytes());
    key.extend_from_slice(&0i32.to_le_bytes());
    key.extend_from_slice(&1i32.to_le_bytes());
    assert_eq!(seed, xxhash_rust::xxh64::xxh64(&key, 0));
    assert!(reg.cell_draw(12345, 1, 99, 1).is_none());
}

#[test]
fn pick_ore_by_roll_bands() {
    let v = vein("v", 2, 3, Some(ore("Sp", 9, 1)));
    assert_eq!(v.pick_ore_by_roll(0).material, 1);
    assert_eq!(v.pick_ore_by_roll(1).material, 1);
    assert_eq!(v.pick_ore_by_roll(2).material, 2);
    assert_eq!(v.pick_ore_by_roll(4).material, 2);
    assert_eq!(v.pick_ore_by_roll(5).material, 9);
}

#[test]
fn disjoint_layers_do_not_overlap() {
    let layers = vec![layer("deep", (-10, -6)), layer("surface", (0, 4)), layer("mid", (-5, -1))];
    assert!(layer_overlaps(&layers).is_empty());
}

#[test]
fn overlapping_layers_are_reported_in_start_order() {
    // Sorted by start: mid(-5..0) [2], surface(0..4) [1], high(3..9) [0].
    let layers = vec![layer("high", (3, 9)), layer("surface", (0, 4)), layer("mid", (-5, 0))];
    assert_eq!(layer_overlaps(&layers), vec![(2, 1), (1, 0)]);
}

#[test]
fn layers_with_equal_start_keep_their_order() {
    let layers = vec![layer("a", (0, 2)), layer("b", (0, 1)), layer("c", (5, 6))];
    assert_eq!(layer_overlaps(&layers), vec![(0, 1)]);
    assert!(layer_overlaps(&vec![]).is_empty());
    assert!(layer_overlaps(&vec![layer("solo", (0, 0))]).is_empty());
}

#[test]
fn cell_vein_no_biome_returns_none() {
    let reg = VeinRegistry::new(vec![], vec![], vec![]);
    assert!(reg.cell_vein(0, 0, 99, 0).is_none());
}

#[test]
fn cell_vein_empty_pool_returns_none() {
    let l = layer("l", (0, 5));
    let reg = VeinRegistry::new(vec![], vec![l], vec![biome("b", "l", vec![])]);
    assert!(reg.cell_vein(0, 0, 0, 0).is_none());
}

#[test]
fn cell_vein_deterministic() {
    let l = layer("l", (0, 5));
    let v = vein("iron", 1, 1, None);
    let b = biome("b", "l", vec![("iron", 1)]);
    let reg = VeinRegistry::new(vec![v], vec![l], vec![b]);
    let a = reg.cell_vein(12345, 1, 0, 1).map(|v| v.id.clone());
    let b_result = reg.cell_vein(12345, 1, 0, 1).map(|v| v.id.clone());
    assert_eq!(a, b_result);
}

#[test]
fn cell_vein_matches_a_one_third_bernoulli_draw() {
    let reg = VeinRegistry::new(
        vec![vein("iron", 1, 1, None), vein("gold", 1, 1, None)],
        vec![layer("l", (0, 5))],
        vec![biome("b", "l", vec![("gold", 3), ("iron", 2)])],
    );
    let mut present = 0;
    for seed in 0u64..200 {
        let (cell_seed, total) = reg.cell_draw(seed, 2, 1, 3).unwrap();
        let mut rng = Pcg64::seed_from_u64(cell_seed);
        let expected = if rng.gen_bool(0.33) {
            let roll = rng.gen_range(0..total);
            reg.vein_by_roll(1, roll).map(|v| v.id.clone())
        } else {
            None
        };
        let got = reg.cell_vein(seed, 2, 1, 3).map(|v| v.id.clone());
        assert_eq!(got, expected);
        if got.is_some() {
            present += 1;
        }
    }
    assert!(present > 30 && present < 110, "{present}");
}

#[test]
fn voxel_seed_hashes_seed_tag_and_coordinates() {
    let mut key = 42u64.to_le_bytes().to_vec();
    key.extend_from_slice(b"ore");
    key.extend_from_slice(&1i32.to_le_bytes());
    key.extend_from_slice(&(-2i32).to_le_bytes());
    key.extend_from_slice(&3i32.to_le_bytes());
    assert_eq!(exergon_core::content::voxel_seed(42, b"ore", 1, -2, 3), xxhash_rust::xxh64::xxh64(&key, 0));
    assert_ne!(
        exergon_core::content::voxel_seed(42, b"ore", 1, -2, 3),
        exergon_core::content::voxel_seed(42, b"jit", 1, -2, 3)
    );
}
