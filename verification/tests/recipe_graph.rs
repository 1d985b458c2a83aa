use exergon_core::recipe_graph::{
    capitalize, derive_items, expand_templates, ConcreteRecipe, FormGroup, ItemDef, ItemKind, ItemStack, MaterialDef,
    MaterialKind, RecipeGraph, RecipeTemplate,
};
use exergon_core::strmap::StrMap;

fn mat(id: &str) -> MaterialDef {
    MaterialDef { id: id.to_string(), name: id.to_string(), kind: MaterialKind::Base, form_groups: vec![] }
}

fn mat_with_group(id: &str, group: &str) -> MaterialDef {
    MaterialDef { id: id.to_string(), name: capitalize(id), kind: MaterialKind::Base, form_groups: vec![group.to_string()] }
}

fn stack(item: &str, qty: u32) -> ItemStack {
    ItemStack { item: item.to_string(), quantity: qty }
}

fn recipe(id: &str, inputs: Vec<ItemStack>, outputs: Vec<ItemStack>, byproducts: Vec<ItemStack>) -> ConcreteRecipe {
    ConcreteRecipe {
        id: id.to_string(),
        inputs,
        outputs,
        byproducts,
        machine_type: "furnace".to_string(),
        machine_tier: 1,
        processing_time_bits: 1.0f32.to_bits(),
        energy_cost_bits: 10.0f32.to_bits(),
        energy_output_bits: 0,
        template_id: None,
    }
}

fn metal_group() -> FormGroup {
    FormGroup { id: "metal".to_string(), forms: vec!["ore".to_string(), "ingot".to_string()] }
}

fn terminal_item(id: &str) -> ItemDef {
    ItemDef { id: id.to_string(), name: id.to_string(), kind: ItemKind::Unique, is_terminal: true }
}

fn smelt_template() -> RecipeTemplate {
    RecipeTemplate {
        id: "smelt".to_string(),
        input_forms: vec![("ore".to_string(), 1)],
        output_form: "ingot".to_string(),
        group: "metal".to_string(),
        machine_type: "furnace".to_string(),
        base_time_bits: 5.0f32.to_bits(),
        base_energy_bits: 20.0f32.to_bits(),
    }
}

#[test]
fn empty_graph() {
    let g = RecipeGraph::from_vecs(vec![], vec![], vec![], vec![], vec![]);
    assert!(g.materials.is_empty());
    assert!(g.recipes.is_empty());
    assert!(g.producers.is_empty());
    assert!(g.consumers.is_empty());
    assert!(g.items.is_empty());
    assert_eq!(g.terminal, "");
}

#[test]
fn output_creates_producer() {
    let r = recipe("r1", vec![], vec![stack("iron", 1)], vec![]);
    let g = RecipeGraph::from_vecs(vec![], vec![], vec![], vec![r], vec![]);
    assert!(g.producers.get("iron").unwrap().contains(&"r1".to_string()));
}

#[test]
fn byproduct_creates_producer() {
    // A half unit of slag is carried as its whole-unit part, 0.
    let r = recipe("r1", vec![], vec![], vec![stack("slag", 0)]);
    let g = RecipeGraph::from_vecs(vec![], vec![], vec![], vec![r], vec![]);
    assert!(g.producers.get("slag").unwrap().contains(&"r1".to_string()));
}

#[test]
fn input_creates_consumer() {
    let r = recipe("r1", vec![stack("coal", 2)], vec![], vec![]);
    let g = RecipeGraph::from_vecs(vec![], vec![], vec![], vec![r], vec![]);
    assert!(g.consumers.get("coal").unwrap().contains(&"r1".to_string()));
}

#[test]
fn terminal_from_terminal_item() {
    let g = RecipeGraph::from_vecs(vec![], vec![], vec![], vec![], vec![terminal_item("crystal")]);
    assert_eq!(g.terminal, "crystal");
}

#[test]
fn materials_indexed_by_id() {
    let g = RecipeGraph::from_vecs(vec![], vec![mat("iron"), mat("gold")], vec![], vec![], vec![]);
    assert!(g.materials.contains_key("iron"));
    assert!(g.materials.contains_key("gold"));
}

#[test]
fn derive_items_generates_ids_and_names() {
    let mut materials = StrMap::new();
    let m = mat_with_group("copper", "metal");
    materials.insert(m.id.clone(), m);
    let mut form_groups = StrMap::new();
    let g = metal_group();
    form_groups.insert(g.id.clone(), g);

    let items = derive_items(&materials, &form_groups);
    let ids: Vec<&str> = items.iter().map(|i| i.id.as_str()).collect();
    assert!(ids.contains(&"copper_ore"), "expected copper_ore in {ids:?}");
    assert!(ids.contains(&"copper_ingot"), "expected copper_ingot in {ids:?}");
    let ore = items.iter().find(|i| i.id == "copper_ore").unwrap();
    assert_eq!(ore.name, "Copper Ore");
}

#[test]
fn expand_templates_produces_recipe_for_each_material_in_group() {
    let mut materials = StrMap::new();
    for name in ["copper", "iron"] {
        let m = mat_with_group(name, "metal");
        materials.insert(m.id.clone(), m);
    }
    let mut form_groups = StrMap::new();
    let g = metal_group();
    form_groups.insert(g.id.clone(), g);

    let recipes = expand_templates(&materials, &form_groups, &vec![smelt_template()]);
    assert_eq!(recipes.len(), 2);
    let ids: Vec<&str> = recipes.iter().map(|r| r.id.as_str()).collect();
    assert!(ids.iter().any(|id| id.contains("smelt")));
    for r in &recipes {
        assert!(r.inputs[0].item.ends_with("_ore"));
        assert!(r.outputs[0].item.ends_with("_ingot"));
    }
}

#[test]
fn expand_templates_skips_material_without_group() {
    let mut materials = StrMap::new();
    let plain = mat("stone");
    let metal = mat_with_group("iron", "metal");
    materials.insert(plain.id.clone(), plain);
    materials.insert(metal.id.clone(), metal);
    let mut form_groups = StrMap::new();
    let g = metal_group();
    form_groups.insert(g.id.clone(), g);

    let recipes = expand_templates(&materials, &form_groups, &vec![smelt_template()]);
    assert_eq!(recipes.len(), 1, "only iron should produce a recipe, not stone");
    assert!(recipes[0].inputs[0].item.starts_with("iron"));
}

#[test]
fn graph_contains_derived_items_after_construction() {
    let fg = metal_group();
    let mat = mat_with_group("copper", "metal");
    let g = RecipeGraph::from_vecs(vec![fg], vec![mat], vec![], vec![], vec![]);
    assert!(g.items.contains_key("copper_ore"));
    assert!(g.items.contains_key("copper_ingot"));
}

#[test]
fn capitalize_upper_cases_first_letter_only() {
    assert_eq!(capitalize("copper"), "Copper");
    assert_eq!(capitalize(""), "");
    assert_eq!(capitalize("éclair"), "Éclair");
}

#[test]
fn expanded_recipe_ids_and_template_link() {
    let mut materials = StrMap::new();
    let m = mat_with_group("iron", "metal");
    materials.insert(m.id.clone(), m);
    let mut form_groups = StrMap::new();
    let g = metal_group();
    form_groups.insert(g.id.clone(), g);
    let recipes = expand_templates(&materials, &form_groups, &vec![smelt_template()]);
    assert_eq!(recipes[0].id, "smelt__iron");
    assert_eq!(recipes[0].template_id.as_deref(), Some("smelt"));
    assert_eq!(recipes[0].inputs[0].item, "iron_ore");
    assert_eq!(recipes[0].outputs[0].item, "iron_ingot");
}

#[test]
fn every_producer_entry_produces_its_item() {
    let r1 = recipe("a", vec![stack("x", 1)], vec![stack("y", 1)], vec![stack("z", 1)]);
    let r2 = recipe("b", vec![stack("y", 2)], vec![stack("z", 1)], vec![]);
    let g = RecipeGraph::from_vecs(vec![], vec![], vec![], vec![r1, r2], vec![]);
    let mut zs = g.producers.get("z").unwrap().clone();
    zs.sort();
    assert_eq!(zs, vec!["a", "b"]);
    assert_eq!(g.consumers.get("y").unwrap(), &vec!["b".to_string()]);
    assert!(g.producers.get("x").is_none());
}
