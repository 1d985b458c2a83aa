use exergon_core::catalog::{
    dispatch_create, dispatch_find, Creation, dispatch_delete, dispatch_get, dispatch_list, kind_catalog, route_kind, sanitize, seed_delete, seed_get, seed_list,
    short_type, unknown_kind, KindSource, StoredAsset,
};

fn asset(identity: &str, json: &str) -> StoredAsset {
    StoredAsset { identity: identity.to_string(), path: format!("dir/{identity}.ron"), json: json.to_string() }
}

#[test]
fn unknown_kind_lists_every_kind() {
    let msg = unknown_kind("widget");
    assert_eq!(
        msg,
        "unknown kind 'widget'; valid kinds: recipe, tech, item, material, form_group, recipe_template, vein, layer, \
         biome, deposit, machine, placeable, planet_archetype, seed"
    );
}

#[test]
fn catalog_identity_fields() {
    let cat = kind_catalog();
    assert_eq!(cat.len(), 14);
    assert_eq!(cat[11], ("placeable".to_string(), "item.id".to_string()));
    assert_eq!(cat[12], ("planet_archetype".to_string(), "name".to_string()));
    assert_eq!(cat[0], ("recipe".to_string(), "id".to_string()));
}

#[test]
fn kinds_route_to_their_store() {
    assert!(matches!(route_kind("seed"), Ok(KindSource::Seeds)));
    assert!(matches!(route_kind("tech"), Ok(KindSource::Directory(ref d)) if d == "assets/tech_nodes"));
    assert!(matches!(route_kind("planet_archetype"), Ok(KindSource::Directory(ref d)) if d == "assets/planet/archetypes"));
    assert!(matches!(route_kind("nope"), Err(ref e) if e.starts_with("unknown kind 'nope'")));
}

#[test]
fn dispatch_list_sorts_directory_ids() {
    let listing = vec![asset("zinc", "{}"), asset("alpha", "{}"), asset("iron", "{}")];
    let json = dispatch_list("material", &listing).unwrap();
    assert_eq!(json, "[\n  \"alpha\",\n  \"iron\",\n  \"zinc\"\n]");
}

#[test]
fn seed_list_keeps_file_order() {
    let seeds = vec![asset("zeta", "{}"), asset("alpha", "{}")];
    assert_eq!(seed_list(&seeds).unwrap(), "[\n  \"zeta\",\n  \"alpha\"\n]");
    assert_eq!(dispatch_list("seed", &seeds).unwrap(), "[\n  \"zeta\",\n  \"alpha\"\n]");
    assert_eq!(dispatch_list("seed", &vec![]).unwrap(), "[]");
}

#[test]
fn dispatch_list_unknown_kind_errors() {
    let err = dispatch_list("gizmo", &vec![]).err().unwrap();
    assert_eq!(err, unknown_kind("gizmo"));
}

#[test]
fn dispatch_get_finds_first_match_or_names_dir() {
    let listing = vec![asset("iron", "{\"id\":\"iron\"}"), asset("iron", "{\"dup\":true}")];
    assert_eq!(dispatch_get("item", "iron", &listing).unwrap(), "{\"id\":\"iron\"}");
    assert_eq!(dispatch_get("item", "gold", &listing).err().unwrap(), "no 'gold' in assets/items");
    assert_eq!(dispatch_get("bogus", "iron", &listing).err().unwrap(), unknown_kind("bogus"));
}

#[test]
fn seed_get_and_missing_seed() {
    let seeds = vec![asset("calm", "{\"name\":\"calm\"}")];
    assert_eq!(seed_get("calm", &seeds).unwrap(), "{\"name\":\"calm\"}");
    assert_eq!(seed_get("wild", &seeds).err().unwrap(), "no seed 'wild'");
    assert_eq!(dispatch_get("seed", "wild", &seeds).err().unwrap(), "no seed 'wild'");
}

#[test]
fn dispatch_delete_removes_first_directory_match() {
    let mut listing = vec![asset("a", "1"), asset("b", "2"), asset("b", "3")];
    assert_eq!(dispatch_delete("vein", "b", &mut listing).unwrap(), "deleted 'b' from assets/veins");
    assert_eq!(listing.len(), 2);
    assert_eq!(listing[1].json, "3");
    assert_eq!(dispatch_delete("vein", "x", &mut listing).err().unwrap(), "no 'x' in assets/veins");
    assert_eq!(listing.len(), 2);
}

#[test]
fn seed_delete_removes_every_match() {
    let mut seeds = vec![asset("a", "1"), asset("b", "2"), asset("a", "3")];
    assert_eq!(seed_delete("a", &mut seeds).unwrap(), "deleted seed 'a'");
    assert_eq!(seeds.len(), 1);
    assert_eq!(seeds[0].identity, "b");
    assert_eq!(seed_delete("a", &mut seeds).err().unwrap(), "no seed 'a'");
    assert_eq!(dispatch_delete("seed", "b", &mut seeds).unwrap(), "deleted seed 'b'");
    assert!(seeds.is_empty());
}

#[test]
fn sanitize_replaces_unsafe_characters() {
    assert_eq!(sanitize("iron_ore-2"), "iron_ore-2");
    assert_eq!(sanitize("a/b c.d"), "a_b_c_d");
    assert_eq!(sanitize("é"), "_");
}

#[test]
fn short_type_keeps_last_segment() {
    assert_eq!(short_type("exergon::recipe_graph::ConcreteRecipe"), "ConcreteRecipe");
    assert_eq!(short_type("Plain"), "Plain");
    assert_eq!(short_type("a::"), "");
}

#[test]
fn create_seed_appends_unless_name_taken() {
    let mut seeds = vec![asset("calm", "{}")];
    let r = dispatch_create("seed", asset("storm", "{\"name\":\"storm\"}"), &mut seeds);
    assert!(matches!(r, Ok(Creation::SeedAdded(ref m)) if m == "added seed 'storm'"));
    assert_eq!(seeds.len(), 2);
    assert_eq!(seeds[1].identity, "storm");
    let dup = dispatch_create("seed", asset("calm", "{}"), &mut seeds);
    assert!(matches!(dup, Err(ref e) if e == "seed 'calm' already exists"));
    assert_eq!(seeds.len(), 2);
}

#[test]
fn create_directory_entity_names_its_file() {
    let mut listing = vec![asset("iron_ore", "{}")];
    let r = dispatch_create("item", asset("copper wire!", "{}"), &mut listing);
    match r {
        Ok(Creation::NewFile { path, message }) => {
            assert_eq!(path, "assets/items/copper_wire_.ron");
            assert_eq!(message, "created assets/items/copper_wire_.ron");
        }
        _ => panic!("expected a new file"),
    }
    assert_eq!(listing.len(), 1);
}

#[test]
fn create_refuses_blank_and_taken_identities() {
    let mut listing = vec![asset("iron_ore", "{}")];
    let blank = dispatch_create("item", asset(" \t ", "{}"), &mut listing);
    assert!(matches!(blank, Err(ref e) if e == "identity field is empty"));
    let taken = dispatch_create("item", asset("iron_ore", "{}"), &mut listing);
    assert!(matches!(taken, Err(ref e) if e == "'iron_ore' already exists in assets/items"));
    let unknown = dispatch_create("widget", asset("x", "{}"), &mut listing);
    assert!(matches!(unknown, Err(ref e) if e.starts_with("unknown kind 'widget'")));
    assert_eq!(listing.len(), 1);
}

#[test]
fn find_for_update_gives_position_or_error() {
    let listing = vec![asset("a", "{}"), asset("b", "{}"), asset("b", "{\"x\":1}")];
    assert_eq!(dispatch_find("tech", "b", &listing), Ok(1));
    assert_eq!(dispatch_find("seed", "a", &listing), Ok(0));
    assert_eq!(dispatch_find("tech", "c", &listing), Err("no 'c' in assets/tech_nodes".to_string()));
    assert_eq!(dispatch_find("seed", "c", &listing), Err("no seed 'c'".to_string()));
}

// The asset store as the library sees it: the listing of a directory kind,
// to which the caller adds the file it wrote for a created entity.
fn create_into(listing: &mut Vec<StoredAsset>, id: &str, json: &str) -> Result<String, String> {
    match dispatch_create("item", asset(id, json), listing)? {
        Creation::NewFile { path, message } => {
            listing.push(StoredAsset { identity: id.to_string(), path, json: json.to_string() });
            Ok(message)
        }
        Creation::SeedAdded(m) => Ok(m),
    }
}

#[test]
fn create_get_roundtrip() {
    let mut listing = Vec::new();
    create_into(&mut listing, "miner", "{\"id\":\"miner\",\"power\":5.0}").unwrap();
    let got = dispatch_get("item", "miner", &listing).unwrap();
    assert_eq!(got, "{\"id\":\"miner\",\"power\":5.0}");
}

#[test]
fn create_rejects_duplicate() {
    let mut listing = Vec::new();
    create_into(&mut listing, "miner", "{\"id\":\"miner\",\"power\":5.0}").unwrap();
    let err = create_into(&mut listing, "miner", "{\"id\":\"miner\",\"power\":9.0}").unwrap_err();
    assert!(err.contains("already exists"), "got: {err}");
}

#[test]
fn delete_removes_file() {
    let mut listing = Vec::new();
    create_into(&mut listing, "miner", "{\"id\":\"miner\"}").unwrap();
    dispatch_delete("item", "miner", &mut listing).unwrap();
    assert!(dispatch_get("item", "miner", &listing).is_err());
}

#[test]
fn missing_dir_lists_empty() {
    assert_eq!(dispatch_list("item", &Vec::new()).unwrap(), "[]");
}

#[test]
fn seed_list_always_answers() {
    let seeds = vec![asset("calm", "{}"), asset("storm", "{}")];
    assert_eq!(seed_list(&seeds).unwrap(), "[\n  \"calm\",\n  \"storm\"\n]");
    assert_eq!(seed_list(&vec![]).unwrap(), "[]");
}
