//! The content server's asset kinds and the decisions it makes over them:
//! which store a kind lives in, listing, lookup and deletion over a loaded
//! listing, the error texts it answers with, and file-name sanitizing.
//!
//! Reading and writing the files is left to the caller: a listing is the
//! store's content as already loaded, one [`StoredAsset`] per entity.

use vstd::prelude::*;
use vstd::string::StrSliceExecFns;
use crate::ordering::{chars_sorted, sort_strings};
use crate::strmap::str_views;
use crate::text::{blank, is_blank, owned, push_str, str_eq};

verus! {

/// The characters of each pair of strings.
pub open spec fn pair_views(v: Seq<(String, String)>) -> Seq<(Seq<char>, Seq<char>)> {
    v.map_values(|p: (String, String)| (p.0@, p.1@))
}

/// Every managed kind with the field that identifies its entities, in catalog order.
pub open spec fn catalog_spec() -> Seq<(Seq<char>, Seq<char>)> {
    seq![
        ("recipe"@, "id"@),
        ("tech"@, "id"@),
        ("item"@, "id"@),
        ("material"@, "id"@),
        ("form_group"@, "id"@),
        ("recipe_template"@, "id"@),
        ("vein"@, "id"@),
        ("layer"@, "id"@),
        ("biome"@, "id"@),
        ("deposit"@, "id"@),
        ("machine"@, "id"@),
        ("placeable"@, "item.id"@),
        ("planet_archetype"@, "name"@),
        ("seed"@, "name"@),
    ]
}

/// The directory-backed kinds (one file per entity) with their directories.
pub open spec fn dir_table() -> Seq<(Seq<char>, Seq<char>)> {
    seq![
        ("recipe"@, "assets/recipes"@),
        ("tech"@, "assets/tech_nodes"@),
        ("item"@, "assets/items"@),
        ("material"@, "assets/materials"@),
        ("form_group"@, "assets/form_groups"@),
        ("recipe_template"@, "assets/recipe_templates"@),
        ("vein"@, "assets/veins"@),
        ("layer"@, "assets/layers"@),
        ("biome"@, "assets/biomes"@),
        ("deposit"@, "assets/deposits"@),
        ("machine"@, "assets/machines"@),
        ("placeable"@, "assets/placeables"@),
        ("planet_archetype"@, "assets/planet/archetypes"@),
    ]
}

/// The kind whose entities all live in one list file.
pub open spec fn seed_kind() -> Seq<char> {
    "seed"@
}

/// The value paired with the first occurrence of `k` in `t`.
pub open spec fn lookup(t: Seq<(Seq<char>, Seq<char>)>, k: Seq<char>) -> Option<Seq<char>>
    decreases t.len(),
{
    if t.len() == 0 {
        None
    } else if t[0].0 == k {
        Some(t[0].1)
    } else {
        lookup(t.drop_first(), k)
    }
}

/// The directory of a directory-backed kind.
pub open spec fn dir_of(kind: Seq<char>) -> Option<Seq<char>> {
    lookup(dir_table(), kind)
}

/// `parts` joined with `sep` between neighbours.
pub open spec fn join(parts: Seq<Seq<char>>, sep: Seq<char>) -> Seq<char>
    decreases parts.len(),
{
    if parts.len() == 0 {
        Seq::empty()
    } else if parts.len() == 1 {
        parts[0]
    } else {
        join(parts.drop_last(), sep) + sep + parts.last()
    }
}

/// The answer to a kind that is not in the catalog.
pub open spec fn unknown_kind_message(kind: Seq<char>) -> Seq<char> {
    "unknown kind '"@ + kind + "'; valid kinds: "@ + join(
        catalog_spec().map_values(|e: (Seq<char>, Seq<char>)| e.0),
        ", "@,
    )
}

/// The answer to an identity that a directory does not hold.
pub open spec fn missing_entity_message(id: Seq<char>, dir: Seq<char>) -> Seq<char> {
    "no '"@ + id + "' in "@ + dir
}

/// The answer to a successful deletion from a directory.
pub open spec fn deleted_entity_message(id: Seq<char>, dir: Seq<char>) -> Seq<char> {
    "deleted '"@ + id + "' from "@ + dir
}

/// The answer to a seed name that the list does not hold.
pub open spec fn missing_seed_message(name: Seq<char>) -> Seq<char> {
    "no seed '"@ + name + "'"@
}

/// The answer to a successful seed deletion.
pub open spec fn deleted_seed_message(name: Seq<char>) -> Seq<char> {
    "deleted seed '"@ + name + "'"@
}

fn push_pair(v: &mut Vec<(String, String)>, a: &str, b: &str)
    ensures
        pair_views(final(v)@) == pair_views(old(v)@).push((a@, b@)),
{
    v.push((owned(a), owned(b)));
    assert(pair_views(v@) =~= pair_views(old(v)@).push((a@, b@)));
}

/// Every managed kind with its identity field, in catalog order.
pub fn kind_catalog() -> (r: Vec<(String, String)>)
    ensures
        pair_views(r@) == catalog_spec(),
{
    let mut v: Vec<(String, String)> = Vec::new();
    push_pair(&mut v, "recipe", "id");
    push_pair(&mut v, "tech", "id");
    push_pair(&mut v, "item", "id");
    push_pair(&mut v, "material", "id");
    push_pair(&mut v, "form_group", "id");
    push_pair(&mut v, "recipe_template", "id");
    push_pair(&mut v, "vein", "id");
    push_pair(&mut v, "layer", "id");
    push_pair(&mut v, "biome", "id");
    push_pair(&mut v, "deposit", "id");
    push_pair(&mut v, "machine", "id");
    push_pair(&mut v, "placeable", "item.id");
    push_pair(&mut v, "planet_archetype", "name");
    push_pair(&mut v, "seed", "name");
    assert(pair_views(v@) =~= catalog_spec());
    v
}

fn kind_dirs() -> (r: Vec<(String, String)>)
    ensures
        pair_views(r@) == dir_table(),
{
    let mut v: Vec<(String, String)> = Vec::new();
    push_pair(&mut v, "recipe", "assets/recipes");
    push_pair(&mut v, "tech", "assets/tech_nodes");
    push_pair(&mut v, "item", "assets/items");
    push_pair(&mut v, "material", "assets/materials");
    push_pair(&mut v, "form_group", "assets/form_groups");
    push_pair(&mut v, "recipe_template", "assets/recipe_templates");
    push_pair(&mut v, "vein", "assets/veins");
    push_pair(&mut v, "layer", "assets/layers");
    push_pair(&mut v, "biome", "assets/biomes");
    push_pair(&mut v, "deposit", "assets/deposits");
    push_pair(&mut v, "machine", "assets/machines");
    push_pair(&mut v, "placeable", "assets/placeables");
    push_pair(&mut v, "planet_archetype", "assets/planet/archetypes");
    assert(pair_views(v@) =~= dir_table());
    v
}

/// The error text for a kind outside the catalog, naming every valid kind.
pub fn unknown_kind(kind: &str) -> (r: String)
    ensures
        r@ == unknown_kind_message(kind@),
{
    let cat = kind_catalog();
    let ghost names = catalog_spec().map_values(|e: (Seq<char>, Seq<char>)| e.0);
    let mut s = owned("unknown kind '");
    push_str(&mut s, kind);
    push_str(&mut s, "'; valid kinds: ");
    let ghost prefix = s@;
    let mut i: usize = 0;
    while i < cat.len()
        invariant
            pair_views(cat@) == catalog_spec(),
            names == catalog_spec().map_values(|e: (Seq<char>, Seq<char>)| e.0),
            i <= cat@.len(),
            s@ == prefix + join(names.subrange(0, i as int), ", "@),
        decreases cat@.len() - i,
    {
        if i > 0 {
            push_str(&mut s, ", ");
        }
        push_str(&mut s, cat[i].0.as_str());
        proof {
            assert(cat@[i as int].0@ == names[i as int]);
            let sub = names.subrange(0, i + 1);
            assert(sub.drop_last() =~= names.subrange(0, i as int));
            assert(sub.last() == names[i as int]);
            if i == 0 {
                assert(names.subrange(0, 0) =~= Seq::<Seq<char>>::empty());
            }
        }
        i += 1;
    }
    proof {
        assert(names.subrange(0, cat@.len() as int) =~= names);
    }
    s
}

/// Where a kind's entities are stored.
pub enum KindSource {
    /// The single list file of curated seeds.
    Seeds,
    /// A directory with one file per entity.
    Directory(String),
}

/// Routes `kind` to its store, or answers with the unknown-kind error.
pub fn route_kind(kind: &str) -> (r: Result<KindSource, String>)
    ensures
        kind@ == seed_kind() ==> r matches Ok(KindSource::Seeds),
        kind@ != seed_kind() ==> match dir_of(kind@) {
            Some(d) => r matches Ok(KindSource::Directory(x)) && x@ == d,
            None => r matches Err(e) && e@ == unknown_kind_message(kind@),
        },
{
    if str_eq(kind, "seed") {
        return Ok(KindSource::Seeds);
    }
    let dirs = kind_dirs();
    let mut i: usize = 0;
    assert(dir_table().subrange(0, dir_table().len() as int) =~= dir_table());
    while i < dirs.len()
        invariant
            kind@ != seed_kind(),
            pair_views(dirs@) == dir_table(),
            i <= dirs@.len(),
            dir_of(kind@) == lookup(dir_table().subrange(i as int, dir_table().len() as int), kind@),
        decreases dirs@.len() - i,
    {
        let ghost rest = dir_table().subrange(i as int, dir_table().len() as int);
        assert(rest[0] == (dirs@[i as int].0@, dirs@[i as int].1@));
        if str_eq(dirs[i].0.as_str(), kind) {
            let d = dirs[i].1.clone();
            return Ok(KindSource::Directory(d));
        }
        assert(rest.drop_first() =~= dir_table().subrange(i + 1, dir_table().len() as int));
        i += 1;
    }
    Err(unknown_kind(kind))
}

/// One stored entity as the server sees it: its identity, the file it lives
/// in, and its JSON rendering.
pub struct StoredAsset {
    pub identity: String,
    pub path: String,
    pub json: String,
}

/// The identities of a listing, in order.
pub open spec fn identities(s: Seq<StoredAsset>) -> Seq<Seq<char>> {
    s.map_values(|a: StoredAsset| a.identity@)
}

/// The position of the first entity of `s` with identity `id`.
pub open spec fn first_with(s: Seq<StoredAsset>, id: Seq<char>) -> Option<int> {
    if exists|i: int| 0 <= i < s.len() && (#[trigger] s[i]).identity@ == id {
        Some(choose|i: int| 0 <= i < s.len() && (#[trigger] s[i]).identity@ == id
            && forall|j: int| 0 <= j < i ==> (#[trigger] s[j]).identity@ != id)
    } else {
        None
    }
}

/// The pretty-printed JSON array of the given strings, as `serde_json`
/// writes it.
pub uninterp spec fn pretty_json_strings(items: Seq<Seq<char>>) -> Seq<char>;

/// `serde_json::to_string_pretty` on a list of strings: it writes into a
/// byte buffer and strings always serialize, so it succeeds with the pretty
/// JSON array of the strings.
#[verifier::external_body]
fn json_of_strings(items: &Vec<String>) -> (r: Result<String, String>)
    ensures
        r is Ok,
        r matches Ok(s) ==> s@ == pretty_json_strings(str_views(items@)),
{
    serde_json::to_string_pretty(items).map_err(|e| e.to_string())
}

/// The pretty JSON array of `items`; encoding strings never fails.
pub fn encode_strings(items: &Vec<String>) -> (r: Result<String, String>)
    ensures
        r matches Ok(s) && s@ == pretty_json_strings(str_views(items@)),
{
    json_of_strings(items)
}

fn identity_list(listing: &Vec<StoredAsset>) -> (r: Vec<String>)
    ensures
        str_views(r@) == identities(listing@),
{
    let mut r: Vec<String> = Vec::new();
    let mut i: usize = 0;
    while i < listing.len()
        invariant
            i <= listing@.len(),
            r@.len() == i,
            forall|j: int| 0 <= j < i ==> (#[trigger] r@[j])@ == listing@[j].identity@,
        decreases listing@.len() - i,
    {
        let x = listing[i].identity.clone();
        r.push(x);
        i += 1;
    }
    assert(str_views(r@) =~= identities(listing@));
    r
}

fn find_first(listing: &Vec<StoredAsset>, id: &str) -> (r: Option<usize>)
    ensures
        match r {
            Some(i) => first_with(listing@, id@) == Some(i as int) && i < listing@.len(),
            None => first_with(listing@, id@) is None,
        },
{
    let mut i: usize = 0;
    while i < listing.len()
        invariant
            i <= listing@.len(),
            forall|j: int| 0 <= j < i ==> (#[trigger] listing@[j]).identity@ != id@,
        decreases listing@.len() - i,
    {
        if str_eq(listing[i].identity.as_str(), id) {
            proof {
                let s = listing@;
                assert(exists|k: int| 0 <= k < s.len() && (#[trigger] s[k]).identity@ == id@);
                let c = choose|k: int| 0 <= k < s.len() && (#[trigger] s[k]).identity@ == id@
                    && forall|j: int| 0 <= j < k ==> (#[trigger] s[j]).identity@ != id@;
                assert(s[i as int].identity@ == id@);
                assert(c == i as int) by {
                    if c < i {
                        assert(s[c].identity@ != id@);
                    } else if c > i {
                        assert(s[i as int].identity@ != id@);
                    }
                }
            }
            return Some(i);
        }
        i += 1;
    }
    None
}

/// The names of the curated seeds, in list order, as JSON.
pub fn seed_list(seeds: &Vec<StoredAsset>) -> (r: Result<String, String>)
    ensures
        r matches Ok(s) && s@ == pretty_json_strings(identities(seeds@)),
{
    let names = identity_list(seeds);
    encode_strings(&names)
}

/// The JSON of the curated seed called `name`.
pub fn seed_get(name: &str, seeds: &Vec<StoredAsset>) -> (r: Result<String, String>)
    ensures
        match first_with(seeds@, name@) {
            Some(i) => r matches Ok(s) && s@ == seeds@[i].json@,
            None => r matches Err(e) && e@ == missing_seed_message(name@),
        },
{
    match find_first(seeds, name) {
        Some(i) => Ok(seeds[i].json.clone()),
        None => {
            let mut m = owned("no seed '");
            push_str(&mut m, name);
            push_str(&mut m, "'");
            Err(m)
        },
    }
}

/// Removes every curated seed called `name`; an error when there is none.
pub fn seed_delete(name: &str, seeds: &mut Vec<StoredAsset>) -> (r: Result<String, String>)
    ensures
        final(seeds)@ == old(seeds)@.filter(|a: StoredAsset| a.identity@ != name@),
        first_with(old(seeds)@, name@) is None ==> (r matches Err(e) && e@ == missing_seed_message(name@)),
        first_with(old(seeds)@, name@) is Some ==> (r matches Ok(s) && s@ == deleted_seed_message(name@)),
{
    let ghost before = seeds@;
    let mut rest: Vec<StoredAsset> = Vec::new();
    std::mem::swap(&mut rest, seeds);
    let n = rest.len();
    let mut removed = false;
    let mut k: usize = 0;
    while k < n
        invariant
            n == before.len(),
            k <= n,
            rest@ == before.subrange(k as int, n as int),
            seeds@ == before.subrange(0, k as int).filter(|a: StoredAsset| a.identity@ != name@),
            removed == exists|j: int| 0 <= j < k && (#[trigger] before[j]).identity@ == name@,
        decreases n - k,
    {
        let a = rest.remove(0);
        assert(a == before[k as int]);
        proof {
            let f = |a: StoredAsset| a.identity@ != name@;
            assert(before.subrange(0, k + 1) =~= before.subrange(0, k as int).push(a));
            before.subrange(0, k as int).lemma_filter_push(a, f);
        }
        if str_eq(a.identity.as_str(), name) {
            removed = true;
        } else {
            seeds.push(a);
        }
        assert(rest@ =~= before.subrange(k + 1, n as int));
        k += 1;
    }
    assert(before.subrange(0, n as int) =~= before);
    if !removed {
        assert(first_with(before, name@) is None);
        let mut m = owned("no seed '");
        push_str(&mut m, name);
        push_str(&mut m, "'");
        Err(m)
    } else {
        let mut m = owned("deleted seed '");
        push_str(&mut m, name);
        push_str(&mut m, "'");
        Ok(m)
    }
}

/// Lists the entities of `kind`: seed names in list order, or the sorted
/// identities of a directory kind, as JSON; the unknown-kind error otherwise.
pub fn dispatch_list(kind: &str, listing: &Vec<StoredAsset>) -> (r: Result<String, String>)
    ensures
        kind@ == seed_kind() ==> (r matches Ok(s) && s@ == pretty_json_strings(identities(listing@))),
        kind@ != seed_kind() && dir_of(kind@) is Some ==> (r matches Ok(s) && exists|ids: Seq<Seq<char>>|
            chars_sorted(ids) && ids.to_multiset() == identities(listing@).to_multiset()
            && s@ == pretty_json_strings(ids)),
        kind@ != seed_kind() && dir_of(kind@) is None ==> (r matches Err(e) && e@
            == unknown_kind_message(kind@)),
{
    match route_kind(kind) {
        Err(e) => Err(e),
        Ok(KindSource::Seeds) => seed_list(listing),
        Ok(KindSource::Directory(_)) => {
            let ids = identity_list(listing);
            let sorted = sort_strings(ids);
            let r = encode_strings(&sorted);
            proof {
                let v = str_views(sorted@);
                assert(v == sorted@.map_values(|s: String| s@));
            }
            r
        },
    }
}

/// The JSON of the entity of `kind` identified by `id`: the seed of that
/// name, or the first directory entity with that identity.
pub fn dispatch_get(kind: &str, id: &str, listing: &Vec<StoredAsset>) -> (r: Result<String, String>)
    ensures
        kind@ == seed_kind() ==> match first_with(listing@, id@) {
            Some(i) => r matches Ok(s) && s@ == listing@[i].json@,
            None => r matches Err(e) && e@ == missing_seed_message(id@),
        },
        kind@ != seed_kind() ==> match dir_of(kind@) {
            Some(d) => match first_with(listing@, id@) {
                Some(i) => r matches Ok(s) && s@ == listing@[i].json@,
                None => r matches Err(e) && e@ == missing_entity_message(id@, d),
            },
            None => r matches Err(e) && e@ == unknown_kind_message(kind@),
        },
{
    match route_kind(kind) {
        Err(e) => Err(e),
        Ok(KindSource::Seeds) => seed_get(id, listing),
        Ok(KindSource::Directory(d)) => match find_first(listing, id) {
            Some(i) => Ok(listing[i].json.clone()),
            None => {
                let mut m = owned("no '");
                push_str(&mut m, id);
                push_str(&mut m, "' in ");
                push_str(&mut m, d.as_str());
                Err(m)
            },
        },
    }
}

/// Deletes the entity of `kind` identified by `id` from the listing: every
/// seed of that name, or the first directory entity with that identity.
/// An unknown kind or a missing entity leaves the listing as it was.
pub fn dispatch_delete(kind: &str, id: &str, listing: &mut Vec<StoredAsset>) -> (r: Result<String, String>)
    ensures
        kind@ == seed_kind() ==> {
            &&& final(listing)@ == old(listing)@.filter(|a: StoredAsset| a.identity@ != id@)
            &&& first_with(old(listing)@, id@) is None ==> (r matches Err(e) && e@ == missing_seed_message(id@))
            &&& first_with(old(listing)@, id@) is Some ==> (r matches Ok(s) && s@ == deleted_seed_message(id@))
        },
        kind@ != seed_kind() ==> match dir_of(kind@) {
            Some(d) => match first_with(old(listing)@, id@) {
                Some(i) => final(listing)@ == old(listing)@.remove(i) && (r matches Ok(s) && s@
                    == deleted_entity_message(id@, d)),
                None => final(listing)@ == old(listing)@ && (r matches Err(e) && e@
                    == missing_entity_message(id@, d)),
            },
            None => final(listing)@ == old(listing)@ && (r matches Err(e) && e@
                == unknown_kind_message(kind@)),
        },
{
    match route_kind(kind) {
        Err(e) => Err(e),
        Ok(KindSource::Seeds) => seed_delete(id, listing),
        Ok(KindSource::Directory(d)) => match find_first(listing, id) {
            Some(i) => {
                listing.remove(i);
                let mut m = owned("deleted '");
                push_str(&mut m, id);
                push_str(&mut m, "' from ");
                push_str(&mut m, d.as_str());
                Ok(m)
            },
            None => {
                let mut m = owned("no '");
                push_str(&mut m, id);
                push_str(&mut m, "' in ");
                push_str(&mut m, d.as_str());
                Err(m)
            },
        },
    }
}

/// The answer to a seed name that the list already holds.
pub open spec fn seed_exists_message(name: Seq<char>) -> Seq<char> {
    "seed '"@ + name + "' already exists"@
}

/// The answer to a successful seed addition.
pub open spec fn added_seed_message(name: Seq<char>) -> Seq<char> {
    "added seed '"@ + name + "'"@
}

/// The answer to an identity that a directory already holds.
pub open spec fn entity_exists_message(id: Seq<char>, dir: Seq<char>) -> Seq<char> {
    "'"@ + id + "' already exists in "@ + dir
}

/// The answer to a new entity whose identity is blank.
pub open spec fn empty_identity_message() -> Seq<char> {
    "identity field is empty"@
}

/// The file a new entity of a directory kind is written to.
pub open spec fn new_file_path(dir: Seq<char>, id: Seq<char>) -> Seq<char> {
    dir + "/"@ + id.map_values(|c: char| file_name_char(c)) + ".ron"@
}

/// What creating an entity comes to once the store accepted it.
pub enum Creation {
    /// The seed was appended to the list; the list file is to be rewritten.
    SeedAdded(String),
    /// A new file is to be written at `path`; `message` is the answer once it is.
    NewFile { path: String, message: String },
}

/// Adds `entry` to the store of `kind`: a seed is appended to the list
/// unless its name is taken; a directory entity gets a new file named after
/// its sanitized identity, unless the identity is blank or already held.
/// Any refusal leaves the listing as it was.
pub fn dispatch_create(kind: &str, entry: StoredAsset, listing: &mut Vec<StoredAsset>) -> (r: Result<Creation, String>)
    ensures
        kind@ == seed_kind() ==> match first_with(old(listing)@, entry.identity@) {
            Some(_) => final(listing)@ == old(listing)@ && (r matches Err(e) && e@
                == seed_exists_message(entry.identity@)),
            None => final(listing)@ == old(listing)@.push(entry) && (r matches Ok(Creation::SeedAdded(m))
                && m@ == added_seed_message(entry.identity@)),
        },
        kind@ != seed_kind() ==> final(listing)@ == old(listing)@,
        kind@ != seed_kind() ==> match dir_of(kind@) {
            Some(d) => if blank(entry.identity@) {
                r matches Err(e) && e@ == empty_identity_message()
            } else if first_with(old(listing)@, entry.identity@) is Some {
                r matches Err(e) && e@ == entity_exists_message(entry.identity@, d)
            } else {
                r matches Ok(Creation::NewFile { path, message }) && path@ == new_file_path(d, entry.identity@)
                    && message@ == "created "@ + path@
            },
            None => r matches Err(e) && e@ == unknown_kind_message(kind@),
        },
{
    match route_kind(kind) {
        Err(e) => Err(e),
        Ok(KindSource::Seeds) => {
            if find_first(listing, entry.identity.as_str()).is_some() {
                let mut m = owned("seed '");
                push_str(&mut m, entry.identity.as_str());
                push_str(&mut m, "' already exists");
                return Err(m);
            }
            let mut m = owned("added seed '");
            push_str(&mut m, entry.identity.as_str());
            push_str(&mut m, "'");
            listing.push(entry);
            Ok(Creation::SeedAdded(m))
        },
        Ok(KindSource::Directory(d)) => {
            if is_blank(entry.identity.as_str()) {
                return Err(owned("identity field is empty"));
            }
            if find_first(listing, entry.identity.as_str()).is_some() {
                let mut m = owned("'");
                push_str(&mut m, entry.identity.as_str());
                push_str(&mut m, "' already exists in ");
                push_str(&mut m, d.as_str());
                return Err(m);
            }
            let mut path = d.clone();
            push_str(&mut path, "/");
            let name = sanitize(entry.identity.as_str());
            push_str(&mut path, name.as_str());
            push_str(&mut path, ".ron");
            let mut message = owned("created ");
            push_str(&mut message, path.as_str());
            Ok(Creation::NewFile { path, message })
        },
    }
}

/// The position of the entity of `kind` identified by `id`, for an update:
/// the first seed of that name, or the first directory entity with that
/// identity; the missing-entity or unknown-kind error otherwise.
pub fn dispatch_find(kind: &str, id: &str, listing: &Vec<StoredAsset>) -> (r: Result<usize, String>)
    ensures
        kind@ == seed_kind() ==> match first_with(listing@, id@) {
            Some(i) => r == Ok::<usize, String>(i as usize),
            None => r matches Err(e) && e@ == missing_seed_message(id@),
        },
        kind@ != seed_kind() ==> match dir_of(kind@) {
            Some(d) => match first_with(listing@, id@) {
                Some(i) => r == Ok::<usize, String>(i as usize),
                None => r matches Err(e) && e@ == missing_entity_message(id@, d),
            },
            None => r matches Err(e) && e@ == unknown_kind_message(kind@),
        },
{
    match route_kind(kind) {
        Err(e) => Err(e),
        Ok(KindSource::Seeds) => match find_first(listing, id) {
            Some(i) => Ok(i),
            None => {
                let mut m = owned("no seed '");
                push_str(&mut m, id);
                push_str(&mut m, "'");
                Err(m)
            },
        },
        Ok(KindSource::Directory(d)) => match find_first(listing, id) {
            Some(i) => Ok(i),
            None => {
                let mut m = owned("no '");
                push_str(&mut m, id);
                push_str(&mut m, "' in ");
                push_str(&mut m, d.as_str());
                Err(m)
            },
        },
    }
}

/// The character a file name keeps for `c`: ASCII letters and digits, `_`
/// and `-` stay; anything else becomes `_`.
pub open spec fn file_name_char(c: char) -> char {
    if ('a' <= c && c <= 'z') || ('A' <= c && c <= 'Z') || ('0' <= c && c <= '9') || c == '_' || c == '-' {
        c
    } else {
        '_'
    }
}

/// A file-name-safe form of an identity, one character for each.
pub fn sanitize(id: &str) -> (r: String)
    ensures
        r@ == id@.map_values(|c: char| file_name_char(c)),
{
    let n = id.unicode_len();
    let mut s = String::new();
    let mut i: usize = 0;
    while i < n
        invariant
            n == id@.len(),
            i <= n,
            s@ == id@.subrange(0, i as int).map_values(|c: char| file_name_char(c)),
        decreases n - i,
    {
        let c = id.get_char(i);
        let keep = ('a' <= c && c <= 'z') || ('A' <= c && c <= 'Z') || ('0' <= c && c <= '9')
            || c == '_' || c == '-';
        if keep {
            s.push(c);
        } else {
            s.push('_');
        }
        assert(s@ =~= id@.subrange(0, i + 1).map_values(|c: char| file_name_char(c)));
        i += 1;
    }
    assert(id@.subrange(0, n as int) =~= id@);
    s
}

/// The part of a path after its last `::`, or the whole path when it has none.
pub open spec fn last_segment(s: Seq<char>) -> Seq<char>
    decreases s.len(),
{
    if s.len() < 2 {
        s
    } else if s[s.len() - 2] == ':' && s[s.len() - 1] == ':' {
        Seq::empty()
    } else {
        last_segment(s.drop_last()).push(s.last())
    }
}

/// The short form of a Rust type's full path, for error messages: the
/// segment after its last `::`.
pub fn short_type(name: &str) -> (r: String)
    ensures
        r@ == last_segment(name@),
{
    let n = name.unicode_len();
    let mut i: usize = n;
    assert(name@.subrange(0, n as int) =~= name@);
    assert(name@.subrange(n as int, n as int) =~= Seq::<char>::empty());
    while i >= 2 && !(name.get_char(i - 2) == ':' && name.get_char(i - 1) == ':')
        invariant
            n == name@.len(),
            i <= n,
            last_segment(name@) == last_segment(name@.subrange(0, i as int)) + name@.subrange(i as int, n as int),
        decreases i,
    {
        let ghost pre = name@.subrange(0, i as int);
        assert(pre.drop_last() =~= name@.subrange(0, i - 1));
        assert(pre.last() == name@[i - 1]);
        assert(name@.subrange(i - 1, n as int) =~= seq![name@[i - 1]] + name@.subrange(i as int, n as int));
        assert(last_segment(pre) == last_segment(name@.subrange(0, i - 1)).push(name@[i - 1]));
        assert(last_segment(name@.subrange(0, i - 1)).push(name@[i - 1]) + name@.subrange(i as int, n as int)
            =~= last_segment(name@.subrange(0, i - 1)) + name@.subrange(i - 1, n as int));
        i -= 1;
    }
    let start: usize = if i >= 2 { i } else { 0 };
    proof {
        let pre = name@.subrange(0, i as int);
        if i >= 2 {
            assert(pre[pre.len() - 2] == ':' && pre[pre.len() - 1] == ':');
            assert(last_segment(pre) =~= Seq::<char>::empty());
            assert(last_segment(name@) =~= name@.subrange(i as int, n as int));
        } else {
            assert(last_segment(pre) == pre);
            assert(last_segment(name@) =~= name@.subrange(0, n as int));
        }
    }
    let tail = name.substring_char(start, n);
    owned(tail)
}

} // verus!
