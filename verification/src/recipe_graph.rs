//! The recipe graph: materials, form groups, item definitions, recipe templates
//! and concrete recipes, with the producer/consumer indexes derived from them.

use vstd::prelude::*;
use vstd::string::StrSliceExecFns;
use crate::strmap::{StrMap, contains_str, str_views};
use crate::text::push_str;

verus! {

/// Whether a material is ordinary or alien.
#[derive(Clone, Copy, Debug, PartialEq, Eq, Structural)]
pub enum MaterialKind {
    Base,
    Alien,
}

/// A named group of item forms (for example ore and ingot).
#[derive(Debug)]
pub struct FormGroup {
    pub id: String,
    pub forms: Vec<String>,
}

/// A material and the form groups it comes in.
#[derive(Debug)]
pub struct MaterialDef {
    pub id: String,
    pub name: String,
    pub kind: MaterialKind,
    pub form_groups: Vec<String>,
}

/// How an item came to be defined.
#[derive(Debug)]
pub enum ItemKind {
    /// A material in one of its forms.
    Derived { material: String, form: String },
    Composite { template: Option<String> },
    Unique,
}

/// An item definition.
#[derive(Debug)]
pub struct ItemDef {
    pub id: String,
    pub name: String,
    pub kind: ItemKind,
    /// Producing this item wins the run.
    pub is_terminal: bool,
}

/// A recipe pattern over forms, expanded once per material of its group.
/// Times and energies are carried as the bit patterns of their `f32` values.
#[derive(Debug)]
pub struct RecipeTemplate {
    pub id: String,
    /// (form, whole units consumed) pairs.
    pub input_forms: Vec<(String, u32)>,
    pub output_form: String,
    pub group: String,
    pub machine_type: String,
    pub base_time_bits: u32,
    pub base_energy_bits: u32,
}

/// A quantity of one item, in whole units.
#[derive(Debug)]
pub struct ItemStack {
    pub item: String,
    pub quantity: u32,
}

/// A recipe over concrete items. Times and energies are carried as the bit
/// patterns of their `f32` values.
#[derive(Debug)]
pub struct ConcreteRecipe {
    pub id: String,
    pub inputs: Vec<ItemStack>,
    pub outputs: Vec<ItemStack>,
    pub byproducts: Vec<ItemStack>,
    pub machine_type: String,
    pub machine_tier: u8,
    pub processing_time_bits: u32,
    pub energy_cost_bits: u32,
    pub energy_output_bits: u32,
    /// The template this recipe was expanded from, if any.
    pub template_id: Option<String>,
}

/// The whole recipe graph.
pub struct RecipeGraph {
    pub materials: StrMap<MaterialDef>,
    pub form_groups: StrMap<FormGroup>,
    pub templates: StrMap<RecipeTemplate>,
    pub items: StrMap<ItemDef>,
    pub recipes: StrMap<ConcreteRecipe>,
    /// The id of the terminal item, or empty when none is defined.
    pub terminal: String,
    /// Item id to the ids of the recipes that output it (byproducts included).
    pub producers: StrMap<Vec<String>>,
    /// Item id to the ids of the recipes that consume it.
    pub consumers: StrMap<Vec<String>>,
    /// Template id to the ids of the recipes expanded from it.
    pub template_recipes: StrMap<Vec<String>>,
}


/// The uppercase form of a character (`char::to_uppercase`); it may be several characters.
pub uninterp spec fn upper_chars(c: char) -> Seq<char>;

/// `char::to_uppercase`, collected into a string.
#[verifier::external_body]
fn char_upper(c: char) -> (r: String)
    ensures
        r@ == upper_chars(c),
{
    c.to_uppercase().collect::<String>()
}

/// `s` with its first character in uppercase.
pub open spec fn capitalized(s: Seq<char>) -> Seq<char> {
    if s.len() == 0 {
        Seq::empty()
    } else {
        upper_chars(s[0]) + s.subrange(1, s.len() as int)
    }
}

/// `s` with its first character in uppercase.
pub fn capitalize(s: &str) -> (r: String)
    ensures
        r@ == capitalized(s@),
{
    let n = s.unicode_len();
    if n == 0 {
        return String::new();
    }
    let mut r = char_upper(s.get_char(0));
    push_str(&mut r, s.substring_char(1, n));
    r
}

/// `a`, a separator, then `b`.
pub open spec fn joined(a: Seq<char>, sep: Seq<char>, b: Seq<char>) -> Seq<char> {
    a + sep + b
}

fn join(a: &str, sep: &str, b: &str) -> (r: String)
    ensures
        r@ == joined(a@, sep@, b@),
{
    let mut r = String::new();
    push_str(&mut r, a);
    push_str(&mut r, sep);
    push_str(&mut r, b);
    r
}

/// The kind of an item, as plain values.
pub ghost enum KindView {
    Derived { material: Seq<char>, form: Seq<char> },
    Composite { template: Option<Seq<char>> },
    Unique,
}

/// An item definition, as plain values.
pub ghost struct ItemView {
    pub id: Seq<char>,
    pub name: Seq<char>,
    pub kind: KindView,
    pub is_terminal: bool,
}

/// The plain-value view of an item definition.
pub open spec fn item_view(i: ItemDef) -> ItemView {
    ItemView {
        id: i.id@,
        name: i.name@,
        kind: match i.kind {
            ItemKind::Derived { material, form } => KindView::Derived { material: material@, form: form@ },
            ItemKind::Composite { template } => KindView::Composite {
                template: match template { Some(t) => Some(t@), None => None },
            },
            ItemKind::Unique => KindView::Unique,
        },
        is_terminal: i.is_terminal,
    }
}

/// The item a material yields in one form: id `material_form`, name
/// `Name Form` with the form capitalized.
pub open spec fn derived_item(mat: MaterialDef, form: Seq<char>) -> ItemView {
    ItemView {
        id: joined(mat.id@, seq!['_'], form),
        name: joined(mat.name@, seq![' '], capitalized(form)),
        kind: KindView::Derived { material: mat.id@, form },
        is_terminal: false,
    }
}

/// The items of one material over a list of form-group ids; unknown groups add nothing.
pub open spec fn group_items(mat: MaterialDef, group_ids: Seq<Seq<char>>, groups: Map<Seq<char>, FormGroup>) -> Seq<ItemView>
    decreases group_ids.len(),
{
    if group_ids.len() == 0 {
        Seq::empty()
    } else {
        let g = group_ids.last();
        group_items(mat, group_ids.drop_last(), groups) + if groups.contains_key(g) {
            str_views(groups[g].forms@).map_values(|f: Seq<char>| derived_item(mat, f))
        } else {
            Seq::empty()
        }
    }
}

/// The items derived from each material in turn.
pub open spec fn derived_items(mats: Seq<MaterialDef>, groups: Map<Seq<char>, FormGroup>) -> Seq<ItemView>
    decreases mats.len(),
{
    if mats.len() == 0 {
        Seq::empty()
    } else {
        derived_items(mats.drop_last(), groups) + group_items(mats.last(), str_views(mats.last().form_groups@), groups)
    }
}

/// The values of a string map, in key order.
pub open spec fn values_in_order<V>(m: StrMap<V>) -> Seq<V> {
    Seq::new(m.key_seq().len(), |i: int| m@[m.key_seq()[i]])
}

/// One item per form of each form group of each material: id `material_form`,
/// name `Name Form`. Materials go in map order; groups that are not defined add nothing.
pub fn derive_items(materials: &StrMap<MaterialDef>, form_groups: &StrMap<FormGroup>) -> (items: Vec<ItemDef>)
    ensures
        items@.map_values(|i: ItemDef| item_view(i)) == derived_items(values_in_order(*materials), form_groups@),
{
    let keys = materials.keys();
    let ghost mats = values_in_order(*materials);
    let mut items: Vec<ItemDef> = Vec::new();
    let mut k: usize = 0;
    while k < keys.len()
        invariant
            k <= keys@.len(),
            str_views(keys@) == materials.key_seq(),
            forall|x: Seq<char>| #[trigger] materials@.contains_key(x) <==> materials.key_seq().contains(x),
            mats == values_in_order(*materials),
            items@.map_values(|i: ItemDef| item_view(i)) == derived_items(mats.subrange(0, k as int), form_groups@),
        decreases keys@.len() - k,
    {
        proof {
            assert(str_views(keys@)[k as int] == keys@[k as int]@);
            assert(materials.key_seq().contains(keys@[k as int]@));
        }
        let mat = materials.get(keys[k].as_str()).unwrap();
        proof {
            assert(mats[k as int] == *mat);
            assert(mats.subrange(0, k + 1).drop_last() =~= mats.subrange(0, k as int));
            assert(mats.subrange(0, k + 1).last() == *mat);
        }
        let ghost base = items@.map_values(|i: ItemDef| item_view(i));
        let mut g: usize = 0;
        while g < mat.form_groups.len()
            invariant
                g <= mat.form_groups@.len(),
                items@.map_values(|i: ItemDef| item_view(i)) == base + group_items(*mat, str_views(mat.form_groups@).subrange(0, g as int), form_groups@),
            decreases mat.form_groups@.len() - g,
        {
            let ghost gids = str_views(mat.form_groups@);
            proof {
                assert(gids.subrange(0, g + 1).drop_last() =~= gids.subrange(0, g as int));
                assert(gids.subrange(0, g + 1).last() == mat.form_groups@[g as int]@);
            }
            let ghost before = items@.map_values(|i: ItemDef| item_view(i));
            match form_groups.get(mat.form_groups[g].as_str()) {
                Some(group) => {
                    let ghost fv = str_views(group.forms@);
                    let mut f: usize = 0;
                    while f < group.forms.len()
                        invariant
                            f <= group.forms@.len(),
                            fv == str_views(group.forms@),
                            items@.map_values(|i: ItemDef| item_view(i)) == before + fv.subrange(0, f as int).map_values(|x: Seq<char>| derived_item(*mat, x)),
                        decreases group.forms@.len() - f,
                    {
                        let form = &group.forms[f];
                        let item = ItemDef {
                            id: join(mat.id.as_str(), "_", form.as_str()),
                            name: {
                                let cap = capitalize(form.as_str());
                                join(mat.name.as_str(), " ", cap.as_str())
                            },
                            kind: ItemKind::Derived { material: mat.id.clone(), form: form.clone() },
                            is_terminal: false,
                        };
                        proof {
                            reveal_strlit("_");
                            reveal_strlit(" ");
                            assert("_"@ =~= seq!['_']);
                            assert(" "@ =~= seq![' ']);
                            assert(item_view(item) == derived_item(*mat, form@));
                        }
                        let ghost i0 = items@;
                        items.push(item);
                        proof {
                            assert(items@.map_values(|i: ItemDef| item_view(i)) =~= i0.map_values(|i: ItemDef| item_view(i)).push(item_view(item)));
                            assert(fv.subrange(0, f + 1).map_values(|x: Seq<char>| derived_item(*mat, x)) =~= fv.subrange(0, f as int).map_values(|x: Seq<char>| derived_item(*mat, x)).push(derived_item(*mat, fv[f as int])));
                        }
                        f += 1;
                    }
                    proof {
                        assert(fv.subrange(0, fv.len() as int) =~= fv);
                    }
                },
                None => {},
            }
            proof {
                assert(items@.map_values(|i: ItemDef| item_view(i)) =~= base + group_items(*mat, gids.subrange(0, g + 1), form_groups@));
            }
            g += 1;
        }
        proof {
            assert(str_views(mat.form_groups@).subrange(0, mat.form_groups@.len() as int) =~= str_views(mat.form_groups@));
        }
        k += 1;
    }
    proof {
        assert(mats.subrange(0, keys@.len() as int) =~= mats);
    }
    items
}


/// A recipe, as plain values.
pub ghost struct RecipeView {
    pub id: Seq<char>,
    pub inputs: Seq<(Seq<char>, u32)>,
    pub outputs: Seq<(Seq<char>, u32)>,
    pub byproducts: Seq<(Seq<char>, u32)>,
    pub machine_type: Seq<char>,
    pub machine_tier: u8,
    pub processing_time_bits: u32,
    pub energy_cost_bits: u32,
    pub energy_output_bits: u32,
    pub template_id: Option<Seq<char>>,
}

/// An item stack, as plain values.
pub open spec fn stack_view(s: ItemStack) -> (Seq<char>, u32) {
    (s.item@, s.quantity)
}

/// The plain-value view of a recipe.
pub open spec fn recipe_view(r: ConcreteRecipe) -> RecipeView {
    RecipeView {
        id: r.id@,
        inputs: r.inputs@.map_values(|s: ItemStack| stack_view(s)),
        outputs: r.outputs@.map_values(|s: ItemStack| stack_view(s)),
        byproducts: r.byproducts@.map_values(|s: ItemStack| stack_view(s)),
        machine_type: r.machine_type@,
        machine_tier: r.machine_tier,
        processing_time_bits: r.processing_time_bits,
        energy_cost_bits: r.energy_cost_bits,
        energy_output_bits: r.energy_output_bits,
        template_id: match r.template_id { Some(t) => Some(t@), None => None },
    }
}

/// Template `t` expanded for material `mat_id`: recipe `template__material`,
/// consuming `material_form` per input form and producing one `material_output`.
pub open spec fn expansion(t: RecipeTemplate, mat_id: Seq<char>) -> RecipeView {
    RecipeView {
        id: joined(t.id@, seq!['_', '_'], mat_id),
        inputs: t.input_forms@.map_values(|p: (String, u32)| (joined(mat_id, seq!['_'], p.0@), p.1)),
        outputs: seq![(joined(mat_id, seq!['_'], t.output_form@), 1u32)],
        byproducts: Seq::empty(),
        machine_type: t.machine_type@,
        machine_tier: 1,
        processing_time_bits: t.base_time_bits,
        energy_cost_bits: t.base_energy_bits,
        energy_output_bits: 0,
        template_id: Some(t.id@),
    }
}

/// The template's group exists and holds every form the template uses.
pub open spec fn template_valid(t: RecipeTemplate, groups: Map<Seq<char>, FormGroup>) -> bool {
    &&& groups.contains_key(t.group@)
    &&& forall|i: int| 0 <= i < t.input_forms@.len() ==> str_views(groups[t.group@].forms@).contains(#[trigger] t.input_forms@[i].0@)
    &&& str_views(groups[t.group@].forms@).contains(t.output_form@)
}

/// Expansions of `t` for each material key in turn that belongs to the template's group.
pub open spec fn template_expansions(t: RecipeTemplate, keys: Seq<Seq<char>>, mats: Map<Seq<char>, MaterialDef>) -> Seq<RecipeView>
    decreases keys.len(),
{
    if keys.len() == 0 {
        Seq::empty()
    } else {
        let k = keys.last();
        template_expansions(t, keys.drop_last(), mats) + if str_views(mats[k].form_groups@).contains(t.group@) {
            seq![expansion(t, k)]
        } else {
            Seq::empty()
        }
    }
}

/// The expansions of every valid template, templates in order.
pub open spec fn expanded_recipes(ts: Seq<RecipeTemplate>, mats: StrMap<MaterialDef>, groups: Map<Seq<char>, FormGroup>) -> Seq<RecipeView>
    decreases ts.len(),
{
    if ts.len() == 0 {
        Seq::empty()
    } else {
        expanded_recipes(ts.drop_last(), mats, groups) + if template_valid(ts.last(), groups) {
            template_expansions(ts.last(), mats.key_seq(), mats@)
        } else {
            Seq::empty()
        }
    }
}

fn template_is_valid(t: &RecipeTemplate, form_groups: &StrMap<FormGroup>) -> (b: bool)
    ensures
        b == template_valid(*t, form_groups@),
{
    let group = match form_groups.get(t.group.as_str()) {
        Some(g) => g,
        None => return false,
    };
    let mut i: usize = 0;
    while i < t.input_forms.len()
        invariant
            i <= t.input_forms@.len(),
            form_groups@.contains_key(t.group@),
            *group == form_groups@[t.group@],
            forall|j: int| 0 <= j < i ==> str_views(group.forms@).contains(#[trigger] t.input_forms@[j].0@),
        decreases t.input_forms@.len() - i,
    {
        if !contains_str(&group.forms, t.input_forms[i].0.as_str()) {
            return false;
        }
        i += 1;
    }
    contains_str(&group.forms, t.output_form.as_str())
}

fn expand_one(t: &RecipeTemplate, mat_id: &str) -> (r: ConcreteRecipe)
    ensures
        recipe_view(r) == expansion(*t, mat_id@),
{
    let mut inputs: Vec<ItemStack> = Vec::new();
    let mut i: usize = 0;
    while i < t.input_forms.len()
        invariant
            i <= t.input_forms@.len(),
            inputs@.map_values(|s: ItemStack| stack_view(s))
                == t.input_forms@.subrange(0, i as int).map_values(|p: (String, u32)| (joined(mat_id@, seq!['_'], p.0@), p.1)),
        decreases t.input_forms@.len() - i,
    {
        let st = ItemStack { item: join(mat_id, "_", t.input_forms[i].0.as_str()), quantity: t.input_forms[i].1 };
        proof {
            reveal_strlit("_");
            assert("_"@ =~= seq!['_']);
            assert(stack_view(st) == (joined(mat_id@, seq!['_'], t.input_forms@[i as int].0@), t.input_forms@[i as int].1));
        }
        let ghost i0 = inputs@;
        inputs.push(st);
        proof {
            let pre = t.input_forms@.subrange(0, i as int).map_values(|p: (String, u32)| (joined(mat_id@, seq!['_'], p.0@), p.1));
            assert(i0.map_values(|s: ItemStack| stack_view(s)) == pre);
            assert(inputs@.map_values(|s: ItemStack| stack_view(s)) =~= pre.push(stack_view(st)));
            assert(inputs@.map_values(|s: ItemStack| stack_view(s)) =~= t.input_forms@.subrange(0, i + 1).map_values(|p: (String, u32)| (joined(mat_id@, seq!['_'], p.0@), p.1)));
        }
        i += 1;
    }
    proof {
        assert(t.input_forms@.subrange(0, t.input_forms@.len() as int) =~= t.input_forms@);
    }
    let mut outputs: Vec<ItemStack> = Vec::new();
    outputs.push(ItemStack { item: join(mat_id, "_", t.output_form.as_str()), quantity: 1 });
    let r = ConcreteRecipe {
        id: join(t.id.as_str(), "__", mat_id),
        inputs,
        outputs,
        byproducts: Vec::new(),
        machine_type: t.machine_type.clone(),
        machine_tier: 1,
        processing_time_bits: t.base_time_bits,
        energy_cost_bits: t.base_energy_bits,
        energy_output_bits: 0,
        template_id: Some(t.id.clone()),
    };
    proof {
        reveal_strlit("_");
        reveal_strlit("__");
        assert("_"@ =~= seq!['_']);
        assert("__"@ =~= seq!['_', '_']);
        assert(recipe_view(r).outputs =~= expansion(*t, mat_id@).outputs);
        assert(recipe_view(r).byproducts =~= expansion(*t, mat_id@).byproducts);
    }
    r
}

/// One recipe per valid template and material of the template's group, with
/// id `template__material`. A template whose group is unknown, or whose group
/// lacks one of its forms, expands to nothing.
pub fn expand_templates(
    materials: &StrMap<MaterialDef>,
    form_groups: &StrMap<FormGroup>,
    templates: &Vec<RecipeTemplate>,
) -> (recipes: Vec<ConcreteRecipe>)
    ensures
        recipes@.map_values(|r: ConcreteRecipe| recipe_view(r)) == expanded_recipes(templates@, *materials, form_groups@),
{
    let keys = materials.keys();
    let mut recipes: Vec<ConcreteRecipe> = Vec::new();
    let mut t: usize = 0;
    while t < templates.len()
        invariant
            t <= templates@.len(),
            str_views(keys@) == materials.key_seq(),
            forall|x: Seq<char>| #[trigger] materials@.contains_key(x) <==> materials.key_seq().contains(x),
            recipes@.map_values(|r: ConcreteRecipe| recipe_view(r)) == expanded_recipes(templates@.subrange(0, t as int), *materials, form_groups@),
        decreases templates@.len() - t,
    {
        let template = &templates[t];
        proof {
            assert(templates@.subrange(0, t + 1).drop_last() =~= templates@.subrange(0, t as int));
            assert(templates@.subrange(0, t + 1).last() == *template);
        }
        if template_is_valid(template, form_groups) {
            let ghost base = recipes@.map_values(|r: ConcreteRecipe| recipe_view(r));
            let mut k: usize = 0;
            while k < keys.len()
                invariant
                    k <= keys@.len(),
                    str_views(keys@) == materials.key_seq(),
                    forall|x: Seq<char>| #[trigger] materials@.contains_key(x) <==> materials.key_seq().contains(x),
                    recipes@.map_values(|r: ConcreteRecipe| recipe_view(r)) == base + template_expansions(*template, materials.key_seq().subrange(0, k as int), materials@),
                decreases keys@.len() - k,
            {
                let key = &keys[k];
                proof {
                    assert(str_views(keys@)[k as int] == key@);
                    assert(materials.key_seq().contains(key@));
                    let ks = materials.key_seq();
                    assert(ks.subrange(0, k + 1).drop_last() =~= ks.subrange(0, k as int));
                    assert(ks.subrange(0, k + 1).last() == key@);
                }
                let mat = materials.get(key.as_str()).unwrap();
                if contains_str(&mat.form_groups, template.group.as_str()) {
                    let r = expand_one(template, key.as_str());
                    let ghost r0 = recipes@;
                    recipes.push(r);
                    proof {
                        assert(recipes@.map_values(|r: ConcreteRecipe| recipe_view(r)) =~= r0.map_values(|r: ConcreteRecipe| recipe_view(r)).push(recipe_view(r)));
                    }
                }
                proof {
                    assert(recipes@.map_values(|r: ConcreteRecipe| recipe_view(r)) =~= base + template_expansions(*template, materials.key_seq().subrange(0, k + 1), materials@));
                }
                k += 1;
            }
            proof {
                assert(materials.key_seq().subrange(0, keys@.len() as int) =~= materials.key_seq());
                assert(recipes@.map_values(|r: ConcreteRecipe| recipe_view(r)) =~= expanded_recipes(templates@.subrange(0, t + 1), *materials, form_groups@));
            }
        } else {
            proof {
                assert(recipes@.map_values(|r: ConcreteRecipe| recipe_view(r)) =~= expanded_recipes(templates@.subrange(0, t + 1), *materials, form_groups@));
            }
        }
        t += 1;
    }
    proof {
        assert(templates@.subrange(0, templates@.len() as int) =~= templates@);
    }
    recipes
}


/// Form groups keyed by id; a later definition replaces an earlier one.
pub open spec fn group_table(gs: Seq<FormGroup>) -> Map<Seq<char>, FormGroup>
    decreases gs.len(),
{
    if gs.len() == 0 { Map::empty() } else { group_table(gs.drop_last()).insert(gs.last().id@, gs.last()) }
}

/// Materials keyed by id; a later definition replaces an earlier one.
pub open spec fn material_table(ms: Seq<MaterialDef>) -> Map<Seq<char>, MaterialDef>
    decreases ms.len(),
{
    if ms.len() == 0 { Map::empty() } else { material_table(ms.drop_last()).insert(ms.last().id@, ms.last()) }
}

/// Templates keyed by id; a later definition replaces an earlier one.
pub open spec fn template_table(ts: Seq<RecipeTemplate>) -> Map<Seq<char>, RecipeTemplate>
    decreases ts.len(),
{
    if ts.len() == 0 { Map::empty() } else { template_table(ts.drop_last()).insert(ts.last().id@, ts.last()) }
}

/// Item views keyed by id; a later one replaces an earlier one.
pub open spec fn item_table(vs: Seq<ItemView>) -> Map<Seq<char>, ItemView>
    decreases vs.len(),
{
    if vs.len() == 0 { Map::empty() } else { item_table(vs.drop_last()).insert(vs.last().id, vs.last()) }
}

/// Recipe views keyed by id; a later one replaces an earlier one.
pub open spec fn recipe_table(vs: Seq<RecipeView>) -> Map<Seq<char>, RecipeView>
    decreases vs.len(),
{
    if vs.len() == 0 { Map::empty() } else { recipe_table(vs.drop_last()).insert(vs.last().id, vs.last()) }
}

/// The plain-value view of an index from keys to lists of ids.
pub open spec fn index_view(m: Map<Seq<char>, Vec<String>>) -> Map<Seq<char>, Seq<Seq<char>>> {
    m.map_values(|v: Vec<String>| str_views(v@))
}

/// The index with `v` appended to the list of `k`.
pub open spec fn push_index(m: Map<Seq<char>, Seq<Seq<char>>>, k: Seq<char>, v: Seq<char>) -> Map<Seq<char>, Seq<Seq<char>>> {
    m.insert(k, (if m.contains_key(k) { m[k] } else { Seq::empty() }).push(v))
}

/// The index built from (key, id) pairs in order.
pub open spec fn build_index(pairs: Seq<(Seq<char>, Seq<char>)>) -> Map<Seq<char>, Seq<Seq<char>>>
    decreases pairs.len(),
{
    if pairs.len() == 0 {
        Map::empty()
    } else {
        push_index(build_index(pairs.drop_last()), pairs.last().0, pairs.last().1)
    }
}

/// (item, recipe id) for each output and byproduct of each recipe in turn.
pub open spec fn producer_pairs(rs: Seq<ConcreteRecipe>) -> Seq<(Seq<char>, Seq<char>)>
    decreases rs.len(),
{
    if rs.len() == 0 {
        Seq::empty()
    } else {
        let r = rs.last();
        producer_pairs(rs.drop_last()) + (r.outputs@ + r.byproducts@).map_values(|s: ItemStack| (s.item@, r.id@))
    }
}

/// (item, recipe id) for each input of each recipe in turn.
pub open spec fn consumer_pairs(rs: Seq<ConcreteRecipe>) -> Seq<(Seq<char>, Seq<char>)>
    decreases rs.len(),
{
    if rs.len() == 0 {
        Seq::empty()
    } else {
        let r = rs.last();
        consumer_pairs(rs.drop_last()) + r.inputs@.map_values(|s: ItemStack| (s.item@, r.id@))
    }
}

/// (template id, recipe id) for each recipe expanded from a template, in turn.
pub open spec fn template_pairs(rs: Seq<ConcreteRecipe>) -> Seq<(Seq<char>, Seq<char>)>
    decreases rs.len(),
{
    if rs.len() == 0 {
        Seq::empty()
    } else {
        let r = rs.last();
        template_pairs(rs.drop_last()) + match r.template_id {
            Some(t) => seq![(t@, r.id@)],
            None => Seq::empty(),
        }
    }
}

/// The id of the first terminal item among `ks`, or empty when there is none.
pub open spec fn first_terminal(ks: Seq<Seq<char>>, items: Map<Seq<char>, ItemDef>) -> Seq<char>
    decreases ks.len(),
{
    if ks.len() == 0 {
        Seq::empty()
    } else if items[ks[0]].is_terminal {
        items[ks[0]].id@
    } else {
        first_terminal(ks.drop_first(), items)
    }
}

fn index_push(m: &mut StrMap<Vec<String>>, k: &String, v: &String)
    ensures
        index_view(final(m)@) == push_index(index_view(old(m)@), k@, v@),
{
    let ghost m0 = index_view(m@);
    let ghost old_map = m@;
    let removed = m.remove(k.as_str());
    let had = removed.is_some();
    let mut list = match removed {
        Some(l) => l,
        None => Vec::new(),
    };
    let ghost l0 = list@;
    proof {
        if had {
            assert(old_map.contains_key(k@));
            assert(str_views(l0) == m0[k@]);
        } else {
            assert(!m0.contains_key(k@));
            assert(str_views(l0) =~= Seq::<Seq<char>>::empty());
        }
    }
    list.push(v.clone());
    m.insert(k.clone(), list);
    proof {
        assert(str_views(list@) =~= str_views(l0).push(v@));
        assert(index_view(m@) =~= push_index(m0, k@, v@));
    }
}

fn index_stacks(m: &mut StrMap<Vec<String>>, stacks: &Vec<ItemStack>, id: &String)
    ensures
        index_view(final(m)@) == build_index_from(index_view(old(m)@), stacks@.map_values(|s: ItemStack| (s.item@, id@))),
{
    let ghost m0 = index_view(m@);
    let mut i: usize = 0;
    while i < stacks.len()
        invariant
            i <= stacks@.len(),
            index_view(m@) == build_index_from(m0, stacks@.subrange(0, i as int).map_values(|s: ItemStack| (s.item@, id@))),
        decreases stacks@.len() - i,
    {
        index_push(m, &stacks[i].item, id);
        proof {
            let pre = stacks@.subrange(0, i as int).map_values(|s: ItemStack| (s.item@, id@));
            let post = stacks@.subrange(0, i + 1).map_values(|s: ItemStack| (s.item@, id@));
            assert(post.drop_last() =~= pre);
            assert(post.last() == (stacks@[i as int].item@, id@));
        }
        i += 1;
    }
    proof {
        assert(stacks@.subrange(0, stacks@.len() as int) =~= stacks@);
    }
}

/// `m` extended by the pairs in order.
pub open spec fn build_index_from(m: Map<Seq<char>, Seq<Seq<char>>>, pairs: Seq<(Seq<char>, Seq<char>)>) -> Map<Seq<char>, Seq<Seq<char>>>
    decreases pairs.len(),
{
    if pairs.len() == 0 {
        m
    } else {
        push_index(build_index_from(m, pairs.drop_last()), pairs.last().0, pairs.last().1)
    }
}

proof fn lemma_build_index_concat(m: Map<Seq<char>, Seq<Seq<char>>>, a: Seq<(Seq<char>, Seq<char>)>, b: Seq<(Seq<char>, Seq<char>)>)
    ensures
        build_index_from(build_index_from(m, a), b) == build_index_from(m, a + b),
    decreases b.len(),
{
    if b.len() == 0 {
        assert(a + b =~= a);
    } else {
        lemma_build_index_concat(m, a, b.drop_last());
        assert((a + b).drop_last() =~= a + b.drop_last());
        assert((a + b).last() == b.last());
    }
}

proof fn lemma_build_index_empty(pairs: Seq<(Seq<char>, Seq<char>)>)
    ensures
        build_index_from(Map::empty(), pairs) == build_index(pairs),
    decreases pairs.len(),
{
    if pairs.len() > 0 {
        lemma_build_index_empty(pairs.drop_last());
    }
}

impl RecipeGraph {
    /// Builds the graph: groups, materials and templates keyed by id; items derived
    /// from materials, then the defined items (a definition replaces a derived item
    /// of the same id); the defined recipes, then the template expansions (an
    /// expansion replaces a recipe of the same id); producer, consumer and template
    /// indexes over the recipes in table order; and the first terminal item.
    pub fn from_vecs(
        form_group_defs: Vec<FormGroup>,
        material_defs: Vec<MaterialDef>,
        template_defs: Vec<RecipeTemplate>,
        concrete_recipe_defs: Vec<ConcreteRecipe>,
        item_defs: Vec<ItemDef>,
    ) -> (g: RecipeGraph)
        ensures
            g.form_groups@ == group_table(form_group_defs@),
            g.materials@ == material_table(material_defs@),
            g.templates@ == template_table(template_defs@),
            g.items@.map_values(|i: ItemDef| item_view(i)) == item_table(
                derived_items(values_in_order(g.materials), g.form_groups@) + item_defs@.map_values(|i: ItemDef| item_view(i)),
            ),
            g.recipes@.map_values(|r: ConcreteRecipe| recipe_view(r)) == recipe_table(
                concrete_recipe_defs@.map_values(|r: ConcreteRecipe| recipe_view(r)) + expanded_recipes(template_defs@, g.materials, g.form_groups@),
            ),
            index_view(g.producers@) == build_index(producer_pairs(values_in_order(g.recipes))),
            index_view(g.consumers@) == build_index(consumer_pairs(values_in_order(g.recipes))),
            index_view(g.template_recipes@) == build_index(template_pairs(values_in_order(g.recipes))),
            g.terminal@ == first_terminal(g.items.key_seq(), g.items@),
            forall|item: Seq<char>, id: Seq<char>| #[trigger] lists_producer(g, item, id)
                <==> exists|k: Seq<char>| #[trigger] g.recipes@.contains_key(k) && g.recipes@[k].id@ == id && produces(g.recipes@[k], item),
            forall|item: Seq<char>, id: Seq<char>| #[trigger] lists_consumer(g, item, id)
                <==> exists|k: Seq<char>| #[trigger] g.recipes@.contains_key(k) && g.recipes@[k].id@ == id && consumes(g.recipes@[k], item),
    {
        // form groups
        let mut form_groups: StrMap<FormGroup> = StrMap::new();
        let mut gs = form_group_defs;
        let ghost all_g = gs@;
        let ghost mut k: int = 0;
        while gs.len() > 0
            invariant
                0 <= k,
                k + gs@.len() == all_g.len() as int,
                gs@ == all_g.subrange(k, all_g.len() as int),
                form_groups@ == group_table(all_g.subrange(0, k)),
            decreases gs@.len() as int,
        {
            let x = gs.remove(0);
            proof {
                assert(all_g.subrange(0, k + 1).drop_last() =~= all_g.subrange(0, k));
                assert(all_g.subrange(0, k + 1).last() == x);
            }
            let id = x.id.clone();
            form_groups.insert(id, x);
            proof { assert(gs@ =~= all_g.subrange(k + 1, all_g.len() as int)); }
            proof { k = k + 1; }
        }
        proof { assert(all_g.subrange(0, k) =~= all_g); }
        // materials
        let mut materials: StrMap<MaterialDef> = StrMap::new();
        let mut ms = material_defs;
        let ghost all_m = ms@;
        let ghost mut k: int = 0;
        while ms.len() > 0
            invariant
                0 <= k,
                k + ms@.len() == all_m.len() as int,
                ms@ == all_m.subrange(k, all_m.len() as int),
                materials@ == material_table(all_m.subrange(0, k)),
            decreases ms@.len() as int,
        {
            let x = ms.remove(0);
            proof {
                assert(all_m.subrange(0, k + 1).drop_last() =~= all_m.subrange(0, k));
                assert(all_m.subrange(0, k + 1).last() == x);
            }
            let id = x.id.clone();
            materials.insert(id, x);
            proof { assert(ms@ =~= all_m.subrange(k + 1, all_m.len() as int)); }
            proof { k = k + 1; }
        }
        proof { assert(all_m.subrange(0, k) =~= all_m); }

        let derived = derive_items(&materials, &form_groups);
        let expanded = expand_templates(&materials, &form_groups, &template_defs);

        // items: derived, then definitions
        let mut items: StrMap<ItemDef> = StrMap::new();
        let ghost item_views = derived@.map_values(|i: ItemDef| item_view(i)) + item_defs@.map_values(|i: ItemDef| item_view(i));
        let mut src = derived;
        let mut rest = item_defs;
        let ghost all_i = src@ + rest@;
        proof {
            assert(item_views =~= all_i.map_values(|i: ItemDef| item_view(i)));
        }
        let ghost mut k: int = 0;
        while src.len() > 0 || rest.len() > 0
            invariant
                0 <= k,
                k + src@.len() + rest@.len() == all_i.len() as int,
                src@ + rest@ == all_i.subrange(k, all_i.len() as int),
                item_views == all_i.map_values(|i: ItemDef| item_view(i)),
                items@.map_values(|i: ItemDef| item_view(i)) == item_table(item_views.subrange(0, k)),
            decreases src@.len() + rest@.len() as int,
        {
            let ghost before = src@ + rest@;
            let x = if src.len() > 0 { src.remove(0) } else { rest.remove(0) };
            proof {
                assert(x == before[0]);
                assert(src@ + rest@ =~= before.subrange(1, before.len() as int));
                assert(item_views.subrange(0, k + 1).drop_last() =~= item_views.subrange(0, k));
                assert(item_views.subrange(0, k + 1).last() == item_view(x));
            }
            let ghost m0 = items@;
            let id = x.id.clone();
            items.insert(id, x);
            proof {
                assert(items@.map_values(|i: ItemDef| item_view(i)) =~= m0.map_values(|i: ItemDef| item_view(i)).insert(item_view(x).id, item_view(x)));
                assert(src@ + rest@ =~= all_i.subrange(k + 1, all_i.len() as int));
            }
            proof { k = k + 1; }
        }
        proof { assert(item_views.subrange(0, k) =~= item_views); }

        // recipes: definitions, then expansions
        let mut recipes: StrMap<ConcreteRecipe> = StrMap::new();
        let ghost recipe_views = concrete_recipe_defs@.map_values(|r: ConcreteRecipe| recipe_view(r)) + expanded@.map_values(|r: ConcreteRecipe| recipe_view(r));
        let mut src = concrete_recipe_defs;
        let mut rest = expanded;
        let ghost all_r = src@ + rest@;
        proof {
            assert(recipe_views =~= all_r.map_values(|r: ConcreteRecipe| recipe_view(r)));
        }
        let ghost mut k: int = 0;
        while src.len() > 0 || rest.len() > 0
            invariant
                0 <= k,
                k + src@.len() + rest@.len() == all_r.len() as int,
                src@ + rest@ == all_r.subrange(k, all_r.len() as int),
                recipe_views == all_r.map_values(|r: ConcreteRecipe| recipe_view(r)),
                recipes@.map_values(|r: ConcreteRecipe| recipe_view(r)) == recipe_table(recipe_views.subrange(0, k)),
            decreases src@.len() + rest@.len() as int,
        {
            let ghost before = src@ + rest@;
            let x = if src.len() > 0 { src.remove(0) } else { rest.remove(0) };
            proof {
                assert(x == before[0]);
                assert(src@ + rest@ =~= before.subrange(1, before.len() as int));
                assert(recipe_views.subrange(0, k + 1).drop_last() =~= recipe_views.subrange(0, k));
                assert(recipe_views.subrange(0, k + 1).last() == recipe_view(x));
            }
            let ghost m0 = recipes@;
            let id = x.id.clone();
            recipes.insert(id, x);
            proof {
                assert(recipes@.map_values(|r: ConcreteRecipe| recipe_view(r)) =~= m0.map_values(|r: ConcreteRecipe| recipe_view(r)).insert(recipe_view(x).id, recipe_view(x)));
                assert(src@ + rest@ =~= all_r.subrange(k + 1, all_r.len() as int));
            }
            proof { k = k + 1; }
        }
        proof { assert(recipe_views.subrange(0, k) =~= recipe_views); }

        // templates
        let mut templates: StrMap<RecipeTemplate> = StrMap::new();
        let mut ts = template_defs;
        let ghost all_t = ts@;
        let ghost mut k: int = 0;
        while ts.len() > 0
            invariant
                0 <= k,
                k + ts@.len() == all_t.len() as int,
                ts@ == all_t.subrange(k, all_t.len() as int),
                templates@ == template_table(all_t.subrange(0, k)),
            decreases ts@.len() as int,
        {
            let x = ts.remove(0);
            proof {
                assert(all_t.subrange(0, k + 1).drop_last() =~= all_t.subrange(0, k));
                assert(all_t.subrange(0, k + 1).last() == x);
            }
            let id = x.id.clone();
            templates.insert(id, x);
            proof { assert(ts@ =~= all_t.subrange(k + 1, all_t.len() as int)); }
            proof { k = k + 1; }
        }
        proof { assert(all_t.subrange(0, k) =~= all_t); }

        // indexes
        let mut producers: StrMap<Vec<String>> = StrMap::new();
        let mut consumers: StrMap<Vec<String>> = StrMap::new();
        let mut template_recipes: StrMap<Vec<String>> = StrMap::new();
        let keys = recipes.keys();
        let ghost rv = values_in_order(recipes);
        proof {
            assert(index_view(producers@) =~= Map::<Seq<char>, Seq<Seq<char>>>::empty());
            assert(index_view(consumers@) =~= Map::<Seq<char>, Seq<Seq<char>>>::empty());
            assert(index_view(template_recipes@) =~= Map::<Seq<char>, Seq<Seq<char>>>::empty());
        }
        let mut k: usize = 0;
        while k < keys.len()
            invariant
                k <= keys@.len(),
                str_views(keys@) == recipes.key_seq(),
                forall|x: Seq<char>| #[trigger] recipes@.contains_key(x) <==> recipes.key_seq().contains(x),
                rv == values_in_order(recipes),
                index_view(producers@) == build_index_from(Map::empty(), producer_pairs(rv.subrange(0, k as int))),
                index_view(consumers@) == build_index_from(Map::empty(), consumer_pairs(rv.subrange(0, k as int))),
                index_view(template_recipes@) == build_index_from(Map::empty(), template_pairs(rv.subrange(0, k as int))),
            decreases keys@.len() - k,
        {
            proof {
                assert(str_views(keys@)[k as int] == keys@[k as int]@);
                assert(recipes.key_seq().contains(keys@[k as int]@));
            }
            let r = recipes.get(keys[k].as_str()).unwrap();
            proof {
                assert(rv[k as int] == *r);
                assert(rv.subrange(0, k + 1).drop_last() =~= rv.subrange(0, k as int));
                assert(rv.subrange(0, k + 1).last() == *r);
            }
            let ghost p0 = index_view(producers@);
            index_stacks(&mut producers, &r.outputs, &r.id);
            index_stacks(&mut producers, &r.byproducts, &r.id);
            proof {
                let a = r.outputs@.map_values(|s: ItemStack| (s.item@, r.id@));
                let b = r.byproducts@.map_values(|s: ItemStack| (s.item@, r.id@));
                lemma_build_index_concat(p0, a, b);
                assert((r.outputs@ + r.byproducts@).map_values(|s: ItemStack| (s.item@, r.id@)) =~= a + b);
                lemma_build_index_concat(Map::empty(), producer_pairs(rv.subrange(0, k as int)), a + b);
            }
            let ghost c0 = index_view(consumers@);
            index_stacks(&mut consumers, &r.inputs, &r.id);
            proof {
                lemma_build_index_concat(Map::empty(), consumer_pairs(rv.subrange(0, k as int)), r.inputs@.map_values(|s: ItemStack| (s.item@, r.id@)));
            }
            let ghost t0 = index_view(template_recipes@);
            match &r.template_id {
                Some(t) => {
                    index_push(&mut template_recipes, t, &r.id);
                    proof {
                        assert(template_pairs(rv.subrange(0, k + 1)) =~= template_pairs(rv.subrange(0, k as int)) + seq![(t@, r.id@)]);
                        assert(seq![(t@, r.id@)].drop_last() =~= Seq::<(Seq<char>, Seq<char>)>::empty());
                        assert(build_index_from(t0, seq![(t@, r.id@)]) == push_index(build_index_from(t0, Seq::empty()), t@, r.id@));
                        lemma_build_index_concat(Map::empty(), template_pairs(rv.subrange(0, k as int)), seq![(t@, r.id@)]);
                        assert(seq![(t@, r.id@)].drop_last() =~= Seq::<(Seq<char>, Seq<char>)>::empty());
                    }
                },
                None => {
                    proof {
                        assert(template_pairs(rv.subrange(0, k + 1)) =~= template_pairs(rv.subrange(0, k as int)));
                    }
                },
            }
            k += 1;
        }
        proof {
            assert(rv.subrange(0, keys@.len() as int) =~= rv);
            lemma_build_index_empty(producer_pairs(rv));
            lemma_build_index_empty(consumer_pairs(rv));
            lemma_build_index_empty(template_pairs(rv));
        }

        // terminal
        let ikeys = items.keys();
        let ghost iks = items.key_seq();
        let mut terminal = String::new();
        proof { assert(iks.subrange(0, iks.len() as int) =~= iks); }
        let mut found = false;
        let mut k: usize = 0;
        while k < ikeys.len() && !found
            invariant
                k <= ikeys@.len(),
                str_views(ikeys@) == iks,
                iks == items.key_seq(),
                forall|x: Seq<char>| #[trigger] items@.contains_key(x) <==> iks.contains(x),
                found ==> terminal@ == first_terminal(iks, items@),
                !found ==> first_terminal(iks, items@) == first_terminal(iks.subrange(k as int, iks.len() as int), items@),
                !found ==> terminal@ == Seq::<char>::empty(),
            decreases ikeys@.len() - k,
        {
            proof {
                assert(str_views(ikeys@)[k as int] == ikeys@[k as int]@);
                assert(iks.contains(ikeys@[k as int]@));
            }
            let item = items.get(ikeys[k].as_str()).unwrap();
            proof {
                let rest = iks.subrange(k as int, iks.len() as int);
                assert(rest[0] == ikeys@[k as int]@);
                assert(rest.drop_first() =~= iks.subrange(k + 1, iks.len() as int));
            }
            if item.is_terminal {
                terminal = item.id.clone();
                found = true;
            }
            k += 1;
        }
        proof {
            if !found {
                assert(iks.subrange(k as int, iks.len() as int) =~= Seq::<Seq<char>>::empty());
            }
        }
        let g = RecipeGraph {
            materials,
            form_groups,
            templates,
            items,
            recipes,
            terminal,
            producers,
            consumers,
            template_recipes,
        };
        proof {
            assert forall|item: Seq<char>, id: Seq<char>| #[trigger] lists_producer(g, item, id)
                <==> exists|k: Seq<char>| #[trigger] g.recipes@.contains_key(k) && g.recipes@[k].id@ == id && produces(g.recipes@[k], item) by {
                lemma_producers_and_consumers(g, item, id);
            }
            assert forall|item: Seq<char>, id: Seq<char>| #[trigger] lists_consumer(g, item, id)
                <==> exists|k: Seq<char>| #[trigger] g.recipes@.contains_key(k) && g.recipes@[k].id@ == id && consumes(g.recipes@[k], item) by {
                lemma_producers_and_consumers(g, item, id);
            }
        }
        g
    }
}


proof fn lemma_index_member(pairs: Seq<(Seq<char>, Seq<char>)>, k: Seq<char>, v: Seq<char>)
    ensures
        (build_index(pairs).contains_key(k) && build_index(pairs)[k].contains(v)) <==> pairs.contains((k, v)),
    decreases pairs.len(),
{
    if pairs.len() > 0 {
        let init = pairs.drop_last();
        lemma_index_member(init, k, v);
        let m = build_index(init);
        let last = pairs.last();
        assert(pairs[pairs.len() - 1] == last);
        if init.contains((k, v)) {
            let i = choose|i: int| 0 <= i < init.len() && init[i] == (k, v);
            assert(pairs[i] == (k, v));
        }
        if pairs.contains((k, v)) && (k, v) != last {
            let i = choose|i: int| 0 <= i < pairs.len() && pairs[i] == (k, v);
            assert(i < init.len());
            assert(init[i] == (k, v));
        }
        if last.0 == k {
            let old_list = if m.contains_key(k) { m[k] } else { Seq::<Seq<char>>::empty() };
            assert(build_index(pairs)[k] == old_list.push(last.1));
            if old_list.push(last.1).contains(v) && last.1 != v {
                let i = choose|i: int| 0 <= i < old_list.push(last.1).len() && old_list.push(last.1)[i] == v;
                assert(old_list[i] == v);
            }
            if old_list.contains(v) {
                let i = choose|i: int| 0 <= i < old_list.len() && old_list[i] == v;
                assert(old_list.push(last.1)[i] == v);
            }
            if last.1 == v {
                assert(old_list.push(last.1)[old_list.len() as int] == v);
            }
        }
    }
}

/// Recipe `r` outputs or byproduces `item`.
pub open spec fn produces(r: ConcreteRecipe, item: Seq<char>) -> bool {
    exists|j: int| 0 <= j < (r.outputs@ + r.byproducts@).len() && (#[trigger] (r.outputs@ + r.byproducts@)[j]).item@ == item
}

/// The producer index of `g` lists recipe `id` under `item`.
pub open spec fn lists_producer(g: RecipeGraph, item: Seq<char>, id: Seq<char>) -> bool {
    index_view(g.producers@).contains_key(item) && index_view(g.producers@)[item].contains(id)
}

/// The consumer index of `g` lists recipe `id` under `item`.
pub open spec fn lists_consumer(g: RecipeGraph, item: Seq<char>, id: Seq<char>) -> bool {
    index_view(g.consumers@).contains_key(item) && index_view(g.consumers@)[item].contains(id)
}

/// Recipe `r` consumes `item`.
pub open spec fn consumes(r: ConcreteRecipe, item: Seq<char>) -> bool {
    exists|j: int| 0 <= j < r.inputs@.len() && (#[trigger] r.inputs@[j]).item@ == item
}

proof fn lemma_producer_pairs(rs: Seq<ConcreteRecipe>, item: Seq<char>, id: Seq<char>)
    ensures
        producer_pairs(rs).contains((item, id)) <==> exists|i: int| 0 <= i < rs.len() && (#[trigger] rs[i]).id@ == id && produces(rs[i], item),
    decreases rs.len(),
{
    if rs.len() > 0 {
        let init = rs.drop_last();
        lemma_producer_pairs(init, item, id);
        let r = rs.last();
        let tail = (r.outputs@ + r.byproducts@).map_values(|s: ItemStack| (s.item@, r.id@));
        let pp = producer_pairs(rs);
        assert(pp == producer_pairs(init) + tail);
        if pp.contains((item, id)) {
            let x = choose|x: int| 0 <= x < pp.len() && pp[x] == (item, id);
            if x < producer_pairs(init).len() {
                assert(producer_pairs(init)[x] == (item, id));
                let i = choose|i: int| 0 <= i < init.len() && (#[trigger] init[i]).id@ == id && produces(init[i], item);
                assert(rs[i] == init[i]);
            } else {
                let j = x - producer_pairs(init).len();
                assert(tail[j] == (item, id));
                assert(rs[rs.len() - 1] == r);
                assert((r.outputs@ + r.byproducts@)[j].item@ == item);
            }
        }
        if exists|i: int| 0 <= i < rs.len() && (#[trigger] rs[i]).id@ == id && produces(rs[i], item) {
            let i = choose|i: int| 0 <= i < rs.len() && (#[trigger] rs[i]).id@ == id && produces(rs[i], item);
            if i < init.len() {
                assert(init[i] == rs[i]);
                let x = choose|x: int| 0 <= x < producer_pairs(init).len() && producer_pairs(init)[x] == (item, id);
                assert(pp[x] == (item, id));
            } else {
                assert(rs[i] == r);
                let j = choose|j: int| 0 <= j < (r.outputs@ + r.byproducts@).len() && (#[trigger] (r.outputs@ + r.byproducts@)[j]).item@ == item;
                assert(tail[j] == (item, id));
                assert(pp[producer_pairs(init).len() + j] == (item, id));
            }
        }
    }
}

proof fn lemma_consumer_pairs(rs: Seq<ConcreteRecipe>, item: Seq<char>, id: Seq<char>)
    ensures
        consumer_pairs(rs).contains((item, id)) <==> exists|i: int| 0 <= i < rs.len() && (#[trigger] rs[i]).id@ == id && consumes(rs[i], item),
    decreases rs.len(),
{
    if rs.len() > 0 {
        let init = rs.drop_last();
        lemma_consumer_pairs(init, item, id);
        let r = rs.last();
        let tail = r.inputs@.map_values(|s: ItemStack| (s.item@, r.id@));
        let pp = consumer_pairs(rs);
        assert(pp == consumer_pairs(init) + tail);
        if pp.contains((item, id)) {
            let x = choose|x: int| 0 <= x < pp.len() && pp[x] == (item, id);
            if x < consumer_pairs(init).len() {
                assert(consumer_pairs(init)[x] == (item, id));
                let i = choose|i: int| 0 <= i < init.len() && (#[trigger] init[i]).id@ == id && consumes(init[i], item);
                assert(rs[i] == init[i]);
            } else {
                let j = x - consumer_pairs(init).len();
                assert(tail[j] == (item, id));
                assert(rs[rs.len() - 1] == r);
                assert(r.inputs@[j].item@ == item);
            }
        }
        if exists|i: int| 0 <= i < rs.len() && (#[trigger] rs[i]).id@ == id && consumes(rs[i], item) {
            let i = choose|i: int| 0 <= i < rs.len() && (#[trigger] rs[i]).id@ == id && consumes(rs[i], item);
            if i < init.len() {
                assert(init[i] == rs[i]);
                let x = choose|x: int| 0 <= x < consumer_pairs(init).len() && consumer_pairs(init)[x] == (item, id);
                assert(pp[x] == (item, id));
            } else {
                assert(rs[i] == r);
                let j = choose|j: int| 0 <= j < r.inputs@.len() && (#[trigger] r.inputs@[j]).item@ == item;
                assert(tail[j] == (item, id));
                assert(pp[consumer_pairs(init).len() + j] == (item, id));
            }
        }
    }
}

/// The producer index lists recipe id `id` under `item` exactly when some recipe
/// of the graph with that id outputs or byproduces `item`; the consumer index
/// likewise for recipes that consume it.
pub proof fn lemma_producers_and_consumers(g: RecipeGraph, item: Seq<char>, id: Seq<char>)
    requires
        index_view(g.producers@) == build_index(producer_pairs(values_in_order(g.recipes))),
        index_view(g.consumers@) == build_index(consumer_pairs(values_in_order(g.recipes))),
    ensures
        (index_view(g.producers@).contains_key(item) && index_view(g.producers@)[item].contains(id))
            <==> exists|k: Seq<char>| #[trigger] g.recipes@.contains_key(k) && g.recipes@[k].id@ == id && produces(g.recipes@[k], item),
        (index_view(g.consumers@).contains_key(item) && index_view(g.consumers@)[item].contains(id))
            <==> exists|k: Seq<char>| #[trigger] g.recipes@.contains_key(k) && g.recipes@[k].id@ == id && consumes(g.recipes@[k], item),
{
    let rs = values_in_order(g.recipes);
    g.recipes.lemma_key_seq_dom();
    lemma_index_member(producer_pairs(rs), item, id);
    lemma_producer_pairs(rs, item, id);
    lemma_index_member(consumer_pairs(rs), item, id);
    lemma_consumer_pairs(rs, item, id);
    let ks = g.recipes.key_seq();
    if exists|i: int| 0 <= i < rs.len() && (#[trigger] rs[i]).id@ == id && produces(rs[i], item) {
        let i = choose|i: int| 0 <= i < rs.len() && (#[trigger] rs[i]).id@ == id && produces(rs[i], item);
        assert(ks.contains(ks[i]));
        assert(g.recipes@.contains_key(ks[i]));
    }
    if exists|k: Seq<char>| #[trigger] g.recipes@.contains_key(k) && g.recipes@[k].id@ == id && produces(g.recipes@[k], item) {
        let k = choose|k: Seq<char>| #[trigger] g.recipes@.contains_key(k) && g.recipes@[k].id@ == id && produces(g.recipes@[k], item);
        let i = choose|i: int| 0 <= i < ks.len() && ks[i] == k;
        assert(rs[i] == g.recipes@[k]);
    }
    if exists|i: int| 0 <= i < rs.len() && (#[trigger] rs[i]).id@ == id && consumes(rs[i], item) {
        let i = choose|i: int| 0 <= i < rs.len() && (#[trigger] rs[i]).id@ == id && consumes(rs[i], item);
        assert(ks.contains(ks[i]));
        assert(g.recipes@.contains_key(ks[i]));
    }
    if exists|k: Seq<char>| #[trigger] g.recipes@.contains_key(k) && g.recipes@[k].id@ == id && consumes(g.recipes@[k], item) {
        let k = choose|k: Seq<char>| #[trigger] g.recipes@.contains_key(k) && g.recipes@[k].id@ == id && consumes(g.recipes@[k], item);
        let i = choose|i: int| 0 <= i < ks.len() && ks[i] == k;
        assert(rs[i] == g.recipes@[k]);
    }
}

proof fn lemma_group_table_keys(gs: Seq<FormGroup>)
    ensures
        forall|k: Seq<char>| #[trigger] group_table(gs).contains_key(k) ==> group_table(gs)[k].id@ == k,
    decreases gs.len(),
{
    if gs.len() > 0 {
        lemma_group_table_keys(gs.drop_last());
        assert forall|k: Seq<char>| #[trigger] group_table(gs).contains_key(k) implies group_table(gs)[k].id@ == k by {
            if k != gs.last().id@ {
                assert(group_table(gs.drop_last()).contains_key(k));
            }
        }
    }
}

proof fn lemma_material_table_keys(ms: Seq<MaterialDef>)
    ensures
        forall|k: Seq<char>| #[trigger] material_table(ms).contains_key(k) ==> material_table(ms)[k].id@ == k,
    decreases ms.len(),
{
    if ms.len() > 0 {
        lemma_material_table_keys(ms.drop_last());
        assert forall|k: Seq<char>| #[trigger] material_table(ms).contains_key(k) implies material_table(ms)[k].id@ == k by {
            if k != ms.last().id@ {
                assert(material_table(ms.drop_last()).contains_key(k));
            }
        }
    }
}

proof fn lemma_template_table_keys(ts: Seq<RecipeTemplate>)
    ensures
        forall|k: Seq<char>| #[trigger] template_table(ts).contains_key(k) ==> template_table(ts)[k].id@ == k,
    decreases ts.len(),
{
    if ts.len() > 0 {
        lemma_template_table_keys(ts.drop_last());
        assert forall|k: Seq<char>| #[trigger] template_table(ts).contains_key(k) implies template_table(ts)[k].id@ == k by {
            if k != ts.last().id@ {
                assert(template_table(ts.drop_last()).contains_key(k));
            }
        }
    }
}

proof fn lemma_item_table_keys(vs: Seq<ItemView>)
    ensures
        forall|k: Seq<char>| #[trigger] item_table(vs).contains_key(k) ==> item_table(vs)[k].id == k,
        forall|j: int| 0 <= j < vs.len() ==> item_table(vs).contains_key(#[trigger] vs[j].id),
    decreases vs.len(),
{
    if vs.len() > 0 {
        let d = vs.drop_last();
        lemma_item_table_keys(d);
        assert forall|j: int| 0 <= j < vs.len() implies item_table(vs).contains_key(#[trigger] vs[j].id) by {
            if j < d.len() {
                assert(d[j] == vs[j]);
            }
        }
    }
}

proof fn lemma_recipe_table_keys(vs: Seq<RecipeView>)
    ensures
        forall|k: Seq<char>| #[trigger] recipe_table(vs).contains_key(k) ==> recipe_table(vs)[k].id == k,
    decreases vs.len(),
{
    if vs.len() > 0 {
        lemma_recipe_table_keys(vs.drop_last());
        assert forall|k: Seq<char>| #[trigger] recipe_table(vs).contains_key(k) implies recipe_table(vs)[k].id == k by {
            if k != vs.last().id {
                assert(recipe_table(vs.drop_last()).contains_key(k));
            }
        }
    }
}

proof fn lemma_group_items_has(mat: MaterialDef, gids: Seq<Seq<char>>, groups: Map<Seq<char>, FormGroup>, gi: int, f: Seq<char>)
    requires
        0 <= gi < gids.len(),
        groups.contains_key(gids[gi]),
        str_views(groups[gids[gi]].forms@).contains(f),
    ensures
        group_items(mat, gids, groups).contains(derived_item(mat, f)),
    decreases gids.len(),
{
    let d = gids.drop_last();
    let head = group_items(mat, d, groups);
    if gi < d.len() {
        assert(d[gi] == gids[gi]);
        lemma_group_items_has(mat, d, groups, gi, f);
        let t = choose|t: int| 0 <= t < head.len() && head[t] == derived_item(mat, f);
        assert(group_items(mat, gids, groups)[t] == head[t]);
    } else {
        let fs = str_views(groups[gids[gi]].forms@);
        let tail = fs.map_values(|x: Seq<char>| derived_item(mat, x));
        let t = choose|t: int| 0 <= t < fs.len() && fs[t] == f;
        assert(tail[t] == derived_item(mat, f));
        assert(group_items(mat, gids, groups)[head.len() + t] == tail[t]);
    }
}

proof fn lemma_derived_items_has(mats: Seq<MaterialDef>, groups: Map<Seq<char>, FormGroup>, mi: int, gi: int, f: Seq<char>)
    requires
        0 <= mi < mats.len(),
        0 <= gi < mats[mi].form_groups@.len(),
        groups.contains_key(str_views(mats[mi].form_groups@)[gi]),
        str_views(groups[str_views(mats[mi].form_groups@)[gi]].forms@).contains(f),
    ensures
        derived_items(mats, groups).contains(derived_item(mats[mi], f)),
    decreases mats.len(),
{
    let d = mats.drop_last();
    let head = derived_items(d, groups);
    if mi < d.len() {
        assert(d[mi] == mats[mi]);
        lemma_derived_items_has(d, groups, mi, gi, f);
        let t = choose|t: int| 0 <= t < head.len() && head[t] == derived_item(mats[mi], f);
        assert(derived_items(mats, groups)[t] == head[t]);
    } else {
        let m = mats.last();
        assert(m == mats[mi]);
        lemma_group_items_has(m, str_views(m.form_groups@), groups, gi, f);
        let tail = group_items(m, str_views(m.form_groups@), groups);
        let t = choose|t: int| 0 <= t < tail.len() && tail[t] == derived_item(m, f);
        assert(derived_items(mats, groups)[head.len() + t] == tail[t]);
    }
}

/// The graph's tables are keyed by their values' own ids, and every material
/// yields an item `material_form` for each form of each of its defined form
/// groups.
pub proof fn lemma_graph_tables(
    g: RecipeGraph,
    form_group_defs: Seq<FormGroup>,
    material_defs: Seq<MaterialDef>,
    template_defs: Seq<RecipeTemplate>,
    concrete: Seq<ConcreteRecipe>,
    item_defs: Seq<ItemDef>,
)
    requires
        g.form_groups@ == group_table(form_group_defs),
        g.materials@ == material_table(material_defs),
        g.templates@ == template_table(template_defs),
        g.items@.map_values(|i: ItemDef| item_view(i)) == item_table(
            derived_items(values_in_order(g.materials), g.form_groups@) + item_defs.map_values(|i: ItemDef| item_view(i)),
        ),
        g.recipes@.map_values(|r: ConcreteRecipe| recipe_view(r)) == recipe_table(
            concrete.map_values(|r: ConcreteRecipe| recipe_view(r)) + expanded_recipes(template_defs, g.materials, g.form_groups@),
        ),
    ensures
        forall|k: Seq<char>| #[trigger] g.form_groups@.contains_key(k) ==> g.form_groups@[k].id@ == k,
        forall|k: Seq<char>| #[trigger] g.materials@.contains_key(k) ==> g.materials@[k].id@ == k,
        forall|k: Seq<char>| #[trigger] g.templates@.contains_key(k) ==> g.templates@[k].id@ == k,
        forall|k: Seq<char>| #[trigger] g.items@.contains_key(k) ==> g.items@[k].id@ == k,
        forall|k: Seq<char>| #[trigger] g.recipes@.contains_key(k) ==> g.recipes@[k].id@ == k,
        forall|mk: Seq<char>, gi: int, f: Seq<char>|
            #![trigger g.materials@[mk].form_groups@[gi], g.items@.contains_key(joined(mk, seq!['_'], f))]
            g.materials@.contains_key(mk) && 0 <= gi < g.materials@[mk].form_groups@.len()
                && g.form_groups@.contains_key(g.materials@[mk].form_groups@[gi]@)
                && str_views(g.form_groups@[g.materials@[mk].form_groups@[gi]@].forms@).contains(f)
                ==> g.items@.contains_key(joined(mk, seq!['_'], f)),
{
    lemma_group_table_keys(form_group_defs);
    lemma_material_table_keys(material_defs);
    lemma_template_table_keys(template_defs);
    let ivs = derived_items(values_in_order(g.materials), g.form_groups@) + item_defs.map_values(|i: ItemDef| item_view(i));
    lemma_item_table_keys(ivs);
    lemma_recipe_table_keys(
        concrete.map_values(|r: ConcreteRecipe| recipe_view(r)) + expanded_recipes(template_defs, g.materials, g.form_groups@),
    );
    assert forall|k: Seq<char>| #[trigger] g.items@.contains_key(k) implies g.items@[k].id@ == k by {
        assert(g.items@.map_values(|i: ItemDef| item_view(i)).contains_key(k));
        assert(item_table(ivs).contains_key(k));
        assert(g.items@.map_values(|i: ItemDef| item_view(i))[k] == item_view(g.items@[k]));
    }
    let rvs = concrete.map_values(|r: ConcreteRecipe| recipe_view(r)) + expanded_recipes(template_defs, g.materials, g.form_groups@);
    assert forall|k: Seq<char>| #[trigger] g.recipes@.contains_key(k) implies g.recipes@[k].id@ == k by {
        assert(g.recipes@.map_values(|r: ConcreteRecipe| recipe_view(r)).contains_key(k));
        assert(recipe_table(rvs).contains_key(k));
        assert(g.recipes@.map_values(|r: ConcreteRecipe| recipe_view(r))[k] == recipe_view(g.recipes@[k]));
    }
    assert forall|mk: Seq<char>, gi: int, f: Seq<char>|
        #![trigger g.materials@[mk].form_groups@[gi], g.items@.contains_key(joined(mk, seq!['_'], f))]
        g.materials@.contains_key(mk) && 0 <= gi < g.materials@[mk].form_groups@.len()
            && g.form_groups@.contains_key(g.materials@[mk].form_groups@[gi]@)
            && str_views(g.form_groups@[g.materials@[mk].form_groups@[gi]@].forms@).contains(f)
        implies g.items@.contains_key(joined(mk, seq!['_'], f)) by {
        let vals = values_in_order(g.materials);
        g.materials.lemma_key_seq_dom();
        let ks = g.materials.key_seq();
        let i = choose|i: int| 0 <= i < ks.len() && ks[i] == mk;
        assert(vals[i] == g.materials@[mk]);
        assert(str_views(vals[i].form_groups@)[gi] == vals[i].form_groups@[gi]@);
        lemma_derived_items_has(vals, g.form_groups@, i, gi, f);
        let der = derived_items(vals, g.form_groups@);
        let t = choose|t: int| 0 <= t < der.len() && der[t] == derived_item(vals[i], f);
        assert(ivs[t] == der[t]);
        assert(ivs[t].id == joined(mk, seq!['_'], f));
        assert(item_table(ivs).contains_key(ivs[t].id));
        assert(g.items@.map_values(|i: ItemDef| item_view(i)).contains_key(joined(mk, seq!['_'], f)));
    }
}

} // verus!
