//! The player's item registry and hotbar.

use vstd::prelude::*;
use crate::recipe_graph::ItemDef;
use crate::strmap::StrMap;

verus! {

/// Item definitions by id; registering an id again replaces its definition.
pub struct ItemRegistry {
    pub items: StrMap<ItemDef>,
}

impl ItemRegistry {
    /// An empty registry.
    pub fn new() -> (r: Self)
        ensures
            r.items@ == Map::<Seq<char>, ItemDef>::empty(),
    {
        ItemRegistry { items: StrMap::new() }
    }

    /// Registers `def` under its id.
    pub fn register(&mut self, def: ItemDef)
        ensures
            final(self).items@ == old(self).items@.insert(def.id@, def),
    {
        let id = def.id.clone();
        self.items.insert(id, def);
    }

    /// The definition registered under `id`.
    pub fn get(&self, id: &str) -> (r: Option<&ItemDef>)
        ensures
            match r {
                Some(d) => self.items@.contains_key(id@) && *d == self.items@[id@],
                None => !self.items@.contains_key(id@),
            },
    {
        self.items.get(id)
    }
}

impl Default for ItemRegistry {
    /// An empty registry.
    fn default() -> (r: Self)
        ensures
            r.items@ == Map::<Seq<char>, ItemDef>::empty(),
    {
        ItemRegistry::new()
    }
}

/// One hotbar slot, holding an item id.
#[derive(Clone, Debug)]
pub struct HotbarSlot {
    pub item_id: String,
}

/// The nine hotbar slots and the selected one.
pub struct Hotbar {
    pub slots: [Option<HotbarSlot>; 9],
    pub selected: usize,
}

impl Default for Hotbar {
    /// Nine empty slots, the first selected.
    fn default() -> (h: Self)
        ensures
            forall|i: int| 0 <= i < 9 ==> #[trigger] h.slots@[i] is None,
            h.selected == 0,
    {
        Hotbar { slots: [None, None, None, None, None, None, None, None, None], selected: 0 }
    }
}

impl Hotbar {
    /// The item id in the selected slot, if the selection is a slot holding one.
    pub fn active_item_id(&self) -> (r: Option<&str>)
        ensures
            self.selected < 9 && self.slots@[self.selected as int] is Some ==> (r matches Some(s)
                && s@ == self.slots@[self.selected as int]->0.item_id@),
            !(self.selected < 9 && self.slots@[self.selected as int] is Some) ==> r is None,
    {
        if self.selected >= 9 {
            return None;
        }
        match &self.slots[self.selected] {
            Some(slot) => Some(slot.item_id.as_str()),
            None => None,
        }
    }
}

} // verus!
