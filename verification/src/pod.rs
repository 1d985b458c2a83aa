//! The escape pod's cargo: the starting kit a fresh run lands with, and the
//! hotbar bound to it.

use vstd::prelude::*;
use crate::inventory::{Hotbar, HotbarSlot};
use crate::strmap::StrMap;
use crate::text::owned;

verus! {

/// The placeables a fresh run lands with: one of each machine needed to mine,
/// power, assemble and research, and a hundred of each cable.
pub open spec fn kit_contents() -> Map<Seq<char>, u32> {
    map![
        "assembler"@ => 1u32,
        "solar_generator"@ => 1u32,
        "miner"@ => 1u32,
        "analysis_station"@ => 1u32,
        "logistics_cable"@ => 100u32,
        "power_cable"@ => 100u32,
    ]
}

/// The order in which the kit is bound to the hotbar's first slots.
pub open spec fn kit_order() -> Seq<Seq<char>> {
    seq!["miner"@, "solar_generator"@, "assembler"@, "analysis_station"@, "logistics_cable"@, "power_cable"@]
}

/// The starting kit, by item id.
pub fn starting_kit() -> (kit: StrMap<u32>)
    ensures
        kit@ == kit_contents(),
{
    let mut kit: StrMap<u32> = StrMap::new();
    kit.insert(owned("assembler"), 1);
    kit.insert(owned("solar_generator"), 1);
    kit.insert(owned("miner"), 1);
    kit.insert(owned("analysis_station"), 1);
    kit.insert(owned("logistics_cable"), 100);
    kit.insert(owned("power_cable"), 100);
    assert(kit@ =~= kit_contents());
    kit
}

/// Binds the kit to the hotbar: its first six slots hold the kit's items in
/// kit order; the remaining slots and the selection are untouched.
pub fn bind_kit_to_hotbar(hotbar: &mut Hotbar)
    ensures
        forall|i: int| 0 <= i < 6 ==> (#[trigger] final(hotbar).slots@[i] matches Some(s) && s.item_id@ == kit_order()[i]),
        forall|i: int| 6 <= i < 9 ==> #[trigger] final(hotbar).slots@[i] == old(hotbar).slots@[i],
        final(hotbar).selected == old(hotbar).selected,
{
    let order = ["miner", "solar_generator", "assembler", "analysis_station", "logistics_cable", "power_cable"];
    assert(order@.map_values(|s: &str| s@) =~= kit_order());
    let mut i: usize = 0;
    while i < 6
        invariant
            i <= 6,
            order@.map_values(|s: &str| s@) == kit_order(),
            forall|j: int| 0 <= j < i ==> (#[trigger] hotbar.slots@[j] matches Some(s) && s.item_id@ == kit_order()[j]),
            forall|j: int| 6 <= j < 9 ==> #[trigger] hotbar.slots@[j] == old(hotbar).slots@[j],
            hotbar.selected == old(hotbar).selected,
        decreases 6 - i,
    {
        assert(order@[i as int]@ == kit_order()[i as int]);
        hotbar.slots[i] = Some(HotbarSlot { item_id: owned(order[i]) });
        i += 1;
    }
}

} // verus!
