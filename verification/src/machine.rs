//! Machine and placeable definitions: the registries that look them up by id,
//! and the placeable a machine file describes.
//!
//! Lengths and other real quantities of the content files are carried as the
//! raw bits of their `f32` values; nothing here computes with them.

use vstd::prelude::*;
use crate::strmap::StrMap;
use crate::text::{owned, str_eq};

verus! {

/// Where a generator draws its energy from.
#[derive(Clone, Copy, Debug, PartialEq, Eq, Structural, Default)]
pub enum EnvSource {
    #[default]
    Solar,
    Combustion,
}

/// A generator tier: its output, energy source, and buffer cap (zero for the
/// default of ten seconds of output), as `f32` bits.
#[derive(Clone, Copy, Debug, PartialEq, Eq, Structural)]
pub struct GeneratorDef {
    pub watts_bits: u32,
    pub env_source: EnvSource,
    pub max_buffer_joules_bits: u32,
}

/// One tier of a machine, possibly a generator.
#[derive(Clone, Copy, Debug, PartialEq, Eq, Structural)]
pub struct MachineTierDef {
    pub tier: u8,
    pub generator: Option<GeneratorDef>,
}

/// A machine: its id and its tiers.
#[derive(Clone, Debug)]
pub struct MachineDef {
    pub id: String,
    pub tiers: Vec<MachineTierDef>,
}

/// What kind of item a placeable is.
#[derive(Clone, Debug)]
pub enum ItemKind {
    Machine { tier: u8 },
    Cable { network: String },
    Platform,
    Generator,
}

/// How the player interacts with a placeable while placing it.
#[derive(Clone, Debug)]
pub enum InteractionShape {
    Single,
    TwoEndpoint { item_id: String },
    AreaRect { tile_size_bits: u32 },
}

/// Where a placeable may stand.
#[derive(Clone, Copy, Debug, PartialEq, Eq, Structural)]
pub enum SurfaceRule {
    Ground,
    Anywhere,
    Port,
}

/// A tile snapping step, as `f32` bits.
#[derive(Clone, Copy, Debug, PartialEq, Eq, Structural)]
pub enum TileSnap {
    Horizontal { step_bits: u32 },
    Vertical { step_bits: u32 },
}

/// How a placeable snaps into place.
#[derive(Clone, Copy, Debug, PartialEq, Eq, Structural)]
pub enum SnapRule {
    Free,
    Tile(TileSnap),
    PortRaycast,
}

/// How player input orients a placeable.
#[derive(Clone, Copy, Debug, PartialEq, Eq, Structural)]
pub enum OrientationSupport {
    Fixed,
    AxisY,
    Free,
}

/// How the placement ghost is drawn.
#[derive(Clone, Copy, Debug, PartialEq, Eq, Structural)]
pub enum GhostHint {
    Scene,
    TiledScene,
    Routed,
}

/// The item a placeable is.
#[derive(Clone, Debug)]
pub struct ItemSpec {
    pub id: String,
    pub name: String,
    pub stack_size: u32,
    pub kind: ItemKind,
}

/// Everything needed to place an item in the world. The footprint's
/// half-extents and the reach are `f32` bits.
#[derive(Clone, Debug)]
pub struct PlaceableDef {
    pub item: ItemSpec,
    pub interaction: InteractionShape,
    pub surface: SurfaceRule,
    pub snap: SnapRule,
    pub orientation: OrientationSupport,
    pub ghost_hint: GhostHint,
    pub footprint_bits: [u32; 3],
    pub max_reach_bits: Option<u32>,
}

/// A machine as its content file describes it.
#[derive(Clone, Debug)]
pub struct MachineFileDef {
    pub id: String,
    pub name: String,
    pub stack_size: u32,
    pub tiers: Vec<MachineTierDef>,
    pub interaction: InteractionShape,
    pub surface: SurfaceRule,
    pub snap: SnapRule,
    pub orientation: OrientationSupport,
    pub ghost_hint: GhostHint,
    pub footprint_bits: [u32; 3],
    pub max_reach_bits: Option<u32>,
}

/// Some tier of `tiers` is a generator.
pub open spec fn has_generator(tiers: Seq<MachineTierDef>) -> bool {
    exists|i: int| 0 <= i < tiers.len() && (#[trigger] tiers[i]).generator is Some
}

/// The highest tier of `tiers`, or 1 when there are none.
pub open spec fn top_tier(tiers: Seq<MachineTierDef>) -> u8
    decreases tiers.len(),
{
    if tiers.len() == 0 {
        1
    } else if tiers.len() == 1 {
        tiers[0].tier
    } else {
        let t = top_tier(tiers.drop_last());
        if tiers.last().tier > t { tiers.last().tier } else { t }
    }
}

/// The same interaction shape, with its item id copied.
pub open spec fn same_shape(a: InteractionShape, b: InteractionShape) -> bool {
    match (a, b) {
        (InteractionShape::Single, InteractionShape::Single) => true,
        (InteractionShape::TwoEndpoint { item_id: x }, InteractionShape::TwoEndpoint { item_id: y }) => x@ == y@,
        (InteractionShape::AreaRect { tile_size_bits: x }, InteractionShape::AreaRect { tile_size_bits: y }) => x == y,
        _ => false,
    }
}

impl InteractionShape {
    /// A copy of this shape.
    pub fn duplicate(&self) -> (r: InteractionShape)
        ensures
            same_shape(*self, r),
    {
        match self {
            InteractionShape::Single => InteractionShape::Single,
            InteractionShape::TwoEndpoint { item_id } => InteractionShape::TwoEndpoint { item_id: owned(item_id.as_str()) },
            InteractionShape::AreaRect { tile_size_bits } => InteractionShape::AreaRect { tile_size_bits: *tile_size_bits },
        }
    }
}

fn kind_of_tiers(tiers: &Vec<MachineTierDef>) -> (k: ItemKind)
    ensures
        has_generator(tiers@) ==> k is Generator,
        !has_generator(tiers@) ==> (k matches ItemKind::Machine { tier } && tier == top_tier(tiers@)),
{
    let mut i: usize = 0;
    while i < tiers.len()
        invariant
            i <= tiers@.len(),
            forall|j: int| 0 <= j < i ==> (#[trigger] tiers@[j]).generator is None,
        decreases tiers@.len() - i,
    {
        if tiers[i].generator.is_some() {
            return ItemKind::Generator;
        }
        i += 1;
    }
    if tiers.len() == 0 {
        return ItemKind::Machine { tier: 1 };
    }
    let mut top: u8 = tiers[0].tier;
    let mut i: usize = 1;
    while i < tiers.len()
        invariant
            1 <= i <= tiers@.len(),
            top == top_tier(tiers@.subrange(0, i as int)),
        decreases tiers@.len() - i,
    {
        proof {
            assert(tiers@.subrange(0, i + 1).drop_last() =~= tiers@.subrange(0, i as int));
        }
        if tiers[i].tier > top {
            top = tiers[i].tier;
        }
        i += 1;
    }
    proof {
        assert(tiers@.subrange(0, tiers@.len() as int) =~= tiers@);
    }
    ItemKind::Machine { tier: top }
}

impl MachineFileDef {
    /// The machine definition this file describes.
    pub fn to_machine_def(&self) -> (m: MachineDef)
        ensures
            m.id@ == self.id@,
            m.tiers@ == self.tiers@,
    {
        MachineDef { id: owned(self.id.as_str()), tiers: self.tiers.clone() }
    }

    /// The placeable this file describes. Its item is a generator when some
    /// tier generates, and otherwise a machine of the highest tier (1 with no
    /// tiers); everything else is copied from the file.
    pub fn to_placeable_def(&self) -> (p: PlaceableDef)
        ensures
            p.item.id@ == self.id@,
            p.item.name@ == self.name@,
            p.item.stack_size == self.stack_size,
            has_generator(self.tiers@) ==> p.item.kind is Generator,
            !has_generator(self.tiers@) ==> (p.item.kind matches ItemKind::Machine { tier } && tier == top_tier(self.tiers@)),
            same_shape(self.interaction, p.interaction),
            p.surface == self.surface,
            p.snap == self.snap,
            p.orientation == self.orientation,
            p.ghost_hint == self.ghost_hint,
            p.footprint_bits == self.footprint_bits,
            p.max_reach_bits == self.max_reach_bits,
    {
        PlaceableDef {
            item: ItemSpec {
                id: owned(self.id.as_str()),
                name: owned(self.name.as_str()),
                stack_size: self.stack_size,
                kind: kind_of_tiers(&self.tiers),
            },
            interaction: self.interaction.duplicate(),
            surface: self.surface,
            snap: self.snap,
            orientation: self.orientation,
            ghost_hint: self.ghost_hint,
            footprint_bits: self.footprint_bits,
            max_reach_bits: self.max_reach_bits,
        }
    }
}

/// The machine definitions, in load order.
pub struct MachineRegistry {
    machines: Vec<MachineDef>,
}

impl MachineRegistry {
    /// The definitions, in load order.
    pub closed spec fn defs(&self) -> Seq<MachineDef> {
        self.machines@
    }

    /// A registry of `machines`.
    pub fn new(machines: Vec<MachineDef>) -> (r: Self)
        ensures
            r.defs() == machines@,
    {
        MachineRegistry { machines }
    }

    /// The first definition with id `id`, if any.
    pub fn machine_def(&self, id: &str) -> (r: Option<&MachineDef>)
        ensures
            match r {
                Some(m) => exists|i: int| 0 <= i < self.defs().len() && *m == self.defs()[i] && m.id@ == id@
                    && forall|j: int| 0 <= j < i ==> (#[trigger] self.defs()[j]).id@ != id@,
                None => forall|j: int| 0 <= j < self.defs().len() ==> (#[trigger] self.defs()[j]).id@ != id@,
            },
    {
        let mut i: usize = 0;
        while i < self.machines.len()
            invariant
                i <= self.machines@.len(),
                forall|j: int| 0 <= j < i ==> (#[trigger] self.machines@[j]).id@ != id@,
            decreases self.machines@.len() - i,
        {
            if str_eq(self.machines[i].id.as_str(), id) {
                proof {
                    assert(forall|j: int| 0 <= j < i ==> (#[trigger] self.defs()[j]).id@ != id@);
                    assert(self.defs()[i as int] == self.machines@[i as int]);
                }
                return Some(&self.machines[i]);
            }
            i += 1;
        }
        assert(forall|j: int| 0 <= j < self.defs().len() ==> (#[trigger] self.defs()[j]).id@ != id@);
        None
    }
}

/// No two definitions share an item id.
pub open spec fn distinct_ids(defs: Seq<PlaceableDef>) -> bool {
    forall|i: int, j: int| 0 <= i < defs.len() && 0 <= j < defs.len() && i != j ==> (#[trigger] defs[i]).item.id@ != (#[trigger] defs[j]).item.id@
}

/// The placeable definitions, by item id.
pub struct PlaceableRegistry {
    by_item: StrMap<PlaceableDef>,
}

impl PlaceableRegistry {
    /// The definitions by item id.
    pub closed spec fn view(&self) -> Map<Seq<char>, PlaceableDef> {
        self.by_item@
    }

    /// An empty registry.
    pub fn new() -> (r: Self)
        ensures
            r@ == Map::<Seq<char>, PlaceableDef>::empty(),
    {
        PlaceableRegistry { by_item: StrMap::new() }
    }

    /// The definition of item `id`, if any.
    pub fn get(&self, id: &str) -> (r: Option<&PlaceableDef>)
        ensures
            match r {
                Some(d) => self@.contains_key(id@) && *d == self@[id@],
                None => !self@.contains_key(id@),
            },
    {
        self.by_item.get(id)
    }

    /// Whether item `id` can be placed.
    pub fn is_placeable(&self, id: &str) -> (b: bool)
        ensures
            b == self@.contains_key(id@),
    {
        self.by_item.contains_key(id)
    }

    /// The registry of `defs`, each under its item id. Ids must not repeat.
    pub fn from_defs(defs: Vec<PlaceableDef>) -> (r: Self)
        requires
            distinct_ids(defs@),
        ensures
            forall|k: Seq<char>| r@.contains_key(k) <==> exists|i: int| 0 <= i < defs@.len() && (#[trigger] defs@[i]).item.id@ == k,
            forall|i: int| 0 <= i < defs@.len() ==> r@[(#[trigger] defs@[i]).item.id@] == defs@[i],
    {
        let ghost all = defs@;
        let n = defs.len();
        let mut rest = defs;
        let mut by_item: StrMap<PlaceableDef> = StrMap::new();
        let mut i: usize = 0;
        while i < n
            invariant
                n == all.len(),
                distinct_ids(all),
                i <= n,
                rest@ == all.subrange(i as int, n as int),
                forall|k: Seq<char>| by_item@.contains_key(k) <==> exists|j: int| 0 <= j < i && (#[trigger] all[j]).item.id@ == k,
                forall|j: int| 0 <= j < i ==> by_item@[(#[trigger] all[j]).item.id@] == all[j],
            decreases n - i,
        {
            let d = rest.remove(0);
            assert(d == all[i as int]);
            let id = d.item.id.clone();
            let ghost m0 = by_item@;
            by_item.insert(id, d);
            proof {
                assert forall|k: Seq<char>| by_item@.contains_key(k) <==> exists|j: int| 0 <= j < i + 1 && (#[trigger] all[j]).item.id@ == k by {
                    if by_item@.contains_key(k) && k != all[i as int].item.id@ {
                        assert(m0.contains_key(k));
                    }
                    if k == all[i as int].item.id@ {
                        assert(by_item@.contains_key(k));
                    }
                }
                assert forall|j: int| 0 <= j < i + 1 implies by_item@[(#[trigger] all[j]).item.id@] == all[j] by {
                    if j < i {
                        assert(all[j].item.id@ != all[i as int].item.id@);
                    }
                }
            }
            i += 1;
        }
        PlaceableRegistry { by_item }
    }
}

/// Whether a machine is working on a recipe.
#[derive(Clone, Copy, Debug, PartialEq, Eq, Structural)]
pub enum MachineState {
    Idle,
    Running,
}

/// A machine's lifecycle: idle, or running the recipe it was given.
#[derive(Clone, Debug)]
pub enum Lifecycle {
    Idle,
    Running(String),
}

impl Lifecycle {
    /// Idle or running.
    pub fn state(&self) -> (s: MachineState)
        ensures
            (s == MachineState::Idle) == (self is Idle),
    {
        match self {
            Lifecycle::Idle => MachineState::Idle,
            Lifecycle::Running(_) => MachineState::Running,
        }
    }
}

/// What happens to a machine.
#[derive(Clone, Debug)]
pub enum MachineEvent {
    /// The dispatcher hands it a recipe.
    Dispatched(String),
    /// Its recipe reached its processing time.
    Finished,
    /// The player removed it from the world.
    Removed,
}

/// What the world must do after a machine event.
#[derive(Clone, Debug)]
pub enum MachineEffect {
    Nothing,
    /// Announce that the recipe's job is complete.
    JobComplete(String),
    /// Return the recipe's inputs to the machine's network.
    RefundInputs(String),
}

/// One step of a machine's lifecycle. Only an idle machine takes a recipe;
/// only a running one finishes, and finishing makes it idle and completes the
/// job; removing a machine ends it, and gives back the inputs of the recipe it
/// was running (nothing when it was idle). Returns the next lifecycle (`None`
/// once removed) and the effect.
pub fn lifecycle_step(life: Lifecycle, event: MachineEvent) -> (r: (Option<Lifecycle>, MachineEffect))
    ensures
        event matches MachineEvent::Dispatched(id) ==> match life {
            Lifecycle::Idle => r.0 matches Some(Lifecycle::Running(x)) && x@ == id@ && r.1 is Nothing,
            Lifecycle::Running(x) => r.0 matches Some(Lifecycle::Running(y)) && y@ == x@ && r.1 is Nothing,
        },
        event is Finished ==> match life {
            Lifecycle::Idle => r.0 matches Some(Lifecycle::Idle) && r.1 is Nothing,
            Lifecycle::Running(x) => r.0 matches Some(Lifecycle::Idle) && r.1 matches MachineEffect::JobComplete(y) && y@ == x@,
        },
        event is Removed ==> r.0 is None && match life {
            Lifecycle::Idle => r.1 is Nothing,
            Lifecycle::Running(x) => r.1 matches MachineEffect::RefundInputs(y) && y@ == x@,
        },
        !(r.1 is Nothing) ==> life is Running,
{
    match event {
        MachineEvent::Dispatched(id) => match life {
            Lifecycle::Idle => (Some(Lifecycle::Running(id)), MachineEffect::Nothing),
            Lifecycle::Running(x) => (Some(Lifecycle::Running(x)), MachineEffect::Nothing),
        },
        MachineEvent::Finished => match life {
            Lifecycle::Idle => (Some(Lifecycle::Idle), MachineEffect::Nothing),
            Lifecycle::Running(x) => (Some(Lifecycle::Idle), MachineEffect::JobComplete(x)),
        },
        MachineEvent::Removed => match life {
            Lifecycle::Idle => (None, MachineEffect::Nothing),
            Lifecycle::Running(x) => (None, MachineEffect::RefundInputs(x)),
        },
    }
}

} // verus!
