use exergon_core::machine::{lifecycle_step, Lifecycle, MachineEffect, MachineEvent, MachineState};
use exergon_core::machine::{
    EnvSource, GeneratorDef, GhostHint, InteractionShape, ItemKind, ItemSpec, MachineDef, MachineFileDef,
    MachineRegistry, MachineTierDef, OrientationSupport, PlaceableDef, PlaceableRegistry, SnapRule, SurfaceRule,
};

fn def(id: &str) -> MachineDef {
    MachineDef { id: id.to_string(), tiers: vec![] }
}

#[test]
fn machine_def_found() {
    let reg = MachineRegistry::new(vec![def("smelter"), def("furnace")]);
    assert!(reg.machine_def("smelter").is_some());
    assert_eq!(reg.machine_def("smelter").unwrap().id, "smelter");
}

#[test]
fn machine_def_not_found() {
    let reg = MachineRegistry::new(vec![def("smelter")]);
    assert!(reg.machine_def("forge").is_none());
}

#[test]
fn machine_def_empty_registry() {
    let reg = MachineRegistry::new(vec![]);
    assert!(reg.machine_def("anything").is_none());
}

fn make_def(id: &str) -> PlaceableDef {
    PlaceableDef {
        item: ItemSpec { id: id.to_string(), name: id.to_string(), stack_size: 10, kind: ItemKind::Machine { tier: 1 } },
        interaction: InteractionShape::Single,
        surface: SurfaceRule::Ground,
        snap: SnapRule::Free,
        orientation: OrientationSupport::AxisY,
        ghost_hint: GhostHint::Scene,
        footprint_bits: [2.0f32.to_bits(), 2.0f32.to_bits(), 2.0f32.to_bits()],
        max_reach_bits: None,
    }
}

#[test]
fn registry_get_returns_def() {
    let reg = PlaceableRegistry::from_defs(vec![make_def("smelter")]);
    assert!(reg.get("smelter").is_some());
    assert_eq!(reg.get("smelter").unwrap().item.id, "smelter");
}

#[test]
fn registry_is_placeable_true_for_known() {
    let reg = PlaceableRegistry::from_defs(vec![make_def("smelter")]);
    assert!(reg.is_placeable("smelter"));
}

#[test]
fn registry_is_placeable_false_for_unknown() {
    let reg = PlaceableRegistry::from_defs(vec![make_def("smelter")]);
    assert!(!reg.is_placeable("furnace"));
}

#[test]
fn footprint_bits_round_trip() {
    let def = make_def("smelter");
    assert_eq!(def.footprint_bits.map(f32::from_bits), [2.0, 2.0, 2.0]);
}

fn file_def(tiers: Vec<MachineTierDef>) -> MachineFileDef {
    MachineFileDef {
        id: "smelter".to_string(),
        name: "Smelter".to_string(),
        stack_size: 5,
        tiers,
        interaction: InteractionShape::TwoEndpoint { item_id: "cable".to_string() },
        surface: SurfaceRule::Ground,
        snap: SnapRule::Free,
        orientation: OrientationSupport::AxisY,
        ghost_hint: GhostHint::Scene,
        footprint_bits: [1.0f32.to_bits(), 1.5f32.to_bits(), 1.0f32.to_bits()],
        max_reach_bits: Some(8.0f32.to_bits()),
    }
}

#[test]
fn file_def_becomes_machine_of_top_tier() {
    let fd = file_def(vec![MachineTierDef { tier: 1, generator: None }, MachineTierDef { tier: 3, generator: None }, MachineTierDef { tier: 2, generator: None }]);
    let p = fd.to_placeable_def();
    assert_eq!(p.item.id, "smelter");
    assert_eq!(p.item.name, "Smelter");
    assert_eq!(p.item.stack_size, 5);
    assert!(matches!(p.item.kind, ItemKind::Machine { tier: 3 }));
    assert!(matches!(p.interaction, InteractionShape::TwoEndpoint { ref item_id } if item_id == "cable"));
    assert_eq!(p.max_reach_bits, Some(8.0f32.to_bits()));
}

#[test]
fn file_def_without_tiers_is_tier_one() {
    let p = file_def(vec![]).to_placeable_def();
    assert!(matches!(p.item.kind, ItemKind::Machine { tier: 1 }));
}

#[test]
fn file_def_with_generator_tier_is_generator() {
    let gen = GeneratorDef { watts_bits: 50.0f32.to_bits(), env_source: EnvSource::Solar, max_buffer_joules_bits: 0 };
    let fd = file_def(vec![MachineTierDef { tier: 4, generator: None }, MachineTierDef { tier: 1, generator: Some(gen) }]);
    assert!(matches!(fd.to_placeable_def().item.kind, ItemKind::Generator));
    let m = fd.to_machine_def();
    assert_eq!(m.id, "smelter");
    assert_eq!(m.tiers.len(), 2);
}

#[test]
fn registry_machine_def_found_and_not_found() {
    let reg = MachineRegistry::new(vec![def("smelter")]);
    assert!(reg.machine_def("smelter").is_some());
    assert_eq!(reg.machine_def("smelter").unwrap().id, "smelter");
    assert!(reg.machine_def("unknown").is_none());
}

#[test]
fn idle_machine_takes_a_dispatched_recipe() {
    let (next, effect) = lifecycle_step(Lifecycle::Idle, MachineEvent::Dispatched("smelt".to_string()));
    let next = next.unwrap();
    assert_eq!(next.state(), MachineState::Running);
    assert!(matches!(next, Lifecycle::Running(ref r) if r == "smelt"));
    assert!(matches!(effect, MachineEffect::Nothing));
}

#[test]
fn running_machine_ignores_a_second_dispatch() {
    let (next, effect) = lifecycle_step(Lifecycle::Running("smelt".to_string()), MachineEvent::Dispatched("press".to_string()));
    assert!(matches!(next, Some(Lifecycle::Running(ref r)) if r == "smelt"));
    assert!(matches!(effect, MachineEffect::Nothing));
}

#[test]
fn finishing_completes_the_job_and_idles() {
    let (next, effect) = lifecycle_step(Lifecycle::Running("smelt".to_string()), MachineEvent::Finished);
    assert!(matches!(next, Some(Lifecycle::Idle)));
    assert!(matches!(effect, MachineEffect::JobComplete(ref r) if r == "smelt"));
    let (next, effect) = lifecycle_step(Lifecycle::Idle, MachineEvent::Finished);
    assert!(matches!(next, Some(Lifecycle::Idle)));
    assert!(matches!(effect, MachineEffect::Nothing));
}

#[test]
fn removal_refunds_only_a_running_machine() {
    let (next, effect) = lifecycle_step(Lifecycle::Running("smelt".to_string()), MachineEvent::Removed);
    assert!(next.is_none());
    assert!(matches!(effect, MachineEffect::RefundInputs(ref r) if r == "smelt"));
    let (next, effect) = lifecycle_step(Lifecycle::Idle, MachineEvent::Removed);
    assert!(next.is_none());
    assert!(matches!(effect, MachineEffect::Nothing));
}
