use exergon_core::planet::{
    panel_title,
    insight_beat, PowerBoosts, PowerProducerKind,
    catalog_name, effect_hint, epithet, epithet_word, hidden_effect_hint, property_reveal_step, property_row,
    qualitative_word, EnvironmentalHazard,
    PlanetPropertyKey, PlanetPropertyViewLog, PlanetPropertyVisibility, PropertyVisibility,
};

#[test]
fn initial_visibility_matches_spec() {
    let v = PlanetPropertyVisibility::default();
    assert_eq!(v.temperature, PropertyVisibility::Qualitative);
    assert_eq!(v.stellar_distance, PropertyVisibility::Qualitative);
    assert_eq!(v.wind_intensity, PropertyVisibility::Qualitative);
    assert_eq!(v.hazard_type, PropertyVisibility::Revealed);
    assert_eq!(v.geological_activity, PropertyVisibility::Hidden);
    assert_eq!(v.atmospheric_oxygen, PropertyVisibility::Hidden);
    assert_eq!(v.atmospheric_pressure, PropertyVisibility::Hidden);
}

#[test]
fn property_visibility_set_and_get() {
    let mut v = PlanetPropertyVisibility::default();
    v.set(PlanetPropertyKey::AtmosphericOxygen, PropertyVisibility::Revealed);
    assert_eq!(v.get(PlanetPropertyKey::AtmosphericOxygen), PropertyVisibility::Revealed);
    assert_eq!(v.get(PlanetPropertyKey::AtmosphericPressure), PropertyVisibility::Hidden);
}

#[test]
fn drone_scan_reveals_geological_activity() {
    let mut v = PlanetPropertyVisibility::default();
    let evs = property_reveal_step(&mut v, 1, true, 0);
    assert_eq!(v.geological_activity, PropertyVisibility::Qualitative);
    assert!(evs
        .iter()
        .any(|e| e.property == PlanetPropertyKey::GeologicalActivity
            && e.new_visibility == PropertyVisibility::Qualitative));
}

#[test]
fn fog_reveal_outside_drone_mode_does_not_reveal() {
    let mut v = PlanetPropertyVisibility::default();
    let evs = property_reveal_step(&mut v, 3, false, 0);
    assert_eq!(v.geological_activity, PropertyVisibility::Hidden);
    assert!(evs.is_empty());
}

#[test]
fn research_spend_reveals_atmospheric_properties() {
    let mut v = PlanetPropertyVisibility::default();
    let evs = property_reveal_step(&mut v, 0, false, 1);
    assert_eq!(v.atmospheric_oxygen, PropertyVisibility::Revealed);
    assert_eq!(v.atmospheric_pressure, PropertyVisibility::Revealed);
    assert_eq!(evs.iter().filter(|e| e.new_visibility == PropertyVisibility::Revealed).count(), 2);
}

#[test]
fn reveal_fires_once() {
    let mut v = PlanetPropertyVisibility::default();
    let first = property_reveal_step(&mut v, 2, true, 1);
    assert_eq!(first.len(), 3);
    let second = property_reveal_step(&mut v, 2, true, 1);
    assert!(second.is_empty());
    assert_eq!(v.geological_activity, PropertyVisibility::Qualitative);
}

#[test]
fn scan_does_not_lower_revealed_geology() {
    let mut v = PlanetPropertyVisibility::default();
    v.set(PlanetPropertyKey::GeologicalActivity, PropertyVisibility::Revealed);
    let evs = property_reveal_step(&mut v, 1, true, 0);
    assert_eq!(v.geological_activity, PropertyVisibility::Revealed);
    assert!(evs.is_empty());
}

#[test]
fn view_log_records_each_key_once() {
    let mut log = PlanetPropertyViewLog::new();
    assert!(!log.contains(PlanetPropertyKey::StellarDistance));
    log.record(PlanetPropertyKey::StellarDistance);
    log.record(PlanetPropertyKey::StellarDistance);
    log.record(PlanetPropertyKey::Temperature);
    assert!(log.contains(PlanetPropertyKey::StellarDistance));
    assert_eq!(log.viewed, vec![PlanetPropertyKey::StellarDistance, PlanetPropertyKey::Temperature]);
}

#[test]
fn catalog_name_of_zero_seed() {
    assert_eq!(catalog_name(0), "BRB-1000");
}

#[test]
fn catalog_name_of_example_seed() {
    // 12345 >> 4 = 771, 771 % 17 = 6 -> 'J'; 12345 >> 12 = 3 -> 'R';
    // 12345 >> 20 = 0 -> 'B'; 12345 % 9000 + 1000 = 4345.
    assert_eq!(catalog_name(12345), "JRB-4345");
}

#[test]
fn catalog_name_is_deterministic_and_four_digit() {
    for seed in [1u64, 7, 42, 99, 1000, 99999, u64::MAX] {
        let a = catalog_name(seed);
        assert_eq!(a, catalog_name(seed));
        assert_eq!(a.len(), 8);
        assert_eq!(&a[3..4], "-");
    }
}

#[test]
fn epithet_words_and_joining() {
    assert_eq!(epithet_word(PlanetPropertyKey::Temperature, true), "Frozen");
    assert_eq!(epithet_word(PlanetPropertyKey::WindIntensity, false), "Windswept");
    assert_eq!(epithet(&vec![]), "");
    assert_eq!(epithet(&vec![(PlanetPropertyKey::GeologicalActivity, false)]), "Geothermal");
    assert_eq!(
        epithet(&vec![
            (PlanetPropertyKey::Temperature, true),
            (PlanetPropertyKey::GeologicalActivity, false),
            (PlanetPropertyKey::WindIntensity, true),
        ]),
        "Frozen Geothermal"
    );
}

#[test]
fn qualitative_words_by_bucket() {
    assert_eq!(qualitative_word(PlanetPropertyKey::Temperature, 0), "Frigid");
    assert_eq!(qualitative_word(PlanetPropertyKey::StellarDistance, 4), "Faint");
    assert_eq!(qualitative_word(PlanetPropertyKey::AtmosphericOxygen, 4), "Super-Oxygenated");
    assert_eq!(qualitative_word(PlanetPropertyKey::HazardType, 2), "");
}

#[test]
fn names_and_hints() {
    assert_eq!(PlanetPropertyKey::AtmosphericOxygen.display_name(), "Atmospheric O\u{2082}");
    assert_eq!(PlanetPropertyKey::GeologicalActivity.hidden_hint(), "[Scan required]");
    assert_eq!(PlanetPropertyKey::Temperature.hidden_hint(), "");
    assert_eq!(PlanetPropertyKey::HazardType.power_hint(), "Drone exposure risk");
    assert_eq!(EnvironmentalHazard::ExoticRadiation.display(), "Exotic Radiation");
    assert_eq!(PlanetPropertyKey::all().len(), 7);
    assert_eq!(PlanetPropertyKey::all()[3], PlanetPropertyKey::HazardType);
}

#[test]
fn effect_hints_per_property() {
    assert_eq!(effect_hint(PlanetPropertyKey::StellarDistance), "Drives solar generator output here.");
    assert_eq!(effect_hint(PlanetPropertyKey::HazardType), "Operations outside aegis field are disrupted.");
    assert_eq!(hidden_effect_hint(PlanetPropertyKey::AtmosphericPressure), "Fluid pocket conditions unknown.");
    assert_eq!(hidden_effect_hint(PlanetPropertyKey::Temperature), "");
}

#[test]
fn hidden_row_shows_reveal_hint() {
    let v = PlanetPropertyVisibility::default();
    let row = property_row(PlanetPropertyKey::GeologicalActivity, &v, EnvironmentalHazard::ExoticRadiation, 2);
    assert!(row.dim);
    assert_eq!(row.title, "\u{25CB} Geological Activity");
    assert_eq!(row.hint, "Deep metals and geothermal sites unknown.");
}

#[test]
fn revealed_row_shows_bucket_word_and_hazard_name() {
    let v = PlanetPropertyVisibility::default();
    let row = property_row(PlanetPropertyKey::Temperature, &v, EnvironmentalHazard::ExoticRadiation, 4);
    assert!(!row.dim);
    assert_eq!(row.title, "\u{25CF} Surface Temperature");
    assert_eq!(row.label, "Scorching");
    assert_eq!(row.hint, "Affects cooling cost and ice deposits.");
    let hz = property_row(PlanetPropertyKey::HazardType, &v, EnvironmentalHazard::EmInterference, 0);
    assert_eq!(hz.label, "EM Interference");
}

fn viewed(keys: &[PlanetPropertyKey]) -> PlanetPropertyViewLog {
    let mut log = PlanetPropertyViewLog::new();
    for k in keys {
        log.record(*k);
    }
    log
}

// A planet close to its star (stellar distance 0.1): the solar modifier,
// 1.6 - 1.2 * 0.1 = 1.48, is at least 1.2.
const CLOSE_STAR: PowerBoosts = PowerBoosts { solar: true, combustion: false, geothermal: false, wind: false };
// Stellar distance 0.4: 1.6 - 1.2 * 0.4 = 1.12, below 1.2.
const FAR_STAR: PowerBoosts = PowerBoosts { solar: false, combustion: false, geothermal: false, wind: false };

#[test]
fn insight_beat_fires_when_modifier_high_and_property_viewed() {
    let log = viewed(&[PlanetPropertyKey::StellarDistance]);
    let d = insight_beat(false, &vec![Some(PowerProducerKind::Solar)], &log, CLOSE_STAR);
    let got: Vec<_> = d.validated.into_iter().collect();
    assert_eq!(got.len(), 1);
    assert_eq!(got[0].0, PlanetPropertyKey::StellarDistance);
    assert!(d.mark_fired);
}

#[test]
fn insight_beat_suppressed_when_property_not_viewed() {
    let d = insight_beat(false, &vec![Some(PowerProducerKind::Solar)], &viewed(&[]), CLOSE_STAR);
    assert_eq!(d.validated.into_iter().count(), 0);
}

#[test]
fn insight_beat_suppressed_when_modifier_below_threshold() {
    let log = viewed(&[PlanetPropertyKey::StellarDistance]);
    let d = insight_beat(false, &vec![Some(PowerProducerKind::Solar)], &log, FAR_STAR);
    assert_eq!(d.validated.into_iter().count(), 0);
}

#[test]
fn insight_beat_fires_once_and_waits_for_a_producer() {
    let log = viewed(&[PlanetPropertyKey::StellarDistance]);
    let none = insight_beat(false, &vec![None, None], &log, CLOSE_STAR);
    assert!(!none.mark_fired);
    assert!(none.validated.is_none());
    let first = insight_beat(false, &vec![None, Some(PowerProducerKind::Wind), Some(PowerProducerKind::Solar)], &log, CLOSE_STAR);
    assert!(first.mark_fired);
    assert!(first.validated.is_none());
    let again = insight_beat(true, &vec![Some(PowerProducerKind::Solar)], &log, CLOSE_STAR);
    assert!(!again.mark_fired);
    assert!(again.validated.is_none());
}

#[test]
fn panel_title_quotes_the_epithet() {
    assert_eq!(panel_title("KX-42", ""), "KX-42");
    assert_eq!(panel_title("KX-42", "The Frozen"), "KX-42  \"The Frozen\"");
}
