//! Planet identity: which properties the player can see, how scouting and
//! research reveal them, the words used to describe them, and the planet's
//! catalog name.

use vstd::prelude::*;
use crate::text::{decimal, push_decimal};

verus! {

/// How much of a planet property the player can see.
#[derive(Clone, Copy, Debug, PartialEq, Eq, Structural, Default)]
pub enum PropertyVisibility {
    #[default]
    Hidden,
    Qualitative,
    Revealed,
}

/// A planet property.
#[derive(Clone, Copy, Debug, PartialEq, Eq, Structural, Hash)]
pub enum PlanetPropertyKey {
    StellarDistance,
    AtmosphericOxygen,
    GeologicalActivity,
    Temperature,
    AtmosphericPressure,
    WindIntensity,
    HazardType,
}

/// The environmental hazard of a planet.
#[derive(Clone, Copy, Debug, PartialEq, Eq, Structural, Default)]
pub enum EnvironmentalHazard {
    #[default]
    EmInterference,
    CorrosiveParticulates,
    ExoticRadiation,
}

/// The name shown for a property.
pub open spec fn display_name_of(k: PlanetPropertyKey) -> Seq<char> {
    match k {
        PlanetPropertyKey::StellarDistance => "Solar Irradiance"@,
        PlanetPropertyKey::Temperature => "Surface Temperature"@,
        PlanetPropertyKey::WindIntensity => "Wind Intensity"@,
        PlanetPropertyKey::HazardType => "Environmental Hazard"@,
        PlanetPropertyKey::GeologicalActivity => "Geological Activity"@,
        PlanetPropertyKey::AtmosphericOxygen => "Atmospheric O\u{2082}"@,
        PlanetPropertyKey::AtmosphericPressure => "Atmospheric Pressure"@,
    }
}

/// What the player must do to see a hidden property (empty when nothing can).
pub open spec fn hidden_hint_of(k: PlanetPropertyKey) -> Seq<char> {
    match k {
        PlanetPropertyKey::GeologicalActivity => "[Scan required]"@,
        PlanetPropertyKey::AtmosphericOxygen => "[Sample required]"@,
        PlanetPropertyKey::AtmosphericPressure => "[Sample required]"@,
        _ => ""@,
    }
}

/// What a property bears on.
pub open spec fn power_hint_of(k: PlanetPropertyKey) -> Seq<char> {
    match k {
        PlanetPropertyKey::StellarDistance => "Solar power output"@,
        PlanetPropertyKey::AtmosphericOxygen => "Combustion power output"@,
        PlanetPropertyKey::GeologicalActivity => "Geothermal power viability"@,
        PlanetPropertyKey::WindIntensity => "Wind power output"@,
        PlanetPropertyKey::Temperature => "Thermal process efficiency"@,
        PlanetPropertyKey::AtmosphericPressure => "Pressure-dependent processes"@,
        PlanetPropertyKey::HazardType => "Drone exposure risk"@,
    }
}

impl PlanetPropertyKey {
    /// Every property, in the order the landing panel lists them.
    pub fn all() -> (r: [PlanetPropertyKey; 7])
        ensures
            r@ == seq![
                PlanetPropertyKey::StellarDistance,
                PlanetPropertyKey::Temperature,
                PlanetPropertyKey::WindIntensity,
                PlanetPropertyKey::HazardType,
                PlanetPropertyKey::GeologicalActivity,
                PlanetPropertyKey::AtmosphericOxygen,
                PlanetPropertyKey::AtmosphericPressure,
            ],
    {
        let r = [
            PlanetPropertyKey::StellarDistance,
            PlanetPropertyKey::Temperature,
            PlanetPropertyKey::WindIntensity,
            PlanetPropertyKey::HazardType,
            PlanetPropertyKey::GeologicalActivity,
            PlanetPropertyKey::AtmosphericOxygen,
            PlanetPropertyKey::AtmosphericPressure,
        ];
        assert(r@ =~= seq![
            PlanetPropertyKey::StellarDistance,
            PlanetPropertyKey::Temperature,
            PlanetPropertyKey::WindIntensity,
            PlanetPropertyKey::HazardType,
            PlanetPropertyKey::GeologicalActivity,
            PlanetPropertyKey::AtmosphericOxygen,
            PlanetPropertyKey::AtmosphericPressure,
        ]);
        r
    }

    /// The name shown for this property.
    pub fn display_name(self) -> (r: &'static str)
        ensures
            r@ == display_name_of(self),
    {
        match self {
            PlanetPropertyKey::StellarDistance => "Solar Irradiance",
            PlanetPropertyKey::Temperature => "Surface Temperature",
            PlanetPropertyKey::WindIntensity => "Wind Intensity",
            PlanetPropertyKey::HazardType => "Environmental Hazard",
            PlanetPropertyKey::GeologicalActivity => "Geological Activity",
            PlanetPropertyKey::AtmosphericOxygen => "Atmospheric O\u{2082}",
            PlanetPropertyKey::AtmosphericPressure => "Atmospheric Pressure",
        }
    }

    /// What the player must do to see this property while it is hidden.
    pub fn hidden_hint(self) -> (r: &'static str)
        ensures
            r@ == hidden_hint_of(self),
    {
        match self {
            PlanetPropertyKey::GeologicalActivity => "[Scan required]",
            PlanetPropertyKey::AtmosphericOxygen => "[Sample required]",
            PlanetPropertyKey::AtmosphericPressure => "[Sample required]",
            _ => "",
        }
    }

    /// What this property bears on.
    pub fn power_hint(self) -> (r: &'static str)
        ensures
            r@ == power_hint_of(self),
    {
        match self {
            PlanetPropertyKey::StellarDistance => "Solar power output",
            PlanetPropertyKey::AtmosphericOxygen => "Combustion power output",
            PlanetPropertyKey::GeologicalActivity => "Geothermal power viability",
            PlanetPropertyKey::WindIntensity => "Wind power output",
            PlanetPropertyKey::Temperature => "Thermal process efficiency",
            PlanetPropertyKey::AtmosphericPressure => "Pressure-dependent processes",
            PlanetPropertyKey::HazardType => "Drone exposure risk",
        }
    }
}

impl EnvironmentalHazard {
    /// The name shown for the hazard.
    pub fn display(self) -> (r: &'static str)
        ensures
            r@ == match self {
                EnvironmentalHazard::EmInterference => "EM Interference"@,
                EnvironmentalHazard::CorrosiveParticulates => "Corrosive Particulates"@,
                EnvironmentalHazard::ExoticRadiation => "Exotic Radiation"@,
            },
    {
        match self {
            EnvironmentalHazard::EmInterference => "EM Interference",
            EnvironmentalHazard::CorrosiveParticulates => "Corrosive Particulates",
            EnvironmentalHazard::ExoticRadiation => "Exotic Radiation",
        }
    }
}

/// How much of each property the player can see.
#[derive(Clone, Copy, Debug, PartialEq, Eq, Structural)]
pub struct PlanetPropertyVisibility {
    pub stellar_distance: PropertyVisibility,
    pub atmospheric_oxygen: PropertyVisibility,
    pub geological_activity: PropertyVisibility,
    pub temperature: PropertyVisibility,
    pub atmospheric_pressure: PropertyVisibility,
    pub wind_intensity: PropertyVisibility,
    pub hazard_type: PropertyVisibility,
}

impl PlanetPropertyVisibility {
    /// The visibility of property `key`.
    pub open spec fn at(self, key: PlanetPropertyKey) -> PropertyVisibility {
        match key {
            PlanetPropertyKey::StellarDistance => self.stellar_distance,
            PlanetPropertyKey::AtmosphericOxygen => self.atmospheric_oxygen,
            PlanetPropertyKey::GeologicalActivity => self.geological_activity,
            PlanetPropertyKey::Temperature => self.temperature,
            PlanetPropertyKey::AtmosphericPressure => self.atmospheric_pressure,
            PlanetPropertyKey::WindIntensity => self.wind_intensity,
            PlanetPropertyKey::HazardType => self.hazard_type,
        }
    }

    /// The visibility of property `key`.
    pub fn get(&self, key: PlanetPropertyKey) -> (r: PropertyVisibility)
        ensures
            r == self.at(key),
    {
        match key {
            PlanetPropertyKey::StellarDistance => self.stellar_distance,
            PlanetPropertyKey::AtmosphericOxygen => self.atmospheric_oxygen,
            PlanetPropertyKey::GeologicalActivity => self.geological_activity,
            PlanetPropertyKey::Temperature => self.temperature,
            PlanetPropertyKey::AtmosphericPressure => self.atmospheric_pressure,
            PlanetPropertyKey::WindIntensity => self.wind_intensity,
            PlanetPropertyKey::HazardType => self.hazard_type,
        }
    }

    /// Sets the visibility of property `key`; every other property keeps its own.
    pub fn set(&mut self, key: PlanetPropertyKey, value: PropertyVisibility)
        ensures
            final(self).at(key) == value,
            forall|k: PlanetPropertyKey| k != key ==> final(self).at(k) == old(self).at(k),
    {
        match key {
            PlanetPropertyKey::StellarDistance => self.stellar_distance = value,
            PlanetPropertyKey::AtmosphericOxygen => self.atmospheric_oxygen = value,
            PlanetPropertyKey::GeologicalActivity => self.geological_activity = value,
            PlanetPropertyKey::Temperature => self.temperature = value,
            PlanetPropertyKey::AtmosphericPressure => self.atmospheric_pressure = value,
            PlanetPropertyKey::WindIntensity => self.wind_intensity = value,
            PlanetPropertyKey::HazardType => self.hazard_type = value,
        }
    }
}

impl Default for PlanetPropertyVisibility {
    /// At landing, the sky-readable properties are qualitative, the hazard is
    /// known, and geology and the atmosphere are hidden.
    fn default() -> (v: Self)
        ensures
            v.stellar_distance == PropertyVisibility::Qualitative,
            v.atmospheric_oxygen == PropertyVisibility::Hidden,
            v.geological_activity == PropertyVisibility::Hidden,
            v.temperature == PropertyVisibility::Qualitative,
            v.atmospheric_pressure == PropertyVisibility::Hidden,
            v.wind_intensity == PropertyVisibility::Qualitative,
            v.hazard_type == PropertyVisibility::Revealed,
    {
        PlanetPropertyVisibility {
            stellar_distance: PropertyVisibility::Qualitative,
            atmospheric_oxygen: PropertyVisibility::Hidden,
            geological_activity: PropertyVisibility::Hidden,
            temperature: PropertyVisibility::Qualitative,
            atmospheric_pressure: PropertyVisibility::Hidden,
            wind_intensity: PropertyVisibility::Qualitative,
            hazard_type: PropertyVisibility::Revealed,
        }
    }
}

/// A change of one property's visibility.
#[derive(Clone, Copy, Debug, PartialEq, Eq, Structural)]
pub struct PlanetPropertyRevealed {
    pub property: PlanetPropertyKey,
    pub new_visibility: PropertyVisibility,
}

/// The visibility after one frame of scouting and research: fog cleared while
/// piloting the drone makes hidden geology qualitative; a tech node unlocked
/// through research reveals the atmosphere. Every other property is untouched.
pub open spec fn revealed_after(v: PlanetPropertyVisibility, scanned: bool, researched: bool) -> PlanetPropertyVisibility {
    let g = if scanned && v.geological_activity == PropertyVisibility::Hidden {
        PropertyVisibility::Qualitative
    } else {
        v.geological_activity
    };
    PlanetPropertyVisibility {
        geological_activity: g,
        atmospheric_oxygen: if researched { PropertyVisibility::Revealed } else { v.atmospheric_oxygen },
        atmospheric_pressure: if researched { PropertyVisibility::Revealed } else { v.atmospheric_pressure },
        ..v
    }
}

/// The changes one frame of scouting and research announces, in order.
pub open spec fn reveal_events(v: PlanetPropertyVisibility, scanned: bool, researched: bool) -> Seq<PlanetPropertyRevealed> {
    let geo = if scanned && v.geological_activity == PropertyVisibility::Hidden {
        seq![PlanetPropertyRevealed { property: PlanetPropertyKey::GeologicalActivity, new_visibility: PropertyVisibility::Qualitative }]
    } else {
        Seq::empty()
    };
    let oxy = if researched && v.atmospheric_oxygen != PropertyVisibility::Revealed {
        seq![PlanetPropertyRevealed { property: PlanetPropertyKey::AtmosphericOxygen, new_visibility: PropertyVisibility::Revealed }]
    } else {
        Seq::empty()
    };
    let pre = if researched && v.atmospheric_pressure != PropertyVisibility::Revealed {
        seq![PlanetPropertyRevealed { property: PlanetPropertyKey::AtmosphericPressure, new_visibility: PropertyVisibility::Revealed }]
    } else {
        Seq::empty()
    };
    geo + oxy + pre
}

/// Advances property visibility for one frame. `fog_cells` is the number of
/// fog cells cleared this frame, `in_drone_pilot` whether the player pilots
/// the drone, and `research_unlocks` the number of tech nodes unlocked through
/// research this frame. Returns the changes to announce; each fires once,
/// since a property already at its new level produces none.
pub fn property_reveal_step(vis: &mut PlanetPropertyVisibility, fog_cells: usize, in_drone_pilot: bool, research_unlocks: usize) -> (events: Vec<PlanetPropertyRevealed>)
    ensures
        *final(vis) == revealed_after(*old(vis), fog_cells > 0 && in_drone_pilot, research_unlocks > 0),
        events@ == reveal_events(*old(vis), fog_cells > 0 && in_drone_pilot, research_unlocks > 0),
        !(fog_cells > 0 && in_drone_pilot) ==> final(vis).geological_activity == old(vis).geological_activity
            && forall|i: int| 0 <= i < events@.len() ==> (#[trigger] events@[i]).property != PlanetPropertyKey::GeologicalActivity,
        research_unlocks == 0 ==> final(vis).atmospheric_oxygen == old(vis).atmospheric_oxygen
            && final(vis).atmospheric_pressure == old(vis).atmospheric_pressure,
{
    proof {
        lemma_reveal_follows_triggers(*vis, fog_cells > 0 && in_drone_pilot, research_unlocks > 0);
    }
    let scanned = fog_cells > 0 && in_drone_pilot;
    let researched = research_unlocks > 0;
    let ghost v0 = *vis;
    let mut events: Vec<PlanetPropertyRevealed> = Vec::new();
    if scanned && vis.geological_activity == PropertyVisibility::Hidden {
        vis.geological_activity = PropertyVisibility::Qualitative;
        events.push(PlanetPropertyRevealed {
            property: PlanetPropertyKey::GeologicalActivity,
            new_visibility: PropertyVisibility::Qualitative,
        });
    }
    let ghost e1 = events@;
    if researched {
        if vis.get(PlanetPropertyKey::AtmosphericOxygen) != PropertyVisibility::Revealed {
            vis.set(PlanetPropertyKey::AtmosphericOxygen, PropertyVisibility::Revealed);
            events.push(PlanetPropertyRevealed {
                property: PlanetPropertyKey::AtmosphericOxygen,
                new_visibility: PropertyVisibility::Revealed,
            });
        }
        let ghost e2 = events@;
        if vis.get(PlanetPropertyKey::AtmosphericPressure) != PropertyVisibility::Revealed {
            vis.set(PlanetPropertyKey::AtmosphericPressure, PropertyVisibility::Revealed);
            events.push(PlanetPropertyRevealed {
                property: PlanetPropertyKey::AtmosphericPressure,
                new_visibility: PropertyVisibility::Revealed,
            });
        }
        proof {
            assert(vis.at(PlanetPropertyKey::StellarDistance) == v0.stellar_distance);
            assert(vis.at(PlanetPropertyKey::Temperature) == v0.temperature);
            assert(vis.at(PlanetPropertyKey::WindIntensity) == v0.wind_intensity);
            assert(vis.at(PlanetPropertyKey::HazardType) == v0.hazard_type);
            assert(vis.at(PlanetPropertyKey::GeologicalActivity) == revealed_after(v0, scanned, researched).geological_activity);
            assert(vis.at(PlanetPropertyKey::AtmosphericOxygen) == PropertyVisibility::Revealed);
            assert(vis.at(PlanetPropertyKey::AtmosphericPressure) == PropertyVisibility::Revealed);
        }
    }
    proof {
        assert(events@ =~= reveal_events(v0, scanned, researched));
    }
    events
}

/// Revealing is idempotent: a second frame with the same scouting and
/// research changes nothing and announces nothing.
pub proof fn lemma_reveal_idempotent(v: PlanetPropertyVisibility, scanned: bool, researched: bool)
    ensures
        revealed_after(revealed_after(v, scanned, researched), scanned, researched) == revealed_after(v, scanned, researched),
        reveal_events(revealed_after(v, scanned, researched), scanned, researched).len() == 0,
{
}

/// A frame changes only what its triggers reach. Without a drone scan the
/// geology stays as it was and no geology change is announced; without
/// research the atmosphere stays as it was and only geology can be
/// announced; the other properties never change. A scan turns hidden geology
/// qualitative, research reveals the atmosphere, and every announced change
/// is a real change to the announced level.
pub proof fn lemma_reveal_follows_triggers(v: PlanetPropertyVisibility, scanned: bool, researched: bool)
    ensures
        ({
            let w = revealed_after(v, scanned, researched);
            let ev = reveal_events(v, scanned, researched);
            &&& !scanned ==> w.geological_activity == v.geological_activity
                && forall|i: int| 0 <= i < ev.len() ==> (#[trigger] ev[i]).property != PlanetPropertyKey::GeologicalActivity
            &&& !researched ==> w.atmospheric_oxygen == v.atmospheric_oxygen && w.atmospheric_pressure == v.atmospheric_pressure
                && forall|i: int| 0 <= i < ev.len() ==> (#[trigger] ev[i]).property == PlanetPropertyKey::GeologicalActivity
            &&& w.stellar_distance == v.stellar_distance && w.temperature == v.temperature
                && w.wind_intensity == v.wind_intensity && w.hazard_type == v.hazard_type
            &&& scanned && v.geological_activity == PropertyVisibility::Hidden ==> w.geological_activity == PropertyVisibility::Qualitative
            &&& v.geological_activity != PropertyVisibility::Hidden ==> w.geological_activity == v.geological_activity
            &&& researched ==> w.atmospheric_oxygen == PropertyVisibility::Revealed && w.atmospheric_pressure == PropertyVisibility::Revealed
            &&& forall|i: int| 0 <= i < ev.len() ==> w.at((#[trigger] ev[i]).property) == ev[i].new_visibility
                && v.at(ev[i].property) != ev[i].new_visibility
        }),
{
    let ev = reveal_events(v, scanned, researched);
    let w = revealed_after(v, scanned, researched);
    assert forall|i: int| 0 <= i < ev.len() implies w.at((#[trigger] ev[i]).property) == ev[i].new_visibility
        && v.at(ev[i].property) != ev[i].new_visibility
        && (!scanned ==> ev[i].property != PlanetPropertyKey::GeologicalActivity)
        && (!researched ==> ev[i].property == PlanetPropertyKey::GeologicalActivity) by {
    }
}

/// The properties the player has looked at, each once, in first-look order.
#[derive(Clone, Debug)]
pub struct PlanetPropertyViewLog {
    pub viewed: Vec<PlanetPropertyKey>,
}

impl PlanetPropertyViewLog {
    /// An empty log.
    pub fn new() -> (l: Self)
        ensures
            l.viewed@ == Seq::<PlanetPropertyKey>::empty(),
    {
        PlanetPropertyViewLog { viewed: Vec::new() }
    }

    /// Whether `key` has been looked at.
    pub fn contains(&self, key: PlanetPropertyKey) -> (b: bool)
        ensures
            b == self.viewed@.contains(key),
    {
        let mut i: usize = 0;
        while i < self.viewed.len()
            invariant
                i <= self.viewed@.len(),
                forall|j: int| 0 <= j < i ==> self.viewed@[j] != key,
            decreases self.viewed@.len() - i,
        {
            if self.viewed[i] == key {
                return true;
            }
            i += 1;
        }
        false
    }

    /// Notes that `key` was looked at; a key already in the log is not added again.
    pub fn record(&mut self, key: PlanetPropertyKey)
        ensures
            final(self).viewed@ == if old(self).viewed@.contains(key) { old(self).viewed@ } else { old(self).viewed@.push(key) },
    {
        if !self.contains(key) {
            self.viewed.push(key);
        }
    }
}

/// After recording a property, the log contains it, and a log without
/// repeats stays without repeats.
pub proof fn lemma_record_contains(before: Seq<PlanetPropertyKey>, key: PlanetPropertyKey)
    requires
        before.no_duplicates(),
    ensures
        ({
            let after = if before.contains(key) { before } else { before.push(key) };
            after.contains(key) && after.no_duplicates()
        }),
{
    if !before.contains(key) {
        let after = before.push(key);
        assert(after[before.len() as int] == key);
        assert forall|i: int, j: int| 0 <= i < after.len() && 0 <= j < after.len() && i != j implies after[i] != after[j] by {
            if i < before.len() && j < before.len() {
            } else if i < before.len() {
                assert(after[i] == before[i]);
                assert(before.contains(before[i]));
            } else {
                assert(after[j] == before[j]);
                assert(before.contains(before[j]));
            }
        }
    }
}

/// The consonants of catalog names.
pub open spec fn consonants() -> Seq<char> {
    seq!['B', 'C', 'D', 'F', 'G', 'H', 'J', 'K', 'M', 'P', 'Q', 'S', 'T', 'V', 'W', 'X', 'Z']
}

/// The middle letters of catalog names.
pub open spec fn middles() -> Seq<char> {
    seq!['R', 'L', 'N']
}

/// The catalog name of the planet grown from `seed`: a consonant picked by
/// bits 4 and up, a middle letter by bits 12 and up, a consonant by bits 20
/// and up, a hyphen, and a four-digit number from 1000 to 9999.
pub open spec fn catalog_of(seed: u64) -> Seq<char> {
    seq![
        consonants()[((seed / 16) % 17) as int],
        middles()[((seed / 4096) % 3) as int],
        consonants()[((seed / 1048576) % 17) as int],
        '-',
    ] + decimal((seed % 9000 + 1000) as nat)
}

fn consonant(i: u64) -> (c: char)
    requires
        i < 17,
    ensures
        c == consonants()[i as int],
{
    let t = ['B', 'C', 'D', 'F', 'G', 'H', 'J', 'K', 'M', 'P', 'Q', 'S', 'T', 'V', 'W', 'X', 'Z'];
    assert(t@ =~= consonants());
    t[i as usize]
}

/// The catalog name of the planet grown from `planet_seed`.
pub fn catalog_name(planet_seed: u64) -> (s: String)
    ensures
        s@ == catalog_of(planet_seed),
{
    let c1 = consonant((planet_seed >> 4) % 17);
    let m = (planet_seed >> 12) % 3;
    let v = if m == 0 { 'R' } else if m == 1 { 'L' } else { 'N' };
    let c3 = consonant((planet_seed >> 20) % 17);
    let num = planet_seed % 9000 + 1000;
    assert((planet_seed >> 4) == planet_seed / 16) by (bit_vector);
    assert((planet_seed >> 12) == planet_seed / 4096) by (bit_vector);
    assert((planet_seed >> 20) == planet_seed / 1048576) by (bit_vector);
    let mut s = String::new();
    s.push(c1);
    s.push(v);
    s.push(c3);
    s.push('-');
    let ghost head = s@;
    push_decimal(&mut s, num);
    proof {
        assert(head =~= seq![
            consonants()[((planet_seed / 16) % 17) as int],
            middles()[((planet_seed / 4096) % 3) as int],
            consonants()[((planet_seed / 1048576) % 17) as int],
            '-',
        ]);
    }
    s
}

/// The word for a property that stands out, on its low side or its high side.
pub open spec fn epithet_word_of(key: PlanetPropertyKey, low: bool) -> Seq<char> {
    match key {
        PlanetPropertyKey::Temperature => if low { "Frozen"@ } else { "Scorching"@ },
        PlanetPropertyKey::GeologicalActivity => if low { "Inert"@ } else { "Geothermal"@ },
        PlanetPropertyKey::StellarDistance => if low { "Radiant"@ } else { "Dim"@ },
        PlanetPropertyKey::AtmosphericOxygen => if low { "Anoxic"@ } else { "Oxygen-Rich"@ },
        PlanetPropertyKey::AtmosphericPressure => if low { "Thin-Air"@ } else { "Dense"@ },
        PlanetPropertyKey::WindIntensity => if low { "Calm"@ } else { "Windswept"@ },
        PlanetPropertyKey::HazardType => ""@,
    }
}

/// The word for a property that stands out, on its low side or its high side.
pub fn epithet_word(key: PlanetPropertyKey, low: bool) -> (r: &'static str)
    ensures
        r@ == epithet_word_of(key, low),
{
    match key {
        PlanetPropertyKey::Temperature => if low { "Frozen" } else { "Scorching" },
        PlanetPropertyKey::GeologicalActivity => if low { "Inert" } else { "Geothermal" },
        PlanetPropertyKey::StellarDistance => if low { "Radiant" } else { "Dim" },
        PlanetPropertyKey::AtmosphericOxygen => if low { "Anoxic" } else { "Oxygen-Rich" },
        PlanetPropertyKey::AtmosphericPressure => if low { "Thin-Air" } else { "Dense" },
        PlanetPropertyKey::WindIntensity => if low { "Calm" } else { "Windswept" },
        PlanetPropertyKey::HazardType => "",
    }
}

/// The epithet of a planet whose standout properties, most extreme first,
/// are `ranked`: empty with none, the first one's word with one, and the
/// first two words separated by a space otherwise.
pub open spec fn epithet_of(ranked: Seq<(PlanetPropertyKey, bool)>) -> Seq<char> {
    if ranked.len() == 0 {
        Seq::empty()
    } else if ranked.len() == 1 {
        epithet_word_of(ranked[0].0, ranked[0].1)
    } else {
        epithet_word_of(ranked[0].0, ranked[0].1) + seq![' '] + epithet_word_of(ranked[1].0, ranked[1].1)
    }
}

/// The epithet of a planet from its standout properties, most extreme first;
/// each entry says whether the property stands out on its low side.
pub fn epithet(ranked: &Vec<(PlanetPropertyKey, bool)>) -> (s: String)
    ensures
        s@ == epithet_of(ranked@),
{
    let mut s = String::new();
    if ranked.len() == 0 {
        return s;
    }
    crate::text::push_str(&mut s, epithet_word(ranked[0].0, ranked[0].1));
    if ranked.len() >= 2 {
        s.push(' ');
        crate::text::push_str(&mut s, epithet_word(ranked[1].0, ranked[1].1));
    }
    proof {
        assert(s@ =~= epithet_of(ranked@));
    }
    s
}

/// The five qualitative words for a property, lowest first (none for the hazard).
pub open spec fn qualitative_words(key: PlanetPropertyKey) -> Seq<Seq<char>> {
    match key {
        PlanetPropertyKey::Temperature => seq!["Frigid"@, "Cold"@, "Temperate"@, "Warm"@, "Scorching"@],
        PlanetPropertyKey::StellarDistance => seq!["Blazing"@, "Strong"@, "Moderate"@, "Dim"@, "Faint"@],
        PlanetPropertyKey::WindIntensity => seq!["Calm"@, "Gentle"@, "Moderate"@, "Strong"@, "Gale"@],
        PlanetPropertyKey::GeologicalActivity => seq!["Inert"@, "Quiet"@, "Active"@, "Volatile"@, "Hyperactive"@],
        PlanetPropertyKey::AtmosphericOxygen => seq!["Trace"@, "Scarce"@, "Standard"@, "Rich"@, "Super-Oxygenated"@],
        PlanetPropertyKey::AtmosphericPressure => seq!["Vacuum"@, "Thin"@, "Standard"@, "Dense"@, "Crushing"@],
        PlanetPropertyKey::HazardType => seq![""@, ""@, ""@, ""@, ""@],
    }
}

/// The qualitative word for a property whose value falls in fifth `bucket`
/// (0 for the lowest fifth, 4 for the highest).
pub fn qualitative_word(key: PlanetPropertyKey, bucket: usize) -> (r: &'static str)
    requires
        bucket < 5,
    ensures
        r@ == qualitative_words(key)[bucket as int],
{
    let words: [&'static str; 5] = match key {
        PlanetPropertyKey::Temperature => ["Frigid", "Cold", "Temperate", "Warm", "Scorching"],
        PlanetPropertyKey::StellarDistance => ["Blazing", "Strong", "Moderate", "Dim", "Faint"],
        PlanetPropertyKey::WindIntensity => ["Calm", "Gentle", "Moderate", "Strong", "Gale"],
        PlanetPropertyKey::GeologicalActivity => ["Inert", "Quiet", "Active", "Volatile", "Hyperactive"],
        PlanetPropertyKey::AtmosphericOxygen => ["Trace", "Scarce", "Standard", "Rich", "Super-Oxygenated"],
        PlanetPropertyKey::AtmosphericPressure => ["Vacuum", "Thin", "Standard", "Dense", "Crushing"],
        PlanetPropertyKey::HazardType => ["", "", "", "", ""],
    };
    assert(words@.map_values(|w: &'static str| w@) =~= qualitative_words(key));
    assert(words@[bucket as int]@ == words@.map_values(|w: &'static str| w@)[bucket as int]);
    words[bucket]
}

/// What a revealed property's row says it bears on.
pub open spec fn effect_hint_of(k: PlanetPropertyKey) -> Seq<char> {
    match k {
        PlanetPropertyKey::StellarDistance => "Drives solar generator output here."@,
        PlanetPropertyKey::Temperature => "Affects cooling cost and ice deposits."@,
        PlanetPropertyKey::WindIntensity => "Wind generation viability."@,
        PlanetPropertyKey::HazardType => "Operations outside aegis field are disrupted."@,
        PlanetPropertyKey::GeologicalActivity => "Geothermal sites and deep metals."@,
        PlanetPropertyKey::AtmosphericOxygen => "Combustion and material chemistry."@,
        PlanetPropertyKey::AtmosphericPressure => "Fluid pocket and pump conditions."@,
    }
}

/// What a hidden property's row says is unknown (empty when nothing).
pub open spec fn hidden_effect_hint_of(k: PlanetPropertyKey) -> Seq<char> {
    match k {
        PlanetPropertyKey::GeologicalActivity => "Deep metals and geothermal sites unknown."@,
        PlanetPropertyKey::AtmosphericOxygen => "Combustion and material chemistry unknown."@,
        PlanetPropertyKey::AtmosphericPressure => "Fluid pocket conditions unknown."@,
        _ => ""@,
    }
}

/// What a revealed property bears on.
pub fn effect_hint(key: PlanetPropertyKey) -> (r: &'static str)
    ensures
        r@ == effect_hint_of(key),
{
    match key {
        PlanetPropertyKey::StellarDistance => "Drives solar generator output here.",
        PlanetPropertyKey::Temperature => "Affects cooling cost and ice deposits.",
        PlanetPropertyKey::WindIntensity => "Wind generation viability.",
        PlanetPropertyKey::HazardType => "Operations outside aegis field are disrupted.",
        PlanetPropertyKey::GeologicalActivity => "Geothermal sites and deep metals.",
        PlanetPropertyKey::AtmosphericOxygen => "Combustion and material chemistry.",
        PlanetPropertyKey::AtmosphericPressure => "Fluid pocket and pump conditions.",
    }
}

/// What is unknown while a property is hidden.
pub fn hidden_effect_hint(key: PlanetPropertyKey) -> (r: &'static str)
    ensures
        r@ == hidden_effect_hint_of(key),
{
    match key {
        PlanetPropertyKey::GeologicalActivity => "Deep metals and geothermal sites unknown.",
        PlanetPropertyKey::AtmosphericOxygen => "Combustion and material chemistry unknown.",
        PlanetPropertyKey::AtmosphericPressure => "Fluid pocket conditions unknown.",
        _ => "",
    }
}

/// The text of one landing-panel row.
#[derive(Clone, Debug)]
pub struct RowText {
    /// A bullet (hollow while hidden) and the property's name.
    pub title: String,
    /// The qualitative word, the hazard's name, or the hint of how to reveal it.
    pub label: String,
    /// What the property bears on, or what is unknown while hidden.
    pub hint: String,
    /// Whether the label is drawn dimmed (while hidden).
    pub dim: bool,
}

/// A property row: a hidden property shows a hollow bullet, the way to reveal
/// it and what stays unknown; otherwise a filled bullet, its qualitative word
/// for the value's fifth `bucket` (the hazard shows its name) and what it
/// bears on.
pub fn property_row(key: PlanetPropertyKey, vis: &PlanetPropertyVisibility, hazard: EnvironmentalHazard, bucket: usize) -> (r: RowText)
    requires
        bucket < 5,
    ensures
        r.dim == (vis.at(key) == PropertyVisibility::Hidden),
        r.title@ == (if r.dim { seq!['\u{25CB}', ' '] } else { seq!['\u{25CF}', ' '] }) + display_name_of(key),
        r.dim ==> r.label@ == hidden_hint_of(key) && r.hint@ == hidden_effect_hint_of(key),
        !r.dim ==> r.hint@ == effect_hint_of(key) && r.label@ == if key == PlanetPropertyKey::HazardType {
            match hazard {
                EnvironmentalHazard::EmInterference => "EM Interference"@,
                EnvironmentalHazard::CorrosiveParticulates => "Corrosive Particulates"@,
                EnvironmentalHazard::ExoticRadiation => "Exotic Radiation"@,
            }
        } else {
            qualitative_words(key)[bucket as int]
        },
{
    let hidden = vis.get(key) == PropertyVisibility::Hidden;
    let mut title = String::new();
    title.push(if hidden { '\u{25CB}' } else { '\u{25CF}' });
    title.push(' ');
    let ghost head = title@;
    crate::text::push_str(&mut title, key.display_name());
    if hidden {
        return RowText { title, label: crate::text::owned(key.hidden_hint()), hint: crate::text::owned(hidden_effect_hint(key)), dim: true };
    }
    let label = if key == PlanetPropertyKey::HazardType {
        crate::text::owned(hazard.display())
    } else {
        crate::text::owned(qualitative_word(key, bucket))
    };
    RowText { title, label, hint: crate::text::owned(effect_hint(key)), dim: false }
}

/// The kinds of power producer a built machine can be.
#[derive(Clone, Copy, Debug, PartialEq, Eq, Structural)]
pub enum PowerProducerKind {
    Solar,
    Combustion,
    Geothermal,
    Wind,
}

/// The planet property that governs a producer's output.
pub open spec fn governing_property_of(kind: PowerProducerKind) -> PlanetPropertyKey {
    match kind {
        PowerProducerKind::Solar => PlanetPropertyKey::StellarDistance,
        PowerProducerKind::Combustion => PlanetPropertyKey::AtmosphericOxygen,
        PowerProducerKind::Geothermal => PlanetPropertyKey::GeologicalActivity,
        PowerProducerKind::Wind => PlanetPropertyKey::WindIntensity,
    }
}

/// The planet property that governs a producer's output.
pub fn governing_property(kind: PowerProducerKind) -> (r: PlanetPropertyKey)
    ensures
        r == governing_property_of(kind),
{
    match kind {
        PowerProducerKind::Solar => PlanetPropertyKey::StellarDistance,
        PowerProducerKind::Combustion => PlanetPropertyKey::AtmosphericOxygen,
        PowerProducerKind::Geothermal => PlanetPropertyKey::GeologicalActivity,
        PowerProducerKind::Wind => PlanetPropertyKey::WindIntensity,
    }
}

/// For each producer kind, whether this planet boosts it well above par
/// (its environmental modifier is at least 1.2).
#[derive(Clone, Copy, Debug)]
pub struct PowerBoosts {
    pub solar: bool,
    pub combustion: bool,
    pub geothermal: bool,
    pub wind: bool,
}

/// Whether `kind` is boosted on this planet.
pub open spec fn boosted(b: PowerBoosts, kind: PowerProducerKind) -> bool {
    match kind {
        PowerProducerKind::Solar => b.solar,
        PowerProducerKind::Combustion => b.combustion,
        PowerProducerKind::Geothermal => b.geothermal,
        PowerProducerKind::Wind => b.wind,
    }
}

/// The words a producer kind's power hint opens with.
pub open spec fn producer_power_label(kind: PowerProducerKind) -> Seq<char> {
    match kind {
        PowerProducerKind::Solar => "Solar power"@,
        PowerProducerKind::Combustion => "Combustion power"@,
        PowerProducerKind::Geothermal => "Geothermal power"@,
        PowerProducerKind::Wind => "Wind power"@,
    }
}

/// A producer is governed by the property whose power hint names that
/// producer's power, and by no other property.
pub proof fn lemma_governing_property_named_by_hint(kind: PowerProducerKind, key: PlanetPropertyKey)
    ensures
        producer_power_label(kind).is_prefix_of(power_hint_of(governing_property_of(kind))),
        producer_power_label(kind).is_prefix_of(power_hint_of(key)) ==> key == governing_property_of(kind),
{
    reveal_strlit("Solar power");
    reveal_strlit("Combustion power");
    reveal_strlit("Geothermal power");
    reveal_strlit("Wind power");
    reveal_strlit("Solar power output");
    reveal_strlit("Combustion power output");
    reveal_strlit("Geothermal power viability");
    reveal_strlit("Wind power output");
    reveal_strlit("Thermal process efficiency");
    reveal_strlit("Pressure-dependent processes");
    reveal_strlit("Drone exposure risk");
    let label = producer_power_label(kind);
    let hint = power_hint_of(governing_property_of(kind));
    assert(label =~= hint.subrange(0, label.len() as int));
    if label.is_prefix_of(power_hint_of(key)) {
        assert(label[0] == power_hint_of(key)[0]);
    }
}

/// The kind of the first power producer among the machines built this frame
/// (`None` stands for a machine that produces no power).
pub open spec fn first_power(built: Seq<Option<PowerProducerKind>>) -> Option<PowerProducerKind>
    decreases built.len(),
{
    if built.len() == 0 {
        None
    } else if built[0] is Some {
        built[0]
    } else {
        first_power(built.drop_first())
    }
}

/// What the insight beat does in one frame.
#[derive(Clone, Copy, Debug)]
pub struct InsightDecision {
    /// Whether the beat is now spent (the player is marked).
    pub mark_fired: bool,
    /// The property and producer that the player's decision is validated on, if any.
    pub validated: Option<(PlanetPropertyKey, PowerProducerKind)>,
}

/// The insight beat: once per run, the first power producer built decides
/// it. If the planet boosts that producer and the player has looked at the
/// property that governs it, the decision is validated. A beat already
/// spent, or a frame without a power producer, does nothing.
pub fn insight_beat(already_fired: bool, built: &Vec<Option<PowerProducerKind>>, log: &PlanetPropertyViewLog, boosts: PowerBoosts) -> (r: InsightDecision)
    ensures
        already_fired ==> !r.mark_fired && r.validated is None,
        !already_fired ==> match first_power(built@) {
            None => !r.mark_fired && r.validated is None,
            Some(k) => r.mark_fired && r.validated == if boosted(boosts, k)
                && log.viewed@.contains(governing_property_of(k)) {
                Some((governing_property_of(k), k))
            } else {
                None::<(PlanetPropertyKey, PowerProducerKind)>
            },
        },
{
    if already_fired {
        return InsightDecision { mark_fired: false, validated: None };
    }
    let mut i: usize = 0;
    assert(built@.subrange(0, built@.len() as int) =~= built@);
    while i < built.len()
        invariant
            !already_fired,
            i <= built@.len(),
            first_power(built@) == first_power(built@.subrange(i as int, built@.len() as int)),
        decreases built@.len() - i,
    {
        let ghost rest = built@.subrange(i as int, built@.len() as int);
        assert(rest.drop_first() =~= built@.subrange(i + 1, built@.len() as int));
        if let Some(kind) = built[i] {
            let property = governing_property(kind);
            let on = match kind {
                PowerProducerKind::Solar => boosts.solar,
                PowerProducerKind::Combustion => boosts.combustion,
                PowerProducerKind::Geothermal => boosts.geothermal,
                PowerProducerKind::Wind => boosts.wind,
            };
            let validated = if on && log.contains(property) { Some((property, kind)) } else { None };
            return InsightDecision { mark_fired: true, validated };
        }
        i += 1;
    }
    assert(built@.subrange(built@.len() as int, built@.len() as int).len() == 0);
    InsightDecision { mark_fired: false, validated: None }
}

/// The landing panel's title: the catalog name, followed by two spaces and
/// the quoted epithet when the planet has one.
pub fn panel_title(catalog: &str, epithet: &str) -> (r: String)
    ensures
        r@ == if epithet@.len() == 0 { catalog@ } else { catalog@ + "  \""@ + epithet@ + "\""@ },
{
    let mut r = crate::text::owned(catalog);
    if epithet.unicode_len() > 0 {
        crate::text::push_str(&mut r, "  \"");
        crate::text::push_str(&mut r, epithet);
        crate::text::push_str(&mut r, "\"");
    }
    r
}

} // verus!
