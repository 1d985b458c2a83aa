//! The debug overlays the player cycles through with a key press.

use vstd::prelude::*;

verus! {

/// The world-debug overlay shown.
#[derive(Clone, Copy, Debug, PartialEq, Eq, Structural, Default)]
pub enum DebugOverlay {
    #[default]
    Off,
    Chunks,
    Veins,
    Biomes,
}

/// The overlay after one press of the cycle key.
pub open spec fn next_debug(o: DebugOverlay) -> DebugOverlay {
    match o {
        DebugOverlay::Off => DebugOverlay::Chunks,
        DebugOverlay::Chunks => DebugOverlay::Veins,
        DebugOverlay::Veins => DebugOverlay::Biomes,
        DebugOverlay::Biomes => DebugOverlay::Off,
    }
}

impl DebugOverlay {
    /// The next overlay: off, chunks, veins, biomes, and off again.
    pub fn cycle(self) -> (r: Self)
        ensures
            r == next_debug(self),
    {
        match self {
            DebugOverlay::Off => DebugOverlay::Chunks,
            DebugOverlay::Chunks => DebugOverlay::Veins,
            DebugOverlay::Veins => DebugOverlay::Biomes,
            DebugOverlay::Biomes => DebugOverlay::Off,
        }
    }

    /// The name shown for the overlay.
    pub fn label(self) -> (r: &'static str)
        ensures
            r@ == match self {
                DebugOverlay::Off => "Off"@,
                DebugOverlay::Chunks => "Chunks"@,
                DebugOverlay::Veins => "Veins"@,
                DebugOverlay::Biomes => "Biomes"@,
            },
    {
        match self {
            DebugOverlay::Off => "Off",
            DebugOverlay::Chunks => "Chunks",
            DebugOverlay::Veins => "Veins",
            DebugOverlay::Biomes => "Biomes",
        }
    }
}

/// The network overlay shown.
#[derive(Clone, Copy, Debug, PartialEq, Eq, Structural, Default)]
pub enum NetworkOverlay {
    #[default]
    Off,
    Power,
    Logistics,
}

/// The network overlay after one press of its cycle key.
pub open spec fn next_network(o: NetworkOverlay) -> NetworkOverlay {
    match o {
        NetworkOverlay::Off => NetworkOverlay::Power,
        NetworkOverlay::Power => NetworkOverlay::Logistics,
        NetworkOverlay::Logistics => NetworkOverlay::Off,
    }
}

impl NetworkOverlay {
    /// The next overlay: off, power, logistics, and off again.
    pub fn cycle(self) -> (r: Self)
        ensures
            r == next_network(self),
    {
        match self {
            NetworkOverlay::Off => NetworkOverlay::Power,
            NetworkOverlay::Power => NetworkOverlay::Logistics,
            NetworkOverlay::Logistics => NetworkOverlay::Off,
        }
    }

    /// The name shown for the overlay.
    pub fn label(self) -> (r: &'static str)
        ensures
            r@ == match self {
                NetworkOverlay::Off => "Off"@,
                NetworkOverlay::Power => "Power"@,
                NetworkOverlay::Logistics => "Logistics"@,
            },
    {
        match self {
            NetworkOverlay::Off => "Off",
            NetworkOverlay::Power => "Power",
            NetworkOverlay::Logistics => "Logistics",
        }
    }
}

/// Cycling visits every overlay: four presses bring the debug overlay back,
/// and fewer never do.
pub proof fn lemma_debug_cycle_period(o: DebugOverlay)
    ensures
        next_debug(next_debug(next_debug(next_debug(o)))) == o,
        next_debug(o) != o,
        next_debug(next_debug(o)) != o,
        next_debug(next_debug(next_debug(o))) != o,
{
}

/// Three presses bring the network overlay back, and fewer never do.
pub proof fn lemma_network_cycle_period(o: NetworkOverlay)
    ensures
        next_network(next_network(next_network(o))) == o,
        next_network(o) != o,
        next_network(next_network(o)) != o,
{
}

} // verus!
