//! The closed sets of world, local and player variables.

use vstd::prelude::*;

verus! {

/// A variable of the whole world.
#[derive(Debug, Copy, Clone, PartialEq, Eq, Structural)]
pub enum WorldVariable {
    Year,
    Population,
    Emissions,
    ExtinctionRate,
    Outlook,
    Temperature,
    WaterStress,
    SeaLevelRise,
    Precipitation,
}

/// A variable of one region.
#[derive(Debug, Copy, Clone, PartialEq, Eq, Structural)]
pub enum LocalVariable {
    Population,
    Outlook,
    Habitability,
}

/// A variable of the player.
#[derive(Debug, Copy, Clone, PartialEq, Eq, Structural)]
pub enum PlayerVariable {
    PoliticalCapital,
}

} // verus!
