//! The game's rules and state.
pub mod action;
pub mod ai;
pub mod alignment;
pub mod city;
pub mod combat;
pub mod engine;
pub mod error;
pub mod features;
pub mod grid;
pub mod map;
pub mod map_index;
pub mod map_text;
pub mod move_;
pub mod obs;
pub mod orders;
pub mod paths;
pub mod player;
pub mod terrain;
pub mod tile;
pub mod unit;

pub use self::engine::{Game, PlayerSecret};

use vstd::prelude::*;

use crate::game::city::City;
use crate::game::obs::{LocatedObs, LocatedObsLite};
use crate::game::player::PlayerNum;
use crate::game::unit::{Unit, UnitType};

verus! {

/// What turn is it? The round of play, in other words.
pub type TurnNum = u64;

/// The global count of actions taken in the game.
pub type ActionNum = u64;

#[derive(Clone, Copy, Debug, PartialEq, Eq, Structural)]
pub enum TurnPhase {
    Pre,
    Main,
}

/// A city's production was cleared: what it had been producing, and what the player now sees there.
#[derive(Clone, Debug)]
pub struct ProductionCleared {
    pub prior_production: Option<UnitType>,
    pub obs: LocatedObsLite,
}

/// What a player learns as its turn begins: the turn, whose it is, what came of the player's cities' production,
/// and the observations its cities and units made.
#[derive(Debug)]
pub struct TurnStart {
    pub turn: TurnNum,
    pub current_player: PlayerNum,
    pub production_outcomes: Vec<UnitProductionOutcome>,
    pub observations: Vec<LocatedObs>,
}

/// A unit was disbanded: the unit, and what the player now sees where it stood.
#[derive(Clone, Debug)]
pub struct UnitDisbanded {
    pub unit: Unit,
    pub obs: LocatedObsLite,
}

/// What came of a city's production at the start of a turn.
#[derive(Clone, Debug)]
pub enum UnitProductionOutcome {
    UnitProduced {
        /// A copy of the unit that was produced
        unit: Unit,
        /// A copy of the city that did the producing
        city: City,
    },
    UnitAlreadyPresent {
        /// A copy of the unit that's already present
        prior_unit: Unit,
        /// The type of unit the city is trying to produce
        unit_type_under_production: UnitType,
        /// A copy of the city that would have produced the unit if a unit weren't already present
        city: City,
    },
}

} // verus!
