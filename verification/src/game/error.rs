//! The errors the game's rules can raise.
use vstd::prelude::*;

use crate::game::alignment::Alignment;
use crate::game::city::CityID;
use crate::game::move_::MoveError;
use crate::game::player::PlayerNum;
use crate::game::unit::{TransportMode, UnitID};
use crate::game::{TurnNum, TurnPhase};
use crate::util::Location;

verus! {

#[derive(Clone, Debug, PartialEq, Eq, Structural)]
pub enum GameError {
    WrongPhase { player: PlayerNum, turn: TurnNum, phase: TurnPhase },
    NoPlayerSlotsAvailable,
    NoSuchPlayer { player: PlayerNum },
    NotPlayersTurn { player: PlayerNum },
    NoPlayerIdentifiedBySecret,
    NoSuchUnit { id: UnitID },
    NoUnitAtLocation { loc: Location },
    NoSuchCity { id: CityID },
    NoCityAtLocation { loc: Location },
    NoTileAtLocation { loc: Location },
    UnitNotControlledByCurrentPlayer,
    UnitHasNoCarryingSpace { carrier_id: UnitID },
    WrongTransportMode {
        carried_id: UnitID,
        carrier_transport_mode: TransportMode,
        carried_transport_mode: TransportMode,
    },
    InsufficientCarryingSpace { carried_id: UnitID },
    OnlyAlliesCarry { carried_id: UnitID, carrier_alignment: Alignment, carried_alignment: Alignment },
    CannotOccupyGarrisonedCity { occupier_unit_id: UnitID, city_id: CityID, garrisoned_unit_id: UnitID },
    MoveError(MoveError),
    TurnEndRequirementsNotMet { player: PlayerNum },
}

} // verus!
