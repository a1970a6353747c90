//! Units and their capabilities.
use vstd::prelude::*;

use crate::game::alignment::{Aligned, AlignedMaybe, Alignment};
use crate::game::error::GameError;
use crate::game::move_::MoveError;
use crate::game::orders::Orders;
use crate::game::terrain::Terrain;
use crate::game::tile::Tile;
use crate::util::{Located, Location, decimal, spec_decimal};

verus! {

#[derive(Clone, Copy, Debug, PartialEq, Eq, Hash, PartialOrd, Ord, Structural)]
pub struct UnitID {
    pub id: u64,
}

impl UnitID {
    pub fn new(id: u64) -> (r: UnitID)
        ensures
            r.id == id,
    {
        UnitID { id }
    }

    pub fn next(self) -> (r: UnitID)
        requires
            self.id < u64::MAX,
        ensures
            r.id == self.id + 1,
    {
        UnitID { id: self.id + 1 }
    }

    /// The first unit ID handed out.
    pub fn default() -> (r: UnitID)
        ensures
            r.id == 0,
    {
        UnitID { id: 0 }
    }
}

#[derive(Clone, Copy, Debug, PartialEq, Eq, Hash, Structural)]
pub enum TransportMode {
    Land,
    Sea,
    Air,
}

impl TransportMode {
    pub open spec fn spec_can_traverse(self, terrain: Terrain) -> bool {
        match self {
            TransportMode::Land => terrain == Terrain::Land,
            TransportMode::Sea => terrain == Terrain::Water,
            TransportMode::Air => true,
        }
    }

    /// Can a unit with this transport mode operate on terrain of the given type?
    pub fn can_traverse(&self, terrain: Terrain) -> (b: bool)
        ensures
            b == self.spec_can_traverse(terrain),
    {
        match self {
            TransportMode::Land => terrain == Terrain::Land,
            TransportMode::Sea => terrain == Terrain::Water,
            TransportMode::Air => terrain == Terrain::Land || terrain == Terrain::Water,
        }
    }

    pub open spec fn spec_default_terrain(self) -> Terrain {
        match self {
            TransportMode::Sea => Terrain::Water,
            _ => Terrain::Land,
        }
    }

    pub fn default_terrain(&self) -> (t: Terrain)
        ensures
            t == self.spec_default_terrain(),
    {
        match self {
            TransportMode::Land => Terrain::Land,
            TransportMode::Sea => Terrain::Water,
            TransportMode::Air => Terrain::Land,
        }
    }
}

pub const POSSIBLE_UNIT_TYPES: usize = 10;

/// How many unit types there are, counting city as a unit type.
pub const POSSIBLE_UNIT_TYPES_WRIT_LARGE: usize = 11;

#[derive(Clone, Copy, Debug, PartialEq, Eq, Hash, Structural)]
pub enum UnitType {
    Infantry,
    Armor,
    Fighter,
    Bomber,
    Transport,
    Destroyer,
    Submarine,
    Cruiser,
    Battleship,
    Carrier,
}

pub open spec fn spec_unit_type_values() -> Seq<UnitType> {
    seq![
        UnitType::Infantry,
        UnitType::Armor,
        UnitType::Fighter,
        UnitType::Bomber,
        UnitType::Transport,
        UnitType::Destroyer,
        UnitType::Submarine,
        UnitType::Cruiser,
        UnitType::Battleship,
        UnitType::Carrier,
    ]
}

impl UnitType {
    /// Every unit type, in a fixed order.
    pub fn values() -> (v: [UnitType; 10])
        ensures
            v@ == spec_unit_type_values(),
    {
        [
            UnitType::Infantry,
            UnitType::Armor,
            UnitType::Fighter,
            UnitType::Bomber,
            UnitType::Transport,
            UnitType::Destroyer,
            UnitType::Submarine,
            UnitType::Cruiser,
            UnitType::Battleship,
            UnitType::Carrier,
        ]
    }

    /// The position of this type in `values`.
    pub open spec fn spec_index(self) -> int {
        match self {
            UnitType::Infantry => 0,
            UnitType::Armor => 1,
            UnitType::Fighter => 2,
            UnitType::Bomber => 3,
            UnitType::Transport => 4,
            UnitType::Destroyer => 5,
            UnitType::Submarine => 6,
            UnitType::Cruiser => 7,
            UnitType::Battleship => 8,
            UnitType::Carrier => 9,
        }
    }

    pub open spec fn spec_max_hp(self) -> u16 {
        match self {
            UnitType::Infantry | UnitType::Fighter => 1,
            UnitType::Armor | UnitType::Bomber | UnitType::Destroyer | UnitType::Submarine => 2,
            UnitType::Transport => 3,
            UnitType::Cruiser => 4,
            UnitType::Battleship => 8,
            UnitType::Carrier => 6,
        }
    }

    pub fn max_hp(self) -> (hp: u16)
        ensures
            hp == self.spec_max_hp(),
    {
        match self {
            UnitType::Infantry | UnitType::Fighter => 1,
            UnitType::Armor | UnitType::Bomber | UnitType::Destroyer | UnitType::Submarine => 2,
            UnitType::Transport => 3,
            UnitType::Cruiser => 4,
            UnitType::Battleship => 8,
            UnitType::Carrier => 6,
        }
    }

    pub open spec fn spec_cost(self) -> u16 {
        match self {
            UnitType::Infantry => 6,
            UnitType::Armor => 11,
            UnitType::Fighter => 12,
            UnitType::Bomber => 18,
            UnitType::Destroyer | UnitType::Submarine => 24,
            UnitType::Transport => 30,
            UnitType::Cruiser => 36,
            UnitType::Carrier => 48,
            UnitType::Battleship => 60,
        }
    }

    /// The number of turns a city must dedicate its production to this type to produce one unit of it.
    pub fn cost(self) -> (c: u16)
        ensures
            c == self.spec_cost(),
    {
        match self {
            UnitType::Infantry => 6,
            UnitType::Armor => 11,
            UnitType::Fighter => 12,
            UnitType::Bomber => 18,
            UnitType::Destroyer | UnitType::Submarine => 24,
            UnitType::Transport => 30,
            UnitType::Cruiser => 36,
            UnitType::Carrier => 48,
            UnitType::Battleship => 60,
        }
    }

    pub open spec fn spec_key(self) -> char {
        match self {
            UnitType::Infantry => 'i',
            UnitType::Armor => 'a',
            UnitType::Fighter => 'f',
            UnitType::Bomber => 'b',
            UnitType::Transport => 't',
            UnitType::Destroyer => 'd',
            UnitType::Submarine => 's',
            UnitType::Cruiser => 'c',
            UnitType::Battleship => 'p',
            UnitType::Carrier => 'k',
        }
    }

    pub fn key(self) -> (c: char)
        ensures
            c == self.spec_key(),
    {
        match self {
            UnitType::Infantry => 'i',
            UnitType::Armor => 'a',
            UnitType::Fighter => 'f',
            UnitType::Bomber => 'b',
            UnitType::Transport => 't',
            UnitType::Destroyer => 'd',
            UnitType::Submarine => 's',
            UnitType::Cruiser => 'c',
            UnitType::Battleship => 'p',
            UnitType::Carrier => 'k',
        }
    }

    pub open spec fn spec_sight_distance(self) -> u16 {
        match self {
            UnitType::Infantry | UnitType::Armor | UnitType::Transport => 2,
            UnitType::Destroyer | UnitType::Submarine | UnitType::Cruiser => 3,
            _ => 4,
        }
    }

    pub fn sight_distance(self) -> (d: u16)
        ensures
            d == self.spec_sight_distance(),
    {
        match self {
            UnitType::Infantry | UnitType::Armor | UnitType::Transport => 2,
            UnitType::Destroyer | UnitType::Submarine | UnitType::Cruiser => 3,
            UnitType::Fighter | UnitType::Bomber | UnitType::Battleship | UnitType::Carrier => 4,
        }
    }

    /// The unit type whose key is `c`, if any.
    pub fn try_from_key(c: char) -> (r: Result<UnitType, ()>)
        ensures
            r matches Ok(t) ==> t.spec_key() == c,
            r is Err <==> (forall|t: UnitType| t.spec_key() != c),
    {
        let values = UnitType::values();
        let mut i: usize = 0;
        while i < 10
            invariant
                0 <= i <= 10,
                values@ == spec_unit_type_values(),
                forall|j: int| 0 <= j < i ==> (#[trigger] values@[j]).spec_key() != c,
            decreases 10 - i,
        {
            if values[i].key() == c {
                return Ok(values[i]);
            }
            i = i + 1;
        }
        proof {
            assert forall|t: UnitType| t.spec_key() != c by {
                assert(values@[t.spec_index()] == t);
            }
        }
        Err(())
    }

    /// Could a unit of this type move onto the tile (perhaps fighting to do so)?
    ///
    /// Always when a city is present; otherwise it depends on the terrain.
    pub open spec fn spec_can_move_on_tile(self, tile: Tile) -> bool {
        tile.city is Some || self.spec_transport_mode().spec_can_traverse(tile.terrain)
    }

    pub fn can_move_on_tile(self, tile: &Tile) -> (b: bool)
        ensures
            b == self.spec_can_move_on_tile(*tile),
    {
        tile.city.is_some() || self.transport_mode().can_traverse(tile.terrain)
    }

    pub open spec fn spec_can_occupy_tile(self, tile: Tile) -> bool {
        if tile.city is Some {
            self.spec_can_occupy_cities()
        } else {
            self.spec_transport_mode().spec_can_traverse(tile.terrain)
        }
    }

    /// Could a unit of this type actually occupy the tile (perhaps fighting to do so)?
    pub fn can_occupy_tile(self, tile: &Tile) -> (b: bool)
        ensures
            b == self.spec_can_occupy_tile(*tile),
    {
        if tile.city.is_some() {
            self.can_occupy_cities()
        } else {
            self.transport_mode().can_traverse(tile.terrain)
        }
    }

    pub open spec fn spec_name(self) -> Seq<char> {
        match self {
            UnitType::Infantry => "Infantry"@,
            UnitType::Armor => "Armor"@,
            UnitType::Fighter => "Fighter"@,
            UnitType::Bomber => "Bomber"@,
            UnitType::Transport => "Transport"@,
            UnitType::Destroyer => "Destroyer"@,
            UnitType::Submarine => "Submarine"@,
            UnitType::Cruiser => "Cruiser"@,
            UnitType::Battleship => "Battleship"@,
            UnitType::Carrier => "Carrier"@,
        }
    }

    pub fn name(self) -> (n: &'static str)
        ensures
            n@ == self.spec_name(),
    {
        match self {
            UnitType::Infantry => "Infantry",
            UnitType::Armor => "Armor",
            UnitType::Fighter => "Fighter",
            UnitType::Bomber => "Bomber",
            UnitType::Transport => "Transport",
            UnitType::Destroyer => "Destroyer",
            UnitType::Submarine => "Submarine",
            UnitType::Cruiser => "Cruiser",
            UnitType::Battleship => "Battleship",
            UnitType::Carrier => "Carrier",
        }
    }

    pub open spec fn spec_transport_mode(self) -> TransportMode {
        match self {
            UnitType::Infantry | UnitType::Armor => TransportMode::Land,
            UnitType::Fighter | UnitType::Bomber => TransportMode::Air,
            _ => TransportMode::Sea,
        }
    }

    pub fn transport_mode(self) -> (m: TransportMode)
        ensures
            m == self.spec_transport_mode(),
    {
        match self {
            UnitType::Infantry | UnitType::Armor => TransportMode::Land,
            UnitType::Fighter | UnitType::Bomber => TransportMode::Air,
            UnitType::Transport
            | UnitType::Destroyer
            | UnitType::Submarine
            | UnitType::Cruiser
            | UnitType::Battleship
            | UnitType::Carrier => TransportMode::Sea,
        }
    }

    pub open spec fn spec_carrying_capacity(self) -> usize {
        match self {
            UnitType::Carrier => 5,
            UnitType::Transport => 4,
            _ => 0,
        }
    }

    pub fn carrying_capacity(self) -> (c: usize)
        ensures
            c == self.spec_carrying_capacity(),
    {
        match self {
            UnitType::Carrier => 5,
            UnitType::Transport => 4,
            _ => 0,
        }
    }

    pub open spec fn spec_can_occupy_cities(self) -> bool {
        self.spec_transport_mode() == TransportMode::Land
    }

    /// Can this type of unit occupy cities?
    pub fn can_occupy_cities(self) -> (b: bool)
        ensures
            b == self.spec_can_occupy_cities(),
    {
        self.transport_mode() == TransportMode::Land
    }

    pub open spec fn spec_movement_per_turn(self) -> u16 {
        match self {
            UnitType::Infantry | UnitType::Battleship | UnitType::Carrier => 1,
            UnitType::Armor | UnitType::Transport | UnitType::Submarine | UnitType::Cruiser => 2,
            UnitType::Bomber | UnitType::Destroyer => 3,
            UnitType::Fighter => 5,
        }
    }

    pub fn movement_per_turn(&self) -> (m: u16)
        ensures
            m == self.spec_movement_per_turn(),
    {
        match self {
            UnitType::Infantry | UnitType::Battleship | UnitType::Carrier => 1,
            UnitType::Armor | UnitType::Transport | UnitType::Submarine | UnitType::Cruiser => 2,
            UnitType::Bomber | UnitType::Destroyer => 3,
            UnitType::Fighter => 5,
        }
    }

    pub open spec fn spec_fuel(self) -> Fuel {
        match self {
            UnitType::Fighter => Fuel::Limited { max: 20, remaining: 20 },
            UnitType::Bomber => Fuel::Limited { max: 30, remaining: 30 },
            _ => Fuel::Unlimited,
        }
    }

    /// The starting fuel configuration for units of this type.
    pub fn fuel(&self) -> (f: Fuel)
        ensures
            f == self.spec_fuel(),
    {
        match self {
            UnitType::Fighter => Fuel::limited(20),
            UnitType::Bomber => Fuel::limited(30),
            _ => Fuel::Unlimited,
        }
    }

    pub fn can_traverse(&self, terrain: Terrain) -> (b: bool)
        ensures
            b == self.spec_transport_mode().spec_can_traverse(terrain),
    {
        self.transport_mode().can_traverse(terrain)
    }

    pub fn default_terrain(&self) -> (t: Terrain)
        ensures
            t == self.spec_transport_mode().spec_default_terrain(),
    {
        self.transport_mode().default_terrain()
    }

    /// The transport mode a unit of this type accepts aboard, if it carries units at all.
    pub open spec fn spec_accepted_mode(self) -> TransportMode {
        match self {
            UnitType::Carrier => TransportMode::Air,
            _ => TransportMode::Land,
        }
    }

    fn new_carrying_space_for(self, alignment: Alignment) -> (cs: Option<CarryingSpace>)
        ensures
            self.spec_carrying_capacity() == 0 ==> cs is None,
            self.spec_carrying_capacity() > 0 ==> cs is Some && cs->0@ == CarryingSpace::spec_new(
                alignment,
                self.spec_accepted_mode(),
                self.spec_carrying_capacity(),
            ),
    {
        match self {
            UnitType::Transport => Some(
                CarryingSpace::new(alignment, TransportMode::Land, self.carrying_capacity()),
            ),
            UnitType::Carrier => Some(
                CarryingSpace::new(alignment, TransportMode::Air, self.carrying_capacity()),
            ),
            _ => None,
        }
    }
}

#[derive(Clone, Copy, Debug, PartialEq, Eq, Hash, Structural)]
pub enum Fuel {
    Unlimited,
    Limited { max: u16, remaining: u16 },
}

/// The fuel filled up: full when limited, unchanged when unlimited.
pub open spec fn full_fuel(f: Fuel) -> Fuel {
    match f {
        Fuel::Limited { max, .. } => Fuel::Limited { max, remaining: max },
        Fuel::Unlimited => Fuel::Unlimited,
    }
}

/// Fill the fuel up.
fn fill_fuel(f: Fuel) -> (r: Fuel)
    ensures
        r == full_fuel(f),
{
    match f {
        Fuel::Limited { max, .. } => Fuel::Limited { max, remaining: max },
        Fuel::Unlimited => Fuel::Unlimited,
    }
}

impl Fuel {
    pub fn limited(max_fuel: u16) -> (f: Fuel)
        ensures
            f == (Fuel::Limited { max: max_fuel, remaining: max_fuel }),
    {
        Fuel::Limited { max: max_fuel, remaining: max_fuel }
    }

    pub open spec fn wf(self) -> bool {
        self matches Fuel::Limited { max, remaining } ==> remaining <= max
    }
}

/// The space in which a carrier holds the units it carries.
#[derive(Debug, PartialEq)]
pub struct CarryingSpace {
    pub owner: Alignment,
    pub accepted_transport_mode: TransportMode,
    pub capacity: usize,
    pub space: Vec<Unit>,
}

/// What a carrying space holds, as a mathematical value.
pub struct CarryingSpaceView {
    pub owner: Alignment,
    pub accepted_transport_mode: TransportMode,
    pub capacity: usize,
    pub space: Seq<Unit>,
}

impl View for CarryingSpace {
    type V = CarryingSpaceView;

    open spec fn view(&self) -> CarryingSpaceView {
        CarryingSpaceView {
            owner: self.owner,
            accepted_transport_mode: self.accepted_transport_mode,
            capacity: self.capacity,
            space: self.space@,
        }
    }
}

/// Why a carrying space would refuse a unit, if it would.
pub open spec fn spec_carry_status(
    owner: Alignment,
    accepted: TransportMode,
    capacity: usize,
    held: nat,
    unit: Unit,
) -> Result<(), GameError> {
    if owner != unit.alignment {
        Err(GameError::OnlyAlliesCarry {
            carried_id: unit.id,
            carrier_alignment: owner,
            carried_alignment: unit.alignment,
        })
    } else if unit.type_.spec_transport_mode() != accepted {
        Err(GameError::WrongTransportMode {
            carried_id: unit.id,
            carrier_transport_mode: accepted,
            carried_transport_mode: unit.type_.spec_transport_mode(),
        })
    } else if held >= capacity {
        Err(GameError::InsufficientCarryingSpace { carried_id: unit.id })
    } else {
        Ok(())
    }
}

impl CarryingSpace {
    pub open spec fn spec_new(owner: Alignment, accepted: TransportMode, capacity: usize) -> CarryingSpaceView {
        CarryingSpaceView { owner, accepted_transport_mode: accepted, capacity, space: Seq::empty() }
    }

    pub open spec fn spec_status(self, unit: Unit) -> Result<(), GameError> {
        spec_carry_status(self.owner, self.accepted_transport_mode, self.capacity, self.space@.len(), unit)
    }

    fn new(owner: Alignment, accepted_transport_mode: TransportMode, capacity: usize) -> (cs: CarryingSpace)
        ensures
            cs@ == CarryingSpace::spec_new(owner, accepted_transport_mode, capacity),
    {
        CarryingSpace { owner, accepted_transport_mode, capacity, space: Vec::new() }
    }

    /// Check for any problems that would prohibit us from carrying the unit.
    fn carry_status(&self, unit: &Unit) -> (r: Result<(), GameError>)
        ensures
            r == self.spec_status(*unit),
    {
        if self.owner != unit.alignment {
            return Err(
                GameError::OnlyAlliesCarry {
                    carried_id: unit.id,
                    carrier_alignment: self.owner,
                    carried_alignment: unit.alignment,
                },
            );
        }
        if unit.type_.transport_mode() != self.accepted_transport_mode {
            return Err(
                GameError::WrongTransportMode {
                    carried_id: unit.id,
                    carrier_transport_mode: self.accepted_transport_mode,
                    carried_transport_mode: unit.type_.transport_mode(),
                },
            );
        }
        if self.space.len() >= self.capacity {
            return Err(GameError::InsufficientCarryingSpace { carried_id: unit.id });
        }
        Ok(())
    }

    fn can_carry_unit(&self, unit: &Unit) -> (b: bool)
        ensures
            b == (self.spec_status(*unit) is Ok),
    {
        self.carry_status(unit).is_ok()
    }

    /// Carry the unit, returning how many units are carried now.
    fn carry(&mut self, unit: Unit) -> (r: Result<usize, GameError>)
        ensures
            old(self).spec_status(unit) is Err ==> r == Err::<usize, GameError>(old(self).spec_status(unit)->Err_0)
                && *final(self) == *old(self),
            old(self).spec_status(unit) is Ok ==> r == Ok::<usize, GameError>(
                (old(self)@.space.len() + 1) as usize,
            ) && final(self)@ == (CarryingSpaceView { space: old(self)@.space.push(unit), ..old(self)@ }),
    {
        match self.carry_status(&unit) {
            Err(e) => Err(e),
            Ok(()) => {
                self.space.push(unit);
                Ok(self.space.len())
            },
        }
    }

    /// Release the carried unit with the given ID, if it is here.
    fn release_by_id(&mut self, id: UnitID) -> (r: Option<Unit>)
        ensures
            r is None ==> *final(self) == *old(self) && (forall|i: int|
                0 <= i < old(self)@.space.len() ==> (#[trigger] old(self)@.space[i]).id != id),
            r matches Some(u) ==> exists|i: int|
                0 <= i < old(self)@.space.len() && old(self)@.space[i] == u && u.id == id && (forall|j: int|
                    0 <= j < i ==> (#[trigger] old(self)@.space[j]).id != id) && final(self)@ == (
                CarryingSpaceView { space: old(self)@.space.remove(i), ..old(self)@ }),
    {
        let mut i: usize = 0;
        while i < self.space.len()
            invariant
                i <= self.space@.len(),
                *self == *old(self),
                forall|j: int| 0 <= j < i ==> (#[trigger] self.space@[j]).id != id,
            decreases self.space@.len() - i,
        {
            if self.space[i].id == id {
                let u = self.space.remove(i);
                return Some(u);
            }
            i = i + 1;
        }
        None
    }

    fn units_held(&self) -> (n: usize)
        ensures
            n == self.space@.len(),
    {
        self.space.len()
    }
}

#[derive(Debug, PartialEq)]
pub struct Unit {
    pub id: UnitID,
    pub loc: Location,
    pub type_: UnitType,
    pub alignment: Alignment,
    pub hp: u16,
    pub max_hp: u16,
    pub moves_remaining: u16,
    pub name: String,
    pub orders: Option<Orders>,
    pub carrying_space: Option<CarryingSpace>,
    pub fuel: Fuel,
}

/// A unit as a mathematical value; the units it carries are given as a sequence.
pub struct UnitView {
    pub id: UnitID,
    pub loc: Location,
    pub type_: UnitType,
    pub alignment: Alignment,
    pub hp: u16,
    pub max_hp: u16,
    pub moves_remaining: u16,
    pub name: Seq<char>,
    pub orders: Option<Orders>,
    pub carrying_space: Option<CarryingSpaceView>,
    pub fuel: Fuel,
}

impl View for Unit {
    type V = UnitView;

    open spec fn view(&self) -> UnitView {
        UnitView {
            id: self.id,
            loc: self.loc,
            type_: self.type_,
            alignment: self.alignment,
            hp: self.hp,
            max_hp: self.max_hp,
            moves_remaining: self.moves_remaining,
            name: self.name@,
            orders: self.orders,
            carrying_space: match self.carrying_space {
                Some(cs) => Some(cs@),
                None => None,
            },
            fuel: self.fuel,
        }
    }
}

/// A unit as it may stand within another unit's carrying space.
pub open spec fn carried_ok(c: Unit, carrier: Unit) -> bool {
    &&& c.carrying_space is None
    &&& c.loc == carrier.loc
    &&& c.alignment == carrier.alignment
    &&& c.type_.spec_transport_mode() == carrier.type_.spec_accepted_mode()
    &&& c.type_.spec_carrying_capacity() == 0
    &&& c.fuel.wf()
}

impl Unit {
    /// The units this unit carries.
    pub open spec fn spec_carried(self) -> Seq<Unit> {
        match self.carrying_space {
            Some(cs) => cs.space@,
            None => Seq::empty(),
        }
    }

    /// Well-formedness: the carrying space matches the unit's type and all it carries belongs with it.
    pub open spec fn wf(self) -> bool {
        &&& self.fuel.wf()
        &&& (self.type_.spec_carrying_capacity() == 0 <==> self.carrying_space is None)
        &&& self.carrying_space matches Some(cs) ==> {
            &&& cs.owner == self.alignment
            &&& cs.accepted_transport_mode == self.type_.spec_accepted_mode()
            &&& cs.capacity == self.type_.spec_carrying_capacity()
            &&& cs.space@.len() <= cs.capacity
        }
        &&& forall|i: int| 0 <= i < self.spec_carried().len() ==> carried_ok(#[trigger] self.spec_carried()[i], self)
    }

    /// Why this unit could not carry `unit`, if it could not.
    pub open spec fn spec_carry_status(self, unit: Unit) -> Result<(), GameError> {
        match self.carrying_space {
            Some(cs) => cs.spec_status(unit),
            None => Err(GameError::UnitHasNoCarryingSpace { carrier_id: self.id }),
        }
    }

    pub fn new(id: UnitID, loc: Location, type_: UnitType, alignment: Alignment, name: &str) -> (u: Unit)
        ensures
            u.wf(),
            u.id == id,
            u.loc == loc,
            u.type_ == type_,
            u.alignment == alignment,
            u.hp == type_.spec_max_hp(),
            u.max_hp == type_.spec_max_hp(),
            u.moves_remaining == type_.spec_movement_per_turn(),
            u.name@ == name@,
            u.orders is None,
            u.fuel == type_.spec_fuel(),
            u.spec_carried() == Seq::<Unit>::empty(),
            u@.carrying_space == (if type_.spec_carrying_capacity() > 0 {
                Some(CarryingSpace::spec_new(alignment, type_.spec_accepted_mode(), type_.spec_carrying_capacity()))
            } else {
                None
            }),
    {
        let max_hp = type_.max_hp();
        Unit {
            id,
            loc,
            type_,
            alignment,
            hp: max_hp,
            max_hp,
            moves_remaining: type_.movement_per_turn(),
            name: name.to_owned(),
            orders: None,
            carrying_space: type_.new_carrying_space_for(alignment),
            fuel: type_.fuel(),
        }
    }

    pub fn movement_per_turn(&self) -> (m: u16)
        ensures
            m == self.type_.spec_movement_per_turn(),
    {
        self.type_.movement_per_turn()
    }

    /// Could this unit move (if only theoretically) onto the tile?
    ///
    /// An unfriendly unit there leaves it to terrain and city; a friendly one must have room for this unit.
    /// Without a unit, an unfriendly city there can be entered only by a unit that occupies cities.
    pub open spec fn spec_can_move_on_tile(self, tile: Tile) -> bool {
        match tile.unit {
            Some(u) => if u.alignment != self.alignment {
                self.type_.spec_can_move_on_tile(tile)
            } else {
                u.spec_carry_status(self) is Ok
            },
            None => match tile.city {
                Some(c) => if c.alignment == self.alignment {
                    self.type_.spec_can_move_on_tile(tile)
                } else {
                    self.type_.spec_can_occupy_cities()
                },
                None => self.type_.spec_can_move_on_tile(tile),
            },
        }
    }

    pub fn can_move_on_tile(&self, tile: &Tile) -> (b: bool)
        ensures
            b == self.spec_can_move_on_tile(*tile),
    {
        if let Some(ref unit) = tile.unit {
            if unit.alignment != self.alignment {
                self.type_.can_move_on_tile(tile)
            } else {
                unit.can_carry_unit(self)
            }
        } else if let Some(ref city) = tile.city {
            if city.alignment == self.alignment {
                self.type_.can_move_on_tile(tile)
            } else {
                self.can_occupy_cities()
            }
        } else {
            self.type_.can_move_on_tile(tile)
        }
    }

    /// Could this unit attack the tile if it were adjacent? That is, is there an enemy unit or city on it, one of
    /// another alignment than this unit's?
    pub fn can_attack_tile(&self, tile: &Tile) -> (b: bool)
        ensures
            b == ((tile.unit matches Some(u) && u.alignment != self.alignment) || (tile.city matches Some(c)
                && c.alignment != self.alignment)),
    {
        let enemy_unit = match &tile.unit {
            Some(u) => u.alignment != self.alignment,
            None => false,
        };
        let enemy_city = match &tile.city {
            Some(c) => c.alignment != self.alignment,
            None => false,
        };
        enemy_unit || enemy_city
    }

    pub fn moves_remaining(&self) -> (m: u16)
        ensures
            m == self.moves_remaining,
    {
        self.moves_remaining
    }

    pub(crate) fn movement_complete(&mut self)
        ensures
            *final(self) == (Unit { moves_remaining: 0, ..*old(self) }),
    {
        self.moves_remaining = 0;
    }

    /// What recording a movement of `moves` steps does: the error, or the moves and fuel left.
    pub open spec fn spec_record_movement(self, moves: u16) -> Result<u16, GameError> {
        if self.fuel matches Fuel::Limited { remaining, .. } && remaining < moves {
            Err(GameError::MoveError(MoveError::InsufficientFuel))
        } else if self.moves_remaining < moves {
            Err(GameError::MoveError(MoveError::RemainingMovesExceeded {
                intended_distance: moves,
                moves_remaining: self.moves_remaining,
            }))
        } else {
            Ok((self.moves_remaining - moves) as u16)
        }
    }

    pub open spec fn spec_fuel_after(self, moves: u16) -> Fuel {
        match self.fuel {
            Fuel::Limited { max, remaining } => Fuel::Limited { max, remaining: (remaining - moves) as u16 },
            Fuel::Unlimited => Fuel::Unlimited,
        }
    }

    /// Spend `moves` of the unit's movement (and fuel, if limited); returns the moves remaining.
    pub(crate) fn record_movement(&mut self, moves: u16) -> (r: Result<u16, GameError>)
        ensures
            r == old(self).spec_record_movement(moves),
            r is Err ==> *final(self) == *old(self),
            r matches Ok(m) ==> *final(self) == (Unit {
                moves_remaining: m,
                fuel: old(self).spec_fuel_after(moves),
                ..*old(self)
            }),
    {
        if let Fuel::Limited { max: _, remaining } = self.fuel {
            if remaining < moves {
                return Err(GameError::MoveError(MoveError::InsufficientFuel));
            }
        }
        if self.moves_remaining < moves {
            return Err(
                GameError::MoveError(
                    MoveError::RemainingMovesExceeded {
                        intended_distance: moves,
                        moves_remaining: self.moves_remaining,
                    },
                ),
            );
        }
        self.moves_remaining = self.moves_remaining - moves;
        if let Fuel::Limited { max, remaining } = self.fuel {
            self.fuel = Fuel::Limited { max, remaining: remaining - moves };
        }
        Ok(self.moves_remaining)
    }

    pub(crate) fn refresh_moves_remaining(&mut self)
        ensures
            *final(self) == (Unit { moves_remaining: old(self).type_.spec_movement_per_turn(), ..*old(self) }),
    {
        self.moves_remaining = self.movement_per_turn();
    }

    pub fn can_carry_unit(&self, unit: &Unit) -> (b: bool)
        ensures
            b == (self.spec_carry_status(*unit) is Ok),
    {
        if let Some(ref carrying_space) = self.carrying_space {
            carrying_space.can_carry_unit(unit)
        } else {
            false
        }
    }

    /// Check for any error we would meet if we did try to carry the given unit.
    pub fn carry_status(&self, unit: &Unit) -> (r: Result<(), GameError>)
        ensures
            r == self.spec_carry_status(*unit),
    {
        if let Some(ref carrying_space) = self.carrying_space {
            carrying_space.carry_status(unit)
        } else {
            Err(GameError::UnitHasNoCarryingSpace { carrier_id: self.id })
        }
    }

    /// Carry a unit in this unit's carrying space, returning how many it carries now.
    pub(crate) fn carry(&mut self, unit: Unit) -> (r: Result<usize, GameError>)
        ensures
            old(self).spec_carry_status(unit) is Err ==> r == Err::<usize, GameError>(
                old(self).spec_carry_status(unit)->Err_0,
            ) && *final(self) == *old(self),
            old(self).spec_carry_status(unit) is Ok ==> {
                &&& r == Ok::<usize, GameError>((old(self).spec_carried().len() + 1) as usize)
                &&& final(self)@ == (UnitView {
                    carrying_space: Some(CarryingSpaceView {
                        space: old(self).spec_carried().push(Unit { loc: old(self).loc, ..unit }),
                        ..old(self)@.carrying_space->0
                    }),
                    ..old(self)@
                })
                &&& final(self).spec_carried() == old(self).spec_carried().push(Unit { loc: old(self).loc, ..unit })
            },
    {
        match self.carry_status(&unit) {
            Err(e) => Err(e),
            Ok(()) => {
                let mut unit = unit;
                unit.loc = self.loc;
                let mut cs = self.carrying_space.take().unwrap();
                let r = cs.carry(unit);
                self.carrying_space = Some(cs);
                r
            },
        }
    }

    /// Release the carried unit with the given ID, if this unit carries it.
    pub(crate) fn release_by_id(&mut self, carried_unit_id: UnitID) -> (r: Option<Unit>)
        ensures
            r is None ==> *final(self) == *old(self) && (forall|i: int|
                0 <= i < old(self).spec_carried().len() ==> (#[trigger] old(self).spec_carried()[i]).id
                    != carried_unit_id),
            r matches Some(u) ==> exists|i: int|
                0 <= i < old(self).spec_carried().len() && old(self).spec_carried()[i] == u && u.id
                    == carried_unit_id && final(self)@ == (UnitView {
                    carrying_space: Some(CarryingSpaceView {
                        space: old(self).spec_carried().remove(i),
                        ..old(self)@.carrying_space->0
                    }),
                    ..old(self)@
                }) && final(self).spec_carried() == old(self).spec_carried().remove(i),
    {
        if self.carrying_space.is_some() {
            let mut cs = self.carrying_space.take().unwrap();
            let r = cs.release_by_id(carried_unit_id);
            self.carrying_space = Some(cs);
            r
        } else {
            None
        }
    }

    /// The units this unit carries, in order.
    pub fn carried_units(&self) -> (v: Vec<&Unit>)
        ensures
            v@.len() == self.spec_carried().len(),
            forall|i: int| 0 <= i < v@.len() ==> *v@[i] == self.spec_carried()[i],
    {
        let mut v: Vec<&Unit> = Vec::new();
        if let Some(ref cs) = self.carrying_space {
            let mut i: usize = 0;
            while i < cs.space.len()
                invariant
                    i <= cs.space@.len(),
                    self.carrying_space == Some(*cs),
                    v@.len() == i,
                    forall|j: int| 0 <= j < i ==> *v@[j] == cs.space@[j],
                decreases cs.space@.len() - i,
            {
                v.push(&cs.space[i]);
                i = i + 1;
            }
        }
        v
    }

    /// Is the unit a carrier?
    pub fn carrier(&self) -> (b: bool)
        ensures
            b == (self.carrying_space is Some),
    {
        self.carrying_space.is_some()
    }

    pub fn short_desc(&self) -> (s: String)
        ensures
            s@ == self.type_.spec_name() + " \""@ + self.name@ + "\""@,
    {
        let mut s = String::from_str(self.type_.name());
        s.append(" \"");
        s.append(self.name.as_str());
        s.append("\"");
        s
    }

    pub fn medium_desc(&self) -> (s: String)
        ensures
            s@ == self.type_.spec_name() + " \""@ + self.name@ + "\" ["@ + spec_decimal(self.hp as nat) + "/"@
                + spec_decimal(self.max_hp as nat) + "]"@,
    {
        let mut s = String::from_str(self.type_.name());
        s.append(" \"");
        s.append(self.name.as_str());
        s.append("\" [");
        let hp = decimal(self.hp as u64);
        s.append(hp.as_str());
        s.append("/");
        let max_hp = decimal(self.max_hp as u64);
        s.append(max_hp.as_str());
        s.append("]");
        s
    }

    /// Can this unit occupy cities?
    pub fn can_occupy_cities(&self) -> (b: bool)
        ensures
            b == self.type_.spec_can_occupy_cities(),
    {
        self.type_.can_occupy_cities()
    }

    pub fn has_orders(&self) -> (b: bool)
        ensures
            b == (self.orders is Some),
    {
        self.orders.is_some()
    }

    pub fn set_orders(&mut self, orders: Orders) -> (prior: Option<Orders>)
        ensures
            prior == old(self).orders,
            *final(self) == (Unit { orders: Some(orders), ..*old(self) }),
    {
        let prior = self.orders;
        self.orders = Some(orders);
        prior
    }

    pub fn clear_orders(&mut self) -> (prior: Option<Orders>)
        ensures
            prior == old(self).orders,
            *final(self) == (Unit { orders: None, ..*old(self) }),
    {
        self.orders.take()
    }

    /// Clear the orders of this unit and of every unit it carries.
    pub fn activate(&mut self)
        ensures
            final(self)@ == (UnitView { orders: None, carrying_space: final(self)@.carrying_space, ..old(self)@ }),
            final(self).carrying_space is Some == old(self).carrying_space is Some,
            final(self).carrying_space is Some ==> final(self)@.carrying_space->0 == (CarryingSpaceView {
                space: final(self).spec_carried(),
                ..old(self)@.carrying_space->0
            }),
            final(self).spec_carried().len() == old(self).spec_carried().len(),
            forall|i: int| 0 <= i < old(self).spec_carried().len() ==> #[trigger] final(self).spec_carried()[i]
                == (Unit { orders: None, ..old(self).spec_carried()[i] }),
    {
        self.orders = None;
        if self.carrying_space.is_some() {
            let mut cs = self.carrying_space.take().unwrap();
            let ghost old_space = cs.space@;
            let ghost old_cs = cs@;
            let mut i: usize = 0;
            while i < cs.space.len()
                invariant
                    i <= cs.space@.len(),
                    cs.owner == old_cs.owner,
                    cs.accepted_transport_mode == old_cs.accepted_transport_mode,
                    cs.capacity == old_cs.capacity,
                    cs.space@.len() == old_space.len(),
                    forall|j: int| 0 <= j < i ==> #[trigger] cs.space@[j] == (Unit { orders: None, ..old_space[j] }),
                    forall|j: int| i <= j < cs.space@.len() ==> #[trigger] cs.space@[j] == old_space[j],
                decreases cs.space@.len() - i,
            {
                let mut u = cs.space.remove(i);
                u.orders = None;
                cs.space.insert(i, u);
                i = i + 1;
            }
            self.carrying_space = Some(cs);
        }
    }

    pub fn transport_mode(&self) -> (m: TransportMode)
        ensures
            m == self.type_.spec_transport_mode(),
    {
        self.type_.transport_mode()
    }

    pub fn max_hp(&self) -> (hp: u16)
        ensures
            hp == self.max_hp,
    {
        self.max_hp
    }

    pub fn hp(&self) -> (hp: u16)
        ensures
            hp == self.hp,
    {
        self.hp
    }

    pub fn name(&self) -> (n: &String)
        ensures
            n == &self.name,
    {
        &self.name
    }

    /// How far this unit can see.
    pub fn sight_distance(&self) -> (d: u16)
        ensures
            d == self.type_.spec_sight_distance(),
    {
        self.type_.sight_distance()
    }

    /// If the unit's fuel is limited, refill it; return how much fuel was added.
    pub fn refuel(&mut self) -> (refueled: u16)
        requires
            old(self).fuel.wf(),
        ensures
            old(self).fuel matches Fuel::Limited { max, remaining } ==> refueled == max - remaining
                && *final(self) == (Unit { fuel: Fuel::Limited { max, remaining: max }, ..*old(self) }),
            old(self).fuel is Unlimited ==> refueled == 0 && *final(self) == *old(self),
    {
        if let Fuel::Limited { max, remaining } = self.fuel {
            let refueled = max - remaining;
            self.fuel = Fuel::Limited { max, remaining: max };
            refueled
        } else {
            0
        }
    }

    /// Move this unit and everything it carries to `loc`.
    pub(crate) fn set_loc(&mut self, loc: Location)
        ensures
            old(self).moved_to(*final(self), loc),
    {
        self.loc = loc;
        if self.carrying_space.is_some() {
            let mut cs = self.carrying_space.take().unwrap();
            let ghost old_space = cs.space@;
            let ghost old_cs = cs@;
            let mut i: usize = 0;
            while i < cs.space.len()
                invariant
                    i <= cs.space@.len(),
                    cs.owner == old_cs.owner,
                    cs.accepted_transport_mode == old_cs.accepted_transport_mode,
                    cs.capacity == old_cs.capacity,
                    cs.space@.len() == old_space.len(),
                    forall|j: int| 0 <= j < i ==> #[trigger] cs.space@[j] == (Unit { loc, ..old_space[j] }),
                    forall|j: int| i <= j < cs.space@.len() ==> #[trigger] cs.space@[j] == old_space[j],
                decreases cs.space@.len() - i,
            {
                let mut u = cs.space.remove(i);
                u.loc = loc;
                cs.space.insert(i, u);
                i = i + 1;
            }
            self.carrying_space = Some(cs);
        }
    }

    /// A copy of a unit that carries nothing, equal to it in every field.
    pub fn duplicate_simple(&self) -> (u: Unit)
        requires
            self.carrying_space is None,
        ensures
            u == *self,
    {
        Unit {
            id: self.id,
            loc: self.loc,
            type_: self.type_,
            alignment: self.alignment,
            hp: self.hp,
            max_hp: self.max_hp,
            moves_remaining: self.moves_remaining,
            name: self.name.clone(),
            orders: self.orders,
            carrying_space: None,
            fuel: self.fuel,
        }
    }

    /// A copy of a well-formed unit, equal to it as a value.
    pub fn duplicate(&self) -> (u: Unit)
        requires
            self.wf(),
        ensures
            u@ == self@,
            u.wf(),
            u.spec_carried() == self.spec_carried(),
    {
        let carrying_space = match &self.carrying_space {
            None => None,
            Some(cs) => {
                let mut space: Vec<Unit> = Vec::new();
                let mut i: usize = 0;
                while i < cs.space.len()
                    invariant
                        self.wf(),
                        self.carrying_space == Some(*cs),
                        i <= cs.space@.len(),
                        space@ == cs.space@.subrange(0, i as int),
                    decreases cs.space@.len() - i,
                {
                    assert(carried_ok(self.spec_carried()[i as int], *self));
                    let c = cs.space[i].duplicate_simple();
                    space.push(c);
                    i = i + 1;
                }
                assert(space@ == cs.space@);
                assert(forall|j: int| 0 <= j < space@.len() ==> #[trigger] space@[j] == self.spec_carried()[j]);
                Some(
                    CarryingSpace {
                        owner: cs.owner,
                        accepted_transport_mode: cs.accepted_transport_mode,
                        capacity: cs.capacity,
                        space,
                    },
                )
            },
        };
        Unit {
            id: self.id,
            loc: self.loc,
            type_: self.type_,
            alignment: self.alignment,
            hp: self.hp,
            max_hp: self.max_hp,
            moves_remaining: self.moves_remaining,
            name: self.name.clone(),
            orders: self.orders,
            carrying_space,
            fuel: self.fuel,
        }
    }
}

/// A change to a unit that keeps its identity, side, type, location and cargo.
pub enum UnitEdit {
    CompleteMovement,
    RecordMovement { moves: u16 },
    SetOrders { orders: Orders },
    ClearOrders,
    Activate,
    /// Restore a turn's worth of moves to the unit and to each unit it carries.
    RefreshMoves,
    /// Fill the fuel of each unit the unit carries, and of the unit itself when `self_too`.
    Refuel { self_too: bool },
}

/// What an edit gives back.
#[derive(Debug, PartialEq, Eq)]
pub enum UnitEditOutcome {
    Done,
    Movement(Result<u16, GameError>),
    PriorOrders(Option<Orders>),
}

impl Unit {
    /// `u2` is this unit with all orders cleared, its own and its cargo's.
    pub open spec fn activated(self, u2: Unit) -> bool {
        &&& u2@ == (UnitView { orders: None, carrying_space: u2@.carrying_space, ..self@ })
        &&& u2.carrying_space is Some == self.carrying_space is Some
        &&& u2.carrying_space is Some ==> u2@.carrying_space->0 == (CarryingSpaceView {
            space: u2.spec_carried(),
            ..self@.carrying_space->0
        })
        &&& u2.spec_carried().len() == self.spec_carried().len()
        &&& forall|i: int| 0 <= i < self.spec_carried().len() ==> #[trigger] u2.spec_carried()[i]
            == (Unit { orders: None, ..self.spec_carried()[i] })
    }

    /// `u2` is this unit with a turn's worth of moves restored to it and to each unit it carries.
    pub open spec fn refreshed(self, u2: Unit) -> bool {
        &&& u2@ == (UnitView {
            moves_remaining: self.type_.spec_movement_per_turn(),
            carrying_space: u2@.carrying_space,
            ..self@
        })
        &&& u2.carrying_space is Some == self.carrying_space is Some
        &&& u2.carrying_space is Some ==> u2@.carrying_space->0 == (CarryingSpaceView {
            space: u2.spec_carried(),
            ..self@.carrying_space->0
        })
        &&& u2.spec_carried().len() == self.spec_carried().len()
        &&& forall|i: int| 0 <= i < self.spec_carried().len() ==> #[trigger] u2.spec_carried()[i] == (Unit {
            moves_remaining: self.spec_carried()[i].type_.spec_movement_per_turn(),
            ..self.spec_carried()[i]
        })
    }

    /// `u2` is this unit with the fuel of each unit it carries filled, and its own too when `self_too`.
    pub open spec fn sheltered_refuel(self, u2: Unit, self_too: bool) -> bool {
        &&& u2@ == (UnitView {
            fuel: if self_too { full_fuel(self.fuel) } else { self.fuel },
            carrying_space: u2@.carrying_space,
            ..self@
        })
        &&& u2.carrying_space is Some == self.carrying_space is Some
        &&& u2.carrying_space is Some ==> u2@.carrying_space->0 == (CarryingSpaceView {
            space: u2.spec_carried(),
            ..self@.carrying_space->0
        })
        &&& u2.spec_carried().len() == self.spec_carried().len()
        &&& forall|i: int| 0 <= i < self.spec_carried().len() ==> #[trigger] u2.spec_carried()[i] == (Unit {
            fuel: full_fuel(self.spec_carried()[i].fuel),
            ..self.spec_carried()[i]
        })
    }

    /// Fill the fuel of each unit this unit carries, and this unit's own when `self_too`.
    pub(crate) fn refuel_sheltered(&mut self, self_too: bool)
        ensures
            old(self).sheltered_refuel(*final(self), self_too),
    {
        if self_too {
            self.fuel = fill_fuel(self.fuel);
        }
        if self.carrying_space.is_some() {
            let mut cs = self.carrying_space.take().unwrap();
            let ghost old_space = cs.space@;
            let ghost old_cs = cs@;
            let mut i: usize = 0;
            while i < cs.space.len()
                invariant
                    i <= cs.space@.len(),
                    cs.owner == old_cs.owner,
                    cs.accepted_transport_mode == old_cs.accepted_transport_mode,
                    cs.capacity == old_cs.capacity,
                    cs.space@.len() == old_space.len(),
                    forall|j: int| 0 <= j < i ==> #[trigger] cs.space@[j] == (Unit {
                        fuel: full_fuel(old_space[j].fuel),
                        ..old_space[j]
                    }),
                    forall|j: int| i <= j < cs.space@.len() ==> #[trigger] cs.space@[j] == old_space[j],
                decreases cs.space@.len() - i,
            {
                let mut u = cs.space.remove(i);
                u.fuel = fill_fuel(u.fuel);
                cs.space.insert(i, u);
                i = i + 1;
            }
            self.carrying_space = Some(cs);
        }
    }

    /// Restore a turn's worth of moves to this unit and to each unit it carries.
    pub(crate) fn refresh_all_moves(&mut self)
        ensures
            old(self).refreshed(*final(self)),
    {
        self.refresh_moves_remaining();
        if self.carrying_space.is_some() {
            let mut cs = self.carrying_space.take().unwrap();
            let ghost old_space = cs.space@;
            let ghost old_cs = cs@;
            let mut i: usize = 0;
            while i < cs.space.len()
                invariant
                    i <= cs.space@.len(),
                    cs.owner == old_cs.owner,
                    cs.accepted_transport_mode == old_cs.accepted_transport_mode,
                    cs.capacity == old_cs.capacity,
                    cs.space@.len() == old_space.len(),
                    forall|j: int| 0 <= j < i ==> #[trigger] cs.space@[j] == (Unit {
                        moves_remaining: old_space[j].type_.spec_movement_per_turn(),
                        ..old_space[j]
                    }),
                    forall|j: int| i <= j < cs.space@.len() ==> #[trigger] cs.space@[j] == old_space[j],
                decreases cs.space@.len() - i,
            {
                let mut u = cs.space.remove(i);
                u.refresh_moves_remaining();
                cs.space.insert(i, u);
                i = i + 1;
            }
            self.carrying_space = Some(cs);
        }
    }

    /// `u2` is this unit after the edit.
    pub open spec fn edited(self, u2: Unit, edit: UnitEdit) -> bool {
        match edit {
            UnitEdit::CompleteMovement => u2 == (Unit { moves_remaining: 0, ..self }),
            UnitEdit::RecordMovement { moves } => match self.spec_record_movement(moves) {
                Ok(m) => u2 == (Unit { moves_remaining: m, fuel: self.spec_fuel_after(moves), ..self }),
                Err(_) => u2 == self,
            },
            UnitEdit::SetOrders { orders } => u2 == (Unit { orders: Some(orders), ..self }),
            UnitEdit::ClearOrders => u2 == (Unit { orders: None, ..self }),
            UnitEdit::Activate => self.activated(u2),
            UnitEdit::RefreshMoves => self.refreshed(u2),
            UnitEdit::Refuel { self_too } => self.sheltered_refuel(u2, self_too),
        }
    }

    /// What the edit gives back.
    pub open spec fn spec_edit_outcome(self, edit: UnitEdit) -> UnitEditOutcome {
        match edit {
            UnitEdit::CompleteMovement => UnitEditOutcome::Done,
            UnitEdit::RecordMovement { moves } => UnitEditOutcome::Movement(self.spec_record_movement(moves)),
            UnitEdit::SetOrders { .. } => UnitEditOutcome::PriorOrders(self.orders),
            UnitEdit::ClearOrders => UnitEditOutcome::PriorOrders(self.orders),
            UnitEdit::Activate => UnitEditOutcome::Done,
            UnitEdit::RefreshMoves => UnitEditOutcome::Done,
            UnitEdit::Refuel { .. } => UnitEditOutcome::Done,
        }
    }

    /// Apply an edit.
    pub(crate) fn edit(&mut self, edit: &UnitEdit) -> (r: UnitEditOutcome)
        ensures
            old(self).edited(*final(self), *edit),
            r == old(self).spec_edit_outcome(*edit),
    {
        match edit {
            UnitEdit::CompleteMovement => {
                self.movement_complete();
                UnitEditOutcome::Done
            },
            UnitEdit::RecordMovement { moves } => UnitEditOutcome::Movement(self.record_movement(*moves)),
            UnitEdit::SetOrders { orders } => UnitEditOutcome::PriorOrders(self.set_orders(*orders)),
            UnitEdit::ClearOrders => UnitEditOutcome::PriorOrders(self.clear_orders()),
            UnitEdit::Activate => {
                self.activate();
                UnitEditOutcome::Done
            },
            UnitEdit::RefreshMoves => {
                self.refresh_all_moves();
                UnitEditOutcome::Done
            },
            UnitEdit::Refuel { self_too } => {
                self.refuel_sheltered(*self_too);
                UnitEditOutcome::Done
            },
        }
    }

    /// Apply an edit to the `k`th unit this unit carries.
    pub(crate) fn edit_carried(&mut self, k: usize, edit: &UnitEdit) -> (r: UnitEditOutcome)
        requires
            k < old(self).spec_carried().len(),
        ensures
            old(self).spec_carried()[k as int].edited(final(self).spec_carried()[k as int], *edit),
            r == old(self).spec_carried()[k as int].spec_edit_outcome(*edit),
            final(self).spec_carried() == old(self).spec_carried().update(k as int, final(self).spec_carried()[k as int]),
            final(self)@ == (UnitView {
                carrying_space: Some(CarryingSpaceView { space: final(self).spec_carried(), ..old(self)@.carrying_space->0 }),
                ..old(self)@
            }),
    {
        let mut cs = self.carrying_space.take().unwrap();
        let mut u = cs.space.remove(k);
        let r = u.edit(edit);
        cs.space.insert(k, u);
        self.carrying_space = Some(cs);
        r
    }
}

impl Unit {
    /// `u2` is this unit, and all it carries, moved to `loc`.
    pub open spec fn moved_to(self, u2: Unit, loc: Location) -> bool {
        &&& u2@ == (UnitView { loc, carrying_space: u2@.carrying_space, ..self@ })
        &&& u2.carrying_space is Some == self.carrying_space is Some
        &&& u2.carrying_space is Some ==> u2@.carrying_space->0 == (CarryingSpaceView {
            space: u2.spec_carried(),
            ..self@.carrying_space->0
        })
        &&& u2.spec_carried().len() == self.spec_carried().len()
        &&& forall|i: int| 0 <= i < self.spec_carried().len() ==> #[trigger] u2.spec_carried()[i]
            == (Unit { loc, ..self.spec_carried()[i] })
    }
}

/// Moving a unit keeps it well-formed, and keeps what the map's indices record of it and its cargo.
pub proof fn lemma_moved_keeps(u: Unit, u2: Unit, loc: Location)
    requires
        u.moved_to(u2, loc),
    ensures
        u2.id == u.id,
        u2.alignment == u.alignment,
        u2.type_ == u.type_,
        u2.loc == loc,
        u.wf() ==> u2.wf(),
        forall|i: int| 0 <= i < u.spec_carried().len() ==> {
            let c = #[trigger] u2.spec_carried()[i];
            &&& c.id == u.spec_carried()[i].id
            &&& c.alignment == u.spec_carried()[i].alignment
            &&& c.type_ == u.spec_carried()[i].type_
            &&& c.loc == loc
        },
{
    if u.wf() {
        assert forall|i: int| 0 <= i < u2.spec_carried().len() implies carried_ok(#[trigger] u2.spec_carried()[i], u2) by {
            assert(carried_ok(u.spec_carried()[i], u));
        }
    }
}

impl Unit {
    /// Where the first carried unit with the given ID stands in this unit's cargo, if anywhere.
    pub(crate) fn carried_index(&self, id: UnitID) -> (r: Option<usize>)
        ensures
            r matches Some(k) ==> k < self.spec_carried().len() && self.spec_carried()[k as int].id == id,
            r is None ==> forall|k: int| 0 <= k < self.spec_carried().len() ==> (#[trigger] self.spec_carried()[k]).id != id,
    {
        if let Some(ref cs) = self.carrying_space {
            let mut k: usize = 0;
            while k < cs.space.len()
                invariant
                    k <= cs.space@.len(),
                    self.carrying_space == Some(*cs),
                    forall|j: int| 0 <= j < k ==> (#[trigger] cs.space@[j]).id != id,
                decreases cs.space@.len() - k,
            {
                if cs.space[k].id == id {
                    return Some(k);
                }
                k = k + 1;
            }
        }
        None
    }
}

/// `UnitType::values` lists each type once, at its index.
/// A unit may always enter a tile of its own city on which no unit stands, whatever the terrain there and however
/// the unit travels: a ship may put into its own coastal city, which stands on land.
pub proof fn law_own_city_is_open(u: Unit, tile: Tile)
    requires
        tile.unit is None,
        tile.city matches Some(c) && c.alignment == u.alignment,
    ensures
        u.spec_can_move_on_tile(tile),
        forall|t: Terrain| #[trigger] u.spec_can_move_on_tile(Tile { terrain: t, ..tile }),
{
}

pub proof fn lemma_unit_type_values_index()
    ensures
        forall|j: int| 0 <= j < 10 ==> (#[trigger] spec_unit_type_values()[j]).spec_index() == j,
        forall|t: UnitType| #[trigger] spec_unit_type_values()[t.spec_index()] == t,
        spec_unit_type_values().len() == 10,
{
    let v = spec_unit_type_values();
    assert(v[0].spec_index() == 0 && v[1].spec_index() == 1 && v[2].spec_index() == 2 && v[3].spec_index() == 3
        && v[4].spec_index() == 4 && v[5].spec_index() == 5 && v[6].spec_index() == 6 && v[7].spec_index() == 7
        && v[8].spec_index() == 8 && v[9].spec_index() == 9);
}

/// An edit keeps what the map's indices record of a unit, and keeps it well-formed.
pub proof fn lemma_edit_keeps(u: Unit, u2: Unit, edit: UnitEdit)
    requires
        u.edited(u2, edit),
    ensures
        u2.id == u.id,
        u2.alignment == u.alignment,
        u2.type_ == u.type_,
        u2.loc == u.loc,
        u2.carrying_space is None == u.carrying_space is None,
        u2.spec_carried().len() == u.spec_carried().len(),
        forall|i: int| 0 <= i < u.spec_carried().len() ==> {
            let c = #[trigger] u2.spec_carried()[i];
            &&& c.id == u.spec_carried()[i].id
            &&& c.alignment == u.spec_carried()[i].alignment
            &&& c.type_ == u.spec_carried()[i].type_
        },
        u.fuel.wf() ==> u2.fuel.wf(),
        u.wf() ==> u2.wf(),
{
    if u.wf() {
        if edit is Activate || edit is RefreshMoves || edit is Refuel {
            assert forall|i: int| 0 <= i < u2.spec_carried().len() implies carried_ok(#[trigger] u2.spec_carried()[i], u2) by {
                assert(carried_ok(u.spec_carried()[i], u));
            }
        } else {
            assert(u2.spec_carried() == u.spec_carried());
            assert forall|i: int| 0 <= i < u2.spec_carried().len() implies carried_ok(#[trigger] u2.spec_carried()[i], u2) by {
                assert(carried_ok(u.spec_carried()[i], u));
            }
        }
    }
}

/// Is `c` a field-by-field copy of `u`, each unit it carries a copy of the one `u` carries in its place?
spec fn copy_of(c: Unit, u: Unit) -> bool
    decreases u,
{
    &&& c.id == u.id
    &&& c.loc == u.loc
    &&& c.type_ == u.type_
    &&& c.alignment == u.alignment
    &&& c.hp == u.hp
    &&& c.max_hp == u.max_hp
    &&& c.moves_remaining == u.moves_remaining
    &&& c.name == u.name
    &&& c.orders == u.orders
    &&& c.fuel == u.fuel
    &&& match u.carrying_space {
        None => c.carrying_space is None,
        Some(b) => match c.carrying_space {
            None => false,
            Some(a) => {
                &&& a.owner == b.owner
                &&& a.accepted_transport_mode == b.accepted_transport_mode
                &&& a.capacity == b.capacity
                &&& a.space@.len() == b.space@.len()
                &&& forall|i: int| 0 <= i < b.space@.len() ==> copy_of(#[trigger] a.space@[i], b.space@[i])
            },
        },
    }
}

impl Unit {
    /// A field-by-field copy of any unit, carried units included.
    fn copy_any(&self) -> (u: Unit)
        ensures
            copy_of(u, *self),
        decreases self,
    {
        let carrying_space = match &self.carrying_space {
            None => None,
            Some(cs) => {
                let mut space: Vec<Unit> = Vec::new();
                let mut i: usize = 0;
                while i < cs.space.len()
                    invariant
                        self.carrying_space == Some(*cs),
                        i <= cs.space@.len(),
                        space@.len() == i,
                        forall|j: int| 0 <= j < i ==> copy_of(#[trigger] space@[j], cs.space@[j]),
                    decreases cs.space@.len() - i,
                {
                    proof {
                        assert(decreases_to!(*self => self.carrying_space));
                        assert(decreases_to!(self.carrying_space => self.carrying_space->0));
                        assert(decreases_to!(*cs => cs.space));
                        assert(decreases_to!(cs.space => cs.space@));
                        assert(decreases_to!(cs.space@ => cs.space@[i as int]));
                    }
                    let c = cs.space[i].copy_any();
                    space.push(c);
                    i = i + 1;
                }
                Some(
                    CarryingSpace {
                        owner: cs.owner,
                        accepted_transport_mode: cs.accepted_transport_mode,
                        capacity: cs.capacity,
                        space,
                    },
                )
            },
        };
        Unit {
            id: self.id,
            loc: self.loc,
            type_: self.type_,
            alignment: self.alignment,
            hp: self.hp,
            max_hp: self.max_hp,
            moves_remaining: self.moves_remaining,
            name: self.name.clone(),
            orders: self.orders,
            carrying_space,
            fuel: self.fuel,
        }
    }
}

impl Clone for Unit {
    fn clone(&self) -> Self {
        self.copy_any()
    }
}

impl Located for Unit {
    open spec fn spec_location(&self) -> Location {
        self.loc
    }

    fn loc(&self) -> (l: Location) {
        self.loc
    }
}

impl Aligned for Unit {
    open spec fn spec_alignment(&self) -> Alignment {
        self.alignment
    }

    fn alignment(&self) -> (a: Alignment) {
        self.alignment
    }
}

impl AlignedMaybe for Unit {
    open spec fn spec_alignment_maybe(&self) -> Option<Alignment> {
        Some(self.alignment)
    }

    fn alignment_maybe(&self) -> (a: Option<Alignment>) {
        Some(self.alignment)
    }
}

} // verus!
