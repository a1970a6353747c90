//! Player actions, and the reduced set of actions an AI chooses among, each with its index.
use vstd::prelude::*;

use crate::game::alignment::Alignment;
use crate::game::city::{City, CityID};
use crate::game::engine::{Game, PlayerSecret, city_locs};
use crate::game::move_::Move;
use crate::game::{TurnPhase, TurnStart, UnitDisbanded};
use crate::game::paths::{legal_directions, productions_with_way_out};
use crate::game::error::GameError;
use crate::game::orders::Orders;
use crate::game::player::PlayerNum;
use crate::game::unit::{UnitID, UnitType, lemma_unit_type_values_index, spec_unit_type_values};
use crate::util::{Direction, Location, lemma_direction_values_index, spec_direction_values};

verus! {

/// What to do with the next city that needs orders.
#[derive(Clone, Copy, Debug, PartialEq, Eq, Hash, Structural)]
pub enum NextCityAction {
    SetProduction { unit_type: UnitType },
}

/// What to do with the next unit that needs orders.
#[derive(Clone, Copy, Debug, PartialEq, Eq, Hash, Structural)]
pub enum NextUnitAction {
    Move { direction: Direction },
    Disband,
    Skip,
}

/// The actions an AI chooses among: one for the next city, or one for the next unit.
#[derive(Clone, Copy, Debug, PartialEq, Eq, Hash, Structural)]
pub enum AiPlayerAction {
    City(NextCityAction),
    Unit(NextUnitAction),
}

/// The number of actions an AI chooses among.
pub const POSSIBLE_ACTIONS: usize = 20;

impl NextCityAction {
    /// The number of city actions there are, whatever the state of the game.
    pub fn possible() -> (n: usize)
        ensures
            n == 10,
    {
        UnitType::values().len()
    }

    pub open spec fn spec_index(self) -> int {
        match self {
            NextCityAction::SetProduction { unit_type } => unit_type.spec_index(),
        }
    }

    pub open spec fn spec_from_index(idx: int) -> NextCityAction {
        NextCityAction::SetProduction { unit_type: spec_unit_type_values()[idx] }
    }

    /// The city action with the given index: producing the unit type of that position in `UnitType::values`.
    pub fn from_index(idx: usize) -> (a: NextCityAction)
        requires
            idx < 10,
        ensures
            a == NextCityAction::spec_from_index(idx as int),
    {
        NextCityAction::SetProduction { unit_type: UnitType::values()[idx] }
    }

    /// The index of this city action.
    pub fn to_index(self) -> (idx: usize)
        ensures
            idx == self.spec_index(),
    {
        match self {
            NextCityAction::SetProduction { unit_type } => {
                let values = UnitType::values();
                proof {
                    lemma_unit_type_values_index();
                }
                let mut i: usize = 0;
                while i < 10
                    invariant
                        i <= 10,
                        values@ == spec_unit_type_values(),
                        self == (NextCityAction::SetProduction { unit_type }),
                        forall|j: int| 0 <= j < 10 ==> (#[trigger] spec_unit_type_values()[j]).spec_index() == j,
                        forall|t: UnitType| #[trigger] spec_unit_type_values()[t.spec_index()] == t,
                        forall|j: int| 0 <= j < i ==> values@[j] != unit_type,
                    decreases 10 - i,
                {
                    if values[i] == unit_type {
                        proof {
                            assert(values@[i as int] == unit_type);
                            assert(spec_unit_type_values()[i as int].spec_index() == i);
                        }
                        return i;
                    }
                    i = i + 1;
                }
                proof {
                    assert(0 <= unit_type.spec_index() < 10);
                    assert(values@[unit_type.spec_index()] == unit_type);
                }
                0
            },
        }
    }

    /// The city action an AI action is, if it is one.
    pub fn try_from_action(action: AiPlayerAction) -> (r: Result<NextCityAction, ()>)
        ensures
            r == match action {
                AiPlayerAction::City(a) => Ok::<NextCityAction, ()>(a),
                AiPlayerAction::Unit(_) => Err(()),
            },
    {
        match action {
            AiPlayerAction::City(a) => Ok(a),
            AiPlayerAction::Unit(_) => Err(()),
        }
    }

    pub fn to_ai_action(self) -> (a: AiPlayerAction)
        ensures
            a == AiPlayerAction::City(self),
    {
        AiPlayerAction::City(self)
    }
}

impl NextUnitAction {
    /// The number of unit actions there are, whatever the state of the game.
    pub fn possible() -> (n: usize)
        ensures
            n == 10,
    {
        Direction::values().len() + 2
    }

    /// Disbanding comes first, skipping second, and then moving in each direction of `Direction::values`.
    pub open spec fn spec_index(self) -> int {
        match self {
            NextUnitAction::Disband => 0,
            NextUnitAction::Skip => 1,
            NextUnitAction::Move { direction } => direction.spec_index() + 2,
        }
    }

    pub open spec fn spec_from_index(idx: int) -> NextUnitAction {
        if idx == 0 {
            NextUnitAction::Disband
        } else if idx == 1 {
            NextUnitAction::Skip
        } else {
            NextUnitAction::Move { direction: spec_direction_values()[idx - 2] }
        }
    }

    /// The unit action with the given index.
    pub fn from_index(idx: usize) -> (a: NextUnitAction)
        requires
            idx < 10,
        ensures
            a == NextUnitAction::spec_from_index(idx as int),
    {
        if idx == 0 {
            NextUnitAction::Disband
        } else if idx == 1 {
            NextUnitAction::Skip
        } else {
            NextUnitAction::Move { direction: Direction::values()[idx - 2] }
        }
    }

    /// The index of this unit action.
    pub fn to_index(self) -> (idx: usize)
        ensures
            idx == self.spec_index(),
    {
        match self {
            NextUnitAction::Disband => 0,
            NextUnitAction::Skip => 1,
            NextUnitAction::Move { direction } => {
                let values = Direction::values();
                proof {
                    lemma_direction_values_index();
                }
                let mut i: usize = 0;
                while i < 8
                    invariant
                        i <= 8,
                        values@ == spec_direction_values(),
                        self == (NextUnitAction::Move { direction }),
                        forall|j: int| 0 <= j < 8 ==> (#[trigger] spec_direction_values()[j]).spec_index() == j,
                        forall|d: Direction| #[trigger] spec_direction_values()[d.spec_index()] == d,
                        forall|j: int| 0 <= j < i ==> values@[j] != direction,
                    decreases 8 - i,
                {
                    if values[i] == direction {
                        proof {
                            assert(values@[i as int] == direction);
                            assert(spec_direction_values()[i as int].spec_index() == i);
                        }
                        return i + 2;
                    }
                    i = i + 1;
                }
                proof {
                    assert(0 <= direction.spec_index() < 8);
                    assert(values@[direction.spec_index()] == direction);
                }
                2
            },
        }
    }

    /// The unit action an AI action is, if it is one.
    pub fn try_from_action(action: AiPlayerAction) -> (r: Result<NextUnitAction, ()>)
        ensures
            r == match action {
                AiPlayerAction::Unit(a) => Ok::<NextUnitAction, ()>(a),
                AiPlayerAction::City(_) => Err(()),
            },
    {
        match action {
            AiPlayerAction::Unit(a) => Ok(a),
            AiPlayerAction::City(_) => Err(()),
        }
    }

    pub fn to_ai_action(self) -> (a: AiPlayerAction)
        ensures
            a == AiPlayerAction::Unit(self),
    {
        AiPlayerAction::Unit(self)
    }
}

impl AiPlayerAction {
    pub fn city_action(&self) -> (b: bool)
        ensures
            b == (*self is City),
    {
        match self {
            AiPlayerAction::City(_) => true,
            AiPlayerAction::Unit(_) => false,
        }
    }

    pub fn unit_action(&self) -> (b: bool)
        ensures
            b == (*self is Unit),
    {
        !self.city_action()
    }

    /// The index of an AI action: the city actions in `UnitType::values` order, then the moves in
    /// `Direction::values` order, then disbanding, then skipping.
    pub open spec fn spec_index(self) -> int {
        match self {
            AiPlayerAction::City(NextCityAction::SetProduction { unit_type }) => unit_type.spec_index(),
            AiPlayerAction::Unit(NextUnitAction::Move { direction }) => 10 + direction.spec_index(),
            AiPlayerAction::Unit(NextUnitAction::Disband) => 18,
            AiPlayerAction::Unit(NextUnitAction::Skip) => 19,
        }
    }

    pub open spec fn spec_from_index(idx: int) -> AiPlayerAction {
        if idx < 10 {
            AiPlayerAction::City(NextCityAction::SetProduction { unit_type: spec_unit_type_values()[idx] })
        } else if idx < 18 {
            AiPlayerAction::Unit(NextUnitAction::Move { direction: spec_direction_values()[idx - 10] })
        } else if idx == 18 {
            AiPlayerAction::Unit(NextUnitAction::Disband)
        } else {
            AiPlayerAction::Unit(NextUnitAction::Skip)
        }
    }

    /// The AI action with the given index.
    pub fn from_index(idx: usize) -> (a: AiPlayerAction)
        requires
            idx < POSSIBLE_ACTIONS,
        ensures
            a == AiPlayerAction::spec_from_index(idx as int),
    {
        if idx < 10 {
            AiPlayerAction::City(NextCityAction::SetProduction { unit_type: UnitType::values()[idx] })
        } else if idx < 18 {
            AiPlayerAction::Unit(NextUnitAction::Move { direction: Direction::values()[idx - 10] })
        } else if idx == 18 {
            AiPlayerAction::Unit(NextUnitAction::Disband)
        } else {
            AiPlayerAction::Unit(NextUnitAction::Skip)
        }
    }

    /// The index of this AI action.
    pub fn to_index(self) -> (idx: usize)
        ensures
            idx == self.spec_index(),
            idx < POSSIBLE_ACTIONS,
    {
        match self {
            AiPlayerAction::City(a) => a.to_index(),
            AiPlayerAction::Unit(NextUnitAction::Move { direction }) => NextUnitAction::Move { direction }.to_index() + 8,
            AiPlayerAction::Unit(NextUnitAction::Disband) => 18,
            AiPlayerAction::Unit(NextUnitAction::Skip) => 19,
        }
    }

    /// Every AI action, by index.
    pub fn possible() -> (v: Vec<AiPlayerAction>)
        ensures
            v@.len() == POSSIBLE_ACTIONS,
            forall|i: int| 0 <= i < POSSIBLE_ACTIONS ==> #[trigger] v@[i] == AiPlayerAction::spec_from_index(i),
    {
        let mut v: Vec<AiPlayerAction> = Vec::new();
        let mut i: usize = 0;
        while i < POSSIBLE_ACTIONS
            invariant
                i <= POSSIBLE_ACTIONS,
                v@.len() == i,
                forall|j: int| 0 <= j < i ==> #[trigger] v@[j] == AiPlayerAction::spec_from_index(j),
            decreases POSSIBLE_ACTIONS - i,
        {
            v.push(AiPlayerAction::from_index(i));
            i = i + 1;
        }
        v
    }
}

/// An AI action's index leads back to it, and every index below the number of actions is an action's.
pub proof fn law_ai_action_index_round_trip(a: AiPlayerAction, idx: int)
    requires
        0 <= idx < POSSIBLE_ACTIONS,
    ensures
        AiPlayerAction::spec_from_index(a.spec_index()) == a,
        0 <= a.spec_index() < POSSIBLE_ACTIONS,
        AiPlayerAction::spec_from_index(idx).spec_index() == idx,
{
    lemma_unit_type_values_index();
    lemma_direction_values_index();
}

/// A city action's index leads back to it, and so does a unit action's; and each index below ten is an action's.
pub proof fn law_next_action_index_round_trip(c: NextCityAction, u: NextUnitAction, idx: int)
    requires
        0 <= idx < 10,
    ensures
        NextCityAction::spec_from_index(c.spec_index()) == c,
        NextCityAction::spec_from_index(idx).spec_index() == idx,
        NextUnitAction::spec_from_index(u.spec_index()) == u,
        NextUnitAction::spec_from_index(idx).spec_index() == idx,
{
    lemma_unit_type_values_index();
    lemma_direction_values_index();
}

/// An action a player can take.
#[derive(Clone, Copy, Debug)]
pub enum PlayerAction {
    BeginTurn { clear_after_unit_production: bool },
    EndTurn,
    SetCityProduction { city_id: CityID, production: UnitType },
    MoveUnit { unit_id: UnitID, dest: Location },
    MoveUnitInDirection { unit_id: UnitID, direction: Direction },
    DisbandUnit { unit_id: UnitID },
    OrderUnit { unit_id: UnitID, orders: Orders },
    SkipUnit { unit_id: UnitID },
}

/// The first of the player's cities awaiting a production setting, as the player last saw it: present when there
/// is such a city and the player saw a city of its own at its location.
pub open spec fn next_city_seen(game: Game, player: PlayerNum) -> Option<City> {
    let requests = game.spec_production_requests(player);
    if requests.len() > 0 {
        match game.spec_player_tile(player, requests[0].loc) {
            Some(t) => match t.city {
                Some(c) => if c.alignment == (Alignment::Belligerent { player }) {
                    Some(c)
                } else {
                    None
                },
                None => None,
            },
            None => None,
        }
    } else {
        None
    }
}

impl NextCityAction {
    /// The player action this city action stands for, for the player holding the secret: setting the production of
    /// the first of the player's cities awaiting a production setting. That player must have such a city, and
    /// have seen it; an error if no player holds the secret.
    pub fn to_action(&self, game: &mut Game, secret: PlayerSecret) -> (r: Result<PlayerAction, GameError>)
        requires
            old(game).wf(),
            old(game).spec_player_with_secret(secret) matches Ok(p) ==> next_city_seen(*old(game), p) is Some,
        ensures
            *final(game) == *old(game),
            match old(game).spec_player_with_secret(secret) {
                Err(e) => r == Err::<PlayerAction, GameError>(e),
                Ok(p) => r == Ok::<PlayerAction, GameError>(
                    match *self {
                        NextCityAction::SetProduction { unit_type } => PlayerAction::SetCityProduction {
                            city_id: next_city_seen(*old(game), p)->0.id,
                            production: unit_type,
                        },
                    },
                ),
            },
    {
        let requests = match game.player_production_set_requests(secret) {
            Ok(v) => v,
            Err(e) => {
                return Err(e);
            },
        };
        let city_loc = requests[0];
        let city_id = match game.player_city_by_loc(secret, city_loc) {
            Ok(Some(city)) => city.id,
            Ok(None) => {
                return Err(GameError::NoCityAtLocation { loc: city_loc });
            },
            Err(e) => {
                return Err(e);
            },
        };
        Ok(
            match *self {
                NextCityAction::SetProduction { unit_type } => PlayerAction::SetCityProduction {
                    city_id,
                    production: unit_type,
                },
            },
        )
    }
}

impl NextUnitAction {
    /// The player action this unit action stands for, for the player holding the secret, on the first of the
    /// player's units awaiting orders: moving it in the direction, disbanding it, or skipping it. That player must
    /// have such a unit; an error if no player holds the secret.
    pub fn to_action(&self, game: &mut Game, secret: PlayerSecret) -> (r: Result<PlayerAction, GameError>)
        requires
            old(game).spec_player_with_secret(secret) matches Ok(p) ==> old(game).spec_orders_requests(p).len() > 0,
        ensures
            *final(game) == *old(game),
            match old(game).spec_player_with_secret(secret) {
                Err(e) => r == Err::<PlayerAction, GameError>(e),
                Ok(p) => r == Ok::<PlayerAction, GameError>({
                    let unit_id = old(game).spec_orders_requests(p)[0].id;
                    match *self {
                        NextUnitAction::Move { direction } => PlayerAction::MoveUnitInDirection { unit_id, direction },
                        NextUnitAction::Disband => PlayerAction::DisbandUnit { unit_id },
                        NextUnitAction::Skip => PlayerAction::SkipUnit { unit_id },
                    }
                }),
            },
    {
        let requests = match game.player_unit_orders_requests(secret) {
            Ok(v) => v,
            Err(e) => {
                return Err(e);
            },
        };
        let unit_id = requests[0];
        Ok(
            match *self {
                NextUnitAction::Move { direction } => PlayerAction::MoveUnitInDirection { unit_id, direction },
                NextUnitAction::Disband => PlayerAction::DisbandUnit { unit_id },
                NextUnitAction::Skip => PlayerAction::SkipUnit { unit_id },
            },
        )
    }
}

impl AiPlayerAction {
    /// The player action this AI action stands for, for the player holding the secret: that of its city action or
    /// of its unit action. That player must have the city or unit the action is for, as those say.
    pub fn to_action(&self, game: &mut Game, secret: PlayerSecret) -> (r: Result<PlayerAction, GameError>)
        requires
            old(game).wf(),
            old(game).spec_player_with_secret(secret) matches Ok(p) ==> match *self {
                AiPlayerAction::City(_) => next_city_seen(*old(game), p) is Some,
                AiPlayerAction::Unit(_) => old(game).spec_orders_requests(p).len() > 0,
            },
        ensures
            *final(game) == *old(game),
            match old(game).spec_player_with_secret(secret) {
                Err(e) => r == Err::<PlayerAction, GameError>(e),
                Ok(p) => r == Ok::<PlayerAction, GameError>(
                    match *self {
                        AiPlayerAction::City(NextCityAction::SetProduction { unit_type }) => PlayerAction::SetCityProduction {
                            city_id: next_city_seen(*old(game), p)->0.id,
                            production: unit_type,
                        },
                        AiPlayerAction::Unit(a) => {
                            let unit_id = old(game).spec_orders_requests(p)[0].id;
                            match a {
                                NextUnitAction::Move { direction } => PlayerAction::MoveUnitInDirection { unit_id, direction },
                                NextUnitAction::Disband => PlayerAction::DisbandUnit { unit_id },
                                NextUnitAction::Skip => PlayerAction::SkipUnit { unit_id },
                            }
                        },
                    },
                ),
            },
    {
        match self {
            AiPlayerAction::City(a) => a.to_action(game, secret),
            AiPlayerAction::Unit(a) => a.to_action(game, secret),
        }
    }
}

/// The city actions setting each of the unit types in turn.
pub open spec fn production_actions(ts: Seq<UnitType>) -> Seq<NextCityAction> {
    ts.map_values(|t: UnitType| NextCityAction::SetProduction { unit_type: t })
}

/// The unit actions moving in each of the directions in turn.
pub open spec fn move_actions(ds: Seq<Direction>) -> Seq<NextUnitAction> {
    ds.map_values(|d: Direction| NextUnitAction::Move { direction: d })
}

/// The city actions the player could take now: setting the production of the first of the player's cities awaiting
/// a production setting to any unit type with a way out of it, conservatively judged; none if no city awaits one.
pub open spec fn legal_city_actions(game: Game, p: PlayerNum) -> Seq<NextCityAction> {
    let locs = city_locs(game.spec_production_requests(p));
    if locs.len() > 0 && game.spec_map().spec_dims().spec_contains(locs[0]) && (game.spec_map().spec_tile(
        locs[0],
    ).city matches Some(c) && c.alignment == (Alignment::Belligerent { player: p })) {
        production_actions(productions_with_way_out(game.spec_map(), game.spec_wrapping(), locs[0], true))
    } else {
        Seq::empty()
    }
}

/// The unit actions the player could take now, for the first of the player's units awaiting orders: disbanding it,
/// skipping it, then moving it in each direction it could step in; none if no unit awaits orders.
pub open spec fn legal_unit_actions(game: Game, p: PlayerNum) -> Seq<NextUnitAction> {
    let reqs = game.spec_orders_requests(p);
    if reqs.len() > 0 {
        let id = reqs[0].id;
        seq![NextUnitAction::Disband, NextUnitAction::Skip] + if game.spec_map().spec_is_player_unit(p, id) {
            move_actions(legal_directions(game.spec_map(), game.spec_wrapping(), game.spec_map().spec_unit_by_id(id)->0))
        } else {
            Seq::empty()
        }
    } else {
        Seq::empty()
    }
}

impl NextCityAction {
    /// The city actions setting each of the given unit types, in their order.
    pub fn for_productions(ts: &Vec<UnitType>) -> (v: Vec<NextCityAction>)
        ensures
            v@ == production_actions(ts@),
    {
        let mut v: Vec<NextCityAction> = Vec::new();
        let mut i: usize = 0;
        while i < ts.len()
            invariant
                i <= ts@.len(),
                v@ == production_actions(ts@.take(i as int)),
            decreases ts@.len() - i,
        {
            v.push(NextCityAction::SetProduction { unit_type: ts[i] });
            proof {
                assert(ts@.take(i as int + 1) =~= ts@.take(i as int).push(ts@[i as int]));
                assert(production_actions(ts@.take(i as int + 1)) =~= production_actions(ts@.take(i as int)).push(
                    NextCityAction::SetProduction { unit_type: ts@[i as int] },
                ));
            }
            i = i + 1;
        }
        proof {
            assert(ts@.take(ts@.len() as int) =~= ts@);
        }
        v
    }

    /// The city actions the player holding the secret could take now, as `legal_city_actions` says; an error if no
    /// player holds the secret.
    pub fn legal(game: &Game, secret: PlayerSecret) -> (r: Result<Vec<NextCityAction>, GameError>)
        requires
            game.wf(),
        ensures
            match game.spec_player_with_secret(secret) {
                Err(e) => r == Err::<Vec<NextCityAction>, GameError>(e),
                Ok(p) => r matches Ok(v) && v@ == legal_city_actions(*game, p),
            },
    {
        let requests = match game.player_production_set_requests(secret) {
            Ok(v) => v,
            Err(e) => {
                return Err(e);
            },
        };
        if requests.len() == 0 {
            return Ok(Vec::new());
        }
        match game.valid_productions_conservative(secret, requests[0]) {
            Ok(ts) => Ok(NextCityAction::for_productions(&ts)),
            Err(_) => Ok(Vec::new()),
        }
    }
}

impl NextUnitAction {
    /// Disbanding, skipping, then moving in each of the given directions in turn.
    pub fn for_directions(ds: &Vec<Direction>) -> (v: Vec<NextUnitAction>)
        ensures
            v@ == seq![NextUnitAction::Disband, NextUnitAction::Skip] + move_actions(ds@),
    {
        let mut v: Vec<NextUnitAction> = Vec::new();
        v.push(NextUnitAction::Disband);
        v.push(NextUnitAction::Skip);
        let mut i: usize = 0;
        while i < ds.len()
            invariant
                i <= ds@.len(),
                v@ == seq![NextUnitAction::Disband, NextUnitAction::Skip] + move_actions(ds@.take(i as int)),
            decreases ds@.len() - i,
        {
            v.push(NextUnitAction::Move { direction: ds[i] });
            proof {
                assert(ds@.take(i as int + 1) =~= ds@.take(i as int).push(ds@[i as int]));
                assert(move_actions(ds@.take(i as int + 1)) =~= move_actions(ds@.take(i as int)).push(
                    NextUnitAction::Move { direction: ds@[i as int] },
                ));
            }
            i = i + 1;
        }
        proof {
            assert(ds@.take(ds@.len() as int) =~= ds@);
        }
        v
    }

    /// The unit actions the player holding the secret could take now, as `legal_unit_actions` says; an error if no
    /// player holds the secret.
    pub fn legal(game: &Game, secret: PlayerSecret) -> (r: Result<Vec<NextUnitAction>, GameError>)
        requires
            game.wf(),
        ensures
            match game.spec_player_with_secret(secret) {
                Err(e) => r == Err::<Vec<NextUnitAction>, GameError>(e),
                Ok(p) => r matches Ok(v) && v@ == legal_unit_actions(*game, p),
            },
    {
        let requests = match game.player_unit_orders_requests(secret) {
            Ok(v) => v,
            Err(e) => {
                return Err(e);
            },
        };
        if requests.len() == 0 {
            return Ok(Vec::new());
        }
        let ghost p = game.spec_player_with_secret(secret)->Ok_0;
        proof {
            assert(requests@[0] == game.spec_orders_requests(p)[0].id);
        }
        match game.player_unit_legal_directions(secret, requests[0]) {
            Ok(ds) => Ok(NextUnitAction::for_directions(&ds)),
            Err(_) => {
                let v = NextUnitAction::for_directions(&Vec::new());
                proof {
                    assert(move_actions(Seq::<Direction>::empty()) =~= Seq::<NextUnitAction>::empty());
                }
                Ok(v)
            },
        }
    }
}

/// What came of a player's action.
pub enum PlayerActionOutcome {
    TurnStarted(TurnStart),
    TurnEnded,
    /// The production the city had before.
    ProductionSet(Option<UnitType>),
    /// A unit moved; `dest` is where it was sent, where that is known.
    MoveUnit { unit_id: UnitID, dest: Option<Location>, move_: Move },
    /// A unit was given orders; `prior_orders` are those it had before.
    OrderUnit { unit_id: UnitID, orders: Orders, prior_orders: Option<Orders> },
    UnitDisbanded(UnitDisbanded),
    /// A unit was ordered to skip its turn; `prior_orders` are those it had before.
    UnitSkipped { unit_id: UnitID, prior_orders: Option<Orders> },
}

/// Does taking the action lead to the game `after` and the result `r`, as the method that carries it out states?
pub open spec fn action_taken_as_stated(
    before: Game,
    after: Game,
    player_secret: PlayerSecret,
    action: PlayerAction,
    r: Result<PlayerActionOutcome, GameError>,
) -> bool {
    match action {
        PlayerAction::BeginTurn { clear_after_unit_production } => exists|r1: Result<TurnStart, GameError>|
            #[trigger] before.begin_turn_outcome(after, player_secret, clear_after_unit_production, r1) && r == match r1 {
                Ok(ts) => Ok::<PlayerActionOutcome, GameError>(PlayerActionOutcome::TurnStarted(ts)),
                Err(e) => Err(e),
            },
        PlayerAction::EndTurn => exists|r1: Result<(), GameError>|
            #[trigger] before.end_turn_outcome(after, player_secret, r1) && r == match r1 {
                Ok(_) => Ok::<PlayerActionOutcome, GameError>(PlayerActionOutcome::TurnEnded),
                Err(e) => Err(e),
            },
        PlayerAction::SetCityProduction { city_id, production } => exists|r1: Result<Option<UnitType>, GameError>|
            #[trigger] before.production_by_id_outcome(after, player_secret, city_id, production, r1) && r == match r1 {
                Ok(prior) => Ok::<PlayerActionOutcome, GameError>(PlayerActionOutcome::ProductionSet(prior)),
                Err(e) => Err(e),
            },
        PlayerAction::MoveUnit { unit_id, dest } => exists|r1: Result<Move, GameError>|
            #[trigger] before.move_by_id_outcome(after, player_secret, unit_id, dest, r1) && match r1 {
                Ok(m) => r matches Ok(PlayerActionOutcome::MoveUnit { unit_id: u, dest: d, move_ }) && u == unit_id && d
                    == Some(dest) && move_ == m,
                Err(e) => r == Err::<PlayerActionOutcome, GameError>(e),
            },
        PlayerAction::MoveUnitInDirection { unit_id, direction } => exists|r1: Result<Move, GameError>|
            #[trigger] before.move_in_direction_outcome(after, player_secret, unit_id, direction, r1) && match r1 {
                Ok(m) => r matches Ok(PlayerActionOutcome::MoveUnit { unit_id: u, dest: d, move_ }) && u == unit_id && d
                    == before.step_dest(player_secret, unit_id, direction) && move_ == m,
                Err(e) => r == Err::<PlayerActionOutcome, GameError>(e),
            },
        PlayerAction::DisbandUnit { unit_id } => exists|r1: Result<UnitDisbanded, GameError>|
            #[trigger] before.disband_outcome(after, player_secret, unit_id, r1) && r == match r1 {
                Ok(d) => Ok::<PlayerActionOutcome, GameError>(PlayerActionOutcome::UnitDisbanded(d)),
                Err(e) => Err(e),
            },
        PlayerAction::OrderUnit { unit_id, orders } => exists|r1: Result<Option<Orders>, GameError>|
            #[trigger] before.set_orders_outcome(after, player_secret, unit_id, orders, r1) && r == match r1 {
                Ok(prior) => Ok::<PlayerActionOutcome, GameError>(
                    PlayerActionOutcome::OrderUnit { unit_id, orders, prior_orders: prior },
                ),
                Err(e) => Err(e),
            },
        PlayerAction::SkipUnit { unit_id } => exists|r1: Result<Option<Orders>, GameError>|
            #[trigger] before.orders_counted_outcome(after, player_secret, unit_id, Orders::Skip, r1) && r == match r1 {
                Ok(prior) => Ok::<PlayerActionOutcome, GameError>(
                    PlayerActionOutcome::UnitSkipped { unit_id, prior_orders: prior },
                ),
                Err(e) => Err(e),
            },
    }
}

/// What taking the action needs of the game: what the method that carries it out requires.
pub open spec fn action_can_be_taken(game: Game, player_secret: PlayerSecret, action: PlayerAction) -> bool {
    &&& game.wf()
    &&& match action {
        PlayerAction::BeginTurn { clear_after_unit_production } => game.spec_validate_phase(
            player_secret,
            TurnPhase::Pre,
        ) matches Ok(p) ==> game.spec_can_begin(p, clear_after_unit_production),
        PlayerAction::EndTurn => game.spec_turn() < u64::MAX,
        PlayerAction::OrderUnit { .. } => true,
        _ => game.spec_action_count() < u64::MAX,
    }
}

impl PlayerAction {
    /// Take the action for the player holding the secret, by the method of the game that carries it out: beginning
    /// or ending the turn, setting a city's production, moving a unit to a location or a step in a direction,
    /// disbanding it, giving it orders, or ordering it to skip its turn.
    pub fn take(self, game: &mut Game, player_secret: PlayerSecret) -> (r: Result<PlayerActionOutcome, GameError>)
        requires
            action_can_be_taken(*old(game), player_secret, self),
        ensures
            final(game).wf(),
            action_taken_as_stated(*old(game), *final(game), player_secret, self, r),
    {
        match self {
            PlayerAction::BeginTurn { clear_after_unit_production } => {
                let r1 = game.begin_turn(player_secret, clear_after_unit_production);
                match r1 {
                    Ok(ts) => Ok(PlayerActionOutcome::TurnStarted(ts)),
                    Err(e) => Err(e),
                }
            },
            PlayerAction::EndTurn => {
                let r1 = game.end_turn(player_secret);
                match r1 {
                    Ok(_) => Ok(PlayerActionOutcome::TurnEnded),
                    Err(e) => Err(e),
                }
            },
            PlayerAction::SetCityProduction { city_id, production } => {
                let r1 = game.set_production_by_id(player_secret, city_id, production);
                match r1 {
                    Ok(prior) => Ok(PlayerActionOutcome::ProductionSet(prior)),
                    Err(e) => Err(e),
                }
            },
            PlayerAction::MoveUnit { unit_id, dest } => {
                let r1 = game.move_unit_by_id(player_secret, unit_id, dest);
                match r1 {
                    Ok(m) => Ok(PlayerActionOutcome::MoveUnit { unit_id, dest: Some(dest), move_: m }),
                    Err(e) => Err(e),
                }
            },
            PlayerAction::MoveUnitInDirection { unit_id, direction } => {
                let dest = game.player_unit_step_dest(player_secret, unit_id, direction);
                let r1 = game.move_unit_by_id_in_direction(player_secret, unit_id, direction);
                match r1 {
                    Ok(m) => Ok(PlayerActionOutcome::MoveUnit { unit_id, dest, move_: m }),
                    Err(e) => Err(e),
                }
            },
            PlayerAction::DisbandUnit { unit_id } => {
                let r1 = game.disband_unit_by_id(player_secret, unit_id);
                match r1 {
                    Ok(d) => Ok(PlayerActionOutcome::UnitDisbanded(d)),
                    Err(e) => Err(e),
                }
            },
            PlayerAction::OrderUnit { unit_id, orders } => {
                let r1 = game.set_orders(player_secret, unit_id, orders);
                match r1 {
                    Ok(prior) => Ok(PlayerActionOutcome::OrderUnit { unit_id, orders, prior_orders: prior }),
                    Err(e) => Err(e),
                }
            },
            PlayerAction::SkipUnit { unit_id } => {
                let r1 = game.order_unit_skip(player_secret, unit_id);
                match r1 {
                    Ok(prior) => Ok(PlayerActionOutcome::UnitSkipped { unit_id, prior_orders: prior }),
                    Err(e) => Err(e),
                }
            },
        }
    }
}

} // verus!
