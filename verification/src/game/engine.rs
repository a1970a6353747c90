//! The engine that runs a game by its rules: whose turn it is, what each player has seen, and what players may do.
use vstd::prelude::*;

use crate::game::alignment::{AlignedMaybe, Alignment};
use crate::game::error::GameError;
use crate::game::city::City;
use crate::game::map::{CitySelection, MapData, NewUnitError, grid_without_unit, is_new_unit, tile_refreshed_for, tile_refueled_for, spec_max_unit_cost, tile_production_incremented, spec_toplevel_units, city_selected, deref_cities, deref_units, spec_all_units, spec_cities, unit_of_player};
use crate::game::orders::Orders;
use crate::game::unit::{Unit, UnitID};
use crate::game::map::unit_counts_for;
use crate::util::{Location, Vec2d, decimal, spec_decimal};
use crate::game::obs::{LocatedObs, LocatedObsLite, Obs, ObsTracker, Observer, PlayerObsTracker, archived, visible_offsets};
use crate::game::tile::Tile;
use crate::game::unit::{UnitEdit, UnitType, spec_unit_type_values};
use crate::game::city::CityID;
use crate::game::player::PlayerNum;
use crate::game::{ActionNum, ProductionCleared, TurnNum, TurnPhase, TurnStart, UnitDisbanded, UnitProductionOutcome};
use crate::util::{Dims, Direction, Located, Wrap2d};
use crate::game::features::{FeatureCounts, listed_count_of, obs_city, obs_enemy, obs_flags, obs_neutral, obs_observed, type_counts, window_flags, window_obs, window_obs_at};
use crate::game::ai::TrainingFocus;
use crate::game::combat::{CombatOutcome, fight_hp};
use crate::game::move_::{Move, MoveComponent, MoveError, lemma_steps_push, lemma_steps_replace_last, steps_follow, total_distance};
use crate::game::obs::Filter;
use crate::game::paths::{UnitMovementFilter, is_path, plan, step, step_vec, stepped};
use crate::game::paths::{legal_destination, legal_directions, productions_with_way_out, unit_legal_directions, unit_legal_one_step_destinations, unit_types_with_way_out};

verus! {

/// A player's secret: the bits of a random UUID handed to the player on registering, and asked of it afterwards.
#[derive(Clone, Copy, Debug, PartialEq, Eq, Hash, Structural)]
pub struct PlayerSecret {
    pub bits: u128,
}

/// A fresh secret: the bits of a random version 4 UUID made by `uuid::Uuid::new_v4`. Being random, nothing is
/// stated of it.
#[verifier::external_body]
fn new_secret() -> PlayerSecret {
    PlayerSecret { bits: uuid::Uuid::new_v4().as_u128() }
}

/// The core engine that enforces the game's rules.
pub struct Game {
    /// The underlying state of the game
    map: MapData,
    player_observations: PlayerObsTracker,
    /// Observations each player has made, but hasn't viewed yet
    player_pending_observations: Vec<Vec<LocatedObsLite>>,
    /// The turn that it is right now
    turn: TurnNum,
    turn_phase: TurnPhase,
    /// The number of players the game is set up for
    num_players: PlayerNum,
    /// As players register, they're given secrets which we track here
    player_secrets: Vec<PlayerSecret>,
    /// The player whose turn it is
    current_player: PlayerNum,
    /// Can you loop around the map vertically, horizontally, or both?
    wrapping: Wrap2d,
    /// How many units have been given names
    units_named: u64,
    /// Whether players' knowledge of the map is limited to what they have observed
    fog_of_war: bool,
    /// The total number of actions taken during the game, by all players
    action_count: ActionNum,
    /// How many actions each player has taken
    action_counts: Vec<ActionNum>,
    /// The total hitpoints of all enemy units defeated by each player
    defeated_unit_hitpoints: Vec<u64>,
}


/// Does the unit await orders: has it none, and moves left?
pub open spec fn awaiting_orders() -> spec_fn(Unit) -> bool {
    |u: Unit| u.orders is None && u.moves_remaining > 0
}

/// Is the unit following orders it was given: has it orders other than to sentry, and moves left?
pub open spec fn following_orders() -> spec_fn(Unit) -> bool {
    |u: Unit| u.moves_remaining > 0 && u.orders is Some && u.orders != Some(Orders::Sentry)
}

/// Where the last step went somewhere and the unit came through it, the unit with the ID stands where that step
/// ended, on its own or carried; where the unit did not come through it, the unit is gone from the map.
pub open spec fn unit_placed(map: MapData, unit_id: UnitID, cs: Seq<MoveComponent>) -> bool {
    &&& (cs.len() > 0 && cs.last().spec_moved_successfully() && cs.last().loc != cs.last().prev_loc) ==> (
    map.spec_unit_by_id(unit_id) matches Some(u) && u.loc == cs.last().loc)
    &&& (cs.len() > 0 && !cs.last().spec_moved_successfully()) ==> map.spec_unit_by_id(unit_id) is None
}

/// Did the unit fight on this step: a unit, or a city?
pub open spec fn fought(c: MoveComponent) -> bool {
    c.unit_combat is Some || c.city_combat is Some
}

/// Did the unit fight on none of the steps?
pub open spec fn no_fights(cs: Seq<MoveComponent>) -> bool {
    forall|i: int| 0 <= i < cs.len() ==> !fought(#[trigger] cs[i])
}

pub open spec fn unit_ids(units: Seq<Unit>) -> Seq<UnitID> {
    units.map_values(|u: Unit| u.id)
}

pub open spec fn city_locs(cities: Seq<City>) -> Seq<Location> {
    cities.map_values(|c: City| c.loc)
}

/// The IDs of the units following orders, or of those awaiting orders, in order.
fn select_unit_ids(units: &Vec<&Unit>, following: bool) -> (v: Vec<UnitID>)
    ensures
        v@ == unit_ids(deref_units(units@).filter(if following { following_orders() } else { awaiting_orders() })),
{
    let ghost sel = if following { following_orders() } else { awaiting_orders() };
    let ghost all = deref_units(units@);
    let mut v: Vec<UnitID> = Vec::new();
    let mut i: usize = 0;
    while i < units.len()
        invariant
            i <= units@.len(),
            all == deref_units(units@),
            sel == (if following { following_orders() } else { awaiting_orders() }),
            v@ == unit_ids(all.take(i as int).filter(sel)),
        decreases units@.len() - i,
    {
        proof {
            reveal(Seq::filter);
            assert(all.take(i as int + 1).drop_last() =~= all.take(i as int));
            assert(all.take(i as int + 1).last() == *units@[i as int]);
        }
        let u = units[i];
        let selected = if following {
            u.moves_remaining() > 0 && match u.orders {
                Some(Orders::Sentry) => false,
                Some(_) => true,
                None => false,
            }
        } else {
            u.orders.is_none() && u.moves_remaining() > 0
        };
        if selected {
            let ghost before = v@;
            v.push(u.id);
            proof {
                assert(v@ =~= before.push(u.id));
                assert(unit_ids(all.take(i as int).filter(sel).push(*u)) =~= unit_ids(all.take(i as int).filter(sel)).push(u.id));
            }
        }
        i = i + 1;
    }
    proof {
        assert(all.take(units@.len() as int) =~= all);
    }
    v
}

/// The units awaiting orders, in order.
fn select_units<'a>(units: Vec<&'a Unit>) -> (v: Vec<&'a Unit>)
    ensures
        deref_units(v@) == deref_units(units@).filter(awaiting_orders()),
{
    let ghost all = deref_units(units@);
    let mut v: Vec<&Unit> = Vec::new();
    let mut i: usize = 0;
    while i < units.len()
        invariant
            i <= units@.len(),
            all == deref_units(units@),
            deref_units(v@) == all.take(i as int).filter(awaiting_orders()),
        decreases units@.len() - i,
    {
        proof {
            reveal(Seq::filter);
            assert(all.take(i as int + 1).drop_last() =~= all.take(i as int));
            assert(all.take(i as int + 1).last() == *units@[i as int]);
        }
        let u = units[i];
        if u.orders.is_none() && u.moves_remaining() > 0 {
            let ghost before = v@;
            v.push(u);
            proof {
                assert(deref_units(v@) =~= deref_units(before).push(*u));
            }
        }
        i = i + 1;
    }
    proof {
        assert(all.take(units@.len() as int) =~= all);
    }
    v
}

/// The locations of the cities.
fn locs_of_cities(cities: &Vec<&City>) -> (v: Vec<Location>)
    ensures
        v@ == city_locs(deref_cities(cities@)),
{
    let mut v: Vec<Location> = Vec::new();
    let mut i: usize = 0;
    while i < cities.len()
        invariant
            i <= cities@.len(),
            v@ == city_locs(deref_cities(cities@).take(i as int)),
        decreases cities@.len() - i,
    {
        let ghost before = v@;
        v.push(cities[i].loc);
        proof {
            assert(deref_cities(cities@).take(i as int + 1) =~= deref_cities(cities@).take(i as int).push(*cities@[i as int]));
            assert(v@ =~= city_locs(deref_cities(cities@).take(i as int + 1)));
        }
        i = i + 1;
    }
    proof {
        assert(deref_cities(cities@).take(cities@.len() as int) =~= deref_cities(cities@));
    }
    v
}

/// Does the tile hold no unit of the player, or one that, like each unit it carries, follows no standing orders
/// other than to sentry?
pub open spec fn no_standing_orders(player: PlayerNum, t: Tile) -> bool {
    match t.unit {
        Some(u) => u.alignment == (Alignment::Belligerent { player }) ==> {
            &&& (u.orders is None || u.orders == Some(Orders::Sentry))
            &&& forall|i: int| 0 <= i < u.spec_carried().len() ==> (#[trigger] u.spec_carried()[i]).orders is None
                || u.spec_carried()[i].orders == Some(Orders::Sentry)
        },
        None => true,
    }
}

/// The player's part of the turn has ended in `after`, which was `before`: the turn passes to the next player, in
/// the phase before its turn begins; the units of the player that are sheltered, carried or in a city on their
/// side, have their fuel filled; the player's observations are no longer current; all else is as it was.
pub open spec fn turn_ended(after: Game, before: Game, p: PlayerNum) -> bool {
    &&& after.spec_current_player() == (p + 1) % (before.spec_num_players() as int)
    &&& after.spec_turn() == if after.spec_current_player() == 0 {
        before.spec_turn() + 1
    } else {
        before.spec_turn() as int
    }
    &&& after.spec_phase() == TurnPhase::Pre
    &&& after.same_but_turn_observations_and_map(before)
    &&& after.spec_map().same_frame(before.spec_map())
    &&& after.spec_map().spec_tiles().len() == before.spec_map().spec_tiles().len()
    &&& forall|j: int| 0 <= j < before.spec_map().spec_tiles().len() ==> tile_refueled_for(
        p,
        #[trigger] before.spec_map().spec_tiles()[j],
        after.spec_map().spec_tiles()[j],
    )
    &&& after.spec_trackers().len() == before.spec_trackers().len()
    &&& archived_tracker(before.spec_trackers()[p as int], after.spec_trackers()[p as int])
    &&& forall|q: int| 0 <= q < before.spec_trackers().len() && q != p ==> #[trigger] after.spec_trackers()[q]
        == before.spec_trackers()[q]
}

/// Tiles whose cities are alike, place by place, list the same cities.
proof fn lemma_same_cities(g: Seq<Tile>, g2: Seq<Tile>)
    requires
        g2.len() == g.len(),
        forall|j: int| 0 <= j < g.len() ==> (#[trigger] g2[j]).city == g[j].city,
    ensures
        spec_cities(g2) == spec_cities(g),
    decreases g.len(),
{
    if g.len() > 0 {
        lemma_same_cities(g.drop_last(), g2.drop_last());
        assert(g2.last().city == g.last().city);
    }
}

/// Is the city producing something, or not to be skipped when productions are requested?
pub open spec fn producing_or_not_ignored() -> spec_fn(City) -> bool {
    |c: City| c.production is Some || !c.ignore_cleared_production
}

/// The tile with the production of its city cleared and marked whether to skip it, if the city is the player's.
pub open spec fn production_cleared(player: PlayerNum, ignore_cleared_production: bool, t: Tile) -> Tile {
    match t.city {
        Some(c) => if c.alignment == (Alignment::Belligerent { player }) {
            Tile { city: Some(City { production: None, ignore_cleared_production, ..c }), ..t }
        } else {
            t
        },
        None => t,
    }
}

/// The player's cities on the first `i + 1` tiles: those on the first `i`, then the city of tile `i` if it is the
/// player's.
proof fn lemma_player_cities_step(g: Seq<Tile>, i: int, player: PlayerNum)
    requires
        0 <= i < g.len(),
    ensures
        spec_cities(g.take(i + 1)).filter(city_selected(player, CitySelection::All)) == match g[i].city {
            Some(c) => if c.alignment == (Alignment::Belligerent { player }) {
                spec_cities(g.take(i)).filter(city_selected(player, CitySelection::All)).push(c)
            } else {
                spec_cities(g.take(i)).filter(city_selected(player, CitySelection::All))
            },
            None => spec_cities(g.take(i)).filter(city_selected(player, CitySelection::All)),
        },
{
    reveal(Seq::filter);
    let sel = city_selected(player, CitySelection::All);
    let a = spec_cities(g.take(i));
    assert(g.take(i + 1).drop_last() =~= g.take(i));
    assert(g.take(i + 1).last() == g[i]);
    match g[i].city {
        Some(c) => {
            assert(spec_cities(g.take(i + 1)) =~= a.push(c));
            assert(a.push(c).drop_last() =~= a);
        },
        None => {
            assert(spec_cities(g.take(i + 1)) =~= a);
        },
    }
}

/// The name given to the `n`th unit a game names.
pub open spec fn unit_name(n: u64) -> Seq<char> {
    "Unit "@ + spec_decimal(n as nat)
}

/// The city once the turn's production is counted: one more, if it is the player's, is producing something, and
/// has not reached the highest cost of any unit.
pub open spec fn city_incremented(player: PlayerNum, c: City) -> City {
    if c.alignment == (Alignment::Belligerent { player }) && c.production is Some && c.production_progress
        < spec_max_unit_cost() {
        City { production_progress: (c.production_progress + 1) as u16, ..c }
    } else {
        c
    }
}

/// Is the city the player's, and has it finished the unit it is producing?
pub open spec fn completes_production(player: PlayerNum) -> spec_fn(City) -> bool {
    |c: City| c.alignment == (Alignment::Belligerent { player }) && c.production is Some && c.production_progress
        >= c.production->0.spec_cost()
}

/// The player's cities, as they stand once the turn's production is counted, that have finished their units, in
/// tile order.
pub open spec fn completing_cities(tiles: Seq<Tile>, player: PlayerNum) -> Seq<City> {
    spec_cities(tiles).map_values(|c: City| city_incremented(player, c)).filter(completes_production(player))
}

/// Counting the turn's production changes nothing but the player's cities.
proof fn lemma_cities_incremented(g: Seq<Tile>, g2: Seq<Tile>, player: PlayerNum)
    requires
        g2.len() == g.len(),
        forall|j: int| 0 <= j < g.len() ==> tile_production_incremented(player, spec_max_unit_cost(), #[trigger] g[j], g2[j]),
    ensures
        spec_cities(g2) == spec_cities(g).map_values(|c: City| city_incremented(player, c)),
    decreases g.len(),
{
    if g.len() > 0 {
        lemma_cities_incremented(g.drop_last(), g2.drop_last(), player);
        assert(tile_production_incremented(player, spec_max_unit_cost(), g[g.len() - 1], g2[g.len() - 1]));
        assert(spec_cities(g).map_values(|c: City| city_incremented(player, c)) =~= spec_cities(g.drop_last()).map_values(
            |c: City| city_incremented(player, c),
        ) + match g.last().city {
            Some(c) => seq![city_incremented(player, c)],
            None => Seq::empty(),
        });
    } else {
        assert(spec_cities(g).map_values(|c: City| city_incremented(player, c)) =~= Seq::<City>::empty());
    }
}

/// How many of the cities have no unit on their tiles in the map, and so produce one.
pub open spec fn produced_count(m: MapData, cs: Seq<City>) -> nat
    decreases cs.len(),
{
    if cs.len() == 0 {
        0
    } else {
        produced_count(m, cs.drop_last()) + if m.spec_tile(cs.last().loc).unit is None {
            1nat
        } else {
            0nat
        }
    }
}

/// Is `o` what comes of the city `c` finishing its unit, with `before` its tile before the turn's production and
/// `after` its tile after? If a unit stood there, nothing is produced and the city keeps its progress; else a new
/// unit of the given ID and name stands there, and the city's progress starts over.
pub open spec fn production_outcome_ok(o: UnitProductionOutcome, c: City, before: Tile, after: Tile, id: UnitID, name: Seq<
    char,
>) -> bool {
    match before.unit {
        Some(u) => {
            &&& o matches UnitProductionOutcome::UnitAlreadyPresent { prior_unit, unit_type_under_production, city }
            &&& o->prior_unit@ == u@
            &&& o->unit_type_under_production == c.production->0
            &&& o->UnitAlreadyPresent_city == c
            &&& after == (Tile { city: Some(c), ..before })
        },
        None => {
            &&& o matches UnitProductionOutcome::UnitProduced { unit, city }
            &&& o->UnitProduced_city == (City { production_progress: 0, ..c })
            &&& after.unit is Some
            &&& o->unit@ == after.unit->0@
            &&& is_new_unit(after.unit->0, id, c.loc, c.production->0, c.alignment, name)
            &&& after == (Tile { unit: after.unit, city: Some(City { production_progress: 0, ..c }), ..before })
        },
    }
}

/// Does the tile hold a city that finishes its unit this turn?
pub open spec fn tile_completes(player: PlayerNum, t: Tile) -> bool {
    t.city is Some && completes_production(player)(city_incremented(player, t.city->0))
}

/// The cities among the first `j` tiles that finish their units this turn, as they stand once the turn's production
/// is counted, in tile order.
pub open spec fn completing_prefix(tiles: Seq<Tile>, j: int, player: PlayerNum) -> Seq<City> {
    spec_cities(tiles.take(j)).map_values(|c: City| city_incremented(player, c)).filter(completes_production(player))
}

/// No more cities produce units than there are cities.
proof fn lemma_produced_count_le(m: MapData, cs: Seq<City>)
    ensures
        produced_count(m, cs) <= cs.len(),
    decreases cs.len(),
{
    if cs.len() > 0 {
        lemma_produced_count_le(m, cs.drop_last());
    }
}

/// The cities finishing their units among the first `j + 1` tiles are those among the first `j`, and the city of
/// tile `j` if it finishes its unit.
proof fn lemma_completing_step(tiles: Seq<Tile>, j: int, player: PlayerNum)
    requires
        0 <= j < tiles.len(),
    ensures
        completing_prefix(tiles, j + 1, player) == if tile_completes(player, tiles[j]) {
            completing_prefix(tiles, j, player).push(city_incremented(player, tiles[j].city->0))
        } else {
            completing_prefix(tiles, j, player)
        },
{
    reveal(Seq::filter);
    let a = spec_cities(tiles.take(j)).map_values(|c: City| city_incremented(player, c));
    let b = spec_cities(tiles.take(j + 1)).map_values(|c: City| city_incremented(player, c));
    assert(tiles.take(j + 1).drop_last() =~= tiles.take(j));
    assert(tiles.take(j + 1).last() == tiles[j]);
    match tiles[j].city {
        Some(c) => {
            assert(b =~= a.push(city_incremented(player, c)));
            assert(b.drop_last() =~= a);
        },
        None => {
            assert(b =~= a);
        },
    }
}

/// Is there an observation of `l` among `r`?
pub open spec fn covers(r: Seq<LocatedObs>, l: Location) -> bool {
    exists|k: int| 0 <= k < r.len() && (#[trigger] r[k]).loc == l
}

/// Does `r` hold an observation of every location an observer at `here` with the given sight sees?
pub open spec fn observer_covered(r: Seq<LocatedObs>, wrapping: Wrap2d, dims: Dims, here: Location, sight: u16) -> bool {
    forall|o: Vec2d| #[trigger] visible_offsets(sight as int).contains(o) ==> (wrapping.spec_wrapped_add(dims, here, o) matches Some(
        l,
    ) ==> covers(r, l))
}

/// Does `r` hold only current observations, made at the given time, of the map's tiles, and is the tracker `o2` the
/// tracker `o` with those observations recorded?
pub open spec fn observations_recorded(m: MapData, turn: TurnNum, ac: ActionNum, o: ObsTracker, o2: ObsTracker, r: Seq<
    LocatedObs,
>) -> bool {
    &&& o2.wf()
    &&& o2.spec_dims() == o.spec_dims()
    &&& forall|k: int| 0 <= k < r.len() ==> m.spec_dims().spec_contains(#[trigger] r[k].loc) && r[k].obs.current_observation_of(
        m.spec_tile(r[k].loc),
        turn,
        ac,
    )
    &&& forall|loc: Location| #[trigger] m.spec_dims().spec_contains(loc) ==> if covers(r, loc) {
        o2.spec_obs(loc).current_observation_of(m.spec_tile(loc), turn, ac)
    } else {
        o2.spec_obs(loc) == o.spec_obs(loc)
    }
}

/// More observations keep those made before.
proof fn lemma_covered_append(r: Seq<LocatedObs>, s: Seq<LocatedObs>, wrapping: Wrap2d, dims: Dims, here: Location, sight: u16)
    requires
        observer_covered(r, wrapping, dims, here, sight),
    ensures
        observer_covered(r + s, wrapping, dims, here, sight),
{
    assert forall|o: Vec2d| #[trigger] visible_offsets(sight as int).contains(o) implies (wrapping.spec_wrapped_add(dims, here, o) matches Some(
        l,
    ) ==> covers(r + s, l)) by {
        if let Some(l) = wrapping.spec_wrapped_add(dims, here, o) {
            let k = choose|k: int| 0 <= k < r.len() && (#[trigger] r[k]).loc == l;
            assert((r + s)[k] == r[k]);
        }
    }
}

/// One observation made and recorded is recorded as a batch of one.
proof fn lemma_single_recorded(m: MapData, turn: TurnNum, ac: ActionNum, o: ObsTracker, o2: ObsTracker, lo: LocatedObs)
    requires
        o2.wf(),
        o2.spec_dims() == o.spec_dims(),
        o.spec_dims() == m.spec_dims(),
        m.spec_dims().spec_contains(lo.loc),
        lo.obs.current_observation_of(m.spec_tile(lo.loc), turn, ac),
        o2.spec_observations() == o.spec_observations().update(o.spec_dims().spec_index(lo.loc), o2.spec_obs(lo.loc)),
        o2.spec_obs(lo.loc).same_as(lo.obs),
        o.spec_observations().len() == o.spec_dims().spec_area(),
    ensures
        observations_recorded(m, turn, ac, o, o2, seq![lo]),
{
    let r = seq![lo];
    assert(r[0] == lo);
    assert forall|loc: Location| #[trigger] m.spec_dims().spec_contains(loc) implies if covers(r, loc) {
        o2.spec_obs(loc).current_observation_of(m.spec_tile(loc), turn, ac)
    } else {
        o2.spec_obs(loc) == o.spec_obs(loc)
    } by {
        crate::util::lemma_index_in_bounds(m.spec_dims(), loc);
        crate::util::lemma_index_in_bounds(m.spec_dims(), lo.loc);
        if loc == lo.loc {
            assert(covers(r, loc));
        } else {
            assert(!covers(r, loc));
            assert(m.spec_dims().spec_index(loc) != m.spec_dims().spec_index(lo.loc));
        }
    }
}

/// Observations recorded one batch after another are recorded together.
proof fn lemma_recorded_append(m: MapData, turn: TurnNum, ac: ActionNum, o: ObsTracker, o1: ObsTracker, o2: ObsTracker, r: Seq<
    LocatedObs,
>, s: Seq<LocatedObs>)
    requires
        observations_recorded(m, turn, ac, o, o1, r),
        observations_recorded(m, turn, ac, o1, o2, s),
    ensures
        observations_recorded(m, turn, ac, o, o2, r + s),
{
    let rs = r + s;
    assert forall|k: int| 0 <= k < rs.len() implies m.spec_dims().spec_contains(#[trigger] rs[k].loc) && rs[k].obs.current_observation_of(
        m.spec_tile(rs[k].loc),
        turn,
        ac,
    ) by {
        if k < r.len() {
            assert(rs[k] == r[k]);
        } else {
            assert(rs[k] == s[k - r.len()]);
        }
    }
    assert forall|loc: Location| #[trigger] m.spec_dims().spec_contains(loc) implies if covers(rs, loc) {
        o2.spec_obs(loc).current_observation_of(m.spec_tile(loc), turn, ac)
    } else {
        o2.spec_obs(loc) == o.spec_obs(loc)
    } by {
        if covers(r, loc) {
            let k = choose|k: int| 0 <= k < r.len() && (#[trigger] r[k]).loc == loc;
            assert(rs[k] == r[k]);
        }
        if covers(s, loc) {
            let k = choose|k: int| 0 <= k < s.len() && (#[trigger] s[k]).loc == loc;
            assert(rs[r.len() + k] == s[k]);
        }
        if covers(rs, loc) {
            let k = choose|k: int| 0 <= k < rs.len() && (#[trigger] rs[k]).loc == loc;
            if k < r.len() {
                assert(rs[k] == r[k]);
                assert(covers(r, loc));
            } else {
                assert(rs[k] == s[k - r.len()]);
                assert(covers(s, loc));
            }
        }
    }
}

/// The locations of the units, each once, in the order they first appear.
pub open spec fn distinct_locs(us: Seq<Unit>) -> Seq<Location>
    decreases us.len(),
{
    if us.len() == 0 {
        Seq::empty()
    } else {
        let d = distinct_locs(us.drop_last());
        if d.contains(us.last().loc) {
            d
        } else {
            d.push(us.last().loc)
        }
    }
}

/// Each of the distinct locations is a unit's location.
proof fn lemma_distinct_locs_in(us: Seq<Unit>)
    ensures
        forall|k: int| 0 <= k < distinct_locs(us).len() ==> exists|j: int| 0 <= j < us.len() && us[j].loc == #[trigger] distinct_locs(us)[k],
    decreases us.len(),
{
    if us.len() > 0 {
        lemma_distinct_locs_in(us.drop_last());
        let d = distinct_locs(us.drop_last());
        assert forall|k: int| 0 <= k < distinct_locs(us).len() implies exists|j: int| 0 <= j < us.len() && us[j].loc == #[trigger] distinct_locs(us)[k] by {
            if k < d.len() {
                assert(distinct_locs(us)[k] == d[k]);
                let j = choose|j: int| 0 <= j < us.drop_last().len() && us.drop_last()[j].loc == d[k];
                assert(us[j] == us.drop_last()[j]);
            } else {
                assert(us[us.len() - 1].loc == distinct_locs(us)[k]);
            }
        }
    }
}

/// The locations of the units, each once, in the order they first appear.
fn locs_of_units(units: &Vec<&Unit>) -> (v: Vec<Location>)
    ensures
        v@ == distinct_locs(deref_units(units@)),
{
    let ghost us = deref_units(units@);
    let mut v: Vec<Location> = Vec::new();
    let mut i: usize = 0;
    while i < units.len()
        invariant
            i <= units@.len(),
            us == deref_units(units@),
            v@ == distinct_locs(us.take(i as int)),
        decreases units@.len() - i,
    {
        proof {
            assert(us.take(i as int + 1).drop_last() =~= us.take(i as int));
            assert(us.take(i as int + 1).last() == *units@[i as int]);
        }
        let loc = units[i].loc;
        let mut found = false;
        let mut k: usize = 0;
        while k < v.len()
            invariant
                k <= v@.len(),
                found == exists|m: int| 0 <= m < k && v@[m] == loc,
            decreases v@.len() - k,
        {
            if v[k] == loc {
                found = true;
            }
            k = k + 1;
        }
        proof {
            if found {
                let m = choose|m: int| 0 <= m < k && v@[m] == loc;
                assert(v@.contains(loc));
            } else {
                assert(!v@.contains(loc));
            }
        }
        if !found {
            v.push(loc);
        }
        i = i + 1;
    }
    proof {
        assert(us.take(units@.len() as int) =~= us);
    }
    v
}

/// The locations each player learns of, as this game's map and fog of war have it, among `locs`.
pub open spec fn received_locs(g: Game, q: int, locs: Seq<Location>) -> Seq<Location> {
    locs.filter(|l: Location| g.spec_receives(q as PlayerNum, l))
}

/// The locations of the observations.
pub open spec fn lite_locs(s: Seq<LocatedObsLite>) -> Seq<Location> {
    s.map_values(|lo: LocatedObsLite| lo.loc)
}

/// Is `o` what comes of the city `c` finishing its unit, with `before` its tile before the turn's production? If a
/// unit stood there, nothing is produced; else a fresh unit of the city's production, of the given ID and name,
/// stands in the city, whose progress starts over.
pub open spec fn outcome_matches(o: UnitProductionOutcome, c: City, before: Tile, id: UnitID, name: Seq<char>) -> bool {
    match before.unit {
        Some(u) => {
            &&& o matches UnitProductionOutcome::UnitAlreadyPresent { prior_unit, unit_type_under_production, city }
            &&& o->prior_unit@ == u@
            &&& o->unit_type_under_production == c.production->0
            &&& o->UnitAlreadyPresent_city == c
        },
        None => {
            &&& o matches UnitProductionOutcome::UnitProduced { unit, city }
            &&& o->UnitProduced_city == (City { production_progress: 0, ..c })
            &&& o->unit.id == id
            &&& o->unit.loc == c.loc
            &&& o->unit.type_ == c.production->0
            &&& o->unit.alignment == c.alignment
            &&& o->unit.hp == c.production->0.spec_max_hp()
            &&& o->unit.moves_remaining == c.production->0.spec_movement_per_turn()
            &&& o->unit.name@ == name
            &&& o->unit.orders is None
        },
    }
}

/// Has the player's unit on the tile, if any, and each unit it carries, a turn's worth of moves?
pub open spec fn units_refreshed(player: PlayerNum, t: Tile) -> bool {
    match t.unit {
        Some(u) => u.alignment == (Alignment::Belligerent { player }) ==> {
            &&& u.moves_remaining == u.type_.spec_movement_per_turn()
            &&& forall|i: int| 0 <= i < u.spec_carried().len() ==> (#[trigger] u.spec_carried()[i]).moves_remaining
                == u.spec_carried()[i].type_.spec_movement_per_turn()
        },
        None => true,
    }
}

/// The city a tile holds once the player's cities have counted the turn's production: one more unit of progress
/// where the city is the player's and producing, and none left where the city finished its unit and, no unit being
/// in the way, produced it.
pub open spec fn city_after_production(player: PlayerNum, t: Tile) -> Option<City> {
    match t.city {
        Some(c) => if tile_completes(player, t) && t.unit is None {
            Some(City { production_progress: 0, ..city_incremented(player, c) })
        } else {
            Some(city_incremented(player, c))
        },
        None => None,
    }
}

/// The city a tile holds once the player's turn has begun: as once production is counted, with the production of a
/// city that produced a unit cleared, and not to be skipped, when so asked.
pub open spec fn city_at_turn_start(player: PlayerNum, clear_after_unit_production: bool, t: Tile) -> Option<City> {
    match city_after_production(player, t) {
        Some(c) => if clear_after_unit_production && tile_completes(player, t) && t.unit is None {
            Some(City { production: None, ignore_cleared_production: false, ..c })
        } else {
            Some(c)
        },
        None => None,
    }
}

/// The city with its production cleared, and not to be skipped, if there is one.
pub open spec fn production_cleared_city(c: Option<City>) -> Option<City> {
    match c {
        Some(c) => Some(City { production: None, ignore_cleared_production: false, ..c }),
        None => None,
    }
}

/// Did one of the outcomes produce a unit in the city at the location of index `j`?
pub open spec fn produced_at(os: Seq<UnitProductionOutcome>, dims: Dims, j: int) -> bool
    decreases os.len(),
{
    if os.len() == 0 {
        false
    } else {
        produced_at(os.drop_last(), dims, j) || (os.last() is UnitProduced && dims.spec_index(
            os.last()->UnitProduced_city.loc,
        ) == j)
    }
}

/// An outcome produced a unit at the location of index `j` exactly when one of them, by position, did.
proof fn lemma_produced_at(os: Seq<UnitProductionOutcome>, dims: Dims, j: int)
    ensures
        produced_at(os, dims, j) <==> exists|k: int|
            0 <= k < os.len() && (#[trigger] os[k]) is UnitProduced && dims.spec_index(os[k]->UnitProduced_city.loc) == j,
    decreases os.len(),
{
    if os.len() > 0 {
        let h = os.drop_last();
        lemma_produced_at(h, dims, j);
        if produced_at(h, dims, j) {
            let k = choose|k: int|
                0 <= k < h.len() && (#[trigger] h[k]) is UnitProduced && dims.spec_index(h[k]->UnitProduced_city.loc) == j;
            assert(os[k] == h[k]);
        }
        if exists|k: int|
            0 <= k < os.len() && (#[trigger] os[k]) is UnitProduced && dims.spec_index(os[k]->UnitProduced_city.loc) == j {
            let k = choose|k: int|
                0 <= k < os.len() && (#[trigger] os[k]) is UnitProduced && dims.spec_index(os[k]->UnitProduced_city.loc) == j;
            if k < h.len() {
                assert(h[k] == os[k]);
            }
        }
    }
}

/// From what counting a turn's production reports: the city each tile then holds, and on which tiles a unit was
/// produced.
proof fn lemma_cities_after_production(
    m0: MapData,
    m2: MapData,
    outcomes: Seq<UnitProductionOutcome>,
    player: PlayerNum,
    named0: int,
)
    requires
        m0.wf(),
        outcomes.len() == completing_cities(m0.spec_tiles(), player).len(),
        forall|k: int| 0 <= k < completing_cities(m0.spec_tiles(), player).len() ==> production_outcome_ok(
            #[trigger] outcomes[k],
            completing_cities(m0.spec_tiles(), player)[k],
            m0.spec_tile(completing_cities(m0.spec_tiles(), player)[k].loc),
            m2.spec_tile(completing_cities(m0.spec_tiles(), player)[k].loc),
            UnitID {
                id: (m0.spec_next_unit_id().id + produced_count(m0, completing_cities(m0.spec_tiles(), player).take(k))) as u64,
            },
            unit_name((named0 + k) as u64),
        ),
        m2.spec_tiles().len() == m0.spec_tiles().len(),
        forall|j: int| 0 <= j < m0.spec_tiles().len() && !tile_completes(player, #[trigger] m0.spec_tiles()[j])
            ==> tile_production_incremented(player, spec_max_unit_cost(), m0.spec_tiles()[j], m2.spec_tiles()[j]),
        m2.spec_dims() == m0.spec_dims(),
    ensures
        forall|j: int| 0 <= j < m0.spec_tiles().len() ==> (#[trigger] m2.spec_tiles()[j]).city == city_after_production(
            player,
            m0.spec_tiles()[j],
        ),
        forall|j: int| 0 <= j < m0.spec_tiles().len() ==> (produced_at(outcomes, m0.spec_dims(), j) <==> (tile_completes(
            player,
            #[trigger] m0.spec_tiles()[j],
        ) && m0.spec_tiles()[j].unit is None)),
{
    let tiles = m0.spec_tiles();
    let dims = m0.spec_dims();
    let all = spec_cities(tiles);
    let inc = all.map_values(|c: City| city_incremented(player, c));
    let cs = completing_cities(tiles, player);
    m0.lemma_cities_at_tiles();
    assert forall|j: int|
        #![trigger m2.spec_tiles()[j]]
        #![trigger tiles[j]]
        0 <= j < tiles.len() implies m2.spec_tiles()[j].city == city_after_production(
        player,
        tiles[j],
    ) && (produced_at(outcomes, dims, j) <==> (tile_completes(player, tiles[j]) && tiles[j].unit is None)) by {
        m0.lemma_tile_at_index(j);
        let t0 = tiles[j];
        lemma_produced_at(outcomes, dims, j);
        if tile_completes(player, t0) {
            let c0 = t0.city->0;
            let c1 = city_incremented(player, c0);
            assert(all.contains(c0));
            let m = choose|m: int| 0 <= m < all.len() && all[m] == c0;
            assert(inc[m] == c1);
            inc.lemma_filter_contains(completes_production(player), m);
            let k = choose|k: int| 0 <= k < cs.len() && cs[k] == c1;
            assert(c1.loc == dims.spec_loc(j));
            assert(m2.spec_tile(c1.loc) == m2.spec_tiles()[j]);
            assert(production_outcome_ok(
                outcomes[k],
                cs[k],
                m0.spec_tile(cs[k].loc),
                m2.spec_tile(cs[k].loc),
                UnitID { id: (m0.spec_next_unit_id().id + produced_count(m0, cs.take(k))) as u64 },
                unit_name((named0 + k) as u64),
            ));
        } else {
            assert(tile_production_incremented(player, spec_max_unit_cost(), t0, m2.spec_tiles()[j]));
            if produced_at(outcomes, dims, j) {
                let k = choose|k: int|
                    0 <= k < outcomes.len() && (#[trigger] outcomes[k]) is UnitProduced && dims.spec_index(
                        outcomes[k]->UnitProduced_city.loc,
                    ) == j;
                assert(production_outcome_ok(
                    outcomes[k],
                    cs[k],
                    m0.spec_tile(cs[k].loc),
                    m2.spec_tile(cs[k].loc),
                    UnitID { id: (m0.spec_next_unit_id().id + produced_count(m0, cs.take(k))) as u64 },
                    unit_name((named0 + k) as u64),
                ));
                assert(cs.contains(cs[k]));
                inc.lemma_filter_contains_rev(completes_production(player), cs[k]);
                inc.lemma_filter_pred(completes_production(player), k);
                let m = choose|m: int| 0 <= m < inc.len() && inc[m] == cs[k];
                assert(inc[m] == city_incremented(player, all[m]));
                assert(m0.spec_tile(all[m].loc).city == Some(all[m]));
                assert(false);
            }
        }
    }
}

/// A unit made as a city finishes its production is fresh, as the outcome reports it.
proof fn lemma_outcome_matches(o: UnitProductionOutcome, c: City, before: Tile, after: Tile, id: UnitID, name: Seq<char>)
    requires
        production_outcome_ok(o, c, before, after, id, name),
    ensures
        outcome_matches(o, c, before, id, name),
{
    if before.unit is None {
        let u = o->unit;
        let a = after.unit->0;
        assert(u@.id == a@.id && u@.loc == a@.loc && u@.type_ == a@.type_ && u@.alignment == a@.alignment);
        assert(u@.hp == a@.hp && u@.moves_remaining == a@.moves_remaining && u@.name == a@.name && u@.orders == a@.orders);
    }
}

/// After moves are restored, the player's units on the tile have a turn's worth of moves.
proof fn lemma_refreshed_units(player: PlayerNum, t: Tile, t2: Tile)
    requires
        tile_refreshed_for(player, t, t2),
    ensures
        units_refreshed(player, t2),
{
    if t.unit is Some && t.unit->0.alignment == (Alignment::Belligerent { player }) {
        let u = t.unit->0;
        let u2 = t2.unit->0;
        assert(u2@.moves_remaining == u.type_.spec_movement_per_turn());
        assert(u2@.type_ == u@.type_);
        assert forall|i: int| 0 <= i < u2.spec_carried().len() implies (#[trigger] u2.spec_carried()[i]).moves_remaining
            == u2.spec_carried()[i].type_.spec_movement_per_turn() by {
            assert(u2.spec_carried()[i] == (Unit { moves_remaining: u.spec_carried()[i].type_.spec_movement_per_turn(), ..u.spec_carried()[i] }));
        }
    }
}

/// Is `o2` the tracker `o` with an observation alike to `obs` recorded at `loc`?
pub open spec fn recorded(o: ObsTracker, o2: ObsTracker, loc: Location, obs: Obs) -> bool {
    &&& o2.spec_dims() == o.spec_dims()
    &&& o2.spec_obs(loc).same_as(obs)
    &&& o2.spec_observations() == o.spec_observations().update(o.spec_dims().spec_index(loc), o2.spec_obs(loc))
}

/// Is `q2` the queue `q` with an observation alike to `obs`, at `loc`, added at its end?
pub open spec fn queued(q: Seq<LocatedObsLite>, q2: Seq<LocatedObsLite>, loc: Location, obs: Obs) -> bool {
    &&& q2.len() == q.len() + 1
    &&& q2.drop_last() == q
    &&& q2.last().loc == loc
    &&& q2.last().obs.same_as(obs)
}

/// Is `b` the tracker `a` once every observation in it is no longer current?
pub open spec fn archived_tracker(a: ObsTracker, b: ObsTracker) -> bool {
    &&& b.wf()
    &&& b.spec_dims() == a.spec_dims()
    &&& b.spec_num_observed() == a.spec_num_observed()
    &&& b.spec_observations().len() == a.spec_observations().len()
    &&& forall|i: int| 0 <= i < a.spec_observations().len() ==> #[trigger] b.spec_observations()[i] == archived(
        a.spec_observations()[i],
    )
}

impl Game {
    pub closed spec fn spec_map(self) -> MapData {
        self.map
    }

    /// Each player's observations, by player.
    pub closed spec fn spec_trackers(self) -> Seq<ObsTracker> {
        self.player_observations.spec_trackers()
    }

    /// Each player's observations not yet viewed, by player.
    pub closed spec fn spec_pending(self) -> Seq<Seq<LocatedObsLite>> {
        self.player_pending_observations@.map_values(|v: Vec<LocatedObsLite>| v@)
    }

    pub closed spec fn spec_turn(self) -> TurnNum {
        self.turn
    }

    pub closed spec fn spec_phase(self) -> TurnPhase {
        self.turn_phase
    }

    pub closed spec fn spec_num_players(self) -> PlayerNum {
        self.num_players
    }

    /// The secrets handed out so far, by player.
    pub closed spec fn spec_secrets(self) -> Seq<PlayerSecret> {
        self.player_secrets@
    }

    pub closed spec fn spec_current_player(self) -> PlayerNum {
        self.current_player
    }

    pub closed spec fn spec_wrapping(self) -> Wrap2d {
        self.wrapping
    }

    pub closed spec fn spec_units_named(self) -> u64 {
        self.units_named
    }

    pub closed spec fn spec_fog_of_war(self) -> bool {
        self.fog_of_war
    }

    pub closed spec fn spec_action_count(self) -> ActionNum {
        self.action_count
    }

    /// How many actions each player has taken, by player.
    pub closed spec fn spec_action_counts(self) -> Seq<ActionNum> {
        self.action_counts@
    }

    /// The hitpoints of enemy units each player has defeated, by player.
    pub closed spec fn spec_defeated_hitpoints(self) -> Seq<u64> {
        self.defeated_unit_hitpoints@
    }

    /// Well-formedness: a well-formed map; for each player a tracker of the map's dimensions, a queue and counts;
    /// no more secrets than players; a current player among the players; and no player with more actions than
    /// have been taken in all.
    pub closed spec fn wf(self) -> bool {
        &&& self.map.wf()
        &&& self.player_observations.spec_trackers().len() == self.num_players
        &&& forall|p: int| 0 <= p < self.num_players ==> {
            let o = #[trigger] self.player_observations.spec_trackers()[p];
            &&& o.wf()
            &&& o.spec_dims() == self.map.spec_dims()
        }
        &&& self.player_pending_observations@.len() == self.num_players
        &&& self.player_secrets@.len() <= self.num_players
        &&& self.action_counts@.len() == self.num_players
        &&& self.defeated_unit_hitpoints@.len() == self.num_players
        &&& (self.num_players > 0 ==> self.current_player < self.num_players)
        &&& (self.num_players == 0 ==> self.current_player == 0)
        &&& forall|p: int| 0 <= p < self.num_players ==> #[trigger] self.action_counts@[p] <= self.action_count
    }

    /// Everything but the secrets is as in `other`.
    pub open spec fn same_but_secrets(self, other: Game) -> bool {
        &&& self.spec_map() == other.spec_map()
        &&& self.spec_trackers() == other.spec_trackers()
        &&& self.spec_pending() == other.spec_pending()
        &&& self.spec_turn() == other.spec_turn()
        &&& self.spec_phase() == other.spec_phase()
        &&& self.spec_num_players() == other.spec_num_players()
        &&& self.spec_current_player() == other.spec_current_player()
        &&& self.spec_wrapping() == other.spec_wrapping()
        &&& self.spec_units_named() == other.spec_units_named()
        &&& self.spec_fog_of_war() == other.spec_fog_of_war()
        &&& self.spec_action_count() == other.spec_action_count()
        &&& self.spec_action_counts() == other.spec_action_counts()
        &&& self.spec_defeated_hitpoints() == other.spec_defeated_hitpoints()
    }

    /// Everything but the turn, its phase, the current player and the observations is as in `other`.
    pub open spec fn same_but_turn_observations_and_map(self, other: Game) -> bool {
        &&& self.spec_pending() == other.spec_pending()
        &&& self.spec_num_players() == other.spec_num_players()
        &&& self.spec_secrets() == other.spec_secrets()
        &&& self.spec_wrapping() == other.spec_wrapping()
        &&& self.spec_units_named() == other.spec_units_named()
        &&& self.spec_fog_of_war() == other.spec_fog_of_war()
        &&& self.spec_action_count() == other.spec_action_count()
        &&& self.spec_action_counts() == other.spec_action_counts()
        &&& self.spec_defeated_hitpoints() == other.spec_defeated_hitpoints()
    }

    /// Everything but the turn, the current player, the phase and the observations is as in `other`.
    pub open spec fn same_but_turn_and_observations(self, other: Game) -> bool {
        &&& self.spec_map() == other.spec_map()
        &&& self.spec_pending() == other.spec_pending()
        &&& self.spec_num_players() == other.spec_num_players()
        &&& self.spec_secrets() == other.spec_secrets()
        &&& self.spec_wrapping() == other.spec_wrapping()
        &&& self.spec_units_named() == other.spec_units_named()
        &&& self.spec_fog_of_war() == other.spec_fog_of_war()
        &&& self.spec_action_count() == other.spec_action_count()
        &&& self.spec_action_counts() == other.spec_action_counts()
        &&& self.spec_defeated_hitpoints() == other.spec_defeated_hitpoints()
    }

    /// Everything but the map is as in `other`.
    pub open spec fn same_but_map(self, other: Game) -> bool {
        &&& self.spec_trackers() == other.spec_trackers()
        &&& self.spec_pending() == other.spec_pending()
        &&& self.spec_turn() == other.spec_turn()
        &&& self.spec_phase() == other.spec_phase()
        &&& self.spec_num_players() == other.spec_num_players()
        &&& self.spec_secrets() == other.spec_secrets()
        &&& self.spec_current_player() == other.spec_current_player()
        &&& self.spec_wrapping() == other.spec_wrapping()
        &&& self.spec_units_named() == other.spec_units_named()
        &&& self.spec_fog_of_war() == other.spec_fog_of_war()
        &&& self.spec_action_count() == other.spec_action_count()
        &&& self.spec_action_counts() == other.spec_action_counts()
        &&& self.spec_defeated_hitpoints() == other.spec_defeated_hitpoints()
    }

    /// Everything but the map and the counts of actions is as in `other`, and one more action of the player's is
    /// counted.
    pub open spec fn action_counted(self, other: Game, player: PlayerNum) -> bool {
        &&& self.spec_action_count() == other.spec_action_count() + 1
        &&& self.spec_action_counts() == other.spec_action_counts().update(
            player as int,
            (other.spec_action_counts()[player as int] + 1) as u64,
        )
        &&& self.spec_trackers() == other.spec_trackers()
        &&& self.spec_pending() == other.spec_pending()
        &&& self.spec_turn() == other.spec_turn()
        &&& self.spec_phase() == other.spec_phase()
        &&& self.spec_num_players() == other.spec_num_players()
        &&& self.spec_secrets() == other.spec_secrets()
        &&& self.spec_current_player() == other.spec_current_player()
        &&& self.spec_wrapping() == other.spec_wrapping()
        &&& self.spec_units_named() == other.spec_units_named()
        &&& self.spec_fog_of_war() == other.spec_fog_of_war()
        &&& self.spec_defeated_hitpoints() == other.spec_defeated_hitpoints()
    }

    /// The player's most recent observation of `loc`, if `loc` is on the map.
    pub open spec fn spec_player_obs(self, player: PlayerNum, loc: Location) -> Option<Obs> {
        if self.spec_map().spec_dims().spec_contains(loc) {
            Some(self.spec_trackers()[player as int].spec_obs(loc))
        } else {
            None
        }
    }

    /// Did the player last see a city of its own at `loc`?
    pub open spec fn spec_sees_own_city(self, player: PlayerNum, loc: Location) -> bool {
        self.spec_player_tile(player, loc) matches Some(t) && t.city matches Some(c) && c.alignment
            == (Alignment::Belligerent { player })
    }

    /// The tile as the player last saw it, if the player has observed `loc`.
    pub open spec fn spec_player_tile(self, player: PlayerNum, loc: Location) -> Option<Tile> {
        match self.spec_player_obs(player, loc) {
            Some(Obs::Observed { tile, .. }) => Some(tile),
            _ => None,
        }
    }

    /// Can one of the player's top-level units, or one of its cities, see `loc`?
    pub open spec fn spec_player_sees(self, player: PlayerNum, loc: Location) -> bool {
        let units = spec_toplevel_units(self.spec_map().spec_tiles()).filter(unit_of_player(player));
        let cities = spec_cities(self.spec_map().spec_tiles()).filter(city_selected(player, CitySelection::All));
        ||| exists|i: int|
            0 <= i < units.len() && (#[trigger] units[i]).loc.spec_manhattan(loc) <= units[i].spec_sight_distance()
        ||| exists|i: int| 0 <= i < cities.len() && (#[trigger] cities[i]).loc.spec_manhattan(loc) <= 3
    }

    /// Does the player learn what happens at `loc`: always without fog of war, else when it can see `loc`?
    pub open spec fn spec_receives(self, player: PlayerNum, loc: Location) -> bool {
        !self.spec_fog_of_war() || self.spec_player_sees(player, loc)
    }

    /// Everything but the observations and the observations not yet viewed is as in `other`.
    pub open spec fn same_but_observations(self, other: Game) -> bool {
        &&& self.spec_map() == other.spec_map()
        &&& self.spec_turn() == other.spec_turn()
        &&& self.spec_phase() == other.spec_phase()
        &&& self.spec_num_players() == other.spec_num_players()
        &&& self.spec_secrets() == other.spec_secrets()
        &&& self.spec_current_player() == other.spec_current_player()
        &&& self.spec_wrapping() == other.spec_wrapping()
        &&& self.spec_units_named() == other.spec_units_named()
        &&& self.spec_fog_of_war() == other.spec_fog_of_war()
        &&& self.spec_action_count() == other.spec_action_count()
        &&& self.spec_action_counts() == other.spec_action_counts()
        &&& self.spec_defeated_hitpoints() == other.spec_defeated_hitpoints()
    }

    /// Everything but the observations, the observations not yet viewed and the map is as in `other`.
    pub open spec fn same_but_observations_and_map(self, other: Game) -> bool {
        &&& self.spec_turn() == other.spec_turn()
        &&& self.spec_phase() == other.spec_phase()
        &&& self.spec_num_players() == other.spec_num_players()
        &&& self.spec_secrets() == other.spec_secrets()
        &&& self.spec_current_player() == other.spec_current_player()
        &&& self.spec_wrapping() == other.spec_wrapping()
        &&& self.spec_units_named() == other.spec_units_named()
        &&& self.spec_fog_of_war() == other.spec_fog_of_war()
        &&& self.spec_action_count() == other.spec_action_count()
        &&& self.spec_action_counts() == other.spec_action_counts()
        &&& self.spec_defeated_hitpoints() == other.spec_defeated_hitpoints()
    }

    /// Everything but the map and the count of units named is as in `other`.
    pub open spec fn same_but_map_and_names(self, other: Game) -> bool {
        &&& self.spec_trackers() == other.spec_trackers()
        &&& self.spec_pending() == other.spec_pending()
        &&& self.spec_turn() == other.spec_turn()
        &&& self.spec_phase() == other.spec_phase()
        &&& self.spec_num_players() == other.spec_num_players()
        &&& self.spec_secrets() == other.spec_secrets()
        &&& self.spec_current_player() == other.spec_current_player()
        &&& self.spec_wrapping() == other.spec_wrapping()
        &&& self.spec_fog_of_war() == other.spec_fog_of_war()
        &&& self.spec_action_count() == other.spec_action_count()
        &&& self.spec_action_counts() == other.spec_action_counts()
        &&& self.spec_defeated_hitpoints() == other.spec_defeated_hitpoints()
    }

    /// Each player that learns what happens at `loc` (as this game's map and fog of war have it) has recorded, and
    /// queued for viewing, an observation there alike to `obs`; every other player's observations and queue are as in
    /// `other`.
    pub open spec fn observed_at(self, other: Game, loc: Location, obs: Obs) -> bool {
        &&& self.spec_trackers().len() == other.spec_trackers().len()
        &&& self.spec_pending().len() == other.spec_pending().len()
        &&& forall|p: int|
            #![trigger self.spec_trackers()[p]]
            0 <= p < other.spec_trackers().len() ==> if self.spec_receives(p as PlayerNum, loc) {
                &&& recorded(other.spec_trackers()[p], self.spec_trackers()[p], loc, obs)
                &&& queued(other.spec_pending()[p], self.spec_pending()[p], loc, obs)
            } else {
                self.spec_trackers()[p] == other.spec_trackers()[p] && self.spec_pending()[p] == other.spec_pending()[p]
            }
    }

    /// As `observed_at`, except that `player` records the observation whether or not it learns of it.
    pub open spec fn observed_at_also_by(self, other: Game, loc: Location, obs: Obs, player: PlayerNum) -> bool {
        &&& self.spec_trackers().len() == other.spec_trackers().len()
        &&& self.spec_pending().len() == other.spec_pending().len()
        &&& forall|p: int|
            #![trigger self.spec_trackers()[p]]
            0 <= p < other.spec_trackers().len() ==> if self.spec_receives(p as PlayerNum, loc) || p == player {
                recorded(other.spec_trackers()[p], self.spec_trackers()[p], loc, obs)
            } else {
                self.spec_trackers()[p] == other.spec_trackers()[p]
            }
        &&& forall|p: int|
            #![trigger self.spec_pending()[p]]
            0 <= p < other.spec_pending().len() ==> if self.spec_receives(p as PlayerNum, loc) {
                queued(other.spec_pending()[p], self.spec_pending()[p], loc, obs)
            } else {
                self.spec_pending()[p] == other.spec_pending()[p]
            }
    }

    /// Each player that learns what happens at a location among `locs` has recorded a current observation there;
    /// each has queued for viewing, after what it had queued in `other`, current observations of the locations it
    /// learns of, in the order of `locs`; all else is as in `other`.
    pub open spec fn observed_all(self, other: Game, locs: Seq<Location>) -> bool {
        &&& self.spec_trackers().len() == other.spec_trackers().len()
        &&& self.spec_pending().len() == other.spec_pending().len()
        &&& forall|q: int|
            #![trigger self.spec_trackers()[q]]
            0 <= q < other.spec_trackers().len() ==> {
                &&& self.spec_trackers()[q].wf()
                &&& self.spec_trackers()[q].spec_dims() == other.spec_trackers()[q].spec_dims()
                &&& forall|loc: Location| #[trigger] self.spec_map().spec_dims().spec_contains(loc) ==> if locs.contains(loc)
                    && self.spec_receives(q as PlayerNum, loc) {
                    self.spec_trackers()[q].spec_obs(loc).current_observation_of(
                        self.spec_map().spec_tile(loc),
                        self.spec_turn(),
                        self.spec_action_count(),
                    )
                } else {
                    self.spec_trackers()[q].spec_obs(loc) == other.spec_trackers()[q].spec_obs(loc)
                }
            }
        &&& forall|q: int|
            #![trigger self.spec_pending()[q]]
            0 <= q < other.spec_pending().len() ==> {
                let added = self.spec_pending()[q].skip(other.spec_pending()[q].len() as int);
                &&& self.spec_pending()[q].len() >= other.spec_pending()[q].len()
                &&& self.spec_pending()[q].take(other.spec_pending()[q].len() as int) == other.spec_pending()[q]
                &&& lite_locs(added) == received_locs(self, q, locs)
                &&& forall|e: int| 0 <= e < added.len() ==> (#[trigger] added[e]).obs.current_observation_of(
                    self.spec_map().spec_tile(added[e].loc),
                    self.spec_turn(),
                    self.spec_action_count(),
                )
            }
    }

    /// This game is `before` with the turn of player `p` begun, as `ts` reports: its cities produced their units
    /// (the outcomes in tile order), its units got a turn's worth of moves, and its cities and units observed what
    /// they see (all the map, without fog of war); the turn's main phase has begun.
    pub open spec fn began_turn(self, before: Game, p: PlayerNum, clear_after_unit_production: bool, ts: TurnStart) -> bool {
        let m0 = before.spec_map();
        let m3 = self.spec_map();
        let cs = completing_cities(m0.spec_tiles(), p);
        &&& ts.turn == self.spec_turn()
        &&& ts.current_player == p
        &&& self.spec_current_player() == p
        &&& self.spec_phase() == TurnPhase::Main
        &&& self.spec_num_players() == before.spec_num_players()
        &&& self.spec_secrets() == before.spec_secrets()
        &&& self.spec_wrapping() == before.spec_wrapping()
        &&& self.spec_fog_of_war() == before.spec_fog_of_war()
        &&& self.spec_action_count() == before.spec_action_count()
        &&& self.spec_action_counts() == before.spec_action_counts()
        &&& self.spec_defeated_hitpoints() == before.spec_defeated_hitpoints()
        &&& self.spec_units_named() == before.spec_units_named() + cs.len()
        &&& ts.production_outcomes@.len() == cs.len()
        &&& forall|k: int| 0 <= k < cs.len() ==> outcome_matches(
            #[trigger] ts.production_outcomes@[k],
            cs[k],
            m0.spec_tile(cs[k].loc),
            UnitID { id: (m0.spec_next_unit_id().id + produced_count(m0, cs.take(k))) as u64 },
            unit_name((before.spec_units_named() + k) as u64),
        )
        &&& m3.spec_dims() == m0.spec_dims()
        &&& m3.spec_next_unit_id().id == m0.spec_next_unit_id().id + produced_count(m0, cs)
        &&& forall|j: int| 0 <= j < m3.spec_tiles().len() ==> units_refreshed(p, #[trigger] m3.spec_tiles()[j])
        &&& m3.spec_tiles().len() == m0.spec_tiles().len()
        &&& forall|j: int| 0 <= j < m0.spec_tiles().len() ==> (#[trigger] m3.spec_tiles()[j]).city == city_at_turn_start(
            p,
            clear_after_unit_production,
            m0.spec_tiles()[j],
        )
        &&& forall|k: int| 0 <= k < ts.observations@.len() ==> m3.spec_dims().spec_contains(#[trigger] ts.observations@[k].loc)
            && ts.observations@[k].obs.current_observation_of(m3.spec_tile(ts.observations@[k].loc), self.spec_turn(), self.spec_action_count())
        &&& forall|loc: Location| #[trigger] m3.spec_dims().spec_contains(loc) && covers(ts.observations@, loc) ==> self.spec_trackers()[p as int].spec_obs(loc).current_observation_of(
            m3.spec_tile(loc),
            self.spec_turn(),
            self.spec_action_count(),
        )
        &&& self.spec_fog_of_war() ==> forall|i: int| 0 <= i < spec_cities(m3.spec_tiles()).filter(
            city_selected(p, CitySelection::All),
        ).len() ==> observer_covered(
            ts.observations@,
            self.spec_wrapping(),
            m3.spec_dims(),
            #[trigger] spec_cities(m3.spec_tiles()).filter(city_selected(p, CitySelection::All))[i].loc,
            3,
        )
        &&& self.spec_fog_of_war() ==> forall|i: int| 0 <= i < self.spec_player_units(p).len() ==> observer_covered(
            ts.observations@,
            self.spec_wrapping(),
            m3.spec_dims(),
            (#[trigger] self.spec_player_units(p)[i]).loc,
            self.spec_player_units(p)[i].spec_sight_distance(),
        )
        &&& !self.spec_fog_of_war() ==> ts.observations@.len() == m3.spec_dims().spec_area() && forall|k: int|
            0 <= k < ts.observations@.len() ==> #[trigger] ts.observations@[k].loc == m3.spec_dims().spec_loc(k)
    }

    /// May the turn of player `p` begin: it follows no standing orders other than to sentry, and, if the cities
    /// that produce a unit are to have their production cleared, it has seen each such city. Clearing goes through
    /// `clear_production`, which finds a city only where the player's own record of the map shows one of its
    /// cities, and fails elsewhere.
    pub open spec fn spec_can_begin(self, p: PlayerNum, clear_after_unit_production: bool) -> bool {
        &&& forall|j: int| 0 <= j < self.spec_map().spec_tiles().len() ==> no_standing_orders(
            p,
            #[trigger] self.spec_map().spec_tiles()[j],
        )
        &&& clear_after_unit_production ==> forall|k: int| 0 <= k < completing_cities(self.spec_map().spec_tiles(), p).len()
            ==> (self.spec_sees_own_city(p, (#[trigger] completing_cities(self.spec_map().spec_tiles(), p)[k]).loc))
        &&& self.spec_map().spec_next_unit_id().id + self.spec_map().spec_dims().spec_area() <= u64::MAX
        &&& self.spec_units_named() + self.spec_map().spec_dims().spec_area() <= u64::MAX
    }

    /// The player holding the secret: the first one given it.
    pub open spec fn spec_player_with_secret(self, secret: PlayerSecret) -> Result<PlayerNum, GameError> {
        match self.spec_secrets().index_of_first(secret) {
            Some(i) => Ok(i as PlayerNum),
            None => Err(GameError::NoPlayerIdentifiedBySecret),
        }
    }

    /// The player holding the secret, if it is that player's turn.
    pub open spec fn spec_validate_turn(self, secret: PlayerSecret) -> Result<PlayerNum, GameError> {
        match self.spec_player_with_secret(secret) {
            Ok(p) => if p == self.spec_current_player() {
                Ok(p)
            } else {
                Err(GameError::NotPlayersTurn { player: p })
            },
            Err(e) => Err(e),
        }
    }

    /// The player holding the secret, if it is that player's turn and the turn is in the given phase.
    pub open spec fn spec_validate_phase(self, secret: PlayerSecret, phase: TurnPhase) -> Result<
        PlayerNum,
        GameError,
    > {
        match self.spec_validate_turn(secret) {
            Ok(p) => if self.spec_phase() == phase {
                Ok(p)
            } else {
                Err(GameError::WrongPhase { player: p, turn: self.spec_turn(), phase: self.spec_phase() })
            },
            Err(e) => Err(e),
        }
    }

    /// The player's cities awaiting a production setting, in tile order.
    pub open spec fn spec_production_requests(self, player: PlayerNum) -> Seq<City> {
        spec_cities(self.spec_map().spec_tiles()).filter(city_selected(player, CitySelection::LackingProductionTarget))
    }

    /// The player's units, top-level and carried, in tile order.
    pub open spec fn spec_player_units(self, player: PlayerNum) -> Seq<Unit> {
        spec_all_units(self.spec_map().spec_tiles()).filter(unit_of_player(player))
    }

    /// The player's units awaiting orders, in tile order.
    pub open spec fn spec_orders_requests(self, player: PlayerNum) -> Seq<Unit> {
        self.spec_player_units(player).filter(awaiting_orders())
    }

    /// Is the player's part of the given turn done? Once the turn is past, or the player's part of it is, yes; while
    /// the player's part has not begun, no; during it, when no production setting or orders are awaited of the
    /// player.
    pub open spec fn spec_turn_is_done(self, player: PlayerNum, turn: TurnNum) -> Result<bool, GameError> {
        if player >= self.spec_num_players() {
            Err(GameError::NoSuchPlayer { player })
        } else if self.spec_turn() > turn {
            Ok(true)
        } else if self.spec_turn() < turn {
            Ok(false)
        } else if self.spec_current_player() > player {
            Ok(true)
        } else if self.spec_current_player() < player {
            Ok(false)
        } else if self.spec_phase() == TurnPhase::Pre {
            Ok(false)
        } else {
            Ok(self.spec_production_requests(player).len() == 0 && self.spec_orders_requests(player).len() == 0)
        }
    }

    /// Does the player hold a city, or a unit that can occupy cities?
    pub open spec fn spec_represented(self, player: PlayerNum) -> bool {
        let cities = spec_cities(self.spec_map().spec_tiles());
        let units = spec_all_units(self.spec_map().spec_tiles());
        ||| exists|i: int| 0 <= i < cities.len() && (#[trigger] cities[i]).alignment == (Alignment::Belligerent { player })
        ||| exists|i: int|
            0 <= i < units.len() && (#[trigger] units[i]).alignment == (Alignment::Belligerent { player })
                && units[i].type_.spec_can_occupy_cities()
    }

    /// The player who has defeated all others, if any: the only player holding a city, or a unit that can occupy
    /// cities.
    pub open spec fn spec_victor(self) -> Option<PlayerNum> {
        if exists|p: PlayerNum| #[trigger] self.spec_represented(p) && forall|q: PlayerNum| #[trigger]
            self.spec_represented(q) ==> q == p {
            Some(choose|p: PlayerNum| #[trigger] self.spec_represented(p) && forall|q: PlayerNum| #[trigger]
                self.spec_represented(q) ==> q == p)
        } else {
            None
        }
    }

    /// Creates a new game instance from a pre-generated map, in the first phase of the first player's first turn,
    /// with nothing observed yet. Also returns the players' secrets, by player, used for access control.
    pub fn new_with_map(map: MapData, num_players: PlayerNum, fog_of_war: bool, wrapping: Wrap2d) -> (r: (
        Game,
        Vec<PlayerSecret>,
    ))
        requires
            map.wf(),
        ensures
            r.0.wf(),
            r.0.spec_map() == map,
            r.0.spec_num_players() == num_players,
            r.0.spec_turn() == 0,
            r.0.spec_phase() == TurnPhase::Pre,
            r.0.spec_current_player() == 0,
            r.0.spec_secrets() == r.1@,
            r.1@.len() == num_players,
            r.0.spec_fog_of_war() == fog_of_war,
            r.0.spec_wrapping() == wrapping,
            r.0.spec_units_named() == 0,
            r.0.spec_action_count() == 0,
            forall|p: int| 0 <= p < num_players ==> #[trigger] r.0.spec_action_counts()[p] == 0,
            forall|p: int| 0 <= p < num_players ==> #[trigger] r.0.spec_defeated_hitpoints()[p] == 0,
            forall|p: int| 0 <= p < num_players ==> (#[trigger] r.0.spec_pending()[p]).len() == 0,
            forall|p: int| 0 <= p < num_players ==> (#[trigger] r.0.spec_trackers()[p]).spec_num_observed() == 0,
            forall|p: int, i: int|
                0 <= p < num_players && 0 <= i < r.0.spec_trackers()[p].spec_observations().len()
                    ==> #[trigger] r.0.spec_trackers()[p].spec_observations()[i] is Unobserved,
    {
        let player_observations = PlayerObsTracker::new(num_players, map.dims());
        let mut player_pending_observations: Vec<Vec<LocatedObsLite>> = Vec::new();
        let mut action_counts: Vec<ActionNum> = Vec::new();
        let mut defeated_unit_hitpoints: Vec<u64> = Vec::new();
        let mut p: usize = 0;
        while p < num_players
            invariant
                p <= num_players,
                player_pending_observations@.len() == p,
                action_counts@.len() == p,
                defeated_unit_hitpoints@.len() == p,
                forall|q: int| 0 <= q < p ==> #[trigger] action_counts@[q] == 0,
                forall|q: int| 0 <= q < p ==> #[trigger] defeated_unit_hitpoints@[q] == 0,
                forall|q: int| 0 <= q < p ==> (#[trigger] player_pending_observations@[q])@.len() == 0,
            decreases num_players - p,
        {
            player_pending_observations.push(Vec::new());
            action_counts.push(0);
            defeated_unit_hitpoints.push(0);
            p = p + 1;
        }
        let mut game = Game {
            map,
            player_observations,
            player_pending_observations,
            turn: 0,
            turn_phase: TurnPhase::Pre,
            num_players,
            player_secrets: Vec::new(),
            current_player: 0,
            wrapping,
            units_named: 0,
            fog_of_war,
            action_count: 0,
            action_counts,
            defeated_unit_hitpoints,
        };
        let ghost start = game;
        proof {
            assert forall|p: int| 0 <= p < num_players implies (#[trigger] start.spec_pending()[p]).len() == 0 by {
                assert(start.spec_pending()[p] == start.player_pending_observations@[p]@);
            }
        }
        let mut secrets: Vec<PlayerSecret> = Vec::new();
        let mut p: usize = 0;
        while p < num_players
            invariant
                p <= num_players,
                game.wf(),
                game.same_but_secrets(start),
                game.spec_num_players() == num_players,
                game.spec_secrets() == secrets@,
                secrets@.len() == p,
            decreases num_players - p,
        {
            match game.register_player() {
                Ok(secret) => {
                    secrets.push(secret);
                },
                Err(_) => {},
            }
            p = p + 1;
        }
        proof {
            assert(game.spec_pending() =~= start.spec_pending());
        }
        (game, secrets)
    }

    pub fn num_players(&self) -> (n: PlayerNum)
        ensures
            n == self.spec_num_players(),
    {
        self.num_players
    }

    /// Register a player and get its secret, with which it identifies itself from then on. An error if all
    /// player slots are filled.
    fn register_player(&mut self) -> (r: Result<PlayerSecret, GameError>)
        requires
            old(self).wf(),
        ensures
            final(self).wf(),
            old(self).spec_secrets().len() == old(self).spec_num_players() ==> r == Err::<PlayerSecret, GameError>(
                GameError::NoPlayerSlotsAvailable,
            ) && final(self).spec_secrets() == old(self).spec_secrets(),
            old(self).spec_secrets().len() < old(self).spec_num_players() ==> (r matches Ok(s)
                && final(self).spec_secrets() == old(self).spec_secrets().push(s)),
            final(self).same_but_secrets(*old(self)),
    {
        if self.player_secrets.len() == self.num_players {
            Err(GameError::NoPlayerSlotsAvailable)
        } else {
            let secret = new_secret();
            self.player_secrets.push(secret);
            Ok(secret)
        }
    }

    /// Is `player` one of the game's players?
    fn validate_player_num(&self, player: PlayerNum) -> (r: Result<(), GameError>)
        ensures
            r == if player < self.spec_num_players() {
                Ok::<(), GameError>(())
            } else {
                Err::<(), GameError>(GameError::NoSuchPlayer { player })
            },
    {
        if player >= self.num_players {
            Err(GameError::NoSuchPlayer { player })
        } else {
            Ok(())
        }
    }

    /// The player identified by the secret: the first one given it. An error if no player holds it.
    pub fn player_with_secret(&self, player_secret: PlayerSecret) -> (r: Result<PlayerNum, GameError>)
        ensures
            r == self.spec_player_with_secret(player_secret),
            r matches Ok(p) ==> p < self.spec_secrets().len() && self.spec_secrets()[p as int] == player_secret,
    {
        let mut i: usize = 0;
        while i < self.player_secrets.len()
            invariant
                i <= self.player_secrets@.len(),
                forall|j: int| 0 <= j < i ==> self.player_secrets@[j] != player_secret,
            decreases self.player_secrets@.len() - i,
        {
            if self.player_secrets[i] == player_secret {
                proof {
                    self.player_secrets@.index_of_first_ensures(player_secret);
                    assert(self.player_secrets@.contains(player_secret));
                    let k = self.player_secrets@.index_of_first(player_secret).unwrap();
                    assert(k == i) by {
                        if k < i {
                            assert(self.player_secrets@[k] != player_secret);
                        } else if k > i {
                        }
                    }
                }
                return Ok(i);
            }
            i = i + 1;
        }
        proof {
            self.player_secrets@.index_of_first_ensures(player_secret);
        }
        Err(GameError::NoPlayerIdentifiedBySecret)
    }

    /// Is it the turn of the player holding the secret?
    pub fn is_player_turn(&self, secret: PlayerSecret) -> (r: Result<bool, GameError>)
        ensures
            r == match self.spec_player_with_secret(secret) {
                Ok(p) => Ok::<bool, GameError>(p == self.spec_current_player()),
                Err(e) => Err::<bool, GameError>(e),
            },
    {
        match self.player_with_secret(secret) {
            Ok(player) => Ok(player == self.current_player),
            Err(e) => Err(e),
        }
    }

    /// Ensure that it is the turn of the player holding the secret; returns that player.
    fn validate_is_player_turn(&self, secret: PlayerSecret) -> (r: Result<PlayerNum, GameError>)
        ensures
            r == self.spec_validate_turn(secret),
    {
        let player = match self.player_with_secret(secret) {
            Ok(p) => p,
            Err(e) => {
                return Err(e);
            },
        };
        if player != self.current_player {
            Err(GameError::NotPlayersTurn { player })
        } else {
            Ok(player)
        }
    }

    /// Ensure that it is the turn of the player holding the secret, before the turn has begun.
    fn validate_is_player_turn_pre_phase(&self, secret: PlayerSecret) -> (r: Result<PlayerNum, GameError>)
        ensures
            r == self.spec_validate_phase(secret, TurnPhase::Pre),
    {
        let player = match self.validate_is_player_turn(secret) {
            Ok(p) => p,
            Err(e) => {
                return Err(e);
            },
        };
        match self.turn_phase {
            TurnPhase::Pre => Ok(player),
            TurnPhase::Main => Err(GameError::WrongPhase { turn: self.turn, player, phase: self.turn_phase }),
        }
    }

    /// Ensure that it is the turn of the player holding the secret, once the turn has begun.
    fn validate_is_player_turn_main_phase(&self, secret: PlayerSecret) -> (r: Result<PlayerNum, GameError>)
        ensures
            r == self.spec_validate_phase(secret, TurnPhase::Main),
    {
        let player = match self.validate_is_player_turn(secret) {
            Ok(p) => p,
            Err(e) => {
                return Err(e);
            },
        };
        match self.turn_phase {
            TurnPhase::Pre => Err(GameError::WrongPhase { turn: self.turn, player, phase: self.turn_phase }),
            TurnPhase::Main => Ok(player),
        }
    }

    fn player_production_set_requests_by_idx(&self, player: PlayerNum) -> (r: Result<Vec<Location>, GameError>)
        ensures
            player < self.spec_num_players() ==> (r matches Ok(v) && v@ == city_locs(
                self.spec_production_requests(player),
            )),
            player >= self.spec_num_players() ==> r == Err::<Vec<Location>, GameError>(
                GameError::NoSuchPlayer { player },
            ),
    {
        if let Err(e) = self.validate_player_num(player) {
            return Err(e);
        }
        let cities = self.map.player_cities_lacking_production_target(player);
        Ok(locs_of_cities(&cities))
    }

    /// The locations of the player's cities awaiting a production setting, in tile order.
    pub fn player_production_set_requests(&self, player_secret: PlayerSecret) -> (r: Result<Vec<Location>, GameError>)
        requires
            self.wf(),
        ensures
            match self.spec_player_with_secret(player_secret) {
                Ok(p) => (r matches Ok(v) && v@ == city_locs(self.spec_production_requests(p))),
                Err(e) => r == Err::<Vec<Location>, GameError>(e),
            },
    {
        match self.player_with_secret(player_secret) {
            Ok(player) => self.player_production_set_requests_by_idx(player),
            Err(e) => Err(e),
        }
    }

    fn player_unit_orders_requests_by_idx(&self, player: PlayerNum) -> (v: Vec<UnitID>)
        ensures
            v@ == unit_ids(self.spec_orders_requests(player)),
    {
        let units = self.map.player_units(player);
        select_unit_ids(&units, false)
    }

    /// The IDs of the player's units awaiting orders, that is with no orders and moves remaining, in tile order.
    pub fn player_unit_orders_requests(&self, player_secret: PlayerSecret) -> (r: Result<Vec<UnitID>, GameError>)
        ensures
            match self.spec_player_with_secret(player_secret) {
                Ok(p) => (r matches Ok(v) && v@ == unit_ids(self.spec_orders_requests(p))),
                Err(e) => r == Err::<Vec<UnitID>, GameError>(e),
            },
    {
        match self.player_with_secret(player_secret) {
            Ok(player) => Ok(self.player_unit_orders_requests_by_idx(player)),
            Err(e) => Err(e),
        }
    }

    /// The IDs of the current player's units awaiting orders, in tile order.
    pub fn current_player_unit_orders_requests(&self) -> (v: Vec<UnitID>)
        requires
            self.spec_current_player() < self.spec_secrets().len(),
        ensures
            self.spec_player_with_secret(self.spec_secrets()[self.spec_current_player() as int]) matches Ok(p)
                && v@ == unit_ids(self.spec_orders_requests(p)),
    {
        let player_secret = self.player_secrets[self.current_player];
        proof {
            self.player_secrets@.index_of_first_ensures(player_secret);
            assert(self.player_secrets@[self.current_player as int] == player_secret);
        }
        match self.player_unit_orders_requests(player_secret) {
            Ok(v) => v,
            Err(_) => Vec::new(),
        }
    }

    /// The player's units awaiting orders, in tile order.
    pub fn player_units_with_orders_requests(&self, player_secret: PlayerSecret) -> (r: Result<Vec<&Unit>, GameError>)
        ensures
            match self.spec_player_with_secret(player_secret) {
                Ok(p) => (r matches Ok(v) && deref_units(v@) == self.spec_orders_requests(p)),
                Err(e) => r == Err::<Vec<&Unit>, GameError>(e),
            },
    {
        match self.player_with_secret(player_secret) {
            Ok(player) => Ok(select_units(self.map.player_units(player))),
            Err(e) => Err(e),
        }
    }

    /// The IDs of the player's units with moves remaining and orders other than to sentry, in tile order.
    pub fn player_units_with_pending_orders(&self, player_secret: PlayerSecret) -> (r: Result<Vec<UnitID>, GameError>)
        ensures
            match self.spec_player_with_secret(player_secret) {
                Ok(p) => (r matches Ok(v) && v@ == unit_ids(self.spec_player_units(p).filter(following_orders()))),
                Err(e) => r == Err::<Vec<UnitID>, GameError>(e),
            },
    {
        match self.player_with_secret(player_secret) {
            Ok(player) => {
                let units = self.map.player_units(player);
                Ok(select_unit_ids(&units, true))
            },
            Err(e) => Err(e),
        }
    }

    /// Indicates whether the given player has completed the specified turn, or not. This is public information.
    pub fn turn_is_done(&self, player: PlayerNum, turn: TurnNum) -> (r: Result<bool, GameError>)
        ensures
            r == self.spec_turn_is_done(player, turn),
    {
        if let Err(e) = self.validate_player_num(player) {
            return Err(e);
        }
        if self.turn > turn {
            return Ok(true);
        }
        if self.turn < turn {
            return Ok(false);
        }
        if self.current_player > player {
            return Ok(true);
        }
        if self.current_player < player {
            return Ok(false);
        }
        if self.turn_phase == TurnPhase::Pre {
            return Ok(false);
        }
        match self.player_production_set_requests_by_idx(player) {
            Ok(requests) => {
                let orders = self.player_unit_orders_requests_by_idx(player);
                proof {
                    assert(requests@.len() == self.spec_production_requests(player).len());
                    assert(orders@.len() == self.spec_orders_requests(player).len());
                }
                Ok(requests.len() == 0 && orders.len() == 0)
            },
            Err(e) => Err(e),
        }
    }

    /// Is the current player's part of the current turn done?
    pub fn current_turn_is_done(&self) -> (b: bool)
        requires
            self.wf(),
            self.spec_num_players() > 0,
        ensures
            self.spec_turn_is_done(self.spec_current_player(), self.spec_turn()) == Ok::<bool, GameError>(b),
    {
        match self.turn_is_done(self.current_player, self.turn) {
            Ok(b) => b,
            Err(_) => false,
        }
    }

    /// The victor, if any: the player who has defeated all other players, defeat being to have no cities and no
    /// units that can capture cities. The game goes on whether or not somebody has won.
    pub fn victor(&self) -> (r: Option<PlayerNum>)
        ensures
            r == self.spec_victor(),
    {
        let cities = self.map.cities();
        let units = self.map.units();
        let ghost cs = spec_cities(self.map.spec_tiles());
        let ghost us = spec_all_units(self.map.spec_tiles());
        let mut found: Option<PlayerNum> = None;
        let mut i: usize = 0;
        while i < cities.len()
            invariant
                i <= cities@.len(),
                deref_cities(cities@) == cs,
                cs == spec_cities(self.map.spec_tiles()),
                us == spec_all_units(self.map.spec_tiles()),
                deref_units(units@) == us,
                found is None ==> forall|j: int| 0 <= j < i ==> !((#[trigger] cs[j]).alignment is Belligerent),
                found matches Some(f) ==> (exists|j: int| 0 <= j < i && (#[trigger] cs[j]).alignment == (Alignment::Belligerent { player: f })),
                found matches Some(f) ==> forall|j: int| 0 <= j < i && (#[trigger] cs[j]).alignment is Belligerent ==> cs[j].alignment == (Alignment::Belligerent { player: f }),
            decreases cities@.len() - i,
        {
            proof {
                assert(cs[i as int] == *cities@[i as int]);
            }
            if let Alignment::Belligerent { player } = cities[i].alignment {
                match found {
                    None => {
                        found = Some(player);
                    },
                    Some(f) => {
                        if f != player {
                            proof {
                                let j = choose|j: int| 0 <= j < i && (#[trigger] cs[j]).alignment == (Alignment::Belligerent { player: f });
                                assert(cs[j].alignment == (Alignment::Belligerent { player: f }));
                                assert(self.spec_represented(f));
                                assert(cs[i as int].alignment == (Alignment::Belligerent { player }));
                                assert(self.spec_represented(player));
                                self.lemma_no_victor_with_two(f, player);
                            }
                            return None;
                        }
                    },
                }
            }
            i = i + 1;
        }
        let mut k: usize = 0;
        while k < units.len()
            invariant
                k <= units@.len(),
                deref_cities(cities@) == cs,
                deref_units(units@) == us,
                found is None ==> forall|j: int| 0 <= j < cs.len() ==> !((#[trigger] cs[j]).alignment is Belligerent),
                found is None ==> forall|j: int| 0 <= j < k ==> !((#[trigger] us[j]).alignment is Belligerent && us[j].type_.spec_can_occupy_cities()),
                found matches Some(f) ==> self.spec_represented(f),
                found matches Some(f) ==> forall|j: int| 0 <= j < cs.len() && (#[trigger] cs[j]).alignment is Belligerent ==> cs[j].alignment == (Alignment::Belligerent { player: f }),
                found matches Some(f) ==> forall|j: int| 0 <= j < k && (#[trigger] us[j]).alignment is Belligerent && us[j].type_.spec_can_occupy_cities() ==> us[j].alignment == (Alignment::Belligerent { player: f }),
                cs == spec_cities(self.map.spec_tiles()),
                us == spec_all_units(self.map.spec_tiles()),
            decreases units@.len() - k,
        {
            proof {
                assert(us[k as int] == *units@[k as int]);
            }
            let u = units[k];
            if let Alignment::Belligerent { player } = u.alignment {
                if u.type_.can_occupy_cities() {
                    match found {
                        None => {
                            found = Some(player);
                            proof {
                                assert(us[k as int].alignment == (Alignment::Belligerent { player }));
                            }
                        },
                        Some(f) => {
                            if f != player {
                                proof {
                                    assert(us[k as int].alignment == (Alignment::Belligerent { player }));
                                    self.lemma_no_victor_with_two(f, player);
                                }
                                return None;
                            }
                        },
                    }
                }
            }
            k = k + 1;
        }
        proof {
            match found {
                None => {
                    assert forall|p: PlayerNum| !self.spec_represented(p) by {
                        if self.spec_represented(p) {
                            let cities_rep = exists|j: int| 0 <= j < cs.len() && (#[trigger] cs[j]).alignment == (Alignment::Belligerent { player: p });
                            if cities_rep {
                                let j = choose|j: int| 0 <= j < cs.len() && (#[trigger] cs[j]).alignment == (Alignment::Belligerent { player: p });
                                assert(cs[j].alignment is Belligerent);
                            } else {
                                let j = choose|j: int| 0 <= j < us.len() && (#[trigger] us[j]).alignment == (Alignment::Belligerent { player: p }) && us[j].type_.spec_can_occupy_cities();
                                assert(us[j].alignment is Belligerent);
                            }
                        }
                    }
                },
                Some(f) => {
                    assert forall|q: PlayerNum| #[trigger] self.spec_represented(q) implies q == f by {
                        let cities_rep = exists|j: int| 0 <= j < cs.len() && (#[trigger] cs[j]).alignment == (Alignment::Belligerent { player: q });
                        if cities_rep {
                            let j = choose|j: int| 0 <= j < cs.len() && (#[trigger] cs[j]).alignment == (Alignment::Belligerent { player: q });
                            assert(cs[j].alignment is Belligerent);
                        } else {
                            let j = choose|j: int| 0 <= j < us.len() && (#[trigger] us[j]).alignment == (Alignment::Belligerent { player: q }) && us[j].type_.spec_can_occupy_cities();
                            assert(us[j].alignment is Belligerent);
                        }
                    }
                    let c = choose|p: PlayerNum| #[trigger] self.spec_represented(p) && forall|q: PlayerNum| #[trigger]
                        self.spec_represented(q) ==> q == p;
                    assert(self.spec_represented(f));
                },
            }
        }
        found
    }

    /// The player a secret identifies is one that was given it.
    proof fn lemma_secret_index(self, secret: PlayerSecret)
        requires
            self.wf(),
        ensures
            self.spec_player_with_secret(secret) matches Ok(p) ==> p < self.spec_secrets().len()
                && self.spec_secrets()[p as int] == secret,
    {
        self.spec_secrets().index_of_first_ensures(secret);
    }

    /// What `observed_at_also_by` states, player by player.
    /// An observation made known as `observe` does, then recorded by `player` once more, is made known as
    /// `observed_at_also_by` states.
    proof fn lemma_recorded_again(g0: Game, g2: Game, g3: Game, loc: Location, obs: Obs, player: PlayerNum)
        requires
            g2.observed_at(g0, loc, obs),
            g3.spec_map() == g2.spec_map(),
            g3.spec_fog_of_war() == g2.spec_fog_of_war(),
            g3.spec_pending() == g2.spec_pending(),
            g3.spec_trackers().len() == g2.spec_trackers().len(),
            player < g2.spec_trackers().len(),
            g0.spec_trackers()[player as int].wf(),
            g0.spec_trackers()[player as int].spec_dims().spec_contains(loc),
            g0.spec_pending().len() == g0.spec_trackers().len(),
            recorded(g2.spec_trackers()[player as int], g3.spec_trackers()[player as int], loc, obs),
            forall|q: int| 0 <= q < g2.spec_trackers().len() && q != player ==> #[trigger] g3.spec_trackers()[q]
                == g2.spec_trackers()[q],
        ensures
            g3.observed_at_also_by(g0, loc, obs, player),
    {
        assert forall|p: int|
            #![trigger g3.spec_trackers()[p]]
            0 <= p < g0.spec_trackers().len() implies if g3.spec_receives(p as PlayerNum, loc) || p == player {
                recorded(g0.spec_trackers()[p], g3.spec_trackers()[p], loc, obs)
            } else {
                g3.spec_trackers()[p] == g0.spec_trackers()[p]
            } by {
            assert(g2.spec_trackers()[p] == g2.spec_trackers()[p]);
            assert(g3.spec_receives(p as PlayerNum, loc) == g2.spec_receives(p as PlayerNum, loc));
            if p == player {
                let o0 = g0.spec_trackers()[p];
                let o2 = g2.spec_trackers()[p];
                let o3 = g3.spec_trackers()[p];
                let i = o0.spec_dims().spec_index(loc);
                crate::util::lemma_index_in_bounds(o0.spec_dims(), loc);
                if g2.spec_receives(p as PlayerNum, loc) {
                    assert(o2.spec_observations() == o0.spec_observations().update(i, o2.spec_obs(loc)));
                    assert(o3.spec_observations() == o2.spec_observations().update(i, o3.spec_obs(loc)));
                    assert(o3.spec_observations() =~= o0.spec_observations().update(i, o3.spec_obs(loc)));
                } else {
                    assert(o2 == o0);
                }
            }
        }
        assert forall|p: int|
            #![trigger g3.spec_pending()[p]]
            0 <= p < g0.spec_pending().len() implies if g3.spec_receives(p as PlayerNum, loc) {
                queued(g0.spec_pending()[p], g3.spec_pending()[p], loc, obs)
            } else {
                g3.spec_pending()[p] == g0.spec_pending()[p]
            } by {
            assert(g2.spec_trackers()[p].spec_dims() == g0.spec_trackers()[p].spec_dims());
            assert(g3.spec_pending()[p] == g2.spec_pending()[p]);
            assert(g3.spec_receives(p as PlayerNum, loc) == g2.spec_receives(p as PlayerNum, loc));
        }
    }

    /// What is made known relative to one game is made known relative to another with the same observations and
    /// queues.
    #[verifier::spinoff_prover]
    proof fn lemma_observed_at_transfer(g: Game, g1: Game, g0: Game, loc: Location, obs: Obs)
        requires
            g.observed_at(g1, loc, obs),
            g1.spec_trackers() == g0.spec_trackers(),
            g1.spec_pending() == g0.spec_pending(),
        ensures
            g.observed_at(g0, loc, obs),
    {
    }

    /// Nothing is observed at no locations.
    proof fn lemma_observed_all_none(g: Game)
        requires
            g.wf(),
        ensures
            g.observed_all(g, Seq::empty()),
    {
        assert forall|q: int|
            #![trigger g.spec_pending()[q]]
            0 <= q < g.spec_pending().len() implies {
            let added = g.spec_pending()[q].skip(g.spec_pending()[q].len() as int);
            &&& g.spec_pending()[q].take(g.spec_pending()[q].len() as int) == g.spec_pending()[q]
            &&& lite_locs(added) == received_locs(g, q, Seq::empty())
        } by {
            assert(g.spec_pending()[q].take(g.spec_pending()[q].len() as int) =~= g.spec_pending()[q]);
            assert(lite_locs(g.spec_pending()[q].skip(g.spec_pending()[q].len() as int)) =~= Seq::<Location>::empty());
            assert(received_locs(g, q, Seq::empty()) =~= Seq::<Location>::empty()) by {
                reveal(Seq::filter);
            }
        }
        assert forall|q: int| 0 <= q < g.spec_trackers().len() implies #[trigger] g.spec_trackers()[q].wf() by {
            assert(g.player_observations.spec_trackers()[q].wf());
        }
    }

    /// What is made known relative to one game is made known relative to another with the same observations and
    /// queues.
    proof fn lemma_observed_all_transfer(g: Game, g1: Game, g0: Game, locs: Seq<Location>)
        requires
            g.observed_all(g1, locs),
            g1.spec_trackers() == g0.spec_trackers(),
            g1.spec_pending() == g0.spec_pending(),
        ensures
            g.observed_all(g0, locs),
    {
    }

    /// Observing one more location extends what is made known.
    proof fn lemma_observed_all_step(g0: Game, gi: Game, gn: Game, locs: Seq<Location>, i: int, obs: Obs)
        requires
            0 <= i < locs.len(),
            gi.observed_all(g0, locs.take(i)),
            gn.observed_at(gi, locs[i], obs),
            gn.wf(),
            gi.wf(),
            g0.wf(),
            gn.same_but_observations(gi),
            gi.same_but_observations(g0),
            gi.spec_map().spec_dims().spec_contains(locs[i]),
            obs.current_observation_of(gi.spec_map().spec_tile(locs[i]), gi.spec_turn(), gi.spec_action_count()),
        ensures
            gn.observed_all(g0, locs.take(i + 1)),
    {
        let l = locs[i];
        let t = locs.take(i);
        let t1 = locs.take(i + 1);
        assert(t1 =~= t.push(l));
        assert forall|q: int| 0 <= q < g0.spec_trackers().len() implies {
            &&& (#[trigger] gn.spec_trackers()[q]).wf()
            &&& gn.spec_trackers()[q].spec_dims() == g0.spec_trackers()[q].spec_dims()
            &&& forall|loc: Location| #[trigger] gn.spec_map().spec_dims().spec_contains(loc) ==> if t1.contains(loc)
                && gn.spec_receives(q as PlayerNum, loc) {
                gn.spec_trackers()[q].spec_obs(loc).current_observation_of(
                    gn.spec_map().spec_tile(loc),
                    gn.spec_turn(),
                    gn.spec_action_count(),
                )
            } else {
                gn.spec_trackers()[q].spec_obs(loc) == g0.spec_trackers()[q].spec_obs(loc)
            }
        } by {
            assert(gn.player_observations.spec_trackers()[q].wf());
            assert(gi.spec_trackers()[q].spec_dims() == g0.spec_trackers()[q].spec_dims());
            assert(gi.player_observations.spec_trackers()[q].spec_dims() == gi.map.spec_dims());
            assert(gn.spec_receives(q as PlayerNum, l) == gi.spec_receives(q as PlayerNum, l));
            assert forall|loc: Location| #[trigger] gn.spec_map().spec_dims().spec_contains(loc) implies if t1.contains(loc)
                && gn.spec_receives(q as PlayerNum, loc) {
                gn.spec_trackers()[q].spec_obs(loc).current_observation_of(
                    gn.spec_map().spec_tile(loc),
                    gn.spec_turn(),
                    gn.spec_action_count(),
                )
            } else {
                gn.spec_trackers()[q].spec_obs(loc) == g0.spec_trackers()[q].spec_obs(loc)
            } by {
                crate::util::lemma_index_in_bounds(gn.spec_map().spec_dims(), loc);
                crate::util::lemma_index_in_bounds(gn.spec_map().spec_dims(), l);
                assert(gn.spec_receives(q as PlayerNum, loc) == gi.spec_receives(q as PlayerNum, loc));
                assert(gi.spec_map().spec_dims().spec_contains(loc));
                if loc != l {
                    assert(gn.spec_map().spec_dims().spec_index(loc) != gn.spec_map().spec_dims().spec_index(l));
                    assert(gn.spec_trackers()[q].spec_obs(loc) == gi.spec_trackers()[q].spec_obs(loc));
                    assert(t1.contains(loc) == t.contains(loc)) by {
                        if t1.contains(loc) {
                            let m = choose|m: int| 0 <= m < t1.len() && t1[m] == loc;
                            assert(t[m] == loc);
                        }
                        if t.contains(loc) {
                            let m = choose|m: int| 0 <= m < t.len() && t[m] == loc;
                            assert(t1[m] == loc);
                        }
                    }
                } else {
                    assert(t1[i] == l);
                    assert(t1.contains(loc));
                }
            }
        }
        assert forall|q: int|
            #![trigger gn.spec_pending()[q]]
            0 <= q < g0.spec_pending().len() implies {
            let added = gn.spec_pending()[q].skip(g0.spec_pending()[q].len() as int);
            &&& gn.spec_pending()[q].len() >= g0.spec_pending()[q].len()
            &&& gn.spec_pending()[q].take(g0.spec_pending()[q].len() as int) == g0.spec_pending()[q]
            &&& lite_locs(added) == received_locs(gn, q, t1)
            &&& forall|e: int| 0 <= e < added.len() ==> (#[trigger] added[e]).obs.current_observation_of(
                gn.spec_map().spec_tile(added[e].loc),
                gn.spec_turn(),
                gn.spec_action_count(),
            )
        } by {
            let n0 = g0.spec_pending()[q].len() as int;
            let qi = gi.spec_pending()[q];
            let qn = gn.spec_pending()[q];
            assert(gi.spec_pending().len() == gi.spec_trackers().len());
            assert(gn.spec_trackers()[q].spec_dims() == gi.spec_trackers()[q].spec_dims());
            assert(gi.spec_pending()[q] == qi);
            let ai = qi.skip(n0);
            let an = qn.skip(n0);
            assert((|x: Location| gn.spec_receives(q as PlayerNum, x)) =~= (|x: Location| gi.spec_receives(q as PlayerNum, x)));
            assert(received_locs(gn, q, t1) == if gn.spec_receives(q as PlayerNum, l) {
                received_locs(gi, q, t).push(l)
            } else {
                received_locs(gi, q, t)
            }) by {
                reveal(Seq::filter);
                assert(t1.drop_last() =~= t);
            }
            if gn.spec_receives(q as PlayerNum, l) {
                assert(qn.drop_last() == qi);
                assert(qn =~= qi.push(qn.last()));
                assert(an =~= ai.push(qn.last()));
                assert(qn.take(n0) =~= qi.take(n0));
                assert(lite_locs(an) =~= lite_locs(ai).push(l));
                assert forall|e: int| 0 <= e < an.len() implies (#[trigger] an[e]).obs.current_observation_of(
                    gn.spec_map().spec_tile(an[e].loc),
                    gn.spec_turn(),
                    gn.spec_action_count(),
                ) by {
                    if e < ai.len() {
                        assert(an[e] == ai[e]);
                    }
                }
            } else {
                assert(qn == qi);
            }
        }
    }


    /// When two players are represented, there is no victor.
    proof fn lemma_no_victor_with_two(self, a: PlayerNum, b: PlayerNum)
        requires
            a != b,
            self.spec_represented(a),
            self.spec_represented(b),
        ensures
            self.spec_victor() is None,
    {
        if exists|p: PlayerNum| #[trigger] self.spec_represented(p) && forall|q: PlayerNum| #[trigger]
            self.spec_represented(q) ==> q == p {
            let p = choose|p: PlayerNum| #[trigger] self.spec_represented(p) && forall|q: PlayerNum| #[trigger]
                self.spec_represented(q) ==> q == p;
            assert(a == p);
            assert(b == p);
        }
    }

    /// The player after the current one, the first player after the last; each time the first player's turn comes
    /// round again, a new turn.
    fn _inc_current_player(&mut self)
        requires
            old(self).wf(),
            old(self).spec_num_players() > 0,
            old(self).spec_turn() < u64::MAX,
        ensures
            final(self).wf(),
            final(self).spec_current_player() == (old(self).spec_current_player() + 1) % (old(self).spec_num_players() as int),
            final(self).spec_turn() == if final(self).spec_current_player() == 0 {
                old(self).spec_turn() + 1
            } else {
                old(self).spec_turn() as int
            },
            final(self).spec_phase() == old(self).spec_phase(),
            final(self).spec_trackers() == old(self).spec_trackers(),
            final(self).same_but_turn_and_observations(*old(self)),
    {
        self.current_player = (self.current_player + 1) % self.num_players;
        if self.current_player == 0 {
            self.turn = self.turn + 1;
        }
    }

    /// The observations of the player holding the secret, to change.
    pub fn player_observations_mut(&mut self, player_secret: PlayerSecret) -> (r: Result<&mut ObsTracker, GameError>)
        requires
            old(self).wf(),
        ensures
            old(self).spec_player_with_secret(player_secret) matches Ok(p) ==> (r matches Ok(t) && *t == old(self).spec_trackers()[p as int] && final(self).spec_trackers() == old(self).spec_trackers().update(
                p as int,
                *final(t),
            ) && final(self).same_but_turn_and_observations(*old(self)) && final(self).spec_turn() == old(self).spec_turn() && final(self).spec_phase() == old(self).spec_phase() && final(self).spec_current_player()
                == old(self).spec_current_player()),
            old(self).spec_player_with_secret(player_secret) matches Err(e) ==> r == Err::<&mut ObsTracker, GameError>(e)
                && *final(self) == *old(self),
    {
        match self.player_with_secret(player_secret) {
            Ok(player) => match self.player_observations.tracker_mut(player) {
                Some(t) => Ok(t),
                None => Err(GameError::NoSuchPlayer { player }),
            },
            Err(e) => Err(e),
        }
    }

    /// Ends the turn of the player holding the secret without checking that it is done: the player's units that are
    /// sheltered, carried or standing in a city on their side, have their fuel filled; the player's observations
    /// are no longer current; the next player's turn comes, in its first phase. An error if it is not that player's
    /// turn, or the turn has not begun.
    pub fn force_end_turn(&mut self, player_secret: PlayerSecret) -> (r: Result<(), GameError>)
        requires
            old(self).wf(),
            old(self).spec_turn() < u64::MAX,
        ensures
            final(self).wf(),
            old(self).spec_validate_phase(player_secret, TurnPhase::Main) matches Err(e) ==> r == Err::<(), GameError>(e)
                && *final(self) == *old(self),
            old(self).spec_validate_phase(player_secret, TurnPhase::Main) matches Ok(p) ==> r == Ok::<(), GameError>(())
                && turn_ended(*final(self), *old(self), p),
    {
        let player = match self.validate_is_player_turn_main_phase(player_secret) {
            Ok(p) => p,
            Err(e) => {
                return Err(e);
            },
        };
        let ghost before = *self;
        proof {
            self.lemma_secret_index(player_secret);
            assert(self.player_observations.spec_trackers()[player as int].wf());
        }
        match self.player_observations_mut(player_secret) {
            Ok(t) => {
                t.archive();
            },
            Err(e) => {
                return Err(e);
            },
        }
        proof {
            let o = before.spec_trackers()[player as int];
            let o2 = self.spec_trackers()[player as int];
            assert(archived_tracker(o, o2));
            assert forall|p: int| 0 <= p < self.num_players implies {
                let o = #[trigger] self.player_observations.spec_trackers()[p];
                &&& o.wf()
                &&& o.spec_dims() == self.map.spec_dims()
            } by {
                if p != player {
                    assert(self.player_observations.spec_trackers()[p] == before.spec_trackers()[p]);
                }
            }
        }
        proof {
            assert(self.spec_pending().len() == before.spec_pending().len());
        }
        self.map.refuel_player_units_sheltered(player);
        proof {
            assert forall|p: int| 0 <= p < self.num_players implies {
                let o = #[trigger] self.player_observations.spec_trackers()[p];
                &&& o.wf()
                &&& o.spec_dims() == self.map.spec_dims()
            } by {
                if p != player {
                    assert(self.player_observations.spec_trackers()[p] == before.spec_trackers()[p]);
                }
            }
        }
        self._inc_current_player();
        self.turn_phase = TurnPhase::Pre;
        Ok(())
    }

    /// What ending the turn of the player holding the secret leads to: the game `after` and the result `r`, as `end_turn` states them.
    pub open spec fn end_turn_outcome(self, after: Game, player_secret: PlayerSecret, r: Result<(), GameError>) -> bool {
        match self.spec_validate_turn(player_secret) {
            Err(e) => r == Err::<(), GameError>(e) && after == self,
            Ok(p) => if self.spec_turn_is_done(p, self.spec_turn()) == Ok::<bool, GameError>(true) {
                r == Ok::<(), GameError>(()) && turn_ended(after, self, p)
            } else {
                r == Err::<(), GameError>(GameError::TurnEndRequirementsNotMet { player: p }) && after == self
            },
        }
    }

    /// Ends the turn of the player holding the secret, if the player's part of it is done; then it is the next
    /// player's turn. An error if it is not that player's turn, or if production settings or orders are still
    /// awaited.
    pub fn end_turn(&mut self, player_secret: PlayerSecret) -> (r: Result<(), GameError>)
        requires
            old(self).wf(),
            old(self).spec_turn() < u64::MAX,
        ensures
            final(self).wf(),
            old(self).end_turn_outcome(*final(self), player_secret, r),
    {
        if let Err(e) = self.validate_is_player_turn(player_secret) {
            return Err(e);
        }
        proof {
            self.lemma_secret_index(player_secret);
        }
        if self.current_turn_is_done() {
            self.force_end_turn(player_secret)
        } else {
            Err(GameError::TurnEndRequirementsNotMet { player: self.current_player })
        }
    }

    /// The observations of the player holding the secret.
    pub fn player_observations(&self, player_secret: PlayerSecret) -> (r: Result<&ObsTracker, GameError>)
        requires
            self.wf(),
        ensures
            match self.spec_player_with_secret(player_secret) {
                Ok(p) => r == Ok::<&ObsTracker, GameError>(&self.spec_trackers()[p as int]),
                Err(e) => r == Err::<&ObsTracker, GameError>(e),
            },
    {
        match self.player_with_secret(player_secret) {
            Ok(player) => match self.player_observations.tracker(player) {
                Some(t) => Ok(t),
                None => Err(GameError::NoSuchPlayer { player }),
            },
            Err(e) => Err(e),
        }
    }

    fn player_obs_by_idx(&self, player: PlayerNum, loc: Location) -> (r: Option<&Obs>)
        requires
            self.wf(),
            player < self.spec_num_players(),
        ensures
            r == match self.spec_player_obs(player, loc) {
                Some(o) => Some(&o),
                None => None::<&Obs>,
            },
    {
        match self.player_observations.tracker(player) {
            Some(t) => t.get(loc),
            None => None,
        }
    }

    /// The most recent observation of `loc` by the player holding the secret; none if `loc` is off the map.
    pub fn player_obs(&self, player_secret: PlayerSecret, loc: Location) -> (r: Result<Option<&Obs>, GameError>)
        requires
            self.wf(),
        ensures
            match self.spec_player_with_secret(player_secret) {
                Ok(p) => (r matches Ok(o) && o == match self.spec_player_obs(p, loc) {
                    Some(x) => Some(&x),
                    None => None::<&Obs>,
                }),
                Err(e) => r == Err::<Option<&Obs>, GameError>(e),
            },
    {
        match self.player_with_secret(player_secret) {
            Ok(player) => {
                proof {
                    self.lemma_secret_index(player_secret);
                }
                Ok(self.player_obs_by_idx(player, loc))
            },
            Err(e) => Err(e),
        }
    }

    fn player_tile_by_idx(&self, player: PlayerNum, loc: Location) -> (r: Option<&Tile>)
        requires
            self.wf(),
            player < self.spec_num_players(),
        ensures
            r == match self.spec_player_tile(player, loc) {
                Some(t) => Some(&t),
                None => None::<&Tile>,
            },
    {
        match self.player_obs_by_idx(player, loc) {
            Some(Obs::Observed { tile, .. }) => Some(tile),
            _ => None,
        }
    }

    /// The tile at `loc` as the player holding the secret last saw it, if the player has observed it.
    pub fn player_tile(&self, player_secret: PlayerSecret, loc: Location) -> (r: Result<Option<&Tile>, GameError>)
        requires
            self.wf(),
        ensures
            match self.spec_player_with_secret(player_secret) {
                Ok(p) => (r matches Ok(o) && o == match self.spec_player_tile(p, loc) {
                    Some(t) => Some(&t),
                    None => None::<&Tile>,
                }),
                Err(e) => r == Err::<Option<&Tile>, GameError>(e),
            },
    {
        match self.player_with_secret(player_secret) {
            Ok(player) => {
                proof {
                    self.lemma_secret_index(player_secret);
                }
                Ok(self.player_tile_by_idx(player, loc))
            },
            Err(e) => Err(e),
        }
    }

    /// The city at `loc` as the player holding the secret last saw it, if there is one and the player controls it.
    pub fn player_city_by_loc(&self, player_secret: PlayerSecret, loc: Location) -> (r: Result<Option<&City>, GameError>)
        requires
            self.wf(),
        ensures
            match self.spec_player_with_secret(player_secret) {
                Ok(p) => (r matches Ok(o) && o == match self.spec_player_tile(p, loc) {
                    Some(t) => match t.city {
                        Some(c) => if c.alignment == (Alignment::Belligerent { player: p }) {
                            Some(&c)
                        } else {
                            None::<&City>
                        },
                        None => None::<&City>,
                    },
                    None => None::<&City>,
                }),
                Err(e) => r == Err::<Option<&City>, GameError>(e),
            },
    {
        let player = match self.player_with_secret(player_secret) {
            Ok(p) => p,
            Err(e) => {
                return Err(e);
            },
        };
        match self.player_tile(player_secret, loc) {
            Ok(Some(tile)) => match &tile.city {
                Some(c) => if c.alignment == (Alignment::Belligerent { player }) {
                    Ok(Some(c))
                } else {
                    Ok(None)
                },
                None => Ok(None),
            },
            Ok(None) => Ok(None),
            Err(e) => Err(e),
        }
    }

    /// The top-level unit at `loc` as the player holding the secret last saw it, if any.
    pub fn player_toplevel_unit_by_loc(&self, player_secret: PlayerSecret, loc: Location) -> (r: Result<
        Option<&Unit>,
        GameError,
    >)
        requires
            self.wf(),
        ensures
            match self.spec_player_with_secret(player_secret) {
                Ok(p) => (r matches Ok(o) && o == match self.spec_player_tile(p, loc) {
                    Some(t) => match t.unit {
                        Some(u) => Some(&u),
                        None => None::<&Unit>,
                    },
                    None => None::<&Unit>,
                }),
                Err(e) => r == Err::<Option<&Unit>, GameError>(e),
            },
    {
        match self.player_tile(player_secret, loc) {
            Ok(Some(tile)) => match &tile.unit {
                Some(u) => Ok(Some(u)),
                None => Ok(None),
            },
            Ok(None) => Ok(None),
            Err(e) => Err(e),
        }
    }

    /// Every city controlled by the player holding the secret, in tile order.
    pub fn player_cities(&self, player_secret: PlayerSecret) -> (r: Result<Vec<&City>, GameError>)
        ensures
            match self.spec_player_with_secret(player_secret) {
                Ok(p) => (r matches Ok(v) && deref_cities(v@) == spec_cities(self.spec_map().spec_tiles()).filter(
                    city_selected(p, CitySelection::All),
                )),
                Err(e) => r == Err::<Vec<&City>, GameError>(e),
            },
    {
        match self.player_with_secret(player_secret) {
            Ok(player) => Ok(self.map.player_cities(player)),
            Err(e) => Err(e),
        }
    }

    /// The cities of the player holding the secret that are producing something, in tile order.
    pub fn player_cities_with_production_target(&self, player_secret: PlayerSecret) -> (r: Result<
        Vec<&City>,
        GameError,
    >)
        ensures
            match self.spec_player_with_secret(player_secret) {
                Ok(p) => (r matches Ok(v) && deref_cities(v@) == spec_cities(self.spec_map().spec_tiles()).filter(
                    city_selected(p, CitySelection::WithProductionTarget),
                )),
                Err(e) => r == Err::<Vec<&City>, GameError>(e),
            },
    {
        match self.player_with_secret(player_secret) {
            Ok(player) => Ok(self.map.player_cities_with_production_target(player)),
            Err(e) => Err(e),
        }
    }

    /// How many cities the player holding the secret controls.
    pub fn player_city_count(&self, player_secret: PlayerSecret) -> (r: Result<usize, GameError>)
        requires
            self.wf(),
        ensures
            match self.spec_player_with_secret(player_secret) {
                Ok(p) => r == Ok::<usize, GameError>(
                    if self.spec_map().spec_city_count_listed(Alignment::Belligerent { player: p }) {
                        self.spec_map().spec_city_count(Alignment::Belligerent { player: p }) as usize
                    } else {
                        0
                    },
                ),
                Err(e) => r == Err::<usize, GameError>(e),
            },
    {
        match self.player_with_secret(player_secret) {
            Ok(player) => match self.map.player_city_count(player) {
                Ok(n) => Ok(n),
                Err(_) => Ok(0),
            },
            Err(e) => Err(e),
        }
    }

    /// The number of the player's cities that either are producing something or are not to be skipped when
    /// productions are requested: a player cannot leave every city without production.
    pub fn player_cities_producing_or_not_ignored(&self, player_secret: PlayerSecret) -> (r: Result<usize, GameError>)
        ensures
            match self.spec_player_with_secret(player_secret) {
                Ok(p) => r == Ok::<usize, GameError>(
                    spec_cities(self.spec_map().spec_tiles()).filter(city_selected(p, CitySelection::All)).filter(
                        producing_or_not_ignored(),
                    ).len() as usize,
                ),
                Err(e) => r == Err::<usize, GameError>(e),
            },
    {
        let cities = match self.player_cities(player_secret) {
            Ok(c) => c,
            Err(e) => {
                return Err(e);
            },
        };
        let ghost all = deref_cities(cities@);
        let mut n: usize = 0;
        let mut i: usize = 0;
        while i < cities.len()
            invariant
                i <= cities@.len(),
                all == deref_cities(cities@),
                n == all.take(i as int).filter(producing_or_not_ignored()).len(),
                n <= i,
            decreases cities@.len() - i,
        {
            proof {
                reveal(Seq::filter);
                assert(all.take(i as int + 1).drop_last() =~= all.take(i as int));
                assert(all.take(i as int + 1).last() == *cities@[i as int]);
            }
            if cities[i].production().is_some() || !cities[i].ignore_cleared_production() {
                n = n + 1;
            }
            i = i + 1;
        }
        proof {
            assert(all.take(cities@.len() as int) =~= all);
        }
        Ok(n)
    }

    /// Every unit controlled by the player holding the secret, top-level and carried, in tile order.
    pub fn player_units(&self, player_secret: PlayerSecret) -> (r: Result<Vec<&Unit>, GameError>)
        ensures
            match self.spec_player_with_secret(player_secret) {
                Ok(p) => (r matches Ok(v) && deref_units(v@) == self.spec_player_units(p)),
                Err(e) => r == Err::<Vec<&Unit>, GameError>(e),
            },
    {
        match self.player_with_secret(player_secret) {
            Ok(player) => Ok(self.map.player_units(player)),
            Err(e) => Err(e),
        }
    }

    /// The counts of each type of unit the player holding the secret controls; an error if the player never held
    /// a unit.
    pub fn player_unit_type_counts(&self, player_secret: PlayerSecret) -> (r: Result<Vec<(UnitType, u64)>, GameError>)
        requires
            self.wf(),
        ensures
            match self.spec_player_with_secret(player_secret) {
                Ok(p) => if self.spec_map().spec_unit_count_listed(Alignment::Belligerent { player: p }) {
                    (r matches Ok(v) && v@ == unit_counts_for(
                        self.spec_map().spec_unit_counts(),
                        Alignment::Belligerent { player: p },
                    ))
                } else {
                    r == Err::<Vec<(UnitType, u64)>, GameError>(GameError::NoSuchPlayer { player: p })
                },
                Err(e) => r == Err::<Vec<(UnitType, u64)>, GameError>(e),
            },
    {
        match self.player_with_secret(player_secret) {
            Ok(player) => self.map.player_unit_type_counts(player),
            Err(e) => Err(e),
        }
    }

    /// The city with the ID, if the player holding the secret controls it.
    pub fn player_city_by_id(&self, player_secret: PlayerSecret, city_id: CityID) -> (r: Result<Option<&City>, GameError>)
        ensures
            match self.spec_player_with_secret(player_secret) {
                Ok(p) => {
                    let cs = spec_cities(self.spec_map().spec_tiles()).filter(city_selected(p, CitySelection::All));
                    r matches Ok(o) && match o {
                        Some(c) => exists|i: int| 0 <= i < cs.len() && cs[i] == *c && c.id == city_id && forall|j: int|
                            0 <= j < i ==> (#[trigger] cs[j]).id != city_id,
                        None => forall|j: int| 0 <= j < cs.len() ==> (#[trigger] cs[j]).id != city_id,
                    }
                },
                Err(e) => r == Err::<Option<&City>, GameError>(e),
            },
    {
        let player = match self.player_with_secret(player_secret) {
            Ok(p) => p,
            Err(e) => {
                return Err(e);
            },
        };
        let cities = self.map.player_cities(player);
        let ghost cs = deref_cities(cities@);
        let mut i: usize = 0;
        while i < cities.len()
            invariant
                i <= cities@.len(),
                cs == deref_cities(cities@),
                self.spec_player_with_secret(player_secret) == Ok::<PlayerNum, GameError>(player),
                cs == spec_cities(self.spec_map().spec_tiles()).filter(city_selected(player, CitySelection::All)),
                forall|j: int| 0 <= j < i ==> (#[trigger] cs[j]).id != city_id,
            decreases cities@.len() - i,
        {
            proof {
                assert(cs[i as int] == *cities@[i as int]);
            }
            if cities[i].id == city_id {
                proof {
                    assert(cs[i as int] == *cities[i as int]);
                }
                return Ok(Some(cities[i]));
            }
            i = i + 1;
        }
        Ok(None)
    }

    /// The unit with the ID, if the player holding the secret controls it.
    pub fn player_unit_by_id(&self, player_secret: PlayerSecret, id: UnitID) -> (r: Result<Option<&Unit>, GameError>)
        requires
            self.wf(),
        ensures
            match self.spec_player_with_secret(player_secret) {
                Ok(p) => (r matches Ok(o) && match o {
                    Some(u) => self.spec_map().spec_unit_by_id(id) == Some(*u) && u.alignment == (Alignment::Belligerent { player: p }),
                    None => !self.spec_map().spec_is_player_unit(p, id),
                }),
                Err(e) => r == Err::<Option<&Unit>, GameError>(e),
            },
    {
        match self.player_with_secret(player_secret) {
            Ok(player) => Ok(self.map.player_unit_by_id(player, id)),
            Err(e) => Err(e),
        }
    }

    /// The directions in which the unit with the ID, if the player holding the secret controls it, could take one
    /// step on the map. An error if no player holds the secret or the player controls no such unit.
    pub fn player_unit_legal_directions(&self, player_secret: PlayerSecret, unit_id: UnitID) -> (r: Result<
        Vec<Direction>,
        GameError,
    >)
        requires
            self.wf(),
        ensures
            match self.spec_player_with_secret(player_secret) {
                Err(e) => r == Err::<Vec<Direction>, GameError>(e),
                Ok(p) => if self.spec_map().spec_is_player_unit(p, unit_id) {
                    r matches Ok(v) && v@ == legal_directions(
                        self.spec_map(),
                        self.spec_wrapping(),
                        self.spec_map().spec_unit_by_id(unit_id)->0,
                    )
                } else {
                    r == Err::<Vec<Direction>, GameError>(GameError::NoSuchUnit { id: unit_id })
                },
            },
    {
        match self.player_unit_by_id(player_secret, unit_id) {
            Ok(Some(unit)) => {
                proof {
                    self.map.lemma_unit_on_map(unit_id);
                }
                Ok(unit_legal_directions(&self.map, self.wrapping, unit))
            },
            Ok(None) => Err(GameError::NoSuchUnit { id: unit_id }),
            Err(e) => Err(e),
        }
    }

    /// The locations, each once, other than its own, that the unit with the ID, if the player holding the secret
    /// controls it, could reach in one step on the map. An error if no player holds the secret or the player
    /// controls no such unit.
    pub fn player_unit_legal_one_step_destinations(&self, player_secret: PlayerSecret, unit_id: UnitID) -> (r: Result<
        Vec<Location>,
        GameError,
    >)
        requires
            self.wf(),
        ensures
            match self.spec_player_with_secret(player_secret) {
                Err(e) => r == Err::<Vec<Location>, GameError>(e),
                Ok(p) => if self.spec_map().spec_is_player_unit(p, unit_id) {
                    r matches Ok(v) && v@.no_duplicates() && forall|l: Location| #[trigger] v@.contains(l)
                        <==> legal_destination(
                        self.spec_map(),
                        self.spec_wrapping(),
                        self.spec_map().spec_unit_by_id(unit_id)->0,
                        l,
                    )
                } else {
                    r == Err::<Vec<Location>, GameError>(GameError::NoSuchUnit { id: unit_id })
                },
            },
    {
        match self.player_unit_by_id(player_secret, unit_id) {
            Ok(Some(unit)) => {
                proof {
                    self.map.lemma_unit_on_map(unit_id);
                }
                Ok(unit_legal_one_step_destinations(&self.map, self.wrapping, unit))
            },
            Ok(None) => Err(GameError::NoSuchUnit { id: unit_id }),
            Err(e) => Err(e),
        }
    }

    /// The unit types, in the order of `UnitType::values`, that the city at `loc` of the player holding the secret
    /// could produce with a way out of it: a step onto a tile whose terrain such a unit can traverse and that it
    /// could occupy, when `conservative`, or else move onto. An error if no player holds the secret or the player
    /// controls no city at `loc`.
    fn valid_productions_of(&self, player_secret: PlayerSecret, loc: Location, conservative: bool) -> (r: Result<
        Vec<UnitType>,
        GameError,
    >)
        requires
            self.wf(),
        ensures
            match self.spec_player_with_secret(player_secret) {
                Err(e) => r == Err::<Vec<UnitType>, GameError>(e),
                Ok(p) => if self.spec_map().spec_dims().spec_contains(loc) && (self.spec_map().spec_tile(loc).city matches Some(
                    c,
                ) && c.alignment == (Alignment::Belligerent { player: p })) {
                    r matches Ok(v) && v@ == productions_with_way_out(self.spec_map(), self.spec_wrapping(), loc, conservative)
                } else {
                    r == Err::<Vec<UnitType>, GameError>(GameError::NoCityAtLocation { loc })
                },
            },
    {
        let player = match self.player_with_secret(player_secret) {
            Ok(p) => p,
            Err(e) => {
                return Err(e);
            },
        };
        if self.map.player_city_by_loc(player, loc).is_none() {
            return Err(GameError::NoCityAtLocation { loc });
        }
        Ok(unit_types_with_way_out(&self.map, self.wrapping, loc, conservative))
    }

    /// The unit types the city at `loc` of the player holding the secret could produce that could move out of it,
    /// as `valid_productions_of` says without `conservative`.
    pub fn valid_productions(&self, player_secret: PlayerSecret, loc: Location) -> (r: Result<Vec<UnitType>, GameError>)
        requires
            self.wf(),
        ensures
            match self.spec_player_with_secret(player_secret) {
                Err(e) => r == Err::<Vec<UnitType>, GameError>(e),
                Ok(p) => if self.spec_map().spec_dims().spec_contains(loc) && (self.spec_map().spec_tile(loc).city matches Some(
                    c,
                ) && c.alignment == (Alignment::Belligerent { player: p })) {
                    r matches Ok(v) && v@ == productions_with_way_out(self.spec_map(), self.spec_wrapping(), loc, false)
                } else {
                    r == Err::<Vec<UnitType>, GameError>(GameError::NoCityAtLocation { loc })
                },
            },
    {
        self.valid_productions_of(player_secret, loc, false)
    }

    /// The unit types the city at `loc` of the player holding the secret could produce that could leave it for a
    /// tile they could occupy, as `valid_productions_of` says with `conservative`.
    pub fn valid_productions_conservative(&self, player_secret: PlayerSecret, loc: Location) -> (r: Result<
        Vec<UnitType>,
        GameError,
    >)
        requires
            self.wf(),
        ensures
            match self.spec_player_with_secret(player_secret) {
                Err(e) => r == Err::<Vec<UnitType>, GameError>(e),
                Ok(p) => if self.spec_map().spec_dims().spec_contains(loc) && (self.spec_map().spec_tile(loc).city matches Some(
                    c,
                ) && c.alignment == (Alignment::Belligerent { player: p })) {
                    r matches Ok(v) && v@ == productions_with_way_out(self.spec_map(), self.spec_wrapping(), loc, true)
                } else {
                    r == Err::<Vec<UnitType>, GameError>(GameError::NoCityAtLocation { loc })
                },
            },
    {
        self.valid_productions_of(player_secret, loc, true)
    }

    /// A shortest path, as the player `p` has seen the map and the filter allows, from `src` to `dest` in at most
    /// `max` steps, both ends included; none if there is no such path.
    fn plan_path<F: Filter<Obs>>(&self, p: PlayerNum, src: Location, dest: Location, filter: &F, max: u16) -> (r: Option<
        Vec<Location>,
    >)
        requires
            self.wf(),
            p < self.spec_num_players(),
            self.spec_map().spec_dims().spec_contains(src),
            self.spec_map().spec_dims().spec_contains(dest),
        ensures
            r is None ==> !self.route_exists(p, *filter, src, dest, max),
            r matches Some(path) ==> {
                let dims = self.spec_map().spec_dims();
                &&& is_path(self.spec_trackers()[p as int], *filter, self.spec_wrapping(), src, path@)
                &&& path@[0] == src
                &&& path@.last() == dest
                &&& path@.len() - 1 <= max
                &&& forall|i: int| 0 <= i < path@.len() ==> dims.spec_contains(#[trigger] path@[i])
                &&& forall|i: int| 0 <= i < path@.len() - 1 ==> #[trigger] stepped(dims, self.spec_wrapping(), path@, i)
            },
    {
        let t = match self.player_observations.tracker(p) {
            Some(t) => t,
            None => {
                return None;
            },
        };
        proof {
            assert(t.spec_dims() == self.spec_map().spec_dims());
        }
        plan(t, src, dest, filter, self.wrapping, max)
    }

    /// One step of a unit's move from `prev_loc` onto `loc`, the unit's hit points, side and ability to take cities
    /// being as given: boarding a friendly unit there, or fighting an enemy unit there and then any city there, or
    /// fighting an enemy city there, or just going there. Returns the step; whether the unit went there; whether
    /// the move ends here; whether the unit took a city; and whether what was seen on the way changed what the
    /// filter lets through elsewhere.
    fn move_step<F: Filter<Obs>>(
        &mut self,
        player: PlayerNum,
        unit_id: UnitID,
        unit: &Unit,
        hp: u16,
        alignment: Alignment,
        occupies: bool,
        prev_loc: Location,
        loc: Location,
        filter: &F,
    ) -> (r: Result<(MoveComponent, bool, bool, bool, bool), GameError>)
        requires
            old(self).wf(),
            player < old(self).spec_num_players(),
            old(self).spec_map().spec_dims().spec_contains(loc),
            old(self).spec_map().spec_dims().spec_contains(prev_loc),
        ensures
            final(self).wf(),
            final(self).spec_num_players() == old(self).spec_num_players(),
            final(self).spec_current_player() == old(self).spec_current_player(),
            final(self).spec_phase() == old(self).spec_phase(),
            final(self).spec_turn() == old(self).spec_turn(),
            final(self).spec_secrets() == old(self).spec_secrets(),
            final(self).spec_action_count() == old(self).spec_action_count(),
            final(self).spec_wrapping() == old(self).spec_wrapping(),
            final(self).spec_map().spec_dims() == old(self).spec_map().spec_dims(),
            r matches Ok((c, moved, done, _took, _changed)) ==> {
                &&& c.prev_loc == prev_loc
                &&& c.loc == if moved { loc } else { prev_loc }
                &&& !moved ==> done
                &&& done ==> fought(c)
                &&& (moved && c.spec_moved_successfully()) ==> (final(self).spec_map().spec_unit_by_id(
                    unit_id,
                ) matches Some(u) && u.loc == loc)
                &&& !c.spec_moved_successfully() ==> final(self).spec_map().spec_unit_by_id(unit_id) is None && done
            },
    {
    let mut comp = MoveComponent::new(prev_loc, loc);
        let mut moved = true;
        let mut done = false;
        let mut took_city = false;
        let mut changed = false;
        let top = match self.map.toplevel_unit_by_loc(loc) {
            Some(other) => {
                proof {
                    self.map.lemma_top_unit(loc);
                }
                Some((other.id, other.alignment, other.hp, other.max_hp, other.clone()))
            },
            None => None,
        };
        match top {
            Some((other_id, other_alignment, other_hp, other_max_hp, other_clone)) => {
                if other_alignment == alignment {
                    comp.carrier = Some(other_id);
                    if let Err(e) = self.map.carry_unit_by_id(other_id, unit_id) {
                        return Err(e);
                    }
                } else {
                    let (a, _d) = fight_hp(hp, other_hp);
                    let won = a > 0;
                    comp.unit_combat = Some(CombatOutcome::new(unit.clone(), other_clone, won));
                    if won {
                        let prior = self.defeated_unit_hitpoints[player];
                        self.defeated_unit_hitpoints.set(player, prior.saturating_add(other_max_hp as u64));
                        self.map.pop_unit_by_id(other_id);
                        let city = match self.map.city_by_loc(loc) {
                            Some(c) => Some((c.hp, c.duplicate())),
                            None => None,
                        };
                        match city {
                            Some((city_hp, city_copy)) => {
                                if occupies {
                                    let (a2, _d2) = fight_hp(hp, city_hp);
                                    let won2 = a2 > 0;
                                    comp.city_combat = Some(CombatOutcome::new(unit.clone(), city_copy, won2));
                                    if won2 {
                                        if let Err(e) = self.map.occupy_city(unit_id, loc) {
                                            return Err(e);
                                        }
                                        took_city = true;
                                    } else {
                                        self.map.pop_unit_by_id(unit_id);
                                    }
                                } else {
                                    comp.loc = prev_loc;
                                    moved = false;
                                }
                                done = true;
                            },
                            None => {
                                if let Err(e) = self.map.relocate_unit_by_id(unit_id, loc) {
                                    return Err(e);
                                }
                            },
                        }
                    } else {
                        self.map.pop_unit_by_id(unit_id);
                        done = true;
                    }
                }
            },
            None => {
                let city = match self.map.city_by_loc(loc) {
                    Some(c) => Some((c.alignment, c.hp, c.duplicate())),
                    None => None,
                };
                match city {
                    Some((city_alignment, city_hp, city_copy)) => {
                        if city_alignment == alignment {
                            if let Err(e) = self.map.relocate_unit_by_id(unit_id, loc) {
                                return Err(e);
                            }
                        } else {
                            let (a2, _d2) = fight_hp(hp, city_hp);
                            let won2 = a2 > 0;
                            comp.city_combat = Some(CombatOutcome::new(unit.clone(), city_copy, won2));
                            if won2 {
                                if let Err(e) = self.map.occupy_city(unit_id, loc) {
                                    return Err(e);
                                }
                                took_city = true;
                            } else {
                                self.map.pop_unit_by_id(unit_id);
                            }
                            done = true;
                        }
                    },
                    None => {
                        if let Err(e) = self.map.relocate_unit_by_id(unit_id, loc) {
                            return Err(e);
                        }
                    },
                }
            },
        }
        let cur = if moved { loc } else { prev_loc };
        if !done {
            let o1 = match self.observe(prev_loc) {
                Ok(o) => o,
                Err(e) => {
                    return Err(e);
                },
            };
            let o2 = match self.observe(loc) {
                Ok(o) => o,
                Err(e) => {
                    return Err(e);
                },
            };
            if (o1.loc != cur && o1.loc != prev_loc && o1.passability_changed(filter)) || (o2.loc != cur && o2.loc
                != prev_loc && o2.passability_changed(filter)) {
                changed = true;
            }
            comp.observations_after_move = vec![o1, o2];
        }
        Ok((comp, moved, done, took_city, changed))
    }

    /// What moving the unit with the ID towards `dest` through the locations a copy of it could move onto leads to: the game `after` and the result `r`, as `move_unit_by_id` states them.
    pub open spec fn move_by_id_outcome(self, after: Game, player_secret: PlayerSecret, unit_id: UnitID, dest: Location, r: Result<Move, GameError>) -> bool {
        match self.spec_player_with_secret(player_secret) {
            Err(e) => r == Err::<Move, GameError>(e) && after == self,
            Ok(p) => if !self.spec_map().spec_is_player_unit(p, unit_id) {
                r == Err::<Move, GameError>(GameError::MoveError(MoveError::SourceUnitDoesNotExist { id: unit_id }))
                    && after == self
            } else {
                exists|u: Unit|
                    u@ == self.spec_map().spec_unit_by_id(unit_id)->0@ && #[trigger] self.move_outcome(
                        after,
                        player_secret,
                        unit_id,
                        dest,
                        UnitMovementFilter { unit: &u },
                        r,
                    )
            },
        }
    }

    /// Move the player's unit with the ID towards `dest` as `move_unit_by_id_using_filter` does, through the
    /// locations that a copy of the unit, taken before the move, could move onto; an error if no player holds the
    /// secret, or the player has no unit with the ID.
    pub fn move_unit_by_id(&mut self, player_secret: PlayerSecret, unit_id: UnitID, dest: Location) -> (r: Result<
        Move,
        GameError,
    >)
        requires
            old(self).wf(),
            old(self).spec_action_count() < u64::MAX,
        ensures
            final(self).wf(),
            old(self).move_by_id_outcome(*final(self), player_secret, unit_id, dest, r),
    {
        let unit = match self.player_unit_by_id(player_secret, unit_id) {
            Ok(Some(u)) => {
                proof {
                    self.map.lemma_unit_wf(unit_id);
                }
                u.duplicate()
            },
            Ok(None) => {
                return Err(GameError::MoveError(MoveError::SourceUnitDoesNotExist { id: unit_id }));
            },
            Err(e) => {
                return Err(e);
            },
        };
        let filter = UnitMovementFilter::new(&unit);
        self.move_unit_by_id_using_filter(player_secret, unit_id, dest, &filter)
    }

    /// What moving the top-level unit the player last saw at `src` towards `dest` leads to: the game `after` and the result `r`, as `move_toplevel_unit_by_loc` states them.
    pub open spec fn move_toplevel_by_loc_outcome(self, after: Game, player_secret: PlayerSecret, src: Location, dest: Location, r: Result<Move, GameError>) -> bool {
        match self.spec_player_with_secret(player_secret) {
            Err(e) => r == Err::<Move, GameError>(e) && after == self,
            Ok(p) => match self.spec_player_tile(p, src) {
                Some(t) => match t.unit {
                    Some(u0) => exists|u: Unit|
                        u@ == u0@ && #[trigger] self.move_outcome(
                            after,
                            player_secret,
                            u0.id,
                            dest,
                            UnitMovementFilter { unit: &u },
                            r,
                        ),
                    None => r == Err::<Move, GameError>(GameError::MoveError(MoveError::SourceUnitNotAtLocation { src }))
                        && after == self,
                },
                None => r == Err::<Move, GameError>(GameError::MoveError(MoveError::SourceUnitNotAtLocation { src }))
                    && after == self,
            },
        }
    }

    /// Move the top-level unit that the player holding the secret last saw at `src` towards `dest`, as
    /// `move_unit_by_id_using_filter` does for that unit's ID, through the locations that a copy of the unit as seen
    /// could move onto; an error if no player holds the secret, or the player saw no unit there.
    pub fn move_toplevel_unit_by_loc(&mut self, player_secret: PlayerSecret, src: Location, dest: Location) -> (r: Result<
        Move,
        GameError,
    >)
        requires
            old(self).wf(),
            old(self).spec_action_count() < u64::MAX,
        ensures
            final(self).wf(),
            old(self).move_toplevel_by_loc_outcome(*final(self), player_secret, src, dest, r),
    {
        let unit = match self.player_toplevel_unit_by_loc(player_secret, src) {
            Ok(Some(u)) => {
                proof {
                    let p = self.spec_player_with_secret(player_secret)->Ok_0;
                    self.lemma_secret_index(player_secret);
                    let dims = self.spec_map().spec_dims();
                    crate::util::lemma_index_in_bounds(dims, src);
                    let t = self.spec_trackers()[p as int];
                    assert(t.spec_observations()[t.spec_dims().spec_index(src)].wf());
                }
                u.duplicate()
            },
            Ok(None) => {
                return Err(GameError::MoveError(MoveError::SourceUnitNotAtLocation { src }));
            },
            Err(e) => {
                return Err(e);
            },
        };
        let filter = UnitMovementFilter::new(&unit);
        self.move_unit_by_id_using_filter(player_secret, unit.id, dest, &filter)
    }

    /// What moving the unit with the ID one step in the direction leads to: the game `after` and the result `r`, as `move_unit_by_id_in_direction` states them.
    pub open spec fn move_in_direction_outcome(self, after: Game, player_secret: PlayerSecret, unit_id: UnitID, direction: Direction, r: Result<Move, GameError>) -> bool {
        match self.spec_player_with_secret(player_secret) {
            Err(e) => r == Err::<Move, GameError>(e) && after == self,
            Ok(p) => if !self.spec_map().spec_is_player_unit(p, unit_id) {
                r == Err::<Move, GameError>(GameError::MoveError(MoveError::SourceUnitDoesNotExist { id: unit_id }))
                    && after == self
            } else {
                let u0 = self.spec_map().spec_unit_by_id(unit_id)->0;
                match step(self.spec_map().spec_dims(), self.spec_wrapping(), u0.loc, direction.spec_index()) {
                    None => r == Err::<Move, GameError>(GameError::MoveError(MoveError::DestinationOutOfBounds))
                        && after == self,
                    Some(dest) => exists|u: Unit|
                        u@ == u0@ && #[trigger] self.move_outcome(
                            after,
                            player_secret,
                            unit_id,
                            dest,
                            UnitMovementFilter { unit: &u },
                            r,
                        ),
                }
            },
        }
    }

    /// Move the player's unit with the ID towards `dest` as `move_toplevel_unit_by_loc` does from where the unit
    /// is; an error if no player holds the secret, or the player has no unit with the ID.
    pub fn move_toplevel_unit_by_id(&mut self, player_secret: PlayerSecret, unit_id: UnitID, dest: Location) -> (r: Result<
        Move,
        GameError,
    >)
        requires
            old(self).wf(),
            old(self).spec_action_count() < u64::MAX,
        ensures
            final(self).wf(),
            match old(self).spec_player_with_secret(player_secret) {
                Err(e) => r == Err::<Move, GameError>(e) && *final(self) == *old(self),
                Ok(p) => if old(self).spec_map().spec_is_player_unit(p, unit_id) {
                    old(self).move_toplevel_by_loc_outcome(
                        *final(self),
                        player_secret,
                        old(self).spec_map().spec_unit_by_id(unit_id)->0.loc,
                        dest,
                        r,
                    )
                } else {
                    r == Err::<Move, GameError>(GameError::MoveError(MoveError::SourceUnitDoesNotExist { id: unit_id }))
                        && *final(self) == *old(self)
                },
            },
    {
        let src = match self.player_unit_loc(player_secret, unit_id) {
            Ok(Some(l)) => l,
            Ok(None) => {
                return Err(GameError::MoveError(MoveError::SourceUnitDoesNotExist { id: unit_id }));
            },
            Err(e) => {
                return Err(e);
            },
        };
        self.move_toplevel_unit_by_loc(player_secret, src, dest)
    }

    /// Where one step in the direction takes the unit with the ID of the player holding the secret, wrapping as the
    /// map does; none if no player holds the secret, the player has no such unit, or the step leaves the map.
    pub open spec fn step_dest(self, player_secret: PlayerSecret, unit_id: UnitID, direction: Direction) -> Option<Location> {
        match self.spec_player_with_secret(player_secret) {
            Ok(p) => if self.spec_map().spec_is_player_unit(p, unit_id) {
                step(
                    self.spec_map().spec_dims(),
                    self.spec_wrapping(),
                    self.spec_map().spec_unit_by_id(unit_id)->0.loc,
                    direction.spec_index(),
                )
            } else {
                None
            },
            Err(_) => None,
        }
    }

    /// Where one step in the direction takes the player's unit with the ID, as `step_dest` says.
    pub fn player_unit_step_dest(&self, player_secret: PlayerSecret, unit_id: UnitID, direction: Direction) -> (r: Option<
        Location,
    >)
        requires
            self.wf(),
        ensures
            r == self.step_dest(player_secret, unit_id, direction),
    {
        let loc = match self.player_unit_loc(player_secret, unit_id) {
            Ok(Some(l)) => l,
            _ => {
                return None;
            },
        };
        proof {
            self.map.lemma_unit_on_map(unit_id);
            crate::util::lemma_direction_values_index();
        }
        let v = direction.vec2d();
        proof {
            assert(v == step_vec(direction.spec_index()));
        }
        self.wrapping.wrapped_add(self.map.dims(), loc, v)
    }

    /// Move the player's unit with the ID one step in the direction, wrapping as the map does, as
    /// `move_unit_by_id_using_filter` does through the locations that a copy of the unit, taken before the move,
    /// could move onto; an error if no player holds the secret, the player has no unit with the ID, or the step
    /// leaves the map.
    pub fn move_unit_by_id_in_direction(&mut self, player_secret: PlayerSecret, unit_id: UnitID, direction: Direction) -> (r:
        Result<Move, GameError>)
        requires
            old(self).wf(),
            old(self).spec_action_count() < u64::MAX,
        ensures
            final(self).wf(),
            old(self).move_in_direction_outcome(*final(self), player_secret, unit_id, direction, r),
    {
        let unit = match self.player_unit_by_id(player_secret, unit_id) {
            Ok(Some(u)) => {
                proof {
                    self.map.lemma_unit_wf(unit_id);
                    self.map.lemma_unit_on_map(unit_id);
                }
                u.duplicate()
            },
            Ok(None) => {
                return Err(GameError::MoveError(MoveError::SourceUnitDoesNotExist { id: unit_id }));
            },
            Err(e) => {
                return Err(e);
            },
        };
        let v = direction.vec2d();
        proof {
            crate::util::lemma_direction_values_index();
            assert(v == step_vec(direction.spec_index()));
        }
        let dest = match self.wrapping.wrapped_add(self.map.dims(), unit.loc, v) {
            Some(d) => d,
            None => {
                return Err(GameError::MoveError(MoveError::DestinationOutOfBounds));
            },
        };
        let filter = UnitMovementFilter::new(&unit);
        self.move_unit_by_id_using_filter(player_secret, unit_id, dest, &filter)
    }

    /// What moving the unit with the ID towards `dest`, through the locations the filter allows, leads to: the
    /// game `after` and the result `r`, as `move_unit_by_id_using_filter` states them.
    pub open spec fn move_outcome<F: Filter<Obs>>(
        self,
        after: Game,
        player_secret: PlayerSecret,
        unit_id: UnitID,
        dest: Location,
        filter: F,
        r: Result<Move, GameError>,
    ) -> bool {
        match self.spec_validate_phase(player_secret, TurnPhase::Main) {
            Err(e) => r == Err::<Move, GameError>(e) && after == self,
            Ok(p) => if !self.spec_map().spec_dims().spec_contains(dest) {
                r == Err::<Move, GameError>(GameError::MoveError(MoveError::DestinationOutOfBounds))
                    && after == self
            } else if !self.spec_map().spec_is_player_unit(p, unit_id) {
                r == Err::<Move, GameError>(GameError::MoveError(MoveError::SourceUnitDoesNotExist { id: unit_id }))
                    && after == self
            } else {
                let u = self.spec_map().spec_unit_by_id(unit_id)->0;
                &&& u.loc == dest ==> r == Err::<Move, GameError>(GameError::MoveError(MoveError::ZeroLengthMove))
                    && after == self
                &&& (u.loc != dest && !self.route_exists(p, filter, u.loc, dest, u.moves_remaining)) ==> r
                    == Err::<Move, GameError>(
                    GameError::MoveError(MoveError::NoRoute { id: unit_id, src: u.loc, dest }),
                ) && after == self
                &&& r matches Ok(m) ==> {
                    &&& m.starting_loc == u.loc
                    &&& m.components@.len() >= 1
                    &&& steps_follow(self.spec_map().spec_dims(), self.spec_wrapping(), u.loc, m.components@)
                    &&& total_distance(m.components@) <= u.moves_remaining
                    &&& unit_placed(after.spec_map(), unit_id, m.components@)
                    &&& no_fights(m.components@) ==> m.components@.last().loc == dest
                    &&& after.spec_action_count() == self.spec_action_count() + 1
                }
            },
        }
    }

    /// A move that fights no unit and no city on the way ends at its destination: passing through the player's own
    /// cities and boarding its own units does not stop it; only a fight ends a move short of where it was sent.
    pub proof fn law_unopposed_move_reaches_dest<F: Filter<Obs>>(
        self,
        after: Game,
        player_secret: PlayerSecret,
        unit_id: UnitID,
        dest: Location,
        filter: F,
        m: Move,
    )
        requires
            self.move_outcome(after, player_secret, unit_id, dest, filter, Ok(m)),
            no_fights(m.components@),
        ensures
            m.components@.len() >= 1,
            m.components@.last().loc == dest,
            m.components@[0].prev_loc == self.spec_map().spec_unit_by_id(unit_id)->0.loc,
    {
    }

    /// Is there a path of at most `max` steps from `src` to `dest` through the locations the player `p` has seen
    /// and the filter allows?
    pub open spec fn route_exists<F: Filter<Obs>>(
        self,
        p: PlayerNum,
        filter: F,
        src: Location,
        dest: Location,
        max: u16,
    ) -> bool {
        exists|path: Seq<Location>|
            #[trigger] is_path(self.spec_trackers()[p as int], filter, self.spec_wrapping(), src, path) && path.last()
                == dest && path.len() - 1 <= max
    }

    /// Move the player's unit with the ID towards `dest`, step by step along a shortest path through the locations
    /// the player has seen and the filter allows, within the unit's remaining moves. On its way the unit boards a
    /// friendly unit that carries it, fights an enemy unit in its way and then, where that unit stood in a city,
    /// the city too if it can take cities, and takes such a city when it wins; it stops there, or where it loses
    /// a fight. Returns the steps taken, each with what happened on it; counts the player's action.
    ///
    /// Errors: those of checking the player's turn and phase; a destination off the map; no unit of the player's
    /// with the ID; a unit already at the destination; and no such path.
    pub fn move_unit_by_id_using_filter<F: Filter<Obs>>(
        &mut self,
        player_secret: PlayerSecret,
        unit_id: UnitID,
        dest: Location,
        filter: &F,
    ) -> (r: Result<Move, GameError>)
        requires
            old(self).wf(),
            old(self).spec_action_count() < u64::MAX,
        ensures
            final(self).wf(),
            old(self).move_outcome(*final(self), player_secret, unit_id, dest, *filter, r),
    {
        let player = match self.validate_is_player_turn_main_phase(player_secret) {
            Ok(p) => p,
            Err(e) => {
                return Err(e);
            },
        };
        proof {
            self.lemma_secret_index(player_secret);
        }
        let dims = self.map.dims();
        if !dims.contain(dest) {
            return Err(GameError::MoveError(MoveError::DestinationOutOfBounds));
        }
        let (mut unit, hp, alignment, occupies, moves0) = match self.map.player_unit_by_id(player, unit_id) {
            Some(u) => (u.clone(), u.hp, u.alignment, u.can_occupy_cities(), u.moves_remaining),
            None => {
                return Err(GameError::MoveError(MoveError::SourceUnitDoesNotExist { id: unit_id }));
            },
        };
        let ghost g0 = *self;
        let ghost u0 = g0.spec_map().spec_unit_by_id(unit_id)->0;
        proof {
            self.map.lemma_unit_on_map(unit_id);
        }
        let src = self.map.player_unit_by_id(player, unit_id).unwrap().loc;
        if src == dest {
            return Err(GameError::MoveError(MoveError::ZeroLengthMove));
        }
        let wrapping = self.wrapping;
        let mut moves: Vec<MoveComponent> = Vec::new();
        let mut movement_complete = false;
        let mut done = false;
        let mut cur = src;
        let mut moves_left: u16 = moves0;
        let mut steps_taken: u16 = 0;
        let mut path: Vec<Location> = Vec::new();
        let mut next: usize = 0;
        let mut stale = true;
        while cur != dest && !done
            invariant
                self.wf(),
                g0.wf(),
                g0 == *old(self),
                g0.spec_validate_phase(player_secret, TurnPhase::Main) == Ok::<PlayerNum, GameError>(player),
                g0.spec_map().spec_is_player_unit(player, unit_id),
                u0 == g0.spec_map().spec_unit_by_id(unit_id)->0,
                player < self.spec_num_players(),
                self.spec_num_players() == g0.spec_num_players(),
                self.spec_action_count() == g0.spec_action_count(),
                g0.spec_action_count() < u64::MAX,
                self.spec_map().spec_dims() == dims,
                dims == g0.spec_map().spec_dims(),
                self.spec_wrapping() == wrapping,
                wrapping == g0.spec_wrapping(),
                dims.spec_contains(cur),
                dims.spec_contains(src),
                dims.spec_contains(dest),
                src != dest,
                src == u0.loc,
                moves@.len() == 0 ==> !done,
                (moves@.len() > 0 || !stale) ==> g0.route_exists(player, *filter, src, dest, moves0),
                moves0 == u0.moves_remaining,
                moves_left + steps_taken <= moves0,
                total_distance(moves@) == steps_taken,
                steps_follow(dims, wrapping, src, moves@),
                moves@.len() > 0 ==> moves@.last().loc == cur,
                unit_placed(self.spec_map(), unit_id, moves@),
                done ==> moves@.len() > 0 && fought(moves@.last()),
                moves@.len() == 0 ==> cur == src && *self == g0 && stale,
                !stale && !done ==> {
                    &&& 1 <= next <= path@.len()
                    &&& path@[next - 1] == cur
                    &&& path@.last() == dest
                    &&& path@.len() - next <= moves_left
                    &&& forall|i: int| 0 <= i < path@.len() ==> dims.spec_contains(#[trigger] path@[i])
                    &&& forall|i: int| 0 <= i < path@.len() - 1 ==> #[trigger] stepped(dims, wrapping, path@, i)
                },
            decreases moves_left as int * 2 + if done { 0int } else { 1int },
        {
            if stale {
                match self.plan_path(player, cur, dest, filter, moves_left) {
                    None => {
                        return Err(GameError::MoveError(MoveError::NoRoute { id: unit_id, src, dest }));
                    },
                    Some(pth) => {
                        proof {
                            if moves@.len() == 0 {
                                assert(is_path(g0.spec_trackers()[player as int], *filter, g0.spec_wrapping(), src, pth@));
                                assert(g0.route_exists(player, *filter, src, dest, moves0));
                            }
                        }
                        path = pth;
                        next = 1;
                        stale = false;
                    },
                }
            }
            proof {
                assert(1 <= next <= path@.len());
                assert(path@[next - 1] == cur);
                assert(path@.last() == dest);
                assert(next < path@.len());
            }
            let path_len = path.len();
            let loc = path[next];
            proof {
                assert(next < path_len);
            }
            next = next + 1;
            let prev_loc = cur;
            let (comp, moved, step_done, took_city, changed) = match self.move_step(
                player,
                unit_id,
                &unit,
                hp,
                alignment,
                occupies,
                prev_loc,
                loc,
                filter,
            ) {
                Ok(x) => x,
                Err(e) => {
                    return Err(e);
                },
            };
            if took_city {
                movement_complete = true;
            }
            if step_done {
                done = true;
            }
            let distance = comp.distance_moved();
            if moved {
                cur = loc;
                moves_left = moves_left - 1;
                steps_taken = steps_taken + distance as u16;
            }
            if changed {
                stale = true;
            }
            let ghost before = moves@;
            proof {
                assert(path@[next - 2] == prev_loc);
                assert(stepped(dims, wrapping, path@, next - 2));
                lemma_steps_push(dims, wrapping, src, before, comp);
            }
            moves.push(comp);
        }
        let ghost pre_final = moves@;
        let mut last = moves.pop().unwrap();
        unit.loc = cur;
        let observations_after_move = match self.player_observations.tracker_mut(player) {
            Some(t) => unit.observe(self.map.tiles(), self.turn, self.action_count, self.wrapping, t),
            None => Vec::new(),
        };
        last.observations_after_move = observations_after_move;
        let successful = last.moved_successfully();
        let ghost last_view = last;
        moves.push(last);
        proof {
            lemma_steps_replace_last(dims, wrapping, src, pre_final, last_view);
        }
        if successful {
            if movement_complete {
                if let Err(e) = self.map.mark_unit_movement_complete(unit_id) {
                    return Err(e);
                }
                unit.moves_remaining = 0;
            } else {
                if let Err(e) = self.map.record_unit_movement(unit_id, steps_taken) {
                    return Err(e);
                }
                unit.moves_remaining = moves_left;
            }
        }
        self.action_taken(player);
        Move::new(unit, src, moves).map_err(|e: MoveError| GameError::MoveError(e))
    }

    /// Where the window of an AI's view is centred, for the player `p`: the next city awaiting a production
    /// setting, the next unit awaiting orders, or that unit if there is one and else that city.
    pub open spec fn feature_focus(self, p: PlayerNum, focus: TrainingFocus) -> Option<Location> {
        let units = self.spec_orders_requests(p);
        let cities = city_locs(self.spec_production_requests(p));
        let unit_loc = if units.len() > 0 { Some(units[0].loc) } else { None::<Location> };
        let city_loc = if cities.len() > 0 { Some(cities[0]) } else { None::<Location> };
        match focus {
            TrainingFocus::City => city_loc,
            TrainingFocus::Unit => unit_loc,
            TrainingFocus::UnitIfExistsElseCity => if unit_loc is Some { unit_loc } else { city_loc },
        }
    }

    /// What an AI is shown for the player `p`, with its window centred as `focus` says.
    pub open spec fn features_shown(self, p: PlayerNum, focus: TrainingFocus, f: FeatureCounts) -> bool {
        let units = self.spec_orders_requests(p);
        let t = self.spec_trackers()[p as int];
        let w = self.spec_wrapping();
        let centre = self.feature_focus(p, focus);
        let bp = Alignment::Belligerent { player: p };
        &&& f.turn == self.spec_turn()
        &&& f.city_count == (if self.spec_map().spec_city_count_listed(bp) {
            self.spec_map().spec_city_count(bp) as usize
        } else {
            0
        })
        &&& f.num_observed == t.spec_num_observed()
        &&& f.area == self.spec_map().spec_dims().spec_area()
        &&& f.unit_type == (if units.len() > 0 { Some(units[0].type_) } else { None::<UnitType> })
        &&& f.city_awaiting == (self.spec_production_requests(p).len() > 0)
        &&& f.unit_type_counts@ == type_counts(
            if self.spec_map().spec_unit_count_listed(bp) {
                unit_counts_for(self.spec_map().spec_unit_counts(), bp)
            } else {
                Seq::empty()
            },
        )
        &&& f.is_enemy_belligerent@ == window_flags(t, w, centre, |o: Obs| obs_enemy(o, p))
        &&& f.is_observed@ == window_flags(t, w, centre, |o: Obs| obs_observed(o))
        &&& f.is_neutral@ == window_flags(t, w, centre, |o: Obs| obs_neutral(o))
        &&& f.is_city@ == window_flags(t, w, centre, |o: Obs| obs_city(o))
    }

    /// What an AI is shown for the player holding the secret, as `features_shown` says, the window centred as
    /// `focus` says; an error if no player holds the secret. A unit, or a city, must await the player where the
    /// focus is on one.
    pub fn player_feature_counts(&self, player_secret: PlayerSecret, focus: TrainingFocus) -> (r: Result<
        FeatureCounts,
        GameError,
    >)
        requires
            self.wf(),
            self.spec_player_with_secret(player_secret) matches Ok(p) ==> match focus {
                TrainingFocus::City => self.spec_production_requests(p).len() > 0,
                TrainingFocus::Unit => self.spec_orders_requests(p).len() > 0,
                TrainingFocus::UnitIfExistsElseCity => true,
            },
        ensures
            match self.spec_player_with_secret(player_secret) {
                Err(e) => r == Err::<FeatureCounts, GameError>(e),
                Ok(p) => r matches Ok(f) && self.features_shown(p, focus, f),
            },
    {
        let player = match self.player_with_secret(player_secret) {
            Ok(p) => p,
            Err(e) => {
                return Err(e);
            },
        };
        proof {
            self.lemma_secret_index(player_secret);
        }
        let units = match self.player_units_with_orders_requests(player_secret) {
            Ok(v) => v,
            Err(e) => {
                return Err(e);
            },
        };
        let cities = match self.player_production_set_requests(player_secret) {
            Ok(v) => v,
            Err(e) => {
                return Err(e);
            },
        };
        let unit_type = if units.len() > 0 { Some(units[0].type_) } else { None };
        let unit_loc = if units.len() > 0 { Some(units[0].loc) } else { None };
        let city_loc = if cities.len() > 0 { Some(cities[0]) } else { None };
        let centre = match focus {
            TrainingFocus::City => city_loc,
            TrainingFocus::Unit => unit_loc,
            TrainingFocus::UnitIfExistsElseCity => if unit_loc.is_some() { unit_loc } else { city_loc },
        };
        let city_count = match self.player_city_count(player_secret) {
            Ok(n) => n,
            Err(e) => {
                return Err(e);
            },
        };
        let observations = match self.player_observations(player_secret) {
            Ok(o) => o,
            Err(e) => {
                return Err(e);
            },
        };
        let listed = match self.player_unit_type_counts(player_secret) {
            Ok(v) => v,
            Err(_) => Vec::new(),
        };
        let types = UnitType::values();
        let mut unit_type_counts: Vec<u64> = Vec::new();
        let mut i: usize = 0;
        while i < types.len()
            invariant
                i <= types@.len(),
                types@ == spec_unit_type_values(),
                unit_type_counts@ == type_counts(listed@).take(i as int),
            decreases types@.len() - i,
        {
            let n = listed_count_of(&listed, types[i]);
            unit_type_counts.push(n);
            proof {
                assert(type_counts(listed@).take(i as int + 1) =~= type_counts(listed@).take(i as int).push(n));
            }
            i = i + 1;
        }
        proof {
            assert(type_counts(listed@).take(10) =~= type_counts(listed@));
        }
        let wrapping = self.wrapping;
        let ghost t = self.spec_trackers()[player as int];
        let mut is_enemy_belligerent: Vec<bool> = Vec::new();
        let mut is_observed: Vec<bool> = Vec::new();
        let mut is_neutral: Vec<bool> = Vec::new();
        let mut is_city: Vec<bool> = Vec::new();
        let mut k: usize = 0;
        while k < 121
            invariant
                k <= 121,
                *observations == t,
                t.wf(),
                is_enemy_belligerent@ == window_flags(t, wrapping, centre, |o: Obs| obs_enemy(o, player)).take(k as int),
                is_observed@ == window_flags(t, wrapping, centre, |o: Obs| obs_observed(o)).take(k as int),
                is_neutral@ == window_flags(t, wrapping, centre, |o: Obs| obs_neutral(o)).take(k as int),
                is_city@ == window_flags(t, wrapping, centre, |o: Obs| obs_city(o)).take(k as int),
            decreases 121 - k,
        {
            let o = window_obs_at(observations, wrapping, centre, k);
            let (enemy, observed, neutral, city) = obs_flags(o, player);
            is_enemy_belligerent.push(enemy);
            is_observed.push(observed);
            is_neutral.push(neutral);
            is_city.push(city);
            proof {
                let x = window_obs(t, wrapping, centre, k as int);
                assert(enemy == obs_enemy(x, player));
                assert(observed == obs_observed(x));
                assert(neutral == obs_neutral(x));
                assert(city == obs_city(x));
                assert(is_enemy_belligerent@ =~= window_flags(t, wrapping, centre, |o: Obs| obs_enemy(o, player)).take(
                    k as int + 1,
                ));
                assert(is_observed@ =~= window_flags(t, wrapping, centre, |o: Obs| obs_observed(o)).take(k as int + 1));
                assert(is_neutral@ =~= window_flags(t, wrapping, centre, |o: Obs| obs_neutral(o)).take(k as int + 1));
                assert(is_city@ =~= window_flags(t, wrapping, centre, |o: Obs| obs_city(o)).take(k as int + 1));
            }
            k = k + 1;
        }
        proof {
            assert(window_flags(t, wrapping, centre, |o: Obs| obs_enemy(o, player)).take(121) =~= window_flags(
                t,
                wrapping,
                centre,
                |o: Obs| obs_enemy(o, player),
            ));
            assert(window_flags(t, wrapping, centre, |o: Obs| obs_observed(o)).take(121) =~= window_flags(
                t,
                wrapping,
                centre,
                |o: Obs| obs_observed(o),
            ));
            assert(window_flags(t, wrapping, centre, |o: Obs| obs_neutral(o)).take(121) =~= window_flags(
                t,
                wrapping,
                centre,
                |o: Obs| obs_neutral(o),
            ));
            assert(window_flags(t, wrapping, centre, |o: Obs| obs_city(o)).take(121) =~= window_flags(
                t,
                wrapping,
                centre,
                |o: Obs| obs_city(o),
            ));
        }
        Ok(FeatureCounts {
            turn: self.turn,
            city_count,
            num_observed: observations.num_observed(),
            area: self.map.dims().area(),
            unit_type,
            city_awaiting: cities.len() > 0,
            unit_type_counts,
            is_enemy_belligerent,
            is_observed,
            is_neutral,
            is_city,
        })
    }

    /// Does the current player, as the current player's secret identifies it, control a city at `loc` on the map?
    pub open spec fn current_player_city_at(self, loc: Location) -> bool {
        &&& self.spec_current_player() < self.spec_secrets().len()
        &&& self.spec_player_with_secret(self.spec_secrets()[self.spec_current_player() as int]) matches Ok(p)
        &&& self.spec_map().spec_dims().spec_contains(loc)
        &&& self.spec_map().spec_tile(loc).city matches Some(c)
        &&& c.alignment == (Alignment::Belligerent { player: p })
    }

    /// The unit types the current player's city at `loc` could produce that have a way out of it, conservatively
    /// judged, in the order of the unit types; the current player must control a city there.
    pub fn current_player_valid_productions_conservative(&self, loc: Location) -> (v: Vec<UnitType>)
        requires
            self.wf(),
            self.current_player_city_at(loc),
        ensures
            v@ == productions_with_way_out(self.spec_map(), self.spec_wrapping(), loc, true),
    {
        let player_secret = self.player_secrets[self.current_player];
        match self.valid_productions_conservative(player_secret, loc) {
            Ok(v) => v,
            Err(_) => Vec::new(),
        }
    }

    /// The directions in which the current player's unit with the ID could step, as
    /// `player_unit_legal_directions` gives them for the current player's secret.
    pub fn current_player_unit_legal_directions(&self, unit_id: UnitID) -> (r: Result<Vec<Direction>, GameError>)
        requires
            self.wf(),
            self.spec_current_player() < self.spec_secrets().len(),
        ensures
            self.spec_player_with_secret(self.spec_secrets()[self.spec_current_player() as int]) matches Ok(p) && if self.spec_map().spec_is_player_unit(p, unit_id) {
                r matches Ok(v) && v@ == legal_directions(
                    self.spec_map(),
                    self.spec_wrapping(),
                    self.spec_map().spec_unit_by_id(unit_id)->0,
                )
            } else {
                r == Err::<Vec<Direction>, GameError>(GameError::NoSuchUnit { id: unit_id })
            },
    {
        let player_secret = self.player_secrets[self.current_player];
        proof {
            self.player_secrets@.index_of_first_ensures(player_secret);
            assert(self.player_secrets@[self.current_player as int] == player_secret);
        }
        self.player_unit_legal_directions(player_secret, unit_id)
    }

    /// Where the unit with the ID is, if the player holding the secret controls it.
    pub fn player_unit_loc(&self, player_secret: PlayerSecret, id: UnitID) -> (r: Result<Option<Location>, GameError>)
        requires
            self.wf(),
        ensures
            match self.spec_player_with_secret(player_secret) {
                Ok(p) => r == Ok::<Option<Location>, GameError>(
                    if self.spec_map().spec_is_player_unit(p, id) {
                        Some(self.spec_map().spec_unit_by_id(id)->0.loc)
                    } else {
                        None
                    },
                ),
                Err(e) => r == Err::<Option<Location>, GameError>(e),
            },
    {
        match self.player_unit_by_id(player_secret, id) {
            Ok(Some(u)) => Ok(Some(u.loc)),
            Ok(None) => Ok(None),
            Err(e) => Err(e),
        }
    }

    /// Sets the production of the city at `loc`, if the player holding the secret controls it; returns the prior
    /// production, and counts the player's action.
    pub fn set_production_by_loc(&mut self, player_secret: PlayerSecret, loc: Location, production: UnitType) -> (r:
        Result<Option<UnitType>, GameError>)
        requires
            old(self).wf(),
            old(self).spec_action_count() < u64::MAX,
        ensures
            final(self).wf(),
            match old(self).spec_player_with_secret(player_secret) {
                Ok(p) => if old(self).spec_map().spec_city_by_loc(loc) matches Some(c) && c.alignment == (Alignment::Belligerent { player: p }) {
                    &&& r == Ok::<Option<UnitType>, GameError>(old(self).spec_map().spec_city_by_loc(loc)->0.production)
                    &&& final(self).spec_map().same_frame(old(self).spec_map())
                    &&& old(self).spec_map().production_set_at(final(self).spec_map(), loc, production)
                    &&& final(self).action_counted(*old(self), p)
                } else {
                    r == Err::<Option<UnitType>, GameError>(GameError::NoCityAtLocation { loc }) && *final(self) == *old(self)
                },
                Err(e) => r == Err::<Option<UnitType>, GameError>(e) && *final(self) == *old(self),
            },
    {
        let player = match self.player_with_secret(player_secret) {
            Ok(p) => p,
            Err(e) => {
                return Err(e);
            },
        };
        proof {
            self.lemma_secret_index(player_secret);
        }
        let result = self.map.set_player_city_production_by_loc(player, loc, production);
        if result.is_ok() {
            self.action_taken(player);
        }
        result
    }

    /// What setting the production of the city with the ID leads to: the game `after` and the result `r`, as `set_production_by_id` states them.
    pub open spec fn production_by_id_outcome(self, after: Game, player_secret: PlayerSecret, city_id: CityID, production: UnitType, r: Result<Option<UnitType>, GameError>) -> bool {
        match self.spec_player_with_secret(player_secret) {
            Ok(p) => match self.spec_map().spec_city_by_id(city_id) {
                None => r == Err::<Option<UnitType>, GameError>(
                    GameError::NoCityAtLocation { loc: Location { x: 0, y: 0 } },
                ) && after == self,
                Some(c) => if c.alignment == (Alignment::Belligerent { player: p }) {
                    &&& r == Ok::<Option<UnitType>, GameError>(c.production)
                    &&& after.spec_map().same_frame(self.spec_map())
                    &&& self.spec_map().production_set_for(after.spec_map(), city_id, production)
                    &&& after.action_counted(self, p)
                } else {
                    r == Err::<Option<UnitType>, GameError>(GameError::NoCityAtLocation { loc: c.loc }) && after
                        == self
                },
            },
            Err(e) => r == Err::<Option<UnitType>, GameError>(e) && after == self,
        }
    }

    /// Sets the production of the city with ID `city_id`, if the player holding the secret controls it; returns the
    /// prior production, and counts the player's action. `NoCityAtLocation` if no city with that ID belongs to the
    /// player: naming the city's location where the city is another side's, and the origin where no city carries
    /// the ID at all.
    pub fn set_production_by_id(&mut self, player_secret: PlayerSecret, city_id: CityID, production: UnitType) -> (r:
        Result<Option<UnitType>, GameError>)
        requires
            old(self).wf(),
            old(self).spec_action_count() < u64::MAX,
        ensures
            final(self).wf(),
            old(self).production_by_id_outcome(*final(self), player_secret, city_id, production, r),
    {
        let player = match self.player_with_secret(player_secret) {
            Ok(p) => p,
            Err(e) => {
                return Err(e);
            },
        };
        proof {
            self.lemma_secret_index(player_secret);
        }
        let result = self.map.set_player_city_production_by_id(player, city_id, production);
        match result {
            Ok(prior) => {
                self.action_taken(player);
                Ok(prior)
            },
            Err(GameError::NoSuchCity { .. }) => Err(GameError::NoCityAtLocation { loc: Location { x: 0, y: 0 } }),
            Err(e) => Err(e),
        }
    }

    /// What giving the unit with the ID the orders, counting the player's action, leads to: the game `after` and
    /// the result `r`, as `order_unit_skip` and `order_unit_sentry` state them.
    pub open spec fn orders_counted_outcome(
        self,
        after: Game,
        player_secret: PlayerSecret,
        id: UnitID,
        orders: Orders,
        r: Result<Option<Orders>, GameError>,
    ) -> bool {
        match self.spec_player_with_secret(player_secret) {
            Ok(p) => if self.spec_map().spec_is_player_unit(p, id) {
                &&& r == Ok::<Option<Orders>, GameError>(self.spec_map().spec_unit_by_id(id)->0.orders)
                &&& self.spec_map().unit_edited(after.spec_map(), id, UnitEdit::SetOrders { orders })
                &&& after.action_counted(self, p)
            } else {
                r == Err::<Option<Orders>, GameError>(GameError::NoSuchUnit { id }) && after == self
            },
            Err(e) => r == Err::<Option<Orders>, GameError>(e) && after == self,
        }
    }

    /// Gives the unit with the ID the orders, if the player holding the secret controls it; returns its prior
    /// orders, and counts the player's action.
    fn set_orders_counted(&mut self, player_secret: PlayerSecret, id: UnitID, orders: Orders) -> (r: Result<
        Option<Orders>,
        GameError,
    >)
        requires
            old(self).wf(),
            old(self).spec_action_count() < u64::MAX,
        ensures
            final(self).wf(),
            old(self).orders_counted_outcome(*final(self), player_secret, id, orders, r),
    {
        let player = match self.player_with_secret(player_secret) {
            Ok(p) => p,
            Err(e) => {
                return Err(e);
            },
        };
        proof {
            self.lemma_secret_index(player_secret);
        }
        let result = self.set_orders(player_secret, id, orders);
        if result.is_ok() {
            self.action_taken(player);
        }
        result
    }

    /// Orders the unit with the ID, if the player holding the secret controls it, to skip its turn; returns its
    /// prior orders, and counts the player's action.
    pub fn order_unit_skip(&mut self, player_secret: PlayerSecret, id: UnitID) -> (r: Result<Option<Orders>, GameError>)
        requires
            old(self).wf(),
            old(self).spec_action_count() < u64::MAX,
        ensures
            final(self).wf(),
            old(self).orders_counted_outcome(*final(self), player_secret, id, Orders::Skip, r),
    {
        self.set_orders_counted(player_secret, id, Orders::Skip)
    }

    /// Orders the unit with the ID, if the player holding the secret controls it, to sentry; returns its prior
    /// orders, and counts the player's action.
    pub fn order_unit_sentry(&mut self, player_secret: PlayerSecret, id: UnitID) -> (r: Result<Option<Orders>, GameError>)
        requires
            old(self).wf(),
            old(self).spec_action_count() < u64::MAX,
        ensures
            final(self).wf(),
            old(self).orders_counted_outcome(*final(self), player_secret, id, Orders::Sentry, r),
    {
        self.set_orders_counted(player_secret, id, Orders::Sentry)
    }

    /// What giving the unit with the ID the orders leads to: the game `after` and the result `r`, as `set_orders` states them.
    pub open spec fn set_orders_outcome(self, after: Game, player_secret: PlayerSecret, id: UnitID, orders: Orders, r: Result<Option<Orders>, GameError>) -> bool {
        match self.spec_player_with_secret(player_secret) {
            Ok(p) => if self.spec_map().spec_is_player_unit(p, id) {
                &&& r == Ok::<Option<Orders>, GameError>(self.spec_map().spec_unit_by_id(id)->0.orders)
                &&& self.spec_map().unit_edited(after.spec_map(), id, UnitEdit::SetOrders { orders })
                &&& after.same_but_map(self)
            } else {
                r == Err::<Option<Orders>, GameError>(GameError::NoSuchUnit { id }) && after == self
            },
            Err(e) => r == Err::<Option<Orders>, GameError>(e) && after == self,
        }
    }

    /// Sets the orders of the unit with ID `id`, if the player holding the secret controls it; returns its prior
    /// orders.
    pub fn set_orders(&mut self, player_secret: PlayerSecret, id: UnitID, orders: Orders) -> (r: Result<
        Option<Orders>,
        GameError,
    >)
        requires
            old(self).wf(),
        ensures
            final(self).wf(),
            old(self).set_orders_outcome(*final(self), player_secret, id, orders, r),
    {
        let player = match self.player_with_secret(player_secret) {
            Ok(p) => p,
            Err(e) => {
                return Err(e);
            },
        };
        let r = self.map.set_player_unit_orders(player, id, orders);
        proof {
            assert(self.spec_pending() =~= old(self).spec_pending());
        }
        r
    }

    /// Clears the orders of the unit with ID `id`, if the player holding the secret controls it; returns its prior
    /// orders. This can happen at any time.
    pub fn clear_orders(&mut self, player_secret: PlayerSecret, id: UnitID) -> (r: Result<Option<Orders>, GameError>)
        requires
            old(self).wf(),
        ensures
            final(self).wf(),
            match old(self).spec_player_with_secret(player_secret) {
                Ok(p) => if old(self).spec_map().spec_is_player_unit(p, id) {
                    &&& r == Ok::<Option<Orders>, GameError>(old(self).spec_map().spec_unit_by_id(id)->0.orders)
                    &&& old(self).spec_map().unit_edited(final(self).spec_map(), id, UnitEdit::ClearOrders)
                    &&& final(self).same_but_map(*old(self))
                } else {
                    r == Err::<Option<Orders>, GameError>(GameError::NoSuchUnit { id }) && *final(self) == *old(self)
                },
                Err(e) => r == Err::<Option<Orders>, GameError>(e) && *final(self) == *old(self),
            },
    {
        let player = match self.player_with_secret(player_secret) {
            Ok(p) => p,
            Err(e) => {
                return Err(e);
            },
        };
        let r = self.map.clear_player_unit_orders(player, id);
        proof {
            assert(self.spec_pending() =~= old(self).spec_pending());
        }
        r
    }

    /// Can one of the player's top-level units, or one of its cities, see `loc`?
    fn player_sees(&self, player: PlayerNum, loc: Location) -> (b: bool)
        ensures
            b == self.spec_player_sees(player, loc),
    {
        let units = self.map.player_toplevel_units(player);
        let ghost us = deref_units(units@);
        let mut i: usize = 0;
        while i < units.len()
            invariant
                i <= units@.len(),
                us == deref_units(units@),
                us == spec_toplevel_units(self.spec_map().spec_tiles()).filter(unit_of_player(player)),
                forall|j: int| 0 <= j < i ==> !((#[trigger] us[j]).loc.spec_manhattan(loc) <= us[j].spec_sight_distance()),
            decreases units@.len() - i,
        {
            proof {
                assert(us[i as int] == *units@[i as int]);
            }
            if units[i].can_see(loc) {
                return true;
            }
            i = i + 1;
        }
        let cities = self.map.player_cities(player);
        let ghost cs = deref_cities(cities@);
        let mut k: usize = 0;
        while k < cities.len()
            invariant
                k <= cities@.len(),
                cs == deref_cities(cities@),
                cs == spec_cities(self.spec_map().spec_tiles()).filter(city_selected(player, CitySelection::All)),
                forall|j: int| 0 <= j < k ==> !((#[trigger] cs[j]).loc.spec_manhattan(loc) <= 3),
            decreases cities@.len() - k,
        {
            proof {
                assert(cs[k as int] == *cities@[k as int]);
            }
            if cities[k].can_see(loc) {
                return true;
            }
            k = k + 1;
        }
        false
    }

    /// Indicate that an observable event has just occurred at `loc`: each player that learns of it (every player
    /// without fog of war, else those of whose top-level units or cities one can see it) records a fresh observation
    /// there and queues it for viewing. Returns the observation with the one it replaced from the current player's
    /// point of view (none, if the current player does not learn of it). An error if `loc` is off the map.
    fn observe(&mut self, loc: Location) -> (r: Result<LocatedObs, GameError>)
        requires
            old(self).wf(),
        ensures
            final(self).wf(),
            !old(self).spec_map().spec_dims().spec_contains(loc) ==> r == Err::<LocatedObs, GameError>(
                GameError::NoTileAtLocation { loc },
            ) && *final(self) == *old(self),
            old(self).spec_map().spec_dims().spec_contains(loc) ==> (r matches Ok(lo) && {
                &&& lo.loc == loc
                &&& lo.obs.wf()
                &&& lo.obs.current_observation_of(
                    old(self).spec_map().spec_tile(loc),
                    old(self).spec_turn(),
                    old(self).spec_action_count(),
                )
                &&& lo.old_obs == if old(self).spec_current_player() < old(self).spec_num_players() && old(self).spec_receives(
                    old(self).spec_current_player(),
                    loc,
                ) {
                    old(self).spec_trackers()[old(self).spec_current_player() as int].spec_obs(loc)
                } else {
                    Obs::Unobserved
                }
                &&& final(self).observed_at(*old(self), loc, lo.obs)
                &&& final(self).same_but_observations(*old(self))
            }),
    {
        let tile = match self.map.tile(loc) {
            Some(t) => {
                proof {
                    self.map.lemma_tile_wf(loc);
                }
                t.duplicate()
            },
            None => {
                return Err(GameError::NoTileAtLocation { loc });
            },
        };
        let obs = Obs::Observed { tile, turn: self.turn, action_count: self.action_count, current: true };
        let mut old_obs = Obs::Unobserved;
        let ghost start = *self;
        let mut p: usize = 0;
        while p < self.num_players
            invariant
                start.wf(),
                start.spec_map().spec_dims().spec_contains(loc),
                obs.wf(),
                obs is Observed,
                p <= self.num_players,
                self.same_but_observations(start),
                self.player_observations.spec_trackers().len() == self.num_players,
                self.player_pending_observations@.len() == self.num_players,
                forall|q: int| 0 <= q < self.num_players ==> {
                    let o = #[trigger] self.player_observations.spec_trackers()[q];
                    &&& o.wf()
                    &&& o.spec_dims() == self.map.spec_dims()
                },
                forall|q: int| p <= q < self.num_players ==> #[trigger] self.spec_trackers()[q] == start.spec_trackers()[q],
                forall|q: int| p <= q < self.num_players ==> #[trigger] self.spec_pending()[q] == start.spec_pending()[q],
                forall|q: int| 0 <= q < p ==> {
                    let o = start.spec_trackers()[q];
                    let o2 = #[trigger] self.spec_trackers()[q];
                    let pq = start.spec_pending()[q];
                    let pq2 = self.spec_pending()[q];
                    if start.spec_receives(q as PlayerNum, loc) {
                        &&& o2.spec_dims() == o.spec_dims()
                        &&& o2.spec_obs(loc).same_as(obs)
                        &&& o2.spec_observations() == o.spec_observations().update(o.spec_dims().spec_index(loc), o2.spec_obs(loc))
                        &&& pq2.len() == pq.len() + 1
                        &&& pq2.drop_last() == pq
                        &&& pq2.last().loc == loc
                        &&& pq2.last().obs.same_as(obs)
                    } else {
                        o2 == o && pq2 == pq
                    }
                },
                old_obs == if start.spec_current_player() < p && start.spec_receives(start.spec_current_player(), loc) {
                    start.spec_trackers()[start.spec_current_player() as int].spec_obs(loc)
                } else {
                    Obs::Unobserved
                },
            decreases self.num_players - p,
        {
            let ghost pre = *self;
            let learns = if self.fog_of_war {
                self.player_sees(p, loc)
            } else {
                true
            };
            proof {
                assert(learns == start.spec_receives(p as PlayerNum, loc));
            }
            if learns {
                let lite = LocatedObsLite::new(loc, obs.duplicate());
                self.player_pending_observations[p].push(lite);
                proof {
                    assert(self.spec_pending() =~= pre.spec_pending().update(p as int, pre.spec_pending()[p as int].push(lite)));
                    assert(self.spec_pending()[p as int].drop_last() =~= pre.spec_pending()[p as int]);
                    assert(self.spec_trackers() == pre.spec_trackers());
                }
                let ghost mid = *self;
                let tracked_obs = LocatedObsLite::new(loc, obs.duplicate());
                let incoming = match self.player_observations.tracker_mut(p) {
                    Some(t) => t.track_lite(tracked_obs),
                    None => None,
                };
                proof {
                    let o = mid.spec_trackers()[p as int];
                    let o2 = self.spec_trackers()[p as int];
                    crate::util::lemma_index_in_bounds(o.spec_dims(), loc);
                    assert(o2.spec_obs(loc) == o2.spec_observations()[o.spec_dims().spec_index(loc)]);
                    assert(o2.spec_obs(loc) == tracked_obs.obs);
                    assert forall|q: int| 0 <= q < self.num_players implies {
                        let o = #[trigger] self.player_observations.spec_trackers()[q];
                        &&& o.wf()
                        &&& o.spec_dims() == self.map.spec_dims()
                    } by {
                        if q != p {
                            assert(self.player_observations.spec_trackers()[q] == mid.spec_trackers()[q]);
                        }
                    }
                    assert(self.spec_pending() == mid.spec_pending());
                }
                if p == self.current_player {
                    if let Some(o) = incoming {
                        old_obs = o;
                    }
                }
            }
            proof {
                assert forall|q: int| 0 <= q < p + 1 implies {
                    let o = start.spec_trackers()[q];
                    let o2 = #[trigger] self.spec_trackers()[q];
                    let pq = start.spec_pending()[q];
                    let pq2 = self.spec_pending()[q];
                    if start.spec_receives(q as PlayerNum, loc) {
                        &&& o2.spec_dims() == o.spec_dims()
                        &&& o2.spec_obs(loc).same_as(obs)
                        &&& o2.spec_observations() == o.spec_observations().update(o.spec_dims().spec_index(loc), o2.spec_obs(loc))
                        &&& pq2.len() == pq.len() + 1
                        &&& pq2.drop_last() == pq
                        &&& pq2.last().loc == loc
                        &&& pq2.last().obs.same_as(obs)
                    } else {
                        o2 == o && pq2 == pq
                    }
                } by {
                    if q < p {
                        assert(self.spec_trackers()[q] == pre.spec_trackers()[q]);
                        assert(self.spec_pending()[q] == pre.spec_pending()[q]);
                    }
                }
                assert forall|q: int| p + 1 <= q < self.num_players implies #[trigger] self.spec_trackers()[q] == start.spec_trackers()[q] by {
                    assert(self.spec_trackers()[q] == pre.spec_trackers()[q]);
                }
                assert forall|q: int| p + 1 <= q < self.num_players implies #[trigger] self.spec_pending()[q] == start.spec_pending()[q] by {
                    assert(self.spec_pending()[q] == pre.spec_pending()[q]);
                }
            }
            p = p + 1;
        }
        proof {
            assert(self.spec_trackers().len() == start.spec_trackers().len());
            assert(self.spec_pending().len() == start.spec_pending().len());
        }
        Ok(LocatedObs::new(loc, obs, old_obs))
    }

    /// What disbanding the unit with the ID leads to: the game `after` and the result `r`, as `disband_unit_by_id` states them.
    pub open spec fn disband_outcome(self, after: Game, player_secret: PlayerSecret, unit_id: UnitID, r: Result<UnitDisbanded, GameError>) -> bool {
        match self.spec_validate_phase(player_secret, TurnPhase::Main) {
            Err(e) => r == Err::<UnitDisbanded, GameError>(e) && after == self,
            Ok(p) => if !self.spec_map().spec_is_player_unit(p, unit_id) {
                r == Err::<UnitDisbanded, GameError>(GameError::NoSuchUnit { id: unit_id }) && after == self
            } else {
                r matches Ok(d) && {
                    &&& d.unit == self.spec_map().spec_unit_by_id(unit_id)->0
                    &&& grid_without_unit(self.spec_map().spec_tiles(), after.spec_map().spec_tiles(), unit_id)
                    &&& after.spec_map().spec_dims() == self.spec_map().spec_dims()
                    &&& after.spec_map().spec_next_unit_id() == self.spec_map().spec_next_unit_id()
                    &&& after.spec_map().spec_next_city_id() == self.spec_map().spec_next_city_id()
                    &&& d.obs.loc == d.unit.loc
                    &&& d.obs.obs.current_observation_of(
                        after.spec_map().spec_tile(d.unit.loc),
                        self.spec_turn(),
                        after.spec_action_count(),
                    )
                    &&& after.observed_at_also_by(self, d.unit.loc, d.obs.obs, p)
                    &&& after.spec_action_count() == self.spec_action_count() + 1
                    &&& after.spec_action_counts() == self.spec_action_counts().update(
                        p as int,
                        (self.spec_action_counts()[p as int] + 1) as u64,
                    )
                    &&& after.spec_turn() == self.spec_turn()
                    &&& after.spec_phase() == self.spec_phase()
                    &&& after.spec_num_players() == self.spec_num_players()
                    &&& after.spec_secrets() == self.spec_secrets()
                    &&& after.spec_current_player() == self.spec_current_player()
                    &&& after.spec_wrapping() == self.spec_wrapping()
                    &&& after.spec_units_named() == self.spec_units_named()
                    &&& after.spec_fog_of_war() == self.spec_fog_of_war()
                    &&& after.spec_defeated_hitpoints() == self.spec_defeated_hitpoints()
                }
            },
        }
    }

    /// Disbands the unit with ID `unit_id`, if the player holding the secret controls it, during the player's turn
    /// once begun; counts the action. Everyone who can see where it stood learns that it is gone, and so does the
    /// player, whose unit is no longer there to see it.
    #[verifier::spinoff_prover]
    #[verifier::rlimit(40)]
    pub fn disband_unit_by_id(&mut self, player_secret: PlayerSecret, unit_id: UnitID) -> (r: Result<
        UnitDisbanded,
        GameError,
    >)
        requires
            old(self).wf(),
            old(self).spec_action_count() < u64::MAX,
        ensures
            final(self).wf(),
            old(self).disband_outcome(*final(self), player_secret, unit_id, r),
    {
        let player = match self.validate_is_player_turn_main_phase(player_secret) {
            Ok(p) => p,
            Err(e) => {
                return Err(e);
            },
        };
        proof {
            self.lemma_secret_index(player_secret);
        }
        let ghost m0 = self.map;
        proof {
            if m0.spec_is_player_unit(player, unit_id) {
                m0.lemma_unit_on_map(unit_id);
            }
        }
        let unit = match self.map.pop_player_unit_by_id(player, unit_id) {
            Some(u) => u,
            None => {
                return Err(GameError::NoSuchUnit { id: unit_id });
            },
        };
        self.action_taken(player);
        let ghost g1 = *self;
        let obs = match self.observe(unit.loc) {
            Ok(o) => o.lite(),
            Err(e) => {
                return Err(e);
            },
        };
        let ghost g2 = *self;
        proof {
            assert(self.player_observations.spec_trackers()[player as int].wf());
        }
        let tracked_obs = LocatedObsLite::new(obs.loc, obs.obs.duplicate());
        match self.player_observations.tracker_mut(player) {
            Some(t) => {
                t.track_lite(tracked_obs);
            },
            None => {},
        }
        proof {
            let loc = unit.loc;
            let o = g2.spec_trackers()[player as int];
            let o2 = self.spec_trackers()[player as int];
            crate::util::lemma_index_in_bounds(o.spec_dims(), loc);
            assert(o2.spec_obs(loc) == tracked_obs.obs);
            assert forall|q: int| 0 <= q < self.num_players implies {
                let o = #[trigger] self.player_observations.spec_trackers()[q];
                &&& o.wf()
                &&& o.spec_dims() == self.map.spec_dims()
            } by {
                if q != player {
                    assert(self.player_observations.spec_trackers()[q] == g2.spec_trackers()[q]);
                }
            }
            assert(self.spec_pending() == g2.spec_pending());
            assert(g1.spec_trackers() == old(self).spec_trackers());
            assert(g1.spec_pending() == old(self).spec_pending());
            assert(old(self).player_observations.spec_trackers()[player as int].wf());
            assert(old(self).spec_pending().len() == old(self).spec_trackers().len());
            Game::lemma_recorded_again(*old(self), g2, *self, loc, obs.obs, player);
            assert(self.spec_trackers().len() == old(self).spec_trackers().len());
            assert(self.spec_pending().len() == old(self).spec_pending().len());
        }
        Ok(UnitDisbanded { unit, obs })
    }

    /// Clears the production of the city at `loc`, if the player holding the secret last saw a city of its own there,
    /// marking whether to skip it when productions are requested; returns the prior production and the fresh
    /// observation of `loc`. An error if the player saw no city of its own there.
    pub fn clear_production(&mut self, player_secret: PlayerSecret, loc: Location, ignore_cleared_production: bool) -> (r:
        Result<ProductionCleared, GameError>)
        requires
            old(self).wf(),
            old(self).spec_player_with_secret(player_secret) matches Ok(p) ==> (old(self).spec_sees_own_city(p, loc) ==> old(self).spec_map().spec_city_by_loc(loc) is Some),
        ensures
            final(self).wf(),
            match old(self).spec_player_with_secret(player_secret) {
                Err(e) => r == Err::<ProductionCleared, GameError>(e) && *final(self) == *old(self),
                Ok(p) => if !(old(self).spec_sees_own_city(p, loc)) {
                    r == Err::<ProductionCleared, GameError>(GameError::NoCityAtLocation { loc }) && *final(self) == *old(self)
                } else {
                    r matches Ok(pc) && {
                        let c = old(self).spec_map().spec_city_by_loc(loc)->0;
                        &&& pc.prior_production == c.production
                        &&& final(self).spec_map().same_frame(old(self).spec_map())
                        &&& final(self).spec_map().spec_tiles() == old(self).spec_map().spec_tiles().update(
                            old(self).spec_map().spec_dims().spec_index(loc),
                            Tile {
                                city: Some(City { production: None, ignore_cleared_production, ..c }),
                                ..old(self).spec_map().spec_tile(loc)
                            },
                        )
                        &&& pc.obs.loc == loc
                        &&& pc.obs.obs.current_observation_of(
                            final(self).spec_map().spec_tile(loc),
                            old(self).spec_turn(),
                            old(self).spec_action_count(),
                        )
                        &&& final(self).observed_at(*old(self), loc, pc.obs.obs)
                        &&& final(self).same_but_observations_and_map(*old(self))
                    }
                },
            },
    {
        match self.player_city_by_loc(player_secret, loc) {
            Ok(Some(_)) => {},
            Ok(None) => {
                return Err(GameError::NoCityAtLocation { loc });
            },
            Err(e) => {
                return Err(e);
            },
        }
        proof {
            self.lemma_secret_index(player_secret);
        }
        let prior = match self.map.clear_city_production_by_loc(loc, ignore_cleared_production) {
            Ok(prior) => prior,
            Err(e) => {
                return Err(e);
            },
        };
        let ghost g1 = *self;
        let obs = match self.observe(loc) {
            Ok(o) => o.lite(),
            Err(e) => {
                return Err(e);
            },
        };
        proof {
            assert(g1.spec_trackers() == old(self).spec_trackers());
            assert(g1.spec_pending() == old(self).spec_pending());
            Game::lemma_observed_at_transfer(*self, g1, *old(self), loc, obs.obs);
        }
        Ok(ProductionCleared { prior_production: prior, obs })
    }

    /// Clears the production of every city of the player holding the secret, during the player's turn, marking
    /// each whether to skip it when productions are requested; returns what clearing each city gave, in the order
    /// of the cities on the map. The player must have seen each of its cities.
    #[verifier::spinoff_prover]
    #[verifier::rlimit(60)]
    pub fn clear_productions(&mut self, player_secret: PlayerSecret, ignore_cleared_production: bool) -> (r: Result<
        Vec<ProductionCleared>,
        GameError,
    >)
        requires
            old(self).wf(),
            old(self).spec_validate_turn(player_secret) matches Ok(p) ==> forall|loc: Location|
                #[trigger] old(self).spec_map().spec_city_by_loc(loc) matches Some(c) && c.alignment == (Alignment::Belligerent {
                    player: p,
                }) ==> (old(self).spec_sees_own_city(p, loc)),
        ensures
            final(self).wf(),
            match old(self).spec_validate_turn(player_secret) {
                Err(e) => r == Err::<Vec<ProductionCleared>, GameError>(e) && *final(self) == *old(self),
                Ok(p) => r matches Ok(v) && {
                    let cs = spec_cities(old(self).spec_map().spec_tiles()).filter(city_selected(p, CitySelection::All));
                    &&& v@.len() == cs.len()
                    &&& forall|k: int| 0 <= k < cs.len() ==> {
                        &&& (#[trigger] v@[k]).prior_production == cs[k].production
                        &&& v@[k].obs.loc == cs[k].loc
                        &&& v@[k].obs.obs.current_observation_of(
                            final(self).spec_map().spec_tile(cs[k].loc),
                            old(self).spec_turn(),
                            old(self).spec_action_count(),
                        )
                        &&& final(self).spec_trackers()[p as int].spec_obs(cs[k].loc).current_observation_of(
                            final(self).spec_map().spec_tile(cs[k].loc),
                            old(self).spec_turn(),
                            old(self).spec_action_count(),
                        )
                    }
                    &&& final(self).spec_map().same_frame(old(self).spec_map())
                    &&& final(self).spec_map().spec_tiles() == old(self).spec_map().spec_tiles().map_values(
                        |t: Tile| production_cleared(p, ignore_cleared_production, t),
                    )
                    &&& final(self).same_but_observations_and_map(*old(self))
                }
            },
    {
        let player = match self.validate_is_player_turn(player_secret) {
            Ok(p) => p,
            Err(e) => {
                return Err(e);
            },
        };
        proof {
            self.lemma_secret_index(player_secret);
            self.map.lemma_tiles_len();
        }
        let ghost g0 = *self;
        let ghost sel = city_selected(player, CitySelection::All);
        let ghost tiles0 = g0.spec_map().spec_tiles();
        let dims = self.map.dims();
        let n = dims.area();
        let mut cleared: Vec<ProductionCleared> = Vec::new();
        let mut i: usize = 0;
        proof {
            assert forall|j: int|
                #![trigger tiles0[j]]
                0 <= j < n && (tiles0[j].city matches Some(c) && c.alignment == (Alignment::Belligerent { player }))
                    implies (self.spec_sees_own_city(player, dims.spec_loc(j))) by {
                g0.map.lemma_tile_at_index(j);
                assert(g0.spec_map().spec_city_by_loc(dims.spec_loc(j)) == tiles0[j].city);
            }
            assert(tiles0.take(0) =~= Seq::<Tile>::empty());
        }
        while i < n
            invariant
                self.wf(),
                g0.wf(),
                player < g0.spec_num_players(),
                g0.spec_player_with_secret(player_secret) == Ok::<PlayerNum, GameError>(player),
                sel == city_selected(player, CitySelection::All),
                tiles0 == g0.spec_map().spec_tiles(),
                dims == g0.spec_map().spec_dims(),
                n == dims.spec_area(),
                tiles0.len() == n,
                i <= n,
                self.same_but_observations_and_map(g0),
                self.spec_map().same_frame(g0.spec_map()),
                self.spec_map().spec_tiles().len() == n,
                forall|j: int| 0 <= j < i ==> #[trigger] self.spec_map().spec_tiles()[j] == production_cleared(
                    player,
                    ignore_cleared_production,
                    tiles0[j],
                ),
                forall|j: int| i <= j < n ==> #[trigger] self.spec_map().spec_tiles()[j] == tiles0[j],
                forall|j: int|
                    #![trigger tiles0[j]]
                    i <= j < n ==> (tiles0[j].city matches Some(c) && c.alignment == (Alignment::Belligerent { player }))
                        ==> (self.spec_sees_own_city(player, dims.spec_loc(j))),
                cleared@.len() == spec_cities(tiles0.take(i as int)).filter(sel).len(),
                forall|k: int| 0 <= k < cleared@.len() ==> {
                    let c = spec_cities(tiles0.take(i as int)).filter(sel)[k];
                    &&& (#[trigger] cleared@[k]).prior_production == c.production
                    &&& cleared@[k].obs.loc == c.loc
                    &&& dims.spec_contains(c.loc)
                    &&& dims.spec_index(c.loc) < i
                    &&& cleared@[k].obs.obs.current_observation_of(
                        self.spec_map().spec_tile(c.loc),
                        g0.spec_turn(),
                        g0.spec_action_count(),
                    )
                    &&& self.spec_trackers()[player as int].spec_obs(c.loc).current_observation_of(
                        self.spec_map().spec_tile(c.loc),
                        g0.spec_turn(),
                        g0.spec_action_count(),
                    )
                },
            decreases n - i,
        {
            let loc = dims.loc(i);
            let ghost before = *self;
            let ghost cs_i = spec_cities(tiles0.take(i as int)).filter(sel);
            proof {
                self.map.lemma_tile_at_index(i as int);
                g0.map.lemma_tile_at_index(i as int);
                lemma_player_cities_step(tiles0, i as int, player);
            }
            let mine = match self.map.city_by_loc(loc) {
                Some(c) => c.alignment == (Alignment::Belligerent { player }),
                None => false,
            };
            if mine {
                let res = self.clear_production(player_secret, loc, ignore_cleared_production);
                match res {
                    Ok(pc) => {
                        proof {
                            let c = tiles0[i as int].city->0;
                            let t2 = Tile { city: Some(City { production: None, ignore_cleared_production, ..c }), ..tiles0[i as int] };
                            assert(self.spec_map().spec_tiles() == before.spec_map().spec_tiles().update(i as int, t2));
                            assert forall|k: int| 0 <= k < cleared@.len() implies self.spec_map().spec_tile(cs_i[k].loc)
                                == before.spec_map().spec_tile(cs_i[k].loc) && self.spec_trackers()[player as int].spec_obs(
                                cs_i[k].loc,
                            ) == before.spec_trackers()[player as int].spec_obs(cs_i[k].loc) by {
                                assert(cleared@[k].obs.loc == cs_i[k].loc);
                                assert(dims.spec_index(cs_i[k].loc) < i);
                                let o = before.spec_trackers()[player as int];
                                let o2 = self.spec_trackers()[player as int];
                                if o2 != o {
                                    assert(o2.spec_observations() == o.spec_observations().update(dims.spec_index(loc), o2.spec_obs(loc)));
                                }
                            }
                            self.map.lemma_cities_at_tiles();
                            self.map.lemma_tile_at_index(i as int);
                            let all = spec_cities(self.spec_map().spec_tiles());
                            let ct = self.spec_map().spec_tiles()[i as int].city->0;
                            assert(all.contains(ct));
                            let m = choose|m: int| 0 <= m < all.len() && all[m] == ct;
                            all.lemma_filter_contains(sel, m);
                            let fc = all.filter(sel);
                            let q = choose|q: int| 0 <= q < fc.len() && fc[q] == ct;
                            assert(fc[q].loc.spec_manhattan(loc) <= 3);
                            assert(self.spec_player_sees(player, loc));
                        }
                        cleared.push(pc);
                    },
                    Err(e) => {
                        proof {
                            assert(false);
                        }
                        return Err(e);
                    },
                }
                proof {
                    let t2 = self.spec_map().spec_tiles()[i as int];
                    assert forall|j: int|
                        #![trigger tiles0[j]]
                        i + 1 <= j < n && (tiles0[j].city matches Some(c) && c.alignment == (Alignment::Belligerent { player }))
                            implies (self.spec_sees_own_city(player, dims.spec_loc(j))) by {
                        crate::util::lemma_loc_of_index(dims, j);
                        let o = before.spec_trackers()[player as int];
                        let o2 = self.spec_trackers()[player as int];
                        assert(before.spec_sees_own_city(player, dims.spec_loc(j)));
                        if o2 != o {
                            assert(o2.spec_observations() == o.spec_observations().update(dims.spec_index(loc), o2.spec_obs(loc)));
                            assert(o2.spec_obs(dims.spec_loc(j)) == o.spec_obs(dims.spec_loc(j)));
                        }
                    }
                }
            } else {
                proof {
                    assert(*self == before);
                }
            }
            proof {
                let cs_n = spec_cities(tiles0.take(i as int + 1)).filter(sel);
                assert forall|k: int| 0 <= k < cleared@.len() implies {
                    let c = cs_n[k];
                    &&& (#[trigger] cleared@[k]).prior_production == c.production
                    &&& cleared@[k].obs.loc == c.loc
                    &&& dims.spec_contains(c.loc)
                    &&& dims.spec_index(c.loc) < i + 1
                    &&& cleared@[k].obs.obs.current_observation_of(
                        self.spec_map().spec_tile(c.loc),
                        g0.spec_turn(),
                        g0.spec_action_count(),
                    )
                } by {
                    let _ = cleared@[k];
                    if k < cs_i.len() {
                        assert(cs_n[k] == cs_i[k]);
                    }
                }
            }
            i = i + 1;
        }
        proof {
            assert(tiles0.take(n as int) =~= tiles0);
            assert(self.spec_map().spec_tiles() =~= tiles0.map_values(
                |t: Tile| production_cleared(player, ignore_cleared_production, t),
            ));
        }
        Ok(cleared)
    }

    /// Activates the top-level unit at `loc` as the player holding the secret last saw it, and any units it
    /// carries, during the player's turn; returns a fresh observation of `loc`. An error if the player saw no unit
    /// there, saw another player's unit, or no longer has that unit.
    pub fn activate_unit_by_loc(&mut self, player_secret: PlayerSecret, loc: Location) -> (r: Result<
        LocatedObsLite,
        GameError,
    >)
        requires
            old(self).wf(),
        ensures
            final(self).wf(),
            match old(self).spec_validate_turn(player_secret) {
                Err(e) => r == Err::<LocatedObsLite, GameError>(e) && *final(self) == *old(self),
                Ok(p) => match old(self).spec_player_tile(p, loc) {
                    Some(t) if t.unit is Some => {
                        let u = t.unit->0;
                        if u.alignment != (Alignment::Belligerent { player: p }) {
                            r == Err::<LocatedObsLite, GameError>(GameError::UnitNotControlledByCurrentPlayer) && *final(self) == *old(self)
                        } else if !old(self).spec_map().spec_is_player_unit(p, u.id) {
                            r == Err::<LocatedObsLite, GameError>(GameError::NoSuchUnit { id: u.id }) && *final(self) == *old(self)
                        } else {
                            r matches Ok(lo) && {
                                &&& old(self).spec_map().unit_edited(final(self).spec_map(), u.id, UnitEdit::Activate)
                                &&& lo.loc == loc
                                &&& lo.obs.current_observation_of(
                                    final(self).spec_map().spec_tile(loc),
                                    old(self).spec_turn(),
                                    old(self).spec_action_count(),
                                )
                                &&& final(self).observed_at(*old(self), loc, lo.obs)
                                &&& final(self).same_but_observations_and_map(*old(self))
                            }
                        }
                    },
                    _ => r == Err::<LocatedObsLite, GameError>(GameError::NoUnitAtLocation { loc }) && *final(self) == *old(self),
                },
            },
    {
        let player = match self.validate_is_player_turn(player_secret) {
            Ok(p) => p,
            Err(e) => {
                return Err(e);
            },
        };
        proof {
            self.lemma_secret_index(player_secret);
        }
        let unit_id = match self.player_toplevel_unit_by_loc(player_secret, loc) {
            Ok(Some(unit)) => {
                if !unit.belongs_to_player(player) {
                    return Err(GameError::UnitNotControlledByCurrentPlayer);
                }
                unit.id
            },
            Ok(None) => {
                return Err(GameError::NoUnitAtLocation { loc });
            },
            Err(e) => {
                return Err(e);
            },
        };
        if let Err(e) = self.map.activate_player_unit(player, unit_id) {
            return Err(e);
        }
        let ghost g1 = *self;
        match self.observe(loc) {
            Ok(o) => {
                proof {
                    assert(g1.spec_trackers() == old(self).spec_trackers());
                    assert(g1.spec_pending() == old(self).spec_pending());
                    Game::lemma_observed_at_transfer(*self, g1, *old(self), loc, o.obs);
                }
                Ok(o.lite())
            },
            Err(e) => Err(e),
        }
    }

    /// A name for the next unit: the count of units named so far goes up by one.
    fn next_unit_name(&mut self) -> (name: String)
        requires
            old(self).spec_units_named() < u64::MAX,
        ensures
            name@ == unit_name(old(self).spec_units_named()),
            final(self).spec_units_named() == old(self).spec_units_named() + 1,
            final(self).spec_map() == old(self).spec_map(),
            final(self).spec_trackers() == old(self).spec_trackers(),
            final(self).spec_pending() == old(self).spec_pending(),
            final(self).spec_turn() == old(self).spec_turn(),
            final(self).spec_phase() == old(self).spec_phase(),
            final(self).spec_num_players() == old(self).spec_num_players(),
            final(self).spec_secrets() == old(self).spec_secrets(),
            final(self).spec_current_player() == old(self).spec_current_player(),
            final(self).spec_wrapping() == old(self).spec_wrapping(),
            final(self).spec_fog_of_war() == old(self).spec_fog_of_war(),
            final(self).spec_action_count() == old(self).spec_action_count(),
            final(self).spec_action_counts() == old(self).spec_action_counts(),
            final(self).spec_defeated_hitpoints() == old(self).spec_defeated_hitpoints(),
            old(self).wf() ==> final(self).wf(),
    {
        let mut name = String::from_str("Unit ");
        let d = decimal(self.units_named);
        name.append(d.as_str());
        proof {
            reveal_strlit("Unit ");
        }
        self.units_named = self.units_named + 1;
        proof {
            assert(self.spec_pending() =~= old(self).spec_pending());
        }
        name
    }

    /// Counts the turn's production in each of the current player's cities producing something; then each city
    /// that has finished its unit produces it, unless a unit stands on its tile. Returns what came of each such
    /// city, in tile order. An error if it is not the turn of the player holding the secret.
    #[verifier::rlimit(60)]
    fn produce_units(&mut self, player_secret: PlayerSecret) -> (r: Result<Vec<UnitProductionOutcome>, GameError>)
        requires
            old(self).wf(),
            old(self).spec_map().spec_next_unit_id().id + old(self).spec_map().spec_dims().spec_area() <= u64::MAX,
            old(self).spec_units_named() + old(self).spec_map().spec_dims().spec_area() <= u64::MAX,
        ensures
            final(self).wf(),
            old(self).spec_validate_turn(player_secret) matches Err(e) ==> r == Err::<Vec<UnitProductionOutcome>, GameError>(e)
                && *final(self) == *old(self),
            old(self).spec_validate_turn(player_secret) matches Ok(p) ==> (r matches Ok(outcomes) && {
                let m0 = old(self).spec_map();
                let m2 = final(self).spec_map();
                let cs = completing_cities(m0.spec_tiles(), p);
                &&& outcomes@.len() == cs.len()
                &&& forall|k: int| 0 <= k < cs.len() ==> production_outcome_ok(
                    #[trigger] outcomes@[k],
                    cs[k],
                    m0.spec_tile(cs[k].loc),
                    m2.spec_tile(cs[k].loc),
                    UnitID { id: (m0.spec_next_unit_id().id + produced_count(m0, cs.take(k))) as u64 },
                    unit_name((old(self).spec_units_named() + k) as u64),
                )
                &&& m2.spec_tiles().len() == m0.spec_tiles().len()
                &&& forall|j: int| 0 <= j < m0.spec_tiles().len() && !tile_completes(p, #[trigger] m0.spec_tiles()[j])
                    ==> tile_production_incremented(p, spec_max_unit_cost(), m0.spec_tiles()[j], m2.spec_tiles()[j])
                &&& m2.spec_dims() == m0.spec_dims()
                &&& m2.spec_next_unit_id().id == m0.spec_next_unit_id().id + produced_count(m0, cs)
                &&& m2.spec_next_city_id() == m0.spec_next_city_id()
                &&& final(self).spec_units_named() == old(self).spec_units_named() + cs.len()
                &&& final(self).same_but_map_and_names(*old(self))
            }),
    {
        let player = match self.validate_is_player_turn(player_secret) {
            Ok(p) => p,
            Err(e) => {
                return Err(e);
            },
        };
        let ghost m0 = self.map;
        let ghost named0 = self.units_named;
        let ghost g0 = *self;
        self.map.increment_player_city_production_targets(player);
        let ghost m1 = self.map;
        let ghost m1t = self.map.spec_tiles();
        proof {
            lemma_cities_incremented(m0.spec_tiles(), m1t, player);
            m0.lemma_tiles_len();
            m1.lemma_tiles_len();
            assert(m0.spec_tiles().take(0) =~= Seq::<Tile>::empty());
            assert(completing_prefix(m0.spec_tiles(), 0, player) =~= Seq::<City>::empty()) by {
                reveal(Seq::filter);
            }
        }
        let locs = self.map.iter_locs();
        let n = locs.len();
        let mut outcomes: Vec<UnitProductionOutcome> = Vec::new();
        let mut j: usize = 0;
        while j < n
            invariant
                self.wf(),
                n == locs@.len(),
                n == m0.spec_dims().spec_area(),
                j <= n,
                m0.wf(),
                m1.wf(),
                m1t == m1.spec_tiles(),
                m1t.len() == n,
                m0.spec_tiles().len() == n,
                m1.spec_dims() == m0.spec_dims(),
                forall|i: int| 0 <= i < n ==> #[trigger] locs@[i] == m0.spec_dims().spec_loc(i),
                forall|i: int| 0 <= i < n ==> tile_production_incremented(player, spec_max_unit_cost(), #[trigger] m0.spec_tiles()[i], m1t[i]),
                m0.spec_next_unit_id().id + n <= u64::MAX,
                named0 + n <= u64::MAX,
                self.map.spec_dims() == m0.spec_dims(),
                self.map.spec_tiles().len() == n,
                self.map.spec_next_city_id() == m0.spec_next_city_id(),
                self.same_but_map_and_names(g0),
                outcomes@.len() == completing_prefix(m0.spec_tiles(), j as int, player).len(),
                completing_prefix(m0.spec_tiles(), j as int, player).len() <= j,
                self.units_named == named0 + completing_prefix(m0.spec_tiles(), j as int, player).len(),
                self.map.spec_next_unit_id().id == m0.spec_next_unit_id().id + produced_count(m0, completing_prefix(m0.spec_tiles(), j as int, player)),
                forall|k: int| 0 <= k < completing_prefix(m0.spec_tiles(), j as int, player).len() ==> m0.spec_dims().spec_contains(
                    #[trigger] completing_prefix(m0.spec_tiles(), j as int, player)[k].loc,
                ) && m0.spec_dims().spec_index(completing_prefix(m0.spec_tiles(), j as int, player)[k].loc) < j,
                forall|k: int| 0 <= k < completing_prefix(m0.spec_tiles(), j as int, player).len() ==> production_outcome_ok(
                    #[trigger] outcomes@[k],
                    completing_prefix(m0.spec_tiles(), j as int, player)[k],
                    m0.spec_tile(completing_prefix(m0.spec_tiles(), j as int, player)[k].loc),
                    self.map.spec_tile(completing_prefix(m0.spec_tiles(), j as int, player)[k].loc),
                    UnitID { id: (m0.spec_next_unit_id().id + produced_count(m0, completing_prefix(m0.spec_tiles(), j as int, player).take(k))) as u64 },
                    unit_name((named0 + k) as u64),
                ),
                forall|i: int| 0 <= i < j && !tile_completes(player, #[trigger] m0.spec_tiles()[i]) ==> self.map.spec_tiles()[i] == m1t[i],
                forall|i: int| j <= i < n ==> #[trigger] self.map.spec_tiles()[i] == m1t[i],
            decreases n - j,
        {
            let loc = locs[j];
            proof {
                m0.lemma_tile_at_index(j as int);
                m1.lemma_tile_at_index(j as int);
                self.map.lemma_tile_at_index(j as int);
                assert(tile_production_incremented(player, spec_max_unit_cost(), m0.spec_tiles()[j as int], m1t[j as int]));
                assert(spec_cities(m0.spec_tiles().take(j as int + 1)) =~= spec_cities(m0.spec_tiles().take(j as int)) + match m0.spec_tiles()[j as int].city {
                    Some(c) => seq![c],
                    None => Seq::<City>::empty(),
                }) by {
                    assert(m0.spec_tiles().take(j as int + 1).drop_last() =~= m0.spec_tiles().take(j as int));
                }
            }
            let ghost cs = completing_prefix(m0.spec_tiles(), j as int, player);
            let ghost pre = *self;
            let ghost outs0 = outcomes@;
            proof {
                lemma_completing_step(m0.spec_tiles(), j as int, player);
                lemma_produced_count_le(m0, cs);
            }
            let complete = match self.map.city_by_loc(loc) {
                Some(c) => c.alignment == (Alignment::Belligerent { player }) && match c.production {
                    Some(t) => c.production_progress >= t.cost(),
                    None => false,
                },
                None => false,
            };
            proof {
                assert(complete == tile_completes(player, m0.spec_tiles()[j as int]));
            }
            if complete {
                let ghost k = cs.len() as int;
                let ghost c1 = m1t[j as int].city->0;
                let ghost t0 = m0.spec_tiles()[j as int];
                proof {
                    assert(c1 == city_incremented(player, t0.city->0));
                    assert(m1t[j as int] == (Tile { city: Some(c1), ..t0 }));
                    assert(c1.loc == loc);
                    assert(m0.spec_tile(loc) == t0);
                    assert(self.map.spec_tile(loc) == m1t[j as int]);
                }
                let city_now = self.map.city_by_loc(loc).unwrap();
                let alignment = city_now.alignment;
                let unit_type = city_now.production.unwrap();
                let name = self.next_unit_name();
                let ghost before_new = self.map;
                let ghost pre_outcomes = outcomes@;
                match self.map.new_unit(loc, unit_type, alignment, name.as_str()) {
                    Ok(_) => {
                        let ghost with_unit = self.map;
                        let _ = self.map.clear_city_production_progress_by_loc(loc);
                        proof {
                            self.map.lemma_tile_wf(loc);
                            crate::util::lemma_index_in_bounds(m0.spec_dims(), loc);
                        }
                        let t = self.map.tile(loc).unwrap().duplicate();
                        let unit = t.unit.unwrap();
                        let city = t.city.unwrap();
                        let o = UnitProductionOutcome::UnitProduced { unit, city };
                        outcomes.push(o);
                        proof {
                            let after = self.map.spec_tile(loc);
                            assert(t0.unit is None);
                            assert(after == (Tile { unit: after.unit, city: Some(City { production_progress: 0, ..c1 }), ..t0 }));
                            assert(is_new_unit(after.unit->0, before_new.spec_next_unit_id(), loc, c1.production->0, c1.alignment, name@));
                            let cs1 = cs.push(c1);
                            assert(cs1.take(k) =~= cs);
                            assert(cs1.drop_last() =~= cs);
                            assert(production_outcome_ok(o, c1, t0, after, UnitID { id: (m0.spec_next_unit_id().id + produced_count(m0, cs1.take(k))) as u64 }, unit_name((named0 + k) as u64)));
                            assert forall|k2: int| 0 <= k2 < k implies self.map.spec_tile(#[trigger] cs[k2].loc) == pre.map.spec_tile(cs[k2].loc) by {
                                crate::util::lemma_index_in_bounds(m0.spec_dims(), cs[k2].loc);
                            }
                        }
                    },
                    Err(NewUnitError::UnitAlreadyPresent { prior_unit, unit_type_under_production, .. }) => {
                        let city = self.map.city_by_loc(loc).unwrap().duplicate();
                        let o = UnitProductionOutcome::UnitAlreadyPresent { prior_unit, unit_type_under_production, city };
                        outcomes.push(o);
                        proof {
                            let cs1 = cs.push(c1);
                            assert(cs1.take(k) =~= cs);
                            assert(cs1.drop_last() =~= cs);
                            assert(production_outcome_ok(o, c1, t0, self.map.spec_tile(loc), UnitID { id: (m0.spec_next_unit_id().id + produced_count(m0, cs1.take(k))) as u64 }, unit_name((named0 + k) as u64)));
                        }
                    },
                    Err(NewUnitError::OutOfBounds { .. }) => {
                        proof {
                            assert(false);
                        }
                    },
                }
            }
            proof {
                let cs2 = completing_prefix(m0.spec_tiles(), j as int + 1, player);
                assert forall|k2: int| 0 <= k2 < cs.len() implies outcomes@[k2] == outs0[k2] && cs2[k2] == cs[k2] && cs2.take(k2)
                    =~= cs.take(k2) && self.map.spec_tile(cs[k2].loc) == pre.map.spec_tile(cs[k2].loc) by {
                    crate::util::lemma_index_in_bounds(m0.spec_dims(), cs[k2].loc);
                }
                assert forall|k2: int| 0 <= k2 < cs2.len() implies production_outcome_ok(
                    #[trigger] outcomes@[k2],
                    cs2[k2],
                    m0.spec_tile(cs2[k2].loc),
                    self.map.spec_tile(cs2[k2].loc),
                    UnitID { id: (m0.spec_next_unit_id().id + produced_count(m0, cs2.take(k2))) as u64 },
                    unit_name((named0 + k2) as u64),
                ) by {
                    if k2 < cs.len() {
                        assert(outcomes@[k2] == outs0[k2] && cs2[k2] == cs[k2] && cs2.take(k2) =~= cs.take(k2)
                            && self.map.spec_tile(cs[k2].loc) == pre.map.spec_tile(cs[k2].loc));
                        assert(production_outcome_ok(
                            outs0[k2],
                            cs[k2],
                            m0.spec_tile(cs[k2].loc),
                            pre.map.spec_tile(cs[k2].loc),
                            UnitID { id: (m0.spec_next_unit_id().id + produced_count(m0, cs.take(k2))) as u64 },
                            unit_name((named0 + k2) as u64),
                        ));
                    }
                }
            }
            j = j + 1;
        }
        proof {
            assert(m0.spec_tiles().take(n as int) =~= m0.spec_tiles());
            assert(completing_prefix(m0.spec_tiles(), n as int, player) == completing_cities(m0.spec_tiles(), player));
            assert forall|i: int| 0 <= i < m0.spec_tiles().len() && !tile_completes(player, #[trigger] m0.spec_tiles()[i])
                implies tile_production_incremented(player, spec_max_unit_cost(), m0.spec_tiles()[i], self.map.spec_tiles()[i]) by {
                assert(self.map.spec_tiles()[i] == m1t[i]);
            }
        }
        Ok(outcomes)
    }

    /// Register the current observations of the player's cities and units: with fog of war, what each of them sees;
    /// without, the whole map. Returns the observations made.
    fn update_player_observations(&mut self, player: PlayerNum) -> (r: Vec<LocatedObs>)
        requires
            old(self).wf(),
            player < old(self).spec_num_players(),
        ensures
            final(self).wf(),
            final(self).same_but_observations(*old(self)),
            final(self).spec_pending() == old(self).spec_pending(),
            final(self).spec_trackers().len() == old(self).spec_trackers().len(),
            forall|q: int| 0 <= q < old(self).spec_trackers().len() && q != player ==> #[trigger] final(self).spec_trackers()[q]
                == old(self).spec_trackers()[q],
            observations_recorded(
                old(self).spec_map(),
                old(self).spec_turn(),
                old(self).spec_action_count(),
                old(self).spec_trackers()[player as int],
                final(self).spec_trackers()[player as int],
                r@,
            ),
            old(self).spec_fog_of_war() ==> forall|i: int| 0 <= i < spec_cities(old(self).spec_map().spec_tiles()).filter(
                city_selected(player, CitySelection::All),
            ).len() ==> observer_covered(
                r@,
                old(self).spec_wrapping(),
                old(self).spec_map().spec_dims(),
                #[trigger] spec_cities(old(self).spec_map().spec_tiles()).filter(city_selected(player, CitySelection::All))[i].loc,
                3,
            ),
            old(self).spec_fog_of_war() ==> forall|i: int| 0 <= i < old(self).spec_player_units(player).len() ==> observer_covered(
                r@,
                old(self).spec_wrapping(),
                old(self).spec_map().spec_dims(),
                (#[trigger] old(self).spec_player_units(player)[i]).loc,
                old(self).spec_player_units(player)[i].spec_sight_distance(),
            ),
            !old(self).spec_fog_of_war() ==> r@.len() == old(self).spec_map().spec_dims().spec_area() && forall|k: int|
                0 <= k < r@.len() ==> #[trigger] r@[k].loc == old(self).spec_map().spec_dims().spec_loc(k),
    {
        let ghost g0 = *self;
        let ghost o0 = self.spec_trackers()[player as int];
        let mut observations: Vec<LocatedObs> = Vec::new();
        proof {
            self.map.lemma_cities_on_map();
            self.map.lemma_units_on_map();
            self.map.lemma_tiles_len();
        }
        if self.fog_of_war {
            let cities = self.map.player_cities(player);
            let ghost cs = deref_cities(cities@);
            proof {
                assert forall|i: int| 0 <= i < cs.len() implies self.map.spec_dims().spec_contains(#[trigger] cs[i].loc) by {
                    let all = spec_cities(self.map.spec_tiles());
                    assert(cs.contains(cs[i]));
                    all.lemma_filter_contains_rev(city_selected(player, CitySelection::All), cs[i]);
                    let j = choose|j: int| 0 <= j < all.len() && all[j] == cs[i];
                    assert(self.map.spec_dims().spec_contains(all[j].loc));
                }
            }
            let mut i: usize = 0;
            while i < cities.len()
                invariant
                    i <= cities@.len(),
                    cs == deref_cities(cities@),
                    cs == spec_cities(g0.spec_map().spec_tiles()).filter(city_selected(player, CitySelection::All)),
                    forall|i2: int| 0 <= i2 < cs.len() ==> g0.spec_map().spec_dims().spec_contains(#[trigger] cs[i2].loc),
                    player < g0.spec_num_players(),
                    g0.wf(),
                    self.same_but_observations(g0),
                    self.spec_pending() == g0.spec_pending(),
                    self.player_observations.spec_trackers().len() == g0.spec_trackers().len(),
                    forall|q: int| 0 <= q < g0.spec_trackers().len() && q != player ==> #[trigger] self.spec_trackers()[q]
                        == g0.spec_trackers()[q],
                    o0 == g0.spec_trackers()[player as int],
                    observations_recorded(g0.spec_map(), g0.spec_turn(), g0.spec_action_count(), o0, self.spec_trackers()[player as int], observations@),
                    forall|i2: int| 0 <= i2 < i ==> observer_covered(observations@, g0.spec_wrapping(), g0.spec_map().spec_dims(), #[trigger] cs[i2].loc, 3),
                decreases cities@.len() - i,
            {
                let ghost before = observations@;
                let ghost t1 = self.spec_trackers()[player as int];
                proof {
                    assert(cs[i as int] == *cities@[i as int]);
                }
                let mut r = match self.player_observations.tracker_mut(player) {
                    Some(t) => cities[i].observe(self.map.tiles(), self.turn, self.action_count, self.wrapping, t),
                    None => Vec::new(),
                };
                let ghost rr = r@;
                observations.append(&mut r);
                proof {
                    let c = *cities@[i as int];
                    assert(c.spec_sight_distance() == 3);
                    assert(c.spec_location() == cs[i as int].loc);
                    assert forall|o: Vec2d| #[trigger] visible_offsets(3).contains(o) implies (g0.spec_wrapping().spec_wrapped_add(g0.spec_map().spec_dims(), cs[i as int].loc, o) matches Some(l) ==> covers(rr, l)) by {
                        assert(visible_offsets(c.spec_sight_distance() as int).contains(o));
                    }
                    assert(observations_recorded(g0.spec_map(), g0.spec_turn(), g0.spec_action_count(), t1, self.spec_trackers()[player as int], rr));
                    lemma_recorded_append(g0.spec_map(), g0.spec_turn(), g0.spec_action_count(), o0, t1, self.spec_trackers()[player as int], before, rr);
                    assert(observations@ == before + rr);
                    assert forall|i2: int| 0 <= i2 < i + 1 implies observer_covered(observations@, g0.spec_wrapping(), g0.spec_map().spec_dims(), #[trigger] cs[i2].loc, 3) by {
                        if i2 < i {
                            lemma_covered_append(before, rr, g0.spec_wrapping(), g0.spec_map().spec_dims(), cs[i2].loc, 3);
                        } else {
                            assert(observer_covered(rr, g0.spec_wrapping(), g0.spec_map().spec_dims(), cs[i2].loc, 3));
                            assert(observer_covered(Seq::<LocatedObs>::empty() + rr, g0.spec_wrapping(), g0.spec_map().spec_dims(), cs[i2].loc, 3)) by {
                                assert(Seq::<LocatedObs>::empty() + rr =~= rr);
                            }
                            assert forall|o: Vec2d| #[trigger] visible_offsets(3).contains(o) implies (g0.spec_wrapping().spec_wrapped_add(g0.spec_map().spec_dims(), cs[i2].loc, o) matches Some(l) ==> covers(observations@, l)) by {
                                if let Some(l) = g0.spec_wrapping().spec_wrapped_add(g0.spec_map().spec_dims(), cs[i2].loc, o) {
                                    let k = choose|k: int| 0 <= k < rr.len() && (#[trigger] rr[k]).loc == l;
                                    assert(observations@[before.len() + k] == rr[k]);
                                }
                            }
                        }
                    }
                }
                i = i + 1;
            }
            let units = self.map.player_units(player);
            let ghost us = deref_units(units@);
            proof {
                assert forall|i: int| 0 <= i < us.len() implies self.map.spec_dims().spec_contains(#[trigger] us[i].loc) by {
                    let all = spec_all_units(self.map.spec_tiles());
                    assert(us.contains(us[i]));
                    all.lemma_filter_contains_rev(unit_of_player(player), us[i]);
                    let j = choose|j: int| 0 <= j < all.len() && all[j] == us[i];
                    assert(self.map.spec_dims().spec_contains(all[j].loc));
                }
            }
            let mut i: usize = 0;
            while i < units.len()
                invariant
                    i <= units@.len(),
                    us == deref_units(units@),
                    us == g0.spec_player_units(player),
                    forall|i2: int| 0 <= i2 < us.len() ==> g0.spec_map().spec_dims().spec_contains(#[trigger] us[i2].loc),
                    cs == spec_cities(g0.spec_map().spec_tiles()).filter(city_selected(player, CitySelection::All)),
                    player < g0.spec_num_players(),
                    g0.wf(),
                    self.same_but_observations(g0),
                    self.spec_pending() == g0.spec_pending(),
                    self.player_observations.spec_trackers().len() == g0.spec_trackers().len(),
                    forall|q: int| 0 <= q < g0.spec_trackers().len() && q != player ==> #[trigger] self.spec_trackers()[q]
                        == g0.spec_trackers()[q],
                    o0 == g0.spec_trackers()[player as int],
                    observations_recorded(g0.spec_map(), g0.spec_turn(), g0.spec_action_count(), o0, self.spec_trackers()[player as int], observations@),
                    forall|i2: int| 0 <= i2 < cs.len() ==> observer_covered(observations@, g0.spec_wrapping(), g0.spec_map().spec_dims(), #[trigger] cs[i2].loc, 3),
                    forall|i2: int| 0 <= i2 < i ==> observer_covered(observations@, g0.spec_wrapping(), g0.spec_map().spec_dims(), (#[trigger] us[i2]).loc, us[i2].spec_sight_distance()),
                decreases units@.len() - i,
            {
                let ghost before = observations@;
                let ghost t1 = self.spec_trackers()[player as int];
                proof {
                    assert(us[i as int] == *units@[i as int]);
                }
                let mut r = match self.player_observations.tracker_mut(player) {
                    Some(t) => units[i].observe(self.map.tiles(), self.turn, self.action_count, self.wrapping, t),
                    None => Vec::new(),
                };
                let ghost rr = r@;
                observations.append(&mut r);
                proof {
                    let u = *units@[i as int];
                    assert forall|o: Vec2d| #[trigger] visible_offsets(u.spec_sight_distance() as int).contains(o) implies (g0.spec_wrapping().spec_wrapped_add(g0.spec_map().spec_dims(), u.loc, o) matches Some(l) ==> covers(rr, l)) by {
                        assert(u.spec_location() == u.loc);
                    }
                    lemma_recorded_append(g0.spec_map(), g0.spec_turn(), g0.spec_action_count(), o0, t1, self.spec_trackers()[player as int], before, rr);
                    assert(observations@ == before + rr);
                    assert forall|i2: int| 0 <= i2 < cs.len() implies observer_covered(observations@, g0.spec_wrapping(), g0.spec_map().spec_dims(), #[trigger] cs[i2].loc, 3) by {
                        lemma_covered_append(before, rr, g0.spec_wrapping(), g0.spec_map().spec_dims(), cs[i2].loc, 3);
                    }
                    assert forall|i2: int| 0 <= i2 < i + 1 implies observer_covered(observations@, g0.spec_wrapping(), g0.spec_map().spec_dims(), (#[trigger] us[i2]).loc, us[i2].spec_sight_distance()) by {
                        if i2 < i {
                            lemma_covered_append(before, rr, g0.spec_wrapping(), g0.spec_map().spec_dims(), us[i2].loc, us[i2].spec_sight_distance());
                        } else {
                            assert forall|o: Vec2d| #[trigger] visible_offsets(us[i2].spec_sight_distance() as int).contains(o) implies (g0.spec_wrapping().spec_wrapped_add(g0.spec_map().spec_dims(), us[i2].loc, o) matches Some(l) ==> covers(observations@, l)) by {
                                if let Some(l) = g0.spec_wrapping().spec_wrapped_add(g0.spec_map().spec_dims(), us[i2].loc, o) {
                                    let k = choose|k: int| 0 <= k < rr.len() && (#[trigger] rr[k]).loc == l;
                                    assert(observations@[before.len() + k] == rr[k]);
                                }
                            }
                        }
                    }
                }
                i = i + 1;
            }
        } else {
            let locs = self.map.iter_locs();
            let mut k: usize = 0;
            while k < locs.len()
                invariant
                    k <= locs@.len(),
                    locs@.len() == g0.spec_map().spec_dims().spec_area(),
                    forall|k2: int| 0 <= k2 < locs@.len() ==> #[trigger] locs@[k2] == g0.spec_map().spec_dims().spec_loc(k2),
                    player < g0.spec_num_players(),
                    g0.wf(),
                    self.same_but_observations(g0),
                    self.spec_pending() == g0.spec_pending(),
                    self.player_observations.spec_trackers().len() == g0.spec_trackers().len(),
                    forall|q: int| 0 <= q < g0.spec_trackers().len() && q != player ==> #[trigger] self.spec_trackers()[q]
                        == g0.spec_trackers()[q],
                    o0 == g0.spec_trackers()[player as int],
                    self.spec_trackers()[player as int].wf(),
                    self.spec_trackers()[player as int].spec_dims() == g0.spec_map().spec_dims(),
                    observations_recorded(g0.spec_map(), g0.spec_turn(), g0.spec_action_count(), o0, self.spec_trackers()[player as int], observations@),
                    observations@.len() == k,
                    forall|k2: int| 0 <= k2 < k ==> #[trigger] observations@[k2].loc == g0.spec_map().spec_dims().spec_loc(k2),
                decreases locs@.len() - k,
            {
                let loc = locs[k];
                proof {
                    crate::util::lemma_loc_of_index(g0.spec_map().spec_dims(), k as int);
                    self.map.lemma_tile_wf(loc);
                }
                let ghost before = observations@;
                let ghost t1 = self.spec_trackers()[player as int];
                let lo = match self.player_observations.tracker_mut(player) {
                    Some(t) => t.track_observation(loc, self.map.tile(loc).unwrap(), self.turn, self.action_count),
                    None => LocatedObs::new(loc, Obs::Unobserved, Obs::Unobserved),
                };
                observations.push(lo);
                proof {
                    let t2 = self.spec_trackers()[player as int];
                    lemma_single_recorded(g0.spec_map(), g0.spec_turn(), g0.spec_action_count(), t1, t2, lo);
                    lemma_recorded_append(g0.spec_map(), g0.spec_turn(), g0.spec_action_count(), o0, t1, t2, before, seq![lo]);
                    assert(observations@ =~= before + seq![lo]);
                }
                k = k + 1;
            }
        }
        observations
    }

    /// Restores a turn's worth of moves to the units of the player holding the secret, and lets everyone who can see
    /// where they stand observe them again, each location once. An error if it is not that player's turn.
    fn refresh_moves_remaining(&mut self, player_secret: PlayerSecret) -> (r: Result<(), GameError>)
        requires
            old(self).wf(),
        ensures
            final(self).wf(),
            old(self).spec_validate_turn(player_secret) matches Err(e) ==> r == Err::<(), GameError>(e) && *final(self) == *old(self),
            old(self).spec_validate_turn(player_secret) matches Ok(p) ==> {
                &&& r == Ok::<(), GameError>(())
                &&& final(self).spec_map().same_frame(old(self).spec_map())
                &&& final(self).spec_map().spec_tiles().len() == old(self).spec_map().spec_tiles().len()
                &&& forall|j: int| 0 <= j < old(self).spec_map().spec_tiles().len() ==> tile_refreshed_for(
                    p,
                    #[trigger] old(self).spec_map().spec_tiles()[j],
                    final(self).spec_map().spec_tiles()[j],
                )
                &&& final(self).same_but_observations_and_map(*old(self))
                &&& final(self).observed_all(*old(self), distinct_locs(final(self).spec_player_units(p)))
            },
    {
        let player = match self.validate_is_player_turn(player_secret) {
            Ok(p) => p,
            Err(e) => {
                return Err(e);
            },
        };
        self.map.refresh_player_unit_moves_remaining(player);
        let units = self.map.player_units(player);
        let locs = locs_of_units(&units);
        let ghost g1 = *self;
        proof {
            self.map.lemma_units_on_map();
            let us = deref_units(units@);
            lemma_distinct_locs_in(us);
            assert forall|k: int| 0 <= k < locs@.len() implies self.map.spec_dims().spec_contains(#[trigger] locs@[k]) by {
                let j = choose|j: int| 0 <= j < us.len() && us[j].loc == locs@[k];
                let all = spec_all_units(self.map.spec_tiles());
                assert(us.contains(us[j]));
                all.lemma_filter_contains_rev(unit_of_player(player), us[j]);
                let m = choose|m: int| 0 <= m < all.len() && all[m] == us[j];
                assert(self.map.spec_dims().spec_contains(all[m].loc));
            }
            Game::lemma_observed_all_none(g1);
            assert(locs@.take(0) =~= Seq::<Location>::empty());
        }
        let mut i: usize = 0;
        while i < locs.len()
            invariant
                i <= locs@.len(),
                g1.wf(),
                self.wf(),
                self.same_but_observations(g1),
                self.observed_all(g1, locs@.take(i as int)),
                forall|k: int| 0 <= k < locs@.len() ==> g1.spec_map().spec_dims().spec_contains(#[trigger] locs@[k]),
            decreases locs@.len() - i,
        {
            let ghost gi = *self;
            match self.observe(locs[i]) {
                Ok(lo) => {
                    proof {
                        Game::lemma_observed_all_step(g1, gi, *self, locs@, i as int, lo.obs);
                    }
                },
                Err(_) => {},
            }
            i = i + 1;
        }
        proof {
            assert(locs@.take(locs@.len() as int) =~= locs@);
            assert(g1.spec_trackers() == old(self).spec_trackers());
            assert(g1.spec_pending() == old(self).spec_pending());
            Game::lemma_observed_all_transfer(*self, g1, *old(self), locs@);
        }
        Ok(())
    }

    /// What beginning the turn of the player holding the secret leads to: the game `after` and the result `r`, as `begin_turn` states them.
    pub open spec fn begin_turn_outcome(self, after: Game, player_secret: PlayerSecret, clear_after_unit_production: bool, r: Result<TurnStart, GameError>) -> bool {
        &&& self.spec_validate_phase(player_secret, TurnPhase::Pre) matches Err(e) ==> r == Err::<TurnStart, GameError>(e)
            && after == self
        &&& self.spec_validate_phase(player_secret, TurnPhase::Pre) matches Ok(p) ==> (r matches Ok(ts)
            && after.began_turn(self, p, clear_after_unit_production, ts))
        &&& self.spec_validate_phase(player_secret, TurnPhase::Pre) is Ok ==> after.spec_turn() == self.spec_turn()
    }

    /// Runs the first phase of the turn of the player holding the secret: its cities produce units (and, when
    /// `clear_after_unit_production` is set, the cities that produced one have their production cleared), its units
    /// get a turn's worth of moves, and its cities and units observe what they see; the turn's main phase begins.
    /// An error if it is not that player's turn, or the turn has begun already.
    ///
    /// The player's units must not be following standing orders other than to sentry: carrying such orders out is
    /// not part of this library.
    pub fn begin_turn(&mut self, player_secret: PlayerSecret, clear_after_unit_production: bool) -> (r: Result<
        TurnStart,
        GameError,
    >)
        requires
            old(self).wf(),
            old(self).spec_validate_phase(player_secret, TurnPhase::Pre) matches Ok(p) ==> old(self).spec_can_begin(
                p,
                clear_after_unit_production,
            ),
        ensures
            final(self).wf(),
            old(self).begin_turn_outcome(*final(self), player_secret, clear_after_unit_production, r),
    {
        let player = match self.validate_is_player_turn_pre_phase(player_secret) {
            Ok(p) => p,
            Err(e) => {
                return Err(e);
            },
        };
        proof {
            self.lemma_secret_index(player_secret);
        }
        let ghost g0 = *self;
        self.turn_phase = TurnPhase::Main;
        proof {
            assert(self.spec_pending() =~= g0.spec_pending());
        }
        let production_outcomes = match self.produce_units(player_secret) {
            Ok(o) => o,
            Err(e) => {
                return Err(e);
            },
        };
        let ghost g1 = *self;
        let ghost cs = completing_cities(g0.spec_map().spec_tiles(), player);
        proof {
            g0.spec_map().lemma_cities_on_map();
            assert forall|k2: int| 0 <= k2 < production_outcomes@.len() implies (#[trigger] production_outcomes@[k2] is UnitProduced
                ==> (g1.spec_map().spec_city_by_loc(production_outcomes@[k2]->UnitProduced_city.loc) matches Some(c)
                && c.alignment == (Alignment::Belligerent { player }))) by {
                let all = spec_cities(g0.spec_map().spec_tiles());
                let inc = all.map_values(|c: City| city_incremented(player, c));
                assert(cs.contains(cs[k2]));
                inc.lemma_filter_pred(completes_production(player), k2);
                inc.lemma_filter_contains_rev(completes_production(player), cs[k2]);
                let m = choose|m: int| 0 <= m < inc.len() && inc[m] == cs[k2];
                assert(inc[m] == city_incremented(player, all[m]));
                assert(g0.spec_map().spec_dims().spec_contains(all[m].loc));
            }
        }
        let ghost dims = g1.spec_map().spec_dims();
        let ghost n = dims.spec_area();
        proof {
            g1.map.lemma_tiles_len();
            if clear_after_unit_production {
                assert(g0.spec_can_begin(player, clear_after_unit_production));
                assert forall|k2: int| 0 <= k2 < production_outcomes@.len() implies (#[trigger] production_outcomes@[k2] is UnitProduced
                    ==> (g1.spec_sees_own_city(player, production_outcomes@[k2]->UnitProduced_city.loc)))
                    by {
                    if production_outcomes@[k2] is UnitProduced {
                        let m0 = g0.spec_map();
                        assert(production_outcome_ok(
                            production_outcomes@[k2],
                            cs[k2],
                            m0.spec_tile(cs[k2].loc),
                            g1.spec_map().spec_tile(cs[k2].loc),
                            UnitID { id: (m0.spec_next_unit_id().id + produced_count(m0, cs.take(k2))) as u64 },
                            unit_name((g0.spec_units_named() + k2) as u64),
                        ));
                        assert(production_outcomes@[k2]->UnitProduced_city.loc == cs[k2].loc);
                        assert(g0.spec_sees_own_city(player, cs[k2].loc));
                        assert(g1.spec_trackers() == g0.spec_trackers());
                    }
                }
            }
            assert(production_outcomes@.take(0) =~= Seq::<UnitProductionOutcome>::empty());
        }
        if clear_after_unit_production {
            let mut k: usize = 0;
            while k < production_outcomes.len()
                invariant
                    self.wf(),
                    g1.wf(),
                    player < self.spec_num_players(),
                    g1.spec_player_with_secret(player_secret) == Ok::<PlayerNum, GameError>(player),
                    self.spec_turn() == g1.spec_turn(),
                    self.spec_phase() == g1.spec_phase(),
                    self.same_but_observations_and_map(g1),
                    dims == g1.spec_map().spec_dims(),
                    n == dims.spec_area(),
                    g1.spec_map().spec_tiles().len() == n,
                    self.spec_map().spec_tiles().len() == n,
                    self.spec_map().spec_dims() == dims,
                    self.spec_map().spec_next_unit_id() == g1.spec_map().spec_next_unit_id(),
                    k <= production_outcomes@.len(),
                    forall|j: int| 0 <= j < n ==> #[trigger] self.spec_map().spec_tiles()[j].city == (if produced_at(
                        production_outcomes@.take(k as int),
                        dims,
                        j,
                    ) {
                        production_cleared_city(g1.spec_map().spec_tiles()[j].city)
                    } else {
                        g1.spec_map().spec_tiles()[j].city
                    }),
                    forall|l: Location| (g1.spec_sees_own_city(player, l)) ==> (
                        #[trigger] self.spec_sees_own_city(player, l)),
                    forall|k2: int| 0 <= k2 < production_outcomes@.len() ==> (#[trigger] production_outcomes@[k2] is UnitProduced
                        ==> (g1.spec_map().spec_city_by_loc(production_outcomes@[k2]->UnitProduced_city.loc) matches Some(c)
                        && c.alignment == (Alignment::Belligerent { player }))),
                    forall|k2: int| 0 <= k2 < production_outcomes@.len() ==> (#[trigger] production_outcomes@[k2] is UnitProduced
                        ==> (g1.spec_sees_own_city(player, production_outcomes@[k2]->UnitProduced_city.loc))),
                decreases production_outcomes@.len() - k,
            {
                let ghost os1 = production_outcomes@.take(k as int + 1);
                proof {
                    assert(os1.drop_last() =~= production_outcomes@.take(k as int));
                    assert(os1.last() == production_outcomes@[k as int]);
                }
                match &production_outcomes[k] {
                    UnitProductionOutcome::UnitProduced { city, .. } => {
                        let loc = city.loc;
                        let ghost before = self.spec_map();
                        let ghost bg = *self;
                        let ghost i = dims.spec_index(loc);
                        proof {
                            assert(production_outcomes@[k as int] is UnitProduced);
                            assert(g1.spec_map().spec_city_by_loc(loc) is Some);
                            crate::util::lemma_index_in_bounds(dims, loc);
                            assert(self.spec_map().spec_tiles()[i].city is Some);
                            assert(self.spec_map().spec_city_by_loc(loc) is Some);
                            assert(self.spec_sees_own_city(player, loc));
                        }
                        let res = self.clear_production(player_secret, loc, false);
                        proof {
                            assert(bg.spec_player_with_secret(player_secret) == Ok::<PlayerNum, GameError>(player));
                            assert(res is Ok);
                            let c = before.spec_city_by_loc(loc)->0;
                            let t2 = Tile { city: Some(City { production: None, ignore_cleared_production: false, ..c }), ..before.spec_tile(loc) };
                            assert(self.spec_map().spec_tiles() == before.spec_tiles().update(i, t2));
                            assert forall|j: int| 0 <= j < n implies #[trigger] self.spec_map().spec_tiles()[j].city == (if produced_at(
                                os1,
                                dims,
                                j,
                            ) {
                                production_cleared_city(g1.spec_map().spec_tiles()[j].city)
                            } else {
                                g1.spec_map().spec_tiles()[j].city
                            }) by {
                                if j != i {
                                    assert(self.spec_map().spec_tiles()[j] == before.spec_tiles()[j]);
                                }
                            }
                            assert forall|l: Location| (g1.spec_sees_own_city(player, l)) implies (
                                #[trigger] self.spec_sees_own_city(player, l)) by {
                                assert(bg.spec_sees_own_city(player, l));
                                let o = bg.spec_trackers()[player as int];
                                let o2 = self.spec_trackers()[player as int];
                                if o2 != o && dims.spec_contains(l) {
                                    crate::util::lemma_index_in_bounds(dims, l);
                                    if l != loc {
                                        assert(o2.spec_observations() == o.spec_observations().update(i, o2.spec_obs(loc)));
                                        assert(o2.spec_obs(l) == o.spec_obs(l));
                                    }
                                }
                            }
                        }
                    },
                    UnitProductionOutcome::UnitAlreadyPresent { .. } => {},
                }
                k = k + 1;
            }
            proof {
                assert(production_outcomes@.take(production_outcomes@.len() as int) =~= production_outcomes@);
            }
        }
        let ghost g2 = *self;
        let _ = self.refresh_moves_remaining(player_secret);
        let ghost g3 = *self;
        let observations = self.update_player_observations(player);
        proof {
            let m0 = g0.spec_map();
            assert forall|k: int| 0 <= k < cs.len() implies outcome_matches(
                #[trigger] production_outcomes@[k],
                cs[k],
                m0.spec_tile(cs[k].loc),
                UnitID { id: (m0.spec_next_unit_id().id + produced_count(m0, cs.take(k))) as u64 },
                unit_name((g0.spec_units_named() + k) as u64),
            ) by {
                lemma_outcome_matches(
                    production_outcomes@[k],
                    cs[k],
                    m0.spec_tile(cs[k].loc),
                    g1.spec_map().spec_tile(cs[k].loc),
                    UnitID { id: (m0.spec_next_unit_id().id + produced_count(m0, cs.take(k))) as u64 },
                    unit_name((g0.spec_units_named() + k) as u64),
                );
            }
            assert forall|j: int| 0 <= j < self.spec_map().spec_tiles().len() implies units_refreshed(player, #[trigger] self.spec_map().spec_tiles()[j]) by {
                lemma_refreshed_units(player, g2.spec_map().spec_tiles()[j], g3.spec_map().spec_tiles()[j]);
            }
            lemma_cities_after_production(m0, g1.spec_map(), production_outcomes@, player, g0.spec_units_named() as int);
            m0.lemma_tiles_len();
            assert forall|j: int| 0 <= j < m0.spec_tiles().len() implies (#[trigger] self.spec_map().spec_tiles()[j]).city
                == city_at_turn_start(player, clear_after_unit_production, m0.spec_tiles()[j]) by {
                assert(tile_refreshed_for(player, g2.spec_map().spec_tiles()[j], g3.spec_map().spec_tiles()[j]));
                assert(g1.spec_map().spec_tiles()[j].city == city_after_production(player, m0.spec_tiles()[j]));
                if clear_after_unit_production {
                    assert(g2.spec_map().spec_tiles()[j].city == (if produced_at(production_outcomes@, dims, j) {
                        production_cleared_city(g1.spec_map().spec_tiles()[j].city)
                    } else {
                        g1.spec_map().spec_tiles()[j].city
                    }));
                }
            }
        }
        Ok(TurnStart { turn: self.turn, current_player: self.current_player, production_outcomes, observations })
    }

    /// Ends the turn of the player holding `player_secret` without checking that it is done, then begins the turn
    /// of the player holding `next_player_secret`. An error if the first turn cannot end (and nothing changes), or
    /// the next one cannot begin (the first has ended all the same).
    pub fn force_end_then_begin_turn(
        &mut self,
        player_secret: PlayerSecret,
        next_player_secret: PlayerSecret,
        clear_after_unit_production: bool,
    ) -> (r: Result<TurnStart, GameError>)
        requires
            old(self).wf(),
            old(self).spec_turn() < u64::MAX,
            old(self).spec_player_with_secret(next_player_secret) matches Ok(q) ==> old(self).spec_can_begin(
                q,
                clear_after_unit_production,
            ),
        ensures
            final(self).wf(),
            old(self).spec_validate_phase(player_secret, TurnPhase::Main) matches Err(e) ==> r == Err::<TurnStart, GameError>(e)
                && *final(self) == *old(self),
            old(self).spec_validate_phase(player_secret, TurnPhase::Main) matches Ok(p) ==> {
                let next = ((p + 1) % (old(self).spec_num_players() as int)) as PlayerNum;
                let next_turn = if next == 0 {
                    old(self).spec_turn() + 1
                } else {
                    old(self).spec_turn() as int
                };
                &&& final(self).spec_turn() == next_turn
                &&& final(self).spec_current_player() == next
                &&& if old(self).spec_player_with_secret(next_player_secret) == Ok::<PlayerNum, GameError>(next) {
                    r matches Ok(ts) && exists|mid: Game| turn_ended(mid, *old(self), p) && #[trigger] final(self).began_turn(mid, next, clear_after_unit_production, ts)
                } else {
                    &&& r == Err::<TurnStart, GameError>(match old(self).spec_player_with_secret(next_player_secret) {
                        Ok(q) => GameError::NotPlayersTurn { player: q },
                        Err(e) => e,
                    })
                    &&& final(self).spec_phase() == TurnPhase::Pre
                }
            },
    {
        let ghost g0 = *self;
        if let Err(e) = self.force_end_turn(player_secret) {
            return Err(e);
        }
        proof {
            let p = g0.spec_validate_phase(player_secret, TurnPhase::Main)->Ok_0;
            g0.lemma_secret_index(player_secret);
            assert(self.spec_player_with_secret(next_player_secret) == g0.spec_player_with_secret(next_player_secret));
            if let Ok(q) = self.spec_player_with_secret(next_player_secret) {
                g0.lemma_secret_index(next_player_secret);
                let t0 = g0.spec_map().spec_tiles();
                let t1 = self.spec_map().spec_tiles();
                assert forall|j: int| 0 <= j < t1.len() implies no_standing_orders(q, #[trigger] t1[j]) by {
                    assert(tile_refueled_for(p, t0[j], t1[j]));
                    assert(no_standing_orders(q, t0[j]));
                    if t0[j].unit is Some && t0[j].unit->0.alignment == (Alignment::Belligerent { player: p }) {
                        let u = t0[j].unit->0;
                        let u2 = t1[j].unit->0;
                        assert(u2@.orders == u@.orders);
                        if q == p {
                            assert forall|i: int| 0 <= i < u2.spec_carried().len() implies (#[trigger] u2.spec_carried()[i]).orders is None
                                || u2.spec_carried()[i].orders == Some(Orders::Sentry) by {
                                assert(u2.spec_carried()[i].orders == u.spec_carried()[i].orders);
                            }
                        }
                    }
                }
                assert forall|j: int| 0 <= j < t0.len() implies (#[trigger] t1[j]).city == t0[j].city by {
                    assert(tile_refueled_for(p, t0[j], t1[j]));
                }
                lemma_same_cities(t0, t1);
                assert forall|loc: Location| self.spec_player_tile(q, loc) == g0.spec_player_tile(q, loc) by {
                    if q == p && g0.spec_map().spec_dims().spec_contains(loc) {
                        let o = g0.spec_trackers()[p as int];
                        let o2 = self.spec_trackers()[p as int];
                        assert(g0.player_observations.spec_trackers()[p as int].wf());
                        crate::util::lemma_index_in_bounds(o.spec_dims(), loc);
                        assert(o2.spec_observations()[o.spec_dims().spec_index(loc)] == archived(o.spec_observations()[o.spec_dims().spec_index(loc)]));
                    }
                }
                assert(self.spec_can_begin(q, clear_after_unit_production));
            }
        }
        let ghost mid = *self;
        let r = self.begin_turn(next_player_secret, clear_after_unit_production);
        proof {
            if r is Ok {
                if let Ok(q) = mid.spec_validate_phase(next_player_secret, TurnPhase::Pre) {
                    let p = g0.spec_validate_phase(player_secret, TurnPhase::Main)->Ok_0;
                    assert(turn_ended(mid, g0, p));
                    assert(self.began_turn(mid, q, clear_after_unit_production, r->Ok_0));
                }
            }
        }
        r
    }

    /// Ends the turn of the player holding `player_secret`, if its part of the turn is done, then begins the turn of
    /// the player holding `next_player_secret`. An error if it is not that player's turn, if production settings or
    /// orders are still awaited, or as `force_end_then_begin_turn` says.
    pub fn end_then_begin_turn(
        &mut self,
        player_secret: PlayerSecret,
        next_player_secret: PlayerSecret,
        clear_after_unit_production: bool,
    ) -> (r: Result<TurnStart, GameError>)
        requires
            old(self).wf(),
            old(self).spec_turn() < u64::MAX,
            old(self).spec_player_with_secret(next_player_secret) matches Ok(q) ==> old(self).spec_can_begin(
                q,
                clear_after_unit_production,
            ),
        ensures
            final(self).wf(),
            match old(self).spec_validate_turn(player_secret) {
                Err(e) => r == Err::<TurnStart, GameError>(e) && *final(self) == *old(self),
                Ok(p) => if old(self).spec_turn_is_done(p, old(self).spec_turn()) == Ok::<bool, GameError>(true) {
                    let next = ((p + 1) % (old(self).spec_num_players() as int)) as PlayerNum;
                    &&& final(self).spec_current_player() == next
                    &&& final(self).spec_turn() == if next == 0 {
                        old(self).spec_turn() + 1
                    } else {
                        old(self).spec_turn() as int
                    }
                    &&& if old(self).spec_player_with_secret(next_player_secret) == Ok::<PlayerNum, GameError>(next) {
                        r matches Ok(ts) && exists|mid: Game| turn_ended(mid, *old(self), p) && #[trigger] final(self).began_turn(mid, next, clear_after_unit_production, ts)
                    } else {
                        r is Err && final(self).spec_phase() == TurnPhase::Pre
                    }
                } else {
                    r == Err::<TurnStart, GameError>(GameError::TurnEndRequirementsNotMet { player: p }) && *final(self) == *old(self)
                },
            },
    {
        if let Err(e) = self.validate_is_player_turn(player_secret) {
            return Err(e);
        }
        proof {
            self.lemma_secret_index(player_secret);
        }
        if self.current_turn_is_done() {
            self.force_end_then_begin_turn(player_secret, next_player_secret, clear_after_unit_production)
        } else {
            Err(GameError::TurnEndRequirementsNotMet { player: self.current_player })
        }
    }

    /// Count an action taken by the player.
    fn action_taken(&mut self, player: PlayerNum)
        requires
            old(self).wf(),
            player < old(self).spec_num_players(),
            old(self).spec_action_count() < u64::MAX,
        ensures
            final(self).wf(),
            final(self).spec_action_count() == old(self).spec_action_count() + 1,
            final(self).spec_action_counts() == old(self).spec_action_counts().update(
                player as int,
                (old(self).spec_action_counts()[player as int] + 1) as u64,
            ),
            final(self).spec_map() == old(self).spec_map(),
            final(self).spec_trackers() == old(self).spec_trackers(),
            final(self).spec_pending() == old(self).spec_pending(),
            final(self).spec_turn() == old(self).spec_turn(),
            final(self).spec_phase() == old(self).spec_phase(),
            final(self).spec_num_players() == old(self).spec_num_players(),
            final(self).spec_secrets() == old(self).spec_secrets(),
            final(self).spec_current_player() == old(self).spec_current_player(),
            final(self).spec_wrapping() == old(self).spec_wrapping(),
            final(self).spec_units_named() == old(self).spec_units_named(),
            final(self).spec_fog_of_war() == old(self).spec_fog_of_war(),
            final(self).spec_defeated_hitpoints() == old(self).spec_defeated_hitpoints(),
    {
        self.action_count = self.action_count + 1;
        let n = self.action_counts[player];
        self.action_counts.set(player, n + 1);
        proof {
            assert(self.spec_pending() =~= old(self).spec_pending());
        }
    }

    /// Has the current player's turn begun?
    pub fn current_turn_begun(&self) -> (b: bool)
        ensures
            b == (self.spec_phase() == TurnPhase::Main),
    {
        self.turn_phase == TurnPhase::Main
    }

    pub fn turn(&self) -> (t: TurnNum)
        ensures
            t == self.spec_turn(),
    {
        self.turn
    }

    pub fn turn_phase(&self) -> (p: TurnPhase)
        ensures
            p == self.spec_phase(),
    {
        self.turn_phase
    }

    pub fn current_player(&self) -> (p: PlayerNum)
        ensures
            p == self.spec_current_player(),
    {
        self.current_player
    }

    /// The logical dimensions of the game map
    pub fn dims(&self) -> (d: Dims)
        ensures
            d == self.spec_map().spec_dims(),
    {
        self.map.dims()
    }

    pub fn wrapping(&self) -> (w: Wrap2d)
        ensures
            w == self.spec_wrapping(),
    {
        self.wrapping
    }
}

} // verus!
