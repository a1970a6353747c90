//! What the indices of the map's data hold, and lemmas about them.
use vstd::prelude::*;

use crate::game::alignment::Alignment;
use crate::game::tile::Tile;
use crate::game::city::CityID;
use crate::game::unit::{Unit, UnitID, UnitType};
use crate::util::{Dims, Location, lemma_index_in_bounds, lemma_loc_of_index};

verus! {

/// The units carried by the unit on a tile, if any.
pub open spec fn tile_carried(t: Tile) -> Seq<Unit> {
    match t.unit {
        Some(u) => u.spec_carried(),
        None => Seq::empty(),
    }
}

/// Is the unit with the given ID on the tile, either at top level or carried?
pub open spec fn tile_has_unit(t: Tile, id: UnitID) -> bool {
    t.unit matches Some(u) && (u.id == id || exists|k: int|
        0 <= k < u.spec_carried().len() && (#[trigger] u.spec_carried()[k]).id == id)
}

/// The unit with the given ID on the tile (meaningful when `tile_has_unit`).
pub open spec fn tile_unit(t: Tile, id: UnitID) -> Unit {
    let u = t.unit->0;
    if u.id == id {
        u
    } else {
        u.spec_carried()[choose|k: int| 0 <= k < u.spec_carried().len() && (#[trigger] u.spec_carried()[k]).id == id]
    }
}

/// The tiles form a grid of the given dimensions, each holding what belongs to it.
pub open spec fn grid_ok(g: Seq<Tile>, dims: Dims) -> bool {
    &&& g.len() == dims.spec_area()
    &&& forall|i: int| 0 <= i < g.len() ==> #[trigger] tile_ok(g[i], dims.spec_loc(i))
}

/// A tile at the given location, with a well-formed unit and a city there.
pub open spec fn tile_ok(t: Tile, loc: Location) -> bool {
    &&& t.loc == loc
    &&& t.unit matches Some(u) ==> u.wf() && u.loc == loc
    &&& t.city matches Some(c) ==> c.loc == loc
}

/// What the indices record of a unit: its ID, its side and its type.
pub struct UnitKey {
    pub id: UnitID,
    pub alignment: Alignment,
    pub type_: UnitType,
}

/// What the indices record of a city: its ID and its side.
pub struct CityKey {
    pub id: CityID,
    pub alignment: Alignment,
}

/// What the indices record of a tile.
pub struct TileShape {
    pub loc: Location,
    pub top: Option<UnitKey>,
    pub carried: Seq<UnitKey>,
    pub city: Option<CityKey>,
}

pub open spec fn unit_key(u: Unit) -> UnitKey {
    UnitKey { id: u.id, alignment: u.alignment, type_: u.type_ }
}

pub open spec fn unit_keys(s: Seq<Unit>) -> Seq<UnitKey> {
    s.map_values(|u: Unit| unit_key(u))
}

pub open spec fn shape(t: Tile) -> TileShape {
    TileShape {
        loc: t.loc,
        top: match t.unit {
            Some(u) => Some(unit_key(u)),
            None => None,
        },
        carried: unit_keys(tile_carried(t)),
        city: match t.city {
            Some(c) => Some(CityKey { id: c.id, alignment: c.alignment }),
            None => None,
        },
    }
}

pub open spec fn shapes(g: Seq<Tile>) -> Seq<TileShape> {
    g.map_values(|t: Tile| shape(t))
}

/// Does the tile shape hold the unit with the given ID, at top level or carried?
pub open spec fn shape_has(sh: TileShape, id: u64) -> bool {
    ||| (sh.top is Some && sh.top->0.id.id == id)
    ||| exists|j: int| 0 <= j < sh.carried.len() && (#[trigger] sh.carried[j]).id.id == id
}

/// The tile shapes sit at their grid locations.
pub open spec fn shapes_located(s: Seq<TileShape>, dims: Dims) -> bool {
    &&& s.len() == dims.spec_area()
    &&& forall|i: int| 0 <= i < s.len() ==> (#[trigger] s[i]).loc == dims.spec_loc(i)
    &&& forall|i: int| 0 <= i < s.len() && (#[trigger] s[i]).top is None ==> s[i].carried.len() == 0
}

/// The unit indices agree with the tiles: every unit's location is recorded, every carried unit's carrier is
/// recorded, and nothing else is.
pub open spec fn units_indexed(locs: Map<u64, Location>, carriers: Map<u64, u64>, s: Seq<TileShape>, dims: Dims) -> bool {
    &&& forall|i: int| 0 <= i < s.len() && (#[trigger] s[i]).top is Some ==> {
        let k = s[i].top->0;
        &&& locs.contains_key(k.id.id)
        &&& locs[k.id.id] == s[i].loc
        &&& !carriers.contains_key(k.id.id)
    }
    &&& forall|i: int, j: int| 0 <= i < s.len() && 0 <= j < s[i].carried.len() ==> {
        let c = #[trigger] s[i].carried[j];
        &&& locs.contains_key(c.id.id)
        &&& locs[c.id.id] == s[i].loc
        &&& carriers.contains_key(c.id.id)
        &&& s[i].top is Some
        &&& carriers[c.id.id] == s[i].top->0.id.id
    }
    &&& forall|id: u64| #[trigger] locs.contains_key(id) ==> {
        &&& dims.spec_contains(locs[id])
        &&& shape_has(s[dims.spec_index(locs[id])], id)
    }
    &&& forall|id: u64| #[trigger] carriers.contains_key(id) ==> locs.contains_key(id)
    &&& forall|i: int, j1: int, j2: int|
        0 <= i < s.len() && 0 <= j1 < j2 < s[i].carried.len() ==> (#[trigger] s[i].carried[j1]).id
            != (#[trigger] s[i].carried[j2]).id
}

/// The city index agrees with the tiles.
pub open spec fn cities_indexed(locs: Map<u64, Location>, s: Seq<TileShape>, dims: Dims) -> bool {
    &&& forall|i: int| 0 <= i < s.len() && (#[trigger] s[i]).city is Some ==> {
        let c = s[i].city->0;
        &&& locs.contains_key(c.id.id)
        &&& locs[c.id.id] == s[i].loc
    }
    &&& forall|id: u64| #[trigger] locs.contains_key(id) ==> {
        &&& dims.spec_contains(locs[id])
        &&& s[dims.spec_index(locs[id])].city is Some
        &&& s[dims.spec_index(locs[id])].city->0.id.id == id
    }
}

/// Every ID in use is below the next one to be handed out.
pub open spec fn ids_below(s: Seq<TileShape>, next_unit: u64, next_city: u64) -> bool {
    &&& forall|i: int| 0 <= i < s.len() && (#[trigger] s[i]).top is Some ==> s[i].top->0.id.id < next_unit
    &&& forall|i: int, j: int| 0 <= i < s.len() && 0 <= j < s[i].carried.len() ==> (#[trigger] s[i].carried[j]).id.id
        < next_unit
    &&& forall|i: int| 0 <= i < s.len() && (#[trigger] s[i]).city is Some ==> s[i].city->0.id.id < next_city
}

/// The number of unit keys in the sequence with the given alignment and type.
pub open spec fn keys_count(s: Seq<UnitKey>, a: Alignment, t: UnitType) -> nat
    decreases s.len(),
{
    if s.len() == 0 {
        0
    } else {
        keys_count(s.drop_last(), a, t) + key_match(s.last(), a, t)
    }
}

pub open spec fn key_match(k: UnitKey, a: Alignment, t: UnitType) -> nat {
    if k.alignment == a && k.type_ == t {
        1
    } else {
        0
    }
}

/// The number of units on a tile (carried ones included) with the given alignment and type.
pub open spec fn shape_unit_count(sh: TileShape, a: Alignment, t: UnitType) -> nat {
    (if sh.top matches Some(k) && k.alignment == a && k.type_ == t { 1nat } else { 0nat }) + keys_count(sh.carried, a, t)
}

/// The number of cities on a tile with the given alignment.
pub open spec fn shape_city_count(sh: TileShape, a: Alignment) -> nat {
    if sh.city matches Some(c) && c.alignment == a {
        1
    } else {
        0
    }
}

/// The number of units on the map with the given alignment and type.
pub open spec fn grid_unit_count(s: Seq<TileShape>, a: Alignment, t: UnitType) -> nat
    decreases s.len(),
{
    if s.len() == 0 {
        0
    } else {
        grid_unit_count(s.drop_last(), a, t) + shape_unit_count(s.last(), a, t)
    }
}

/// The number of cities on the map with the given alignment.
pub open spec fn grid_city_count(s: Seq<TileShape>, a: Alignment) -> nat
    decreases s.len(),
{
    if s.len() == 0 {
        0
    } else {
        grid_city_count(s.drop_last(), a) + shape_city_count(s.last(), a)
    }
}

/// The city counts hold, for each alignment listed once, the number of its cities; every alignment with a city
/// is listed.
pub open spec fn city_counts_ok(counts: Seq<(Alignment, usize)>, g: Seq<TileShape>) -> bool {
    &&& forall|k: int| 0 <= k < counts.len() ==> #[trigger] counts[k].1 == grid_city_count(g, counts[k].0)
    &&& forall|a: Alignment| #[trigger] grid_city_count(g, a) > 0 ==> exists|k: int|
        0 <= k < counts.len() && (#[trigger] counts[k]).0 == a
    &&& forall|k1: int, k2: int| 0 <= k1 < k2 < counts.len() ==> (#[trigger] counts[k1]).0 != (#[trigger] counts[k2]).0
}

/// The unit counts hold, for each alignment and type listed once, the number of such units; every alignment and
/// type with a unit is listed.
pub open spec fn unit_counts_ok(counts: Seq<(Alignment, UnitType, u64)>, g: Seq<TileShape>) -> bool {
    &&& forall|k: int| 0 <= k < counts.len() ==> #[trigger] counts[k].2 == grid_unit_count(g, counts[k].0, counts[k].1)
    &&& forall|a: Alignment, t: UnitType| #[trigger] grid_unit_count(g, a, t) > 0 ==> exists|k: int|
        0 <= k < counts.len() && (#[trigger] counts[k]).0 == a && counts[k].1 == t
    &&& forall|k1: int, k2: int|
        0 <= k1 < k2 < counts.len() ==> ((#[trigger] counts[k1]).0, counts[k1].1) != ((#[trigger] counts[k2]).0, counts[k2].1)
}

pub proof fn lemma_keys_count_push(s: Seq<UnitKey>, k: UnitKey, a: Alignment, t: UnitType)
    ensures
        keys_count(s.push(k), a, t) == keys_count(s, a, t) + key_match(k, a, t),
{
    assert(s.push(k).drop_last() == s);
}

pub proof fn lemma_keys_count_remove(s: Seq<UnitKey>, j: int, a: Alignment, t: UnitType)
    requires
        0 <= j < s.len(),
    ensures
        keys_count(s.remove(j), a, t) + key_match(s[j], a, t) == keys_count(s, a, t),
    decreases s.len(),
{
    if j == s.len() - 1 {
        assert(s.remove(j) == s.drop_last());
    } else {
        lemma_keys_count_remove(s.drop_last(), j, a, t);
        assert(s.remove(j).drop_last() == s.drop_last().remove(j));
        assert(s.remove(j).last() == s.last());
    }
}

pub proof fn lemma_keys_count_bound(s: Seq<UnitKey>, a: Alignment, t: UnitType)
    ensures
        keys_count(s, a, t) <= s.len(),
    decreases s.len(),
{
    if s.len() > 0 {
        lemma_keys_count_bound(s.drop_last(), a, t);
    }
}

pub proof fn lemma_grid_unit_count_update(s: Seq<TileShape>, i: int, sh: TileShape, a: Alignment, t: UnitType)
    requires
        0 <= i < s.len(),
    ensures
        grid_unit_count(s.update(i, sh), a, t) + shape_unit_count(s[i], a, t) == grid_unit_count(s, a, t)
            + shape_unit_count(sh, a, t),
    decreases s.len(),
{
    if i == s.len() - 1 {
        assert(s.update(i, sh).drop_last() == s.drop_last());
    } else {
        lemma_grid_unit_count_update(s.drop_last(), i, sh, a, t);
        assert(s.update(i, sh).drop_last() == s.drop_last().update(i, sh));
    }
}

pub proof fn lemma_grid_city_count_update(s: Seq<TileShape>, i: int, sh: TileShape, a: Alignment)
    requires
        0 <= i < s.len(),
    ensures
        grid_city_count(s.update(i, sh), a) + shape_city_count(s[i], a) == grid_city_count(s, a)
            + shape_city_count(sh, a),
    decreases s.len(),
{
    if i == s.len() - 1 {
        assert(s.update(i, sh).drop_last() == s.drop_last());
    } else {
        lemma_grid_city_count_update(s.drop_last(), i, sh, a);
        assert(s.update(i, sh).drop_last() == s.drop_last().update(i, sh));
    }
}

pub proof fn lemma_grid_city_count_bound(s: Seq<TileShape>, a: Alignment)
    ensures
        grid_city_count(s, a) <= s.len(),
    decreases s.len(),
{
    if s.len() > 0 {
        lemma_grid_city_count_bound(s.drop_last(), a);
    }
}

/// Each tile holds at most one unit and five carried ones.
pub proof fn lemma_grid_unit_count_bound(s: Seq<TileShape>, a: Alignment, t: UnitType)
    requires
        forall|i: int| 0 <= i < s.len() ==> (#[trigger] s[i]).carried.len() <= 5,
    ensures
        grid_unit_count(s, a, t) <= 6 * s.len(),
    decreases s.len(),
{
    if s.len() > 0 {
        assert forall|i: int| 0 <= i < s.drop_last().len() implies (#[trigger] s.drop_last()[i]).carried.len() <= 5 by {
            assert(s.drop_last()[i] == s[i]);
        }
        lemma_grid_unit_count_bound(s.drop_last(), a, t);
        assert(s.last() == s[s.len() - 1]);
        lemma_keys_count_bound(s.last().carried, a, t);
    }
}

/// Shapes without units or cities count none of either.
pub proof fn lemma_grid_counts_empty(s: Seq<TileShape>, a: Alignment, t: UnitType)
    requires
        forall|i: int| 0 <= i < s.len() ==> (#[trigger] s[i]).top is None && s[i].carried.len() == 0 && s[i].city is None,
    ensures
        grid_unit_count(s, a, t) == 0,
        grid_city_count(s, a) == 0,
    decreases s.len(),
{
    if s.len() > 0 {
        assert forall|i: int| 0 <= i < s.drop_last().len() implies (#[trigger] s.drop_last()[i]).top is None
            && s.drop_last()[i].carried.len() == 0 && s.drop_last()[i].city is None by {
            assert(s.drop_last()[i] == s[i]);
        }
        lemma_grid_counts_empty(s.drop_last(), a, t);
        assert(s.last() == s[s.len() - 1]);
    }
}

pub proof fn lemma_shapes_update(g: Seq<Tile>, i: int, t: Tile)
    requires
        0 <= i < g.len(),
    ensures
        shapes(g.update(i, t)) == shapes(g).update(i, shape(t)),
{
    assert(shapes(g.update(i, t)) =~= shapes(g).update(i, shape(t)));
}

/// Placing a unit (carrying nothing) on an empty tile, with its location recorded.
pub proof fn lemma_place_top(locs: Map<u64, Location>, carriers: Map<u64, u64>, s: Seq<TileShape>, dims: Dims, i: int, k: UnitKey)
    requires
        units_indexed(locs, carriers, s, dims),
        shapes_located(s, dims),
        0 <= i < s.len(),
        s[i].top is None,
        !locs.contains_key(k.id.id),
    ensures
        units_indexed(locs.insert(k.id.id, s[i].loc), carriers, s.update(i, TileShape { top: Some(k), ..s[i] }), dims),
        shapes_located(s.update(i, TileShape { top: Some(k), ..s[i] }), dims),
{
    let s2 = s.update(i, TileShape { top: Some(k), ..s[i] });
    let locs2 = locs.insert(k.id.id, s[i].loc);
    lemma_loc_of_index(dims, i);
    assert forall|id: u64| #[trigger] locs2.contains_key(id) implies dims.spec_contains(locs2[id]) && shape_has(
        s2[dims.spec_index(locs2[id])],
        id,
    ) by {
        if id != k.id.id {
            assert(locs.contains_key(id));
            lemma_index_in_bounds(dims, locs[id]);
            let j = dims.spec_index(locs[id]);
            if j == i {
                assert(shape_has(s[i], id));
                assert(false);
            }
        }
    }
    assert forall|ii: int, j: int| 0 <= ii < s2.len() && 0 <= j < s2[ii].carried.len() implies {
        let c = #[trigger] s2[ii].carried[j];
        &&& locs2.contains_key(c.id.id)
        &&& locs2[c.id.id] == s2[ii].loc
        &&& carriers.contains_key(c.id.id)
        &&& s2[ii].top is Some
        &&& carriers[c.id.id] == s2[ii].top->0.id.id
    } by {
        assert(ii != i);
        assert(s2[ii] == s[ii]);
        let c = s[ii].carried[j];
        assert(locs.contains_key(c.id.id));
    }
    assert forall|ii: int| 0 <= ii < s2.len() && (#[trigger] s2[ii]).top is Some implies {
        let kk = s2[ii].top->0;
        &&& locs2.contains_key(kk.id.id)
        &&& locs2[kk.id.id] == s2[ii].loc
        &&& !carriers.contains_key(kk.id.id)
    } by {
        if ii != i {
            assert(s2[ii] == s[ii]);
            assert(locs.contains_key(s[ii].top->0.id.id));
        }
    }
    assert forall|ii: int, j1: int, j2: int|
        0 <= ii < s2.len() && 0 <= j1 < j2 < s2[ii].carried.len() implies (#[trigger] s2[ii].carried[j1]).id
            != (#[trigger] s2[ii].carried[j2]).id by {
        assert(s2[ii] == s[ii]);
    }
}

/// Taking a unit that carries nothing off its tile, and out of the location index.
pub proof fn lemma_remove_top(locs: Map<u64, Location>, carriers: Map<u64, u64>, s: Seq<TileShape>, dims: Dims, i: int)
    requires
        units_indexed(locs, carriers, s, dims),
        shapes_located(s, dims),
        0 <= i < s.len(),
        s[i].top is Some,
        s[i].carried.len() == 0,
    ensures
        units_indexed(locs.remove(s[i].top->0.id.id), carriers, s.update(i, TileShape { top: None, ..s[i] }), dims),
        shapes_located(s.update(i, TileShape { top: None, ..s[i] }), dims),
{
    let k = s[i].top->0;
    let s2 = s.update(i, TileShape { top: None, ..s[i] });
    let locs2 = locs.remove(k.id.id);
    lemma_loc_of_index(dims, i);
    assert forall|id: u64| #[trigger] locs2.contains_key(id) implies dims.spec_contains(locs2[id]) && shape_has(
        s2[dims.spec_index(locs2[id])],
        id,
    ) by {
        assert(locs.contains_key(id));
        lemma_index_in_bounds(dims, locs[id]);
        let j = dims.spec_index(locs[id]);
        assert(shape_has(s[j], id));
        if j == i {
            assert(false);
        }
    }
    assert forall|id: u64| #[trigger] carriers.contains_key(id) implies locs2.contains_key(id) by {
        assert(locs.contains_key(id));
        if id == k.id.id {
            assert(false);
        }
    }
    assert forall|ii: int| 0 <= ii < s2.len() && (#[trigger] s2[ii]).top is Some implies {
        let kk = s2[ii].top->0;
        &&& locs2.contains_key(kk.id.id)
        &&& locs2[kk.id.id] == s2[ii].loc
        &&& !carriers.contains_key(kk.id.id)
    } by {
        assert(s2[ii] == s[ii]);
        let kk = s[ii].top->0;
        assert(locs[kk.id.id] == s[ii].loc);
        if kk.id.id == k.id.id {
            lemma_loc_of_index(dims, ii);
            assert(dims.spec_index(s[ii].loc) == ii);
            assert(dims.spec_index(s[i].loc) == i);
        }
    }
    assert forall|ii: int, j: int| 0 <= ii < s2.len() && 0 <= j < s2[ii].carried.len() implies {
        let c = #[trigger] s2[ii].carried[j];
        &&& locs2.contains_key(c.id.id)
        &&& locs2[c.id.id] == s2[ii].loc
        &&& carriers.contains_key(c.id.id)
        &&& s2[ii].top is Some
        &&& carriers[c.id.id] == s2[ii].top->0.id.id
    } by {
        assert(ii != i);
        assert(s2[ii] == s[ii]);
        let c = s[ii].carried[j];
        assert(carriers.contains_key(c.id.id));
    }
    assert forall|ii: int, j1: int, j2: int|
        0 <= ii < s2.len() && 0 <= j1 < j2 < s2[ii].carried.len() implies (#[trigger] s2[ii].carried[j1]).id
            != (#[trigger] s2[ii].carried[j2]).id by {
        assert(s2[ii] == s[ii]);
    }
}

/// Putting a unit into the carrying space of the unit on a tile, recording its location and carrier.
pub proof fn lemma_push_carried(locs: Map<u64, Location>, carriers: Map<u64, u64>, s: Seq<TileShape>, dims: Dims, i: int, c: UnitKey)
    requires
        units_indexed(locs, carriers, s, dims),
        shapes_located(s, dims),
        0 <= i < s.len(),
        s[i].top is Some,
        !locs.contains_key(c.id.id),
    ensures
        units_indexed(
            locs.insert(c.id.id, s[i].loc),
            carriers.insert(c.id.id, s[i].top->0.id.id),
            s.update(i, TileShape { carried: s[i].carried.push(c), ..s[i] }),
            dims,
        ),
        shapes_located(s.update(i, TileShape { carried: s[i].carried.push(c), ..s[i] }), dims),
{
    let s2 = s.update(i, TileShape { carried: s[i].carried.push(c), ..s[i] });
    let locs2 = locs.insert(c.id.id, s[i].loc);
    let carriers2 = carriers.insert(c.id.id, s[i].top->0.id.id);
    lemma_loc_of_index(dims, i);
    assert forall|id: u64| #[trigger] locs2.contains_key(id) implies dims.spec_contains(locs2[id]) && shape_has(
        s2[dims.spec_index(locs2[id])],
        id,
    ) by {
        if id == c.id.id {
            assert(s2[i].carried[s[i].carried.len() as int] == c);
        } else {
            assert(locs.contains_key(id));
            lemma_index_in_bounds(dims, locs[id]);
            let j = dims.spec_index(locs[id]);
            assert(shape_has(s[j], id));
            if j == i {
                if !(s[i].top is Some && s[i].top->0.id.id == id) {
                    let jj = choose|jj: int| 0 <= jj < s[i].carried.len() && (#[trigger] s[i].carried[jj]).id.id == id;
                    assert(s2[i].carried[jj] == s[i].carried[jj]);
                }
            }
        }
    }
    assert forall|ii: int| 0 <= ii < s2.len() && (#[trigger] s2[ii]).top is Some implies {
        let kk = s2[ii].top->0;
        &&& locs2.contains_key(kk.id.id)
        &&& locs2[kk.id.id] == s2[ii].loc
        &&& !carriers2.contains_key(kk.id.id)
    } by {
        assert(s[ii].top is Some);
        assert(locs.contains_key(s[ii].top->0.id.id));
    }
    assert forall|ii: int, j: int| 0 <= ii < s2.len() && 0 <= j < s2[ii].carried.len() implies {
        let cc = #[trigger] s2[ii].carried[j];
        &&& locs2.contains_key(cc.id.id)
        &&& locs2[cc.id.id] == s2[ii].loc
        &&& carriers2.contains_key(cc.id.id)
        &&& s2[ii].top is Some
        &&& carriers2[cc.id.id] == s2[ii].top->0.id.id
    } by {
        if ii == i && j == s[i].carried.len() {
        } else {
            assert(s2[ii].carried[j] == s[ii].carried[j]);
            assert(locs.contains_key(s[ii].carried[j].id.id));
        }
    }
    assert forall|ii: int, j1: int, j2: int|
        0 <= ii < s2.len() && 0 <= j1 < j2 < s2[ii].carried.len() implies (#[trigger] s2[ii].carried[j1]).id
            != (#[trigger] s2[ii].carried[j2]).id by {
        if ii == i {
            assert(s2[ii].carried[j1] == s[ii].carried[j1]);
            assert(locs.contains_key(s[ii].carried[j1].id.id));
            if j2 < s[i].carried.len() {
                assert(s2[ii].carried[j2] == s[ii].carried[j2]);
            }
        } else {
            assert(s2[ii] == s[ii]);
        }
    }
}

/// Taking a unit out of the carrying space of the unit on a tile, and out of the indices.
pub proof fn lemma_remove_carried(locs: Map<u64, Location>, carriers: Map<u64, u64>, s: Seq<TileShape>, dims: Dims, i: int, j: int)
    requires
        units_indexed(locs, carriers, s, dims),
        shapes_located(s, dims),
        0 <= i < s.len(),
        0 <= j < s[i].carried.len(),
    ensures
        units_indexed(
            locs.remove(s[i].carried[j].id.id),
            carriers.remove(s[i].carried[j].id.id),
            s.update(i, TileShape { carried: s[i].carried.remove(j), ..s[i] }),
            dims,
        ),
        shapes_located(s.update(i, TileShape { carried: s[i].carried.remove(j), ..s[i] }), dims),
{
    let c = s[i].carried[j];
    let s2 = s.update(i, TileShape { carried: s[i].carried.remove(j), ..s[i] });
    let locs2 = locs.remove(c.id.id);
    let carriers2 = carriers.remove(c.id.id);
    lemma_loc_of_index(dims, i);
    assert forall|id: u64| #[trigger] locs2.contains_key(id) implies dims.spec_contains(locs2[id]) && shape_has(
        s2[dims.spec_index(locs2[id])],
        id,
    ) by {
        assert(locs.contains_key(id));
        lemma_index_in_bounds(dims, locs[id]);
        let jj = dims.spec_index(locs[id]);
        assert(shape_has(s[jj], id));
        if jj == i {
            if !(s[i].top is Some && s[i].top->0.id.id == id) {
                let k = choose|k: int| 0 <= k < s[i].carried.len() && (#[trigger] s[i].carried[k]).id.id == id;
                assert(k != j);
                if k < j {
                    assert(s2[i].carried[k] == s[i].carried[k]);
                } else {
                    assert(s2[i].carried[k - 1] == s[i].carried[k]);
                }
            }
        }
    }
    assert forall|ii: int| 0 <= ii < s2.len() && (#[trigger] s2[ii]).top is Some implies {
        let kk = s2[ii].top->0;
        &&& locs2.contains_key(kk.id.id)
        &&& locs2[kk.id.id] == s2[ii].loc
        &&& !carriers2.contains_key(kk.id.id)
    } by {
        assert(s[ii].top is Some);
        assert(locs.contains_key(s[ii].top->0.id.id));
    }
    assert forall|ii: int, k: int| 0 <= ii < s2.len() && 0 <= k < s2[ii].carried.len() implies {
        let cc = #[trigger] s2[ii].carried[k];
        &&& locs2.contains_key(cc.id.id)
        &&& locs2[cc.id.id] == s2[ii].loc
        &&& carriers2.contains_key(cc.id.id)
        &&& s2[ii].top is Some
        &&& carriers2[cc.id.id] == s2[ii].top->0.id.id
    } by {
        if ii == i {
            let k0 = if k < j { k } else { k + 1 };
            assert(s2[ii].carried[k] == s[ii].carried[k0]);
            assert(locs.contains_key(s[ii].carried[k0].id.id));
        } else {
            assert(s2[ii] == s[ii]);
            let cc = s[ii].carried[k];
            assert(locs.contains_key(cc.id.id));
            assert(locs[cc.id.id] == s[ii].loc);
            if cc.id.id == c.id.id {
                lemma_loc_of_index(dims, ii);
                assert(dims.spec_index(s[ii].loc) == ii);
                assert(dims.spec_index(s[i].loc) == i);
            }
        }
    }
    assert forall|ii: int, j1: int, j2: int|
        0 <= ii < s2.len() && 0 <= j1 < j2 < s2[ii].carried.len() implies (#[trigger] s2[ii].carried[j1]).id
            != (#[trigger] s2[ii].carried[j2]).id by {
        if ii == i {
            let k1 = if j1 < j { j1 } else { j1 + 1 };
            let k2 = if j2 < j { j2 } else { j2 + 1 };
            assert(s2[ii].carried[j1] == s[ii].carried[k1]);
            assert(s2[ii].carried[j2] == s[ii].carried[k2]);
        } else {
            assert(s2[ii] == s[ii]);
        }
    }
}

/// Founding a city on a tile without one, recording its location.
pub proof fn lemma_place_city(locs: Map<u64, Location>, s: Seq<TileShape>, dims: Dims, i: int, c: CityKey)
    requires
        cities_indexed(locs, s, dims),
        shapes_located(s, dims),
        0 <= i < s.len(),
        s[i].city is None,
        !locs.contains_key(c.id.id),
    ensures
        cities_indexed(locs.insert(c.id.id, s[i].loc), s.update(i, TileShape { city: Some(c), ..s[i] }), dims),
{
    let s2 = s.update(i, TileShape { city: Some(c), ..s[i] });
    let locs2 = locs.insert(c.id.id, s[i].loc);
    lemma_loc_of_index(dims, i);
    assert forall|id: u64| #[trigger] locs2.contains_key(id) implies {
        &&& dims.spec_contains(locs2[id])
        &&& s2[dims.spec_index(locs2[id])].city is Some
        &&& s2[dims.spec_index(locs2[id])].city->0.id.id == id
    } by {
        if id != c.id.id {
            assert(locs.contains_key(id));
            lemma_index_in_bounds(dims, locs[id]);
        }
    }
    assert forall|ii: int| 0 <= ii < s2.len() && (#[trigger] s2[ii]).city is Some implies {
        let cc = s2[ii].city->0;
        &&& locs2.contains_key(cc.id.id)
        &&& locs2[cc.id.id] == s2[ii].loc
    } by {
        if ii != i {
            assert(s2[ii] == s[ii]);
            assert(locs.contains_key(s[ii].city->0.id.id));
        }
    }
}

/// Removing a tile's city, and its location from the index.
pub proof fn lemma_remove_city(locs: Map<u64, Location>, s: Seq<TileShape>, dims: Dims, i: int)
    requires
        cities_indexed(locs, s, dims),
        shapes_located(s, dims),
        0 <= i < s.len(),
        s[i].city is Some,
    ensures
        cities_indexed(locs.remove(s[i].city->0.id.id), s.update(i, TileShape { city: None, ..s[i] }), dims),
{
    let c = s[i].city->0;
    let s2 = s.update(i, TileShape { city: None, ..s[i] });
    let locs2 = locs.remove(c.id.id);
    lemma_loc_of_index(dims, i);
    assert forall|id: u64| #[trigger] locs2.contains_key(id) implies {
        &&& dims.spec_contains(locs2[id])
        &&& s2[dims.spec_index(locs2[id])].city is Some
        &&& s2[dims.spec_index(locs2[id])].city->0.id.id == id
    } by {
        assert(locs.contains_key(id));
        lemma_index_in_bounds(dims, locs[id]);
    }
    assert forall|ii: int| 0 <= ii < s2.len() && (#[trigger] s2[ii]).city is Some implies {
        let cc = s2[ii].city->0;
        &&& locs2.contains_key(cc.id.id)
        &&& locs2[cc.id.id] == s2[ii].loc
    } by {
        assert(s2[ii] == s[ii]);
        let cc = s[ii].city->0;
        assert(locs.contains_key(cc.id.id));
        if cc.id.id == c.id.id {
            lemma_loc_of_index(dims, ii);
            assert(dims.spec_index(s[ii].loc) == ii);
        }
    }
}

/// Changing what a tile holds without touching anything an index records leaves the indices right.
pub proof fn lemma_same_unit_shape(locs: Map<u64, Location>, carriers: Map<u64, u64>, s: Seq<TileShape>, dims: Dims, i: int, sh: TileShape)
    requires
        units_indexed(locs, carriers, s, dims),
        shapes_located(s, dims),
        0 <= i < s.len(),
        sh.loc == s[i].loc,
        sh.top == s[i].top,
        sh.carried == s[i].carried,
    ensures
        units_indexed(locs, carriers, s.update(i, sh), dims),
{
    let s2 = s.update(i, sh);
    assert forall|id: u64| #[trigger] locs.contains_key(id) implies dims.spec_contains(locs[id]) && shape_has(
        s2[dims.spec_index(locs[id])],
        id,
    ) by {
        lemma_index_in_bounds(dims, locs[id]);
        let j = dims.spec_index(locs[id]);
        assert(shape_has(s[j], id));
        if j == i {
            if !(s[i].top is Some && s[i].top->0.id.id == id) {
                let k = choose|k: int| 0 <= k < s[i].carried.len() && (#[trigger] s[i].carried[k]).id.id == id;
                assert(s2[i].carried[k] == s[i].carried[k]);
            }
        }
    }
    assert forall|ii: int| 0 <= ii < s2.len() && (#[trigger] s2[ii]).top is Some implies {
        let kk = s2[ii].top->0;
        &&& locs.contains_key(kk.id.id)
        &&& locs[kk.id.id] == s2[ii].loc
        &&& !carriers.contains_key(kk.id.id)
    } by {
        assert(s[ii].top is Some);
    }
    assert forall|ii: int, k: int| 0 <= ii < s2.len() && 0 <= k < s2[ii].carried.len() implies {
        let cc = #[trigger] s2[ii].carried[k];
        &&& locs.contains_key(cc.id.id)
        &&& locs[cc.id.id] == s2[ii].loc
        &&& carriers.contains_key(cc.id.id)
        &&& s2[ii].top is Some
        &&& carriers[cc.id.id] == s2[ii].top->0.id.id
    } by {
        assert(s2[ii].carried[k] == s[ii].carried[k]);
    }
    assert forall|ii: int, j1: int, j2: int|
        0 <= ii < s2.len() && 0 <= j1 < j2 < s2[ii].carried.len() implies (#[trigger] s2[ii].carried[j1]).id
            != (#[trigger] s2[ii].carried[j2]).id by {
        assert(s2[ii].carried[j1] == s[ii].carried[j1]);
        assert(s2[ii].carried[j2] == s[ii].carried[j2]);
    }
}

pub proof fn lemma_same_city_shape(locs: Map<u64, Location>, s: Seq<TileShape>, dims: Dims, i: int, sh: TileShape)
    requires
        cities_indexed(locs, s, dims),
        shapes_located(s, dims),
        0 <= i < s.len(),
        sh.loc == s[i].loc,
        sh.city is Some == s[i].city is Some,
        sh.city is Some ==> sh.city->0.id == s[i].city->0.id,
    ensures
        cities_indexed(locs, s.update(i, sh), dims),
{
    let s2 = s.update(i, sh);
    assert forall|id: u64| #[trigger] locs.contains_key(id) implies {
        &&& dims.spec_contains(locs[id])
        &&& s2[dims.spec_index(locs[id])].city is Some
        &&& s2[dims.spec_index(locs[id])].city->0.id.id == id
    } by {
        lemma_index_in_bounds(dims, locs[id]);
    }
    assert forall|ii: int| 0 <= ii < s2.len() && (#[trigger] s2[ii]).city is Some implies {
        let cc = s2[ii].city->0;
        &&& locs.contains_key(cc.id.id)
        &&& locs[cc.id.id] == s2[ii].loc
    } by {
        assert(s[ii].city is Some);
    }
}

} // verus!
