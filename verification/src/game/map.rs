//! The map: its tiles, and indices of where every unit and city is.
use std::collections::HashMap;

use vstd::prelude::*;

use crate::game::alignment::{AlignedMaybe, Alignment};
use crate::game::city::{City, CityEdit, CityID};
use crate::game::error::GameError;
use crate::game::grid::LocationGrid;
use crate::game::map_index::{
    CityKey, TileShape, UnitKey, cities_indexed, city_counts_ok, grid_city_count, grid_ok, grid_unit_count,
    ids_below, key_match, keys_count, lemma_grid_city_count_bound, lemma_grid_city_count_update,
    lemma_grid_counts_empty, lemma_grid_unit_count_bound, lemma_grid_unit_count_update, lemma_keys_count_push,
    lemma_keys_count_remove, lemma_place_city, lemma_place_top, lemma_push_carried, lemma_remove_carried,
    lemma_remove_city, lemma_remove_top, lemma_same_city_shape, lemma_same_unit_shape, lemma_shapes_update,
    shape, shape_city_count, shape_has, shape_unit_count, shapes, shapes_located, tile_carried, tile_has_unit,
    tile_ok, tile_unit, unit_counts_ok, unit_key, unit_keys, units_indexed,
};
use crate::game::orders::Orders;
use crate::game::player::PlayerNum;
use crate::game::terrain::Terrain;
use crate::game::tile::Tile;
use crate::game::unit::{Unit, UnitEdit, UnitEditOutcome, UnitID, UnitType, carried_ok, lemma_edit_keeps, lemma_moved_keeps};
use crate::util::{Dims, Location, lemma_index_in_bounds, lemma_loc_of_index};

verus! {

broadcast use vstd::std_specs::hash::group_hash_axioms;

#[derive(Debug, Clone, PartialEq)]
pub enum NewUnitError {
    OutOfBounds { loc: Location, dims: Dims },
    UnitAlreadyPresent { loc: Location, prior_unit: Unit, unit_type_under_production: UnitType },
}

/// The map's tiles, with indices of the IDs, locations and carried status of all units and cities.
///
/// A unit is either carried or not. Every unit's ID maps to the location of the tile holding it (directly or in
/// its carrier); a carried unit's ID also maps to its carrier's ID. Every city's ID maps to its location. The
/// number of cities of each alignment, and of units of each alignment and type, are kept as well.
pub struct MapData {
    tiles: LocationGrid<Tile>,
    unit_loc_by_id: HashMap<u64, Location>,
    unit_carrier_by_id: HashMap<u64, u64>,
    city_loc_by_id: HashMap<u64, Location>,
    next_unit_id: UnitID,
    next_city_id: CityID,
    alignment_city_counts: Vec<(Alignment, usize)>,
    alignment_unit_type_counts: Vec<(Alignment, UnitType, u64)>,
}

/// Is the unit with the given ID somewhere in the tiles?
pub open spec fn grid_has_unit(g: Seq<Tile>, id: UnitID) -> bool {
    exists|i: int| 0 <= i < g.len() && tile_has_unit(#[trigger] g[i], id)
}

/// The unit with the given ID in the tiles, if any.
pub open spec fn grid_unit(g: Seq<Tile>, id: UnitID) -> Option<Unit> {
    if grid_has_unit(g, id) {
        Some(tile_unit(g[choose|i: int| 0 <= i < g.len() && tile_has_unit(#[trigger] g[i], id)], id))
    } else {
        None
    }
}

/// Is the tile's top-level unit the one with the given ID?
pub open spec fn top_has_id(t: Tile, id: UnitID) -> bool {
    t.unit matches Some(u) && u.id == id
}

/// Does the tile hold the city with the given ID?
pub open spec fn tile_has_city(t: Tile, id: CityID) -> bool {
    t.city matches Some(c) && c.id == id
}

impl MapData {
    pub closed spec fn spec_dims(self) -> Dims {
        self.tiles.dims
    }

    /// The tiles, row by row.
    pub closed spec fn spec_tiles(self) -> Seq<Tile> {
        self.tiles.grid@
    }

    pub open spec fn spec_tile(self, loc: Location) -> Tile {
        self.spec_tiles()[self.spec_dims().spec_index(loc)]
    }

    pub closed spec fn spec_next_unit_id(self) -> UnitID {
        self.next_unit_id
    }

    pub closed spec fn spec_next_city_id(self) -> CityID {
        self.next_city_id
    }

    /// The number of cities with the given alignment, if that alignment has ever held one.
    pub closed spec fn spec_city_counts(self) -> Seq<(Alignment, usize)> {
        self.alignment_city_counts@
    }

    /// The number of units of each alignment and type, for those that have ever had one.
    pub closed spec fn spec_unit_counts(self) -> Seq<(Alignment, UnitType, u64)> {
        self.alignment_unit_type_counts@
    }

    /// The indices agree with the given tile shapes.
    closed spec fn index_ok(self, s: Seq<TileShape>) -> bool {
        &&& shapes_located(s, self.tiles.dims)
        &&& units_indexed(self.unit_loc_by_id@, self.unit_carrier_by_id@, s, self.tiles.dims)
        &&& cities_indexed(self.city_loc_by_id@, s, self.tiles.dims)
        &&& ids_below(s, self.next_unit_id.id, self.next_city_id.id)
        &&& city_counts_ok(self.alignment_city_counts@, s)
        &&& unit_counts_ok(self.alignment_unit_type_counts@, s)
        &&& forall|i: int| 0 <= i < s.len() ==> (#[trigger] s[i]).carried.len() <= 5
    }

    /// Well-formedness: the tiles form the grid, and every index agrees with them.
    pub closed spec fn wf(self) -> bool {
        &&& self.tiles.grid@.len() == self.tiles.dims.spec_area()
        &&& grid_ok(self.tiles.grid@, self.tiles.dims)
        &&& self.index_ok(shapes(self.tiles.grid@))
    }

    /// The unit with the given ID, top-level or carried, if any.
    pub open spec fn spec_unit_by_id(self, id: UnitID) -> Option<Unit> {
        grid_unit(self.spec_tiles(), id)
    }

    /// The city with the given ID, if any.
    pub open spec fn spec_city_by_id(self, id: CityID) -> Option<City> {
        if exists|i: int| 0 <= i < self.spec_tiles().len() && tile_has_city(#[trigger] self.spec_tiles()[i], id) {
            self.spec_tiles()[choose|i: int| 0 <= i < self.spec_tiles().len() && tile_has_city(
                #[trigger] self.spec_tiles()[i],
                id,
            )].city
        } else {
            None
        }
    }
}

/// A carried unit is found on a tile exactly when its key is among the tile's carried keys.
proof fn lemma_tile_has_unit_shape(t: Tile, id: UnitID)
    ensures
        tile_has_unit(t, id) <==> (t.unit is Some && shape_has(shape(t), id.id)),
        (t.unit is Some && t.unit->0.id != id && tile_has_unit(t, id)) ==> exists|j: int|
            0 <= j < tile_carried(t).len() && (#[trigger] tile_carried(t)[j]).id == id,
{
    if t.unit is Some {
        let u = t.unit->0;
        let ks = shape(t).carried;
        assert(ks.len() == u.spec_carried().len());
        if exists|k: int| 0 <= k < u.spec_carried().len() && (#[trigger] u.spec_carried()[k]).id == id {
            let k = choose|k: int| 0 <= k < u.spec_carried().len() && (#[trigger] u.spec_carried()[k]).id == id;
            assert(ks[k].id == id);
        }
        if exists|j: int| 0 <= j < ks.len() && (#[trigger] ks[j]).id.id == id.id {
            let j = choose|j: int| 0 <= j < ks.len() && (#[trigger] ks[j]).id.id == id.id;
            assert(u.spec_carried()[j].id == ks[j].id);
        }
    }
}

/// An empty grid: every tile with no unit or city.
proof fn lemma_empty_grid_index(g: Seq<Tile>, dims: Dims)
    requires
        g.len() == dims.spec_area(),
        forall|i: int| 0 <= i < g.len() ==> (#[trigger] g[i]).unit is None && g[i].city is None && g[i].loc == dims.spec_loc(i),
    ensures
        shapes_located(shapes(g), dims),
        units_indexed(Map::empty(), Map::empty(), shapes(g), dims),
        cities_indexed(Map::empty(), shapes(g), dims),
        ids_below(shapes(g), 0, 0),
        city_counts_ok(Seq::empty(), shapes(g)),
        unit_counts_ok(Seq::empty(), shapes(g)),
{
    let s = shapes(g);
    assert forall|i: int| 0 <= i < s.len() implies (#[trigger] s[i]).top is None && s[i].carried.len() == 0
        && s[i].city is None by {
        assert(s[i] == shape(g[i]));
    }
    assert forall|a: Alignment| #[trigger] grid_city_count(s, a) == 0 by {
        lemma_grid_counts_empty(s, a, UnitType::Infantry);
    }
    assert forall|a: Alignment, t: UnitType| #[trigger] grid_unit_count(s, a, t) == 0 by {
        lemma_grid_counts_empty(s, a, t);
    }
}

impl MapData {
    /// A map of the given dimensions whose terrain comes from `terrain_initializer`, with no units or cities.
    pub fn new<F: Fn(Location) -> Terrain>(dims: Dims, terrain_initializer: F) -> (m: MapData)
        requires
            forall|loc: Location| dims.spec_contains(loc) ==> call_requires(terrain_initializer, (loc,)),
        ensures
            m.wf(),
            m.spec_dims() == dims,
            m.spec_tiles().len() == dims.spec_area(),
            forall|i: int| 0 <= i < dims.spec_area() ==> {
                let t = #[trigger] m.spec_tiles()[i];
                &&& t.loc == dims.spec_loc(i)
                &&& t.unit is None
                &&& t.city is None
                &&& call_ensures(terrain_initializer, (dims.spec_loc(i),), t.terrain)
            },
            m.spec_next_unit_id().id == 0,
            m.spec_next_city_id().id == 0,
            m.spec_city_counts() == Seq::<(Alignment, usize)>::empty(),
            m.spec_unit_counts() == Seq::<(Alignment, UnitType, u64)>::empty(),
    {
        let n = dims.area();
        let mut grid: Vec<Tile> = Vec::new();
        let mut i: usize = 0;
        while i < n
            invariant
                n == dims.spec_area(),
                i <= n,
                grid@.len() == i,
                forall|loc: Location| dims.spec_contains(loc) ==> call_requires(terrain_initializer, (loc,)),
                forall|j: int| 0 <= j < i ==> {
                    let t = #[trigger] grid@[j];
                    &&& t.loc == dims.spec_loc(j)
                    &&& t.unit is None
                    &&& t.city is None
                    &&& call_ensures(terrain_initializer, (dims.spec_loc(j),), t.terrain)
                },
            decreases n - i,
        {
            let loc = dims.loc(i);
            let terrain = terrain_initializer(loc);
            grid.push(Tile::new(terrain, loc));
            i = i + 1;
        }
        let tiles = LocationGrid { dims, grid };
        let m = MapData {
            tiles,
            unit_loc_by_id: HashMap::new(),
            unit_carrier_by_id: HashMap::new(),
            city_loc_by_id: HashMap::new(),
            next_unit_id: UnitID::default(),
            next_city_id: CityID::default(),
            alignment_city_counts: Vec::new(),
            alignment_unit_type_counts: Vec::new(),
        };
        proof {
            let g = m.tiles.grid@;
            assert forall|i: int| 0 <= i < g.len() implies #[trigger] tile_ok(g[i], dims.spec_loc(i)) by {
                lemma_loc_of_index(dims, i);
            }
            lemma_empty_grid_index(g, dims);
        }
        m
    }
}


impl MapData {
    /// A unit on a tile is indexed at that tile's location, which is the tile's own.
    proof fn lemma_unit_located(self, i: int, id: UnitID)
        requires
            self.wf(),
            0 <= i < self.spec_tiles().len(),
            tile_has_unit(self.spec_tiles()[i], id),
        ensures
            self.unit_loc_by_id@.contains_key(id.id),
            self.unit_loc_by_id@[id.id] == self.spec_tiles()[i].loc,
            self.spec_tiles()[i].loc == self.spec_dims().spec_loc(i),
            self.spec_dims().spec_index(self.spec_tiles()[i].loc) == i,
            self.spec_dims().spec_contains(self.spec_tiles()[i].loc),
    {
        let g = self.tiles.grid@;
        let s = shapes(g);
        let dims = self.tiles.dims;
        assert(tile_ok(g[i], dims.spec_loc(i)));
        lemma_loc_of_index(dims, i);
        lemma_tile_has_unit_shape(g[i], id);
        assert(s[i] == shape(g[i]));
        if !(s[i].top is Some && s[i].top->0.id.id == id.id) {
            let j = choose|j: int| 0 <= j < s[i].carried.len() && (#[trigger] s[i].carried[j]).id.id == id.id;
            assert(s[i].carried[j] == s[i].carried[j]);
        }
    }

    /// The units a tile's unit carries have distinct IDs.
    proof fn lemma_carried_distinct(self, i: int)
        requires
            self.wf(),
            0 <= i < self.spec_tiles().len(),
        ensures
            forall|k1: int, k2: int|
                0 <= k1 < k2 < tile_carried(self.spec_tiles()[i]).len() ==> (#[trigger] tile_carried(
                    self.spec_tiles()[i],
                )[k1]).id != (#[trigger] tile_carried(self.spec_tiles()[i])[k2]).id,
    {
        let g = self.tiles.grid@;
        let s = shapes(g);
        assert(s[i] == shape(g[i]));
        assert forall|k1: int, k2: int| 0 <= k1 < k2 < tile_carried(g[i]).len() implies (#[trigger] tile_carried(
            g[i],
        )[k1]).id != (#[trigger] tile_carried(g[i])[k2]).id by {
            assert(s[i].carried[k1].id == tile_carried(g[i])[k1].id);
            assert(s[i].carried[k2].id == tile_carried(g[i])[k2].id);
        }
    }

    /// Where the location index records a unit, the unit is; and the unit with that ID is the one there.
    proof fn lemma_unit_lookup(self, id: UnitID)
        requires
            self.wf(),
        ensures
            self.unit_loc_by_id@.contains_key(id.id) <==> grid_has_unit(self.spec_tiles(), id),
            self.unit_loc_by_id@.contains_key(id.id) ==> {
                let loc = self.unit_loc_by_id@[id.id];
                &&& self.spec_dims().spec_contains(loc)
                &&& tile_has_unit(self.spec_tile(loc), id)
                &&& self.spec_unit_by_id(id) == Some(tile_unit(self.spec_tile(loc), id))
            },
    {
        let g = self.tiles.grid@;
        let s = shapes(g);
        let dims = self.tiles.dims;
        if self.unit_loc_by_id@.contains_key(id.id) {
            let loc = self.unit_loc_by_id@[id.id];
            lemma_index_in_bounds(dims, loc);
            let i = dims.spec_index(loc);
            assert(shape_has(s[i], id.id));
            assert(s[i] == shape(g[i]));
            lemma_tile_has_unit_shape(g[i], id);
            assert(g[i].unit is Some) by {
                if g[i].unit is None {
                    assert(s[i].top is None);
                    assert(s[i].carried.len() == 0);
                }
            }
            assert(tile_has_unit(g[i], id));
            let i2 = choose|i2: int| 0 <= i2 < g.len() && tile_has_unit(#[trigger] g[i2], id);
            self.lemma_unit_located(i2, id);
        }
        if grid_has_unit(g, id) {
            let i2 = choose|i2: int| 0 <= i2 < g.len() && tile_has_unit(#[trigger] g[i2], id);
            self.lemma_unit_located(i2, id);
        }
    }

    pub fn dims(&self) -> (d: Dims)
        ensures
            d == self.spec_dims(),
    {
        self.tiles.dims
    }

    fn in_bounds(&self, loc: Location) -> (b: bool)
        ensures
            b == self.spec_dims().spec_contains(loc),
    {
        self.tiles.dims.contain(loc)
    }

    /// A unit on the map stands where its tile is: on the map.
    pub proof fn lemma_unit_on_map(self, id: UnitID)
        requires
            self.wf(),
            self.spec_unit_by_id(id) is Some,
        ensures
            self.spec_dims().spec_contains(self.spec_unit_by_id(id)->0.loc),
    {
        self.lemma_unit_lookup(id);
        let loc = self.unit_loc_by_id@[id.id];
        lemma_index_in_bounds(self.tiles.dims, loc);
        let i = self.tiles.dims.spec_index(loc);
        assert(tile_ok(self.tiles.grid@[i], self.tiles.dims.spec_loc(i)));
        let t = self.spec_tile(loc);
        let u = t.unit->0;
        if u.id != id {
            let k = choose|k: int| 0 <= k < u.spec_carried().len() && (#[trigger] u.spec_carried()[k]).id == id;
            assert(carried_ok(u.spec_carried()[k], u));
        }
    }

    /// The top-level unit at a location stands there, and is the unit its ID finds.
    pub proof fn lemma_top_unit(self, loc: Location)
        requires
            self.wf(),
            self.spec_dims().spec_contains(loc),
            self.spec_tile(loc).unit is Some,
        ensures
            self.spec_tile(loc).unit->0.loc == loc,
            self.spec_unit_by_id(self.spec_tile(loc).unit->0.id) == self.spec_tile(loc).unit,
    {
        lemma_index_in_bounds(self.tiles.dims, loc);
        let i = self.tiles.dims.spec_index(loc);
        assert(tile_ok(self.tiles.grid@[i], self.tiles.dims.spec_loc(i)));
        let u = self.spec_tile(loc).unit->0;
        assert(tile_has_unit(self.spec_tiles()[i], u.id));
        self.lemma_unit_located(i, u.id);
        self.lemma_unit_lookup(u.id);
    }

    /// Every unit on the map, top-level or carried, is well-formed.
    pub proof fn lemma_unit_wf(self, id: UnitID)
        requires
            self.wf(),
            self.spec_unit_by_id(id) is Some,
        ensures
            self.spec_unit_by_id(id)->0.wf(),
    {
        self.lemma_unit_lookup(id);
        let loc = self.unit_loc_by_id@[id.id];
        lemma_index_in_bounds(self.tiles.dims, loc);
        let i = self.tiles.dims.spec_index(loc);
        assert(tile_ok(self.tiles.grid@[i], self.tiles.dims.spec_loc(i)));
        self.lemma_tile_wf(loc);
        let t = self.spec_tile(loc);
        let u = t.unit->0;
        if u.id != id {
            let k = choose|k: int| 0 <= k < u.spec_carried().len() && (#[trigger] u.spec_carried()[k]).id == id;
            assert(carried_ok(u.spec_carried()[k], u));
            let c = u.spec_carried()[k];
            assert(c.spec_carried() =~= Seq::<Unit>::empty());
        }
    }

    /// Every city on the map stands at a location on the map.
    pub proof fn lemma_cities_on_map(self)
        requires
            self.wf(),
        ensures
            forall|k: int| 0 <= k < spec_cities(self.spec_tiles()).len() ==> self.spec_dims().spec_contains(
                #[trigger] spec_cities(self.spec_tiles())[k].loc,
            ),
    {
        lemma_cities_located(self.tiles.grid@, self.tiles.dims);
    }

    /// Every city on the map stands on the tile of its location, and the city of each tile is among the map's
    /// cities.
    pub proof fn lemma_cities_at_tiles(self)
        requires
            self.wf(),
        ensures
            forall|k: int| 0 <= k < spec_cities(self.spec_tiles()).len() ==> {
                let c = #[trigger] spec_cities(self.spec_tiles())[k];
                &&& self.spec_dims().spec_contains(c.loc)
                &&& self.spec_tile(c.loc).city == Some(c)
            },
            forall|j: int| 0 <= j < self.spec_tiles().len() && (#[trigger] self.spec_tiles()[j]).city is Some
                ==> spec_cities(self.spec_tiles()).contains(self.spec_tiles()[j].city->0),
    {
        lemma_cities_located(self.tiles.grid@, self.tiles.dims);
        lemma_cities_placed(self.tiles.grid@, self.tiles.dims);
    }

    /// Every unit on the map, top-level or carried, stands at a location on the map.
    pub proof fn lemma_units_on_map(self)
        requires
            self.wf(),
        ensures
            forall|k: int| 0 <= k < spec_all_units(self.spec_tiles()).len() ==> self.spec_dims().spec_contains(
                #[trigger] spec_all_units(self.spec_tiles())[k].loc,
            ),
    {
        lemma_units_located(self.tiles.grid@, self.tiles.dims);
    }

    /// There is a tile for each location of the map.
    pub proof fn lemma_tiles_len(self)
        requires
            self.wf(),
        ensures
            self.spec_tiles().len() == self.spec_dims().spec_area(),
    {
    }

    /// The tile at index `j` lies at the location of that index, and so does its city.
    pub proof fn lemma_tile_at_index(self, j: int)
        requires
            self.wf(),
            0 <= j < self.spec_tiles().len(),
        ensures
            self.spec_tiles().len() == self.spec_dims().spec_area(),
            self.spec_dims().spec_contains(self.spec_dims().spec_loc(j)),
            self.spec_dims().spec_index(self.spec_dims().spec_loc(j)) == j,
            self.spec_tile(self.spec_dims().spec_loc(j)) == self.spec_tiles()[j],
            self.spec_tiles()[j].loc == self.spec_dims().spec_loc(j),
            self.spec_tiles()[j].city matches Some(c) ==> c.loc == self.spec_dims().spec_loc(j),
    {
        lemma_loc_of_index(self.tiles.dims, j);
        assert(tile_ok(self.tiles.grid@[j], self.tiles.dims.spec_loc(j)));
    }

    /// The tile at a location on the map is well-formed.
    pub proof fn lemma_tile_wf(self, loc: Location)
        requires
            self.wf(),
            self.spec_dims().spec_contains(loc),
        ensures
            self.spec_tile(loc).wf(),
    {
        lemma_index_in_bounds(self.tiles.dims, loc);
        let i = self.tiles.dims.spec_index(loc);
        assert(tile_ok(self.tiles.grid@[i], self.tiles.dims.spec_loc(i)));
    }

    /// The map's tiles, as a grid.
    pub fn tiles(&self) -> (g: &LocationGrid<Tile>)
        requires
            self.wf(),
        ensures
            g.wf(),
            g.spec_dims() == self.spec_dims(),
            g.spec_items() == self.spec_tiles(),
            forall|i: int| 0 <= i < g.spec_items().len() ==> (#[trigger] g.spec_items()[i]).wf(),
    {
        proof {
            assert forall|i: int| 0 <= i < self.tiles.grid@.len() implies (#[trigger] self.tiles.grid@[i]).wf() by {
                assert(tile_ok(self.tiles.grid@[i], self.tiles.dims.spec_loc(i)));
            }
        }
        &self.tiles
    }

    /// The tile at `loc`, if `loc` is on the map.
    pub fn tile(&self, loc: Location) -> (r: Option<&Tile>)
        requires
            self.wf(),
        ensures
            self.spec_dims().spec_contains(loc) ==> r == Some(&self.spec_tile(loc)),
            !self.spec_dims().spec_contains(loc) ==> r is None,
    {
        self.tiles.get(loc)
    }

    /// The terrain at `loc`, if `loc` is on the map.
    pub fn terrain(&self, loc: Location) -> (r: Option<&Terrain>)
        requires
            self.wf(),
        ensures
            self.spec_dims().spec_contains(loc) ==> r == Some(&self.spec_tile(loc).terrain),
            !self.spec_dims().spec_contains(loc) ==> r is None,
    {
        match self.tiles.get(loc) {
            Some(tile) => Some(&tile.terrain),
            None => None,
        }
    }

    /// The top-level unit at the given location, if any.
    pub fn toplevel_unit_by_loc(&self, loc: Location) -> (r: Option<&Unit>)
        requires
            self.wf(),
        ensures
            self.spec_dims().spec_contains(loc) ==> r == match self.spec_tile(loc).unit {
                Some(u) => Some(&u),
                None => None::<&Unit>,
            },
            !self.spec_dims().spec_contains(loc) ==> r is None,
    {
        if let Some(tile) = self.tiles.get(loc) {
            tile.unit.as_ref()
        } else {
            None
        }
    }

    pub fn toplevel_unit_id_by_loc(&self, loc: Location) -> (r: Option<UnitID>)
        requires
            self.wf(),
        ensures
            self.spec_dims().spec_contains(loc) ==> r == match self.spec_tile(loc).unit {
                Some(u) => Some(u.id),
                None => None::<UnitID>,
            },
            !self.spec_dims().spec_contains(loc) ==> r is None,
    {
        match self.toplevel_unit_by_loc(loc) {
            Some(unit) => Some(unit.id),
            None => None,
        }
    }

    /// The top-level or carried unit at `loc` with ID `id`, if any.
    #[verifier::loop_isolation(false)]
    pub fn unit_by_loc_and_id(&self, loc: Location, id: UnitID) -> (r: Option<&Unit>)
        requires
            self.wf(),
        ensures
            r matches Some(u) ==> self.spec_dims().spec_contains(loc) && tile_has_unit(self.spec_tile(loc), id)
                && *u == tile_unit(self.spec_tile(loc), id),
            r is None ==> !(self.spec_dims().spec_contains(loc) && tile_has_unit(self.spec_tile(loc), id)),
    {
        if let Some(toplevel_unit) = self.toplevel_unit_by_loc(loc) {
            if toplevel_unit.id == id {
                return Some(toplevel_unit);
            }
            proof {
                lemma_index_in_bounds(self.tiles.dims, loc);
                self.lemma_carried_distinct(self.tiles.dims.spec_index(loc));
            }
            let carried = toplevel_unit.carried_units();
            let mut k: usize = 0;
            while k < carried.len()
                invariant
                    k <= carried@.len(),
                    carried@.len() == toplevel_unit.spec_carried().len(),
                    forall|j: int| 0 <= j < carried@.len() ==> *carried@[j] == toplevel_unit.spec_carried()[j],
                    forall|j: int| 0 <= j < k ==> (#[trigger] toplevel_unit.spec_carried()[j]).id != id,
                decreases carried@.len() - k,
            {
                if carried[k].id == id {
                    let r = carried[k];
                    proof {
                        let u = *toplevel_unit;
                        let kc = choose|kc: int| 0 <= kc < u.spec_carried().len() && (#[trigger] u.spec_carried()[kc]).id == id;
                        assert(u.spec_carried()[k as int].id == id);
                        if kc != k {
                            assert(tile_carried(self.spec_tile(loc))[kc].id != tile_carried(self.spec_tile(loc))[k as int].id);
                        }
                    }
                    return Some(r);
                }
                k = k + 1;
            }
            None
        } else {
            None
        }
    }

    /// The unit with ID `id`, whether top-level or carried, if any.
    pub fn unit_by_id(&self, id: UnitID) -> (r: Option<&Unit>)
        requires
            self.wf(),
        ensures
            r matches Some(u) ==> self.spec_unit_by_id(id) == Some(*u),
            r is None ==> self.spec_unit_by_id(id) is None,
    {
        proof {
            self.lemma_unit_lookup(id);
        }
        match self.unit_loc_by_id.get(&id.id) {
            Some(loc) => self.unit_by_loc_and_id(*loc, id),
            None => None,
        }
    }

    /// The unit with ID `id` if it belongs to the given player.
    pub fn player_unit_by_id(&self, player: PlayerNum, id: UnitID) -> (r: Option<&Unit>)
        requires
            self.wf(),
        ensures
            r matches Some(u) ==> self.spec_unit_by_id(id) == Some(*u) && u.alignment == (Alignment::Belligerent { player }),
            r is None ==> !(self.spec_unit_by_id(id) matches Some(u) && u.alignment == (Alignment::Belligerent { player })),
    {
        match self.unit_by_id(id) {
            Some(unit) => {
                if unit.belongs_to_player(player) && unit.id == id {
                    Some(unit)
                } else {
                    None
                }
            },
            None => None,
        }
    }

    /// The location of the unit with ID `id`, if there is one.
    pub fn unit_loc(&self, id: UnitID) -> (r: Option<Location>)
        requires
            self.wf(),
        ensures
            r == match self.spec_unit_by_id(id) {
                Some(u) => Some(u.loc),
                None => None::<Location>,
            },
    {
        match self.unit_by_id(id) {
            Some(unit) => Some(unit.loc),
            None => None,
        }
    }

    pub fn city_by_loc(&self, loc: Location) -> (r: Option<&City>)
        requires
            self.wf(),
        ensures
            self.spec_dims().spec_contains(loc) ==> r == match self.spec_tile(loc).city {
                Some(c) => Some(&c),
                None => None::<&City>,
            },
            !self.spec_dims().spec_contains(loc) ==> r is None,
    {
        if let Some(tile) = self.tiles.get(loc) {
            tile.city.as_ref()
        } else {
            None
        }
    }

    /// The city at `loc` if it belongs to the given player.
    pub fn player_city_by_loc(&self, player: PlayerNum, loc: Location) -> (r: Option<&City>)
        requires
            self.wf(),
        ensures
            r matches Some(c) ==> self.spec_dims().spec_contains(loc) && self.spec_tile(loc).city == Some(*c)
                && c.alignment == (Alignment::Belligerent { player }),
            r is None ==> !(self.spec_dims().spec_contains(loc) && (self.spec_tile(loc).city matches Some(c)
                && c.alignment == (Alignment::Belligerent { player }))),
    {
        match self.city_by_loc(loc) {
            Some(city) => if city.belongs_to_player(player) {
                Some(city)
            } else {
                None
            },
            None => None,
        }
    }

    /// The city with ID `id`; there must be one.
    pub fn city_by_id(&self, id: CityID) -> (r: Option<&City>)
        requires
            self.wf(),
            self.spec_city_by_id(id) is Some,
        ensures
            r matches Some(c) && self.spec_city_by_id(id) == Some(*c),
    {
        let ghost g = self.tiles.grid@;
        let ghost dims = self.tiles.dims;
        proof {
            let i = choose|i: int| 0 <= i < g.len() && tile_has_city(#[trigger] g[i], id);
            assert(shapes(g)[i] == shape(g[i]));
            assert(tile_ok(g[i], dims.spec_loc(i)));
            lemma_loc_of_index(dims, i);
        }
        let loc = *self.city_loc_by_id.get(&id.id).unwrap();
        proof {
            let i = choose|i: int| 0 <= i < g.len() && tile_has_city(#[trigger] g[i], id);
            lemma_index_in_bounds(dims, loc);
            assert(shapes(g)[dims.spec_index(loc)] == shape(g[dims.spec_index(loc)]));
        }
        self.city_by_loc(loc)
    }
}


/// Where the entry for an alignment stands in the city counts, if it has one.
fn city_count_entry(v: &Vec<(Alignment, usize)>, a: Alignment) -> (r: Option<usize>)
    ensures
        r matches Some(k) ==> k < v@.len() && v@[k as int].0 == a,
        r is None ==> forall|k: int| 0 <= k < v@.len() ==> (#[trigger] v@[k]).0 != a,
{
    let mut k: usize = 0;
    while k < v.len()
        invariant
            k <= v@.len(),
            forall|j: int| 0 <= j < k ==> (#[trigger] v@[j]).0 != a,
        decreases v@.len() - k,
    {
        if v[k].0 == a {
            return Some(k);
        }
        k = k + 1;
    }
    None
}

/// Where the entry for an alignment and unit type stands in the unit counts, if it has one.
fn unit_count_entry(v: &Vec<(Alignment, UnitType, u64)>, a: Alignment, t: UnitType) -> (r: Option<usize>)
    ensures
        r matches Some(k) ==> k < v@.len() && v@[k as int].0 == a && v@[k as int].1 == t,
        r is None ==> forall|k: int| 0 <= k < v@.len() ==> !((#[trigger] v@[k]).0 == a && v@[k].1 == t),
{
    let mut k: usize = 0;
    while k < v.len()
        invariant
            k <= v@.len(),
            forall|j: int| 0 <= j < k ==> !((#[trigger] v@[j]).0 == a && v@[j].1 == t),
        decreases v@.len() - k,
    {
        if v[k].0 == a && v[k].1 == t {
            return Some(k);
        }
        k = k + 1;
    }
    None
}

/// Count one more city for the alignment, listing the alignment if it was not yet.
fn inc_city_count(v: &mut Vec<(Alignment, usize)>, a: Alignment, Ghost(s): Ghost<Seq<TileShape>>, Ghost(s2): Ghost<Seq<TileShape>>)
    requires
        city_counts_ok(old(v)@, s),
        grid_city_count(s2, a) == grid_city_count(s, a) + 1,
        grid_city_count(s2, a) <= usize::MAX,
        forall|b: Alignment| b != a ==> #[trigger] grid_city_count(s2, b) == grid_city_count(s, b),
    ensures
        city_counts_ok(final(v)@, s2),
{
    match city_count_entry(v, a) {
        Some(k) => {
            let c = v[k].1;
            v.set(k, (a, c + 1));
            proof {
                assert forall|b: Alignment| #[trigger] grid_city_count(s2, b) > 0 implies exists|j: int|
                    0 <= j < v@.len() && (#[trigger] v@[j]).0 == b by {
                    if b != a {
                        assert(grid_city_count(s, b) > 0);
                        let j = choose|j: int| 0 <= j < old(v)@.len() && (#[trigger] old(v)@[j]).0 == b;
                        assert(v@[j].0 == b);
                    } else {
                        assert(v@[k as int].0 == b);
                    }
                }
            }
        },
        None => {
            proof {
                if grid_city_count(s, a) > 0 {
                    let j = choose|j: int| 0 <= j < old(v)@.len() && (#[trigger] old(v)@[j]).0 == a;
                }
            }
            v.push((a, 1));
            proof {
                assert forall|b: Alignment| #[trigger] grid_city_count(s2, b) > 0 implies exists|j: int|
                    0 <= j < v@.len() && (#[trigger] v@[j]).0 == b by {
                    if b != a {
                        assert(grid_city_count(s, b) > 0);
                        let j = choose|j: int| 0 <= j < old(v)@.len() && (#[trigger] old(v)@[j]).0 == b;
                        assert(v@[j].0 == b);
                    } else {
                        assert(v@[old(v)@.len() as int].0 == b);
                    }
                }
            }
        },
    }
}

/// Count one fewer city for the alignment.
fn dec_city_count(v: &mut Vec<(Alignment, usize)>, a: Alignment, Ghost(s): Ghost<Seq<TileShape>>, Ghost(s2): Ghost<Seq<TileShape>>)
    requires
        city_counts_ok(old(v)@, s),
        grid_city_count(s2, a) + 1 == grid_city_count(s, a),
        forall|b: Alignment| b != a ==> #[trigger] grid_city_count(s2, b) == grid_city_count(s, b),
    ensures
        city_counts_ok(final(v)@, s2),
{
    proof {
        assert(grid_city_count(s, a) > 0);
    }
    let k = city_count_entry(v, a).unwrap();
    let c = v[k].1;
    v.set(k, (a, c - 1));
    proof {
        assert forall|b: Alignment| #[trigger] grid_city_count(s2, b) > 0 implies exists|j: int|
            0 <= j < v@.len() && (#[trigger] v@[j]).0 == b by {
            if b != a {
                assert(grid_city_count(s, b) > 0);
                let j = choose|j: int| 0 <= j < old(v)@.len() && (#[trigger] old(v)@[j]).0 == b;
                assert(v@[j].0 == b);
            } else {
                assert(v@[k as int].0 == b);
            }
        }
    }
}

/// Count one more unit of the alignment and type, listing them if they were not yet.
fn inc_unit_count(
    v: &mut Vec<(Alignment, UnitType, u64)>,
    a: Alignment,
    t: UnitType,
    Ghost(s): Ghost<Seq<TileShape>>,
    Ghost(s2): Ghost<Seq<TileShape>>,
)
    requires
        unit_counts_ok(old(v)@, s),
        grid_unit_count(s2, a, t) == grid_unit_count(s, a, t) + 1,
        grid_unit_count(s2, a, t) <= u64::MAX,
        forall|b: Alignment, u: UnitType| !(b == a && u == t) ==> #[trigger] grid_unit_count(s2, b, u) == grid_unit_count(s, b, u),
    ensures
        unit_counts_ok(final(v)@, s2),
{
    match unit_count_entry(v, a, t) {
        Some(k) => {
            let c = v[k].2;
            v.set(k, (a, t, c + 1));
            proof {
                assert forall|b: Alignment, u: UnitType| #[trigger] grid_unit_count(s2, b, u) > 0 implies exists|j: int|
                    0 <= j < v@.len() && (#[trigger] v@[j]).0 == b && v@[j].1 == u by {
                    if !(b == a && u == t) {
                        assert(grid_unit_count(s, b, u) > 0);
                        let j = choose|j: int| 0 <= j < old(v)@.len() && (#[trigger] old(v)@[j]).0 == b && old(v)@[j].1 == u;
                        assert(v@[j].0 == b);
                    } else {
                        assert(v@[k as int].0 == b);
                    }
                }
            }
        },
        None => {
            proof {
                if grid_unit_count(s, a, t) > 0 {
                    let j = choose|j: int| 0 <= j < old(v)@.len() && (#[trigger] old(v)@[j]).0 == a && old(v)@[j].1 == t;
                }
            }
            v.push((a, t, 1));
            proof {
                assert forall|b: Alignment, u: UnitType| #[trigger] grid_unit_count(s2, b, u) > 0 implies exists|j: int|
                    0 <= j < v@.len() && (#[trigger] v@[j]).0 == b && v@[j].1 == u by {
                    if !(b == a && u == t) {
                        assert(grid_unit_count(s, b, u) > 0);
                        let j = choose|j: int| 0 <= j < old(v)@.len() && (#[trigger] old(v)@[j]).0 == b && old(v)@[j].1 == u;
                        assert(v@[j].0 == b);
                    } else {
                        assert(v@[old(v)@.len() as int].0 == b);
                    }
                }
            }
        },
    }
}

/// Count one fewer unit of the alignment and type.
fn dec_unit_count(
    v: &mut Vec<(Alignment, UnitType, u64)>,
    a: Alignment,
    t: UnitType,
    Ghost(s): Ghost<Seq<TileShape>>,
    Ghost(s2): Ghost<Seq<TileShape>>,
)
    requires
        unit_counts_ok(old(v)@, s),
        grid_unit_count(s2, a, t) + 1 == grid_unit_count(s, a, t),
        forall|b: Alignment, u: UnitType| !(b == a && u == t) ==> #[trigger] grid_unit_count(s2, b, u) == grid_unit_count(s, b, u),
    ensures
        unit_counts_ok(final(v)@, s2),
{
    proof {
        assert(grid_unit_count(s, a, t) > 0);
    }
    let k = unit_count_entry(v, a, t).unwrap();
    let c = v[k].2;
    v.set(k, (a, t, c - 1));
    proof {
        assert forall|b: Alignment, u: UnitType| #[trigger] grid_unit_count(s2, b, u) > 0 implies exists|j: int|
            0 <= j < v@.len() && (#[trigger] v@[j]).0 == b && v@[j].1 == u by {
            if !(b == a && u == t) {
                assert(grid_unit_count(s, b, u) > 0);
                let j = choose|j: int| 0 <= j < old(v)@.len() && (#[trigger] old(v)@[j]).0 == b && old(v)@[j].1 == u;
                assert(v@[j].0 == b);
            } else {
                assert(v@[k as int].0 == b);
            }
        }
    }
}


/// The unit counts after one tile's shape changes.
proof fn lemma_unit_counts_after(s: Seq<TileShape>, i: int, sh: TileShape)
    requires
        0 <= i < s.len(),
    ensures
        forall|b: Alignment, u: UnitType| #[trigger] grid_unit_count(s.update(i, sh), b, u) + shape_unit_count(s[i], b, u)
            == grid_unit_count(s, b, u) + shape_unit_count(sh, b, u),
{
    assert forall|b: Alignment, u: UnitType| #[trigger] grid_unit_count(s.update(i, sh), b, u) + shape_unit_count(
        s[i],
        b,
        u,
    ) == grid_unit_count(s, b, u) + shape_unit_count(sh, b, u) by {
        lemma_grid_unit_count_update(s, i, sh, b, u);
    }
}

/// The city counts after one tile's shape changes.
proof fn lemma_city_counts_after(s: Seq<TileShape>, i: int, sh: TileShape)
    requires
        0 <= i < s.len(),
    ensures
        forall|b: Alignment| #[trigger] grid_city_count(s.update(i, sh), b) + shape_city_count(s[i], b)
            == grid_city_count(s, b) + shape_city_count(sh, b),
{
    assert forall|b: Alignment| #[trigger] grid_city_count(s.update(i, sh), b) + shape_city_count(s[i], b)
        == grid_city_count(s, b) + shape_city_count(sh, b) by {
        lemma_grid_city_count_update(s, i, sh, b);
    }
}

/// City counts stay right when no tile's city changes.
proof fn lemma_city_counts_keep(v: Seq<(Alignment, usize)>, s: Seq<TileShape>, i: int, sh: TileShape)
    requires
        city_counts_ok(v, s),
        0 <= i < s.len(),
        sh.city == s[i].city,
    ensures
        city_counts_ok(v, s.update(i, sh)),
{
    lemma_city_counts_after(s, i, sh);
    let s2 = s.update(i, sh);
    assert forall|a: Alignment| #[trigger] grid_city_count(s2, a) > 0 implies exists|k: int|
        0 <= k < v.len() && (#[trigger] v[k]).0 == a by {
        assert(grid_city_count(s, a) > 0);
    }
}

/// Unit counts stay right when no tile's units change.
proof fn lemma_unit_counts_keep(v: Seq<(Alignment, UnitType, u64)>, s: Seq<TileShape>, i: int, sh: TileShape)
    requires
        unit_counts_ok(v, s),
        0 <= i < s.len(),
        sh.top == s[i].top,
        sh.carried == s[i].carried,
    ensures
        unit_counts_ok(v, s.update(i, sh)),
{
    lemma_unit_counts_after(s, i, sh);
    let s2 = s.update(i, sh);
    assert forall|a: Alignment, t: UnitType| #[trigger] grid_unit_count(s2, a, t) > 0 implies exists|k: int|
        0 <= k < v.len() && (#[trigger] v[k]).0 == a && v[k].1 == t by {
        assert(grid_unit_count(s, a, t) > 0);
    }
}

/// No kind of unit can outnumber six per tile, so every count fits.
proof fn lemma_unit_count_fits(s: Seq<TileShape>, dims: Dims, a: Alignment, t: UnitType)
    requires
        s.len() == dims.spec_area(),
        forall|i: int| 0 <= i < s.len() ==> (#[trigger] s[i]).carried.len() <= 5,
    ensures
        grid_unit_count(s, a, t) <= 6 * 0xffff_ffff,
{
    lemma_grid_unit_count_bound(s, a, t);
    crate::util::lemma_area_bound(dims.width, dims.height);
}

impl MapData {
    /// The fields an indexing step leaves alone.
    closed spec fn same_but_units(self, other: MapData) -> bool {
        &&& self.tiles == other.tiles
        &&& self.next_unit_id == other.next_unit_id
        &&& self.next_city_id == other.next_city_id
        &&& self.city_loc_by_id@ == other.city_loc_by_id@
        &&& self.alignment_city_counts@ == other.alignment_city_counts@
    }

    closed spec fn same_but_cities(self, other: MapData) -> bool {
        &&& self.tiles == other.tiles
        &&& self.next_unit_id == other.next_unit_id
        &&& self.next_city_id == other.next_city_id
        &&& self.unit_loc_by_id@ == other.unit_loc_by_id@
        &&& self.unit_carrier_by_id@ == other.unit_carrier_by_id@
        &&& self.alignment_unit_type_counts@ == other.alignment_unit_type_counts@
    }

    /// Add a carried unit, given piecemeal, to the indices.
    fn index_carried_unit_piecemeal(
        &mut self,
        carried_id: UnitID,
        carried_alignment: Alignment,
        carried_type: UnitType,
        carrier_id: UnitID,
        carrier_loc: Location,
        Ghost(s): Ghost<Seq<TileShape>>,
        Ghost(i): Ghost<int>,
    )
        requires
            old(self).index_ok(s),
            0 <= i < s.len(),
            s[i].top matches Some(k) && k.id == carrier_id,
            s[i].loc == carrier_loc,
            s[i].carried.len() < 5,
            carried_id.id < old(self).next_unit_id.id,
            !old(self).unit_loc_by_id@.contains_key(carried_id.id),
        ensures
            final(self).index_ok(s.update(i, TileShape {
                carried: s[i].carried.push(UnitKey { id: carried_id, alignment: carried_alignment, type_: carried_type }),
                ..s[i]
            })),
            final(self).same_but_units(*old(self)),
            final(self).unit_loc_by_id@ == old(self).unit_loc_by_id@.insert(carried_id.id, carrier_loc),
    {
        let ghost key = UnitKey { id: carried_id, alignment: carried_alignment, type_: carried_type };
        let ghost sh = TileShape { carried: s[i].carried.push(key), ..s[i] };
        let ghost s2 = s.update(i, sh);
        proof {
            lemma_push_carried(self.unit_loc_by_id@, self.unit_carrier_by_id@, s, self.tiles.dims, i, key);
            lemma_unit_counts_after(s, i, sh);
            lemma_keys_count_push(s[i].carried, key, carried_alignment, carried_type);
            assert forall|b: Alignment, u: UnitType| !(b == carried_alignment && u == carried_type) implies #[trigger] grid_unit_count(
                s2,
                b,
                u,
            ) == grid_unit_count(s, b, u) by {
                lemma_keys_count_push(s[i].carried, key, b, u);
            }
            lemma_unit_count_fits(s2, self.tiles.dims, carried_alignment, carried_type);
        }
        self.unit_loc_by_id.insert(carried_id.id, carrier_loc);
        self.unit_carrier_by_id.insert(carried_id.id, carrier_id.id);
        inc_unit_count(&mut self.alignment_unit_type_counts, carried_alignment, carried_type, Ghost(s), Ghost(s2));
        proof {
            lemma_same_city_shape(self.city_loc_by_id@, s, self.tiles.dims, i, sh);
            lemma_city_counts_keep(self.alignment_city_counts@, s, i, sh);
            assert forall|ii: int, jj: int| 0 <= ii < s2.len() && 0 <= jj < s2[ii].carried.len() implies (#[trigger] s2[ii].carried[jj]).id.id
                < self.next_unit_id.id by {
                if ii == i && jj < s[i].carried.len() {
                    assert(s2[ii].carried[jj] == s[ii].carried[jj]);
                }
            }
            assert forall|ii: int| 0 <= ii < s2.len() implies (#[trigger] s2[ii]).carried.len() <= 5 by {
            }
            assert(shapes_located(s2, self.tiles.dims));
            assert(units_indexed(self.unit_loc_by_id@, self.unit_carrier_by_id@, s2, self.tiles.dims));
            assert(cities_indexed(self.city_loc_by_id@, s2, self.tiles.dims));
            assert(ids_below(s2, self.next_unit_id.id, self.next_city_id.id));
            assert(city_counts_ok(self.alignment_city_counts@, s2));
            assert(unit_counts_ok(self.alignment_unit_type_counts@, s2));
        }
    }

    /// Remove a carried unit from the indices.
    fn unindex_carried_unit(&mut self, unit: &Unit, Ghost(s): Ghost<Seq<TileShape>>, Ghost(i): Ghost<int>, Ghost(j): Ghost<int>)
        requires
            old(self).index_ok(s),
            0 <= i < s.len(),
            0 <= j < s[i].carried.len(),
            s[i].carried[j] == unit_key(*unit),
        ensures
            final(self).index_ok(s.update(i, TileShape { carried: s[i].carried.remove(j), ..s[i] })),
            final(self).same_but_units(*old(self)),
            final(self).unit_loc_by_id@ == old(self).unit_loc_by_id@.remove(unit.id.id),
    {
        let ghost sh = TileShape { carried: s[i].carried.remove(j), ..s[i] };
        let ghost s2 = s.update(i, sh);
        proof {
            lemma_remove_carried(self.unit_loc_by_id@, self.unit_carrier_by_id@, s, self.tiles.dims, i, j);
            lemma_unit_counts_after(s, i, sh);
            lemma_keys_count_remove(s[i].carried, j, unit.alignment, unit.type_);
            assert forall|b: Alignment, u: UnitType| !(b == unit.alignment && u == unit.type_) implies #[trigger] grid_unit_count(
                s2,
                b,
                u,
            ) == grid_unit_count(s, b, u) by {
                lemma_keys_count_remove(s[i].carried, j, b, u);
            }
        }
        self.unit_loc_by_id.remove(&unit.id.id);
        self.unit_carrier_by_id.remove(&unit.id.id);
        dec_unit_count(&mut self.alignment_unit_type_counts, unit.alignment, unit.type_, Ghost(s), Ghost(s2));
        proof {
            lemma_same_city_shape(self.city_loc_by_id@, s, self.tiles.dims, i, sh);
            lemma_city_counts_keep(self.alignment_city_counts@, s, i, sh);
            assert forall|ii: int, jj: int| 0 <= ii < s2.len() && 0 <= jj < s2[ii].carried.len() implies (#[trigger] s2[ii].carried[jj]).id.id
                < self.next_unit_id.id by {
                if ii == i {
                    let k0 = if jj < j { jj } else { jj + 1 };
                    assert(s2[ii].carried[jj] == s[ii].carried[k0]);
                }
            }
            assert forall|ii: int| 0 <= ii < s2.len() implies (#[trigger] s2[ii]).carried.len() <= 5 by {
            }
            assert(shapes_located(s2, self.tiles.dims));
            assert(units_indexed(self.unit_loc_by_id@, self.unit_carrier_by_id@, s2, self.tiles.dims));
            assert(cities_indexed(self.city_loc_by_id@, s2, self.tiles.dims));
            assert(ids_below(s2, self.next_unit_id.id, self.next_city_id.id));
            assert(city_counts_ok(self.alignment_city_counts@, s2));
            assert(unit_counts_ok(self.alignment_unit_type_counts@, s2));
        }
    }
}


/// The shape of a tile once the given unit stands on it.
pub open spec fn shape_with_unit(sh: TileShape, u: Unit) -> TileShape {
    TileShape { top: Some(unit_key(u)), carried: unit_keys(u.spec_carried()), ..sh }
}

/// The shape of a tile once its unit is gone.
pub open spec fn shape_without_unit(sh: TileShape) -> TileShape {
    TileShape { top: None, carried: Seq::empty(), ..sh }
}

/// The IDs a unit and its cargo take are fresh: unused in the location index, below the next ID, and distinct.
pub open spec fn unit_ids_fresh(u: Unit, locs: Map<u64, Location>, next: u64) -> bool {
    &&& u.id.id < next
    &&& !locs.contains_key(u.id.id)
    &&& forall|k: int| 0 <= k < u.spec_carried().len() ==> {
        let c = #[trigger] u.spec_carried()[k];
        &&& c.id.id < next
        &&& !locs.contains_key(c.id.id)
        &&& c.id != u.id
    }
    &&& forall|k1: int, k2: int|
        0 <= k1 < k2 < u.spec_carried().len() ==> (#[trigger] u.spec_carried()[k1]).id != (#[trigger] u.spec_carried()[k2]).id
}

impl MapData {
    /// Add a top-level unit, and all it carries, to the indices.
    fn index_toplevel_unit(&mut self, unit: &Unit, Ghost(s): Ghost<Seq<TileShape>>, Ghost(i): Ghost<int>)
        requires
            old(self).index_ok(s),
            0 <= i < s.len(),
            s[i].top is None,
            unit.wf(),
            unit.loc == s[i].loc,
            unit_ids_fresh(*unit, old(self).unit_loc_by_id@, old(self).next_unit_id.id),
        ensures
            final(self).index_ok(s.update(i, shape_with_unit(s[i], *unit))),
            final(self).same_but_units(*old(self)),
    {
        let ghost dims = self.tiles.dims;
        let ghost key = unit_key(*unit);
        let ghost keys = unit_keys(unit.spec_carried());
        let ghost old_locs = self.unit_loc_by_id@;
        let ghost sh1 = TileShape { top: Some(key), ..s[i] };
        let ghost s1 = s.update(i, sh1);
        proof {
            assert(s[i].carried.len() == 0);
            lemma_place_top(self.unit_loc_by_id@, self.unit_carrier_by_id@, s, dims, i, key);
            lemma_unit_counts_after(s, i, sh1);
            lemma_unit_count_fits(s1, dims, unit.alignment, unit.type_);
            lemma_same_city_shape(self.city_loc_by_id@, s, dims, i, sh1);
            lemma_city_counts_keep(self.alignment_city_counts@, s, i, sh1);
            assert(sh1.carried == keys.take(0));
        }
        let loc = unit.loc;
        self.unit_loc_by_id.insert(unit.id.id, loc);
        inc_unit_count(&mut self.alignment_unit_type_counts, unit.alignment, unit.type_, Ghost(s), Ghost(s1));
        proof {
            assert forall|ii: int, jj: int| 0 <= ii < s1.len() && 0 <= jj < s1[ii].carried.len() implies (#[trigger] s1[ii].carried[jj]).id.id
                < self.next_unit_id.id by {
                assert(ii != i);
            }
        }
        let carried = unit.carried_units();
        let mut k: usize = 0;
        while k < carried.len()
            invariant
                0 <= i < s.len(),
                k <= carried@.len(),
                carried@.len() == unit.spec_carried().len(),
                forall|j: int| 0 <= j < carried@.len() ==> *carried@[j] == unit.spec_carried()[j],
                keys == unit_keys(unit.spec_carried()),
                unit.wf(),
                unit.loc == s[i].loc,
                unit_ids_fresh(*unit, old_locs, self.next_unit_id.id),
                self.index_ok(s.update(i, TileShape { top: Some(key), carried: keys.take(k as int), ..s[i] })),
                self.same_but_units(*old(self)),
                key == unit_key(*unit),
                loc == unit.loc,
                forall|x: u64| #[trigger] self.unit_loc_by_id@.contains_key(x) <==> (old_locs.contains_key(x) || x == unit.id.id
                    || exists|j: int| 0 <= j < k && (#[trigger] unit.spec_carried()[j]).id.id == x),
            decreases carried@.len() - k,
        {
            let c = carried[k];
            let ghost sk = s.update(i, TileShape { top: Some(key), carried: keys.take(k as int), ..s[i] });
            proof {
                assert(keys.take(k as int + 1) == keys.take(k as int).push(unit_key(*c)));
                assert(!self.unit_loc_by_id@.contains_key(c.id.id)) by {
                    if exists|j: int| 0 <= j < k && (#[trigger] unit.spec_carried()[j]).id.id == c.id.id {
                        let j = choose|j: int| 0 <= j < k && (#[trigger] unit.spec_carried()[j]).id.id == c.id.id;
                        assert(unit.spec_carried()[j].id != unit.spec_carried()[k as int].id);
                    }
                }
                assert(sk[i].carried.len() == k);
                assert(k < 5);
                assert(sk.update(i, TileShape { carried: sk[i].carried.push(unit_key(*c)), ..sk[i] }) == s.update(
                    i,
                    TileShape { top: Some(key), carried: keys.take(k as int + 1), ..s[i] },
                ));
            }
            self.index_carried_unit_piecemeal(c.id, c.alignment, c.type_, unit.id, loc, Ghost(sk), Ghost(i));
            k = k + 1;
        }
        proof {
            assert(keys.take(carried@.len() as int) == keys);
        }
    }

    /// Remove a top-level unit, and all it carries, from the indices.
    fn unindex_toplevel_unit(&mut self, unit: &Unit, Ghost(s): Ghost<Seq<TileShape>>, Ghost(i): Ghost<int>)
        requires
            old(self).index_ok(s),
            0 <= i < s.len(),
            s[i].top == Some(unit_key(*unit)),
            s[i].carried == unit_keys(unit.spec_carried()),
        ensures
            final(self).index_ok(s.update(i, shape_without_unit(s[i]))),
            final(self).same_but_units(*old(self)),
    {
        let ghost dims = self.tiles.dims;
        let ghost keys = unit_keys(unit.spec_carried());
        let carried = unit.carried_units();
        let mut k: usize = 0;
        proof {
            assert(keys.skip(0) == keys);
            assert(s.update(i, TileShape { carried: keys.skip(0), ..s[i] }) == s);
        }
        while k < carried.len()
            invariant
                0 <= i < s.len(),
                k <= carried@.len(),
                carried@.len() == unit.spec_carried().len(),
                forall|j: int| 0 <= j < carried@.len() ==> *carried@[j] == unit.spec_carried()[j],
                keys == unit_keys(unit.spec_carried()),
                s[i].top == Some(unit_key(*unit)),
                self.index_ok(s.update(i, TileShape { carried: keys.skip(k as int), ..s[i] })),
                self.same_but_units(*old(self)),
            decreases carried@.len() - k,
        {
            let c = carried[k];
            let ghost sk = s.update(i, TileShape { carried: keys.skip(k as int), ..s[i] });
            proof {
                assert(keys.skip(k as int).remove(0) == keys.skip(k as int + 1));
                assert(sk[i].carried[0] == unit_key(*c));
                assert(sk.update(i, TileShape { carried: sk[i].carried.remove(0), ..sk[i] }) == s.update(
                    i,
                    TileShape { carried: keys.skip(k as int + 1), ..s[i] },
                ));
            }
            self.unindex_carried_unit(c, Ghost(sk), Ghost(i), Ghost(0));
            k = k + 1;
        }
        let ghost sn = s.update(i, TileShape { carried: keys.skip(carried@.len() as int), ..s[i] });
        let ghost sh2 = shape_without_unit(s[i]);
        proof {
            assert(keys.skip(carried@.len() as int) =~= Seq::<UnitKey>::empty());
            assert(TileShape { top: None, ..sn[i] } == sh2);
            lemma_remove_top(self.unit_loc_by_id@, self.unit_carrier_by_id@, sn, dims, i);
            assert(sn.update(i, TileShape { top: None, ..sn[i] }) =~= s.update(i, sh2));
            lemma_unit_counts_after(sn, i, TileShape { top: None, ..sn[i] });
            lemma_same_city_shape(self.city_loc_by_id@, sn, dims, i, sh2);
            lemma_city_counts_keep(self.alignment_city_counts@, sn, i, sh2);
        }
        self.unit_loc_by_id.remove(&unit.id.id);
        dec_unit_count(&mut self.alignment_unit_type_counts, unit.alignment, unit.type_, Ghost(sn), Ghost(s.update(i, sh2)));
    }

    /// Add a city to the indices.
    fn index_city(&mut self, city: &City, Ghost(s): Ghost<Seq<TileShape>>, Ghost(i): Ghost<int>)
        requires
            old(self).index_ok(s),
            0 <= i < s.len(),
            s[i].city is None,
            city.loc == s[i].loc,
            city.id.id < old(self).next_city_id.id,
            !old(self).city_loc_by_id@.contains_key(city.id.id),
        ensures
            final(self).index_ok(s.update(i, TileShape {
                city: Some(CityKey { id: city.id, alignment: city.alignment }),
                ..s[i]
            })),
            final(self).same_but_cities(*old(self)),
    {
        let ghost dims = self.tiles.dims;
        let ghost sh = TileShape { city: Some(CityKey { id: city.id, alignment: city.alignment }), ..s[i] };
        let ghost s2 = s.update(i, sh);
        proof {
            lemma_place_city(self.city_loc_by_id@, s, dims, i, CityKey { id: city.id, alignment: city.alignment });
            lemma_same_unit_shape(self.unit_loc_by_id@, self.unit_carrier_by_id@, s, dims, i, sh);
            lemma_unit_counts_keep(self.alignment_unit_type_counts@, s, i, sh);
            lemma_city_counts_after(s, i, sh);
            lemma_grid_city_count_bound(s2, city.alignment);
            crate::util::lemma_area_bound(dims.width, dims.height);
        }
        self.city_loc_by_id.insert(city.id.id, city.loc);
        inc_city_count(&mut self.alignment_city_counts, city.alignment, Ghost(s), Ghost(s2));
    }

    /// Remove a city from the indices.
    fn unindex_city(&mut self, city: &City, Ghost(s): Ghost<Seq<TileShape>>, Ghost(i): Ghost<int>)
        requires
            old(self).index_ok(s),
            0 <= i < s.len(),
            s[i].city == Some(CityKey { id: city.id, alignment: city.alignment }),
        ensures
            final(self).index_ok(s.update(i, TileShape { city: None, ..s[i] })),
            final(self).same_but_cities(*old(self)),
            final(self).city_loc_by_id@ == old(self).city_loc_by_id@.remove(city.id.id),
    {
        let ghost dims = self.tiles.dims;
        let ghost sh = TileShape { city: None, ..s[i] };
        let ghost s2 = s.update(i, sh);
        proof {
            lemma_remove_city(self.city_loc_by_id@, s, dims, i);
            lemma_same_unit_shape(self.unit_loc_by_id@, self.unit_carrier_by_id@, s, dims, i, sh);
            lemma_unit_counts_keep(self.alignment_unit_type_counts@, s, i, sh);
            lemma_city_counts_after(s, i, sh);
        }
        self.city_loc_by_id.remove(&city.id.id);
        dec_city_count(&mut self.alignment_city_counts, city.alignment, Ghost(s), Ghost(s2));
    }
}


/// A unit fresh from `Unit::new`.
pub open spec fn is_new_unit(u: Unit, id: UnitID, loc: Location, type_: UnitType, alignment: Alignment, name: Seq<char>) -> bool {
    &&& u.wf()
    &&& u.id == id
    &&& u.loc == loc
    &&& u.type_ == type_
    &&& u.alignment == alignment
    &&& u.hp == type_.spec_max_hp()
    &&& u.max_hp == type_.spec_max_hp()
    &&& u.moves_remaining == type_.spec_movement_per_turn()
    &&& u.name@ == name
    &&& u.orders is None
    &&& u.fuel == type_.spec_fuel()
    &&& u.spec_carried() == Seq::<Unit>::empty()
}

impl MapData {
    /// Put `unit` as the top-level unit of tile `i`, returning what was there.
    fn put_unit(&mut self, i: usize, unit: Option<Unit>) -> (prior: Option<Unit>)
        requires
            i < old(self).tiles.grid@.len(),
        ensures
            prior == old(self).tiles.grid@[i as int].unit,
            final(self).tiles.grid@ == old(self).tiles.grid@.update(i as int, Tile { unit, ..old(self).tiles.grid@[i as int] }),
            final(self).tiles.dims == old(self).tiles.dims,
            final(self).unit_loc_by_id == old(self).unit_loc_by_id,
            final(self).unit_carrier_by_id == old(self).unit_carrier_by_id,
            final(self).city_loc_by_id == old(self).city_loc_by_id,
            final(self).next_unit_id == old(self).next_unit_id,
            final(self).next_city_id == old(self).next_city_id,
            final(self).alignment_city_counts == old(self).alignment_city_counts,
            final(self).alignment_unit_type_counts == old(self).alignment_unit_type_counts,
    {
        let mut u = unit;
        std::mem::swap(&mut self.tiles.grid[i].unit, &mut u);
        u
    }

    /// Put `city` as the city of tile `i`, returning what was there.
    fn put_city(&mut self, i: usize, city: Option<City>) -> (prior: Option<City>)
        requires
            i < old(self).tiles.grid@.len(),
        ensures
            prior == old(self).tiles.grid@[i as int].city,
            final(self).tiles.grid@ == old(self).tiles.grid@.update(i as int, Tile { city, ..old(self).tiles.grid@[i as int] }),
            final(self).tiles.dims == old(self).tiles.dims,
            final(self).unit_loc_by_id == old(self).unit_loc_by_id,
            final(self).unit_carrier_by_id == old(self).unit_carrier_by_id,
            final(self).city_loc_by_id == old(self).city_loc_by_id,
            final(self).next_unit_id == old(self).next_unit_id,
            final(self).next_city_id == old(self).next_city_id,
            final(self).alignment_city_counts == old(self).alignment_city_counts,
            final(self).alignment_unit_type_counts == old(self).alignment_unit_type_counts,
    {
        let mut c = city;
        std::mem::swap(&mut self.tiles.grid[i].city, &mut c);
        c
    }

    /// Set the terrain of the tile at `loc`, returning the prior terrain.
    pub fn set_terrain(&mut self, loc: Location, terrain: Terrain) -> (r: Result<Terrain, GameError>)
        requires
            old(self).wf(),
        ensures
            final(self).wf(),
            final(self).spec_dims() == old(self).spec_dims(),
            !old(self).spec_dims().spec_contains(loc) ==> r == Err::<Terrain, GameError>(GameError::NoTileAtLocation { loc })
                && *final(self) == *old(self),
            old(self).spec_dims().spec_contains(loc) ==> r == Ok::<Terrain, GameError>(old(self).spec_tile(loc).terrain)
                && final(self).spec_tiles() == old(self).spec_tiles().update(
                old(self).spec_dims().spec_index(loc),
                Tile { terrain, ..old(self).spec_tile(loc) },
            ),
            final(self).spec_next_unit_id() == old(self).spec_next_unit_id(),
            final(self).spec_next_city_id() == old(self).spec_next_city_id(),
            final(self).spec_city_counts() == old(self).spec_city_counts(),
            final(self).spec_unit_counts() == old(self).spec_unit_counts(),
    {
        if !self.tiles.dims.contain(loc) {
            return Err(GameError::NoTileAtLocation { loc });
        }
        let i = self.tiles.dims.index(loc);
        let ghost g = self.tiles.grid@;
        let old_terrain = self.tiles.grid[i].terrain;
        let mut t = terrain;
        std::mem::swap(&mut self.tiles.grid[i].terrain, &mut t);
        proof {
            let g2 = self.tiles.grid@;
            assert(g2 == g.update(i as int, Tile { terrain, ..g[i as int] }));
            lemma_shapes_update(g, i as int, g2[i as int]);
            assert(shape(g2[i as int]) == shape(g[i as int]));
            assert(shapes(g2) =~= shapes(g));
            assert forall|j: int| 0 <= j < g2.len() implies #[trigger] tile_ok(g2[j], self.tiles.dims.spec_loc(j)) by {
                assert(tile_ok(g[j], self.tiles.dims.spec_loc(j)));
            }
        }
        Ok(old_terrain)
    }

    /// Create a unit, properly indexed, and return its ID.
    pub fn new_unit(&mut self, loc: Location, type_: UnitType, alignment: Alignment, name: &str) -> (r: Result<UnitID, NewUnitError>)
        requires
            old(self).wf(),
            old(self).spec_next_unit_id().id < u64::MAX,
        ensures
            final(self).wf(),
            final(self).spec_dims() == old(self).spec_dims(),
            final(self).spec_next_city_id() == old(self).spec_next_city_id(),
            !old(self).spec_dims().spec_contains(loc) ==> r == Err::<UnitID, NewUnitError>(
                NewUnitError::OutOfBounds { loc, dims: old(self).spec_dims() },
            ) && *final(self) == *old(self),
            old(self).spec_dims().spec_contains(loc) && old(self).spec_tile(loc).unit is Some ==> (r matches Err(
                NewUnitError::UnitAlreadyPresent { loc: l, prior_unit: p, unit_type_under_production: t },
            ) && l == loc && p@ == old(self).spec_tile(loc).unit->0@ && t == type_) && *final(self) == *old(self),
            old(self).spec_dims().spec_contains(loc) && old(self).spec_tile(loc).unit is None ==> {
                &&& r == Ok::<UnitID, NewUnitError>(old(self).spec_next_unit_id())
                &&& final(self).spec_next_unit_id().id == old(self).spec_next_unit_id().id + 1
                &&& final(self).spec_tile(loc).unit is Some
                &&& is_new_unit(final(self).spec_tile(loc).unit->0, old(self).spec_next_unit_id(), loc, type_, alignment, name@)
                &&& final(self).spec_tiles() == old(self).spec_tiles().update(
                    old(self).spec_dims().spec_index(loc),
                    Tile { unit: final(self).spec_tile(loc).unit, ..old(self).spec_tile(loc) },
                )
                &&& final(self).spec_unit_by_id(old(self).spec_next_unit_id()) == final(self).spec_tile(loc).unit
            },
    {
        if !self.tiles.dims.contain(loc) {
            return Err(NewUnitError::OutOfBounds { loc, dims: self.tiles.dims });
        }
        let i = self.tiles.dims.index(loc);
        proof {
            lemma_index_in_bounds(self.tiles.dims, loc);
            assert(tile_ok(self.tiles.grid@[i as int], self.tiles.dims.spec_loc(i as int)));
        }
        if let Some(ref prior_unit) = self.tiles.grid[i].unit {
            return Err(
                NewUnitError::UnitAlreadyPresent {
                    loc,
                    prior_unit: prior_unit.duplicate(),
                    unit_type_under_production: type_,
                },
            );
        }
        let ghost g = self.tiles.grid@;
        let ghost s = shapes(g);
        let unit_id = self.next_unit_id;
        self.next_unit_id = self.next_unit_id.next();
        let unit = Unit::new(unit_id, loc, type_, alignment, name);
        proof {
            assert(s[i as int] == shape(g[i as int]));
            assert(!self.unit_loc_by_id@.contains_key(unit_id.id)) by {
                if self.unit_loc_by_id@.contains_key(unit_id.id) {
                    let l = self.unit_loc_by_id@[unit_id.id];
                    lemma_index_in_bounds(self.tiles.dims, l);
                    let j = self.tiles.dims.spec_index(l);
                    assert(shape_has(s[j], unit_id.id));
                    if !(s[j].top is Some && s[j].top->0.id.id == unit_id.id) {
                        let jj = choose|jj: int| 0 <= jj < s[j].carried.len() && (#[trigger] s[j].carried[jj]).id.id == unit_id.id;
                    }
                }
            }
        }
        self.index_toplevel_unit(&unit, Ghost(s), Ghost(i as int));
        self.put_unit(i, Some(unit));
        proof {
            let g2 = self.tiles.grid@;
            lemma_shapes_update(g, i as int, g2[i as int]);
            assert(shape(g2[i as int]) == shape_with_unit(s[i as int], unit));
            assert forall|j: int| 0 <= j < g2.len() implies #[trigger] tile_ok(g2[j], self.tiles.dims.spec_loc(j)) by {
                assert(tile_ok(g[j], self.tiles.dims.spec_loc(j)));
            }
            assert(self.tiles.dims.spec_loc(i as int) == loc);
            self.lemma_units_at(i as int);
        }
        Ok(unit_id)
    }
}


/// The location index holds exactly the IDs of the units the shapes hold.
proof fn lemma_locs_iff_shapes(locs: Map<u64, Location>, carriers: Map<u64, u64>, s: Seq<TileShape>, dims: Dims, id: u64)
    requires
        units_indexed(locs, carriers, s, dims),
        shapes_located(s, dims),
    ensures
        locs.contains_key(id) <==> exists|i: int| 0 <= i < s.len() && shape_has(#[trigger] s[i], id),
{
    if locs.contains_key(id) {
        lemma_index_in_bounds(dims, locs[id]);
        let i = dims.spec_index(locs[id]);
        assert(shape_has(s[i], id));
    }
    if exists|i: int| 0 <= i < s.len() && shape_has(#[trigger] s[i], id) {
        let i = choose|i: int| 0 <= i < s.len() && shape_has(#[trigger] s[i], id);
        if !(s[i].top is Some && s[i].top->0.id.id == id) {
            let j = choose|j: int| 0 <= j < s[i].carried.len() && (#[trigger] s[i].carried[j]).id.id == id;
            assert(locs.contains_key(s[i].carried[j].id.id));
        }
    }
}

/// A grid holds a unit exactly when some tile shape does.
proof fn lemma_grid_has_unit_shapes(g: Seq<Tile>, id: UnitID)
    ensures
        grid_has_unit(g, id) <==> exists|i: int| 0 <= i < shapes(g).len() && shape_has(#[trigger] shapes(g)[i], id.id),
{
    let s = shapes(g);
    if grid_has_unit(g, id) {
        let i = choose|i: int| 0 <= i < g.len() && tile_has_unit(#[trigger] g[i], id);
        lemma_tile_has_unit_shape(g[i], id);
        assert(s[i] == shape(g[i]));
    }
    if exists|i: int| 0 <= i < s.len() && shape_has(#[trigger] s[i], id.id) {
        let i = choose|i: int| 0 <= i < s.len() && shape_has(#[trigger] s[i], id.id);
        assert(s[i] == shape(g[i]));
        lemma_tile_has_unit_shape(g[i], id);
        if g[i].unit is None {
            assert(s[i].carried.len() == 0);
        }
    }
}

/// The IDs a unit and its cargo take, absent from the grid.
pub open spec fn unit_ids_absent(g: Seq<Tile>, u: Unit) -> bool {
    &&& !grid_has_unit(g, u.id)
    &&& forall|k: int| 0 <= k < u.spec_carried().len() ==> !grid_has_unit(g, (#[trigger] u.spec_carried()[k]).id)
    &&& forall|k: int| 0 <= k < u.spec_carried().len() ==> (#[trigger] u.spec_carried()[k]).id != u.id
    &&& forall|k1: int, k2: int|
        0 <= k1 < k2 < u.spec_carried().len() ==> (#[trigger] u.spec_carried()[k1]).id != (#[trigger] u.spec_carried()[k2]).id
}

/// Every ID the unit and its cargo take is below `next`.
pub open spec fn unit_ids_below(u: Unit, next: u64) -> bool {
    &&& u.id.id < next
    &&& forall|k: int| 0 <= k < u.spec_carried().len() ==> (#[trigger] u.spec_carried()[k]).id.id < next
}

/// Removing a carried unit keeps a unit well-formed.
proof fn lemma_wf_after_release(u: Unit, u2: Unit, j: int)
    requires
        u.wf(),
        0 <= j < u.spec_carried().len(),
        u2@ == (crate::game::unit::UnitView {
            carrying_space: Some(crate::game::unit::CarryingSpaceView {
                space: u.spec_carried().remove(j),
                ..u@.carrying_space->0
            }),
            ..u@
        }),
        u2.spec_carried() == u.spec_carried().remove(j),
    ensures
        u2.wf(),
{
    assert forall|i: int| 0 <= i < u2.spec_carried().len() implies crate::game::unit::carried_ok(
        #[trigger] u2.spec_carried()[i],
        u2,
    ) by {
        let i0 = if i < j { i } else { i + 1 };
        assert(u2.spec_carried()[i] == u.spec_carried()[i0]);
        assert(crate::game::unit::carried_ok(u.spec_carried()[i0], u));
    }
}

proof fn lemma_unit_keys_remove(s: Seq<Unit>, j: int)
    requires
        0 <= j < s.len(),
    ensures
        unit_keys(s.remove(j)) == unit_keys(s).remove(j),
{
    assert(unit_keys(s.remove(j)) =~= unit_keys(s).remove(j));
}

proof fn lemma_unit_keys_push(s: Seq<Unit>, u: Unit)
    ensures
        unit_keys(s.push(u)) == unit_keys(s).push(unit_key(u)),
{
    assert(unit_keys(s.push(u)) =~= unit_keys(s).push(unit_key(u)));
}

impl MapData {
    /// The grid stays well-formed when one tile changes to another that is fine at its location.
    proof fn lemma_grid_ok_update(g: Seq<Tile>, dims: Dims, i: int, t: Tile)
        requires
            grid_ok(g, dims),
            0 <= i < g.len(),
            tile_ok(t, dims.spec_loc(i)),
        ensures
            grid_ok(g.update(i, t), dims),
    {
        let g2 = g.update(i, t);
        assert forall|j: int| 0 <= j < g2.len() implies #[trigger] tile_ok(g2[j], dims.spec_loc(j)) by {
            if j != i {
                assert(tile_ok(g[j], dims.spec_loc(j)));
            }
        }
    }

    /// Units on the map have IDs below the next one.
    proof fn lemma_unit_id_below(self, id: UnitID)
        requires
            self.wf(),
            grid_has_unit(self.spec_tiles(), id),
        ensures
            id.id < self.next_unit_id.id,
    {
        let g = self.tiles.grid@;
        let s = shapes(g);
        lemma_grid_has_unit_shapes(g, id);
        let i = choose|i: int| 0 <= i < s.len() && shape_has(#[trigger] s[i], id.id);
        if !(s[i].top is Some && s[i].top->0.id.id == id.id) {
            let j = choose|j: int| 0 <= j < s[i].carried.len() && (#[trigger] s[i].carried[j]).id.id == id.id;
        }
    }

    /// Remove the top-level unit at `loc`, if any, and return it.
    pub fn pop_toplevel_unit_by_loc(&mut self, loc: Location) -> (r: Option<Unit>)
        requires
            old(self).wf(),
        ensures
            final(self).wf(),
            final(self).spec_dims() == old(self).spec_dims(),
            final(self).spec_next_unit_id() == old(self).spec_next_unit_id(),
            final(self).spec_next_city_id() == old(self).spec_next_city_id(),
            !old(self).spec_dims().spec_contains(loc) ==> r is None && *final(self) == *old(self),
            old(self).spec_dims().spec_contains(loc) ==> r == old(self).spec_tile(loc).unit && final(self).spec_tiles()
                == old(self).spec_tiles().update(
                old(self).spec_dims().spec_index(loc),
                Tile { unit: None, ..old(self).spec_tile(loc) },
            ),
    {
        if !self.tiles.dims.contain(loc) {
            return None;
        }
        let i = self.tiles.dims.index(loc);
        self.pop_toplevel_unit_at(i)
    }

    /// Remove the top-level unit of tile `i`, if any, and return it.
    fn pop_toplevel_unit_at(&mut self, i: usize) -> (r: Option<Unit>)
        requires
            old(self).wf(),
            i < old(self).spec_tiles().len(),
        ensures
            final(self).wf(),
            final(self).spec_dims() == old(self).spec_dims(),
            final(self).spec_next_unit_id() == old(self).spec_next_unit_id(),
            final(self).spec_next_city_id() == old(self).spec_next_city_id(),
            r == old(self).spec_tiles()[i as int].unit,
            final(self).spec_tiles() == old(self).spec_tiles().update(i as int, Tile { unit: None, ..old(self).spec_tiles()[i as int] }),
            r is None ==> *final(self) == *old(self),
    {
        if self.tiles.grid[i].unit.is_none() {
            return None;
        }
        let ghost g = self.tiles.grid@;
        let ghost s = shapes(g);
        let popped = self.put_unit(i, None);
        let unit = popped.unwrap();
        proof {
            assert(s[i as int] == shape(g[i as int]));
        }
        self.unindex_toplevel_unit(&unit, Ghost(s), Ghost(i as int));
        proof {
            let g2 = self.tiles.grid@;
            lemma_shapes_update(g, i as int, g2[i as int]);
            assert(unit_keys(Seq::<Unit>::empty()) =~= Seq::<UnitKey>::empty());
            assert(shape(g2[i as int]) == shape_without_unit(s[i as int]));
            assert(tile_ok(g[i as int], self.tiles.dims.spec_loc(i as int)));
            Self::lemma_grid_ok_update(g, self.tiles.dims, i as int, g2[i as int]);
        }
        Some(unit)
    }

    /// Remove the top-level unit at `loc` if it has ID `id`.
    fn pop_toplevel_unit_by_loc_and_id(&mut self, loc: Location, id: UnitID) -> (r: Option<Unit>)
        requires
            old(self).wf(),
        ensures
            final(self).wf(),
            final(self).spec_dims() == old(self).spec_dims(),
            final(self).spec_next_unit_id() == old(self).spec_next_unit_id(),
            final(self).spec_next_city_id() == old(self).spec_next_city_id(),
            (old(self).spec_dims().spec_contains(loc) && top_has_id(old(self).spec_tile(loc), id))
                ==> r == old(self).spec_tile(loc).unit && final(self).spec_tiles() == old(self).spec_tiles().update(
                old(self).spec_dims().spec_index(loc),
                Tile { unit: None, ..old(self).spec_tile(loc) },
            ),
            !(old(self).spec_dims().spec_contains(loc) && top_has_id(old(self).spec_tile(loc), id))
                ==> r is None && *final(self) == *old(self),
    {
        if !self.tiles.dims.contain(loc) {
            return None;
        }
        let i = self.tiles.dims.index(loc);
        let matches_id = match &self.tiles.grid[i].unit {
            Some(unit) => unit.id == id,
            None => false,
        };
        if matches_id {
            self.pop_toplevel_unit_at(i)
        } else {
            None
        }
    }

    /// Remove the top-level unit with ID `id`, if there is one, and return it.
    pub fn pop_toplevel_unit_by_id(&mut self, id: UnitID) -> (r: Option<Unit>)
        requires
            old(self).wf(),
        ensures
            final(self).wf(),
            final(self).spec_dims() == old(self).spec_dims(),
            final(self).spec_next_unit_id() == old(self).spec_next_unit_id(),
            final(self).spec_next_city_id() == old(self).spec_next_city_id(),
            r matches Some(u) ==> exists|i: int|
                0 <= i < old(self).spec_tiles().len() && old(self).spec_tiles()[i].unit == Some(u) && u.id == id
                    && final(self).spec_tiles() == old(self).spec_tiles().update(
                    i,
                    Tile { unit: None, ..old(self).spec_tiles()[i] },
                ),
            r is None ==> *final(self) == *old(self) && forall|i: int|
                0 <= i < old(self).spec_tiles().len() ==> !top_has_id(#[trigger] old(self).spec_tiles()[i], id),
    {
        proof {
            self.lemma_unit_lookup(id);
            assert forall|i: int| 0 <= i < old(self).spec_tiles().len() && top_has_id(#[trigger] old(self).spec_tiles()[i], id) implies self.unit_loc_by_id@.contains_key(id.id)
                && self.tiles.dims.spec_index(self.unit_loc_by_id@[id.id]) == i by {
                self.lemma_unit_located(i, id);
            }
        }
        match self.unit_loc_by_id.get(&id.id) {
            Some(loc) => {
                let loc = *loc;
                let r = self.pop_toplevel_unit_by_loc_and_id(loc, id);
                proof {
                    lemma_index_in_bounds(old(self).tiles.dims, loc);
                    let i = old(self).tiles.dims.spec_index(loc);
                    if r is Some {
                        assert(old(self).spec_tiles()[i].unit == r);
                    }
                }
                r
            },
            None => None,
        }
    }
}


/// `t2` is `t` with the `j`th unit carried by its unit released.
pub open spec fn tile_released(t: Tile, t2: Tile, j: int) -> bool {
    &&& t2.terrain == t.terrain
    &&& t2.city == t.city
    &&& t2.loc == t.loc
    &&& t.unit is Some
    &&& t2.unit is Some
    &&& 0 <= j < t.unit->0.spec_carried().len()
    &&& t2.unit->0@ == (crate::game::unit::UnitView {
        carrying_space: Some(crate::game::unit::CarryingSpaceView {
            space: t.unit->0.spec_carried().remove(j),
            ..t.unit->0@.carrying_space->0
        }),
        ..t.unit->0@
    })
    &&& t2.unit->0.spec_carried() == t.unit->0.spec_carried().remove(j)
}

/// `g2` is `g` with the unit of the given ID taken away, from the top of its tile or from its carrier.
pub open spec fn grid_without_unit(g: Seq<Tile>, g2: Seq<Tile>, id: UnitID) -> bool {
    &&& g2.len() == g.len()
    &&& exists|i: int| {
        &&& 0 <= i < g.len()
        &&& forall|k: int| 0 <= k < g.len() && k != i ==> #[trigger] g2[k] == g[k]
        &&& {
            ||| (top_has_id(#[trigger] g[i], id) && g2[i] == Tile { unit: None, ..g[i] })
            ||| exists|j: int| 0 <= j < tile_carried(g[i]).len() && (#[trigger] tile_carried(g[i])[j]).id == id && tile_released(
                g[i],
                g2[i],
                j,
            )
        }
    }
}

proof fn lemma_grid_without_carried(g: Seq<Tile>, g2: Seq<Tile>, i: int, j: int, id: UnitID)
    requires
        0 <= i < g.len(),
        g2 == g.update(i, g2[i]),
        tile_released(g[i], g2[i], j),
        tile_carried(g[i])[j].id == id,
    ensures
        grid_without_unit(g, g2, id),
{
    assert(forall|k: int| 0 <= k < g.len() && k != i ==> #[trigger] g2[k] == g[k]);
}

proof fn lemma_grid_without_top(g: Seq<Tile>, g2: Seq<Tile>, i: int, id: UnitID)
    requires
        0 <= i < g.len(),
        g2 == g.update(i, Tile { unit: None, ..g[i] }),
        top_has_id(g[i], id),
    ensures
        grid_without_unit(g, g2, id),
{
    assert(forall|k: int| 0 <= k < g.len() && k != i ==> #[trigger] g2[k] == g[k]);
}

impl MapData {
    /// The unit with a given ID found on tile `i` of a well-formed map is the map's unit with that ID.
    proof fn lemma_grid_unit_at(self, g: Seq<Tile>, i: int, id: UnitID)
        requires
            self.wf(),
            g == self.spec_tiles(),
            0 <= i < g.len(),
            tile_has_unit(g[i], id),
        ensures
            grid_unit(g, id) == Some(tile_unit(g[i], id)),
    {
        let i2 = choose|i2: int| 0 <= i2 < g.len() && tile_has_unit(#[trigger] g[i2], id);
        self.lemma_unit_located(i2, id);
        self.lemma_unit_located(i, id);
    }

    /// Release the carried unit with ID `id` from the top-level unit of tile `i`.
    #[verifier::loop_isolation(false)]
    fn pop_carried_unit_at(&mut self, i: usize, id: UnitID) -> (r: Option<Unit>)
        requires
            old(self).wf(),
            i < old(self).spec_tiles().len(),
            old(self).spec_tiles()[i as int].unit is Some,
        ensures
            final(self).wf(),
            final(self).spec_dims() == old(self).spec_dims(),
            final(self).spec_next_unit_id() == old(self).spec_next_unit_id(),
            final(self).spec_next_city_id() == old(self).spec_next_city_id(),
            r is None ==> *final(self) == *old(self) && forall|j: int|
                0 <= j < tile_carried(old(self).spec_tiles()[i as int]).len() ==> (#[trigger] tile_carried(
                    old(self).spec_tiles()[i as int],
                )[j]).id != id,
            r matches Some(u) ==> exists|j: int|
                0 <= j < tile_carried(old(self).spec_tiles()[i as int]).len() && tile_carried(old(self).spec_tiles()[i as int])[j]
                    == u && u.id == id && tile_released(old(self).spec_tiles()[i as int], final(self).spec_tiles()[i as int], j)
                    && final(self).spec_tiles() == old(self).spec_tiles().update(i as int, final(self).spec_tiles()[i as int]),
    {
        let ghost g = self.tiles.grid@;
        let ghost s = shapes(g);
        let mut found = false;
        {
            let carrier = self.tiles.grid[i].unit.as_ref().unwrap();
            let carried = carrier.carried_units();
            let mut k: usize = 0;
            while k < carried.len()
                invariant
                    k <= carried@.len(),
                    carried@.len() == carrier.spec_carried().len(),
                    forall|j: int| 0 <= j < carried@.len() ==> *carried@[j] == carrier.spec_carried()[j],
                    !found ==> forall|j: int| 0 <= j < k ==> (#[trigger] carrier.spec_carried()[j]).id != id,
                    found ==> exists|j: int| 0 <= j < carrier.spec_carried().len() && (#[trigger] carrier.spec_carried()[j]).id == id,
                decreases carried@.len() - k,
            {
                if carried[k].id == id {
                    found = true;
                }
                k = k + 1;
            }
        }
        if !found {
            return None;
        }
        let mut carrier = self.put_unit(i, None).unwrap();
        let ghost old_carrier = carrier;
        let released = carrier.release_by_id(id);
        let c = released.unwrap();
        let ghost j = choose|j: int|
            0 <= j < old_carrier.spec_carried().len() && old_carrier.spec_carried()[j] == c && c.id == id && carrier@ == (
            crate::game::unit::UnitView {
                carrying_space: Some(crate::game::unit::CarryingSpaceView {
                    space: old_carrier.spec_carried().remove(j),
                    ..old_carrier@.carrying_space->0
                }),
                ..old_carrier@
            }) && carrier.spec_carried() == old_carrier.spec_carried().remove(j);
        self.put_unit(i, Some(carrier));
        proof {
            let u = g[i as int].unit->0;
            assert(s[i as int] == shape(g[i as int]));
            assert(s[i as int].carried[j] == unit_key(c));
            lemma_unit_keys_remove(u.spec_carried(), j);
        }
        self.unindex_carried_unit(&c, Ghost(s), Ghost(i as int), Ghost(j));
        proof {
            let g2 = self.tiles.grid@;
            let u = g[i as int].unit->0;
            lemma_shapes_update(g, i as int, g2[i as int]);
            assert(shape(g2[i as int]) == TileShape { carried: s[i as int].carried.remove(j), ..s[i as int] });
            assert(tile_ok(g[i as int], self.tiles.dims.spec_loc(i as int)));
            assert(g2 =~= g.update(i as int, Tile { unit: Some(carrier), ..g[i as int] }));
            lemma_wf_after_release(u, carrier, j);
            assert(tile_ok(g2[i as int], self.tiles.dims.spec_loc(i as int)));
            Self::lemma_grid_ok_update(g, self.tiles.dims, i as int, g2[i as int]);
            assert(grid_ok(g2, self.tiles.dims));
            assert(shapes(g2) == s.update(i as int, TileShape { carried: s[i as int].carried.remove(j), ..s[i as int] }));
            assert(tile_released(g[i as int], g2[i as int], j));
        }
        Some(c)
    }

    /// Remove the carried unit with ID `id`, if there is one, and return it.
    pub fn pop_carried_unit_by_id(&mut self, carried_unit_id: UnitID) -> (r: Option<Unit>)
        requires
            old(self).wf(),
        ensures
            final(self).wf(),
            final(self).spec_dims() == old(self).spec_dims(),
            final(self).spec_next_unit_id() == old(self).spec_next_unit_id(),
            final(self).spec_next_city_id() == old(self).spec_next_city_id(),
            r matches Some(u) ==> u.id == carried_unit_id && old(self).spec_unit_by_id(carried_unit_id) == Some(u)
                && grid_without_unit(old(self).spec_tiles(), final(self).spec_tiles(), carried_unit_id),
            r is None ==> *final(self) == *old(self),
            r is None ==> forall|i: int, j: int|
                0 <= i < old(self).spec_tiles().len() && 0 <= j < tile_carried(old(self).spec_tiles()[i]).len() ==> (
                #[trigger] tile_carried(old(self).spec_tiles()[i])[j]).id != carried_unit_id,
    {
        proof {
            self.lemma_unit_lookup(carried_unit_id);
        }
        match self.unit_loc_by_id.get(&carried_unit_id.id) {
            Some(loc) => {
                let loc = *loc;
                let i = self.tiles.dims.index(loc);
                proof {
                    lemma_index_in_bounds(self.tiles.dims, loc);
                }
                let ghost g = self.tiles.grid@;
                proof {
                    assert forall|k: int, j: int|
                        0 <= k < g.len() && 0 <= j < tile_carried(g[k]).len() && (#[trigger] tile_carried(g[k])[j]).id
                            == carried_unit_id implies k == i by {
                        assert(tile_has_unit(g[k], carried_unit_id)) by {
                            assert(g[k].unit->0.spec_carried()[j].id == carried_unit_id);
                        }
                        self.lemma_unit_located(k, carried_unit_id);
                    }
                    self.lemma_carried_distinct(i as int);
                }
                let r = self.pop_carried_unit_at(i, carried_unit_id);
                proof {
                    if r is Some {
                        let u = r->0;
                        let j = choose|j: int|
                            0 <= j < tile_carried(g[i as int]).len() && tile_carried(g[i as int])[j] == u && u.id
                                == carried_unit_id && tile_released(g[i as int], self.tiles.grid@[i as int], j);
                        assert(tile_carried(g[i as int])[j].id == carried_unit_id);
                        lemma_grid_without_carried(g, self.tiles.grid@, i as int, j, carried_unit_id);
                        assert(tile_unit(g[i as int], carried_unit_id) == u) by {
                            assert(g[i as int].unit->0.id != carried_unit_id) by {
                                assert(old(self).unit_carrier_by_id@.contains_key(carried_unit_id.id)) by {
                                    assert(shapes(g)[i as int] == shape(g[i as int]));
                                    assert(shapes(g)[i as int].carried[j].id == carried_unit_id);
                                }
                                assert(shapes(g)[i as int] == shape(g[i as int]));
                            }
                            let k = choose|k: int| 0 <= k < g[i as int].unit->0.spec_carried().len()
                                && (#[trigger] g[i as int].unit->0.spec_carried()[k]).id == carried_unit_id;
                            if k != j {
                                assert(tile_carried(g[i as int])[k].id != tile_carried(g[i as int])[j].id);
                            }
                        }
                        assert(tile_has_unit(g[i as int], carried_unit_id)) by {
                            assert(g[i as int].unit->0.spec_carried()[j].id == carried_unit_id);
                        }
                    }
                }
                r
            },
            None => None,
        }
    }
}


/// `t2` is `t` with the `j`th unit carried by its unit replaced by `c2`.
pub open spec fn tile_carried_replaced(t: Tile, t2: Tile, j: int, c2: Unit) -> bool {
    &&& t2.terrain == t.terrain
    &&& t2.city == t.city
    &&& t2.loc == t.loc
    &&& t.unit is Some
    &&& t2.unit is Some
    &&& 0 <= j < t.unit->0.spec_carried().len()
    &&& t2.unit->0.spec_carried() == t.unit->0.spec_carried().update(j, c2)
    &&& t2.unit->0@ == (crate::game::unit::UnitView {
        carrying_space: Some(crate::game::unit::CarryingSpaceView {
            space: t2.unit->0.spec_carried(),
            ..t.unit->0@.carrying_space->0
        }),
        ..t.unit->0@
    })
}

/// `g2` is `g` with the unit of the given ID, top-level or carried, replaced by `u2` where it stands.
pub open spec fn grid_unit_replaced(g: Seq<Tile>, g2: Seq<Tile>, id: UnitID, u2: Unit) -> bool {
    &&& g2.len() == g.len()
    &&& exists|i: int| {
        &&& 0 <= i < g.len()
        &&& forall|k: int| 0 <= k < g.len() && k != i ==> #[trigger] g2[k] == g[k]
        &&& {
            ||| (top_has_id(#[trigger] g[i], id) && g2[i] == Tile { unit: Some(u2), ..g[i] })
            ||| exists|j: int| 0 <= j < tile_carried(g[i]).len() && (#[trigger] tile_carried(g[i])[j]).id == id
                && tile_carried_replaced(g[i], g2[i], j, u2)
        }
    }
}

impl MapData {
    /// Apply an edit to the unit with ID `id`, top-level or carried, in place.
    fn edit_unit(&mut self, id: UnitID, edit: &UnitEdit) -> (r: Option<UnitEditOutcome>)
        requires
            old(self).wf(),
        ensures
            final(self).wf(),
            final(self).spec_dims() == old(self).spec_dims(),
            final(self).spec_next_unit_id() == old(self).spec_next_unit_id(),
            final(self).spec_next_city_id() == old(self).spec_next_city_id(),
            final(self).spec_city_counts() == old(self).spec_city_counts(),
            final(self).spec_unit_counts() == old(self).spec_unit_counts(),
            r is None ==> old(self).spec_unit_by_id(id) is None && *final(self) == *old(self),
            r matches Some(o) ==> (old(self).spec_unit_by_id(id) matches Some(u) && o == u.spec_edit_outcome(*edit)
                && (final(self).spec_unit_by_id(id) matches Some(u2) && u.edited(u2, *edit)
                && grid_unit_replaced(old(self).spec_tiles(), final(self).spec_tiles(), id, u2))),
    {
        proof {
            self.lemma_unit_lookup(id);
        }
        let loc = match self.unit_loc_by_id.get(&id.id) {
            Some(loc) => *loc,
            None => return None,
        };
        let i = self.tiles.dims.index(loc);
        let ghost g = self.tiles.grid@;
        let ghost s = shapes(g);
        let ghost dims = self.tiles.dims;
        proof {
            lemma_index_in_bounds(dims, loc);
            assert(s[i as int] == shape(g[i as int]));
            assert(tile_ok(g[i as int], dims.spec_loc(i as int)));
            self.lemma_carried_distinct(i as int);
        }
        let mut carrier = self.put_unit(i, None).unwrap();
        let ghost u0 = carrier;
        let r;
        if carrier.id == id {
            r = carrier.edit(edit);
            proof {
                lemma_edit_keeps(u0, carrier, *edit);
                assert(unit_keys(carrier.spec_carried()) =~= unit_keys(u0.spec_carried()));
            }
        } else {
            let k = carrier.carried_index(id).unwrap();
            r = carrier.edit_carried(k, edit);
            proof {
                let c0 = u0.spec_carried()[k as int];
                let c2 = carrier.spec_carried()[k as int];
                lemma_edit_keeps(c0, c2, *edit);
                assert(unit_keys(carrier.spec_carried()) =~= unit_keys(u0.spec_carried()));
                assert(carried_ok(c0, u0));
                assert forall|j: int| 0 <= j < carrier.spec_carried().len() implies carried_ok(
                    #[trigger] carrier.spec_carried()[j],
                    carrier,
                ) by {
                    assert(carried_ok(u0.spec_carried()[j], u0));
                }
            }
        }
        self.put_unit(i, Some(carrier));
        proof {
            let g2 = self.tiles.grid@;
            lemma_shapes_update(g, i as int, g2[i as int]);
            assert(shape(g2[i as int]) == shape(g[i as int]));
            assert(shapes(g2) =~= s);
            Self::lemma_grid_ok_update(g, dims, i as int, g2[i as int]);
            assert(g2 == g.update(i as int, g2[i as int]));
            let u = tile_unit(g[i as int], id);
            assert(old(self).spec_unit_by_id(id) == Some(u));
            self.lemma_carried_distinct(i as int);
            if u0.id == id {
                assert(top_has_id(g[i as int], id));
                assert(forall|k: int| 0 <= k < g.len() && k != i ==> #[trigger] g2[k] == g[k]);
                assert(tile_has_unit(g2[i as int], id));
                self.lemma_grid_unit_at(g2, i as int, id);
            } else {
                let k = choose|k: int| 0 <= k < u0.spec_carried().len() && u0.spec_carried()[k].id == id
                    && carrier.spec_carried() == u0.spec_carried().update(k, carrier.spec_carried()[k]);
                let kk = choose|kk: int| 0 <= kk < u0.spec_carried().len() && (#[trigger] u0.spec_carried()[kk]).id == id;
                if kk != k {
                    assert(tile_carried(g[i as int])[kk].id != tile_carried(g[i as int])[k].id);
                }
                assert(u == u0.spec_carried()[k]);
                assert(tile_carried_replaced(g[i as int], g2[i as int], k, carrier.spec_carried()[k]));
                assert(forall|kx: int| 0 <= kx < g.len() && kx != i ==> #[trigger] g2[kx] == g[kx]);
                assert(tile_carried(g[i as int])[k].id == id);
                assert(tile_has_unit(g2[i as int], id)) by {
                    assert(g2[i as int].unit->0.spec_carried()[k].id == id);
                }
                self.lemma_grid_unit_at(g2, i as int, id);
                let k2 = choose|k2: int| 0 <= k2 < carrier.spec_carried().len() && (#[trigger] carrier.spec_carried()[k2]).id == id;
                if k2 != k {
                    assert(tile_carried(g2[i as int])[k2].id != tile_carried(g2[i as int])[k].id);
                }
            }
        }
        Some(r)
    }
}


impl MapData {
    /// The map's dimensions, next IDs and counts are those of `other`.
    pub open spec fn same_frame(self, other: MapData) -> bool {
        &&& self.spec_dims() == other.spec_dims()
        &&& self.spec_next_unit_id() == other.spec_next_unit_id()
        &&& self.spec_next_city_id() == other.spec_next_city_id()
        &&& self.spec_city_counts() == other.spec_city_counts()
        &&& self.spec_unit_counts() == other.spec_unit_counts()
    }

    /// `m2` is this map with the city at `loc` set to produce `production`; nothing else differs.
    pub open spec fn production_set_at(self, m2: MapData, loc: Location, production: UnitType) -> bool {
        m2.spec_tiles() == self.spec_tiles().update(
            self.spec_dims().spec_index(loc),
            Tile {
                city: Some(City { production: Some(production), ..self.spec_city_by_loc(loc)->0 }),
                ..self.spec_tile(loc)
            },
        )
    }

    /// `m2` is this map with the city of ID `city_id` set to produce `production`; nothing else differs.
    pub open spec fn production_set_for(self, m2: MapData, city_id: CityID, production: UnitType) -> bool {
        exists|i: int|
            0 <= i < self.spec_tiles().len() && tile_has_city(self.spec_tiles()[i], city_id) && m2.spec_tiles()
                == self.spec_tiles().update(
                i,
                Tile {
                    city: Some(City { production: Some(production), ..self.spec_city_by_id(city_id)->0 }),
                    ..self.spec_tiles()[i]
                },
            )
    }

    /// `m2` is this map with the unit of ID `id` edited in place; nothing else differs.
    pub open spec fn unit_edited(self, m2: MapData, id: UnitID, edit: UnitEdit) -> bool {
        &&& m2.same_frame(self)
        &&& self.spec_unit_by_id(id) matches Some(u)
        &&& m2.spec_unit_by_id(id) matches Some(u2)
        &&& u.edited(u2, edit)
        &&& grid_unit_replaced(self.spec_tiles(), m2.spec_tiles(), id, u2)
    }

    /// Does the unit with ID `id` exist and belong to the player?
    pub open spec fn spec_is_player_unit(self, player: PlayerNum, id: UnitID) -> bool {
        self.spec_unit_by_id(id) matches Some(u) && u.alignment == (Alignment::Belligerent { player })
    }

    /// Use up all of the unit's moves for this turn.
    pub fn mark_unit_movement_complete(&mut self, id: UnitID) -> (r: Result<(), GameError>)
        requires
            old(self).wf(),
        ensures
            final(self).wf(),
            old(self).spec_unit_by_id(id) is None ==> r == Err::<(), GameError>(GameError::NoSuchUnit { id })
                && *final(self) == *old(self),
            old(self).spec_unit_by_id(id) is Some ==> r == Ok::<(), GameError>(()) && old(self).unit_edited(
                *final(self),
                id,
                UnitEdit::CompleteMovement,
            ),
    {
        match self.edit_unit(id, &UnitEdit::CompleteMovement) {
            Some(_) => Ok(()),
            None => Err(GameError::NoSuchUnit { id }),
        }
    }

    /// Spend `moves` of the unit's movement, and fuel if it has limited fuel; returns the moves left.
    pub fn record_unit_movement(&mut self, id: UnitID, moves: u16) -> (r: Result<u16, GameError>)
        requires
            old(self).wf(),
        ensures
            final(self).wf(),
            r == match old(self).spec_unit_by_id(id) {
                Some(u) => u.spec_record_movement(moves),
                None => Err(GameError::NoSuchUnit { id }),
            },
            old(self).spec_unit_by_id(id) is None ==> *final(self) == *old(self),
            old(self).spec_unit_by_id(id) is Some ==> old(self).unit_edited(
                *final(self),
                id,
                UnitEdit::RecordMovement { moves },
            ),
    {
        match self.edit_unit(id, &UnitEdit::RecordMovement { moves }) {
            Some(UnitEditOutcome::Movement(r)) => r,
            _ => Err(GameError::NoSuchUnit { id }),
        }
    }

    /// Give the unit standing orders; returns its prior orders.
    pub fn set_unit_orders(&mut self, unit_id: UnitID, orders: Orders) -> (r: Result<Option<Orders>, GameError>)
        requires
            old(self).wf(),
        ensures
            final(self).wf(),
            r == match old(self).spec_unit_by_id(unit_id) {
                Some(u) => Ok(u.orders),
                None => Err(GameError::NoSuchUnit { id: unit_id }),
            },
            old(self).spec_unit_by_id(unit_id) is None ==> *final(self) == *old(self),
            old(self).spec_unit_by_id(unit_id) is Some ==> old(self).unit_edited(
                *final(self),
                unit_id,
                UnitEdit::SetOrders { orders },
            ),
    {
        match self.edit_unit(unit_id, &UnitEdit::SetOrders { orders }) {
            Some(UnitEditOutcome::PriorOrders(prior)) => Ok(prior),
            _ => Err(GameError::NoSuchUnit { id: unit_id }),
        }
    }

    /// Give the player's unit standing orders; returns its prior orders.
    pub fn set_player_unit_orders(&mut self, player: PlayerNum, unit_id: UnitID, orders: Orders) -> (r: Result<
        Option<Orders>,
        GameError,
    >)
        requires
            old(self).wf(),
        ensures
            final(self).wf(),
            !old(self).spec_is_player_unit(player, unit_id) ==> r == Err::<Option<Orders>, GameError>(
                GameError::NoSuchUnit { id: unit_id },
            ) && *final(self) == *old(self),
            old(self).spec_is_player_unit(player, unit_id) ==> r == Ok::<Option<Orders>, GameError>(
                old(self).spec_unit_by_id(unit_id)->0.orders,
            ) && old(self).unit_edited(*final(self), unit_id, UnitEdit::SetOrders { orders }),
    {
        if self.player_unit_by_id(player, unit_id).is_none() {
            return Err(GameError::NoSuchUnit { id: unit_id });
        }
        self.set_unit_orders(unit_id, orders)
    }

    /// Clear the standing orders of the player's unit; returns its prior orders.
    pub fn clear_player_unit_orders(&mut self, player: PlayerNum, unit_id: UnitID) -> (r: Result<
        Option<Orders>,
        GameError,
    >)
        requires
            old(self).wf(),
        ensures
            final(self).wf(),
            !old(self).spec_is_player_unit(player, unit_id) ==> r == Err::<Option<Orders>, GameError>(
                GameError::NoSuchUnit { id: unit_id },
            ) && *final(self) == *old(self),
            old(self).spec_is_player_unit(player, unit_id) ==> r == Ok::<Option<Orders>, GameError>(
                old(self).spec_unit_by_id(unit_id)->0.orders,
            ) && old(self).unit_edited(*final(self), unit_id, UnitEdit::ClearOrders),
    {
        if self.player_unit_by_id(player, unit_id).is_none() {
            return Err(GameError::NoSuchUnit { id: unit_id });
        }
        match self.edit_unit(unit_id, &UnitEdit::ClearOrders) {
            Some(UnitEditOutcome::PriorOrders(prior)) => Ok(prior),
            _ => Err(GameError::NoSuchUnit { id: unit_id }),
        }
    }

    /// Clear the orders of the player's unit and of all it carries.
    pub fn activate_player_unit(&mut self, player: PlayerNum, unit_id: UnitID) -> (r: Result<(), GameError>)
        requires
            old(self).wf(),
        ensures
            final(self).wf(),
            !old(self).spec_is_player_unit(player, unit_id) ==> r == Err::<(), GameError>(
                GameError::NoSuchUnit { id: unit_id },
            ) && *final(self) == *old(self),
            old(self).spec_is_player_unit(player, unit_id) ==> r == Ok::<(), GameError>(()) && old(self).unit_edited(
                *final(self),
                unit_id,
                UnitEdit::Activate,
            ),
    {
        if self.player_unit_by_id(player, unit_id).is_none() {
            return Err(GameError::NoSuchUnit { id: unit_id });
        }
        match self.edit_unit(unit_id, &UnitEdit::Activate) {
            Some(_) => Ok(()),
            None => Err(GameError::NoSuchUnit { id: unit_id }),
        }
    }
}


impl MapData {
    /// A unit ID is found on one tile at most.
    proof fn lemma_unit_on_one_tile(self, i: int, k: int, id: UnitID)
        requires
            self.wf(),
            0 <= i < self.spec_tiles().len(),
            0 <= k < self.spec_tiles().len(),
            tile_has_unit(self.spec_tiles()[i], id),
            tile_has_unit(self.spec_tiles()[k], id),
        ensures
            i == k,
    {
        self.lemma_unit_located(i, id);
        self.lemma_unit_located(k, id);
    }

    /// A tile's top-level unit is not among the units it carries.
    proof fn lemma_top_not_carried(self, i: int)
        requires
            self.wf(),
            0 <= i < self.spec_tiles().len(),
            self.spec_tiles()[i].unit is Some,
        ensures
            forall|j: int| 0 <= j < tile_carried(self.spec_tiles()[i]).len() ==> (#[trigger] tile_carried(
                self.spec_tiles()[i],
            )[j]).id != self.spec_tiles()[i].unit->0.id,
    {
        let g = self.tiles.grid@;
        let s = shapes(g);
        assert(s[i] == shape(g[i]));
        assert forall|j: int| 0 <= j < tile_carried(g[i]).len() implies (#[trigger] tile_carried(g[i])[j]).id
            != g[i].unit->0.id by {
            assert(s[i].carried[j].id == tile_carried(g[i])[j].id);
        }
    }

    /// The unit with ID `id` found on tile `i`, when that tile's top-level unit has another ID, is the carried one.
    proof fn lemma_carried_unit_at(self, i: int, j: int, id: UnitID)
        requires
            self.wf(),
            0 <= i < self.spec_tiles().len(),
            0 <= j < tile_carried(self.spec_tiles()[i]).len(),
            tile_carried(self.spec_tiles()[i])[j].id == id,
        ensures
            tile_has_unit(self.spec_tiles()[i], id),
            self.spec_tiles()[i].unit->0.id != id,
            tile_unit(self.spec_tiles()[i], id) == tile_carried(self.spec_tiles()[i])[j],
            self.spec_unit_by_id(id) == Some(tile_carried(self.spec_tiles()[i])[j]),
    {
        let g = self.tiles.grid@;
        self.lemma_top_not_carried(i);
        self.lemma_carried_distinct(i);
        let u = g[i].unit->0;
        assert(u.spec_carried()[j].id == id);
        let k = choose|k: int| 0 <= k < u.spec_carried().len() && (#[trigger] u.spec_carried()[k]).id == id;
        if k != j {
            assert(tile_carried(g[i])[k].id != tile_carried(g[i])[j].id);
        }
        self.lemma_grid_unit_at(g, i, id);
    }

    /// What was taken off a well-formed map leaves no trace of its IDs, which lie below the next one.
    proof fn lemma_without_unit_absent(self, g1: Seq<Tile>, id: UnitID, u: Unit)
        requires
            self.wf(),
            self.spec_unit_by_id(id) == Some(u),
            grid_without_unit(self.spec_tiles(), g1, id),
        ensures
            unit_ids_absent(g1, u),
            unit_ids_below(u, self.spec_next_unit_id().id),
            u.wf(),
            u.id == id,
    {
        let g = self.tiles.grid@;
        let i = choose|i: int| {
            &&& 0 <= i < g.len()
            &&& forall|k: int| 0 <= k < g.len() && k != i ==> #[trigger] g1[k] == g[k]
            &&& {
                ||| (top_has_id(#[trigger] g[i], id) && g1[i] == Tile { unit: None, ..g[i] })
                ||| exists|j: int| 0 <= j < tile_carried(g[i]).len() && (#[trigger] tile_carried(g[i])[j]).id == id
                    && tile_released(g[i], g1[i], j)
            }
        };
        assert(tile_ok(g[i], self.tiles.dims.spec_loc(i)));
        self.lemma_carried_distinct(i);
        self.lemma_top_not_carried(i);
        if top_has_id(g[i], id) && g1[i] == (Tile { unit: None, ..g[i] }) {
            assert(tile_has_unit(g[i], id));
            self.lemma_grid_unit_at(g, i, id);
            assert(u == g[i].unit->0);
            assert forall|x: UnitID| tile_has_unit(g[i], x) implies !grid_has_unit(g1, x) by {
                if grid_has_unit(g1, x) {
                    let k = choose|k: int| 0 <= k < g1.len() && tile_has_unit(#[trigger] g1[k], x);
                    assert(k != i);
                    assert(g1[k] == g[k]);
                    self.lemma_unit_on_one_tile(i, k, x);
                }
            }
            assert(tile_has_unit(g[i], u.id));
            assert forall|k: int| 0 <= k < u.spec_carried().len() implies !grid_has_unit(g1, (#[trigger] u.spec_carried()[k]).id)
                && u.spec_carried()[k].id.id < self.next_unit_id.id by {
                assert(tile_has_unit(g[i], u.spec_carried()[k].id));
                self.lemma_unit_id_below(u.spec_carried()[k].id);
                assert(tile_carried(g[i])[k] == u.spec_carried()[k]);
            }
            assert forall|k1: int, k2: int| 0 <= k1 < k2 < u.spec_carried().len() implies (#[trigger] u.spec_carried()[k1]).id
                != (#[trigger] u.spec_carried()[k2]).id by {
                assert(tile_carried(g[i])[k1] == u.spec_carried()[k1]);
                assert(tile_carried(g[i])[k2] == u.spec_carried()[k2]);
            }
            assert forall|k: int| 0 <= k < u.spec_carried().len() implies (#[trigger] u.spec_carried()[k]).id != u.id by {
                assert(tile_carried(g[i])[k] == u.spec_carried()[k]);
            }
            self.lemma_unit_id_below(id);
        } else {
            let j = choose|j: int| 0 <= j < tile_carried(g[i]).len() && (#[trigger] tile_carried(g[i])[j]).id == id
                && tile_released(g[i], g1[i], j);
            self.lemma_carried_unit_at(i, j, id);
            let carrier = g[i].unit->0;
            assert(crate::game::unit::carried_ok(carrier.spec_carried()[j], carrier));
            assert(u == carrier.spec_carried()[j]);
            assert(u.spec_carried() =~= Seq::<Unit>::empty());
            if grid_has_unit(g1, id) {
                let k = choose|k: int| 0 <= k < g1.len() && tile_has_unit(#[trigger] g1[k], id);
                if k != i {
                    assert(g1[k] == g[k]);
                    self.lemma_unit_on_one_tile(i, k, id);
                } else {
                    let c2 = g1[i].unit->0;
                    assert(c2.id == carrier.id);
                    let m = choose|m: int| 0 <= m < c2.spec_carried().len() && (#[trigger] c2.spec_carried()[m]).id == id;
                    let m0 = if m < j { m } else { m + 1 };
                    assert(c2.spec_carried()[m] == carrier.spec_carried()[m0]);
                    if m0 < j {
                        assert(tile_carried(g[i])[m0].id != tile_carried(g[i])[j].id);
                    } else {
                        assert(tile_carried(g[i])[j].id != tile_carried(g[i])[m0].id);
                    }
                }
            }
            self.lemma_unit_id_below(id);
        }
    }

    /// Remove the unit with ID `id` from the tile at `loc`, whether top-level or carried there, and return it.
    pub fn pop_unit_by_loc_and_id(&mut self, loc: Location, id: UnitID) -> (r: Option<Unit>)
        requires
            old(self).wf(),
            old(self).spec_dims().spec_contains(loc),
            old(self).spec_tile(loc).unit is Some,
        ensures
            final(self).wf(),
            final(self).spec_dims() == old(self).spec_dims(),
            final(self).spec_next_unit_id() == old(self).spec_next_unit_id(),
            final(self).spec_next_city_id() == old(self).spec_next_city_id(),
            r is None ==> *final(self) == *old(self) && !tile_has_unit(old(self).spec_tile(loc), id),
            r matches Some(u) ==> tile_has_unit(old(self).spec_tile(loc), id) && u == tile_unit(old(self).spec_tile(loc), id)
                && old(self).spec_unit_by_id(id) == Some(u) && grid_without_unit(
                old(self).spec_tiles(),
                final(self).spec_tiles(),
                id,
            ),
    {
        let ghost m0 = *self;
        let i = self.tiles.dims.index(loc);
        proof {
            lemma_index_in_bounds(self.tiles.dims, loc);
        }
        let top_matches = self.tiles.grid[i].unit.as_ref().unwrap().id == id;
        if top_matches {
            let r = self.pop_toplevel_unit_at(i);
            proof {
                let g = m0.tiles.grid@;
                assert(tile_has_unit(g[i as int], id));
                m0.lemma_grid_unit_at(g, i as int, id);
                lemma_grid_without_top(g, self.tiles.grid@, i as int, id);
            }
            r
        } else {
            let r = self.pop_carried_unit_at(i, id);
            proof {
                let g = m0.tiles.grid@;
                if r is Some {
                    let u = r->0;
                    let j = choose|j: int|
                        0 <= j < tile_carried(g[i as int]).len() && tile_carried(g[i as int])[j] == u && u.id == id
                            && tile_released(g[i as int], self.tiles.grid@[i as int], j);
                    m0.lemma_carried_unit_at(i as int, j, id);
                    lemma_grid_without_carried(g, self.tiles.grid@, i as int, j, id);
                }
            }
            r
        }
    }

    /// Remove the unit with ID `id`, top-level or carried, and return it.
    pub fn pop_unit_by_id(&mut self, id: UnitID) -> (r: Option<Unit>)
        requires
            old(self).wf(),
        ensures
            final(self).wf(),
            final(self).spec_dims() == old(self).spec_dims(),
            final(self).spec_next_unit_id() == old(self).spec_next_unit_id(),
            final(self).spec_next_city_id() == old(self).spec_next_city_id(),
            r is None ==> *final(self) == *old(self) && old(self).spec_unit_by_id(id) is None,
            r matches Some(u) ==> old(self).spec_unit_by_id(id) == Some(u) && grid_without_unit(
                old(self).spec_tiles(),
                final(self).spec_tiles(),
                id,
            ),
            r matches Some(u) ==> unit_ids_absent(final(self).spec_tiles(), u) && unit_ids_below(
                u,
                final(self).spec_next_unit_id().id,
            ) && u.wf() && u.id == id,
            final(self).spec_unit_by_id(id) is None,
    {
        let ghost m0 = *self;
        let ghost g = self.tiles.grid@;
        match self.pop_toplevel_unit_by_id(id) {
            Some(u) => {
                proof {
                    let i = choose|i: int|
                        0 <= i < g.len() && g[i].unit == Some(u) && u.id == id && self.tiles.grid@ == g.update(
                            i,
                            Tile { unit: None, ..g[i] },
                        );
                    assert(tile_has_unit(g[i], id));
                    m0.lemma_grid_unit_at(g, i, id);
                    lemma_grid_without_top(g, self.tiles.grid@, i, id);
                    m0.lemma_without_unit_absent(self.tiles.grid@, id, u);
                }
                Some(u)
            },
            None => {
                let r = self.pop_carried_unit_by_id(id);
                proof {
                    if r is Some {
                        m0.lemma_without_unit_absent(self.tiles.grid@, id, r->0);
                    } else {
                        if grid_has_unit(g, id) {
                            let i = choose|i: int| 0 <= i < g.len() && tile_has_unit(#[trigger] g[i], id);
                            if !top_has_id(g[i], id) {
                                let k = choose|k: int| 0 <= k < g[i].unit->0.spec_carried().len()
                                    && (#[trigger] g[i].unit->0.spec_carried()[k]).id == id;
                                assert(tile_carried(g[i])[k].id == id);
                            }
                        }
                    }
                }
                r
            },
        }
    }

    /// Remove the unit with ID `id` if it belongs to the given player, and return it.
    pub fn pop_player_unit_by_id(&mut self, player: PlayerNum, id: UnitID) -> (r: Option<Unit>)
        requires
            old(self).wf(),
        ensures
            final(self).wf(),
            final(self).spec_dims() == old(self).spec_dims(),
            final(self).spec_next_unit_id() == old(self).spec_next_unit_id(),
            final(self).spec_next_city_id() == old(self).spec_next_city_id(),
            !old(self).spec_is_player_unit(player, id) ==> r is None && *final(self) == *old(self),
            old(self).spec_is_player_unit(player, id) ==> r == old(self).spec_unit_by_id(id) && grid_without_unit(
                old(self).spec_tiles(),
                final(self).spec_tiles(),
                id,
            ),
    {
        if self.player_unit_by_id(player, id).is_some() {
            self.pop_unit_by_id(id)
        } else {
            None
        }
    }
}


impl MapData {
    /// IDs absent from a grid stay absent when a tile loses its unit.
    proof fn lemma_absent_after_clearing(g: Seq<Tile>, i: int, u: Unit)
        requires
            0 <= i < g.len(),
            unit_ids_absent(g, u),
        ensures
            unit_ids_absent(g.update(i, Tile { unit: None, ..g[i] }), u),
    {
        let g1 = g.update(i, Tile { unit: None, ..g[i] });
        assert forall|x: UnitID| !grid_has_unit(g, x) implies !grid_has_unit(g1, x) by {
            if grid_has_unit(g1, x) {
                let k = choose|k: int| 0 <= k < g1.len() && tile_has_unit(#[trigger] g1[k], x);
                assert(g1[k] == g[k]);
            }
        }
    }

    /// The units a well-formed map holds at tile `i`: its top-level unit and each one that unit carries.
    proof fn lemma_units_at(self, i: int)
        requires
            self.wf(),
            0 <= i < self.spec_tiles().len(),
            self.spec_tiles()[i].unit is Some,
        ensures
            self.spec_unit_by_id(self.spec_tiles()[i].unit->0.id) == self.spec_tiles()[i].unit,
            forall|k: int| 0 <= k < tile_carried(self.spec_tiles()[i]).len() ==> self.spec_unit_by_id(
                (#[trigger] tile_carried(self.spec_tiles()[i])[k]).id,
            ) == Some(tile_carried(self.spec_tiles()[i])[k]),
    {
        let g = self.spec_tiles();
        let u = g[i].unit->0;
        assert(tile_has_unit(g[i], u.id));
        self.lemma_grid_unit_at(g, i, u.id);
        assert forall|k: int| 0 <= k < tile_carried(g[i]).len() implies self.spec_unit_by_id(
            (#[trigger] tile_carried(g[i])[k]).id,
        ) == Some(tile_carried(g[i])[k]) by {
            self.lemma_carried_unit_at(i, k, tile_carried(g[i])[k].id);
        }
    }

    /// Make `unit`, moved to `loc` with all it carries, the top-level unit there; returns the unit it replaces.
    pub fn set_unit(&mut self, loc: Location, unit: Unit) -> (r: Option<Unit>)
        requires
            old(self).wf(),
            old(self).spec_dims().spec_contains(loc),
            unit.wf(),
            unit_ids_absent(old(self).spec_tiles(), unit),
            unit_ids_below(unit, old(self).spec_next_unit_id().id),
        ensures
            final(self).wf(),
            final(self).spec_dims() == old(self).spec_dims(),
            final(self).spec_next_unit_id() == old(self).spec_next_unit_id(),
            final(self).spec_next_city_id() == old(self).spec_next_city_id(),
            r == old(self).spec_tile(loc).unit,
            final(self).spec_tile(loc).unit matches Some(u2) && unit.moved_to(u2, loc) && final(self).spec_tiles()
                == old(self).spec_tiles().update(
                old(self).spec_dims().spec_index(loc),
                Tile { unit: Some(u2), ..old(self).spec_tile(loc) },
            ),
            final(self).spec_unit_by_id(unit.id) == final(self).spec_tile(loc).unit,
            forall|k: int| 0 <= k < unit.spec_carried().len() ==> final(self).spec_unit_by_id(
                (#[trigger] unit.spec_carried()[k]).id,
            ) == Some(final(self).spec_tile(loc).unit->0.spec_carried()[k]),
    {
        let ghost dims = self.tiles.dims;
        let ghost g0 = self.tiles.grid@;
        let mut unit = unit;
        let ghost u0 = unit;
        unit.set_loc(loc);
        proof {
            lemma_moved_keeps(u0, unit, loc);
            lemma_index_in_bounds(dims, loc);
        }
        let i = self.tiles.dims.index(loc);
        let old_unit = self.pop_toplevel_unit_at(i);
        let ghost g = self.tiles.grid@;
        let ghost s = shapes(g);
        proof {
            Self::lemma_absent_after_clearing(g0, i as int, u0);
            assert(g == g0.update(i as int, Tile { unit: None, ..g0[i as int] }));
            assert(s[i as int] == shape(g[i as int]));
            self.lemma_unit_lookup(unit.id);
            assert forall|k: int| 0 <= k < unit.spec_carried().len() implies !self.unit_loc_by_id@.contains_key(
                (#[trigger] unit.spec_carried()[k]).id.id,
            ) by {
                self.lemma_unit_lookup(unit.spec_carried()[k].id);
                assert(unit.spec_carried()[k].id == u0.spec_carried()[k].id);
            }
            assert(tile_ok(g[i as int], dims.spec_loc(i as int)));
            lemma_loc_of_index(dims, i as int);
        }
        self.index_toplevel_unit(&unit, Ghost(s), Ghost(i as int));
        self.put_unit(i, Some(unit));
        proof {
            let g2 = self.tiles.grid@;
            lemma_shapes_update(g, i as int, g2[i as int]);
            assert(shape(g2[i as int]) == shape_with_unit(s[i as int], unit));
            Self::lemma_grid_ok_update(g, dims, i as int, g2[i as int]);
            assert(g2 =~= g0.update(i as int, Tile { unit: Some(unit), ..g0[i as int] }));
            self.lemma_units_at(i as int);
            assert forall|k: int| 0 <= k < u0.spec_carried().len() implies #[trigger] u0.spec_carried()[k].id
                == tile_carried(g2[i as int])[k].id by {
            }
        }
        old_unit
    }

    /// Move the unit with ID `id`, from wherever it is, to `dest`; returns the top-level unit it replaces there.
    ///
    /// Nothing is checked of whether such a move makes sense.
    pub fn relocate_unit_by_id(&mut self, id: UnitID, dest: Location) -> (r: Result<Option<Unit>, GameError>)
        requires
            old(self).wf(),
            old(self).spec_unit_by_id(id) is Some ==> old(self).spec_dims().spec_contains(dest),
        ensures
            final(self).wf(),
            final(self).spec_dims() == old(self).spec_dims(),
            final(self).spec_next_unit_id() == old(self).spec_next_unit_id(),
            final(self).spec_next_city_id() == old(self).spec_next_city_id(),
            old(self).spec_unit_by_id(id) is None ==> r == Err::<Option<Unit>, GameError>(GameError::NoSuchUnit { id })
                && *final(self) == *old(self),
            old(self).spec_unit_by_id(id) matches Some(u) ==> exists|g1: Seq<Tile>| {
                &&& grid_without_unit(old(self).spec_tiles(), g1, id)
                &&& r == Ok::<Option<Unit>, GameError>(g1[old(self).spec_dims().spec_index(dest)].unit)
                &&& final(self).spec_tile(dest).unit matches Some(u2)
                &&& u.moved_to(u2, dest)
                &&& final(self).spec_tiles() == g1.update(
                    old(self).spec_dims().spec_index(dest),
                    Tile { unit: Some(u2), ..g1[old(self).spec_dims().spec_index(dest)] },
                )
                &&& final(self).spec_unit_by_id(id) == Some(u2)
                &&& forall|k: int| 0 <= k < u.spec_carried().len() ==> final(self).spec_unit_by_id(
                    (#[trigger] u.spec_carried()[k]).id,
                ) == Some(u2.spec_carried()[k])
            },
    {
        let unit = match self.pop_unit_by_id(id) {
            Some(unit) => unit,
            None => return Err(GameError::NoSuchUnit { id }),
        };
        let ghost g1 = self.tiles.grid@;
        let r = self.set_unit(dest, unit);
        proof {
            let u2 = self.spec_tile(dest).unit->0;
            assert(grid_without_unit(old(self).spec_tiles(), g1, id));
        }
        Ok(r)
    }
}


impl MapData {
    /// The city at `loc`, if `loc` is on the map and has one.
    pub open spec fn spec_city_by_loc(self, loc: Location) -> Option<City> {
        if self.spec_dims().spec_contains(loc) {
            self.spec_tile(loc).city
        } else {
            None
        }
    }

    /// Apply an edit to the city on tile `i`, if there is one; returns its prior production.
    fn edit_city_at(&mut self, i: usize, edit: &CityEdit) -> (r: Option<Option<UnitType>>)
        requires
            old(self).wf(),
            i < old(self).spec_tiles().len(),
        ensures
            final(self).wf(),
            final(self).same_frame(*old(self)),
            old(self).spec_tiles()[i as int].city is None ==> r is None && *final(self) == *old(self),
            old(self).spec_tiles()[i as int].city matches Some(c) ==> r == Some(c.production) && (final(self).spec_tiles()[i as int].city matches Some(c2) && c.edited(c2, *edit)) && final(self).spec_tiles()
                == old(self).spec_tiles().update(i as int, Tile { city: final(self).spec_tiles()[i as int].city, ..old(self).spec_tiles()[i as int] }),
    {
        if self.tiles.grid[i].city.is_none() {
            return None;
        }
        let ghost g = self.tiles.grid@;
        let mut city = self.put_city(i, None).unwrap();
        let prior = city.edit(edit);
        self.put_city(i, Some(city));
        proof {
            let g2 = self.tiles.grid@;
            lemma_shapes_update(g, i as int, g2[i as int]);
            assert(shape(g2[i as int]) == shape(g[i as int]));
            assert(shapes(g2) =~= shapes(g));
            assert(tile_ok(g[i as int], self.tiles.dims.spec_loc(i as int)));
            Self::lemma_grid_ok_update(g, self.tiles.dims, i as int, g2[i as int]);
            assert(g2 =~= g.update(i as int, Tile { city: Some(city), ..g[i as int] }));
        }
        Some(prior)
    }

    /// Where the city with ID `id` stands, if there is such a city.
    fn city_index_by_id_if_any(&self, id: CityID) -> (r: Option<usize>)
        requires
            self.wf(),
        ensures
            r matches Some(i) ==> i < self.spec_tiles().len() && tile_has_city(self.spec_tiles()[i as int], id)
                && self.spec_city_by_id(id) == self.spec_tiles()[i as int].city,
            r is None ==> self.spec_city_by_id(id) is None,
    {
        match self.city_loc_by_id.get(&id.id) {
            Some(_) => {
                proof {
                    let g = self.tiles.grid@;
                    let dims = self.tiles.dims;
                    let loc = self.city_loc_by_id@[id.id];
                    lemma_index_in_bounds(dims, loc);
                    let j = dims.spec_index(loc);
                    assert(shapes(g)[j] == shape(g[j]));
                    assert(tile_has_city(g[j], id));
                }
                Some(self.city_index_by_id(id))
            },
            None => {
                proof {
                    let g = self.tiles.grid@;
                    if exists|i: int| 0 <= i < g.len() && tile_has_city(#[trigger] g[i], id) {
                        let i = choose|i: int| 0 <= i < g.len() && tile_has_city(#[trigger] g[i], id);
                        assert(shapes(g)[i] == shape(g[i]));
                    }
                }
                None
            },
        }
    }

    /// Where the city with ID `id`, which must exist, stands.
    fn city_index_by_id(&self, id: CityID) -> (i: usize)
        requires
            self.wf(),
            self.spec_city_by_id(id) is Some,
        ensures
            i < self.spec_tiles().len(),
            tile_has_city(self.spec_tiles()[i as int], id),
            self.spec_city_by_id(id) == self.spec_tiles()[i as int].city,
    {
        let ghost g = self.tiles.grid@;
        let ghost dims = self.tiles.dims;
        proof {
            let i = choose|i: int| 0 <= i < g.len() && tile_has_city(#[trigger] g[i], id);
            assert(shapes(g)[i] == shape(g[i]));
            assert(tile_ok(g[i], dims.spec_loc(i)));
            lemma_loc_of_index(dims, i);
        }
        let loc = *self.city_loc_by_id.get(&id.id).unwrap();
        proof {
            lemma_index_in_bounds(dims, loc);
            assert(shapes(g)[dims.spec_index(loc)] == shape(g[dims.spec_index(loc)]));
            let i = choose|i: int| 0 <= i < g.len() && tile_has_city(#[trigger] g[i], id);
            assert(shapes(g)[i] == shape(g[i]));
            assert(tile_ok(g[i], dims.spec_loc(i)));
            lemma_loc_of_index(dims, i);
        }
        self.tiles.dims.index(loc)
    }

    /// Give the city on tile `i`, if any, the alignment `alignment`.
    fn set_city_alignment_at(&mut self, i: usize, alignment: Alignment) -> (r: bool)
        requires
            old(self).wf(),
            i < old(self).spec_tiles().len(),
        ensures
            final(self).wf(),
            final(self).spec_dims() == old(self).spec_dims(),
            final(self).spec_next_unit_id() == old(self).spec_next_unit_id(),
            final(self).spec_next_city_id() == old(self).spec_next_city_id(),
            r == old(self).spec_tiles()[i as int].city is Some,
            !r ==> *final(self) == *old(self),
            old(self).spec_tiles()[i as int].city matches Some(c) ==> final(self).spec_tiles() == old(self).spec_tiles().update(
                i as int,
                Tile { city: Some(City { alignment, ..c }), ..old(self).spec_tiles()[i as int] },
            ),
    {
        if self.tiles.grid[i].city.is_none() {
            return false;
        }
        let ghost g = self.tiles.grid@;
        let ghost s = shapes(g);
        let ghost dims = self.tiles.dims;
        let mut city = self.put_city(i, None).unwrap();
        proof {
            assert(s[i as int] == shape(g[i as int]));
            assert(tile_ok(g[i as int], dims.spec_loc(i as int)));
            lemma_loc_of_index(dims, i as int);
        }
        self.unindex_city(&city, Ghost(s), Ghost(i as int));
        city.alignment = alignment;
        let ghost s1 = s.update(i as int, TileShape { city: None, ..s[i as int] });
        self.index_city(&city, Ghost(s1), Ghost(i as int));
        self.put_city(i, Some(city));
        proof {
            let g2 = self.tiles.grid@;
            lemma_shapes_update(g, i as int, g2[i as int]);
            assert(shapes(g2) =~= s1.update(
                i as int,
                TileShape { city: Some(CityKey { id: city.id, alignment: city.alignment }), ..s1[i as int] },
            ));
            Self::lemma_grid_ok_update(g, dims, i as int, g2[i as int]);
        }
        true
    }

    /// Set the production progress of the city at `loc` to nothing.
    pub fn clear_city_production_progress_by_loc(&mut self, loc: Location) -> (r: Result<(), GameError>)
        requires
            old(self).wf(),
        ensures
            final(self).wf(),
            final(self).same_frame(*old(self)),
            old(self).spec_city_by_loc(loc) is None ==> r == Err::<(), GameError>(GameError::NoCityAtLocation { loc })
                && *final(self) == *old(self),
            old(self).spec_city_by_loc(loc) matches Some(c) ==> r == Ok::<(), GameError>(()) && final(self).spec_tiles()
                == old(self).spec_tiles().update(
                old(self).spec_dims().spec_index(loc),
                Tile { city: Some(City { production_progress: 0, ..c }), ..old(self).spec_tile(loc) },
            ),
    {
        if !self.tiles.dims.contain(loc) {
            return Err(GameError::NoCityAtLocation { loc });
        }
        let i = self.tiles.dims.index(loc);
        match self.edit_city_at(i, &CityEdit::ClearProductionProgress) {
            Some(_) => Ok(()),
            None => Err(GameError::NoCityAtLocation { loc }),
        }
    }

    /// Set the production progress of the city with ID `id`, which must exist, to nothing.
    pub fn clear_city_production_progress_by_id(&mut self, id: CityID) -> (r: Result<(), GameError>)
        requires
            old(self).wf(),
            old(self).spec_city_by_id(id) is Some,
        ensures
            final(self).wf(),
            final(self).same_frame(*old(self)),
            r == Ok::<(), GameError>(()),
            exists|i: int| 0 <= i < old(self).spec_tiles().len() && tile_has_city(old(self).spec_tiles()[i], id)
                && final(self).spec_tiles() == old(self).spec_tiles().update(
                i,
                Tile {
                    city: Some(City { production_progress: 0, ..old(self).spec_city_by_id(id)->0 }),
                    ..old(self).spec_tiles()[i]
                },
            ),
    {
        let i = self.city_index_by_id(id);
        self.edit_city_at(i, &CityEdit::ClearProductionProgress);
        Ok(())
    }

    /// Clear the production of the city at `loc`, choosing whether to skip it later; returns its prior production.
    pub fn clear_city_production_by_loc(&mut self, loc: Location, ignore_cleared_production: bool) -> (r: Result<
        Option<UnitType>,
        GameError,
    >)
        requires
            old(self).wf(),
        ensures
            final(self).wf(),
            final(self).same_frame(*old(self)),
            old(self).spec_city_by_loc(loc) is None ==> r == Err::<Option<UnitType>, GameError>(
                GameError::NoCityAtLocation { loc },
            ) && *final(self) == *old(self),
            old(self).spec_city_by_loc(loc) matches Some(c) ==> r == Ok::<Option<UnitType>, GameError>(c.production)
                && final(self).spec_tiles() == old(self).spec_tiles().update(
                old(self).spec_dims().spec_index(loc),
                Tile { city: Some(City { production: None, ignore_cleared_production, ..c }), ..old(self).spec_tile(loc) },
            ),
    {
        if !self.tiles.dims.contain(loc) {
            return Err(GameError::NoCityAtLocation { loc });
        }
        let i = self.tiles.dims.index(loc);
        match self.edit_city_at(i, &CityEdit::ClearProduction { ignore_cleared_production }) {
            Some(prior) => Ok(prior),
            None => Err(GameError::NoCityAtLocation { loc }),
        }
    }

    /// Set the production of the city at `loc`; returns its prior production.
    pub fn set_city_production_by_loc(&mut self, loc: Location, production: UnitType) -> (r: Result<
        Option<UnitType>,
        GameError,
    >)
        requires
            old(self).wf(),
        ensures
            final(self).wf(),
            final(self).same_frame(*old(self)),
            old(self).spec_city_by_loc(loc) is None ==> r == Err::<Option<UnitType>, GameError>(
                GameError::NoCityAtLocation { loc },
            ) && *final(self) == *old(self),
            old(self).spec_city_by_loc(loc) matches Some(c) ==> r == Ok::<Option<UnitType>, GameError>(c.production)
                && final(self).spec_tiles() == old(self).spec_tiles().update(
                old(self).spec_dims().spec_index(loc),
                Tile { city: Some(City { production: Some(production), ..c }), ..old(self).spec_tile(loc) },
            ),
    {
        if !self.tiles.dims.contain(loc) {
            return Err(GameError::NoCityAtLocation { loc });
        }
        let i = self.tiles.dims.index(loc);
        match self.edit_city_at(i, &CityEdit::SetProduction { production }) {
            Some(prior) => Ok(prior),
            None => Err(GameError::NoCityAtLocation { loc }),
        }
    }

    /// Set the production of the player's city at `loc`; returns its prior production.
    pub fn set_player_city_production_by_loc(&mut self, player: PlayerNum, loc: Location, production: UnitType) -> (r:
        Result<Option<UnitType>, GameError>)
        requires
            old(self).wf(),
        ensures
            final(self).wf(),
            final(self).same_frame(*old(self)),
            !(old(self).spec_city_by_loc(loc) matches Some(c) && c.alignment == (Alignment::Belligerent { player }))
                ==> r == Err::<Option<UnitType>, GameError>(GameError::NoCityAtLocation { loc }) && *final(self)
                == *old(self),
            (old(self).spec_city_by_loc(loc) matches Some(c) && c.alignment == (Alignment::Belligerent { player }))
                ==> r == Ok::<Option<UnitType>, GameError>(old(self).spec_city_by_loc(loc)->0.production)
                && old(self).production_set_at(*final(self), loc, production),
    {
        if self.player_city_by_loc(player, loc).is_none() {
            return Err(GameError::NoCityAtLocation { loc });
        }
        self.set_city_production_by_loc(loc, production)
    }

    /// Set the production of the player's city with ID `city_id`; returns its prior production. An error if there
    /// is no such city, or if it is not the player's.
    pub fn set_player_city_production_by_id(&mut self, player: PlayerNum, city_id: CityID, production: UnitType) -> (r:
        Result<Option<UnitType>, GameError>)
        requires
            old(self).wf(),
        ensures
            final(self).wf(),
            final(self).same_frame(*old(self)),
            old(self).spec_city_by_id(city_id) is None ==> r == Err::<Option<UnitType>, GameError>(
                GameError::NoSuchCity { id: city_id },
            ) && *final(self) == *old(self),
            match old(self).spec_city_by_id(city_id) {
                Some(c) => if c.alignment != (Alignment::Belligerent { player }) {
                    r == Err::<Option<UnitType>, GameError>(GameError::NoCityAtLocation { loc: c.loc }) && *final(self)
                        == *old(self)
                } else {
                    r == Ok::<Option<UnitType>, GameError>(c.production) && old(self).production_set_for(
                        *final(self),
                        city_id,
                        production,
                    )
                },
                None => true,
            },
    {
        let i = match self.city_index_by_id_if_any(city_id) {
            Some(i) => i,
            None => {
                return Err(GameError::NoSuchCity { id: city_id });
            },
        };
        if !self.tiles.grid[i].city.as_ref().unwrap().belongs_to_player(player) {
            return Err(GameError::NoCityAtLocation { loc: self.tiles.grid[i].city.as_ref().unwrap().loc });
        }
        match self.edit_city_at(i, &CityEdit::SetProduction { production }) {
            Some(prior) => Ok(prior),
            None => Err(GameError::NoSuchCity { id: city_id }),
        }
    }

    /// Give the city at `loc` the alignment `alignment`.
    pub fn set_city_alignment_by_loc(&mut self, loc: Location, alignment: Alignment) -> (r: Result<(), GameError>)
        requires
            old(self).wf(),
        ensures
            final(self).wf(),
            final(self).spec_dims() == old(self).spec_dims(),
            final(self).spec_next_unit_id() == old(self).spec_next_unit_id(),
            final(self).spec_next_city_id() == old(self).spec_next_city_id(),
            old(self).spec_city_by_loc(loc) is None ==> r == Err::<(), GameError>(GameError::NoCityAtLocation { loc })
                && *final(self) == *old(self),
            old(self).spec_city_by_loc(loc) matches Some(c) ==> r == Ok::<(), GameError>(()) && final(self).spec_tiles()
                == old(self).spec_tiles().update(
                old(self).spec_dims().spec_index(loc),
                Tile { city: Some(City { alignment, ..c }), ..old(self).spec_tile(loc) },
            ),
    {
        if !self.tiles.dims.contain(loc) {
            return Err(GameError::NoCityAtLocation { loc });
        }
        let i = self.tiles.dims.index(loc);
        if self.set_city_alignment_at(i, alignment) {
            Ok(())
        } else {
            Err(GameError::NoCityAtLocation { loc })
        }
    }
}


/// What `City::new` makes of the given values.
pub open spec fn is_new_city(c: City, id: CityID, alignment: Alignment, loc: Location, name: Seq<char>) -> bool {
    &&& c.id == id
    &&& c.alignment == alignment
    &&& c.loc == loc
    &&& c.hp == crate::game::city::CITY_MAX_HP
    &&& c.production is None
    &&& c.production_progress == 0
    &&& c.name@ == name
    &&& !c.ignore_cleared_production
}

impl MapData {
    /// City IDs in use lie below the next one.
    proof fn lemma_city_id_fresh(self)
        requires
            self.wf(),
        ensures
            !self.city_loc_by_id@.contains_key(self.next_city_id.id),
    {
        let g = self.tiles.grid@;
        let s = shapes(g);
        let dims = self.tiles.dims;
        if self.city_loc_by_id@.contains_key(self.next_city_id.id) {
            lemma_index_in_bounds(dims, self.city_loc_by_id@[self.next_city_id.id]);
        }
    }

    /// Found a city at `loc`, properly indexed, and return it.
    pub fn new_city(&mut self, loc: Location, alignment: Alignment, name: &str) -> (r: Result<&City, String>)
        requires
            old(self).wf(),
            old(self).spec_next_city_id().id < u64::MAX,
        ensures
            final(self).wf(),
            final(self).spec_dims() == old(self).spec_dims(),
            final(self).spec_next_unit_id() == old(self).spec_next_unit_id(),
            !old(self).spec_dims().spec_contains(loc) ==> (r matches Err(e) && e@ == "Attempted to create city at location "@
                + loc.spec_description() + " which is out of bounds "@ + old(self).spec_dims().spec_description())
                && *final(self) == *old(self),
            old(self).spec_dims().spec_contains(loc) && old(self).spec_tile(loc).city is Some ==> (r matches Err(e) && e@
                == "Attempted to create city at location "@ + loc.spec_description() + ", but city "@
                + old(self).spec_tile(loc).city->0.spec_description() + " is already there"@) && *final(self) == *old(self),
            old(self).spec_dims().spec_contains(loc) && old(self).spec_tile(loc).city is None ==> {
                &&& r matches Ok(c) && is_new_city(*c, old(self).spec_next_city_id(), alignment, loc, name@)
                &&& final(self).spec_next_city_id().id == old(self).spec_next_city_id().id + 1
                &&& final(self).spec_tiles() == old(self).spec_tiles().update(
                    old(self).spec_dims().spec_index(loc),
                    Tile { city: Some(*r->Ok_0), ..old(self).spec_tile(loc) },
                )
            },
    {
        if !self.tiles.dims.contain(loc) {
            let mut e = String::from_str("Attempted to create city at location ");
            let l = loc.description();
            e.append(l.as_str());
            e.append(" which is out of bounds ");
            let d = self.tiles.dims.description();
            e.append(d.as_str());
            return Err(e);
        }
        let i = self.tiles.dims.index(loc);
        proof {
            lemma_index_in_bounds(self.tiles.dims, loc);
        }
        if let Some(ref prior_city) = self.tiles.grid[i].city {
            let mut e = String::from_str("Attempted to create city at location ");
            let l = loc.description();
            e.append(l.as_str());
            e.append(", but city ");
            let c = prior_city.description();
            e.append(c.as_str());
            e.append(" is already there");
            return Err(e);
        }
        let ghost g = self.tiles.grid@;
        let ghost s = shapes(g);
        let ghost dims = self.tiles.dims;
        proof {
            self.lemma_city_id_fresh();
            assert(s[i as int] == shape(g[i as int]));
            assert(tile_ok(g[i as int], dims.spec_loc(i as int)));
            lemma_loc_of_index(dims, i as int);
        }
        let city_id = self.next_city_id;
        self.next_city_id = self.next_city_id.next();
        let city = City::new(city_id, alignment, loc, name);
        self.index_city(&city, Ghost(s), Ghost(i as int));
        self.put_city(i, Some(city));
        proof {
            let g2 = self.tiles.grid@;
            lemma_shapes_update(g, i as int, g2[i as int]);
            Self::lemma_grid_ok_update(g, dims, i as int, g2[i as int]);
        }
        Ok(self.tiles.grid[i].city.as_ref().unwrap())
    }

    /// Remove the city at `loc`, if any, and return it.
    pub fn pop_city_by_loc(&mut self, loc: Location) -> (r: Option<City>)
        requires
            old(self).wf(),
        ensures
            final(self).wf(),
            final(self).spec_dims() == old(self).spec_dims(),
            final(self).spec_next_unit_id() == old(self).spec_next_unit_id(),
            final(self).spec_next_city_id() == old(self).spec_next_city_id(),
            r == old(self).spec_city_by_loc(loc),
            r is None ==> *final(self) == *old(self),
            r is Some ==> final(self).spec_tiles() == old(self).spec_tiles().update(
                old(self).spec_dims().spec_index(loc),
                Tile { city: None, ..old(self).spec_tile(loc) },
            ),
    {
        if !self.tiles.dims.contain(loc) {
            return None;
        }
        let i = self.tiles.dims.index(loc);
        if self.tiles.grid[i].city.is_none() {
            return None;
        }
        let ghost g = self.tiles.grid@;
        let ghost s = shapes(g);
        let ghost dims = self.tiles.dims;
        let city = self.put_city(i, None).unwrap();
        proof {
            assert(s[i as int] == shape(g[i as int]));
        }
        self.unindex_city(&city, Ghost(s), Ghost(i as int));
        proof {
            let g2 = self.tiles.grid@;
            lemma_shapes_update(g, i as int, g2[i as int]);
            assert(tile_ok(g[i as int], dims.spec_loc(i as int)));
            Self::lemma_grid_ok_update(g, dims, i as int, g2[i as int]);
        }
        Some(city)
    }
}


/// `c2` is the carrier `c` with `u`, moved to the carrier's location, added to its cargo.
pub open spec fn carrier_loaded(c: Unit, c2: Unit, u: Unit) -> bool {
    &&& c2@ == (crate::game::unit::UnitView {
        carrying_space: Some(crate::game::unit::CarryingSpaceView {
            space: c.spec_carried().push(Unit { loc: c.loc, ..u }),
            ..c@.carrying_space->0
        }),
        ..c@
    })
    &&& c2.spec_carried() == c.spec_carried().push(Unit { loc: c.loc, ..u })
}

/// A unit that some carrier would take aboard carries nothing, and neither the carrier nor its cargo is it.
proof fn lemma_carriable(c: Unit, u: Unit)
    requires
        c.wf(),
        u.wf(),
        c.spec_carry_status(u) is Ok,
    ensures
        u.carrying_space is None,
        u.spec_carried().len() == 0,
        c.carrying_space is Some,
        c.spec_carried().len() < c.type_.spec_carrying_capacity(),
        c.type_.spec_carrying_capacity() <= 5,
        u.type_ != c.type_,
        carried_ok(Unit { loc: c.loc, ..u }, c),
{
}

impl MapData {
    /// A unit with a carrying space on a well-formed map is the top-level unit of its tile.
    proof fn lemma_carrier_on_top(self, id: UnitID)
        requires
            self.wf(),
            self.spec_unit_by_id(id) matches Some(c) && c.carrying_space is Some,
        ensures
            self.unit_loc_by_id@.contains_key(id.id),
            self.spec_dims().spec_contains(self.unit_loc_by_id@[id.id]),
            top_has_id(self.spec_tile(self.unit_loc_by_id@[id.id]), id),
            self.spec_tile(self.unit_loc_by_id@[id.id]).unit == self.spec_unit_by_id(id),
    {
        self.lemma_unit_lookup(id);
        let loc = self.unit_loc_by_id@[id.id];
        let t = self.spec_tile(loc);
        lemma_index_in_bounds(self.tiles.dims, loc);
        let i = self.tiles.dims.spec_index(loc);
        assert(tile_ok(self.tiles.grid@[i], self.tiles.dims.spec_loc(i)));
        if t.unit->0.id != id {
            let k = choose|k: int| 0 <= k < t.unit->0.spec_carried().len() && (#[trigger] t.unit->0.spec_carried()[k]).id == id;
            assert(tile_carried(t)[k].id == id);
            self.lemma_carried_unit_at(i, k, id);
            assert(carried_ok(t.unit->0.spec_carried()[k], t.unit->0));
        }
    }

    /// Why the carrier with ID `carrier_unit_id` could not carry `carried_unit`, if it could not.
    fn carry_status(&self, carrier_unit_id: UnitID, carried_unit: &Unit) -> (r: Result<(), GameError>)
        requires
            self.wf(),
        ensures
            r == match self.spec_unit_by_id(carrier_unit_id) {
                Some(c) => c.spec_carry_status(*carried_unit),
                None => Err(GameError::NoSuchUnit { id: carrier_unit_id }),
            },
    {
        match self.unit_by_id(carrier_unit_id) {
            Some(carrier) => carrier.carry_status(carried_unit),
            None => Err(GameError::NoSuchUnit { id: carrier_unit_id }),
        }
    }

    /// Why the carrier with ID `carrier_unit_id` could not carry the unit with ID `carried_unit_id`, if it could not.
    fn carry_status_by_id(&self, carrier_unit_id: UnitID, carried_unit_id: UnitID) -> (r: Result<(), GameError>)
        requires
            self.wf(),
        ensures
            r == match self.spec_unit_by_id(carried_unit_id) {
                Some(u) => match self.spec_unit_by_id(carrier_unit_id) {
                    Some(c) => c.spec_carry_status(u),
                    None => Err(GameError::NoSuchUnit { id: carrier_unit_id }),
                },
                None => Err(GameError::NoSuchUnit { id: carried_unit_id }),
            },
    {
        match self.unit_by_id(carried_unit_id) {
            Some(unit) => self.carry_status(carrier_unit_id, unit),
            None => Err(GameError::NoSuchUnit { id: carried_unit_id }),
        }
    }

    /// Have the top-level carrier with ID `carrier_unit_id` carry `carried_unit`, which it can; returns how many
    /// units it carries now.
    fn carry_unit_unchecked(&mut self, carrier_unit_id: UnitID, carried_unit: Unit) -> (r: usize)
        requires
            old(self).wf(),
            old(self).spec_unit_by_id(carrier_unit_id) matches Some(c) && c.spec_carry_status(carried_unit) is Ok,
            carried_unit.wf(),
            unit_ids_absent(old(self).spec_tiles(), carried_unit),
            unit_ids_below(carried_unit, old(self).spec_next_unit_id().id),
        ensures
            final(self).wf(),
            final(self).spec_dims() == old(self).spec_dims(),
            final(self).spec_next_unit_id() == old(self).spec_next_unit_id(),
            final(self).spec_next_city_id() == old(self).spec_next_city_id(),
            exists|i: int| {
                &&& 0 <= i < old(self).spec_tiles().len()
                &&& top_has_id(#[trigger] old(self).spec_tiles()[i], carrier_unit_id)
                &&& final(self).spec_tiles()[i].unit matches Some(c2)
                &&& carrier_loaded(old(self).spec_tiles()[i].unit->0, c2, carried_unit)
                &&& final(self).spec_tiles() == old(self).spec_tiles().update(
                    i,
                    Tile { unit: Some(c2), ..old(self).spec_tiles()[i] },
                )
                &&& r == c2.spec_carried().len()
                &&& final(self).spec_unit_by_id(carrier_unit_id) == Some(c2)
                &&& final(self).spec_unit_by_id(carried_unit.id) == Some(
                    Unit { loc: old(self).spec_tiles()[i].loc, ..carried_unit },
                )
            },
    {
        proof {
            self.lemma_carrier_on_top(carrier_unit_id);
        }
        let loc = *self.unit_loc_by_id.get(&carrier_unit_id.id).unwrap();
        let i = self.tiles.dims.index(loc);
        let ghost g = self.tiles.grid@;
        let ghost s = shapes(g);
        let ghost dims = self.tiles.dims;
        proof {
            lemma_index_in_bounds(dims, loc);
            assert(s[i as int] == shape(g[i as int]));
            assert(tile_ok(g[i as int], dims.spec_loc(i as int)));
            lemma_loc_of_index(dims, i as int);
            lemma_carriable(g[i as int].unit->0, carried_unit);
            self.lemma_unit_lookup(carried_unit.id);
        }
        let carried_id = carried_unit.id;
        let carried_alignment = carried_unit.alignment;
        let carried_type = carried_unit.type_;
        let mut carrier = self.put_unit(i, None).unwrap();
        let ghost c0 = carrier;
        let carry_result = carrier.carry(carried_unit);
        let carrier_loc = carrier.loc;
        self.put_unit(i, Some(carrier));
        proof {
            lemma_unit_keys_push(c0.spec_carried(), Unit { loc: c0.loc, ..carried_unit });
        }
        self.index_carried_unit_piecemeal(carried_id, carried_alignment, carried_type, carrier_unit_id, carrier_loc, Ghost(s), Ghost(i as int));
        proof {
            let g2 = self.tiles.grid@;
            lemma_shapes_update(g, i as int, g2[i as int]);
            assert forall|j: int| 0 <= j < carrier.spec_carried().len() implies carried_ok(
                #[trigger] carrier.spec_carried()[j],
                carrier,
            ) by {
                if j < c0.spec_carried().len() {
                    assert(carried_ok(c0.spec_carried()[j], c0));
                }
            }
            Self::lemma_grid_ok_update(g, dims, i as int, g2[i as int]);
            assert(g2 =~= g.update(i as int, Tile { unit: Some(carrier), ..g[i as int] }));
            self.lemma_units_at(i as int);
            assert(tile_carried(g2[i as int])[c0.spec_carried().len() as int] == Unit { loc: c0.loc, ..carried_unit });
        }
        carry_result.unwrap()
    }

    /// Have the top-level carrier with ID `carrier_unit_id` carry `carried_unit`; returns how many units it carries.
    pub fn carry_unit(&mut self, carrier_unit_id: UnitID, carried_unit: Unit) -> (r: Result<usize, GameError>)
        requires
            old(self).wf(),
            carried_unit.wf(),
            unit_ids_absent(old(self).spec_tiles(), carried_unit),
            unit_ids_below(carried_unit, old(self).spec_next_unit_id().id),
        ensures
            final(self).wf(),
            final(self).spec_dims() == old(self).spec_dims(),
            final(self).spec_next_unit_id() == old(self).spec_next_unit_id(),
            final(self).spec_next_city_id() == old(self).spec_next_city_id(),
            old(self).spec_unit_by_id(carrier_unit_id) is None ==> r == Err::<usize, GameError>(
                GameError::NoSuchUnit { id: carrier_unit_id },
            ) && *final(self) == *old(self),
            old(self).spec_unit_by_id(carrier_unit_id) is Some && old(self).spec_unit_by_id(carrier_unit_id)->0.spec_carry_status(
                carried_unit,
            ) is Err ==> r == Err::<usize, GameError>(
                old(self).spec_unit_by_id(carrier_unit_id)->0.spec_carry_status(carried_unit)->Err_0,
            ) && *final(self) == *old(self),
            old(self).spec_unit_by_id(carrier_unit_id) is Some && old(self).spec_unit_by_id(carrier_unit_id)->0.spec_carry_status(
                carried_unit,
            ) is Ok ==> r == Ok::<usize, GameError>(
                (old(self).spec_unit_by_id(carrier_unit_id)->0.spec_carried().len() + 1) as usize,
            ) && exists|i: int| {
                &&& 0 <= i < old(self).spec_tiles().len()
                &&& top_has_id(#[trigger] old(self).spec_tiles()[i], carrier_unit_id)
                &&& final(self).spec_tiles()[i].unit matches Some(c2)
                &&& carrier_loaded(old(self).spec_unit_by_id(carrier_unit_id)->0, c2, carried_unit)
                &&& final(self).spec_tiles() == old(self).spec_tiles().update(
                    i,
                    Tile { unit: Some(c2), ..old(self).spec_tiles()[i] },
                )
                &&& final(self).spec_unit_by_id(carried_unit.id) == Some(
                    Unit { loc: old(self).spec_unit_by_id(carrier_unit_id)->0.loc, ..carried_unit },
                )
            },
    {
        match self.carry_status(carrier_unit_id, &carried_unit) {
            Err(e) => Err(e),
            Ok(()) => {
                proof {
                    self.lemma_carrier_on_top(carrier_unit_id);
                    lemma_index_in_bounds(self.tiles.dims, self.unit_loc_by_id@[carrier_unit_id.id]);
                }
                let ghost m0 = *self;
                let n = self.carry_unit_unchecked(carrier_unit_id, carried_unit);
                proof {
                    let i = choose|i: int| {
                        &&& 0 <= i < m0.spec_tiles().len()
                        &&& top_has_id(#[trigger] m0.spec_tiles()[i], carrier_unit_id)
                        &&& self.spec_tiles()[i].unit matches Some(c2)
                        &&& carrier_loaded(m0.spec_tiles()[i].unit->0, c2, carried_unit)
                        &&& self.spec_tiles() == m0.spec_tiles().update(i, Tile { unit: Some(c2), ..m0.spec_tiles()[i] })
                        &&& n == c2.spec_carried().len()
                        &&& self.spec_unit_by_id(carrier_unit_id) == Some(c2)
                        &&& self.spec_unit_by_id(carried_unit.id) == Some(Unit { loc: m0.spec_tiles()[i].loc, ..carried_unit })
                    };
                    assert(tile_has_unit(m0.spec_tiles()[i], carrier_unit_id));
                    m0.lemma_grid_unit_at(m0.spec_tiles(), i, carrier_unit_id);
                    assert(tile_ok(m0.tiles.grid@[i], m0.tiles.dims.spec_loc(i)));
                }
                Ok(n)
            },
        }
    }
}


impl MapData {
    /// Why the carrier with ID `carrier_id` could not carry the unit with ID `carried_id`, if it could not.
    pub open spec fn spec_carry_status_by_id(self, carrier_id: UnitID, carried_id: UnitID) -> Result<(), GameError> {
        match self.spec_unit_by_id(carried_id) {
            Some(u) => match self.spec_unit_by_id(carrier_id) {
                Some(c) => c.spec_carry_status(u),
                None => Err(GameError::NoSuchUnit { id: carrier_id }),
            },
            None => Err(GameError::NoSuchUnit { id: carried_id }),
        }
    }

    /// Taking a unit a carrier would carry off the map leaves the carrier where it was, still willing.
    proof fn lemma_carrier_after_pop(self, g1: Seq<Tile>, m1: MapData, carrier_id: UnitID, carried_id: UnitID)
        requires
            self.wf(),
            m1.wf(),
            m1.spec_tiles() == g1,
            self.spec_carry_status_by_id(carrier_id, carried_id) is Ok,
            grid_without_unit(self.spec_tiles(), g1, carried_id),
        ensures
            carrier_id != carried_id,
            m1.spec_unit_by_id(carrier_id) matches Some(c1) && c1.spec_carry_status(self.spec_unit_by_id(carried_id)->0)
                is Ok && c1.loc == self.spec_unit_by_id(carrier_id)->0.loc,
            exists|t: int| 0 <= t < g1.len() && top_has_id(#[trigger] g1[t], carrier_id) && g1[t].unit == m1.spec_unit_by_id(carrier_id),
    {
        let g = self.spec_tiles();
        let c = self.spec_unit_by_id(carrier_id)->0;
        let u = self.spec_unit_by_id(carried_id)->0;
        self.lemma_carrier_on_top(carrier_id);
        let loc = self.unit_loc_by_id@[carrier_id.id];
        lemma_index_in_bounds(self.tiles.dims, loc);
        let t = self.tiles.dims.spec_index(loc);
        assert(tile_ok(g[t], self.tiles.dims.spec_loc(t)));
        let i = choose|i: int| {
            &&& 0 <= i < g.len()
            &&& forall|k: int| 0 <= k < g.len() && k != i ==> #[trigger] g1[k] == g[k]
            &&& {
                ||| (top_has_id(#[trigger] g[i], carried_id) && g1[i] == Tile { unit: None, ..g[i] })
                ||| exists|j: int| 0 <= j < tile_carried(g[i]).len() && (#[trigger] tile_carried(g[i])[j]).id == carried_id
                    && tile_released(g[i], g1[i], j)
            }
        };
        if i != t {
            assert(g1[t] == g[t]);
        } else {
            let j = choose|j: int| 0 <= j < tile_carried(g[i]).len() && (#[trigger] tile_carried(g[i])[j]).id == carried_id
                && tile_released(g[i], g1[i], j);
            assert(g1[t].unit->0.id == carrier_id);
        }
        assert(tile_has_unit(g1[t], carrier_id));
        m1.lemma_grid_unit_at(g1, t, carrier_id);
    }

    /// Move the unit with ID `carried_unit_id` from wherever it is into the cargo of the unit with ID
    /// `carrier_unit_id`; returns how many units that one carries now.
    pub fn carry_unit_by_id(&mut self, carrier_unit_id: UnitID, carried_unit_id: UnitID) -> (r: Result<usize, GameError>)
        requires
            old(self).wf(),
        ensures
            final(self).wf(),
            final(self).spec_dims() == old(self).spec_dims(),
            final(self).spec_next_unit_id() == old(self).spec_next_unit_id(),
            final(self).spec_next_city_id() == old(self).spec_next_city_id(),
            old(self).spec_carry_status_by_id(carrier_unit_id, carried_unit_id) is Err ==> r == Err::<usize, GameError>(
                old(self).spec_carry_status_by_id(carrier_unit_id, carried_unit_id)->Err_0,
            ) && *final(self) == *old(self),
            old(self).spec_carry_status_by_id(carrier_unit_id, carried_unit_id) is Ok ==> {
                let u = old(self).spec_unit_by_id(carried_unit_id)->0;
                let c = old(self).spec_unit_by_id(carrier_unit_id)->0;
                &&& final(self).spec_unit_by_id(carrier_unit_id) matches Some(c2)
                &&& r == Ok::<usize, GameError>(c2.spec_carried().len() as usize)
                &&& final(self).spec_unit_by_id(carried_unit_id) == Some(Unit { loc: c.loc, ..u })
                &&& exists|g1: Seq<Tile>, t: int| {
                    &&& grid_without_unit(old(self).spec_tiles(), g1, carried_unit_id)
                    &&& 0 <= t < g1.len()
                    &&& top_has_id(#[trigger] g1[t], carrier_unit_id)
                    &&& carrier_loaded(g1[t].unit->0, c2, u)
                    &&& final(self).spec_tiles() == g1.update(t, Tile { unit: Some(c2), ..g1[t] })
                }
            },
    {
        if let Err(e) = self.carry_status_by_id(carrier_unit_id, carried_unit_id) {
            return Err(e);
        }
        let ghost m0 = *self;
        let unit = self.pop_unit_by_id(carried_unit_id).unwrap();
        let ghost m1 = *self;
        proof {
            m0.lemma_carrier_after_pop(m1.spec_tiles(), m1, carrier_unit_id, carried_unit_id);
        }
        let n = self.carry_unit_unchecked(carrier_unit_id, unit);
        proof {
            let g1 = m1.spec_tiles();
            let i = choose|i: int| {
                &&& 0 <= i < g1.len()
                &&& top_has_id(#[trigger] g1[i], carrier_unit_id)
                &&& self.spec_tiles()[i].unit matches Some(c2)
                &&& carrier_loaded(g1[i].unit->0, c2, unit)
                &&& self.spec_tiles() == g1.update(i, Tile { unit: Some(c2), ..g1[i] })
                &&& n == c2.spec_carried().len()
                &&& self.spec_unit_by_id(carrier_unit_id) == Some(c2)
                &&& self.spec_unit_by_id(unit.id) == Some(Unit { loc: g1[i].loc, ..unit })
            };
            let t = choose|t: int| 0 <= t < g1.len() && top_has_id(#[trigger] g1[t], carrier_unit_id) && g1[t].unit
                == m1.spec_unit_by_id(carrier_unit_id);
            assert(tile_has_unit(g1[i], carrier_unit_id));
            assert(tile_has_unit(g1[t], carrier_unit_id));
            m1.lemma_unit_on_one_tile(i, t, carrier_unit_id);
            assert(tile_ok(m1.tiles.grid@[i], m1.tiles.dims.spec_loc(i)));
        }
        Ok(n)
    }
}


impl MapData {
    /// Changing only the cities of the tiles leaves every unit lookup as it was.
    proof fn lemma_units_kept(self, m1: MapData, id: UnitID)
        requires
            self.wf(),
            m1.wf(),
            m1.spec_tiles().len() == self.spec_tiles().len(),
            forall|k: int| 0 <= k < self.spec_tiles().len() ==> (#[trigger] m1.spec_tiles()[k]).unit == self.spec_tiles()[k].unit,
        ensures
            m1.spec_unit_by_id(id) == self.spec_unit_by_id(id),
    {
        let g = self.spec_tiles();
        let g1 = m1.spec_tiles();
        if grid_has_unit(g, id) {
            let k = choose|k: int| 0 <= k < g.len() && tile_has_unit(#[trigger] g[k], id);
            self.lemma_grid_unit_at(g, k, id);
            assert(g1[k].unit == g[k].unit);
            m1.lemma_grid_unit_at(g1, k, id);
        } else {
            if grid_has_unit(g1, id) {
                let k = choose|k: int| 0 <= k < g1.len() && tile_has_unit(#[trigger] g1[k], id);
                assert(g1[k].unit == g[k].unit);
                assert(tile_has_unit(g[k], id));
            }
        }
    }

    /// Occupy the city at `city_loc` with the unit with ID `occupier_unit_id`: the city takes the unit's side, and
    /// the unit moves into it.
    ///
    /// An error if there is no such unit, if `city_loc` is off the map, if there is no city there, or if a unit
    /// garrisons the city: a garrison has to be defeated first.
    pub fn occupy_city(&mut self, occupier_unit_id: UnitID, city_loc: Location) -> (r: Result<(), GameError>)
        requires
            old(self).wf(),
        ensures
            final(self).wf(),
            final(self).spec_dims() == old(self).spec_dims(),
            final(self).spec_next_unit_id() == old(self).spec_next_unit_id(),
            final(self).spec_next_city_id() == old(self).spec_next_city_id(),
            old(self).spec_unit_by_id(occupier_unit_id) is None ==> r == Err::<(), GameError>(
                GameError::NoSuchUnit { id: occupier_unit_id },
            ) && *final(self) == *old(self),
            old(self).spec_unit_by_id(occupier_unit_id) is Some && !old(self).spec_dims().spec_contains(city_loc) ==> r
                == Err::<(), GameError>(GameError::NoTileAtLocation { loc: city_loc }) && *final(self) == *old(self),
            old(self).spec_unit_by_id(occupier_unit_id) is Some && old(self).spec_dims().spec_contains(city_loc)
                && old(self).spec_tile(city_loc).unit is Some && old(self).spec_tile(city_loc).city is Some ==> r == Err::<(), GameError>(
                GameError::CannotOccupyGarrisonedCity {
                    occupier_unit_id,
                    city_id: old(self).spec_tile(city_loc).city->0.id,
                    garrisoned_unit_id: old(self).spec_tile(city_loc).unit->0.id,
                },
            ) && *final(self) == *old(self),
            old(self).spec_unit_by_id(occupier_unit_id) is Some && old(self).spec_dims().spec_contains(city_loc)
                && old(self).spec_tile(city_loc).city is None ==> r == Err::<
                (),
                GameError,
            >(GameError::NoCityAtLocation { loc: city_loc }) && *final(self) == *old(self),
            old(self).spec_unit_by_id(occupier_unit_id) is Some && old(self).spec_dims().spec_contains(city_loc)
                && old(self).spec_tile(city_loc).unit is None && old(self).spec_tile(city_loc).city is Some ==> {
                let u = old(self).spec_unit_by_id(occupier_unit_id)->0;
                let i = old(self).spec_dims().spec_index(city_loc);
                let ga = old(self).spec_tiles().update(
                    i,
                    Tile {
                        city: Some(City { alignment: u.alignment, ..old(self).spec_tile(city_loc).city->0 }),
                        ..old(self).spec_tile(city_loc)
                    },
                );
                &&& r == Ok::<(), GameError>(())
                &&& final(self).spec_tile(city_loc).unit matches Some(u2)
                &&& u.moved_to(u2, city_loc)
                &&& final(self).spec_unit_by_id(occupier_unit_id) == Some(u2)
                &&& exists|g1: Seq<Tile>| grid_without_unit(ga, g1, occupier_unit_id) && final(self).spec_tiles()
                    == g1.update(i, Tile { unit: Some(u2), ..g1[i] })
            },
    {
        let alignment = match self.unit_by_id(occupier_unit_id) {
            Some(unit) => unit.alignment,
            None => return Err(GameError::NoSuchUnit { id: occupier_unit_id }),
        };
        if !self.tiles.dims.contain(city_loc) {
            return Err(GameError::NoTileAtLocation { loc: city_loc });
        }
        let i = self.tiles.dims.index(city_loc);
        proof {
            lemma_index_in_bounds(self.tiles.dims, city_loc);
        }
        if let Some(ref garrison) = self.tiles.grid[i].unit {
            return match &self.tiles.grid[i].city {
                Some(city) => Err(
                    GameError::CannotOccupyGarrisonedCity { occupier_unit_id, city_id: city.id, garrisoned_unit_id: garrison.id },
                ),
                None => Err(GameError::NoCityAtLocation { loc: city_loc }),
            };
        }
        let ghost m0 = *self;
        if !self.set_city_alignment_at(i, alignment) {
            return Err(GameError::NoCityAtLocation { loc: city_loc });
        }
        proof {
            m0.lemma_units_kept(*self, occupier_unit_id);
        }
        let ghost m1 = *self;
        let r = self.relocate_unit_by_id(occupier_unit_id, city_loc);
        proof {
            assert(m1.spec_tiles() == m0.spec_tiles().update(
                i as int,
                Tile {
                    city: Some(City { alignment, ..m0.spec_tile(city_loc).city->0 }),
                    ..m0.spec_tile(city_loc)
                },
            ));
        }
        match r {
            Ok(_) => Ok(()),
            Err(e) => Err(e),
        }
    }
}


/// The top-level units of the tiles, in tile order.
pub open spec fn spec_toplevel_units(g: Seq<Tile>) -> Seq<Unit>
    decreases g.len(),
{
    if g.len() == 0 {
        Seq::empty()
    } else {
        spec_toplevel_units(g.drop_last()) + match g.last().unit {
            Some(u) => seq![u],
            None => Seq::empty(),
        }
    }
}

/// All units of the tiles in tile order, each top-level unit followed by the units it carries.
pub open spec fn spec_all_units(g: Seq<Tile>) -> Seq<Unit>
    decreases g.len(),
{
    if g.len() == 0 {
        Seq::empty()
    } else {
        spec_all_units(g.drop_last()) + match g.last().unit {
            Some(u) => seq![u] + u.spec_carried(),
            None => Seq::empty(),
        }
    }
}

/// The cities of the tiles, in tile order.
pub open spec fn spec_cities(g: Seq<Tile>) -> Seq<City>
    decreases g.len(),
{
    if g.len() == 0 {
        Seq::empty()
    } else {
        spec_cities(g.drop_last()) + match g.last().city {
            Some(c) => seq![c],
            None => Seq::empty(),
        }
    }
}

pub open spec fn deref_units(v: Seq<&Unit>) -> Seq<Unit> {
    v.map_values(|u: &Unit| *u)
}

pub open spec fn deref_cities(v: Seq<&City>) -> Seq<City> {
    v.map_values(|c: &City| *c)
}

/// The cities of tiles that each lie where they should stand at locations within the dimensions.
proof fn lemma_cities_located(g: Seq<Tile>, dims: Dims)
    requires
        g.len() <= dims.spec_area(),
        forall|i: int| 0 <= i < g.len() ==> #[trigger] tile_ok(g[i], dims.spec_loc(i)),
    ensures
        forall|k: int| 0 <= k < spec_cities(g).len() ==> dims.spec_contains(#[trigger] spec_cities(g)[k].loc),
    decreases g.len(),
{
    if g.len() > 0 {
        let h = g.drop_last();
        assert forall|i: int| 0 <= i < h.len() implies #[trigger] tile_ok(h[i], dims.spec_loc(i)) by {
            assert(tile_ok(g[i], dims.spec_loc(i)));
        }
        lemma_cities_located(h, dims);
        let last = g.len() - 1;
        assert(tile_ok(g[last], dims.spec_loc(last)));
        lemma_loc_of_index(dims, last);
        let tail: Seq<City> = match g.last().city {
            Some(c) => seq![c],
            None => Seq::empty(),
        };
        assert(spec_cities(g) == spec_cities(h) + tail);
        assert forall|k: int| 0 <= k < spec_cities(g).len() implies dims.spec_contains(#[trigger] spec_cities(g)[k].loc) by {
            if k < spec_cities(h).len() {
                assert(spec_cities(g)[k] == spec_cities(h)[k]);
            }
        }
    }
}

/// Each city of tiles that lie where they should stands on the tile of its location's index, and the city of each
/// tile is among them.
proof fn lemma_cities_placed(g: Seq<Tile>, dims: Dims)
    requires
        g.len() <= dims.spec_area(),
        forall|i: int| 0 <= i < g.len() ==> #[trigger] tile_ok(g[i], dims.spec_loc(i)),
    ensures
        forall|k: int| 0 <= k < spec_cities(g).len() ==> {
            let i = dims.spec_index(#[trigger] spec_cities(g)[k].loc);
            &&& 0 <= i < g.len()
            &&& g[i].city == Some(spec_cities(g)[k])
        },
        forall|j: int| 0 <= j < g.len() && (#[trigger] g[j]).city is Some ==> spec_cities(g).contains(g[j].city->0),
    decreases g.len(),
{
    if g.len() > 0 {
        let h = g.drop_last();
        assert forall|i: int| 0 <= i < h.len() implies #[trigger] tile_ok(h[i], dims.spec_loc(i)) by {
            assert(tile_ok(g[i], dims.spec_loc(i)));
        }
        lemma_cities_placed(h, dims);
        let last = g.len() - 1;
        assert(tile_ok(g[last], dims.spec_loc(last)));
        lemma_loc_of_index(dims, last);
        let tail: Seq<City> = match g.last().city {
            Some(c) => seq![c],
            None => Seq::empty(),
        };
        assert(spec_cities(g) == spec_cities(h) + tail);
        assert forall|k: int| 0 <= k < spec_cities(g).len() implies {
            let i = dims.spec_index(#[trigger] spec_cities(g)[k].loc);
            &&& 0 <= i < g.len()
            &&& g[i].city == Some(spec_cities(g)[k])
        } by {
            if k < spec_cities(h).len() {
                assert(spec_cities(g)[k] == spec_cities(h)[k]);
                let i = dims.spec_index(spec_cities(h)[k].loc);
                assert(h[i] == g[i]);
            } else {
                assert(spec_cities(g)[k] == g.last().city->0);
            }
        }
        assert forall|j: int| 0 <= j < g.len() && (#[trigger] g[j]).city is Some implies spec_cities(g).contains(
            g[j].city->0,
        ) by {
            if j < last {
                assert(h[j] == g[j]);
                let k = choose|k: int| 0 <= k < spec_cities(h).len() && spec_cities(h)[k] == h[j].city->0;
                assert(spec_cities(g)[k] == spec_cities(h)[k]);
            } else {
                assert(spec_cities(g)[spec_cities(h).len() as int] == g[j].city->0);
            }
        }
    }
}

/// The units, top-level and carried, of tiles that each lie where they should stand at locations within the
/// dimensions.
proof fn lemma_units_located(g: Seq<Tile>, dims: Dims)
    requires
        g.len() <= dims.spec_area(),
        forall|i: int| 0 <= i < g.len() ==> #[trigger] tile_ok(g[i], dims.spec_loc(i)),
    ensures
        forall|k: int| 0 <= k < spec_all_units(g).len() ==> dims.spec_contains(#[trigger] spec_all_units(g)[k].loc),
    decreases g.len(),
{
    if g.len() > 0 {
        let h = g.drop_last();
        assert forall|i: int| 0 <= i < h.len() implies #[trigger] tile_ok(h[i], dims.spec_loc(i)) by {
            assert(tile_ok(g[i], dims.spec_loc(i)));
        }
        lemma_units_located(h, dims);
        let last = g.len() - 1;
        assert(tile_ok(g[last], dims.spec_loc(last)));
        lemma_loc_of_index(dims, last);
        let tail: Seq<Unit> = match g.last().unit {
            Some(u) => seq![u] + u.spec_carried(),
            None => Seq::empty(),
        };
        assert(spec_all_units(g) == spec_all_units(h) + tail);
        assert forall|k: int| 0 <= k < spec_all_units(g).len() implies dims.spec_contains(#[trigger] spec_all_units(g)[k].loc) by {
            if k < spec_all_units(h).len() {
                assert(spec_all_units(g)[k] == spec_all_units(h)[k]);
            } else {
                let u = g.last().unit->0;
                let m = k - spec_all_units(h).len();
                if m > 0 {
                    assert(tail[m] == u.spec_carried()[m - 1]);
                    assert(carried_ok(u.spec_carried()[m - 1], u));
                }
            }
        }
    }
}

/// Does the unit belong to the player?
pub open spec fn unit_of_player(player: PlayerNum) -> spec_fn(Unit) -> bool {
    |u: Unit| u.alignment == (Alignment::Belligerent { player })
}

/// Which of a player's cities to list.
pub enum CitySelection {
    All,
    WithProductionTarget,
    LackingProductionTarget,
}

/// Does the selection take the city, of the player?
pub open spec fn city_selected(player: PlayerNum, sel: CitySelection) -> spec_fn(City) -> bool {
    |c: City| c.alignment == (Alignment::Belligerent { player }) && match sel {
        CitySelection::All => true,
        CitySelection::WithProductionTarget => c.production is Some,
        CitySelection::LackingProductionTarget => c.production is None && !c.ignore_cleared_production,
    }
}

/// The player's units among those given, in order.
fn select_player_units<'a>(units: Vec<&'a Unit>, player: PlayerNum) -> (v: Vec<&'a Unit>)
    ensures
        deref_units(v@) == deref_units(units@).filter(unit_of_player(player)),
{
    let ghost all = deref_units(units@);
    let mut v: Vec<&Unit> = Vec::new();
    let mut i: usize = 0;
    while i < units.len()
        invariant
            i <= units@.len(),
            all == deref_units(units@),
            deref_units(v@) == all.take(i as int).filter(unit_of_player(player)),
        decreases units@.len() - i,
    {
        proof {
            reveal(Seq::filter);
            assert(all.take(i as int + 1).drop_last() =~= all.take(i as int));
            assert(all.take(i as int + 1).last() == *units@[i as int]);
        }
        let u = units[i];
        if u.belongs_to_player(player) {
            let ghost before = v@;
            v.push(u);
            proof {
                assert(deref_units(v@) =~= deref_units(before).push(*u));
            }
        }
        i = i + 1;
    }
    proof {
        assert(all.take(units@.len() as int) =~= all);
    }
    v
}

/// The player's cities among those given that the selection takes, in order.
fn select_player_cities<'a>(cities: Vec<&'a City>, player: PlayerNum, sel: CitySelection) -> (v: Vec<&'a City>)
    ensures
        deref_cities(v@) == deref_cities(cities@).filter(city_selected(player, sel)),
{
    let ghost all = deref_cities(cities@);
    let mut v: Vec<&City> = Vec::new();
    let mut i: usize = 0;
    while i < cities.len()
        invariant
            i <= cities@.len(),
            all == deref_cities(cities@),
            deref_cities(v@) == all.take(i as int).filter(city_selected(player, sel)),
        decreases cities@.len() - i,
    {
        proof {
            reveal(Seq::filter);
            assert(all.take(i as int + 1).drop_last() =~= all.take(i as int));
            assert(all.take(i as int + 1).last() == *cities@[i as int]);
        }
        let c = cities[i];
        let selected = c.belongs_to_player(player) && match sel {
            CitySelection::All => true,
            CitySelection::WithProductionTarget => c.production().is_some(),
            CitySelection::LackingProductionTarget => c.production().is_none() && !c.ignore_cleared_production(),
        };
        if selected {
            let ghost before = v@;
            v.push(c);
            proof {
                assert(deref_cities(v@) =~= deref_cities(before).push(*c));
            }
        }
        i = i + 1;
    }
    proof {
        assert(all.take(cities@.len() as int) =~= all);
    }
    v
}

impl MapData {
    /// The top-level units, in tile order.
    pub fn toplevel_units(&self) -> (v: Vec<&Unit>)
        ensures
            deref_units(v@) == spec_toplevel_units(self.spec_tiles()),
    {
        let ghost g = self.tiles.grid@;
        let mut v: Vec<&Unit> = Vec::new();
        let mut i: usize = 0;
        while i < self.tiles.grid.len()
            invariant
                g == self.tiles.grid@,
                i <= g.len(),
                deref_units(v@) == spec_toplevel_units(g.take(i as int)),
            decreases g.len() - i,
        {
            proof {
                assert(g.take(i as int + 1).drop_last() =~= g.take(i as int));
            }
            if let Some(ref u) = self.tiles.grid[i].unit {
                let ghost before = v@;
                v.push(u);
                proof {
                    assert(deref_units(v@) =~= deref_units(before) + seq![*u]);
                }
            } else {
                proof {
                    assert(spec_toplevel_units(g.take(i as int + 1)) =~= spec_toplevel_units(g.take(i as int)));
                }
            }
            i = i + 1;
        }
        proof {
            assert(g.take(g.len() as int) =~= g);
        }
        v
    }

    /// All units, top-level and carried, in tile order; each top-level unit comes before what it carries.
    pub fn units(&self) -> (v: Vec<&Unit>)
        ensures
            deref_units(v@) == spec_all_units(self.spec_tiles()),
    {
        let ghost g = self.tiles.grid@;
        let mut v: Vec<&Unit> = Vec::new();
        let mut i: usize = 0;
        while i < self.tiles.grid.len()
            invariant
                g == self.tiles.grid@,
                i <= g.len(),
                deref_units(v@) == spec_all_units(g.take(i as int)),
            decreases g.len() - i,
        {
            proof {
                assert(g.take(i as int + 1).drop_last() =~= g.take(i as int));
            }
            if let Some(ref u) = self.tiles.grid[i].unit {
                let ghost before = v@;
                v.push(u);
                let carried = u.carried_units();
                let mut k: usize = 0;
                while k < carried.len()
                    invariant
                        k <= carried@.len(),
                        carried@.len() == u.spec_carried().len(),
                        forall|j: int| 0 <= j < carried@.len() ==> *carried@[j] == u.spec_carried()[j],
                        deref_units(v@) == deref_units(before) + seq![*u] + u.spec_carried().take(k as int),
                    decreases carried@.len() - k,
                {
                    let ghost before_k = v@;
                    v.push(carried[k]);
                    proof {
                        assert(u.spec_carried().take(k as int + 1) =~= u.spec_carried().take(k as int).push(
                            u.spec_carried()[k as int],
                        ));
                        assert(deref_units(v@) =~= deref_units(before_k).push(*carried@[k as int]));
                    }
                    k = k + 1;
                }
                proof {
                    assert(u.spec_carried().take(carried@.len() as int) =~= u.spec_carried());
                }
            } else {
                proof {
                    assert(spec_all_units(g.take(i as int + 1)) =~= spec_all_units(g.take(i as int)));
                }
            }
            i = i + 1;
        }
        proof {
            assert(g.take(g.len() as int) =~= g);
        }
        v
    }

    /// The cities, in tile order.
    pub fn cities(&self) -> (v: Vec<&City>)
        ensures
            deref_cities(v@) == spec_cities(self.spec_tiles()),
    {
        let ghost g = self.tiles.grid@;
        let mut v: Vec<&City> = Vec::new();
        let mut i: usize = 0;
        while i < self.tiles.grid.len()
            invariant
                g == self.tiles.grid@,
                i <= g.len(),
                deref_cities(v@) == spec_cities(g.take(i as int)),
            decreases g.len() - i,
        {
            proof {
                assert(g.take(i as int + 1).drop_last() =~= g.take(i as int));
            }
            if let Some(ref c) = self.tiles.grid[i].city {
                let ghost before = v@;
                v.push(c);
                proof {
                    assert(deref_cities(v@) =~= deref_cities(before) + seq![*c]);
                }
            } else {
                proof {
                    assert(spec_cities(g.take(i as int + 1)) =~= spec_cities(g.take(i as int)));
                }
            }
            i = i + 1;
        }
        proof {
            assert(g.take(g.len() as int) =~= g);
        }
        v
    }

    /// The player's top-level units, in tile order.
    pub fn player_toplevel_units(&self, player: PlayerNum) -> (v: Vec<&Unit>)
        ensures
            deref_units(v@) == spec_toplevel_units(self.spec_tiles()).filter(unit_of_player(player)),
    {
        select_player_units(self.toplevel_units(), player)
    }

    /// All the player's units, top-level and carried, in tile order.
    pub fn player_units(&self, player: PlayerNum) -> (v: Vec<&Unit>)
        ensures
            deref_units(v@) == spec_all_units(self.spec_tiles()).filter(unit_of_player(player)),
    {
        select_player_units(self.units(), player)
    }

    /// The player's cities, in tile order.
    pub fn player_cities(&self, player: PlayerNum) -> (v: Vec<&City>)
        ensures
            deref_cities(v@) == spec_cities(self.spec_tiles()).filter(city_selected(player, CitySelection::All)),
    {
        select_player_cities(self.cities(), player, CitySelection::All)
    }

    /// The player's cities that are producing something, in tile order.
    pub fn player_cities_with_production_target(&self, player: PlayerNum) -> (v: Vec<&City>)
        ensures
            deref_cities(v@) == spec_cities(self.spec_tiles()).filter(
                city_selected(player, CitySelection::WithProductionTarget),
            ),
    {
        select_player_cities(self.cities(), player, CitySelection::WithProductionTarget)
    }

    /// The player's cities producing nothing whose production is not to be skipped, in tile order.
    pub fn player_cities_lacking_production_target(&self, player: PlayerNum) -> (v: Vec<&City>)
        ensures
            deref_cities(v@) == spec_cities(self.spec_tiles()).filter(
                city_selected(player, CitySelection::LackingProductionTarget),
            ),
    {
        select_player_cities(self.cities(), player, CitySelection::LackingProductionTarget)
    }

    /// Every location of the map, row by row.
    pub fn iter_locs(&self) -> (locs: Vec<Location>)
        ensures
            locs@.len() == self.spec_dims().spec_area(),
            forall|i: int| 0 <= i < locs@.len() ==> #[trigger] locs@[i] == self.spec_dims().spec_loc(i),
    {
        self.tiles.iter_locs()
    }
}


/// `t2` is `t` with a turn's worth of moves restored to its unit and cargo, if the unit is the player's.
pub open spec fn tile_refreshed_for(player: PlayerNum, t: Tile, t2: Tile) -> bool {
    if t.unit is Some && t.unit->0.alignment == (Alignment::Belligerent { player }) {
        &&& t2.unit is Some
        &&& t.unit->0.refreshed(t2.unit->0)
        &&& t2 == (Tile { unit: t2.unit, ..t })
    } else {
        t2 == t
    }
}

/// `t2` is `t` with the fuel of the player's sheltered units filled: the units its top-level unit of the player
/// carries, and that unit too if the tile's city is on its side.
pub open spec fn tile_refueled_for(player: PlayerNum, t: Tile, t2: Tile) -> bool {
    if t.unit is Some && t.unit->0.alignment == (Alignment::Belligerent { player }) {
        &&& t2.unit is Some
        &&& t.unit->0.sheltered_refuel(
            t2.unit->0,
            t.city is Some && t.city->0.alignment == t.unit->0.alignment,
        )
        &&& t2 == (Tile { unit: t2.unit, ..t })
    } else {
        t2 == t
    }
}

/// `t2` is `t` with one more unit of production counted in its city, if the city is the player's, produces
/// something, and has not yet reached `cap`.
pub open spec fn tile_production_incremented(player: PlayerNum, cap: u16, t: Tile, t2: Tile) -> bool {
    if t.city is Some && t.city->0.alignment == (Alignment::Belligerent { player }) && t.city->0.production is Some
        && t.city->0.production_progress < cap {
        t2 == (Tile {
            city: Some(City { production_progress: (t.city->0.production_progress + 1) as u16, ..t.city->0 }),
            ..t
        })
    } else {
        t2 == t
    }
}

/// The highest cost among the unit types given.
pub open spec fn max_cost_of(s: Seq<UnitType>) -> u16
    decreases s.len(),
{
    if s.len() == 0 {
        0
    } else if s.last().spec_cost() > max_cost_of(s.drop_last()) {
        s.last().spec_cost()
    } else {
        max_cost_of(s.drop_last())
    }
}

/// The highest cost of any unit type.
pub open spec fn spec_max_unit_cost() -> u16 {
    max_cost_of(crate::game::unit::spec_unit_type_values())
}

fn max_unit_cost() -> (m: u16)
    ensures
        m == spec_max_unit_cost(),
{
    let values = UnitType::values();
    let ghost vs = crate::game::unit::spec_unit_type_values();
    let mut m: u16 = 0;
    let mut i: usize = 0;
    while i < 10
        invariant
            0 <= i <= 10,
            values@ == vs,
            vs.len() == 10,
            m == max_cost_of(vs.take(i as int)),
        decreases 10 - i,
    {
        proof {
            assert(vs.take(i as int + 1).drop_last() =~= vs.take(i as int));
        }
        let c = values[i].cost();
        if c > m {
            m = c;
        }
        i = i + 1;
    }
    proof {
        assert(vs.take(10) =~= vs);
    }
    m
}

impl MapData {
    /// Apply an edit to the top-level unit of tile `i`, if there is one.
    fn edit_toplevel_at(&mut self, i: usize, edit: &UnitEdit) -> (r: Option<UnitEditOutcome>)
        requires
            old(self).wf(),
            i < old(self).spec_tiles().len(),
        ensures
            final(self).wf(),
            final(self).same_frame(*old(self)),
            old(self).spec_tiles()[i as int].unit is None ==> r is None && *final(self) == *old(self),
            old(self).spec_tiles()[i as int].unit matches Some(u) ==> r == Some(u.spec_edit_outcome(*edit))
                && (final(self).spec_tiles()[i as int].unit matches Some(u2) && u.edited(u2, *edit))
                && final(self).spec_tiles() == old(self).spec_tiles().update(
                i as int,
                Tile { unit: final(self).spec_tiles()[i as int].unit, ..old(self).spec_tiles()[i as int] },
            ),
    {
        if self.tiles.grid[i].unit.is_none() {
            return None;
        }
        let ghost g = self.tiles.grid@;
        let ghost dims = self.tiles.dims;
        let mut u = self.put_unit(i, None).unwrap();
        let ghost u0 = u;
        let r = u.edit(edit);
        proof {
            lemma_edit_keeps(u0, u, *edit);
            assert(unit_keys(u.spec_carried()) =~= unit_keys(u0.spec_carried()));
            assert(tile_ok(g[i as int], dims.spec_loc(i as int)));
        }
        self.put_unit(i, Some(u));
        proof {
            let g2 = self.tiles.grid@;
            lemma_shapes_update(g, i as int, g2[i as int]);
            assert(shape(g2[i as int]) == shape(g[i as int]));
            assert(shapes(g2) =~= shapes(g));
            Self::lemma_grid_ok_update(g, dims, i as int, g2[i as int]);
        }
        Some(r)
    }

    /// Restore a turn's worth of moves to all of the player's units, top-level and carried.
    pub fn refresh_player_unit_moves_remaining(&mut self, player: PlayerNum)
        requires
            old(self).wf(),
        ensures
            final(self).wf(),
            final(self).same_frame(*old(self)),
            final(self).spec_tiles().len() == old(self).spec_tiles().len(),
            forall|j: int| 0 <= j < old(self).spec_tiles().len() ==> tile_refreshed_for(
                player,
                #[trigger] old(self).spec_tiles()[j],
                final(self).spec_tiles()[j],
            ),
    {
        let ghost g0 = self.tiles.grid@;
        let n = self.tiles.grid.len();
        let mut i: usize = 0;
        while i < n
            invariant
                self.wf(),
                self.same_frame(*old(self)),
                g0 == old(self).spec_tiles(),
                n == g0.len(),
                self.spec_tiles().len() == n,
                i <= n,
                forall|j: int| 0 <= j < i ==> tile_refreshed_for(player, #[trigger] g0[j], self.spec_tiles()[j]),
                forall|j: int| i <= j < n ==> #[trigger] self.spec_tiles()[j] == g0[j],
            decreases n - i,
        {
            let is_players = match &self.tiles.grid[i].unit {
                Some(u) => u.belongs_to_player(player),
                None => false,
            };
            if is_players {
                self.edit_toplevel_at(i, &UnitEdit::RefreshMoves);
            }
            i = i + 1;
        }
    }

    /// Fill the fuel of the player's units that are sheltered: those a unit carries, and top-level ones standing in
    /// a city on their side.
    pub fn refuel_player_units_sheltered(&mut self, player: PlayerNum)
        requires
            old(self).wf(),
        ensures
            final(self).wf(),
            final(self).same_frame(*old(self)),
            final(self).spec_tiles().len() == old(self).spec_tiles().len(),
            forall|j: int| 0 <= j < old(self).spec_tiles().len() ==> tile_refueled_for(
                player,
                #[trigger] old(self).spec_tiles()[j],
                final(self).spec_tiles()[j],
            ),
    {
        let ghost g0 = self.tiles.grid@;
        let n = self.tiles.grid.len();
        let mut i: usize = 0;
        while i < n
            invariant
                self.wf(),
                self.same_frame(*old(self)),
                g0 == old(self).spec_tiles(),
                n == g0.len(),
                self.spec_tiles().len() == n,
                i <= n,
                forall|j: int| 0 <= j < i ==> tile_refueled_for(player, #[trigger] g0[j], self.spec_tiles()[j]),
                forall|j: int| i <= j < n ==> #[trigger] self.spec_tiles()[j] == g0[j],
            decreases n - i,
        {
            let (is_players, in_own_city) = match &self.tiles.grid[i].unit {
                Some(u) => (u.belongs_to_player(player), match &self.tiles.grid[i].city {
                    Some(c) => c.alignment == u.alignment,
                    None => false,
                }),
                None => (false, false),
            };
            if is_players {
                self.edit_toplevel_at(i, &UnitEdit::Refuel { self_too: in_own_city });
            }
            i = i + 1;
        }
    }

    /// Count one more unit of production in each of the player's producing cities, up to the highest unit cost.
    pub fn increment_player_city_production_targets(&mut self, player: PlayerNum)
        requires
            old(self).wf(),
        ensures
            final(self).wf(),
            final(self).same_frame(*old(self)),
            final(self).spec_tiles().len() == old(self).spec_tiles().len(),
            forall|j: int| 0 <= j < old(self).spec_tiles().len() ==> tile_production_incremented(
                player,
                spec_max_unit_cost(),
                #[trigger] old(self).spec_tiles()[j],
                final(self).spec_tiles()[j],
            ),
    {
        let cap = max_unit_cost();
        let ghost g0 = self.tiles.grid@;
        let n = self.tiles.grid.len();
        let mut i: usize = 0;
        while i < n
            invariant
                self.wf(),
                self.same_frame(*old(self)),
                g0 == old(self).spec_tiles(),
                n == g0.len(),
                self.spec_tiles().len() == n,
                i <= n,
                forall|j: int| 0 <= j < i ==> tile_production_incremented(player, cap, #[trigger] g0[j], self.spec_tiles()[j]),
                forall|j: int| i <= j < n ==> #[trigger] self.spec_tiles()[j] == g0[j],
            decreases n - i,
        {
            let producing = match &self.tiles.grid[i].city {
                Some(c) => c.belongs_to_player(player) && c.production().is_some(),
                None => false,
            };
            if producing {
                self.edit_city_at(i, &CityEdit::IncrementProductionProgress { cap });
            }
            i = i + 1;
        }
    }
}


/// The number of units of each type among the counts of the given side, in the order the counts list them.
pub open spec fn unit_counts_for(counts: Seq<(Alignment, UnitType, u64)>, a: Alignment) -> Seq<(UnitType, u64)>
    decreases counts.len(),
{
    if counts.len() == 0 {
        Seq::empty()
    } else if counts.last().0 == a {
        unit_counts_for(counts.drop_last(), a).push((counts.last().1, counts.last().2))
    } else {
        unit_counts_for(counts.drop_last(), a)
    }
}

impl MapData {
    /// The number of units on the map of the given side and type.
    pub open spec fn spec_unit_count(self, a: Alignment, t: UnitType) -> nat {
        grid_unit_count(shapes(self.spec_tiles()), a, t)
    }

    /// The number of cities on the map of the given side.
    pub open spec fn spec_city_count(self, a: Alignment) -> nat {
        grid_city_count(shapes(self.spec_tiles()), a)
    }

    /// Has the side ever held a city on this map?
    pub open spec fn spec_city_count_listed(self, a: Alignment) -> bool {
        exists|k: int| 0 <= k < self.spec_city_counts().len() && (#[trigger] self.spec_city_counts()[k]).0 == a
    }

    /// Has the side ever held a unit on this map?
    pub open spec fn spec_unit_count_listed(self, a: Alignment) -> bool {
        exists|k: int| 0 <= k < self.spec_unit_counts().len() && (#[trigger] self.spec_unit_counts()[k]).0 == a
    }

    /// The players, that is the sides other than neutral, that have at least one city or unit on this map.
    pub open spec fn spec_players(self) -> Set<Alignment> {
        Set::new(
            |a: Alignment| a is Belligerent && (self.spec_city_count(a) > 0 || exists|t: UnitType| #[trigger] self.spec_unit_count(a, t) > 0),
        )
    }

    /// How many cities the player controls; an error if the player has never held one.
    pub fn player_city_count(&self, player: PlayerNum) -> (r: Result<usize, GameError>)
        requires
            self.wf(),
        ensures
            self.spec_city_count_listed(Alignment::Belligerent { player }) ==> (r matches Ok(n) && n
                == self.spec_city_count(Alignment::Belligerent { player })),
            !self.spec_city_count_listed(Alignment::Belligerent { player }) ==> r == Err::<usize, GameError>(
                GameError::NoSuchPlayer { player },
            ),
    {
        match city_count_entry(&self.alignment_city_counts, Alignment::Belligerent { player }) {
            Some(k) => {
                proof {
                    assert(self.spec_city_counts()[k as int].0 == Alignment::Belligerent { player });
                }
                Ok(self.alignment_city_counts[k].1)
            },
            None => {
                proof {
                    assert forall|k: int| 0 <= k < self.spec_city_counts().len() implies (#[trigger] self.spec_city_counts()[k]).0
                        != (Alignment::Belligerent { player }) by {
                        assert(self.alignment_city_counts@[k].0 != (Alignment::Belligerent { player }));
                    }
                }
                Err(GameError::NoSuchPlayer { player })
            },
        }
    }

    /// How many units of each type the player controls, for each type the player has ever had; an error if the
    /// player has never had a unit.
    #[verifier::spinoff_prover]
    pub fn player_unit_type_counts(&self, player: PlayerNum) -> (r: Result<Vec<(UnitType, u64)>, GameError>)
        requires
            self.wf(),
        ensures
            !self.spec_unit_count_listed(Alignment::Belligerent { player }) ==> r == Err::<Vec<(UnitType, u64)>, GameError>(
                GameError::NoSuchPlayer { player },
            ),
            self.spec_unit_count_listed(Alignment::Belligerent { player }) ==> (r matches Ok(v) && v@
                == unit_counts_for(self.spec_unit_counts(), Alignment::Belligerent { player })),
            r matches Ok(v) ==> forall|k: int| 0 <= k < v@.len() ==> (#[trigger] v@[k]).1 == self.spec_unit_count(
                Alignment::Belligerent { player },
                v@[k].0,
            ),
            r matches Ok(v) ==> forall|t: UnitType| #[trigger] self.spec_unit_count(Alignment::Belligerent { player }, t)
                > 0 ==> exists|k: int| 0 <= k < v@.len() && (#[trigger] v@[k]).0 == t,
    {
        let a = Alignment::Belligerent { player };
        let counts = &self.alignment_unit_type_counts;
        let ghost s = shapes(self.tiles.grid@);
        let mut v: Vec<(UnitType, u64)> = Vec::new();
        let mut listed = false;
        let mut i: usize = 0;
        while i < counts.len()
            invariant
                i <= counts@.len(),
                counts@ == self.spec_unit_counts(),
                unit_counts_ok(counts@, s),
                s == shapes(self.spec_tiles()),
                v@ == unit_counts_for(counts@.take(i as int), a),
                listed <==> exists|k: int| 0 <= k < i && (#[trigger] counts@[k]).0 == a,
                forall|k: int| 0 <= k < v@.len() ==> (#[trigger] v@[k]).1 == grid_unit_count(s, a, v@[k].0),
                forall|j: int| 0 <= j < i && (#[trigger] counts@[j]).0 == a ==> exists|k: int| 0 <= k < v@.len()
                    && (#[trigger] v@[k]).0 == counts@[j].1,
            decreases counts@.len() - i,
        {
            proof {
                assert(counts@.take(i as int + 1).drop_last() =~= counts@.take(i as int));
            }
            let e = counts[i];
            if e.0 == a {
                listed = true;
                let ghost before = v@;
                v.push((e.1, e.2));
                proof {
                    assert(v@[before.len() as int] == (e.1, e.2));
                    assert forall|j: int| 0 <= j < i + 1 && (#[trigger] counts@[j]).0 == a implies exists|k: int|
                        0 <= k < v@.len() && (#[trigger] v@[k]).0 == counts@[j].1 by {
                        if j < i {
                            let k = choose|k: int| 0 <= k < before.len() && (#[trigger] before[k]).0 == counts@[j].1;
                            assert(v@[k] == before[k]);
                        } else {
                            assert(v@[before.len() as int].0 == counts@[j].1);
                        }
                    }
                    assert forall|k: int| 0 <= k < v@.len() implies (#[trigger] v@[k]).1 == grid_unit_count(s, a, v@[k].0) by {
                        if k < before.len() {
                            assert(v@[k] == before[k]);
                        }
                    }
                }
            }
            i = i + 1;
        }
        proof {
            assert(counts@.take(counts@.len() as int) =~= counts@);
        }
        if listed {
            proof {
                assert forall|t: UnitType| #[trigger] grid_unit_count(s, a, t) > 0 implies exists|k: int|
                    0 <= k < v@.len() && (#[trigger] v@[k]).0 == t by {
                    let j = choose|j: int| 0 <= j < counts@.len() && (#[trigger] counts@[j]).0 == a && counts@[j].1 == t;
                }
            }
            Ok(v)
        } else {
            Err(GameError::NoSuchPlayer { player })
        }
    }

    /// The number of players, that is of sides other than neutral, that have at least one city or unit here.
    pub fn players(&self) -> (n: usize)
        requires
            self.wf(),
        ensures
            n == self.spec_players().len(),
    {
        let cc = &self.alignment_city_counts;
        let uc = &self.alignment_unit_type_counts;
        let mut v: Vec<Alignment> = Vec::new();
        let mut i: usize = 0;
        while i < cc.len()
            invariant
                i <= cc@.len(),
                cc@ == self.spec_city_counts(),
                v@.no_duplicates(),
                forall|a: Alignment| #[trigger] v@.contains(a) <==> (a is Belligerent && exists|k: int|
                    0 <= k < i && (#[trigger] cc@[k]).0 == a && cc@[k].1 > 0),
            decreases cc@.len() - i,
        {
            let a = cc[i].0;
            if a.is_belligerent() && cc[i].1 > 0 && !vec_contains_alignment(&v, a) {
                let ghost before = v@;
                v.push(a);
                proof {
                    lemma_push_contains(before, a);
                }
            }
            proof {
                assert forall|b: Alignment| #[trigger] v@.contains(b) <==> (b is Belligerent && exists|k: int|
                    0 <= k < i + 1 && (#[trigger] cc@[k]).0 == b && cc@[k].1 > 0) by {
                    if b is Belligerent && exists|k: int| 0 <= k < i + 1 && (#[trigger] cc@[k]).0 == b && cc@[k].1 > 0 {
                        let k = choose|k: int| 0 <= k < i + 1 && (#[trigger] cc@[k]).0 == b && cc@[k].1 > 0;
                        if k == i {
                        }
                    }
                }
            }
            i = i + 1;
        }
        let mut j: usize = 0;
        while j < uc.len()
            invariant
                j <= uc@.len(),
                cc@ == self.spec_city_counts(),
                uc@ == self.spec_unit_counts(),
                v@.no_duplicates(),
                forall|a: Alignment| #[trigger] v@.contains(a) <==> (a is Belligerent && ((exists|k: int|
                    0 <= k < cc@.len() && (#[trigger] cc@[k]).0 == a && cc@[k].1 > 0) || exists|k: int|
                    0 <= k < j && (#[trigger] uc@[k]).0 == a && uc@[k].2 > 0)),
            decreases uc@.len() - j,
        {
            let a = uc[j].0;
            if a.is_belligerent() && uc[j].2 > 0 && !vec_contains_alignment(&v, a) {
                let ghost before = v@;
                v.push(a);
                proof {
                    lemma_push_contains(before, a);
                }
            }
            proof {
                assert forall|b: Alignment| #[trigger] v@.contains(b) <==> (b is Belligerent && ((exists|k: int|
                    0 <= k < cc@.len() && (#[trigger] cc@[k]).0 == b && cc@[k].1 > 0) || exists|k: int|
                    0 <= k < j + 1 && (#[trigger] uc@[k]).0 == b && uc@[k].2 > 0)) by {
                    if b is Belligerent && exists|k: int| 0 <= k < j + 1 && (#[trigger] uc@[k]).0 == b && uc@[k].2 > 0 {
                        let k = choose|k: int| 0 <= k < j + 1 && (#[trigger] uc@[k]).0 == b && uc@[k].2 > 0;
                        if k == j {
                        }
                    }
                }
            }
            j = j + 1;
        }
        proof {
            law_counts_agree(*self);
            let g = shapes(self.spec_tiles());
            assert forall|a: Alignment| #[trigger] v@.to_set().contains(a) <==> self.spec_players().contains(a) by {
                if a is Belligerent && self.spec_city_count(a) > 0 {
                    let k = choose|k: int| 0 <= k < cc@.len() && (#[trigger] cc@[k]).0 == a;
                    assert(cc@[k].1 == self.spec_city_count(a));
                }
                if a is Belligerent && exists|t: UnitType| #[trigger] self.spec_unit_count(a, t) > 0 {
                    let t = choose|t: UnitType| #[trigger] self.spec_unit_count(a, t) > 0;
                    assert(grid_unit_count(g, a, t) > 0);
                    let k = choose|k: int| 0 <= k < uc@.len() && (#[trigger] uc@[k]).0 == a && uc@[k].1 == t;
                    assert(uc@[k].2 == self.spec_unit_count(a, t));
                }
                if exists|k: int| 0 <= k < cc@.len() && (#[trigger] cc@[k]).0 == a && cc@[k].1 > 0 {
                    let k = choose|k: int| 0 <= k < cc@.len() && (#[trigger] cc@[k]).0 == a && cc@[k].1 > 0;
                    assert(cc@[k].1 == self.spec_city_count(a));
                }
                if exists|k: int| 0 <= k < uc@.len() && (#[trigger] uc@[k]).0 == a && uc@[k].2 > 0 {
                    let k = choose|k: int| 0 <= k < uc@.len() && (#[trigger] uc@[k]).0 == a && uc@[k].2 > 0;
                    assert(uc@[k].2 == self.spec_unit_count(a, uc@[k].1));
                    assert(self.spec_unit_count(a, uc@[k].1) > 0);
                }
            }
            assert(v@.to_set() =~= self.spec_players());
            v@.unique_seq_to_set();
        }
        v.len()
    }
}

/// Pushing an item onto a list without duplicates that lacks it keeps it without duplicates, and adds just it.
proof fn lemma_push_contains(before: Seq<Alignment>, a: Alignment)
    requires
        before.no_duplicates(),
        !before.contains(a),
    ensures
        before.push(a).no_duplicates(),
        forall|b: Alignment| #[trigger] before.push(a).contains(b) <==> (before.contains(b) || b == a),
{
    let v = before.push(a);
    assert forall|b: Alignment| #[trigger] v.contains(b) <==> (before.contains(b) || b == a) by {
        if v.contains(b) {
            let k = choose|k: int| 0 <= k < v.len() && v[k] == b;
            if k < before.len() {
                assert(before[k] == b);
            }
        }
        if before.contains(b) {
            let k = choose|k: int| 0 <= k < before.len() && before[k] == b;
            assert(v[k] == b);
        }
        if b == a {
            assert(v[before.len() as int] == a);
        }
    }
    assert forall|x: int, y: int| 0 <= x < v.len() && 0 <= y < v.len() && x != y implies v[x] != v[y] by {
        if x < before.len() && y < before.len() {
        } else if x == before.len() {
            assert(before.contains(v[y]) || y == x);
        } else {
            assert(before.contains(v[x]));
        }
    }
}

/// Does the list hold the alignment?
fn vec_contains_alignment(v: &Vec<Alignment>, a: Alignment) -> (b: bool)
    ensures
        b == v@.contains(a),
{
    let mut i: usize = 0;
    while i < v.len()
        invariant
            i <= v@.len(),
            forall|k: int| 0 <= k < i ==> v@[k] != a,
        decreases v@.len() - i,
    {
        if v[i] == a {
            return true;
        }
        i = i + 1;
    }
    false
}


/// The highest ID among the top-level units of the tiles, if there are any.
pub open spec fn max_toplevel_unit_id(g: Seq<Tile>) -> Option<u64>
    decreases g.len(),
{
    if g.len() == 0 {
        None
    } else {
        let m = max_toplevel_unit_id(g.drop_last());
        match g.last().unit {
            Some(u) => match m {
                Some(x) => if u.id.id > x { Some(u.id.id) } else { Some(x) },
                None => Some(u.id.id),
            },
            None => m,
        }
    }
}

/// The highest ID among the cities of the tiles, if there are any.
pub open spec fn max_city_id(g: Seq<Tile>) -> Option<u64>
    decreases g.len(),
{
    if g.len() == 0 {
        None
    } else {
        let m = max_city_id(g.drop_last());
        match g.last().city {
            Some(c) => match m {
                Some(x) => if c.id.id > x { Some(c.id.id) } else { Some(x) },
                None => Some(c.id.id),
            },
            None => m,
        }
    }
}

/// The ID after the highest one, or the first ID if there is none.
pub open spec fn id_after(m: Option<u64>) -> u64 {
    match m {
        Some(x) => (x + 1) as u64,
        None => 0,
    }
}

/// The tiles can make up a map of the given dimensions: each is where it belongs, with a well-formed unit; no
/// unit ID or city ID is used twice; and the IDs after the highest ones can be had.
pub open spec fn tiles_indexable(g: Seq<Tile>, dims: Dims) -> bool {
    &&& grid_ok(g, dims)
    &&& (max_toplevel_unit_id(g) matches Some(m) ==> m < u64::MAX)
    &&& (max_city_id(g) matches Some(m) ==> m < u64::MAX)
    &&& forall|i: int, j: int, x: UnitID|
        0 <= i < j < g.len() ==> !(#[trigger] tile_has_unit(g[i], x) && #[trigger] tile_has_unit(g[j], x))
    &&& forall|i: int, j: int|
        0 <= i < j < g.len() && (#[trigger] g[i]).city is Some && (#[trigger] g[j]).city is Some ==> g[i].city->0.id
            != g[j].city->0.id
    &&& forall|i: int| 0 <= i < g.len() && (#[trigger] g[i]).unit is Some ==> unit_ids_below(
        g[i].unit->0,
        id_after(max_toplevel_unit_id(g)),
    ) && {
        let u = g[i].unit->0;
        &&& forall|k: int| 0 <= k < u.spec_carried().len() ==> (#[trigger] u.spec_carried()[k]).id != u.id
        &&& forall|k1: int, k2: int|
            0 <= k1 < k2 < u.spec_carried().len() ==> (#[trigger] u.spec_carried()[k1]).id != (#[trigger] u.spec_carried()[k2]).id
    }
}

/// What the indices record of a tile before its city and units are indexed.
pub open spec fn empty_shape(t: Tile) -> TileShape {
    TileShape { loc: t.loc, top: None, carried: Seq::empty(), city: None }
}

/// The shapes of the tiles with those before `n` indexed.
pub open spec fn partial_shapes(g: Seq<Tile>, n: int) -> Seq<TileShape> {
    Seq::new(g.len(), |j: int| if j < n { shape(g[j]) } else { empty_shape(g[j]) })
}

proof fn lemma_max_ids(g: Seq<Tile>)
    ensures
        forall|i: int| 0 <= i < g.len() && (#[trigger] g[i]).unit is Some ==> (max_toplevel_unit_id(g) matches Some(m)
            && g[i].unit->0.id.id <= m),
        forall|i: int| 0 <= i < g.len() && (#[trigger] g[i]).city is Some ==> (max_city_id(g) matches Some(m)
            && g[i].city->0.id.id <= m),
    decreases g.len(),
{
    if g.len() > 0 {
        lemma_max_ids(g.drop_last());
        assert forall|i: int| 0 <= i < g.len() - 1 implies #[trigger] g[i] == g.drop_last()[i] by {}
    }
}

/// Nothing is indexed yet.
proof fn lemma_nothing_indexed(s: Seq<TileShape>, dims: Dims)
    requires
        s.len() == dims.spec_area(),
        forall|i: int| 0 <= i < s.len() ==> (#[trigger] s[i]).top is None && s[i].carried.len() == 0 && s[i].city is None
            && s[i].loc == dims.spec_loc(i),
    ensures
        shapes_located(s, dims),
        units_indexed(Map::empty(), Map::empty(), s, dims),
        cities_indexed(Map::empty(), s, dims),
        ids_below(s, 0, 0),
        city_counts_ok(Seq::empty(), s),
        unit_counts_ok(Seq::empty(), s),
{
    assert forall|a: Alignment| #[trigger] grid_city_count(s, a) == 0 by {
        lemma_grid_counts_empty(s, a, UnitType::Infantry);
    }
    assert forall|a: Alignment, t: UnitType| #[trigger] grid_unit_count(s, a, t) == 0 by {
        lemma_grid_counts_empty(s, a, t);
    }
}

impl MapData {
    /// A map made of the given tiles, with the units and cities on them indexed; the next IDs handed out follow the
    /// highest ones in use at top level.
    pub fn new_from_grid(tiles: LocationGrid<Tile>) -> (m: MapData)
        requires
            tiles.wf(),
            tiles_indexable(tiles.grid@, tiles.dims),
        ensures
            m.wf(),
            m.spec_dims() == tiles.dims,
            m.spec_tiles() == tiles.grid@,
            m.spec_next_unit_id().id == id_after(max_toplevel_unit_id(tiles.grid@)),
            m.spec_next_city_id().id == id_after(max_city_id(tiles.grid@)),
    {
        let ghost g = tiles.grid@;
        let ghost dims = tiles.dims;
        let mut max_unit: Option<u64> = None;
        let mut max_city: Option<u64> = None;
        let mut i: usize = 0;
        while i < tiles.grid.len()
            invariant
                g == tiles.grid@,
                i <= g.len(),
                max_unit == max_toplevel_unit_id(g.take(i as int)),
                max_city == max_city_id(g.take(i as int)),
            decreases g.len() - i,
        {
            proof {
                assert(g.take(i as int + 1).drop_last() =~= g.take(i as int));
            }
            if let Some(ref u) = tiles.grid[i].unit {
                max_unit = match max_unit {
                    Some(x) => if u.id.id > x { Some(u.id.id) } else { Some(x) },
                    None => Some(u.id.id),
                };
            }
            if let Some(ref c) = tiles.grid[i].city {
                max_city = match max_city {
                    Some(x) => if c.id.id > x { Some(c.id.id) } else { Some(x) },
                    None => Some(c.id.id),
                };
            }
            i = i + 1;
        }
        proof {
            assert(g.take(g.len() as int) =~= g);
            lemma_max_ids(g);
        }
        let next_unit_id = match max_unit {
            Some(x) => UnitID::new(x + 1),
            None => UnitID::default(),
        };
        let next_city_id = match max_city {
            Some(x) => CityID::new(x + 1),
            None => CityID::default(),
        };
        let mut m = MapData {
            tiles,
            unit_loc_by_id: HashMap::new(),
            unit_carrier_by_id: HashMap::new(),
            city_loc_by_id: HashMap::new(),
            next_unit_id,
            next_city_id,
            alignment_city_counts: Vec::new(),
            alignment_unit_type_counts: Vec::new(),
        };
        proof {
            assert forall|j: int| 0 <= j < g.len() implies #[trigger] partial_shapes(g, 0)[j] == empty_shape(g[j]) by {}
            assert forall|j: int| 0 <= j < g.len() implies (#[trigger] partial_shapes(g, 0)[j]).loc == dims.spec_loc(j) by {
                assert(tile_ok(g[j], dims.spec_loc(j)));
            }
            lemma_nothing_indexed(partial_shapes(g, 0), dims);
        }
        let n = m.tiles.grid.len();
        let mut i: usize = 0;
        while i < n
            invariant
                n == g.len(),
                g == m.tiles.grid@,
                dims == m.tiles.dims,
                g.len() == dims.spec_area(),
                tiles_indexable(g, dims),
                i <= n,
                m.next_unit_id.id == id_after(max_toplevel_unit_id(g)),
                m.next_city_id.id == id_after(max_city_id(g)),
                m.index_ok(partial_shapes(g, i as int)),
            decreases n - i,
        {
            let ghost s = partial_shapes(g, i as int);
            proof {
                assert(tile_ok(g[i as int], dims.spec_loc(i as int)));
                lemma_max_ids(g);
                assert(s[i as int] == empty_shape(g[i as int]));
            }
            let ghost mut s1 = s;
            if m.tiles.grid[i].city.is_some() {
                let c = m.tiles.grid[i].city.as_ref().unwrap().duplicate();
                proof {
                    if m.city_loc_by_id@.contains_key(c.id.id) {
                        let l = m.city_loc_by_id@[c.id.id];
                        lemma_index_in_bounds(dims, l);
                        let j = dims.spec_index(l);
                        assert(s[j].city is Some);
                        assert(j < i);
                        assert(s[j] == shape(g[j]));
                        assert(g[j].city->0.id == c.id);
                    }
                }
                m.index_city(&c, Ghost(s), Ghost(i as int));
                proof {
                    s1 = s.update(i as int, TileShape { city: Some(CityKey { id: c.id, alignment: c.alignment }), ..s[i as int] });
                }
            }
            if m.tiles.grid[i].unit.is_some() {
                let u = m.tiles.grid[i].unit.as_ref().unwrap().duplicate();
                proof {
                    let u0 = g[i as int].unit->0;
                    assert(u.spec_carried() == u0.spec_carried());
                    assert(unit_ids_below(u0, id_after(max_toplevel_unit_id(g))));
                    assert forall|x: UnitID| tile_has_unit(g[i as int], x) implies !m.unit_loc_by_id@.contains_key(x.id) by {
                        lemma_locs_iff_shapes(m.unit_loc_by_id@, m.unit_carrier_by_id@, s1, dims, x.id);
                        if m.unit_loc_by_id@.contains_key(x.id) {
                            let j = choose|j: int| 0 <= j < s1.len() && shape_has(#[trigger] s1[j], x.id);
                            if j >= i {
                                assert(s1[j].top is None && s1[j].carried.len() == 0);
                            }
                            assert(s1[j] == shape(g[j]));
                            lemma_tile_has_unit_shape(g[j], x);
                            assert(tile_has_unit(g[j], x));
                        }
                    }
                    assert(tile_has_unit(g[i as int], u.id));
                    assert forall|k: int| 0 <= k < u.spec_carried().len() implies !m.unit_loc_by_id@.contains_key(
                        (#[trigger] u.spec_carried()[k]).id.id,
                    ) by {
                        assert(tile_has_unit(g[i as int], u.spec_carried()[k].id));
                    }
                }
                m.index_toplevel_unit(&u, Ghost(s1), Ghost(i as int));
                proof {
                    let u0 = g[i as int].unit->0;
                    assert(unit_key(u) == unit_key(u0));
                    assert(s1[i as int].city == shape(g[i as int]).city);
                    assert(shape_with_unit(s1[i as int], u) == shape(g[i as int]));
                    assert(s1.update(i as int, shape_with_unit(s1[i as int], u)) =~= partial_shapes(g, i as int + 1));
                }
            } else {
                proof {
                    assert(unit_keys(Seq::<Unit>::empty()) =~= Seq::<UnitKey>::empty());
                    assert(s1[i as int].city == shape(g[i as int]).city);
                    assert(s1[i as int] == shape(g[i as int]));
                    assert(s1 =~= partial_shapes(g, i as int + 1));
                }
            }
            i = i + 1;
        }
        proof {
            assert(partial_shapes(g, n as int) =~= shapes(g));
        }
        m
    }
}


impl MapData {
    /// The player's unit with ID `id`, top-level or carried, to change in place.
    ///
    /// The map stays well-formed only if the unit keeps its ID, side, type, location and cargo.
    pub fn player_unit_by_id_mut(&mut self, player: PlayerNum, id: UnitID) -> (r: Option<&mut Unit>)
        requires
            old(self).wf(),
        ensures
            !old(self).spec_is_player_unit(player, id) ==> r is None && *final(self) == *old(self),
            old(self).spec_is_player_unit(player, id) ==> (r matches Some(u) && old(self).spec_unit_by_id(id) == Some(*u)
                && grid_unit_replaced(old(self).spec_tiles(), final(self).spec_tiles(), id, *final(u))),
            final(self).same_frame(*old(self)),
    {
        if self.player_unit_by_id(player, id).is_none() {
            return None;
        }
        proof {
            self.lemma_unit_lookup(id);
        }
        let loc = *self.unit_loc_by_id.get(&id.id).unwrap();
        let i = self.tiles.dims.index(loc);
        let ghost g = self.tiles.grid@;
        proof {
            lemma_index_in_bounds(self.tiles.dims, loc);
            self.lemma_carried_distinct(i as int);
        }
        let top_matches = self.tiles.grid[i].unit.as_ref().unwrap().id == id;
        if top_matches {
            proof {
                assert(tile_has_unit(g[i as int], id));
                self.lemma_grid_unit_at(g, i as int, id);
                assert(forall|k: int| 0 <= k < g.len() && k != i ==> #[trigger] self.tiles.grid@[k] == g[k]);
            }
            let t = &mut self.tiles.grid[i];
            return t.unit.as_mut();
        }
        let k = self.tiles.grid[i].unit.as_ref().unwrap().carried_index(id).unwrap();
        proof {
            self.lemma_carried_unit_at(i as int, k as int, id);
            assert(tile_ok(g[i as int], self.tiles.dims.spec_loc(i as int)));
        }
        let t = &mut self.tiles.grid[i];
        let u = t.unit.as_mut().unwrap();
        let cs = u.carrying_space.as_mut().unwrap();
        Some(&mut cs.space[k])
    }
}

/// On a well-formed map a unit ID names one unit at most: no two tiles hold a unit with the same ID.
pub proof fn law_unit_ids_unique(m: MapData, i: int, k: int, id: UnitID)
    requires
        m.wf(),
        0 <= i < m.spec_tiles().len(),
        0 <= k < m.spec_tiles().len(),
        tile_has_unit(m.spec_tiles()[i], id),
        tile_has_unit(m.spec_tiles()[k], id),
    ensures
        i == k,
{
    m.lemma_unit_on_one_tile(i, k, id);
}

/// The counts a well-formed map keeps agree with its tiles: each listed count of cities, or of units of a type,
/// is the number of them on the map, and every side holding one is listed.
pub proof fn law_counts_agree(m: MapData)
    requires
        m.wf(),
    ensures
        forall|k: int| 0 <= k < m.spec_city_counts().len() ==> #[trigger] m.spec_city_counts()[k].1 == m.spec_city_count(
            m.spec_city_counts()[k].0,
        ),
        forall|a: Alignment| #[trigger] m.spec_city_count(a) > 0 ==> m.spec_city_count_listed(a),
        forall|k: int| 0 <= k < m.spec_unit_counts().len() ==> #[trigger] m.spec_unit_counts()[k].2 == m.spec_unit_count(
            m.spec_unit_counts()[k].0,
            m.spec_unit_counts()[k].1,
        ),
        forall|a: Alignment, t: UnitType| #[trigger] m.spec_unit_count(a, t) > 0 ==> m.spec_unit_count_listed(a),
{
    let s = shapes(m.spec_tiles());
    assert forall|a: Alignment, t: UnitType| #[trigger] m.spec_unit_count(a, t) > 0 implies m.spec_unit_count_listed(a) by {
        assert(grid_unit_count(s, a, t) > 0);
        let k = choose|k: int| 0 <= k < m.spec_unit_counts().len() && (#[trigger] m.spec_unit_counts()[k]).0 == a
            && m.spec_unit_counts()[k].1 == t;
    }
    assert forall|a: Alignment| #[trigger] m.spec_city_count(a) > 0 implies m.spec_city_count_listed(a) by {
        assert(grid_city_count(s, a) > 0);
    }
}


impl MapData {
    /// The ID the next unit created will have.
    pub fn next_unit_id(&self) -> (id: UnitID)
        ensures
            id == self.spec_next_unit_id(),
    {
        self.next_unit_id
    }

    /// The ID the next city founded will have.
    pub fn next_city_id(&self) -> (id: CityID)
        ensures
            id == self.spec_next_city_id(),
    {
        self.next_city_id
    }
}

} // verus!
