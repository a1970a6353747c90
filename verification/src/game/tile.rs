//! Map tiles.
use vstd::prelude::*;

use crate::game::alignment::{AlignedMaybe, Alignment};
use crate::game::city::City;
use crate::game::terrain::Terrain;
use crate::game::unit::{Unit, UnitView};
use crate::util::Location;

verus! {

#[derive(Clone, Debug, PartialEq)]
pub struct Tile {
    pub terrain: Terrain,
    pub unit: Option<Unit>,
    pub city: Option<City>,
    pub loc: Location,
}

/// A tile as a mathematical value.
pub struct TileView {
    pub terrain: Terrain,
    pub unit: Option<UnitView>,
    pub city: Option<City>,
    pub loc: Location,
}

impl View for Tile {
    type V = TileView;

    open spec fn view(&self) -> TileView {
        TileView {
            terrain: self.terrain,
            unit: match self.unit {
                Some(u) => Some(u@),
                None => None,
            },
            city: self.city,
            loc: self.loc,
        }
    }
}

impl Tile {
    pub fn new(terrain: Terrain, loc: Location) -> (t: Tile)
        ensures
            t == (Tile { terrain, unit: None, city: None, loc }),
    {
        Tile { terrain, unit: None, city: None, loc }
    }

    pub open spec fn wf(self) -> bool {
        self.unit matches Some(u) ==> u.wf()
    }

    /// A copy of a well-formed tile, equal to it as a value.
    pub fn duplicate(&self) -> (t: Tile)
        requires
            self.wf(),
        ensures
            t@ == self@,
            t.wf(),
    {
        let unit = match &self.unit {
            Some(u) => Some(u.duplicate()),
            None => None,
        };
        let city = match &self.city {
            Some(c) => Some(c.duplicate()),
            None => None,
        };
        Tile { terrain: self.terrain, unit, city, loc: self.loc }
    }
}

impl AlignedMaybe for Tile {
    /// The alignment of the unit on the tile, or else of its city.
    open spec fn spec_alignment_maybe(&self) -> Option<Alignment> {
        match self.unit {
            Some(u) => Some(u.alignment),
            None => match self.city {
                Some(c) => Some(c.alignment),
                None => None,
            },
        }
    }

    fn alignment_maybe(&self) -> (a: Option<Alignment>) {
        if let Some(ref unit) = self.unit {
            Some(unit.alignment)
        } else if let Some(ref city) = self.city {
            Some(city.alignment)
        } else {
            None
        }
    }
}

} // verus!
