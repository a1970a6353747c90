//! Cities.
use vstd::prelude::*;

use crate::game::alignment::{Aligned, AlignedMaybe, Alignment};
use crate::game::unit::UnitType;
use crate::util::{Located, Location, decimal, spec_decimal};

verus! {

#[derive(Clone, Copy, Debug, PartialEq, Eq, Hash, PartialOrd, Ord, Structural)]
pub struct CityID {
    pub id: u64,
}

impl CityID {
    pub fn new(id: u64) -> (r: CityID)
        ensures
            r.id == id,
    {
        CityID { id }
    }

    pub fn next(self) -> (r: CityID)
        requires
            self.id < u64::MAX,
        ensures
            r.id == self.id + 1,
    {
        CityID { id: self.id + 1 }
    }

    /// The first city ID handed out.
    pub fn default() -> (r: CityID)
        ensures
            r.id == 0,
    {
        CityID { id: 0 }
    }
}

pub const CITY_MAX_HP: u16 = 1;

#[derive(Clone, Debug, PartialEq, Eq, Hash)]
pub struct City {
    pub id: CityID,
    pub alignment: Alignment,
    pub loc: Location,
    pub hp: u16,
    pub production: Option<UnitType>,
    pub production_progress: u16,
    pub name: String,
    /// When set, even a production of `None` will not bring this city's production menu up.
    pub ignore_cleared_production: bool,
}

impl City {
    pub fn new(id: CityID, alignment: Alignment, loc: Location, name: &str) -> (c: City)
        ensures
            c.id == id,
            c.alignment == alignment,
            c.loc == loc,
            c.hp == CITY_MAX_HP,
            c.production is None,
            c.production_progress == 0,
            c.name@ == name@,
            !c.ignore_cleared_production,
    {
        City {
            id,
            loc,
            alignment,
            hp: CITY_MAX_HP,
            production: None,
            production_progress: 0,
            name: name.to_owned(),
            ignore_cleared_production: false,
        }
    }

    pub fn name(&self) -> (n: &String)
        ensures
            n == &self.name,
    {
        &self.name
    }

    pub fn short_desc(&self) -> (s: String)
        ensures
            s@ == "City "@ + self.name@,
    {
        let mut s = String::from_str("City ");
        s.append(self.name.as_str());
        proof {
            reveal_strlit("City ");
        }
        s
    }

    /// Set the city's production and return its previous status.
    pub fn set_production(&mut self, production: UnitType) -> (prior: Option<UnitType>)
        ensures
            prior == old(self).production,
            *final(self) == (City { production: Some(production), ..*old(self) }),
    {
        let prior = self.production;
        self.production = Some(production);
        prior
    }

    /// Clear the city's production but skip it when looking for un-set productions in the future.
    pub fn clear_production_and_ignore(&mut self)
        ensures
            *final(self) == (City { production: None, ignore_cleared_production: true, ..*old(self) }),
    {
        self.production = None;
        self.ignore_cleared_production = true;
    }

    /// Clear the city's production, and include it in the future when looking for un-set productions.
    pub fn clear_production_without_ignoring(&mut self)
        ensures
            *final(self) == (City { production: None, ignore_cleared_production: false, ..*old(self) }),
    {
        self.production = None;
        self.ignore_cleared_production = false;
    }

    /// Clear the city's production, choosing whether to skip it later, and return the prior production.
    pub fn clear_production(&mut self, ignore_cleared_production: bool) -> (prior: Option<UnitType>)
        ensures
            prior == old(self).production,
            *final(self) == (City { production: None, ignore_cleared_production, ..*old(self) }),
    {
        let prior = self.production.take();
        self.ignore_cleared_production = ignore_cleared_production;
        prior
    }

    pub fn production(&self) -> (p: Option<UnitType>)
        ensures
            p == self.production,
    {
        self.production
    }

    pub fn ignore_cleared_production(&self) -> (b: bool)
        ensures
            b == self.ignore_cleared_production,
    {
        self.ignore_cleared_production
    }

    /// A copy of the city equal to it in every field.
    pub fn duplicate(&self) -> (c: City)
        ensures
            c == *self,
    {
        City {
            id: self.id,
            alignment: self.alignment,
            loc: self.loc,
            hp: self.hp,
            production: self.production,
            production_progress: self.production_progress,
            name: self.name.clone(),
            ignore_cleared_production: self.ignore_cleared_production,
        }
    }

    /// The city as text: its side, its name, and what it produces, if anything, with the progress made.
    pub open spec fn spec_description(self) -> Seq<char> {
        self.alignment.spec_description() + " City "@ + self.name@ + match self.production {
            Some(p) => ", producing "@ + p.spec_name() + " ("@ + spec_decimal(self.production_progress as nat) + "/"@
                + spec_decimal(p.spec_cost() as nat) + ")"@,
            None => Seq::<char>::empty(),
        }
    }

    pub fn description(&self) -> (s: String)
        ensures
            s@ == self.spec_description(),
    {
        let mut s = self.alignment.description();
        s.append(" City ");
        s.append(self.name.as_str());
        if let Some(p) = self.production {
            s.append(", producing ");
            s.append(p.name());
            s.append(" (");
            let progress = decimal(self.production_progress as u64);
            s.append(progress.as_str());
            s.append("/");
            let cost = decimal(p.cost() as u64);
            s.append(cost.as_str());
            s.append(")");
        }
        s
    }

    /// How far a city can see.
    pub fn sight_distance(&self) -> (d: u16)
        ensures
            d == 3,
    {
        3
    }
}

/// A change to a city that keeps its identity, side and location.
pub enum CityEdit {
    ClearProductionProgress,
    ClearProduction { ignore_cleared_production: bool },
    SetProduction { production: UnitType },
    /// Count one more unit of production, unless the progress has reached `cap`.
    IncrementProductionProgress { cap: u16 },
}

impl City {
    /// `c2` is this city after the edit.
    pub open spec fn edited(self, c2: City, edit: CityEdit) -> bool {
        match edit {
            CityEdit::ClearProductionProgress => c2 == (City { production_progress: 0, ..self }),
            CityEdit::ClearProduction { ignore_cleared_production } => c2 == (City {
                production: None,
                ignore_cleared_production,
                ..self
            }),
            CityEdit::SetProduction { production } => c2 == (City { production: Some(production), ..self }),
            CityEdit::IncrementProductionProgress { cap } => if self.production_progress < cap {
                c2 == (City { production_progress: (self.production_progress + 1) as u16, ..self })
            } else {
                c2 == self
            },
        }
    }

    /// Apply an edit; returns the production the city had before.
    pub fn edit(&mut self, edit: &CityEdit) -> (prior: Option<UnitType>)
        ensures
            prior == old(self).production,
            old(self).edited(*final(self), *edit),
    {
        match edit {
            CityEdit::ClearProductionProgress => {
                self.production_progress = 0;
                self.production
            },
            CityEdit::ClearProduction { ignore_cleared_production } => self.clear_production(*ignore_cleared_production),
            CityEdit::SetProduction { production } => self.set_production(*production),
            CityEdit::IncrementProductionProgress { cap } => {
                if self.production_progress < *cap {
                    self.production_progress = self.production_progress + 1;
                }
                self.production
            },
        }
    }
}

impl Located for City {
    open spec fn spec_location(&self) -> Location {
        self.loc
    }

    fn loc(&self) -> (l: Location) {
        self.loc
    }
}

impl Aligned for City {
    open spec fn spec_alignment(&self) -> Alignment {
        self.alignment
    }

    fn alignment(&self) -> (a: Alignment) {
        self.alignment
    }
}

impl AlignedMaybe for City {
    open spec fn spec_alignment_maybe(&self) -> Option<Alignment> {
        Some(self.alignment)
    }

    fn alignment_maybe(&self) -> (a: Option<Alignment>) {
        Some(self.alignment)
    }
}

} // verus!
