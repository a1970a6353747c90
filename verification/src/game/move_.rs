//! Unit movement: a move, made of steps, and the ways a move can fail.
use vstd::prelude::*;

use crate::game::city::City;
use crate::game::combat::CombatOutcome;
use crate::game::obs::LocatedObs;
use crate::game::unit::{Unit, UnitID};
use crate::game::paths::step;
use crate::util::{Dims, Location, Wrap2d};

verus! {

#[derive(Clone, Debug, PartialEq, Eq, Structural)]
pub enum MoveError {
    ZeroLengthMove,
    RemainingMovesExceeded { intended_distance: u16, moves_remaining: u16 },
    SourceUnitNotAtLocation { src: Location },
    SourceUnitDoesNotExist { id: UnitID },
    SourceUnitWithIdNotAtLocation { id: UnitID, src: Location },
    NoRoute { id: UnitID, src: Location, dest: Location },
    DestinationOutOfBounds,
    InsufficientFuel,
}

/// One step of a move, and what happened on it.
#[derive(Debug, PartialEq)]
pub struct MoveComponent {
    pub prev_loc: Location,
    pub loc: Location,
    /// The unit that carried the moving unit at the end of this step, if any.
    pub carrier: Option<UnitID>,
    pub unit_combat: Option<CombatOutcome<Unit, Unit>>,
    pub city_combat: Option<CombatOutcome<Unit, City>>,
    pub observations_after_move: Vec<LocatedObs>,
    /// Whether the unit ran out of fuel on this step.
    pub fuel_ran_out: bool,
}

impl MoveComponent {
    /// A step from `prev_loc` to `loc` with nothing else happening.
    pub fn new(prev_loc: Location, loc: Location) -> (c: MoveComponent)
        ensures
            c.prev_loc == prev_loc,
            c.loc == loc,
            c.carrier is None,
            c.unit_combat is None,
            c.city_combat is None,
            c.observations_after_move@ == Seq::<LocatedObs>::empty(),
            !c.fuel_ran_out,
    {
        MoveComponent {
            prev_loc,
            loc,
            carrier: None,
            unit_combat: None,
            city_combat: None,
            observations_after_move: Vec::new(),
            fuel_ran_out: false,
        }
    }

    /// Did the unit come through this step: destroyed in no fight, and not out of fuel?
    pub open spec fn spec_moved_successfully(self) -> bool {
        &&& !(self.unit_combat matches Some(c) && !c.attacker_won)
        &&& !(self.city_combat matches Some(c) && !c.attacker_won)
        &&& !self.fuel_ran_out
    }

    pub fn moved_successfully(&self) -> (b: bool)
        ensures
            b == self.spec_moved_successfully(),
    {
        if let Some(ref combat) = self.unit_combat {
            if combat.destroyed() {
                return false;
            }
        }
        if let Some(ref combat) = self.city_combat {
            if combat.destroyed() {
                return false;
            }
        }
        if self.fuel_ran_out {
            return false;
        }
        true
    }

    /// How far the unit went on this step: nothing if it stayed put, one otherwise.
    pub open spec fn spec_distance_moved(self) -> nat {
        if self.prev_loc == self.loc {
            0
        } else {
            1
        }
    }

    pub fn distance_moved(&self) -> (d: usize)
        ensures
            d == self.spec_distance_moved(),
    {
        if self.prev_loc == self.loc {
            0
        } else {
            1
        }
    }
}

/// The distance moved over the steps.
pub open spec fn total_distance(cs: Seq<MoveComponent>) -> nat
    decreases cs.len(),
{
    if cs.len() == 0 {
        0
    } else {
        total_distance(cs.drop_last()) + cs.last().spec_distance_moved()
    }
}

/// Do the steps start at `src`, each from where the one before it ended, each either staying put or going one
/// step in one of the eight directions, wrapping as `wrapping` says?
pub open spec fn steps_follow(dims: Dims, wrapping: Wrap2d, src: Location, cs: Seq<MoveComponent>) -> bool {
    &&& cs.len() > 0 ==> cs[0].prev_loc == src
    &&& forall|i: int| 0 <= i < cs.len() - 1 ==> #[trigger] cs[i + 1].prev_loc == cs[i].loc
    &&& forall|i: int|
        0 <= i < cs.len() ==> (#[trigger] cs[i]).loc == cs[i].prev_loc || exists|q: int|
            0 <= q < 8 && #[trigger] step(dims, wrapping, cs[i].prev_loc, q) == Some(cs[i].loc)
}

/// Appending a step from where the last one ended keeps the steps following on, and adds its distance.
pub proof fn lemma_steps_push(dims: Dims, wrapping: Wrap2d, src: Location, cs: Seq<MoveComponent>, c: MoveComponent)
    requires
        steps_follow(dims, wrapping, src, cs),
        c.prev_loc == (if cs.len() > 0 { cs.last().loc } else { src }),
        c.loc == c.prev_loc || exists|q: int| 0 <= q < 8 && #[trigger] step(dims, wrapping, c.prev_loc, q) == Some(c.loc),
    ensures
        steps_follow(dims, wrapping, src, cs.push(c)),
        total_distance(cs.push(c)) == total_distance(cs) + c.spec_distance_moved(),
{
    let r = cs.push(c);
    assert(r.drop_last() =~= cs);
    assert forall|i: int| 0 <= i < r.len() - 1 implies #[trigger] r[i + 1].prev_loc == r[i].loc by {
        assert(r[i] == cs[i]);
        if i < cs.len() - 1 {
            assert(r[i + 1] == cs[i + 1]);
        }
    }
    assert forall|i: int| 0 <= i < r.len() implies (#[trigger] r[i]).loc == r[i].prev_loc || exists|q: int|
        0 <= q < 8 && #[trigger] step(dims, wrapping, r[i].prev_loc, q) == Some(r[i].loc) by {
        if i < cs.len() {
            assert(r[i] == cs[i]);
        }
    }
}

/// Replacing the last step by one that went from and to the same places keeps the steps following on, and their
/// distance.
pub proof fn lemma_steps_replace_last(dims: Dims, wrapping: Wrap2d, src: Location, cs: Seq<MoveComponent>, c: MoveComponent)
    requires
        steps_follow(dims, wrapping, src, cs),
        cs.len() > 0,
        c.prev_loc == cs.last().prev_loc,
        c.loc == cs.last().loc,
    ensures
        steps_follow(dims, wrapping, src, cs.drop_last().push(c)),
        total_distance(cs.drop_last().push(c)) == total_distance(cs),
{
    let r = cs.drop_last().push(c);
    assert(r.drop_last() =~= cs.drop_last());
    assert forall|i: int| 0 <= i < r.len() - 1 implies #[trigger] r[i + 1].prev_loc == r[i].loc by {
        assert(r[i] == cs[i]);
        assert(r[i + 1].prev_loc == cs[i + 1].prev_loc);
    }
    assert forall|i: int| 0 <= i < r.len() implies (#[trigger] r[i]).loc == r[i].prev_loc || exists|q: int|
        0 <= q < 8 && #[trigger] step(dims, wrapping, r[i].prev_loc, q) == Some(r[i].loc) by {
        if i < cs.len() - 1 {
            assert(r[i] == cs[i]);
        } else {
            assert(cs[i] == cs.last());
        }
    }
}

/// The observations made over the steps, earliest first.
pub open spec fn all_observations(cs: Seq<MoveComponent>) -> Seq<LocatedObs>
    decreases cs.len(),
{
    if cs.len() == 0 {
        Seq::empty()
    } else {
        all_observations(cs.drop_last()) + cs.last().observations_after_move@
    }
}

proof fn lemma_total_distance_bound(cs: Seq<MoveComponent>)
    ensures
        total_distance(cs) <= cs.len(),
    decreases cs.len(),
{
    if cs.len() > 0 {
        lemma_total_distance_bound(cs.drop_last());
    }
}

/// A move: the unit as it is at the end, where it started, and the steps it took.
#[derive(Debug, PartialEq)]
pub struct Move {
    pub unit: Unit,
    pub starting_loc: Location,
    pub components: Vec<MoveComponent>,
}

impl Move {
    /// A move of `unit` (as it is at the end) from `starting_loc` by the given steps; there must be at least one.
    pub fn new(unit: Unit, starting_loc: Location, components: Vec<MoveComponent>) -> (r: Result<Move, MoveError>)
        ensures
            components@.len() == 0 ==> r == Err::<Move, MoveError>(MoveError::ZeroLengthMove),
            components@.len() > 0 ==> r == Ok::<Move, MoveError>(Move { unit, starting_loc, components }),
    {
        if components.len() == 0 {
            Err(MoveError::ZeroLengthMove)
        } else {
            Ok(Move { unit, starting_loc, components })
        }
    }

    /// Did the unit come through every step of the move?
    pub open spec fn spec_moved_successfully(self) -> bool {
        forall|i: int| 0 <= i < self.components@.len() ==> (#[trigger] self.components@[i]).spec_moved_successfully()
    }

    pub fn moved_successfully(&self) -> (b: bool)
        ensures
            b == self.spec_moved_successfully(),
    {
        let mut i: usize = 0;
        while i < self.components.len()
            invariant
                i <= self.components@.len(),
                forall|j: int| 0 <= j < i ==> (#[trigger] self.components@[j]).spec_moved_successfully(),
            decreases self.components@.len() - i,
        {
            if !self.components[i].moved_successfully() {
                return false;
            }
            i = i + 1;
        }
        true
    }

    /// The city taken in a won fight on the last step, if any.
    pub fn conquered_city(&self) -> (r: Option<&City>)
        ensures
            self.components@.len() == 0 ==> r is None,
            self.components@.len() > 0 ==> r == match self.components@.last().city_combat {
                Some(c) => if c.attacker_won {
                    Some(&c.defender)
                } else {
                    None
                },
                None => None,
            },
    {
        let n = self.components.len();
        if n > 0 {
            if let Some(ref city_combat) = self.components[n - 1].city_combat {
                if city_combat.victorious() {
                    return Some(city_combat.defender());
                }
            }
        }
        None
    }

    /// Where the unit ended up, if it came through the whole move.
    pub fn ending_loc(&self) -> (r: Option<Location>)
        ensures
            r == if self.spec_moved_successfully() && self.components@.len() > 0 {
                Some(self.components@.last().loc)
            } else {
                None
            },
    {
        if self.moved_successfully() {
            let n = self.components.len();
            if n > 0 {
                Some(self.components[n - 1].loc)
            } else {
                None
            }
        } else {
            None
        }
    }

    /// The unit carrying the moving unit at the end, if it came through the whole move.
    pub fn ending_carrier(&self) -> (r: Option<UnitID>)
        ensures
            r == if self.spec_moved_successfully() && self.components@.len() > 0 {
                self.components@.last().carrier
            } else {
                None
            },
    {
        if self.moved_successfully() {
            let n = self.components.len();
            if n > 0 {
                self.components[n - 1].carrier
            } else {
                None
            }
        } else {
            None
        }
    }

    /// The number of steps.
    pub fn len(&self) -> (n: usize)
        ensures
            n == self.components@.len(),
    {
        self.components.len()
    }

    /// How far the unit went: the number of steps on which it changed location.
    pub fn distance_moved(&self) -> (d: usize)
        ensures
            d == total_distance(self.components@),
    {
        let mut d: usize = 0;
        let mut i: usize = 0;
        while i < self.components.len()
            invariant
                i <= self.components@.len(),
                d == total_distance(self.components@.take(i as int)),
            decreases self.components@.len() - i,
        {
            proof {
                assert(self.components@.take(i as int + 1).drop_last() =~= self.components@.take(i as int));
                lemma_total_distance_bound(self.components@.take(i as int));
            }
            d = d + self.components[i].distance_moved();
            i = i + 1;
        }
        proof {
            assert(self.components@.take(self.components@.len() as int) =~= self.components@);
        }
        d
    }

    pub fn is_empty(&self) -> (b: bool)
        ensures
            b == (self.components@.len() == 0),
    {
        self.components.len() == 0
    }

    /// Every observation made during the move, earliest first; a location may appear more than once.
    pub fn observations(&self) -> (v: Vec<&LocatedObs>)
        ensures
            v@.map_values(|o: &LocatedObs| *o) == all_observations(self.components@),
    {
        let mut v: Vec<&LocatedObs> = Vec::new();
        let mut i: usize = 0;
        while i < self.components.len()
            invariant
                i <= self.components@.len(),
                v@.map_values(|o: &LocatedObs| *o) == all_observations(self.components@.take(i as int)),
            decreases self.components@.len() - i,
        {
            proof {
                assert(self.components@.take(i as int + 1).drop_last() =~= self.components@.take(i as int));
            }
            let c = &self.components[i];
            let ghost before = v@.map_values(|o: &LocatedObs| *o);
            let mut k: usize = 0;
            while k < c.observations_after_move.len()
                invariant
                    k <= c.observations_after_move@.len(),
                    v@.map_values(|o: &LocatedObs| *o) == before + c.observations_after_move@.take(k as int),
                decreases c.observations_after_move@.len() - k,
            {
                let ghost pre = v@;
                v.push(&c.observations_after_move[k]);
                proof {
                    assert(c.observations_after_move@.take(k as int + 1) =~= c.observations_after_move@.take(k as int).push(
                        c.observations_after_move@[k as int],
                    ));
                    assert(v@.map_values(|o: &LocatedObs| *o) =~= pre.map_values(|o: &LocatedObs| *o).push(
                        c.observations_after_move@[k as int],
                    ));
                }
                k = k + 1;
            }
            proof {
                assert(c.observations_after_move@.take(c.observations_after_move@.len() as int)
                    =~= c.observations_after_move@);
            }
            i = i + 1;
        }
        proof {
            assert(self.components@.take(self.components@.len() as int) =~= self.components@);
        }
        v
    }

    /// Did the unit run out of fuel on the last step?
    pub fn fuel_ran_out(&self) -> (b: bool)
        ensures
            b == (self.components@.len() > 0 && self.components@.last().fuel_ran_out),
    {
        let n = self.components.len();
        if n > 0 {
            self.components[n - 1].fuel_ran_out
        } else {
            false
        }
    }
}

} // verus!
