//! What players know of the map: observations of tiles, and trackers that keep them.
use vstd::prelude::*;

use crate::game::city::City;
use crate::game::grid::LocationGrid;
use crate::game::player::PlayerNum;
use crate::game::tile::Tile;
use crate::game::unit::Unit;
use crate::game::{ActionNum, TurnNum};
use crate::util::{Dims, Located, Location, Vec2d, Wrap2d};

verus! {

/// What a particular player knows about a tile.
#[derive(Clone, Debug, PartialEq)]
pub enum Obs {
    Observed {
        tile: Tile,
        /// The turn when the observation was made.
        turn: TurnNum,
        /// The number of actions taken in the whole game when the observation was made.
        action_count: ActionNum,
        current: bool,
    },
    Unobserved,
}

impl Obs {
    pub fn is_observed(&self) -> (b: bool)
        ensures
            b == (*self is Observed),
    {
        !self.is_unobserved()
    }

    pub fn is_unobserved(&self) -> (b: bool)
        ensures
            b == (*self is Unobserved),
    {
        match self {
            Obs::Unobserved => true,
            Obs::Observed { .. } => false,
        }
    }

    /// A copy of an observation of a well-formed tile, equal to it as a value.
    pub fn duplicate(&self) -> (o: Obs)
        requires
            self.wf(),
        ensures
            o.same_as(*self),
            o.wf(),
    {
        match self {
            Obs::Observed { tile, turn, action_count, current } => Obs::Observed {
                tile: tile.duplicate(),
                turn: *turn,
                action_count: *action_count,
                current: *current,
            },
            Obs::Unobserved => Obs::Unobserved,
        }
    }

    /// An observation is of a well-formed tile, if of any.
    pub open spec fn wf(self) -> bool {
        self matches Obs::Observed { tile, .. } ==> tile.wf()
    }

    /// The two observations are alike: both unobserved, or both of the same tile value at the same time.
    pub open spec fn same_as(self, other: Obs) -> bool {
        match (self, other) {
            (Obs::Unobserved, Obs::Unobserved) => true,
            (
                Obs::Observed { tile: t1, turn: n1, action_count: a1, current: c1 },
                Obs::Observed { tile: t2, turn: n2, action_count: a2, current: c2 },
            ) => t1@ == t2@ && n1 == n2 && a1 == a2 && c1 == c2,
            _ => false,
        }
    }

    /// Is this a current observation, made at the given time, of a tile equal to `tile`?
    pub open spec fn current_observation_of(self, tile: Tile, turn: TurnNum, action_count: ActionNum) -> bool {
        self matches Obs::Observed { tile: t, turn: n, action_count: a, current: c } && t@ == tile@ && n == turn && a
            == action_count && c
    }
}

/// An observation at a location, without the observation it replaced.
#[derive(Clone, Debug, PartialEq)]
pub struct LocatedObsLite {
    pub loc: Location,
    pub obs: Obs,
}

impl LocatedObsLite {
    pub fn new(loc: Location, obs: Obs) -> (r: Self)
        ensures
            r == (LocatedObsLite { loc, obs }),
    {
        LocatedObsLite { loc, obs }
    }
}

/// An observation at a location, with the observation it replaced.
#[derive(Clone, Debug, PartialEq)]
pub struct LocatedObs {
    pub loc: Location,
    pub obs: Obs,
    pub old_obs: Obs,
}

/// Which observations a search may pass through.
pub trait Filter<T> {
    spec fn spec_allows(&self, item: T) -> bool;

    fn allows(&self, item: &T) -> (b: bool)
        ensures
            b == self.spec_allows(*item),
    ;
}

impl LocatedObs {
    pub fn new(loc: Location, obs: Obs, old_obs: Obs) -> (r: Self)
        ensures
            r == (LocatedObs { loc, obs, old_obs }),
    {
        LocatedObs { loc, obs, old_obs }
    }

    /// Did the new observation change whether the filter lets a search through this location?
    pub fn passability_changed<F: Filter<Obs>>(&self, filter: &F) -> (b: bool)
        ensures
            b == (filter.spec_allows(self.old_obs) != filter.spec_allows(self.obs)),
    {
        let was_allowed = filter.allows(&self.old_obs);
        let is_allowed = filter.allows(&self.obs);
        was_allowed != is_allowed
    }

    /// The observation without the one it replaced.
    pub fn lite(self) -> (r: LocatedObsLite)
        ensures
            r == (LocatedObsLite { loc: self.loc, obs: self.obs }),
    {
        LocatedObsLite { loc: self.loc, obs: self.obs }
    }
}

impl Located for LocatedObs {
    open spec fn spec_location(&self) -> Location {
        self.loc
    }

    fn loc(&self) -> (l: Location) {
        self.loc
    }
}

/// The number of observed entries.
pub open spec fn count_observed(s: Seq<Obs>) -> nat
    decreases s.len(),
{
    if s.len() == 0 {
        0
    } else {
        count_observed(s.drop_last()) + if s.last() is Observed { 1nat } else { 0nat }
    }
}

proof fn lemma_count_observed_bound(s: Seq<Obs>)
    ensures
        count_observed(s) <= s.len(),
        count_observed(s) < s.len() <== exists|i: int| 0 <= i < s.len() && s[i] is Unobserved,
        count_observed(s) > 0 <== exists|i: int| 0 <= i < s.len() && s[i] is Observed,
    decreases s.len(),
{
    if s.len() > 0 {
        lemma_count_observed_bound(s.drop_last());
        if exists|i: int| 0 <= i < s.len() && s[i] is Unobserved {
            let i = choose|i: int| 0 <= i < s.len() && s[i] is Unobserved;
            if i < s.len() - 1 {
                assert(s.drop_last()[i] == s[i]);
            }
        }
        if exists|i: int| 0 <= i < s.len() && s[i] is Observed {
            let i = choose|i: int| 0 <= i < s.len() && s[i] is Observed;
            if i < s.len() - 1 {
                assert(s.drop_last()[i] == s[i]);
            }
        }
    }
}

proof fn lemma_count_observed_update(s: Seq<Obs>, i: int, o: Obs)
    requires
        0 <= i < s.len(),
    ensures
        count_observed(s.update(i, o)) + (if s[i] is Observed { 1nat } else { 0nat }) == count_observed(s) + (if o is Observed {
            1nat
        } else {
            0nat
        }),
    decreases s.len(),
{
    if i == s.len() - 1 {
        assert(s.update(i, o).drop_last() =~= s.drop_last());
    } else {
        lemma_count_observed_update(s.drop_last(), i, o);
        assert(s.update(i, o).drop_last() =~= s.drop_last().update(i, o));
    }
}

/// One player's observations of every tile of the map, with the number of tiles observed.
pub struct ObsTracker {
    observations: LocationGrid<Obs>,
    num_observed: usize,
}

impl ObsTracker {
    pub closed spec fn spec_dims(self) -> Dims {
        self.observations.dims
    }

    /// The observations, row by row.
    pub closed spec fn spec_observations(self) -> Seq<Obs> {
        self.observations.grid@
    }

    pub closed spec fn spec_num_observed(self) -> usize {
        self.num_observed
    }

    pub open spec fn spec_obs(self, loc: Location) -> Obs {
        self.spec_observations()[self.spec_dims().spec_index(loc)]
    }

    /// Well-formedness: an observation for each location, of well-formed tiles, and the count is the number of
    /// observed locations.
    pub open spec fn wf(self) -> bool {
        &&& self.spec_observations().len() == self.spec_dims().spec_area()
        &&& self.spec_num_observed() == count_observed(self.spec_observations())
        &&& forall|i: int| 0 <= i < self.spec_observations().len() ==> (#[trigger] self.spec_observations()[i]).wf()
    }

    /// A tracker of the given dimensions with nothing observed.
    pub fn new(dims: Dims) -> (t: ObsTracker)
        ensures
            t.wf(),
            t.spec_dims() == dims,
            forall|i: int| 0 <= i < t.spec_observations().len() ==> #[trigger] t.spec_observations()[i] is Unobserved,
            t.spec_num_observed() == 0,
    {
        let n = dims.area();
        let mut grid: Vec<Obs> = Vec::new();
        let mut i: usize = 0;
        while i < n
            invariant
                n == dims.spec_area(),
                i <= n,
                grid@.len() == i,
                forall|j: int| 0 <= j < i ==> #[trigger] grid@[j] is Unobserved,
                count_observed(grid@) == 0,
            decreases n - i,
        {
            let ghost before = grid@;
            grid.push(Obs::Unobserved);
            proof {
                assert(grid@.drop_last() =~= before);
            }
            i = i + 1;
        }
        ObsTracker { observations: LocationGrid { dims, grid }, num_observed: 0 }
    }

    pub fn dims(&self) -> (d: Dims)
        ensures
            d == self.spec_dims(),
    {
        self.observations.dims
    }

    /// The observation of `loc`, if `loc` is within the tracker's dimensions.
    pub fn get(&self, loc: Location) -> (r: Option<&Obs>)
        requires
            self.wf(),
        ensures
            self.spec_dims().spec_contains(loc) ==> r == Some(&self.spec_obs(loc)),
            !self.spec_dims().spec_contains(loc) ==> r is None,
    {
        self.observations.get(loc)
    }

    /// How many locations have been observed.
    pub fn num_observed(&self) -> (n: usize)
        ensures
            n == self.spec_num_observed(),
    {
        self.num_observed
    }

    /// The observations, row by row.
    pub fn iter(&self) -> (v: Vec<&Obs>)
        ensures
            v@.len() == self.spec_observations().len(),
            forall|i: int| 0 <= i < v@.len() ==> *v@[i] == self.spec_observations()[i],
    {
        self.observations.iter()
    }

    /// Mark every observation as no longer current.
    pub fn archive(&mut self)
        requires
            old(self).wf(),
        ensures
            final(self).wf(),
            final(self).spec_dims() == old(self).spec_dims(),
            final(self).spec_num_observed() == old(self).spec_num_observed(),
            final(self).spec_observations().len() == old(self).spec_observations().len(),
            forall|i: int| 0 <= i < old(self).spec_observations().len() ==> #[trigger] final(self).spec_observations()[i]
                == archived(old(self).spec_observations()[i]),
    {
        let ghost old_obs = self.observations.grid@;
        let n = self.observations.grid.len();
        let mut i: usize = 0;
        while i < n
            invariant
                n == old_obs.len(),
                i <= n,
                old_obs == old(self).spec_observations(),
                self.observations.dims == old(self).spec_dims(),
                self.num_observed == old(self).spec_num_observed(),
                self.observations.grid@.len() == n,
                forall|j: int| 0 <= j < i ==> #[trigger] self.observations.grid@[j] == match old_obs[j] {
                    Obs::Observed { tile, turn, action_count, .. } => Obs::Observed {
                        tile,
                        turn,
                        action_count,
                        current: false,
                    },
                    Obs::Unobserved => Obs::Unobserved,
                },
                forall|j: int| i <= j < n ==> #[trigger] self.observations.grid@[j] == old_obs[j],
            decreases n - i,
        {
            let o = self.observations.grid.remove(i);
            let archived = match o {
                Obs::Observed { tile, turn, action_count, .. } => Obs::Observed { tile, turn, action_count, current: false },
                Obs::Unobserved => Obs::Unobserved,
            };
            self.observations.grid.insert(i, archived);
            i = i + 1;
        }
        proof {
            let s = self.observations.grid@;
            assert(count_observed(s) == count_observed(old_obs)) by {
                lemma_count_observed_same_kind(s, old_obs);
            }
            assert forall|j: int| 0 <= j < s.len() implies (#[trigger] s[j]).wf() by {
                assert(old_obs[j].wf());
            }
        }
    }

    /// Record an observation of `loc`, returning the one it replaces.
    ///
    /// The count of observed locations goes up when an observation is recorded where there was none, and down when
    /// an observation there is replaced by none.
    pub fn _track(&mut self, loc: Location, obs: Obs) -> (r: Option<Obs>)
        requires
            old(self).wf(),
            old(self).spec_dims().spec_contains(loc),
            obs.wf(),
        ensures
            final(self).spec_dims() == old(self).spec_dims(),
            r == Some(old(self).spec_obs(loc)),
            final(self).spec_observations() == old(self).spec_observations().update(
                old(self).spec_dims().spec_index(loc),
                obs,
            ),
            final(self).spec_num_observed() == if old(self).spec_obs(loc) is Unobserved && obs is Observed {
                old(self).spec_num_observed() + 1
            } else if old(self).spec_obs(loc) is Observed && obs is Unobserved {
                old(self).spec_num_observed() - 1
            } else {
                old(self).spec_num_observed() as int
            },
            final(self).wf(),
    {
        let new_is_unobserved = obs.is_unobserved();
        let ghost s = self.observations.grid@;
        let ghost i = self.observations.dims.spec_index(loc);
        proof {
            crate::util::lemma_index_in_bounds(self.observations.dims, loc);
            lemma_count_observed_bound(s);
            lemma_count_observed_update(s, i, obs);
            crate::util::lemma_area_bound(self.observations.dims.width, self.observations.dims.height);
        }
        let old = self.observations.replace(loc, obs);
        let old_unobserved = match &old {
            None => true,
            Some(o) => o.is_unobserved(),
        };
        if old_unobserved && !new_is_unobserved {
            self.num_observed = self.num_observed + 1;
        } else if !old_unobserved && new_is_unobserved {
            self.num_observed = self.num_observed - 1;
        }
        proof {
            let s2 = self.observations.grid@;
            assert forall|j: int| 0 <= j < s2.len() implies (#[trigger] s2[j]).wf() by {
                if j != i {
                    assert(s[j].wf());
                }
            }
        }
        old
    }

    /// Record a located observation, returning the one it replaces.
    pub fn track_lite(&mut self, located_obs: LocatedObsLite) -> (r: Option<Obs>)
        requires
            old(self).wf(),
            old(self).spec_dims().spec_contains(located_obs.loc),
            located_obs.obs.wf(),
        ensures
            final(self).spec_dims() == old(self).spec_dims(),
            r == Some(old(self).spec_obs(located_obs.loc)),
            final(self).spec_observations() == old(self).spec_observations().update(
                old(self).spec_dims().spec_index(located_obs.loc),
                located_obs.obs,
            ),
            final(self).wf(),
    {
        self._track(located_obs.loc, located_obs.obs)
    }

    /// Record a located observation, returning the one it replaces.
    pub fn track_located(&mut self, located_obs: LocatedObs) -> (r: Option<Obs>)
        requires
            old(self).wf(),
            old(self).spec_dims().spec_contains(located_obs.loc),
            located_obs.obs.wf(),
        ensures
            final(self).spec_dims() == old(self).spec_dims(),
            r == Some(old(self).spec_obs(located_obs.loc)),
            final(self).spec_observations() == old(self).spec_observations().update(
                old(self).spec_dims().spec_index(located_obs.loc),
                located_obs.obs,
            ),
            final(self).wf(),
    {
        self._track(located_obs.loc, located_obs.obs)
    }

    /// Observe `tile` at `loc` now; returns the observation made, with the one it replaced.
    pub fn track_observation(&mut self, loc: Location, tile: &Tile, turn: TurnNum, action_count: ActionNum) -> (r:
        LocatedObs)
        requires
            old(self).wf(),
            old(self).spec_dims().spec_contains(loc),
            tile.wf(),
        ensures
            final(self).wf(),
            final(self).spec_dims() == old(self).spec_dims(),
            r.loc == loc,
            r.obs.current_observation_of(*tile, turn, action_count),
            r.old_obs == old(self).spec_obs(loc),
            final(self).spec_observations() == old(self).spec_observations().update(
                old(self).spec_dims().spec_index(loc),
                final(self).spec_obs(loc),
            ),
            final(self).spec_obs(loc).same_as(r.obs),
    {
        let obs = Obs::Observed { tile: tile.duplicate(), turn, action_count, current: true };
        let kept = obs.duplicate();
        proof {
            crate::util::lemma_index_in_bounds(self.observations.dims, loc);
        }
        let old = self._track(loc, kept);
        LocatedObs::new(loc, obs, old.unwrap())
    }

    /// Record each of the located observations in turn.
    pub fn track_many(&mut self, observations: &Vec<LocatedObs>)
        requires
            old(self).wf(),
            forall|k: int| 0 <= k < observations@.len() ==> old(self).spec_dims().spec_contains(
                (#[trigger] observations@[k]).loc,
            ) && observations@[k].obs.wf(),
        ensures
            final(self).wf(),
            final(self).spec_dims() == old(self).spec_dims(),
            forall|loc: Location| #[trigger] old(self).spec_dims().spec_contains(loc) ==> match last_obs_at(
                observations@,
                loc,
            ) {
                Some(o) => final(self).spec_obs(loc).same_as(o),
                None => final(self).spec_obs(loc) == old(self).spec_obs(loc),
            },
    {
        let mut k: usize = 0;
        while k < observations.len()
            invariant
                k <= observations@.len(),
                self.wf(),
                self.spec_dims() == old(self).spec_dims(),
                forall|j: int| 0 <= j < observations@.len() ==> old(self).spec_dims().spec_contains(
                    (#[trigger] observations@[j]).loc,
                ) && observations@[j].obs.wf(),
                forall|loc: Location| #[trigger] old(self).spec_dims().spec_contains(loc) ==> match last_obs_at(
                    observations@.take(k as int),
                    loc,
                ) {
                    Some(o) => self.spec_obs(loc).same_as(o),
                    None => self.spec_obs(loc) == old(self).spec_obs(loc),
                },
            decreases observations@.len() - k,
        {
            let o = observations[k].obs.duplicate();
            let loc = observations[k].loc;
            self._track(loc, o);
            proof {
                let s1 = observations@.take(k as int + 1);
                assert(s1.drop_last() =~= observations@.take(k as int));
                assert(s1.last() == observations@[k as int]);
                assert forall|l: Location| #[trigger] old(self).spec_dims().spec_contains(l) implies match last_obs_at(
                    s1,
                    l,
                ) {
                    Some(o) => self.spec_obs(l).same_as(o),
                    None => self.spec_obs(l) == old(self).spec_obs(l),
                } by {
                    crate::util::lemma_index_in_bounds(self.spec_dims(), l);
                    crate::util::lemma_index_in_bounds(self.spec_dims(), loc);
                }
            }
            k = k + 1;
        }
        proof {
            assert(observations@.take(observations@.len() as int) =~= observations@);
        }
    }

    /// Record each of the located observations in turn.
    pub fn track_many_lite(&mut self, observations: &Vec<LocatedObsLite>)
        requires
            old(self).wf(),
            forall|k: int| 0 <= k < observations@.len() ==> old(self).spec_dims().spec_contains(
                (#[trigger] observations@[k]).loc,
            ) && observations@[k].obs.wf(),
        ensures
            final(self).wf(),
            final(self).spec_dims() == old(self).spec_dims(),
            forall|loc: Location| #[trigger] old(self).spec_dims().spec_contains(loc) ==> match last_lite_obs_at(
                observations@,
                loc,
            ) {
                Some(o) => final(self).spec_obs(loc).same_as(o),
                None => final(self).spec_obs(loc) == old(self).spec_obs(loc),
            },
    {
        let mut k: usize = 0;
        while k < observations.len()
            invariant
                k <= observations@.len(),
                self.wf(),
                self.spec_dims() == old(self).spec_dims(),
                forall|j: int| 0 <= j < observations@.len() ==> old(self).spec_dims().spec_contains(
                    (#[trigger] observations@[j]).loc,
                ) && observations@[j].obs.wf(),
                forall|loc: Location| #[trigger] old(self).spec_dims().spec_contains(loc) ==> match last_lite_obs_at(
                    observations@.take(k as int),
                    loc,
                ) {
                    Some(o) => self.spec_obs(loc).same_as(o),
                    None => self.spec_obs(loc) == old(self).spec_obs(loc),
                },
            decreases observations@.len() - k,
        {
            let o = observations[k].obs.duplicate();
            let loc = observations[k].loc;
            self.track_lite(LocatedObsLite::new(loc, o));
            proof {
                let s1 = observations@.take(k as int + 1);
                assert(s1.drop_last() =~= observations@.take(k as int));
                assert(s1.last() == observations@[k as int]);
                assert forall|l: Location| #[trigger] old(self).spec_dims().spec_contains(l) implies match last_lite_obs_at(
                    s1,
                    l,
                ) {
                    Some(o) => self.spec_obs(l).same_as(o),
                    None => self.spec_obs(l) == old(self).spec_obs(l),
                } by {
                    crate::util::lemma_index_in_bounds(self.spec_dims(), l);
                    crate::util::lemma_index_in_bounds(self.spec_dims(), loc);
                }
            }
            k = k + 1;
        }
        proof {
            assert(observations@.take(observations@.len() as int) =~= observations@);
        }
    }
}

/// The last of the located observations at `loc`, if any.
pub open spec fn last_lite_obs_at(s: Seq<LocatedObsLite>, loc: Location) -> Option<Obs>
    decreases s.len(),
{
    if s.len() == 0 {
        None
    } else if s.last().loc == loc {
        Some(s.last().obs)
    } else {
        last_lite_obs_at(s.drop_last(), loc)
    }
}

/// The last of the located observations at `loc`, if any.
pub open spec fn last_obs_at(s: Seq<LocatedObs>, loc: Location) -> Option<Obs>
    decreases s.len(),
{
    if s.len() == 0 {
        None
    } else if s.last().loc == loc {
        Some(s.last().obs)
    } else {
        last_obs_at(s.drop_last(), loc)
    }
}

/// Two observation sequences of the same kinds, place by place, count the same.
proof fn lemma_count_observed_same_kind(s: Seq<Obs>, t: Seq<Obs>)
    requires
        s.len() == t.len(),
        forall|j: int| 0 <= j < s.len() ==> (#[trigger] s[j] is Observed) == (t[j] is Observed),
    ensures
        count_observed(s) == count_observed(t),
    decreases s.len(),
{
    if s.len() > 0 {
        assert(s[s.len() - 1] is Observed == t[t.len() - 1] is Observed);
        assert forall|j: int| 0 <= j < s.drop_last().len() implies (#[trigger] s.drop_last()[j] is Observed)
            == (t.drop_last()[j] is Observed) by {
            assert(s[j] is Observed == t[j] is Observed);
        }
        lemma_count_observed_same_kind(s.drop_last(), t.drop_last());
    }
}


/// An observation as it stands once it is no longer current.
pub open spec fn archived(o: Obs) -> Obs {
    match o {
        Obs::Observed { tile, turn, action_count, .. } => Obs::Observed { tile, turn, action_count, current: false },
        Obs::Unobserved => Obs::Unobserved,
    }
}

/// Why a player's observations could not be had.
#[derive(Clone, Copy, Debug, PartialEq, Eq, Structural)]
pub enum ObsTrackerError {
    NoTrackerForPlayer(PlayerNum),
}

/// The observations of each of a number of players, numbered from zero.
pub struct PlayerObsTracker {
    player_observations: Vec<ObsTracker>,
}

impl PlayerObsTracker {
    /// The trackers, by player.
    pub closed spec fn spec_trackers(self) -> Seq<ObsTracker> {
        self.player_observations@
    }

    /// Trackers with nothing observed, of the given dimensions, for players `0` up to `players`.
    pub fn new(players: PlayerNum, dims: Dims) -> (t: PlayerObsTracker)
        ensures
            t.spec_trackers().len() == players,
            forall|p: int| 0 <= p < players ==> {
                let o = #[trigger] t.spec_trackers()[p];
                &&& o.wf()
                &&& o.spec_dims() == dims
                &&& o.spec_num_observed() == 0
                &&& forall|i: int| 0 <= i < o.spec_observations().len() ==> #[trigger] o.spec_observations()[i] is Unobserved
            },
    {
        let mut v: Vec<ObsTracker> = Vec::new();
        let mut p: usize = 0;
        while p < players
            invariant
                p <= players,
                v@.len() == p,
                forall|q: int| 0 <= q < p ==> {
                    let o = #[trigger] v@[q];
                    &&& o.wf()
                    &&& o.spec_dims() == dims
                    &&& o.spec_num_observed() == 0
                    &&& forall|i: int| 0 <= i < o.spec_observations().len() ==> #[trigger] o.spec_observations()[i] is Unobserved
                },
            decreases players - p,
        {
            v.push(ObsTracker::new(dims));
            p = p + 1;
        }
        PlayerObsTracker { player_observations: v }
    }

    /// Record an observation made by the player at `loc`; returns the observation it replaces.
    pub fn track(&mut self, player: PlayerNum, loc: Location, obs: Obs) -> (r: Result<Option<Obs>, ObsTrackerError>)
        requires
            player < old(self).spec_trackers().len() ==> {
                let o = old(self).spec_trackers()[player as int];
                &&& o.wf()
                &&& o.spec_dims().spec_contains(loc)
                &&& obs.wf()
            },
        ensures
            player >= old(self).spec_trackers().len() ==> r == Err::<Option<Obs>, ObsTrackerError>(
                ObsTrackerError::NoTrackerForPlayer(player),
            ) && *final(self) == *old(self),
            player < old(self).spec_trackers().len() ==> {
                let o = old(self).spec_trackers()[player as int];
                let o2 = final(self).spec_trackers()[player as int];
                &&& r == Ok::<Option<Obs>, ObsTrackerError>(Some(o.spec_obs(loc)))
                &&& final(self).spec_trackers() == old(self).spec_trackers().update(player as int, o2)
                &&& o2.spec_dims() == o.spec_dims()
                &&& o2.spec_observations() == o.spec_observations().update(o.spec_dims().spec_index(loc), obs)
                &&& o2.wf()
            },
    {
        if player >= self.player_observations.len() {
            return Err(ObsTrackerError::NoTrackerForPlayer(player));
        }
        let r = self.player_observations[player]._track(loc, obs);
        Ok(r)
    }

    /// The player's observations, if the player is known.
    pub fn tracker(&self, player: PlayerNum) -> (r: Option<&ObsTracker>)
        ensures
            player < self.spec_trackers().len() ==> r == Some(&self.spec_trackers()[player as int]),
            player >= self.spec_trackers().len() ==> r is None,
    {
        if player < self.player_observations.len() {
            Some(&self.player_observations[player])
        } else {
            None
        }
    }

    /// The player's observations to change, if the player is known.
    pub fn tracker_mut(&mut self, player: PlayerNum) -> (r: Option<&mut ObsTracker>)
        ensures
            player < old(self).spec_trackers().len() ==> (r matches Some(t) && *t == old(self).spec_trackers()[player as int]
                && final(self).spec_trackers() == old(self).spec_trackers().update(player as int, *final(t))),
            player >= old(self).spec_trackers().len() ==> r is None && *final(self) == *old(self),
    {
        if player < self.player_observations.len() {
            Some(&mut self.player_observations[player])
        } else {
            None
        }
    }
}

/// The row of offsets `(x, y)` with `y` from `-m` to `m`.
pub open spec fn offset_row(x: int, m: int) -> Seq<Vec2d> {
    Seq::new((2 * m + 1) as nat, |j: int| Vec2d { x: x as i32, y: (j - m) as i32 })
}

/// The offsets within distance `d` of the origin in the columns before `x`, column by column from `-d`.
pub open spec fn visible_offsets_before(d: int, x: int) -> Seq<Vec2d>
    decreases x + d,
{
    if x <= -d {
        Seq::empty()
    } else {
        visible_offsets_before(d, x - 1) + offset_row(x - 1, d - abs(x - 1))
    }
}

pub open spec fn abs(x: int) -> int {
    if x < 0 { -x } else { x }
}

/// The offsets within taxicab distance `d` of the origin: column by column from `-d` to `d`, each column from
/// the lowest `y` up.
pub open spec fn visible_offsets(d: int) -> Seq<Vec2d> {
    visible_offsets_before(d, d + 1)
}

/// Every offset within taxicab distance `sight_distance`, as `visible_offsets` orders them.
pub fn visible_coords_iter(sight_distance: u16) -> (v: Vec<Vec2d>)
    ensures
        v@ == visible_offsets(sight_distance as int),
{
    let d = sight_distance as i32;
    let mut v: Vec<Vec2d> = Vec::new();
    let mut x: i32 = -d;
    while x <= d
        invariant
            d == sight_distance,
            -d <= x <= d + 1,
            v@ == visible_offsets_before(d as int, x as int),
        decreases d + 1 - x,
    {
        let y_max = if x < 0 { d + x } else { d - x };
        let ghost before = v@;
        let mut y: i32 = -y_max;
        while y <= y_max
            invariant
                d == sight_distance,
                -d <= x <= d,
                y_max == d - abs(x as int),
                -y_max <= y <= y_max + 1,
                v@ == before + offset_row(x as int, y_max as int).take(y + y_max),
            decreases y_max + 1 - y,
        {
            let ghost pre = v@;
            v.push(Vec2d::new(x, y));
            proof {
                let row = offset_row(x as int, y_max as int);
                assert(row.take(y + y_max + 1) =~= row.take(y + y_max).push(Vec2d { x, y }));
                assert(v@ =~= pre.push(Vec2d { x, y }));
            }
            y = y + 1;
        }
        proof {
            let row = offset_row(x as int, y_max as int);
            assert(row.take(2 * y_max + 1) =~= row);
        }
        x = x + 1;
    }
    v
}

/// The offsets listed are exactly those within taxicab distance `d` of the origin.
pub proof fn law_visible_offsets(d: int, o: Vec2d)
    requires
        0 <= d <= u16::MAX,
    ensures
        visible_offsets(d).contains(o) <==> abs(o.x as int) + abs(o.y as int) <= d,
{
    lemma_visible_before(d, d + 1, o);
}

proof fn lemma_visible_before(d: int, x: int, o: Vec2d)
    requires
        0 <= d <= u16::MAX,
        -d <= x <= d + 1,
    ensures
        visible_offsets_before(d, x).contains(o) <==> (-d <= o.x < x && abs(o.x as int) + abs(o.y as int) <= d),
    decreases x + d,
{
    if x > -d {
        lemma_visible_before(d, x - 1, o);
        let prev = visible_offsets_before(d, x - 1);
        let row = offset_row(x - 1, d - abs(x - 1));
        let m = d - abs(x - 1);
        if row.contains(o) {
            let j = choose|j: int| 0 <= j < row.len() && row[j] == o;
            assert((prev + row)[prev.len() + j] == o);
        }
        if (prev + row).contains(o) {
            let k = choose|k: int| 0 <= k < (prev + row).len() && (prev + row)[k] == o;
            if k < prev.len() {
                assert(prev[k] == o);
            } else {
                assert(row[k - prev.len()] == o);
            }
        }
        if prev.contains(o) {
            let k = choose|k: int| 0 <= k < prev.len() && prev[k] == o;
            assert((prev + row)[k] == o);
        }
        if o.x == x - 1 && abs(o.x as int) + abs(o.y as int) <= d {
            let j = o.y + m;
            assert(row[j] == o);
        }
    }
}

/// Something that sees the tiles around it.
pub trait Observer: Located {
    spec fn spec_sight_distance(&self) -> u16;

    fn sight_distance(&self) -> (d: u16)
        ensures
            d == self.spec_sight_distance(),
    ;

    /// Observe every tile within sight, the map wrapping as `wrapping` says; returns the observations made, in the
    /// order of `visible_offsets`.
    fn observe(
        &self,
        tiles: &LocationGrid<Tile>,
        turn: TurnNum,
        action: ActionNum,
        wrapping: Wrap2d,
        obs_tracker: &mut ObsTracker,
    ) -> (r: Vec<LocatedObs>)
        requires
            tiles.wf(),
            forall|i: int| 0 <= i < tiles.spec_items().len() ==> (#[trigger] tiles.spec_items()[i]).wf(),
            old(obs_tracker).wf(),
            old(obs_tracker).spec_dims() == tiles.spec_dims(),
            tiles.spec_dims().spec_contains(self.spec_location()),
        ensures
            final(obs_tracker).wf(),
            final(obs_tracker).spec_dims() == old(obs_tracker).spec_dims(),
            forall|k: int| 0 <= k < r@.len() ==> #[trigger] r@[k].obs.current_observation_of(
                tiles.spec_at(r@[k].loc),
                turn,
                action,
            ),
            forall|k: int| 0 <= k < r@.len() ==> tiles.spec_dims().spec_contains(#[trigger] r@[k].loc),
            forall|loc: Location| #[trigger] tiles.spec_dims().spec_contains(loc) ==> {
                if exists|k: int| 0 <= k < r@.len() && (#[trigger] r@[k]).loc == loc {
                    final(obs_tracker).spec_obs(loc).current_observation_of(tiles.spec_at(loc), turn, action)
                } else {
                    final(obs_tracker).spec_obs(loc) == old(obs_tracker).spec_obs(loc)
                }
            },
            forall|o: Vec2d| #[trigger] visible_offsets(self.spec_sight_distance() as int).contains(o) ==> (
            wrapping.spec_wrapped_add(tiles.spec_dims(), self.spec_location(), o) matches Some(l) ==> exists|k: int|
                0 <= k < r@.len() && (#[trigger] r@[k]).loc == l),
    {
        let offsets = visible_coords_iter(self.sight_distance());
        let dims = tiles.dims();
        let here = self.loc();
        let mut r: Vec<LocatedObs> = Vec::new();
        let mut k: usize = 0;
        while k < offsets.len()
            invariant
                k <= offsets@.len(),
                offsets@ == visible_offsets(self.spec_sight_distance() as int),
                dims == tiles.spec_dims(),
                here == self.spec_location(),
                dims.spec_contains(here),
                tiles.wf(),
                forall|i: int| 0 <= i < tiles.spec_items().len() ==> (#[trigger] tiles.spec_items()[i]).wf(),
                obs_tracker.wf(),
                obs_tracker.spec_dims() == dims,
                forall|j: int| 0 <= j < r@.len() ==> #[trigger] r@[j].obs.current_observation_of(
                    tiles.spec_at(r@[j].loc),
                    turn,
                    action,
                ),
                forall|j: int| 0 <= j < r@.len() ==> dims.spec_contains(#[trigger] r@[j].loc),
                forall|loc: Location| #[trigger] dims.spec_contains(loc) ==> {
                    if exists|j: int| 0 <= j < r@.len() && (#[trigger] r@[j]).loc == loc {
                        obs_tracker.spec_obs(loc).current_observation_of(tiles.spec_at(loc), turn, action)
                    } else {
                        obs_tracker.spec_obs(loc) == old(obs_tracker).spec_obs(loc)
                    }
                },
                forall|j: int| 0 <= j < k ==> (wrapping.spec_wrapped_add(dims, here, #[trigger] offsets@[j]) matches Some(
                    l,
                ) ==> exists|m: int| 0 <= m < r@.len() && (#[trigger] r@[m]).loc == l),
            decreases offsets@.len() - k,
        {
            if let Some(loc) = wrapping.wrapped_add(dims, here, offsets[k]) {
                proof {
                    crate::util::lemma_index_in_bounds(dims, loc);
                }
                let tile = tiles.get(loc).unwrap();
                let ghost before = r@;
                let lo = obs_tracker.track_observation(loc, tile, turn, action);
                r.push(lo);
                proof {
                    assert(r@[before.len() as int].loc == loc);
                    assert forall|l: Location| #[trigger] dims.spec_contains(l) implies {
                        if exists|j: int| 0 <= j < r@.len() && (#[trigger] r@[j]).loc == l {
                            obs_tracker.spec_obs(l).current_observation_of(tiles.spec_at(l), turn, action)
                        } else {
                            obs_tracker.spec_obs(l) == old(obs_tracker).spec_obs(l)
                        }
                    } by {
                        crate::util::lemma_index_in_bounds(dims, l);
                        if exists|j: int| 0 <= j < r@.len() && (#[trigger] r@[j]).loc == l {
                            let j = choose|j: int| 0 <= j < r@.len() && (#[trigger] r@[j]).loc == l;
                            if l != loc {
                                assert(before[j].loc == l);
                            }
                        } else {
                            assert(l != loc);
                            assert forall|j: int| 0 <= j < before.len() implies (#[trigger] before[j]).loc != l by {
                                assert(r@[j] == before[j]);
                            }
                        }
                    }
                    assert forall|j: int| 0 <= j < k + 1 implies (wrapping.spec_wrapped_add(dims, here, #[trigger] offsets@[j]) matches Some(
                        l,
                    ) ==> exists|m: int| 0 <= m < r@.len() && (#[trigger] r@[m]).loc == l) by {
                        if j < k {
                            if let Some(l) = wrapping.spec_wrapped_add(dims, here, offsets@[j]) {
                                let m = choose|m: int| 0 <= m < before.len() && (#[trigger] before[m]).loc == l;
                                assert(r@[m] == before[m]);
                            }
                        }
                    }
                }
            }
            k = k + 1;
        }
        proof {
            assert forall|o: Vec2d| #[trigger] visible_offsets(self.spec_sight_distance() as int).contains(o) implies (
            wrapping.spec_wrapped_add(tiles.spec_dims(), self.spec_location(), o) matches Some(l) ==> exists|m: int|
                0 <= m < r@.len() && (#[trigger] r@[m]).loc == l) by {
                let j = choose|j: int| 0 <= j < offsets@.len() && offsets@[j] == o;
            }
        }
        r
    }

    /// Is `loc` within sight, ignoring any wrapping?
    fn can_see(&self, loc: Location) -> (b: bool)
        ensures
            b == (self.spec_location().spec_manhattan(loc) <= self.spec_sight_distance()),
    {
        self.loc().manhattan_distance(loc) <= self.sight_distance() as u32
    }
}


impl Observer for Unit {
    open spec fn spec_sight_distance(&self) -> u16 {
        self.type_.spec_sight_distance()
    }

    fn sight_distance(&self) -> (d: u16) {
        self.type_.sight_distance()
    }
}

impl Observer for City {
    open spec fn spec_sight_distance(&self) -> u16 {
        3
    }

    fn sight_distance(&self) -> (d: u16) {
        3
    }
}

impl ObsTracker {
    /// Record each of the located observations in turn, taking them.
    pub fn track_many_lite_owned(&mut self, observations: Vec<LocatedObsLite>)
        requires
            old(self).wf(),
            forall|k: int| 0 <= k < observations@.len() ==> old(self).spec_dims().spec_contains(
                (#[trigger] observations@[k]).loc,
            ) && observations@[k].obs.wf(),
        ensures
            final(self).wf(),
            final(self).spec_dims() == old(self).spec_dims(),
            forall|loc: Location| #[trigger] old(self).spec_dims().spec_contains(loc) ==> match last_lite_obs_at(
                observations@,
                loc,
            ) {
                Some(o) => final(self).spec_obs(loc).same_as(o),
                None => final(self).spec_obs(loc) == old(self).spec_obs(loc),
            },
    {
        self.track_many_lite(&observations);
    }
}

} // verus!
