//! What an AI is shown of the game, as counts and flags: the turn, what the player holds and has seen, the next
//! unit or city awaiting the player, and what the player has observed around it.
use vstd::prelude::*;

use crate::game::alignment::{AlignedMaybe, Alignment};
use crate::game::obs::{Obs, ObsTracker};
use crate::game::player::PlayerNum;
use crate::game::unit::{UnitType, spec_unit_type_values};
use crate::game::TurnNum;
use crate::util::{Location, Vec2d, Wrap2d};

verus! {

/// What the player is shown, before any of it is turned into numbers for a network.
pub struct FeatureCounts {
    /// The current turn.
    pub turn: TurnNum,
    /// The number of cities the player controls.
    pub city_count: usize,
    /// The number of locations the player has observed.
    pub num_observed: usize,
    /// The number of locations on the map.
    pub area: usize,
    /// The type of the first of the player's units awaiting orders, if any.
    pub unit_type: Option<UnitType>,
    /// Whether one of the player's cities awaits a production setting.
    pub city_awaiting: bool,
    /// For each unit type, in the order of `UnitType::values`, how many such units the player controls.
    pub unit_type_counts: Vec<u64>,
    /// For each location of the window, column by column: last seen held by another player.
    pub is_enemy_belligerent: Vec<bool>,
    /// For each location of the window: observed at all.
    pub is_observed: Vec<bool>,
    /// For each location of the window: last seen held by no player.
    pub is_neutral: Vec<bool>,
    /// For each location of the window: last seen with a city on it.
    pub is_city: Vec<bool>,
}

/// The offset from the focus of the `k`th location of the window: columns from the left, each from the top.
pub open spec fn window_offset(k: int) -> Vec2d {
    Vec2d { x: (k / 11 - 5) as i32, y: (k % 11 - 5) as i32 }
}

/// What the player last observed at the `k`th location of the window around `focus`: nothing where there is no
/// focus, or the location falls off the map.
pub open spec fn window_obs(t: ObsTracker, wrapping: Wrap2d, focus: Option<Location>, k: int) -> Obs {
    match focus {
        None => Obs::Unobserved,
        Some(o) => if t.spec_dims().spec_contains(o) {
            match wrapping.spec_wrapped_add(t.spec_dims(), o, window_offset(k)) {
                Some(l) => t.spec_obs(l),
                None => Obs::Unobserved,
            }
        } else {
            Obs::Unobserved
        },
    }
}

pub open spec fn obs_observed(o: Obs) -> bool {
    o is Observed
}

pub open spec fn obs_city(o: Obs) -> bool {
    o matches Obs::Observed { tile, .. } && tile.city is Some
}

pub open spec fn obs_neutral(o: Obs) -> bool {
    o matches Obs::Observed { tile, .. } && tile.spec_alignment_maybe() == Some(Alignment::Neutral)
}

pub open spec fn obs_enemy(o: Obs, p: PlayerNum) -> bool {
    o matches Obs::Observed { tile, .. } && (tile.spec_alignment_maybe() matches Some(a) && a is Belligerent && a
        != (Alignment::Belligerent { player: p }))
}

/// The count the listed counts give the unit type: the first listed for it, and none where it is not listed.
pub open spec fn listed_count(counts: Seq<(UnitType, u64)>, t: UnitType) -> u64
    decreases counts.len(),
{
    if counts.len() == 0 {
        0
    } else if counts[0].0 == t {
        counts[0].1
    } else {
        listed_count(counts.drop_first(), t)
    }
}

/// The flags of the window, each location's observation through `flag`.
pub open spec fn window_flags(t: ObsTracker, wrapping: Wrap2d, focus: Option<Location>, flag: spec_fn(Obs) -> bool) -> Seq<
    bool,
> {
    Seq::new(121, |k: int| flag(window_obs(t, wrapping, focus, k)))
}

/// The counts of each unit type, in the order of `UnitType::values`, from the listed counts.
pub open spec fn type_counts(counts: Seq<(UnitType, u64)>) -> Seq<u64> {
    Seq::new(10, |i: int| listed_count(counts, spec_unit_type_values()[i]))
}

/// The count listed for the unit type.
pub fn listed_count_of(counts: &Vec<(UnitType, u64)>, t: UnitType) -> (n: u64)
    ensures
        n == listed_count(counts@, t),
{
    let mut i: usize = 0;
    proof {
        assert(counts@.skip(0) =~= counts@);
    }
    while i < counts.len()
        invariant
            i <= counts@.len(),
            listed_count(counts@, t) == listed_count(counts@.skip(i as int), t),
        decreases counts@.len() - i,
    {
        proof {
            assert(counts@.skip(i as int).drop_first() =~= counts@.skip(i as int + 1));
            assert(counts@.skip(i as int)[0] == counts@[i as int]);
        }
        if counts[i].0 == t {
            return counts[i].1;
        }
        i = i + 1;
    }
    proof {
        assert(counts@.skip(i as int) =~= Seq::<(UnitType, u64)>::empty());
    }
    0
}

/// The observation at the `k`th location of the window around `focus`, where there is one to refer to; none where
/// the window shows nothing there.
pub fn window_obs_at<'a>(t: &'a ObsTracker, wrapping: Wrap2d, focus: Option<Location>, k: usize) -> (o: Option<&'a Obs>)
    requires
        t.wf(),
        k < 121,
    ensures
        match o {
            Some(x) => *x == window_obs(*t, wrapping, focus, k as int),
            None => window_obs(*t, wrapping, focus, k as int) is Unobserved,
        },
{
    let dims = t.dims();
    match focus {
        None => None,
        Some(origin) => {
            if !dims.contain(origin) {
                return None;
            }
            let inc = Vec2d { x: (k / 11) as i32 - 5, y: (k % 11) as i32 - 5 };
            match wrapping.wrapped_add(dims, origin, inc) {
                Some(l) => t.get(l),
                None => None,
            }
        },
    }
}

/// The four flags of an observation, if any: held by another player than `p`, observed, held by no player, a city.
pub fn obs_flags(o: Option<&Obs>, p: PlayerNum) -> (r: (bool, bool, bool, bool))
    ensures
        match o {
            Some(x) => r == (obs_enemy(*x, p), obs_observed(*x), obs_neutral(*x), obs_city(*x)),
            None => r == (false, false, false, false),
        },
{
    match o {
        Some(Obs::Observed { tile, .. }) => {
            let city = tile.city.is_some();
            match tile.alignment_maybe() {
                Some(a) => {
                    let neutral = a.is_neutral();
                    let enemy = a.is_belligerent() && a.is_enemy_of_player(p);
                    (enemy, true, neutral, city)
                },
                None => (false, true, false, city),
            }
        },
        _ => (false, false, false, false),
    }
}

} // verus!
