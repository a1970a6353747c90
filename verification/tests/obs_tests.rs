use std::collections::BTreeSet;

use umpire::game::alignment::Alignment;
use umpire::game::grid::LocationGrid;
use umpire::game::map_text::parse_tiles;
use umpire::game::obs::{visible_coords_iter, Obs, ObsTracker, Observer, PlayerObsTracker, ObsTrackerError};
use umpire::game::terrain::Terrain;
use umpire::game::tile::Tile;
use umpire::game::unit::{Unit, UnitID, UnitType};
use umpire::util::{Dims, Location, Vec2d, Wrap2d};

#[test]
fn test_fog_of_war_tracker() {
    let dims = Dims { width: 10, height: 20 };
    let map: LocationGrid<Tile> = LocationGrid::new(dims, |loc| -> Tile { Tile::new(Terrain::Land, loc) });
    let mut tracker = ObsTracker::new(dims);
    let loc = Location { x: 5, y: 10 };
    assert_eq!(tracker.get(loc).cloned(), Some(Obs::Unobserved));
    assert_eq!(tracker.get(Location { x: 1000, y: 2000 }), None);

    let tile = Tile::new(Terrain::Land, loc);

    let turn = 0;
    let action_count = 0;

    tracker.track_observation(loc, &tile, turn, action_count);

    assert_eq!(tracker.get(loc).cloned(), Some(Obs::Observed { tile, turn, action_count, current: true }));

    let infantry = Unit::new(UnitID::new(0), loc, UnitType::Infantry, Alignment::Belligerent { player: 0 }, "George Glover");
    infantry.observe(&map, turn, action_count, Wrap2d::both(), &mut tracker);
}

#[test]
pub fn test_num_observed() {
    let mut tracker = ObsTracker::new(Dims::new(10, 1));
    assert_eq!(tracker.num_observed(), 0);

    tracker._track(
        Location { x: 0, y: 0 },
        Obs::Observed { tile: Tile::new(Terrain::Land, Location { x: 0, y: 0 }), turn: 0, action_count: 0, current: true },
    );

    assert_eq!(tracker.num_observed(), 1);

    tracker._track(
        Location { x: 0, y: 0 },
        Obs::Observed { tile: Tile::new(Terrain::Land, Location { x: 0, y: 0 }), turn: 0, action_count: 0, current: true },
    );

    assert_eq!(tracker.num_observed(), 1);
}

#[test]
fn test_observations() {
    let map_s = "\
x   o    x
x  ooo   x
x ooioo  x
x  ooo   x
x   o    x";

    match parse_tiles(map_s) {
        Err(err) => {
            panic!("Error parsing map: {}", err);
        },
        Ok(map) => {
            assert_eq!(map.dims(), Dims { width: 10, height: 5 });

            let width = map_s.lines().map(|line| line.len()).max();
            let height = map_s.lines().count();

            assert_eq!(width, Some(10));
            assert_eq!(height, 5);

            let infantry_loc = Location { x: 4, y: 2 };

            let infantry =
                Unit::new(UnitID::new(0), infantry_loc, UnitType::Infantry, Alignment::Belligerent { player: 0 }, "Lynn Stone");

            let mut obs_tracker = ObsTracker::new(map.dims());

            for loc in map.iter_locs() {
                assert_eq!(*obs_tracker.get(loc).unwrap(), Obs::Unobserved);
            }

            let turn = 0;
            let action_count = 0;

            infantry.observe(&map, turn, action_count, Wrap2d::both(), &mut obs_tracker);

            let observed_locs_arr = [
                Location { x: 4, y: 0 },
                Location { x: 3, y: 1 },
                Location { x: 4, y: 1 },
                Location { x: 5, y: 1 },
                Location { x: 2, y: 2 },
                Location { x: 3, y: 2 },
                Location { x: 4, y: 2 },
                Location { x: 5, y: 2 },
                Location { x: 6, y: 2 },
                Location { x: 3, y: 3 },
                Location { x: 4, y: 3 },
                Location { x: 5, y: 3 },
                Location { x: 4, y: 4 },
            ];
            let observed_locs: BTreeSet<&Location> = BTreeSet::from_iter(observed_locs_arr.iter());

            for loc in map.iter_locs() {
                assert_eq!(
                    *obs_tracker.get(loc).unwrap(),
                    if observed_locs.contains(&loc) {
                        Obs::Observed { tile: map.get(loc).unwrap().clone(), turn, action_count, current: true }
                    } else {
                        Obs::Unobserved
                    }
                );
            }

            let mut infantry = infantry;
            infantry.loc = Location { x: 5, y: 2 };

            infantry.observe(&map, turn, action_count, Wrap2d::both(), &mut obs_tracker);

            let observed_locs_arr_2 = [
                Location { x: 5, y: 0 },
                Location { x: 6, y: 1 },
                Location { x: 7, y: 2 },
                Location { x: 6, y: 3 },
                Location { x: 5, y: 4 },
            ];
            let observed_locs_2: BTreeSet<&Location> = BTreeSet::from_iter(observed_locs_arr_2.iter());

            for loc in map.iter_locs() {
                assert_eq!(
                    *obs_tracker.get(loc).unwrap(),
                    if observed_locs.contains(&loc) || observed_locs_2.contains(&loc) {
                        Obs::Observed { tile: map.get(loc).unwrap().clone(), turn, action_count, current: true }
                    } else {
                        Obs::Unobserved
                    }
                );
            }

            obs_tracker.archive();

            for loc in map.iter_locs() {
                assert_eq!(
                    *obs_tracker.get(loc).unwrap(),
                    if observed_locs.contains(&loc) || observed_locs_2.contains(&loc) {
                        Obs::Observed { tile: map.get(loc).unwrap().clone(), turn, action_count, current: false }
                    } else {
                        Obs::Unobserved
                    }
                );
            }
        },
    }
}

#[test]
fn visible_coords_in_order() {
    let v = visible_coords_iter(1);
    assert_eq!(
        v,
        vec![Vec2d::new(-1, 0), Vec2d::new(0, -1), Vec2d::new(0, 0), Vec2d::new(0, 1), Vec2d::new(1, 0)]
    );
    assert_eq!(visible_coords_iter(0), vec![Vec2d::new(0, 0)]);
    assert_eq!(visible_coords_iter(3).len(), 25);
}

#[test]
fn player_trackers() {
    let mut trackers = PlayerObsTracker::new(2, Dims::new(3, 3));
    let loc = Location::new(1, 1);
    let obs = Obs::Observed { tile: Tile::new(Terrain::Water, loc), turn: 4, action_count: 9, current: true };
    assert_eq!(trackers.track(1, loc, obs.clone()), Ok(Some(Obs::Unobserved)));
    assert_eq!(trackers.track(2, loc, obs.clone()), Err(ObsTrackerError::NoTrackerForPlayer(2)));
    assert_eq!(trackers.tracker(1).unwrap().num_observed(), 1);
    assert_eq!(trackers.tracker(0).unwrap().num_observed(), 0);
    assert!(trackers.tracker(2).is_none());
    assert_eq!(*trackers.tracker(1).unwrap().get(loc).unwrap(), obs);
}
