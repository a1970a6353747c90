use umpire::game::alignment::Alignment;
use umpire::game::error::GameError;
use umpire::game::map::MapData;
use umpire::game::paths::{shortest_paths, UnitMovementFilter};
use umpire::game::terrain::Terrain;
use umpire::game::unit::{UnitID, UnitType};
use umpire::game::Game;
use umpire::util::{Dims, Direction, Location, Wrap2d};

#[test]
fn shortest_paths_count_steps_over_what_was_seen() {
    // Land, land, land, water, land.
    let map = MapData::try_from("i.. .").unwrap();
    let id = map.toplevel_unit_id_by_loc(Location::new(0, 0)).unwrap();
    let (mut game, secrets) = Game::new_with_map(map, 1, false, Wrap2d::neither());
    game.begin_turn(secrets[0], false).unwrap();
    let unit = game.player_unit_by_id(secrets[0], id).unwrap().unwrap();
    let obs = game.player_observations(secrets[0]).unwrap();
    let filter = UnitMovementFilter::new(unit);

    let sp = shortest_paths(obs, Location::new(0, 0), &filter, Wrap2d::neither(), 10);
    assert_eq!(sp.dist, vec![Some(0), Some(1), Some(2), None, None]);
    assert_eq!(sp.prev[2], Some(Location::new(1, 0)));

    // With at most one step, the third location is out of reach.
    let sp = shortest_paths(obs, Location::new(0, 0), &filter, Wrap2d::neither(), 1);
    assert_eq!(sp.dist, vec![Some(0), Some(1), None, None, None]);

    // Wrapping around, the last location is one step to the left.
    let sp = shortest_paths(obs, Location::new(0, 0), &filter, Wrap2d::both(), 10);
    assert_eq!(sp.dist, vec![Some(0), Some(1), Some(2), None, Some(1)]);
}

#[test]
fn legal_directions_and_destinations() {
    let water = Location::new(2, 1);
    let mut map = MapData::new(Dims::new(3, 3), |loc| if loc == water { Terrain::Water } else { Terrain::Land });
    let id = map
        .new_unit(Location::new(1, 1), UnitType::Infantry, Alignment::Belligerent { player: 0 }, "Walker")
        .unwrap();
    let (game, secrets) = Game::new_with_map(map, 1, true, Wrap2d::neither());

    assert_eq!(
        game.player_unit_legal_directions(secrets[0], id),
        Ok(vec![
            Direction::Up,
            Direction::Down,
            Direction::Left,
            Direction::UpLeft,
            Direction::UpRight,
            Direction::DownLeft,
            Direction::DownRight,
        ])
    );
    let dests = game.player_unit_legal_one_step_destinations(secrets[0], id).unwrap();
    assert_eq!(dests.len(), 7);
    assert!(!dests.contains(&water));
    assert!(!dests.contains(&Location::new(1, 1)));
    assert_eq!(
        game.player_unit_legal_directions(secrets[0], UnitID::new(9)),
        Err(GameError::NoSuchUnit { id: UnitID::new(9) })
    );
}

#[test]
fn test_current_player_unit_legal_one_step_destinations() {
    let dirs = [
        Direction::UpLeft,
        Direction::Up,
        Direction::UpRight,
        Direction::Left,
        Direction::Right,
        Direction::DownLeft,
        Direction::Down,
        Direction::DownRight,
    ];

    let possible: Vec<char> = " 01iI".chars().collect();
    let traversable = |c: char| match c {
        ' ' => false, // water
        '0' => true,  // friendly city
        '1' => true,  // enemy city
        'i' => false, // friendly unit
        'I' => true,  // enemy unit
        _ => panic!("unexpected tile {}", c),
    };

    for up_left in &possible {
        for up in &possible {
            for up_right in &possible {
                for left in &possible {
                    for right in &possible {
                        for down_left in &possible {
                            for down in &possible {
                                for down_right in &possible {
                                    let cs: Vec<char> = dirs
                                        .iter()
                                        .map(|dir| match dir {
                                            Direction::UpLeft => up_left,
                                            Direction::Up => up,
                                            Direction::UpRight => up_right,
                                            Direction::Left => left,
                                            Direction::Right => right,
                                            Direction::DownLeft => down_left,
                                            Direction::Down => down,
                                            Direction::DownRight => down_right,
                                        })
                                        .cloned()
                                        .collect();

                                    let s = format!(
                                        "{}{}{}\n{}i{}\n{}{}{}",
                                        cs[0], cs[1], cs[2], cs[3], cs[4], cs[5], cs[6], cs[7]
                                    );

                                    let map = MapData::try_from(s.as_str()).unwrap();
                                    assert_eq!(map.dims(), Dims::new(3, 3));

                                    let (mut game, secrets) = Game::new_with_map(map, 2, false, Wrap2d::both());

                                    game.begin_turn(secrets[0], false).unwrap();

                                    let id = game
                                        .player_toplevel_unit_by_loc(secrets[0], Location { x: 1, y: 1 })
                                        .unwrap()
                                        .unwrap()
                                        .id;

                                    let src = Location::new(1, 1);
                                    let dests = game.player_unit_legal_one_step_destinations(secrets[0], id).unwrap();

                                    for (i, dir) in dirs.iter().enumerate() {
                                        let v = dir.vec2d();
                                        let loc = Location {
                                            x: ((src.x as i32) + v.x) as u16,
                                            y: ((src.y as i32) + v.y) as u16,
                                        };
                                        if traversable(cs[i]) {
                                            assert!(dests.contains(&loc), "Erroneously omitted {:?} on {:?}", loc, s);
                                        } else {
                                            assert!(!dests.contains(&loc), "Erroneously included {:?} on {:?}", loc, s);
                                        }
                                    }
                                } // down_right
                            } // down
                        } // down_left
                    } // right
                } // left
            } // up_right
        } // up
    } // up_left
}

#[test]
fn test_current_player_unit_legal_one_step_destinations_wrapping() {
    // Make sure the same destinations are found in these cases regardless of wrapping
    let wrappings = [
        Wrap2d::neither(),
        Wrap2d { horiz: true, vert: false },
        Wrap2d { horiz: false, vert: true },
        Wrap2d::both(),
    ];
    for wrapping in wrappings.iter().cloned() {
        {
            // 1x1
            let mut map = MapData::new(Dims::new(1, 1), |_loc| Terrain::Land);
            let unit_id = map
                .new_unit(Location::new(0, 0), UnitType::Infantry, Alignment::Belligerent { player: 0 }, "Eunice")
                .unwrap();
            let (game, secrets) = Game::new_with_map(map, 1, false, wrapping);

            assert!(game.player_unit_legal_one_step_destinations(secrets[0], unit_id).unwrap().is_empty());
        }

        {
            // 2x1
            let mut map = MapData::new(Dims::new(2, 1), |_loc| Terrain::Land);
            let unit_id = map
                .new_unit(Location::new(0, 0), UnitType::Infantry, Alignment::Belligerent { player: 0 }, "Eunice")
                .unwrap();
            let (game, secrets) = Game::new_with_map(map, 1, false, wrapping);

            let dests = game.player_unit_legal_one_step_destinations(secrets[0], unit_id).unwrap();
            assert_eq!(dests.len(), 1, "Bad dests: {:?} with wrapping {:?}", dests, wrapping);
            assert!(dests.contains(&Location::new(1, 0)));
        }

        {
            // 3x1
            let mut map = MapData::new(Dims::new(3, 1), |_loc| Terrain::Land);
            let unit_id = map
                .new_unit(Location::new(1, 0), UnitType::Infantry, Alignment::Belligerent { player: 0 }, "Eunice")
                .unwrap();
            let (game, secrets) = Game::new_with_map(map, 1, false, wrapping);

            let dests = game.player_unit_legal_one_step_destinations(secrets[0], unit_id).unwrap();
            assert_eq!(dests.len(), 2, "Bad dests: {:?} with wrapping {:?}", dests, wrapping);
            assert!(dests.contains(&Location::new(0, 0)));
            assert!(dests.contains(&Location::new(2, 0)));
        }

        {
            // 3x1 with infantry in transport
            let mut map = MapData::try_from(".ti").unwrap();
            let transport_id = map.toplevel_unit_id_by_loc(Location::new(1, 0)).unwrap();
            let inf_id = map.toplevel_unit_id_by_loc(Location::new(2, 0)).unwrap();
            map.carry_unit_by_id(transport_id, inf_id).unwrap();

            let (game, secrets) = Game::new_with_map(map, 1, false, wrapping);

            let dests = game.player_unit_legal_one_step_destinations(secrets[0], inf_id).unwrap();
            assert_eq!(dests.len(), 2, "Bad dests: {:?} with wrapping {:?}", dests, wrapping);
            assert!(dests.contains(&Location::new(0, 0)));
            assert!(dests.contains(&Location::new(2, 0)));
        }
    }
}
