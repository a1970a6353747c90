use umpire::game::action::{PlayerAction, PlayerActionOutcome};
use umpire::game::alignment::Alignment;
use umpire::game::combat::fight_hp;
use umpire::game::orders::Orders;
use umpire::game::error::GameError;
use umpire::game::map::MapData;
use umpire::game::move_::MoveError;
use umpire::game::terrain::Terrain;
use umpire::game::unit::{UnitID, UnitType};
use umpire::game::Game;
use umpire::util::{Dims, Direction, Location, Wrap2d};

#[test]
fn test_terrainwise_movement() {
    let mut map = MapData::try_from(" t-").unwrap();
    map.set_terrain(Location::new(1, 0), Terrain::Water).unwrap();

    let transport_id = map.toplevel_unit_by_loc(Location::new(1, 0)).unwrap().id;

    let (mut game, secrets) = Game::new_with_map(map, 1, false, Wrap2d::both());

    game.begin_turn(secrets[0], false).unwrap();

    game.move_unit_by_id_in_direction(secrets[0], transport_id, Direction::Left).unwrap();
    game.move_unit_by_id_in_direction(secrets[0], transport_id, Direction::Right).unwrap();

    assert_eq!(
        game.move_unit_by_id_in_direction(secrets[0], transport_id, Direction::Right),
        Err(GameError::MoveError(MoveError::NoRoute {
            id: transport_id,
            src: Location::new(1, 0),
            dest: Location::new(2, 0),
        }))
    );
}

#[test]
fn test_unit_moves_onto_transport() {
    let map = MapData::try_from("---it   ").unwrap();
    let infantry_loc = Location { x: 3, y: 0 };
    let transport_loc = Location { x: 4, y: 0 };

    let transport_id: UnitID = map.toplevel_unit_id_by_loc(transport_loc).unwrap();

    let (mut game, secrets) = Game::new_with_map(map, 1, false, Wrap2d::both());

    game.begin_turn(secrets[0], false).unwrap();

    let move_result = game.move_toplevel_unit_by_loc(secrets[0], infantry_loc, transport_loc).unwrap();
    assert_eq!(move_result.starting_loc, infantry_loc);
    assert_eq!(move_result.ending_loc(), Some(transport_loc));
    assert!(move_result.moved_successfully());
    assert_eq!(move_result.ending_carrier(), Some(transport_id));
}

#[test]
fn a_move_takes_the_shortest_path_and_uses_up_moves() {
    let mut map = MapData::new(Dims::new(10, 1), |_loc| Terrain::Land);
    let id = map
        .new_unit(Location::new(0, 0), UnitType::Armor, Alignment::Belligerent { player: 0 }, "Tank")
        .unwrap();
    let (mut game, secrets) = Game::new_with_map(map, 1, false, Wrap2d::neither());

    // Not in the main phase yet.
    assert!(matches!(
        game.move_unit_by_id(secrets[0], id, Location::new(1, 0)),
        Err(GameError::WrongPhase { .. })
    ));
    game.begin_turn(secrets[0], false).unwrap();

    assert_eq!(
        game.move_unit_by_id(secrets[0], id, Location::new(0, 0)),
        Err(GameError::MoveError(MoveError::ZeroLengthMove))
    );
    assert_eq!(
        game.move_unit_by_id(secrets[0], id, Location::new(20, 0)),
        Err(GameError::MoveError(MoveError::DestinationOutOfBounds))
    );
    assert_eq!(
        game.move_unit_by_id(secrets[0], UnitID::new(9), Location::new(1, 0)),
        Err(GameError::MoveError(MoveError::SourceUnitDoesNotExist { id: UnitID::new(9) }))
    );

    // Armor moves two steps a turn: two steps east, one per component.
    let m = game.move_unit_by_id(secrets[0], id, Location::new(2, 0)).unwrap();
    assert_eq!(m.starting_loc, Location::new(0, 0));
    assert_eq!(m.len(), 2);
    assert_eq!(m.components[0].prev_loc, Location::new(0, 0));
    assert_eq!(m.components[0].loc, Location::new(1, 0));
    assert_eq!(m.components[1].loc, Location::new(2, 0));
    assert_eq!(m.distance_moved(), 2);
    assert_eq!(m.ending_loc(), Some(Location::new(2, 0)));
    assert_eq!(game.player_unit_loc(secrets[0], id), Ok(Some(Location::new(2, 0))));
    assert_eq!(game.player_unit_by_id(secrets[0], id).unwrap().unwrap().moves_remaining(), 0);

    // No moves left: no route within them.
    assert_eq!(
        game.move_unit_by_id(secrets[0], id, Location::new(3, 0)),
        Err(GameError::MoveError(MoveError::NoRoute {
            id,
            src: Location::new(2, 0),
            dest: Location::new(3, 0),
        }))
    );
}

#[test]
fn attacking_a_unit_ends_in_victory_or_destruction() {
    let mut victorious = false;
    let mut defeated = false;
    while !victorious || !defeated {
        let mut map = MapData::new(Dims::new(5, 1), |_loc| Terrain::Land);
        let attacker = map
            .new_unit(Location::new(0, 0), UnitType::Infantry, Alignment::Belligerent { player: 0 }, "Attacker")
            .unwrap();
        let defender = map
            .new_unit(Location::new(1, 0), UnitType::Infantry, Alignment::Belligerent { player: 1 }, "Defender")
            .unwrap();
        let (mut game, secrets) = Game::new_with_map(map, 2, false, Wrap2d::neither());
        game.begin_turn(secrets[0], false).unwrap();

        let m = game.move_unit_by_id(secrets[0], attacker, Location::new(1, 0)).unwrap();
        assert_eq!(m.len(), 1);
        let combat = m.components[0].unit_combat.as_ref().unwrap();
        assert_eq!(combat.defender.id, defender);
        if combat.victorious() {
            victorious = true;
            assert!(m.moved_successfully());
            assert_eq!(m.ending_loc(), Some(Location::new(1, 0)));
            assert_eq!(game.player_unit_loc(secrets[0], attacker), Ok(Some(Location::new(1, 0))));
            assert_eq!(game.player_unit_loc(secrets[1], defender), Ok(None));
        } else {
            defeated = true;
            assert!(!m.moved_successfully());
            assert_eq!(m.ending_loc(), None);
            assert_eq!(game.player_unit_loc(secrets[0], attacker), Ok(None));
            assert_eq!(game.player_unit_loc(secrets[1], defender), Ok(Some(Location::new(1, 0))));
        }
    }
}

#[test]
fn taking_an_undefended_city() {
    let mut taken = false;
    let mut lost = false;
    while !taken || !lost {
        let mut map = MapData::new(Dims::new(5, 1), |_loc| Terrain::Land);
        let attacker = map
            .new_unit(Location::new(0, 0), UnitType::Infantry, Alignment::Belligerent { player: 0 }, "Attacker")
            .unwrap();
        map.new_city(Location::new(1, 0), Alignment::Neutral, "Free").unwrap();
        map.new_city(Location::new(4, 0), Alignment::Belligerent { player: 0 }, "Home").unwrap();
        let (mut game, secrets) = Game::new_with_map(map, 1, false, Wrap2d::neither());
        game.begin_turn(secrets[0], false).unwrap();
        let m = game.move_unit_by_id(secrets[0], attacker, Location::new(1, 0)).unwrap();
        assert!(m.components[0].unit_combat.is_none());
        if m.conquered_city().is_some() {
            taken = true;
            let city = game.player_city_by_loc(secrets[0], Location::new(1, 0)).unwrap().unwrap();
            assert_eq!(city.alignment, Alignment::Belligerent { player: 0 });
            // The unit stands in the city, its movement over for the turn.
            let unit = game.player_unit_by_id(secrets[0], attacker).unwrap().unwrap();
            assert_eq!(unit.loc, Location::new(1, 0));
            assert_eq!(unit.moves_remaining(), 0);
        } else {
            lost = true;
            assert_eq!(game.player_unit_loc(secrets[0], attacker), Ok(None));
            assert!(game.player_city_by_loc(secrets[0], Location::new(1, 0)).unwrap().is_none());
        }
    }
}

#[test]
fn actions_are_taken_by_the_methods_that_carry_them_out() {
    let mut map = MapData::new(Dims::new(6, 1), |_loc| Terrain::Land);
    let id = map
        .new_unit(Location::new(0, 0), UnitType::Armor, Alignment::Belligerent { player: 0 }, "Tank")
        .unwrap();
    let scout = map
        .new_unit(Location::new(5, 0), UnitType::Infantry, Alignment::Belligerent { player: 0 }, "Scout")
        .unwrap();
    let (mut game, secrets) = Game::new_with_map(map, 1, false, Wrap2d::neither());

    match (PlayerAction::BeginTurn { clear_after_unit_production: false }).take(&mut game, secrets[0]) {
        Ok(PlayerActionOutcome::TurnStarted(ts)) => assert_eq!(ts.turn, 0),
        _ => panic!("the turn should have begun"),
    }
    match (PlayerAction::MoveUnit { unit_id: id, dest: Location::new(2, 0) }).take(&mut game, secrets[0]) {
        Ok(PlayerActionOutcome::MoveUnit { unit_id, dest, move_ }) => {
            assert_eq!(unit_id, id);
            assert_eq!(dest, Some(Location::new(2, 0)));
            assert_eq!(move_.ending_loc(), Some(Location::new(2, 0)));
        },
        _ => panic!("the unit should have moved"),
    }
    match (PlayerAction::SkipUnit { unit_id: scout }).take(&mut game, secrets[0]) {
        Ok(PlayerActionOutcome::UnitSkipped { unit_id, prior_orders }) => {
            assert_eq!(unit_id, scout);
            assert_eq!(prior_orders, None);
        },
        _ => panic!("the unit should have been skipped"),
    }
    match (PlayerAction::OrderUnit { unit_id: scout, orders: Orders::Sentry }).take(&mut game, secrets[0]) {
        Ok(PlayerActionOutcome::OrderUnit { prior_orders, .. }) => assert_eq!(prior_orders, Some(Orders::Skip)),
        _ => panic!("the unit should have been ordered"),
    }
    assert!(matches!(
        PlayerAction::MoveUnitInDirection { unit_id: id, direction: Direction::Right }.take(&mut game, secrets[0]),
        Err(GameError::MoveError(MoveError::NoRoute { .. }))
    ));
    assert!(matches!(
        PlayerAction::DisbandUnit { unit_id: UnitID::new(40) }.take(&mut game, secrets[0]),
        Err(GameError::NoSuchUnit { .. })
    ));
    assert!(matches!(PlayerAction::EndTurn.take(&mut game, secrets[0]), Ok(PlayerActionOutcome::TurnEnded)));
}

#[test]
fn fights_end_with_one_side_out_of_hit_points() {
    for _ in 0..50 {
        let (a, d) = fight_hp(3, 2);
        assert!(a <= 3 && d <= 2);
        assert!((a == 0) != (d == 0));
    }
    assert_eq!(fight_hp(0, 4), (0, 4));
    assert_eq!(fight_hp(1, 0), (1, 0));
}

#[test]
fn skipping_and_sentrying_count_as_actions() {
    let mut map = MapData::new(Dims::new(3, 1), |_loc| Terrain::Land);
    let id = map
        .new_unit(Location::new(0, 0), UnitType::Infantry, Alignment::Belligerent { player: 0 }, "Scout")
        .unwrap();
    let (mut game, secrets) = Game::new_with_map(map, 1, false, Wrap2d::neither());
    game.begin_turn(secrets[0], false).unwrap();

    assert_eq!(game.order_unit_skip(secrets[0], id), Ok(None));
    assert_eq!(game.order_unit_sentry(secrets[0], id), Ok(Some(Orders::Skip)));
    assert_eq!(game.player_unit_by_id(secrets[0], id).unwrap().unwrap().orders, Some(Orders::Sentry));
    assert_eq!(
        game.order_unit_sentry(secrets[0], UnitID::new(5)),
        Err(GameError::NoSuchUnit { id: UnitID::new(5) })
    );
    // A sentried unit awaits no orders.
    assert!(game.current_player_unit_orders_requests().is_empty());
}

#[test]
fn moving_a_top_level_unit_by_id() {
    let mut map = MapData::new(Dims::new(4, 1), |_loc| Terrain::Land);
    let id = map
        .new_unit(Location::new(0, 0), UnitType::Infantry, Alignment::Belligerent { player: 0 }, "Walker")
        .unwrap();
    let (mut game, secrets) = Game::new_with_map(map, 1, true, Wrap2d::neither());
    game.begin_turn(secrets[0], false).unwrap();

    let m = game.move_toplevel_unit_by_id(secrets[0], id, Location::new(1, 0)).unwrap();
    assert_eq!(m.ending_loc(), Some(Location::new(1, 0)));
    assert_eq!(m.starting_loc, Location::new(0, 0));
    assert_eq!(
        game.move_toplevel_unit_by_id(secrets[0], UnitID::new(9), Location::new(2, 0)),
        Err(GameError::MoveError(MoveError::SourceUnitDoesNotExist { id: UnitID::new(9) }))
    );
    assert_eq!(
        game.move_toplevel_unit_by_loc(secrets[0], Location::new(3, 0), Location::new(2, 0)),
        Err(GameError::MoveError(MoveError::SourceUnitNotAtLocation { src: Location::new(3, 0) }))
    );
}

#[test]
fn test_loaded_transport_attack() {
    let mut victorious = false;
    let mut defeated = false;
    while !victorious || !defeated {
        let map = MapData::try_from("itP").unwrap();

        let infantry_id = map.toplevel_unit_by_loc(Location::new(0, 0)).unwrap().id;
        let transport_id = map.toplevel_unit_by_loc(Location::new(1, 0)).unwrap().id;
        let battleship_id = map.toplevel_unit_by_loc(Location::new(2, 0)).unwrap().id;

        let (mut game, secrets) = Game::new_with_map(map, 2, false, Wrap2d::neither());

        game.begin_turn(secrets[0], false).unwrap();

        // Load the infantry onto the transport
        let inf_move = game.move_unit_by_id_in_direction(secrets[0], infantry_id, Direction::Right).unwrap();
        assert!(inf_move.moved_successfully());
        assert_eq!(inf_move.ending_loc(), game.player_unit_loc(secrets[0], transport_id).unwrap());
        assert_eq!(inf_move.ending_carrier(), Some(transport_id));

        // Attack the battleship with the transport
        let move_ = game.move_unit_by_id_in_direction(secrets[0], transport_id, Direction::Right).unwrap();
        if move_.moved_successfully() {
            victorious = true;

            assert!(game.player_units(secrets[0]).unwrap().iter().any(|unit| unit.id == infantry_id));
            assert!(game.player_units(secrets[0]).unwrap().iter().any(|unit| unit.id == transport_id));

            assert_eq!(game.player_unit_loc(secrets[0], infantry_id), Ok(Some(Location::new(2, 0))));
            assert_eq!(game.player_unit_loc(secrets[0], transport_id), Ok(Some(Location::new(2, 0))));

            assert!(game.player_tile(secrets[0], Location::new(0, 0)).unwrap().unwrap().unit.is_none());
            assert!(game.player_tile(secrets[0], Location::new(1, 0)).unwrap().unwrap().unit.is_none());
            {
                let unit = game.player_tile(secrets[0], Location::new(2, 0)).unwrap().unwrap().unit.as_ref().unwrap();
                assert_eq!(unit.type_, UnitType::Transport);
                assert_eq!(unit.id, transport_id);
                assert!(unit.carried_units().iter().any(|carried_unit| carried_unit.id == infantry_id));
            }

            game.force_end_then_begin_turn(secrets[0], secrets[1], false).unwrap(); // ignore remaining moves

            assert!(!game.player_units(secrets[1]).unwrap().iter().any(|unit| unit.id == battleship_id));
            assert!(!game.current_player_unit_orders_requests().iter().any(|unit_id| *unit_id == battleship_id));
        } else {
            defeated = true;

            assert!(!game.player_units(secrets[0]).unwrap().iter().any(|unit| unit.id == infantry_id));
            assert!(!game.player_units(secrets[0]).unwrap().iter().any(|unit| unit.id == transport_id));

            assert_eq!(game.player_unit_by_id(secrets[0], infantry_id), Ok(None));
            assert_eq!(game.player_unit_by_id(secrets[0], transport_id), Ok(None));

            assert!(game.player_tile(secrets[0], Location::new(0, 0)).unwrap().unwrap().unit.is_none());
            assert!(game.player_tile(secrets[0], Location::new(1, 0)).unwrap().unwrap().unit.is_none());
            assert_eq!(
                game.player_tile(secrets[0], Location::new(2, 0)).unwrap().unwrap().unit.as_ref().unwrap().id,
                battleship_id
            );

            game.end_then_begin_turn(secrets[0], secrets[1], false).unwrap();

            assert!(game.player_units(secrets[1]).unwrap().iter().any(|unit| unit.id == battleship_id));
            assert!(game.current_player_unit_orders_requests().iter().any(|unit_id| *unit_id == battleship_id));
        }
    }
}

#[test]
fn test_transport_moves_on_transport_unloaded() {
    let l1 = Location::new(0, 0);
    let l2 = Location::new(1, 0);

    let map = MapData::try_from("tt").unwrap();

    let t1_id = map.toplevel_unit_id_by_loc(l1).unwrap();

    {
        let (mut game, secrets) = Game::new_with_map(map, 1, false, Wrap2d::neither());

        assert!(
            game.move_unit_by_id_in_direction(secrets[0], t1_id, Direction::Right).is_err(),
            "Transport should not be able to move onto transport"
        );
    }

    let mut map2 = MapData::try_from("tt").unwrap();
    map2.new_city(l2, Alignment::Belligerent { player: 0 }, "city").unwrap();

    let (mut game, secrets) = Game::new_with_map(map2, 1, false, Wrap2d::neither());

    assert!(
        game.move_unit_by_id_in_direction(secrets[0], t1_id, Direction::Right).is_err(),
        "Transport should not be able to move onto transport"
    );
}
