use umpire::game::action::{AiPlayerAction, NextCityAction, NextUnitAction, PlayerAction};
use umpire::game::alignment::Alignment;
use umpire::game::city::CityID;
use umpire::game::error::GameError;
use umpire::game::map::MapData;
use umpire::game::obs::Obs;
use umpire::game::orders::Orders;
use umpire::game::terrain::Terrain;
use umpire::game::unit::{Fuel, UnitID, UnitType};
use umpire::game::{Game, PlayerSecret, TurnNum, TurnPhase, UnitProductionOutcome};
use umpire::game::ai::TrainingFocus;
use umpire::util::{Dims, Direction, Location, Wrap2d};

fn one_city_map(players: usize) -> MapData {
    let mut map = MapData::new(Dims::new(5, 5), |_loc| Terrain::Land);
    for player in 0..players {
        map.new_city(Location::new(player as u16, 0), Alignment::Belligerent { player }, "City")
            .unwrap();
    }
    map
}

#[test]
fn new_game_hands_out_secrets() {
    let (game, secrets) = Game::new_with_map(one_city_map(2), 2, true, Wrap2d::neither());
    assert_eq!(secrets.len(), 2);
    assert_ne!(secrets[0], secrets[1]);
    assert_eq!(game.num_players(), 2);
    assert_eq!(game.turn(), 0);
    assert_eq!(game.turn_phase(), TurnPhase::Pre);
    assert_eq!(game.current_player(), 0);
    assert_eq!(game.player_with_secret(secrets[1]), Ok(1));
    assert_eq!(
        game.player_with_secret(PlayerSecret { bits: 7 }),
        Err(GameError::NoPlayerIdentifiedBySecret)
    );
    assert_eq!(game.is_player_turn(secrets[0]), Ok(true));
    assert_eq!(game.is_player_turn(secrets[1]), Ok(false));
    assert_eq!(game.dims(), Dims::new(5, 5));
}

#[test]
fn turn_phases_are_checked() {
    let (mut game, secrets) = Game::new_with_map(one_city_map(2), 2, true, Wrap2d::neither());
    assert_eq!(
        game.force_end_turn(secrets[0]),
        Err(GameError::WrongPhase { player: 0, turn: 0, phase: TurnPhase::Pre })
    );
    assert!(matches!(
        game.begin_turn(secrets[1], false),
        Err(GameError::NotPlayersTurn { player: 1 })
    ));
    assert_eq!(game.turn_is_done(0, 0), Ok(false));
    assert_eq!(game.turn_is_done(2, 0), Err(GameError::NoSuchPlayer { player: 2 }));

    let start = game.begin_turn(secrets[0], false).unwrap();
    assert_eq!(start.turn, 0);
    assert_eq!(start.current_player, 0);
    assert!(start.production_outcomes.is_empty());
    assert!(!start.observations.is_empty());
    assert!(game.current_turn_begun());
    assert!(matches!(
        game.begin_turn(secrets[0], false),
        Err(GameError::WrongPhase { player: 0, turn: 0, phase: TurnPhase::Main })
    ));

    // The city awaits a production setting, so the turn is not done.
    assert_eq!(game.player_production_set_requests(secrets[0]), Ok(vec![Location::new(0, 0)]));
    assert_eq!(game.current_turn_is_done(), false);
    assert_eq!(
        game.end_turn(secrets[0]),
        Err(GameError::TurnEndRequirementsNotMet { player: 0 })
    );

    assert_eq!(game.set_production_by_loc(secrets[0], Location::new(0, 0), UnitType::Infantry), Ok(None));
    assert_eq!(game.player_production_set_requests(secrets[0]), Ok(vec![]));
    assert!(game.current_turn_is_done());
    assert_eq!(game.end_turn(secrets[0]), Ok(()));
    assert_eq!(game.current_player(), 1);
    assert_eq!(game.turn(), 0);
    assert_eq!(game.turn_is_done(0, 0), Ok(true));
    assert_eq!(game.turn_is_done(1, 0), Ok(false));
}

#[test]
fn cities_produce_units_once_production_is_complete() {
    let (mut game, secrets) = Game::new_with_map(one_city_map(1), 1, false, Wrap2d::neither());
    let s = secrets[0];
    game.begin_turn(s, false).unwrap();
    game.set_production_by_loc(s, Location::new(0, 0), UnitType::Infantry).unwrap();

    for turn in 1..6 {
        let start = game.end_then_begin_turn(s, s, false).unwrap();
        assert_eq!(start.turn, turn);
        assert!(start.production_outcomes.is_empty());
        // Without fog of war, every location is observed.
        assert_eq!(start.observations.len(), 25);
    }

    let start = game.end_then_begin_turn(s, s, false).unwrap();
    assert_eq!(start.turn, 6);
    assert_eq!(start.production_outcomes.len(), 1);
    match &start.production_outcomes[0] {
        UnitProductionOutcome::UnitProduced { unit, city } => {
            assert_eq!(unit.type_, UnitType::Infantry);
            assert_eq!(unit.loc, Location::new(0, 0));
            assert_eq!(unit.name, "Unit 0");
            assert_eq!(unit.id, UnitID::new(0));
            assert_eq!(city.production_progress, 0);
            assert_eq!(city.production, Some(UnitType::Infantry));
        },
        other => panic!("unexpected outcome {:?}", other),
    }

    // The new unit awaits orders.
    assert_eq!(game.player_unit_orders_requests(s), Ok(vec![UnitID::new(0)]));
    assert_eq!(game.current_player_unit_orders_requests(), vec![UnitID::new(0)]);
    assert!(!game.current_turn_is_done());
    assert_eq!(game.set_orders(s, UnitID::new(0), Orders::Sentry), Ok(None));
    assert!(game.current_turn_is_done());
    assert_eq!(game.player_units_with_pending_orders(s), Ok(vec![]));
    assert_eq!(game.player_unit_loc(s, UnitID::new(0)), Ok(Some(Location::new(0, 0))));
    assert_eq!(game.player_city_count(s), Ok(1));
    assert_eq!(game.player_cities_producing_or_not_ignored(s), Ok(1));
    assert_eq!(game.victor(), Some(0));
}

#[test]
fn a_unit_in_the_city_blocks_production() {
    let mut map = one_city_map(1);
    map.new_unit(Location::new(0, 0), UnitType::Armor, Alignment::Belligerent { player: 0 }, "Guard")
        .unwrap();
    map.set_unit_orders(UnitID::new(0), Orders::Sentry).unwrap();
    map.set_city_production_by_loc(Location::new(0, 0), UnitType::Infantry).unwrap();
    let (mut game, secrets) = Game::new_with_map(map, 1, true, Wrap2d::neither());
    let s = secrets[0];
    game.begin_turn(s, false).unwrap();
    for _ in 1..5 {
        let start = game.end_then_begin_turn(s, s, false).unwrap();
        assert!(start.production_outcomes.is_empty());
    }
    let start = game.end_then_begin_turn(s, s, false).unwrap();
    match &start.production_outcomes[0] {
        UnitProductionOutcome::UnitAlreadyPresent { prior_unit, unit_type_under_production, city } => {
            assert_eq!(prior_unit.name, "Guard");
            assert_eq!(*unit_type_under_production, UnitType::Infantry);
            assert_eq!(city.production_progress, 6);
        },
        other => panic!("unexpected outcome {:?}", other),
    }
}

#[test]
fn disbanding_and_clearing() {
    let mut map = one_city_map(2);
    map.new_unit(Location::new(3, 3), UnitType::Fighter, Alignment::Belligerent { player: 0 }, "Ace")
        .unwrap();
    let (mut game, secrets) = Game::new_with_map(map, 2, true, Wrap2d::neither());
    assert!(matches!(
        game.disband_unit_by_id(secrets[0], UnitID::new(0)),
        Err(GameError::WrongPhase { .. })
    ));
    game.begin_turn(secrets[0], false).unwrap();

    // Player 1 cannot disband player 0's unit.
    assert!(matches!(
        game.disband_unit_by_id(secrets[1], UnitID::new(0)),
        Err(GameError::NotPlayersTurn { player: 1 })
    ));

    let seen = game.player_toplevel_unit_by_loc(secrets[0], Location::new(3, 3)).unwrap();
    assert_eq!(seen.map(|u| u.id), Some(UnitID::new(0)));
    let activated = game.activate_unit_by_loc(secrets[0], Location::new(3, 3)).unwrap();
    assert_eq!(activated.loc, Location::new(3, 3));

    let disbanded = game.disband_unit_by_id(secrets[0], UnitID::new(0)).unwrap();
    assert_eq!(disbanded.unit.name, "Ace");
    assert_eq!(disbanded.obs.loc, Location::new(3, 3));
    assert_eq!(game.player_unit_by_id(secrets[0], UnitID::new(0)), Ok(None));
    assert!(matches!(
        game.disband_unit_by_id(secrets[0], UnitID::new(0)),
        Err(GameError::NoSuchUnit { .. })
    ));
    // The player now sees the tile empty.
    match game.player_obs(secrets[0], Location::new(3, 3)).unwrap() {
        Some(Obs::Observed { tile, current, .. }) => {
            assert!(tile.unit.is_none());
            assert!(*current);
        },
        other => panic!("unexpected observation {:?}", other),
    }

    game.set_production_by_loc(secrets[0], Location::new(0, 0), UnitType::Armor).unwrap();
    let cleared = game.clear_production(secrets[0], Location::new(0, 0), true).unwrap();
    assert_eq!(cleared.prior_production, Some(UnitType::Armor));
    assert_eq!(cleared.obs.loc, Location::new(0, 0));
    // A cleared city that is to be skipped awaits no production setting.
    assert_eq!(game.player_production_set_requests(secrets[0]), Ok(vec![]));
    assert_eq!(game.player_cities_producing_or_not_ignored(secrets[0]), Ok(0));
    assert!(matches!(
        game.clear_production(secrets[0], Location::new(4, 4), false),
        Err(GameError::NoCityAtLocation { .. })
    ));
    // Two players still hold cities: nobody has won.
    assert_eq!(game.victor(), None);
}

#[test]
fn fog_of_war_limits_what_is_seen() {
    let mut map = MapData::new(Dims::new(20, 1), |_loc| Terrain::Land);
    map.new_city(Location::new(0, 0), Alignment::Belligerent { player: 0 }, "Near").unwrap();
    map.new_city(Location::new(19, 0), Alignment::Belligerent { player: 1 }, "Far").unwrap();
    let (mut game, secrets) = Game::new_with_map(map, 2, true, Wrap2d::neither());
    let start = game.begin_turn(secrets[0], false).unwrap();
    // A city sees three tiles around it.
    assert_eq!(start.observations.len(), 4);
    assert!(matches!(game.player_tile(secrets[0], Location::new(3, 0)), Ok(Some(_))));
    assert_eq!(game.player_tile(secrets[0], Location::new(4, 0)).map(|t| t.is_some()), Ok(false));
    assert_eq!(game.player_city_by_loc(secrets[0], Location::new(19, 0)).map(|c| c.is_some()), Ok(false));
    assert_eq!(game.player_city_by_loc(secrets[0], Location::new(0, 0)).map(|c| c.map(|c| c.name.clone())), Ok(Some(String::from("Near"))));
    assert_eq!(game.player_observations(secrets[0]).map(|o| o.num_observed()), Ok(4));
}

#[test]
fn clearing_every_production_of_a_player() {
    let mut map = MapData::new(Dims::new(5, 5), |_loc| Terrain::Land);
    map.new_city(Location::new(0, 0), Alignment::Belligerent { player: 0 }, "First").unwrap();
    map.new_city(Location::new(4, 4), Alignment::Belligerent { player: 1 }, "Other").unwrap();
    map.new_city(Location::new(2, 1), Alignment::Belligerent { player: 0 }, "Second").unwrap();
    map.set_city_production_by_loc(Location::new(0, 0), UnitType::Armor).unwrap();
    map.set_city_production_by_loc(Location::new(4, 4), UnitType::Fighter).unwrap();
    let (mut game, secrets) = Game::new_with_map(map, 2, false, Wrap2d::neither());

    assert!(matches!(
        game.clear_productions(secrets[1], true),
        Err(GameError::NotPlayersTurn { player: 1 })
    ));
    game.begin_turn(secrets[0], false).unwrap();

    let cleared = game.clear_productions(secrets[0], true).unwrap();
    assert_eq!(cleared.len(), 2);
    assert_eq!(cleared[0].prior_production, Some(UnitType::Armor));
    assert_eq!(cleared[0].obs.loc, Location::new(0, 0));
    assert_eq!(cleared[1].prior_production, None);
    assert_eq!(cleared[1].obs.loc, Location::new(2, 1));
    // Both cities are to be skipped, so none awaits a production setting.
    assert_eq!(game.player_production_set_requests(secrets[0]), Ok(vec![]));
    assert_eq!(game.player_cities_producing_or_not_ignored(secrets[0]), Ok(0));
    // The other player's city, seen without fog of war, keeps its production.
    assert_eq!(
        game.player_tile(secrets[0], Location::new(4, 4)).unwrap().unwrap().city.as_ref().unwrap().production,
        Some(UnitType::Fighter)
    );
    // It is not player 0's, so it is no city of player 0's, and player 0 cannot set its production.
    assert!(game.player_city_by_loc(secrets[0], Location::new(4, 4)).unwrap().is_none());
    let other_id = game.player_tile(secrets[0], Location::new(4, 4)).unwrap().unwrap().city.as_ref().unwrap().id;
    assert_eq!(
        game.set_production_by_id(secrets[0], other_id, UnitType::Armor),
        Err(GameError::NoCityAtLocation { loc: Location::new(4, 4) })
    );
    assert_eq!(
        game.set_production_by_id(secrets[0], CityID { id: 99 }, UnitType::Armor),
        Err(GameError::NoCityAtLocation { loc: Location::new(0, 0) })
    );
}

#[test]
fn ai_actions_become_player_actions() {
    let mut map = one_city_map(1);
    map.new_unit(Location::new(2, 2), UnitType::Infantry, Alignment::Belligerent { player: 0 }, "Scout")
        .unwrap();
    let (mut game, secrets) = Game::new_with_map(map, 1, false, Wrap2d::neither());
    let s = secrets[0];
    game.begin_turn(s, false).unwrap();

    let set = AiPlayerAction::City(NextCityAction::SetProduction { unit_type: UnitType::Armor });
    match set.to_action(&mut game, s).unwrap() {
        PlayerAction::SetCityProduction { city_id, production } => {
            assert_eq!(city_id, CityID { id: 0 });
            assert_eq!(production, UnitType::Armor);
        },
        other => panic!("unexpected action {:?}", other),
    }

    let up = AiPlayerAction::Unit(NextUnitAction::Move { direction: Direction::Up });
    match up.to_action(&mut game, s).unwrap() {
        PlayerAction::MoveUnitInDirection { unit_id, direction } => {
            assert_eq!(unit_id, UnitID::new(0));
            assert_eq!(direction, Direction::Up);
        },
        other => panic!("unexpected action {:?}", other),
    }
    match NextUnitAction::Disband.to_action(&mut game, s).unwrap() {
        PlayerAction::DisbandUnit { unit_id } => assert_eq!(unit_id, UnitID::new(0)),
        other => panic!("unexpected action {:?}", other),
    }
    match NextUnitAction::Skip.to_action(&mut game, s).unwrap() {
        PlayerAction::SkipUnit { unit_id } => assert_eq!(unit_id, UnitID::new(0)),
        other => panic!("unexpected action {:?}", other),
    }
    assert!(matches!(
        set.to_action(&mut game, PlayerSecret { bits: 7 }),
        Err(GameError::NoPlayerIdentifiedBySecret)
    ));
}

#[test]
fn test_turn_is_done() {
    let map = MapData::try_from("0 ").unwrap();
    let (mut game, secrets) = Game::new_with_map(map, 1, true, Wrap2d::neither());

    assert_eq!(game.turn_is_done(9999, 0), Err(GameError::NoSuchPlayer { player: 9999 }));

    assert_eq!(game.turn_is_done(0, 0), Ok(false));

    assert_eq!(game.turn_is_done(0, 1), Ok(false));

    game.begin_turn(secrets[0], false).unwrap();

    assert_eq!(game.turn_is_done(0, 0), Ok(false));

    assert_eq!(game.turn_is_done(0, 1), Ok(false));

    let city0id = game.player_city_by_loc(secrets[0], Location::new(0, 0)).unwrap().unwrap().id;

    game.set_production_by_id(secrets[0], city0id, UnitType::Infantry).unwrap();

    assert_eq!(game.turn_is_done(0, 0), Ok(true));

    assert_eq!(game.turn_is_done(0, 1), Ok(false));

    // Let the infantry be produced
    for i in 0..UnitType::Infantry.cost() {
        game.end_turn(secrets[0]).unwrap();

        let turn = i as TurnNum + 1;

        assert!(!game.turn_is_done(0, turn).unwrap()); // not done because still in Pre phase
        assert!(!game.current_turn_is_done()); // not done because still in Pre phase

        game.begin_turn(secrets[0], false).unwrap();

        if i < UnitType::Infantry.cost() - 1 {
            assert!(game.turn_is_done(0, turn).unwrap()); // done because there's nothing to do
            assert!(game.current_turn_is_done()); // done because there's nothing to do
        } else {
            assert!(!game.turn_is_done(0, turn).unwrap()); // not done because we just produced an infantry
            assert!(!game.current_turn_is_done()); // not done because we just produced an infantry
        }
    }
}

#[test]
fn sheltered_units_are_refueled_when_the_turn_ends() {
    let mut map = MapData::try_from("f0 k").unwrap();
    let outside = map.toplevel_unit_id_by_loc(Location::new(0, 0)).unwrap();
    let carrier = map.toplevel_unit_id_by_loc(Location::new(3, 0)).unwrap();
    let in_city = map
        .new_unit(Location::new(1, 0), UnitType::Fighter, Alignment::Belligerent { player: 0 }, "Home")
        .unwrap();
    let aboard = map
        .new_unit(Location::new(2, 0), UnitType::Fighter, Alignment::Belligerent { player: 0 }, "Aboard")
        .unwrap();
    map.carry_unit_by_id(carrier, aboard).unwrap();
    for id in [outside, in_city, aboard] {
        map.record_unit_movement(id, 2).unwrap();
    }
    let max = match UnitType::Fighter.fuel() {
        Fuel::Limited { max, .. } => max,
        _ => panic!("fighters have limited fuel"),
    };

    let (mut game, secrets) = Game::new_with_map(map, 1, false, Wrap2d::neither());
    game.begin_turn(secrets[0], false).unwrap();
    game.force_end_turn(secrets[0]).unwrap();

    let fuel = |id| game.player_unit_by_id(secrets[0], id).unwrap().unwrap().fuel;
    assert_eq!(fuel(in_city), Fuel::Limited { max, remaining: max });
    assert_eq!(fuel(aboard), Fuel::Limited { max, remaining: max });
    assert_eq!(fuel(outside), Fuel::Limited { max, remaining: max - 2 });
}

#[test]
fn test_valid_productions() {
    let map = MapData::try_from("...\n.0.\n...").unwrap();
    let (game, secrets) = Game::new_with_map(map, 1, false, Wrap2d::neither());

    let city_loc = game.player_production_set_requests(secrets[0]).unwrap()[0];

    let prods = game.valid_productions(secrets[0], city_loc).unwrap();

    for t in UnitType::values().iter().cloned() {
        if match t {
            UnitType::Armor => true,
            UnitType::Battleship => false,
            UnitType::Bomber => true,
            UnitType::Carrier => false,
            UnitType::Cruiser => false,
            UnitType::Destroyer => false,
            UnitType::Fighter => true,
            UnitType::Infantry => true,
            UnitType::Submarine => false,
            UnitType::Transport => false,
        } {
            assert!(prods.contains(&t));
        } else {
            assert!(!prods.contains(&t));
        }
    }
}

#[test]
fn test_valid_productions_conservative() {
    let map = MapData::try_from("...\n.0.\n...").unwrap();
    let (game, secrets) = Game::new_with_map(map, 1, false, Wrap2d::neither());

    let city_loc = game.player_production_set_requests(secrets[0]).unwrap()[0];

    let prods = game.valid_productions_conservative(secrets[0], city_loc).unwrap();

    for t in UnitType::values().iter().cloned() {
        if match t {
            UnitType::Armor => true,
            UnitType::Battleship => false,
            UnitType::Bomber => true,
            UnitType::Carrier => false,
            UnitType::Cruiser => false,
            UnitType::Destroyer => false,
            UnitType::Fighter => true,
            UnitType::Infantry => true,
            UnitType::Submarine => false,
            UnitType::Transport => false,
        } {
            assert!(prods.contains(&t));
        } else {
            assert!(!prods.contains(&t));
        }
    }
}

#[test]
fn coastal_cities_can_produce_ships() {
    // A city on the coast: water to its right.
    let map = MapData::try_from("0 ").unwrap();
    let (game, secrets) = Game::new_with_map(map, 1, false, Wrap2d::neither());
    let loc = Location::new(0, 0);
    let prods = game.valid_productions(secrets[0], loc).unwrap();
    assert!(prods.contains(&UnitType::Transport));
    assert!(!prods.contains(&UnitType::Infantry));
    assert_eq!(
        game.valid_productions(secrets[0], Location::new(1, 0)),
        Err(GameError::NoCityAtLocation { loc: Location::new(1, 0) })
    );
}

#[test]
fn test_disband_unit_by_id() {
    let map = MapData::try_from("i").unwrap();
    let (mut game, secrets) = Game::new_with_map(map, 1, true, Wrap2d::neither());
    let id = UnitID::new(0);

    game.begin_turn(secrets[0], false).unwrap();

    let unit = game.player_unit_by_id(secrets[0], id).unwrap().cloned().unwrap();

    assert!(game.current_player_unit_orders_requests().iter().any(|unit_id| *unit_id == id));

    assert_eq!(game.disband_unit_by_id(secrets[0], id).map(|disbanded| disbanded.unit), Ok(unit));

    let id2 = UnitID::new(1);

    assert_eq!(game.disband_unit_by_id(secrets[0], id2).map(|disbanded| disbanded.unit), Err(GameError::NoSuchUnit { id: id2 }));

    assert!(!game.current_player_unit_orders_requests().iter().any(|unit_id| *unit_id == id));

    {
        let map2 = MapData::try_from("it ").unwrap();
        let infantry_id = map2.toplevel_unit_id_by_loc(Location::new(0, 0)).unwrap();
        let transport_id = map2.toplevel_unit_id_by_loc(Location::new(1, 0)).unwrap();

        let (mut game2, secrets) = Game::new_with_map(map2, 1, true, Wrap2d::neither());

        game2.begin_turn(secrets[0], false).unwrap();

        assert!(game2.current_player_unit_orders_requests().iter().any(|unit_id| *unit_id == infantry_id));
        assert!(game2.current_player_unit_orders_requests().iter().any(|unit_id| *unit_id == transport_id));

        game2.move_unit_by_id_in_direction(secrets[0], infantry_id, Direction::Right).unwrap();

        game2.force_end_then_begin_turn(secrets[0], secrets[0], false).unwrap();

        let infantry = game2.player_unit_by_id(secrets[0], infantry_id).unwrap().cloned().unwrap();

        assert!(game2.current_player_unit_orders_requests().iter().any(|unit_id| *unit_id == infantry_id));
        assert!(game2.current_player_unit_orders_requests().iter().any(|unit_id| *unit_id == transport_id));

        let infantry_loc = infantry.loc;

        assert_eq!(game2.disband_unit_by_id(secrets[0], infantry_id).map(|disbanded| disbanded.unit), Ok(infantry));

        match game2.player_obs(secrets[0], infantry_loc).unwrap() {
            Some(Obs::Observed { current, .. }) => assert!(*current),
            _ => panic!("The infantry's location prior to disbanding should be observed post-disband"),
        }

        assert!(!game2.current_player_unit_orders_requests().iter().any(|unit_id| *unit_id == infantry_id));
        assert!(game2.current_player_unit_orders_requests().iter().any(|unit_id| *unit_id == transport_id));

        let transport = game2.player_unit_by_id(secrets[0], transport_id).unwrap().cloned().unwrap();

        assert_eq!(game2.disband_unit_by_id(secrets[0], transport_id).map(|disbanded| disbanded.unit), Ok(transport));
    }
}

#[test]
fn legal_actions_for_the_next_city_and_unit() {
    let mut map = MapData::new(Dims::new(5, 5), |_loc| Terrain::Land);
    map.new_city(Location::new(2, 2), Alignment::Belligerent { player: 0 }, "Inland").unwrap();
    map.new_unit(Location::new(0, 0), UnitType::Infantry, Alignment::Belligerent { player: 0 }, "Corner")
        .unwrap();
    let (mut game, secrets) = Game::new_with_map(map, 1, false, Wrap2d::neither());
    game.begin_turn(secrets[0], false).unwrap();

    // The inland city can produce every land and air unit, but no ship.
    let expected: Vec<NextCityAction> = game
        .valid_productions_conservative(secrets[0], Location::new(2, 2))
        .unwrap()
        .into_iter()
        .map(|unit_type| NextCityAction::SetProduction { unit_type })
        .collect();
    assert_eq!(NextCityAction::legal(&game, secrets[0]), Ok(expected.clone()));
    assert_eq!(game.current_player_valid_productions_conservative(Location::new(2, 2)).len(), expected.len());
    assert!(expected.contains(&NextCityAction::SetProduction { unit_type: UnitType::Infantry }));
    assert!(!expected.contains(&NextCityAction::SetProduction { unit_type: UnitType::Battleship }));

    // The unit in the corner can step right, down, or diagonally down and right.
    let legal = NextUnitAction::legal(&game, secrets[0]).unwrap();
    assert_eq!(legal[0], NextUnitAction::Disband);
    assert_eq!(legal[1], NextUnitAction::Skip);
    assert_eq!(legal.len(), 5);
    let directions = game.current_player_unit_legal_directions(UnitID::new(0)).unwrap();
    assert_eq!(directions.len(), 3);
    for d in directions.iter() {
        assert!(legal.contains(&NextUnitAction::Move { direction: *d }));
    }
    assert_eq!(
        game.current_player_unit_legal_directions(UnitID::new(7)),
        Err(GameError::NoSuchUnit { id: UnitID::new(7) })
    );

    // Once the city has its production and the unit is gone, neither awaits anything.
    game.set_production_by_loc(secrets[0], Location::new(2, 2), UnitType::Armor).unwrap();
    game.disband_unit_by_id(secrets[0], UnitID::new(0)).unwrap();
    assert_eq!(NextCityAction::legal(&game, secrets[0]), Ok(vec![]));
    assert_eq!(NextUnitAction::legal(&game, secrets[0]), Ok(vec![]));
    assert_eq!(
        NextUnitAction::legal(&game, PlayerSecret { bits: 3 }),
        Err(GameError::NoPlayerIdentifiedBySecret)
    );
}

#[test]
fn feature_counts_around_the_next_unit() {
    let mut map = MapData::new(Dims::new(5, 5), |_loc| Terrain::Land);
    map.new_city(Location::new(4, 4), Alignment::Belligerent { player: 0 }, "Home").unwrap();
    map.new_city(Location::new(3, 0), Alignment::Neutral, "Free").unwrap();
    map.new_unit(Location::new(0, 0), UnitType::Infantry, Alignment::Belligerent { player: 0 }, "Scout")
        .unwrap();
    map.new_unit(Location::new(1, 1), UnitType::Armor, Alignment::Belligerent { player: 1 }, "Tank")
        .unwrap();
    let (mut game, secrets) = Game::new_with_map(map, 2, false, Wrap2d::neither());
    game.begin_turn(secrets[0], false).unwrap();

    let f = game.player_feature_counts(secrets[0], TrainingFocus::Unit).unwrap();
    assert_eq!(f.turn, 0);
    assert_eq!(f.city_count, 1);
    assert_eq!(f.area, 25);
    assert_eq!(f.num_observed, 25);
    assert_eq!(f.unit_type, Some(UnitType::Infantry));
    assert!(f.city_awaiting);
    assert_eq!(f.unit_type_counts, vec![1, 0, 0, 0, 0, 0, 0, 0, 0, 0]);
    assert_eq!(f.is_observed.len(), 121);
    // The window is centred on the unit at (0, 0): offset (dx, dy) is entry (dx + 5) * 11 + (dy + 5).
    let at = |dx: i32, dy: i32| ((dx + 5) * 11 + (dy + 5)) as usize;
    assert!(f.is_observed[at(0, 0)]);
    assert!(!f.is_observed[at(-1, 0)]);
    assert!(f.is_enemy_belligerent[at(1, 1)]);
    assert!(!f.is_enemy_belligerent[at(0, 0)]);
    assert!(f.is_neutral[at(3, 0)]);
    assert!(f.is_city[at(3, 0)]);
    assert!(f.is_city[at(4, 4)]);
    assert!(!f.is_enemy_belligerent[at(4, 4)]);
    assert_eq!(f.is_city.iter().filter(|b| **b).count(), 2);

    // Centred on the city instead, the unit's tile lies at offset (-4, -4).
    let g = game.player_feature_counts(secrets[0], TrainingFocus::City).unwrap();
    assert!(g.is_observed[at(-4, -4)]);
    assert!(!g.is_observed[at(1, 0)]);
    assert_eq!(
        game.player_feature_counts(PlayerSecret { bits: 9 }, TrainingFocus::UnitIfExistsElseCity).map(|f| f.turn),
        Err(GameError::NoPlayerIdentifiedBySecret)
    );
}
