use rand::{thread_rng, Rng};

use umpire::game::alignment::Alignment;
use umpire::game::city::CityID;
use umpire::game::error::GameError;
use umpire::game::map::MapData;
use umpire::game::orders::Orders;
use umpire::game::terrain::Terrain;
use umpire::game::unit::{TransportMode, UnitID, UnitType};
use umpire::util::{Dims, Location};

fn sample(dims: Dims, rng: &mut impl Rng) -> Location {
    Location::new(rng.gen_range(0..dims.width), rng.gen_range(0..dims.height))
}

#[test]
pub fn test_identifiers() {
    let mut map = MapData::new(Dims::new(5, 5), |_loc| Terrain::Land);
    let unit_id = map
        .new_unit(Location::new(2, 3), UnitType::Destroyer, Alignment::Belligerent { player: 0 }, "Edsgar")
        .unwrap();

    let city_id = map
        .new_city(Location::new(1, 1), Alignment::Belligerent { player: 0 }, "Steubenville")
        .unwrap()
        .id;

    assert_eq!(city_id, CityID::default());
    assert_eq!(unit_id, UnitID::default());

    let map = MapData::try_from("iiiiii000000").unwrap();
    assert_eq!(map.next_city_id(), CityID::new(6));
    assert_eq!(map.next_unit_id(), UnitID::new(6));
}

#[test]
pub fn test_map_data() {
    let mut map = MapData::new(Dims::new(10, 10), |_| Terrain::Land);

    let unit_id = map
        .new_unit(Location::new(0, 0), UnitType::Infantry, Alignment::Belligerent { player: 0 }, "Unit 0")
        .unwrap();

    assert!(map.player_units(0).iter().any(|unit| unit.id == unit_id));

    map.relocate_unit_by_id(unit_id, Location::new(5, 5)).unwrap();

    assert!(map.player_units(0).iter().any(|unit| unit.id == unit_id));

    let _popped_unit = map.pop_unit_by_id(unit_id).unwrap();
    assert!(!map.player_units(0).iter().any(|unit| unit.id == unit_id));
}

#[test]
pub fn test_relocate() {
    let mut map = MapData::new(Dims::new(10, 10), |_| Terrain::Land);

    let unit_id = map
        .new_unit(Location::new(0, 0), UnitType::Transport, Alignment::Belligerent { player: 0 }, "Unit 0")
        .unwrap();

    let unit_id2 = map
        .new_unit(Location::new(0, 1), UnitType::Infantry, Alignment::Belligerent { player: 0 }, "Passenger")
        .unwrap();

    map.carry_unit_by_id(unit_id, unit_id2).unwrap();

    assert!(map.player_units(0).iter().any(|unit| unit.id == unit_id));

    let mut rand = thread_rng();

    for _ in 0..1000 {
        let dest = sample(map.dims(), &mut rand);
        map.relocate_unit_by_id(unit_id, dest).unwrap();

        assert!(map.player_units(0).iter().any(|unit| unit.id == unit_id));
        assert!(map.player_units(0).iter().any(|unit| unit.id == unit_id2));

        assert_eq!(map.unit_loc(unit_id), Some(dest));
        assert_eq!(map.unit_loc(unit_id2), Some(dest));
    }
}

#[test]
pub fn test_set_terrain() {
    let mut map = MapData::new(Dims::new(10, 10), |_| Terrain::Land);
    for loc in map.dims().iter_locs() {
        let result = map.set_terrain(loc, Terrain::Water);
        assert_eq!(result.unwrap(), Terrain::Land);
    }

    for loc in [Location::new(0, 10), Location::new(10, 0), Location::new(10, 10), Location::new(593, 9000)] {
        assert_eq!(map.set_terrain(loc, Terrain::Water), Err(GameError::NoTileAtLocation { loc }));
    }
}

#[test]
fn test_unit_by_id() {
    let mut map = MapData::new(Dims::new(10, 10), |_| Terrain::Land);

    {
        let id = UnitID::default();
        assert_eq!(map.unit_by_id(id), None);
    }

    let id = map
        .new_unit(Location::new(5, 6), UnitType::Submarine, Alignment::Neutral, "Swiss Army Man")
        .unwrap();

    assert_eq!(map.unit_by_id(id).unwrap().id, id);
}

#[test]
fn test_carry_unit_by_id() {
    let mut map = MapData::try_from("ffffffktaaaaa").unwrap();

    let ids: Vec<UnitID> = map
        .iter_locs()
        .iter()
        .map(|loc| map.tile(*loc).unwrap().unit.as_ref().unwrap().id)
        .collect();

    let fighter_ids = &ids[..=5];
    let carrier_id = ids[6];
    let transport_id = ids[7];
    let armor_ids = &ids[8..];

    // First try carrying an armor on a fighter (not gonna work)
    assert_eq!(
        map.carry_unit_by_id(fighter_ids[0], armor_ids[0]),
        Err(GameError::UnitHasNoCarryingSpace { carrier_id: fighter_ids[0] })
    );

    // Then try the reverse, carrying a fighter on an armor (should fail)
    assert_eq!(
        map.carry_unit_by_id(armor_ids[0], fighter_ids[0]),
        Err(GameError::UnitHasNoCarryingSpace { carrier_id: armor_ids[0] })
    );

    // Now for the first five fighters, carry them on the carrier
    for i in 0..UnitType::Carrier.carrying_capacity() {
        assert_eq!(map.carry_unit_by_id(carrier_id, fighter_ids[i]), Ok(i + 1));

        // Try carrying on the transport too
        assert_eq!(
            map.carry_unit_by_id(transport_id, fighter_ids[i]),
            Err(GameError::WrongTransportMode {
                carried_id: fighter_ids[i],
                carried_transport_mode: TransportMode::Air,
                carrier_transport_mode: TransportMode::Land,
            })
        );

        // Make sure everything's still in place after the failed move
        assert!(map.unit_by_id(fighter_ids[i]).is_some());

        assert!(map.unit_by_id(transport_id).is_some());
    }

    // Now carry the sixth, which won't fit
    assert_eq!(
        map.carry_unit_by_id(carrier_id, fighter_ids[5]),
        Err(GameError::InsufficientCarryingSpace { carried_id: fighter_ids[5] })
    );

    // Carry the first armor on the transport, as many as it holds
    for i in 0..UnitType::Transport.carrying_capacity() {
        assert_eq!(map.carry_unit_by_id(transport_id, armor_ids[i]), Ok(i + 1),);

        assert_eq!(
            map.carry_unit_by_id(carrier_id, armor_ids[i]),
            Err(GameError::WrongTransportMode {
                carried_id: armor_ids[i],
                carried_transport_mode: TransportMode::Land,
                carrier_transport_mode: TransportMode::Air,
            })
        );

        // Make sure everything's still in place after the failed move
        assert!(map.unit_by_id(armor_ids[i]).is_some());

        assert!(map.unit_by_id(carrier_id).is_some());
    }

    // The straw that breaks the transport's back
    assert_eq!(
        map.carry_unit_by_id(transport_id, armor_ids[4]),
        Err(GameError::InsufficientCarryingSpace { carried_id: armor_ids[4] })
    );
}

#[test]
fn test_player_unit_by_id_mut() {
    let mut map = MapData::try_from("iI").unwrap();
    let id1 = map.toplevel_unit_by_loc(Location::new(0, 0)).unwrap().id;
    let id2 = map.toplevel_unit_by_loc(Location::new(1, 0)).unwrap().id;

    assert_eq!(map.player_unit_by_id_mut(0, id1).unwrap().id, id1);
    assert_eq!(map.player_unit_by_id_mut(1, id1), None);
    assert_eq!(map.player_unit_by_id_mut(0, id2), None);
    assert_eq!(map.player_unit_by_id_mut(1, id2).unwrap().id, id2);
}

/// Make sure we pop the right unit when popping a carried unit by ID
#[test]
fn test_pop_carried_unit_by_id() {
    let mut map = MapData::try_from("it").unwrap();
    let infantry_id = map.toplevel_unit_id_by_loc(Location::new(0, 0)).unwrap();
    let transport_id = map.toplevel_unit_id_by_loc(Location::new(1, 0)).unwrap();

    // Carry the unit
    map.carry_unit_by_id(transport_id, infantry_id).unwrap();

    // Now pop it
    let unit = map.pop_unit_by_id(infantry_id).unwrap();
    assert_eq!(unit.id, infantry_id, "Popped the wrong unit");
}

/// Make sure pop_toplevel_unit_by_id only pops toplevel units with the right ID, not carrier units which occupy the
/// same location but don't have the specified ID
#[test]
fn test_pop_toplevel_unit_by_id() {
    let mut map = MapData::try_from("it").unwrap();
    let infantry_id = map.toplevel_unit_id_by_loc(Location::new(0, 0)).unwrap();
    let transport_id = map.toplevel_unit_id_by_loc(Location::new(1, 0)).unwrap();

    // Carry the unit
    map.carry_unit_by_id(transport_id, infantry_id).unwrap();

    // Now pop it
    assert_eq!(map.pop_toplevel_unit_by_id(infantry_id), None);
}

#[test]
fn map_text_gives_tiles_in_reading_order() {
    let map = MapData::try_from("i 0\nT-1").unwrap();
    assert_eq!(map.dims(), Dims::new(3, 2));
    let infantry = map.toplevel_unit_by_loc(Location::new(0, 0)).unwrap();
    assert_eq!(infantry.type_, UnitType::Infantry);
    assert_eq!(infantry.alignment, Alignment::Belligerent { player: 0 });
    assert_eq!(infantry.id, UnitID::new(0));
    assert_eq!(infantry.name.as_str(), "Unit 0");
    assert_eq!(map.terrain(Location::new(1, 0)), Some(&Terrain::Water));
    let city = map.city_by_loc(Location::new(2, 0)).unwrap();
    assert_eq!(city.id, CityID::new(0));
    assert_eq!(city.alignment, Alignment::Belligerent { player: 0 });
    assert_eq!(city.name.as_str(), "City 0");
    let transport = map.toplevel_unit_by_loc(Location::new(0, 1)).unwrap();
    assert_eq!(transport.type_, UnitType::Transport);
    assert_eq!(transport.alignment, Alignment::Belligerent { player: 1 });
    assert_eq!(map.terrain(Location::new(0, 1)), Some(&Terrain::Water));
    assert_eq!(map.terrain(Location::new(1, 1)), Some(&Terrain::Land));
    assert_eq!(map.city_by_loc(Location::new(2, 1)).unwrap().id, CityID::new(1));
    assert_eq!(map.next_unit_id(), UnitID::new(2));
    assert_eq!(map.next_city_id(), CityID::new(2));
}

#[test]
fn map_text_errors() {
    assert_eq!(MapData::try_from("").err().unwrap(), "The first line of the map text is empty");
    assert_eq!(MapData::try_from("ab\nc").err().unwrap(), "The lines of the map text are not all of one length");
    assert_eq!(MapData::try_from("ab\n").err().unwrap(), "The lines of the map text are not all of one length");
}

#[test]
fn new_city_errors() {
    let mut map = MapData::new(Dims::new(3, 2), |_| Terrain::Land);
    assert_eq!(
        map.new_city(Location::new(3, 0), Alignment::Neutral, "Nowhere").err().unwrap(),
        "Attempted to create city at location (3,0) which is out of bounds 3x2"
    );
    map.new_city(Location::new(1, 1), Alignment::Belligerent { player: 2 }, "Here").unwrap();
    map.set_city_production_by_loc(Location::new(1, 1), UnitType::Armor).unwrap();
    assert_eq!(
        map.new_city(Location::new(1, 1), Alignment::Neutral, "There").err().unwrap(),
        "Attempted to create city at location (1,1), but city Player 2 City Here, producing Armor (0/11) is already there"
    );
}

#[test]
fn unit_orders_and_moves() {
    let mut map = MapData::try_from("iI").unwrap();
    let id = map.toplevel_unit_id_by_loc(Location::new(0, 0)).unwrap();
    assert_eq!(map.set_player_unit_orders(1, id, Orders::Sentry), Err(GameError::NoSuchUnit { id }));
    assert_eq!(map.set_player_unit_orders(0, id, Orders::Sentry), Ok(None));
    assert_eq!(map.set_unit_orders(id, Orders::Explore), Ok(Some(Orders::Sentry)));
    assert_eq!(map.clear_player_unit_orders(0, id), Ok(Some(Orders::Explore)));
    assert_eq!(map.record_unit_movement(id, 1), Ok(0));
    assert!(map.record_unit_movement(id, 1).is_err());
    map.refresh_player_unit_moves_remaining(0);
    assert_eq!(map.unit_by_id(id).unwrap().moves_remaining, 1);
    assert_eq!(map.mark_unit_movement_complete(id), Ok(()));
    assert_eq!(map.unit_by_id(id).unwrap().moves_remaining, 0);
    assert_eq!(map.mark_unit_movement_complete(UnitID::new(99)), Err(GameError::NoSuchUnit { id: UnitID::new(99) }));
}

#[test]
fn city_counts_and_players() {
    let mut map = MapData::try_from("0 1iI").unwrap();
    assert_eq!(map.player_city_count(0), Ok(1));
    assert_eq!(map.player_city_count(2), Err(GameError::NoSuchPlayer { player: 2 }));
    assert_eq!(map.players(), 2);
    assert_eq!(map.player_unit_type_counts(1), Ok(vec![(UnitType::Infantry, 1)]));
    let unit_id = map.toplevel_unit_id_by_loc(Location::new(3, 0)).unwrap();
    assert_eq!(map.occupy_city(unit_id, Location::new(2, 0)), Ok(()));
    assert_eq!(map.player_city_count(0), Ok(2));
    assert_eq!(map.player_city_count(1), Ok(0));
    assert_eq!(map.unit_loc(unit_id), Some(Location::new(2, 0)));
    assert_eq!(map.city_by_loc(Location::new(2, 0)).unwrap().alignment, Alignment::Belligerent { player: 0 });
    assert!(map.pop_city_by_loc(Location::new(0, 0)).is_some());
    assert_eq!(map.player_city_count(0), Ok(1));
    assert_eq!(map.players(), 2);
    // Player 1 loses its last unit, and holds nothing more.
    assert!(map.pop_toplevel_unit_by_loc(Location::new(4, 0)).is_some());
    assert_eq!(map.players(), 1);
}

#[test]
fn occupying_needs_a_city_free_of_units() {
    let mut map = MapData::try_from("ia0").unwrap();
    let infantry = map.toplevel_unit_id_by_loc(Location::new(0, 0)).unwrap();
    assert_eq!(
        map.occupy_city(infantry, Location::new(1, 0)),
        Err(GameError::NoCityAtLocation { loc: Location::new(1, 0) })
    );
    assert_eq!(
        map.occupy_city(infantry, Location::new(9, 0)),
        Err(GameError::NoTileAtLocation { loc: Location::new(9, 0) })
    );
    assert_eq!(map.occupy_city(UnitID::new(77), Location::new(2, 0)), Err(GameError::NoSuchUnit { id: UnitID::new(77) }));
}

#[test]
fn city_production_changes() {
    let mut map = MapData::try_from("0").unwrap();
    let loc = Location::new(0, 0);
    assert_eq!(map.set_player_city_production_by_loc(1, loc, UnitType::Fighter), Err(GameError::NoCityAtLocation { loc }));
    assert_eq!(map.set_player_city_production_by_loc(0, loc, UnitType::Fighter), Ok(None));
    map.increment_player_city_production_targets(0);
    map.increment_player_city_production_targets(0);
    assert_eq!(map.city_by_loc(loc).unwrap().production_progress, 2);
    assert_eq!(map.player_cities_with_production_target(0).len(), 1);
    assert_eq!(map.clear_city_production_by_loc(loc, true), Ok(Some(UnitType::Fighter)));
    assert_eq!(map.player_cities_lacking_production_target(0).len(), 0);
    assert_eq!(map.clear_city_production_progress_by_id(CityID::new(0)), Ok(()));
    assert_eq!(map.city_by_loc(loc).unwrap().production_progress, 0);
    assert_eq!(map.set_city_alignment_by_loc(Location::new(5, 5), Alignment::Neutral), Err(GameError::NoCityAtLocation {
        loc: Location::new(5, 5),
    }));
}

#[test]
fn new_then_pop_restores_tile() {
    let mut map = MapData::new(Dims::new(4, 4), |_| Terrain::Land);
    let loc = Location::new(3, 2);
    let id = map.new_unit(loc, UnitType::Armor, Alignment::Belligerent { player: 1 }, "Tank").unwrap();
    assert_eq!(map.unit_loc(id), Some(loc));
    let unit = map.unit_by_id(id).unwrap().clone();
    let popped = map.pop_unit_by_id(id).unwrap();
    assert_eq!(unit, popped);
    assert_eq!(map.tile(loc).unwrap().unit, None);
    assert_eq!(map.unit_by_id(id), None);
}

#[test]
fn test_new_and_pop() {
    let mut rand = thread_rng();

    for _ in 0..100 {
        // A plain land map of the same size stands in for a generated one.
        let mut map = MapData::new(Dims::new(180, 90), |_| Terrain::Land);

        for i in 0..100 {
            let loc = sample(map.dims(), &mut rand);

            let name = format!("Unit {}", i);

            // New

            let unit_id = map
                .new_unit(loc, UnitType::Infantry, Alignment::Belligerent { player: 0 }, name.as_str())
                .unwrap();

            assert!(map.player_units(0).iter().any(|unit| unit.id == unit_id));

            assert_eq!(map.unit_loc(unit_id), Some(loc));

            let unit = map.unit_by_id(unit_id).unwrap().clone();

            assert_eq!(map.tile(loc).unwrap().unit.as_ref(), Some(&unit));

            // Pop

            let popped_unit = map.pop_unit_by_id(unit_id).unwrap();

            assert_eq!(unit, popped_unit);

            assert!(!map.player_units(0).iter().any(|unit| unit.id == unit_id));

            assert_eq!(map.tile(loc).unwrap().unit, None);
        }
    }
}
