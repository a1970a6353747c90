use umpire::colors::{Colorized, Colors};
use umpire::game::alignment::Alignment;
use umpire::game::city::{City, CityID};
use umpire::game::terrain::Terrain;
use umpire::game::tile::Tile;
use umpire::game::unit::{Unit, UnitID, UnitType};
use umpire::util::Location;

#[test]
fn test_mobility() {
    let loc = Location { x: 5, y: 5 };
    let loc2 = Location::new(5, 6);

    let infantry = Unit::new(UnitID::new(0), loc, UnitType::Infantry, Alignment::Belligerent { player: 0 }, "Isabel Nash");
    let transport = Unit::new(UnitID::new(0), loc, UnitType::Transport, Alignment::Belligerent { player: 0 }, "Blah blah");
    let friendly_unit = Unit::new(UnitID::new(1), loc, UnitType::Armor, Alignment::Belligerent { player: 0 }, "Lynn Stone");
    let enemy_unit = Unit::new(UnitID::new(2), loc, UnitType::Armor, Alignment::Belligerent { player: 1 }, "James Lindsey");

    let tile1 = Tile::new(Terrain::Land, loc);
    assert!(infantry.can_move_on_tile(&tile1));

    let tile2 = Tile::new(Terrain::Water, loc);
    assert!(!infantry.can_move_on_tile(&tile2));

    let mut tile3 = Tile::new(Terrain::Land, loc);
    tile3.unit = Some(friendly_unit);
    assert!(!infantry.can_move_on_tile(&tile3));

    let mut tile4 = Tile::new(Terrain::Land, loc);
    tile4.unit = Some(enemy_unit.clone());
    assert!(infantry.can_move_on_tile(&tile4));

    {
        let mut tile = Tile::new(Terrain::Land, loc2);
        tile.city = Some(City::new(CityID::new(0), Alignment::Belligerent { player: 1 }, loc2, "Urbania"));
        assert!(infantry.can_move_on_tile(&tile));

        assert!(!transport.can_move_on_tile(&tile));

        tile.unit = Some(enemy_unit.clone());

        assert!(transport.can_move_on_tile(&tile));
    }

    {
        let mut tile = Tile::new(Terrain::Water, loc2);
        let transport2 = Unit::new(UnitID::new(0), loc2, UnitType::Transport, Alignment::Belligerent { player: 0 }, "Blah blah");
        tile.unit = Some(transport2);

        assert!(!transport.can_move_on_tile(&tile));
    }

    {
        let mut tile = Tile::new(Terrain::Water, loc2);
        tile.city = Some(City::new(CityID::new(0), Alignment::Belligerent { player: 0 }, loc2, "Urbania"));
        let transport2 = Unit::new(UnitID::new(0), loc2, UnitType::Transport, Alignment::Belligerent { player: 0 }, "Blah blah");
        tile.unit = Some(transport2);

        assert!(!transport.can_move_on_tile(&tile));
    }
}

#[test]
pub fn test_can_carry_unit() {
    let l1 = Location::new(0, 0);
    let l2 = Location::new(1, 0);
    let t1 = Unit::new(UnitID::new(0), l1, UnitType::Transport, Alignment::Belligerent { player: 0 }, "0");
    let t2 = Unit::new(UnitID::new(0), l2, UnitType::Transport, Alignment::Belligerent { player: 0 }, "1");

    assert!(!t1.can_carry_unit(&t2));
}

#[test]
fn unit_descriptions() {
    let u = Unit::new(UnitID::new(3), Location::new(0, 0), UnitType::Battleship, Alignment::Neutral, "Bismarck");
    assert_eq!(u.short_desc(), "Battleship \"Bismarck\"");
    assert_eq!(u.medium_desc(), "Battleship \"Bismarck\" [8/8]");
}

#[test]
fn colors_follow_alignment() {
    assert_eq!(Alignment::Neutral.color(), Some(Colors::Neutral));
    assert_eq!(Alignment::Belligerent { player: 3 }.color(), Some(Colors::Player(3)));
    let unit = Unit::new(UnitID::new(4), Location::new(1, 1), UnitType::Fighter, Alignment::Belligerent { player: 2 }, "Ace");
    assert_eq!(unit.color(), Some(Colors::Player(2)));
}

#[test]
fn only_enemies_can_be_attacked() {
    let here = Location::new(0, 0);
    let there = Location::new(1, 0);
    let me = Unit::new(UnitID::new(0), here, UnitType::Infantry, Alignment::Belligerent { player: 0 }, "Me");
    let mut tile = Tile::new(Terrain::Land, there);
    assert!(!me.can_attack_tile(&tile));
    tile.unit = Some(Unit::new(UnitID::new(1), there, UnitType::Armor, Alignment::Belligerent { player: 0 }, "Friend"));
    assert!(!me.can_attack_tile(&tile));
    tile.city = Some(City::new(CityID::new(0), Alignment::Belligerent { player: 0 }, there, "Home"));
    assert!(!me.can_attack_tile(&tile));
    tile.unit = Some(Unit::new(UnitID::new(2), there, UnitType::Armor, Alignment::Belligerent { player: 1 }, "Foe"));
    assert!(me.can_attack_tile(&tile));
    tile.unit = None;
    tile.city = Some(City::new(CityID::new(0), Alignment::Neutral, there, "Free"));
    assert!(me.can_attack_tile(&tile));
}
