//! Maps written as text, one character per tile, one line per row.
//!
//! A digit is land with a city of the player of that number. The key of a unit type is that unit, of player 0, on
//! the terrain its transport mode calls for; the key in capitals is the same unit of player 1. Whitespace is water,
//! and any other character is land. Lines are separated by `'\n'` and must all be of one length.
use vstd::prelude::*;

use crate::game::alignment::Alignment;
use crate::game::city::{City, CityID};
use crate::game::grid::LocationGrid;
use crate::game::map::{MapData, id_after, is_new_city, is_new_unit, max_city_id, max_toplevel_unit_id, tiles_indexable};
use crate::game::map_index::{grid_ok, tile_has_unit, tile_ok};
use crate::game::player::PlayerNum;
use crate::game::terrain::Terrain;
use crate::game::tile::Tile;
use crate::game::unit::{Unit, UnitID, UnitType};
use crate::util::{Dims, Location, decimal, spec_decimal};

verus! {

/// What a character of map text stands for.
#[derive(Clone, Copy, Debug, PartialEq, Eq, Structural)]
pub enum TileChar {
    City { player: PlayerNum },
    Unit { type_: UnitType, player: PlayerNum },
    Land,
    Water,
}

pub open spec fn spec_tile_char(c: char) -> TileChar {
    match c {
        '0' => TileChar::City { player: 0 },
        '1' => TileChar::City { player: 1 },
        '2' => TileChar::City { player: 2 },
        '3' => TileChar::City { player: 3 },
        '4' => TileChar::City { player: 4 },
        '5' => TileChar::City { player: 5 },
        '6' => TileChar::City { player: 6 },
        '7' => TileChar::City { player: 7 },
        '8' => TileChar::City { player: 8 },
        '9' => TileChar::City { player: 9 },
        'i' => TileChar::Unit { type_: UnitType::Infantry, player: 0 },
        'a' => TileChar::Unit { type_: UnitType::Armor, player: 0 },
        'f' => TileChar::Unit { type_: UnitType::Fighter, player: 0 },
        'b' => TileChar::Unit { type_: UnitType::Bomber, player: 0 },
        't' => TileChar::Unit { type_: UnitType::Transport, player: 0 },
        'd' => TileChar::Unit { type_: UnitType::Destroyer, player: 0 },
        's' => TileChar::Unit { type_: UnitType::Submarine, player: 0 },
        'c' => TileChar::Unit { type_: UnitType::Cruiser, player: 0 },
        'p' => TileChar::Unit { type_: UnitType::Battleship, player: 0 },
        'k' => TileChar::Unit { type_: UnitType::Carrier, player: 0 },
        'I' => TileChar::Unit { type_: UnitType::Infantry, player: 1 },
        'A' => TileChar::Unit { type_: UnitType::Armor, player: 1 },
        'F' => TileChar::Unit { type_: UnitType::Fighter, player: 1 },
        'B' => TileChar::Unit { type_: UnitType::Bomber, player: 1 },
        'T' => TileChar::Unit { type_: UnitType::Transport, player: 1 },
        'D' => TileChar::Unit { type_: UnitType::Destroyer, player: 1 },
        'S' => TileChar::Unit { type_: UnitType::Submarine, player: 1 },
        'C' => TileChar::Unit { type_: UnitType::Cruiser, player: 1 },
        'P' => TileChar::Unit { type_: UnitType::Battleship, player: 1 },
        'K' => TileChar::Unit { type_: UnitType::Carrier, player: 1 },
        ' ' | '\t' | '\r' | '\x0B' | '\x0C' => TileChar::Water,
        _ => TileChar::Land,
    }
}

/// What the character stands for.
pub fn tile_char(c: char) -> (r: TileChar)
    ensures
        r == spec_tile_char(c),
{
    match c {
        '0' => TileChar::City { player: 0 },
        '1' => TileChar::City { player: 1 },
        '2' => TileChar::City { player: 2 },
        '3' => TileChar::City { player: 3 },
        '4' => TileChar::City { player: 4 },
        '5' => TileChar::City { player: 5 },
        '6' => TileChar::City { player: 6 },
        '7' => TileChar::City { player: 7 },
        '8' => TileChar::City { player: 8 },
        '9' => TileChar::City { player: 9 },
        'i' => TileChar::Unit { type_: UnitType::Infantry, player: 0 },
        'a' => TileChar::Unit { type_: UnitType::Armor, player: 0 },
        'f' => TileChar::Unit { type_: UnitType::Fighter, player: 0 },
        'b' => TileChar::Unit { type_: UnitType::Bomber, player: 0 },
        't' => TileChar::Unit { type_: UnitType::Transport, player: 0 },
        'd' => TileChar::Unit { type_: UnitType::Destroyer, player: 0 },
        's' => TileChar::Unit { type_: UnitType::Submarine, player: 0 },
        'c' => TileChar::Unit { type_: UnitType::Cruiser, player: 0 },
        'p' => TileChar::Unit { type_: UnitType::Battleship, player: 0 },
        'k' => TileChar::Unit { type_: UnitType::Carrier, player: 0 },
        'I' => TileChar::Unit { type_: UnitType::Infantry, player: 1 },
        'A' => TileChar::Unit { type_: UnitType::Armor, player: 1 },
        'F' => TileChar::Unit { type_: UnitType::Fighter, player: 1 },
        'B' => TileChar::Unit { type_: UnitType::Bomber, player: 1 },
        'T' => TileChar::Unit { type_: UnitType::Transport, player: 1 },
        'D' => TileChar::Unit { type_: UnitType::Destroyer, player: 1 },
        'S' => TileChar::Unit { type_: UnitType::Submarine, player: 1 },
        'C' => TileChar::Unit { type_: UnitType::Cruiser, player: 1 },
        'P' => TileChar::Unit { type_: UnitType::Battleship, player: 1 },
        'K' => TileChar::Unit { type_: UnitType::Carrier, player: 1 },
        ' ' | '\t' | '\r' | '\x0B' | '\x0C' => TileChar::Water,
        _ => TileChar::Land,
    }
}

/// The key of every unit type stands for a unit of that type of player 0.
pub proof fn lemma_unit_keys_read_back(t: UnitType)
    ensures
        spec_tile_char(t.spec_key()) == (TileChar::Unit { type_: t, player: 0 }),
{
}

/// The lines of the text, split at each `'\n'`.
pub open spec fn text_lines(s: Seq<char>) -> Seq<Seq<char>>
    decreases s.len(),
{
    if s.len() == 0 {
        seq![Seq::<char>::empty()]
    } else if s.last() == '\n' {
        text_lines(s.drop_last()).push(Seq::empty())
    } else {
        let ls = text_lines(s.drop_last());
        ls.update(ls.len() - 1, ls.last().push(s.last()))
    }
}

pub open spec fn not_newline() -> spec_fn(char) -> bool {
    |c: char| c != '\n'
}

/// The characters of the text that stand for tiles, row after row.
pub open spec fn text_cells(s: Seq<char>) -> Seq<char> {
    s.filter(not_newline())
}

/// The number of characters standing for units.
pub open spec fn count_unit_chars(cs: Seq<char>) -> nat
    decreases cs.len(),
{
    if cs.len() == 0 {
        0
    } else {
        count_unit_chars(cs.drop_last()) + if spec_tile_char(cs.last()) is Unit { 1nat } else { 0nat }
    }
}

/// The number of characters standing for cities.
pub open spec fn count_city_chars(cs: Seq<char>) -> nat
    decreases cs.len(),
{
    if cs.len() == 0 {
        0
    } else {
        count_city_chars(cs.drop_last()) + if spec_tile_char(cs.last()) is City { 1nat } else { 0nat }
    }
}

/// The dimensions of the map the text gives, if it gives one: its first line is not empty, all lines are as long
/// as the first, and neither the width nor the height exceeds what a dimension can hold.
pub open spec fn text_dims(s: Seq<char>) -> Option<Dims> {
    let ls = text_lines(s);
    if ls[0].len() > 0 && ls[0].len() <= u16::MAX && ls.len() <= u16::MAX && forall|j: int|
        0 <= j < ls.len() ==> #[trigger] ls[j].len() == ls[0].len() {
        Some(Dims { width: ls[0].len() as u16, height: ls.len() as u16 })
    } else {
        None
    }
}

/// Is `t` the tile that the character `c` gives at `loc`, with `unit_id` and `city_id` the IDs next in line?
pub open spec fn char_tile_ok(c: char, t: Tile, loc: Location, unit_id: nat, city_id: nat) -> bool {
    match spec_tile_char(c) {
        TileChar::City { player } => {
            &&& t.terrain == Terrain::Land
            &&& t.unit is None
            &&& t.loc == loc
            &&& t.city is Some
            &&& is_new_city(
                t.city->0,
                CityID { id: city_id as u64 },
                Alignment::Belligerent { player },
                loc,
                "City "@ + spec_decimal(city_id),
            )
        },
        TileChar::Unit { type_, player } => {
            &&& t.terrain == type_.spec_transport_mode().spec_default_terrain()
            &&& t.city is None
            &&& t.loc == loc
            &&& t.unit is Some
            &&& is_new_unit(
                t.unit->0,
                UnitID { id: unit_id as u64 },
                loc,
                type_,
                Alignment::Belligerent { player },
                "Unit "@ + spec_decimal(unit_id),
            )
        },
        TileChar::Land => t == (Tile { terrain: Terrain::Land, unit: None, city: None, loc }),
        TileChar::Water => t == (Tile { terrain: Terrain::Water, unit: None, city: None, loc }),
    }
}

/// The tiles are those the text gives, in the given dimensions.
pub open spec fn tiles_of_text(s: Seq<char>, g: Seq<Tile>, dims: Dims) -> bool {
    &&& g.len() == text_cells(s).len()
    &&& forall|i: int| 0 <= i < g.len() ==> char_tile_ok(
        text_cells(s)[i],
        #[trigger] g[i],
        dims.spec_loc(i),
        count_unit_chars(text_cells(s).take(i)),
        count_city_chars(text_cells(s).take(i)),
    )
}

proof fn lemma_text_lines_len(s: Seq<char>)
    ensures
        text_lines(s).len() >= 1,
    decreases s.len(),
{
    if s.len() > 0 {
        lemma_text_lines_len(s.drop_last());
    }
}

proof fn lemma_counts_bound(cs: Seq<char>)
    ensures
        count_unit_chars(cs) <= cs.len(),
        count_city_chars(cs) <= cs.len(),
    decreases cs.len(),
{
    if cs.len() > 0 {
        lemma_counts_bound(cs.drop_last());
    }
}

/// The tile the character gives, with the IDs next in line.
fn tile_for_char(c: char, loc: Location, unit_id: u64, city_id: u64) -> (t: Tile)
    ensures
        char_tile_ok(c, t, loc, unit_id as nat, city_id as nat),
{
    match tile_char(c) {
        TileChar::City { player } => {
            let mut name = String::from_str("City ");
            let n = decimal(city_id);
            name.append(n.as_str());
            let city = City::new(CityID::new(city_id), Alignment::Belligerent { player }, loc, name.as_str());
            Tile { terrain: Terrain::Land, unit: None, city: Some(city), loc }
        },
        TileChar::Unit { type_, player } => {
            let mut name = String::from_str("Unit ");
            let n = decimal(unit_id);
            name.append(n.as_str());
            let unit = Unit::new(UnitID::new(unit_id), loc, type_, Alignment::Belligerent { player }, name.as_str());
            Tile { terrain: type_.default_terrain(), unit: Some(unit), city: None, loc }
        },
        TileChar::Land => Tile::new(Terrain::Land, loc),
        TileChar::Water => Tile::new(Terrain::Water, loc),
    }
}

pub open spec fn no_tiles_error() -> Seq<char> {
    "The first line of the map text is empty"@
}

pub open spec fn unequal_lines_error() -> Seq<char> {
    "The lines of the map text are not all of one length"@
}

pub open spec fn too_large_error() -> Seq<char> {
    "The map text is too wide or too tall"@
}

/// Read the tiles of a map from text.
pub fn parse_tiles(s: &str) -> (r: Result<LocationGrid<Tile>, String>)
    ensures
        text_dims(s@) matches Some(d) ==> (r matches Ok(g) && g.wf() && g.dims == d && tiles_of_text(s@, g.grid@, d)),
        text_dims(s@) is None ==> (r matches Err(e) && {
            let ls = text_lines(s@);
            if ls[0].len() == 0 {
                e@ == no_tiles_error()
            } else if exists|j: int| 0 <= j < ls.len() && #[trigger] ls[j].len() != ls[0].len() {
                e@ == unequal_lines_error()
            } else {
                e@ == too_large_error()
            }
        }),
{
    let n = s.unicode_len();
    let ghost t = s@;
    let mut cells: Vec<Tile> = Vec::new();
    let mut x: usize = 0;
    let mut h: usize = 0;
    let mut w: usize = 0;
    let mut ok = true;
    let mut big = false;
    let mut unit_id: u64 = 0;
    let mut city_id: u64 = 0;
    let ghost mut hw: int = 0;
    let mut k: usize = 0;
    proof {
        assert(t.take(0) =~= Seq::<char>::empty());
        reveal(Seq::filter);
    }
    while k < n
        invariant
            t == s@,
            n == t.len(),
            k <= n,
            text_lines(t.take(k as int)).len() == h + 1,
            text_lines(t.take(k as int)).last().len() == x,
            h >= 1 ==> w == text_lines(t.take(k as int))[0].len(),
            h == 0 ==> x == text_lines(t.take(k as int))[0].len(),
            h <= k,
            x <= k,
            ok <==> ((forall|j: int| 0 <= j < h ==> #[trigger] text_lines(t.take(k as int))[j].len() == text_lines(
                t.take(k as int),
            )[0].len()) && (h >= 1 ==> x <= w)),
            big <==> (text_lines(t.take(k as int))[0].len() > u16::MAX || text_lines(t.take(k as int)).len() > u16::MAX),
            ok && !big ==> {
                let cs = text_cells(t.take(k as int));
                &&& cells@.len() == cs.len()
                &&& unit_id == count_unit_chars(cs)
                &&& city_id == count_city_chars(cs)
                &&& cells@.len() == hw + x
                &&& (h == 0 ==> hw == 0)
                &&& (h >= 1 ==> hw == h * w)
                &&& forall|i: int| 0 <= i < cells@.len() ==> char_tile_ok(
                    cs[i],
                    #[trigger] cells@[i],
                    if h == 0 {
                        Location { x: i as u16, y: 0 }
                    } else {
                        (Dims { width: w as u16, height: 0 }).spec_loc(i)
                    },
                    count_unit_chars(cs.take(i)),
                    count_city_chars(cs.take(i)),
                )
            },
        decreases n - k,
    {
        let c = s.get_char(k);
        let ghost tk = t.take(k as int);
        let ghost tk1 = t.take(k as int + 1);
        proof {
            assert(tk1.drop_last() =~= tk);
            assert(tk1.last() == c);
            lemma_text_lines_len(tk);
            reveal(Seq::filter);
        }
        if c == '\n' {
            let ghost ls = text_lines(tk);
            let ghost x0 = x;
            let ghost h0 = h;
            proof {
                assert(text_lines(tk1) == ls.push(Seq::<char>::empty()));
                assert(text_cells(tk1) == text_cells(tk));
            }
            if h == 0 {
                w = x;
                proof {
                    if ok && !big {
                        let cs = text_cells(tk);
                        assert forall|i: int| 0 <= i < cells@.len() implies char_tile_ok(
                            cs[i],
                            #[trigger] cells@[i],
                            (Dims { width: w as u16, height: 0 }).spec_loc(i),
                            count_unit_chars(cs.take(i)),
                            count_city_chars(cs.take(i)),
                        ) by {
                            vstd::arithmetic::div_mod::lemma_small_mod(i as nat, w as nat);
                            assert(i / (w as int) == 0) by (nonlinear_arith)
                                requires
                                    0 <= i < w,
                            ;
                        }
                        hw = w as int;
                        assert(hw == 1 * w) by (nonlinear_arith)
                            requires
                                hw == w,
                        ;
                    }
                }
            } else {
                if x != w {
                    ok = false;
                }
                proof {
                    if ok && !big {
                        assert((h + 1) * w == h * w + w) by (nonlinear_arith);
                        hw = hw + w;
                    }
                }
            }
            h = h + 1;
            x = 0;
            if h >= 65535 {
                big = true;
            }
            proof {
                let ls1 = text_lines(tk1);
                assert(ls1[0] == ls[0]);
                assert forall|j: int| 0 <= j < h implies #[trigger] ls1[j] == ls[j] by {}
                assert(ls1[h - 1].len() == ls[h - 1].len());
                if ok {
                    assert forall|j: int| 0 <= j < h implies #[trigger] ls1[j].len() == ls1[0].len() by {
                        assert(ls1[j] == ls[j]);
                        if j < h - 1 {
                            assert(ls[j].len() == ls[0].len());
                        }
                    }
                } else {
                    if h0 >= 1 && x0 != w {
                        assert(ls1[h0 as int].len() != ls1[0].len());
                    } else {
                        let j = choose|j: int| 0 <= j < h0 && #[trigger] ls[j].len() != ls[0].len();
                        assert(ls1[j] == ls[j]);
                    }
                    assert(!(forall|j: int| 0 <= j < h ==> #[trigger] ls1[j].len() == ls1[0].len()));
                }
            }
        } else {
            let ghost ls = text_lines(tk);
            proof {
                assert(text_lines(tk1) == ls.update(ls.len() - 1, ls.last().push(c)));
                assert(text_cells(tk1) == text_cells(tk).push(c));
            }
            let was_fine = ok && !big;
            if h >= 1 && x + 1 > w {
                ok = false;
            }
            if h == 0 && x + 1 > 65535 {
                big = true;
            }
            if ok && !big {
                let loc = Location { x: x as u16, y: h as u16 };
                let tile = tile_for_char(c, loc, unit_id, city_id);
                let ghost cs = text_cells(tk);
                let ghost i = cells@.len() as int;
                proof {
                    lemma_counts_bound(cs);
                    if h >= 1 {
                        vstd::arithmetic::div_mod::lemma_fundamental_div_mod_converse(
                            i,
                            w as int,
                            h as int,
                            x as int,
                        );
                    }
                    assert(cs.push(c).take(i) =~= cs);
                }
                cells.push(tile);
                match tile_char(c) {
                    TileChar::Unit { .. } => {
                        unit_id = unit_id + 1;
                    },
                    TileChar::City { .. } => {
                        city_id = city_id + 1;
                    },
                    _ => {},
                }
                proof {
                    let cs1 = cs.push(c);
                    assert(cs1.drop_last() =~= cs);
                    assert forall|j: int| 0 <= j < cells@.len() implies char_tile_ok(
                        cs1[j],
                        #[trigger] cells@[j],
                        if h == 0 {
                            Location { x: j as u16, y: 0 }
                        } else {
                            (Dims { width: w as u16, height: 0 }).spec_loc(j)
                        },
                        count_unit_chars(cs1.take(j)),
                        count_city_chars(cs1.take(j)),
                    ) by {
                        if j < i {
                            assert(cs1.take(j) =~= cs.take(j));
                        }
                    }
                }
            }
            x = x + 1;
            proof {
                let ls1 = text_lines(tk1);
                if h >= 1 {
                    assert(ls1[0] == ls[0]);
                }
                assert forall|j: int| 0 <= j < h implies #[trigger] ls1[j] == ls[j] by {}
                if ok {
                    assert forall|j: int| 0 <= j < h implies #[trigger] ls1[j].len() == ls1[0].len() by {
                        assert(ls1[j] == ls[j]);
                        assert(ls[j].len() == ls[0].len());
                    }
                } else if !(h >= 1 && x > w) {
                    let j = choose|j: int| 0 <= j < h && #[trigger] ls[j].len() != ls[0].len();
                    assert(ls1[j] == ls[j]);
                    assert(!(forall|j: int| 0 <= j < h ==> #[trigger] ls1[j].len() == ls1[0].len()));
                }
            }
        }
        k = k + 1;
    }
    proof {
        assert(t.take(n as int) =~= t);
    }
    let width = if h == 0 { x } else { w };
    if width == 0 {
        return Err(String::from_str("The first line of the map text is empty"));
    }
    if !ok || (h >= 1 && x != w) {
        proof {
            let ls = text_lines(t);
            if !ok {
                let j = choose|j: int| 0 <= j < h && #[trigger] ls[j].len() != ls[0].len();
            } else {
                assert(ls[h as int].len() != ls[0].len());
            }
        }
        return Err(String::from_str("The lines of the map text are not all of one length"));
    }
    if big {
        return Err(String::from_str("The map text is too wide or too tall"));
    }
    let dims = Dims::new(width as u16, (h + 1) as u16);
    proof {
        let ls = text_lines(t);
        assert forall|j: int| 0 <= j < ls.len() implies #[trigger] ls[j].len() == ls[0].len() by {
            if j == h {
            }
        }
        if h == 0 {
            let cs = text_cells(t);
            assert forall|i: int| 0 <= i < cells@.len() implies char_tile_ok(
                cs[i],
                #[trigger] cells@[i],
                dims.spec_loc(i),
                count_unit_chars(cs.take(i)),
                count_city_chars(cs.take(i)),
            ) by {
                vstd::arithmetic::div_mod::lemma_small_mod(i as nat, x as nat);
                assert(i / (x as int) == 0) by (nonlinear_arith)
                    requires
                        0 <= i < x,
                ;
            }
            assert(cells@.len() == dims.spec_area()) by (nonlinear_arith)
                requires
                    cells@.len() == x,
                    dims.width == x,
                    dims.height == 1,
            ;
        } else {
            assert(cells@.len() == dims.spec_area()) by (nonlinear_arith)
                requires
                    cells@.len() == hw + x,
                    hw == h * w,
                    x == w,
                    dims.width == w,
                    dims.height == h + 1,
            ;
        }
    }
    Ok(LocationGrid { dims, grid: cells })
}


proof fn lemma_counts_monotone(cs: Seq<char>, a: int, b: int)
    requires
        0 <= a <= b <= cs.len(),
    ensures
        count_unit_chars(cs.take(a)) <= count_unit_chars(cs.take(b)),
        count_city_chars(cs.take(a)) <= count_city_chars(cs.take(b)),
    decreases b - a,
{
    if a < b {
        lemma_counts_monotone(cs, a, b - 1);
        assert(cs.take(b).drop_last() =~= cs.take(b - 1));
    }
}

proof fn lemma_counts_step(cs: Seq<char>, i: int)
    requires
        0 <= i < cs.len(),
    ensures
        count_unit_chars(cs.take(i + 1)) == count_unit_chars(cs.take(i)) + if spec_tile_char(cs[i]) is Unit { 1nat } else { 0nat },
        count_city_chars(cs.take(i + 1)) == count_city_chars(cs.take(i)) + if spec_tile_char(cs[i]) is City { 1nat } else { 0nat },
{
    assert(cs.take(i + 1).drop_last() =~= cs.take(i));
}

/// The tiles of a map text are numbered in order: the highest IDs are those just below the counts of units and
/// cities.
proof fn lemma_text_max_ids(s: Seq<char>, g: Seq<Tile>, dims: Dims, i: int)
    requires
        tiles_of_text(s, g, dims),
        0 <= i <= g.len(),
        g.len() < u64::MAX,
    ensures
        count_unit_chars(text_cells(s).take(i)) == 0 ==> max_toplevel_unit_id(g.take(i)) is None,
        count_unit_chars(text_cells(s).take(i)) > 0 ==> (max_toplevel_unit_id(g.take(i)) matches Some(m) && m + 1
            == count_unit_chars(text_cells(s).take(i))),
        count_city_chars(text_cells(s).take(i)) == 0 ==> max_city_id(g.take(i)) is None,
        count_city_chars(text_cells(s).take(i)) > 0 ==> (max_city_id(g.take(i)) matches Some(m) && m + 1
            == count_city_chars(text_cells(s).take(i))),
    decreases i,
{
    let cs = text_cells(s);
    if i > 0 {
        lemma_text_max_ids(s, g, dims, i - 1);
        assert(g.take(i).drop_last() =~= g.take(i - 1));
        lemma_counts_step(cs, i - 1);
        lemma_counts_bound(cs.take(i - 1));
        assert(char_tile_ok(
            cs[i - 1],
            g[i - 1],
            dims.spec_loc(i - 1),
            count_unit_chars(cs.take(i - 1)),
            count_city_chars(cs.take(i - 1)),
        ));
    } else {
        assert(g.take(0) =~= Seq::<Tile>::empty());
        assert(cs.take(0) =~= Seq::<char>::empty());
    }
}

/// The tiles a map text gives can make up a map.
proof fn lemma_text_tiles_indexable(s: Seq<char>, g: Seq<Tile>, dims: Dims)
    requires
        tiles_of_text(s, g, dims),
        g.len() == dims.spec_area(),
    ensures
        tiles_indexable(g, dims),
        id_after(max_toplevel_unit_id(g)) == count_unit_chars(text_cells(s)),
        id_after(max_city_id(g)) == count_city_chars(text_cells(s)),
{
    let cs = text_cells(s);
    crate::util::lemma_area_bound(dims.width, dims.height);
    lemma_text_max_ids(s, g, dims, g.len() as int);
    assert(g.take(g.len() as int) =~= g);
    assert(cs.take(cs.len() as int) =~= cs);
    lemma_counts_bound(cs);
    assert forall|i: int| 0 <= i < g.len() implies #[trigger] tile_ok(g[i], dims.spec_loc(i)) by {
        assert(char_tile_ok(cs[i], g[i], dims.spec_loc(i), count_unit_chars(cs.take(i)), count_city_chars(cs.take(i))));
    }
    assert forall|i: int| 0 <= i < g.len() && (#[trigger] g[i]).unit is Some implies g[i].unit->0.id.id == count_unit_chars(cs.take(i))
        && g[i].unit->0.spec_carried().len() == 0 && count_unit_chars(cs.take(i)) < count_unit_chars(cs) by {
        assert(char_tile_ok(cs[i], g[i], dims.spec_loc(i), count_unit_chars(cs.take(i)), count_city_chars(cs.take(i))));
        lemma_counts_bound(cs.take(i));
        lemma_counts_step(cs, i);
        lemma_counts_monotone(cs, i + 1, cs.len() as int);
    }
    assert forall|i: int| 0 <= i < g.len() && (#[trigger] g[i]).city is Some implies g[i].city->0.id.id == count_city_chars(cs.take(i))
        && count_city_chars(cs.take(i)) < count_city_chars(cs) by {
        assert(char_tile_ok(cs[i], g[i], dims.spec_loc(i), count_unit_chars(cs.take(i)), count_city_chars(cs.take(i))));
        lemma_counts_bound(cs.take(i));
        lemma_counts_step(cs, i);
        lemma_counts_monotone(cs, i + 1, cs.len() as int);
    }
    assert forall|i: int, j: int, x: UnitID| 0 <= i < j < g.len() implies !(#[trigger] tile_has_unit(g[i], x)
        && #[trigger] tile_has_unit(g[j], x)) by {
        if tile_has_unit(g[i], x) && tile_has_unit(g[j], x) {
            lemma_counts_step(cs, i);
            lemma_counts_monotone(cs, i + 1, j);
        }
    }
    assert forall|i: int, j: int| 0 <= i < j < g.len() && (#[trigger] g[i]).city is Some && (#[trigger] g[j]).city is Some
        implies g[i].city->0.id != g[j].city->0.id by {
        lemma_counts_step(cs, i);
        lemma_counts_monotone(cs, i + 1, j);
    }
}

impl MapData {
    /// The map a text gives (see this module's description), with its units and cities numbered in reading order.
    pub fn try_from(s: &str) -> (r: Result<MapData, String>)
        ensures
            text_dims(s@) matches Some(d) ==> (r matches Ok(m) && {
                &&& m.wf()
                &&& m.spec_dims() == d
                &&& tiles_of_text(s@, m.spec_tiles(), d)
                &&& m.spec_next_unit_id().id == count_unit_chars(text_cells(s@))
                &&& m.spec_next_city_id().id == count_city_chars(text_cells(s@))
            }),
            text_dims(s@) is None ==> (r matches Err(e) && {
                let ls = text_lines(s@);
                if ls[0].len() == 0 {
                    e@ == no_tiles_error()
                } else if exists|j: int| 0 <= j < ls.len() && #[trigger] ls[j].len() != ls[0].len() {
                    e@ == unequal_lines_error()
                } else {
                    e@ == too_large_error()
                }
            }),
    {
        match parse_tiles(s) {
            Ok(tiles) => {
                proof {
                    lemma_text_tiles_indexable(s@, tiles.grid@, tiles.dims);
                }
                Ok(MapData::new_from_grid(tiles))
            },
            Err(e) => Err(e),
        }
    }
}

} // verus!
