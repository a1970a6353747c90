//! Basic geometry of the map: locations, dimensions, directions and wrapping.
use vstd::prelude::*;

verus! {

/// A location on the map, as column `x` and row `y`.
#[derive(Clone, Copy, Debug, PartialEq, Eq, Hash, PartialOrd, Ord, Structural)]
pub struct Location {
    pub x: u16,
    pub y: u16,
}

impl Location {
    pub fn new(x: u16, y: u16) -> (r: Location)
        ensures
            r.x == x,
            r.y == y,
    {
        Location { x, y }
    }

    /// The taxicab distance between two locations, ignoring any wrapping.
    pub open spec fn spec_manhattan(self, other: Location) -> int {
        abs_diff(self.x as int, other.x as int) + abs_diff(self.y as int, other.y as int)
    }

    pub fn manhattan_distance(self, other: Location) -> (d: u32)
        ensures
            d == self.spec_manhattan(other),
    {
        let dx: u32 = if self.x >= other.x { (self.x - other.x) as u32 } else { (other.x - self.x) as u32 };
        let dy: u32 = if self.y >= other.y { (self.y - other.y) as u32 } else { (other.y - self.y) as u32 };
        dx + dy
    }
}

/// Something that stands at a location.
pub trait Located {
    spec fn spec_location(&self) -> Location;

    fn loc(&self) -> (l: Location)
        ensures
            l == self.spec_location(),
    ;
}

pub open spec fn abs_diff(a: int, b: int) -> int {
    if a >= b { a - b } else { b - a }
}

/// The dimensions of a map.
#[derive(Clone, Copy, Debug, PartialEq, Eq, Hash, Structural)]
pub struct Dims {
    pub width: u16,
    pub height: u16,
}

impl Dims {
    pub fn new(width: u16, height: u16) -> (r: Dims)
        ensures
            r.width == width,
            r.height == height,
    {
        Dims { width, height }
    }

    pub open spec fn spec_contains(self, loc: Location) -> bool {
        loc.x < self.width && loc.y < self.height
    }

    /// Is the location within these dimensions?
    pub fn contain(&self, loc: Location) -> (b: bool)
        ensures
            b == self.spec_contains(loc),
    {
        loc.x < self.width && loc.y < self.height
    }

    pub open spec fn spec_area(self) -> nat {
        (self.width as nat) * (self.height as nat)
    }

    /// The number of locations within these dimensions.
    pub fn area(&self) -> (a: usize)
        ensures
            a == self.spec_area(),
    {
        proof {
            lemma_area_bound(self.width, self.height);
        }
        (self.width as usize) * (self.height as usize)
    }

    /// The linear index of a location within these dimensions: row by row, top to bottom.
    pub open spec fn spec_index(self, loc: Location) -> int {
        loc.y as int * self.width as int + loc.x as int
    }

    /// The location with the given linear index.
    pub open spec fn spec_loc(self, i: int) -> Location {
        Location { x: (i % self.width as int) as u16, y: (i / self.width as int) as u16 }
    }

    pub fn index(&self, loc: Location) -> (i: usize)
        requires
            self.spec_contains(loc),
        ensures
            i == self.spec_index(loc),
            i < self.spec_area(),
    {
        proof {
            lemma_index_in_bounds(*self, loc);
            lemma_area_bound(self.width, self.height);
        }
        (loc.y as usize) * (self.width as usize) + (loc.x as usize)
    }

    pub fn loc(&self, i: usize) -> (loc: Location)
        requires
            i < self.spec_area(),
        ensures
            loc == self.spec_loc(i as int),
            self.spec_contains(loc),
            self.spec_index(loc) == i,
    {
        proof {
            lemma_loc_of_index(*self, i as int);
        }
        let w = self.width as usize;
        Location { x: (i % w) as u16, y: (i / w) as u16 }
    }

    /// Every location within these dimensions, row by row.
    pub fn iter_locs(&self) -> (locs: Vec<Location>)
        ensures
            locs@.len() == self.spec_area(),
            forall|i: int| 0 <= i < locs@.len() ==> #[trigger] locs@[i] == self.spec_loc(i),
    {
        let n = self.area();
        let mut locs: Vec<Location> = Vec::new();
        let mut i: usize = 0;
        while i < n
            invariant
                n == self.spec_area(),
                i <= n,
                locs@.len() == i,
                forall|j: int| 0 <= j < i ==> #[trigger] locs@[j] == self.spec_loc(j),
            decreases n - i,
        {
            let l = self.loc(i);
            locs.push(l);
            i = i + 1;
        }
        locs
    }
}

pub proof fn lemma_area_bound(w: u16, h: u16)
    ensures
        (w as nat) * (h as nat) <= 0xffff_ffff,
{
    assert((w as nat) * (h as nat) <= 0xffff * 0xffff) by (nonlinear_arith)
        requires w <= 0xffff, h <= 0xffff;
}

pub proof fn lemma_index_in_bounds(d: Dims, loc: Location)
    requires
        d.spec_contains(loc),
    ensures
        0 <= d.spec_index(loc) < d.spec_area(),
        d.spec_loc(d.spec_index(loc)) == loc,
{
    let w = d.width as int;
    let h = d.height as int;
    let x = loc.x as int;
    let y = loc.y as int;
    assert(0 <= y * w + x < h * w) by (nonlinear_arith)
        requires 0 <= x < w, 0 <= y < h;
    assert((y * w + x) % w == x && (y * w + x) / w == y) by (nonlinear_arith)
        requires 0 <= x < w, 0 <= y;
    assert(h * w == w * h) by (nonlinear_arith);
}

pub proof fn lemma_loc_of_index(d: Dims, i: int)
    requires
        0 <= i < d.spec_area(),
    ensures
        d.spec_contains(d.spec_loc(i)),
        d.spec_index(d.spec_loc(i)) == i,
{
    let w = d.width as int;
    let h = d.height as int;
    assert(w > 0) by (nonlinear_arith) requires 0 <= i < w * h, w >= 0, h >= 0;
    assert(0 <= i % w < w && 0 <= i / w < h && (i / w) * w + i % w == i) by (nonlinear_arith)
        requires 0 <= i < w * h, w > 0;
}

/// The eight directions a unit may move in one step.
#[derive(Clone, Copy, Debug, PartialEq, Eq, Hash, PartialOrd, Ord, Structural)]
pub enum Direction {
    Up,
    Down,
    Left,
    Right,
    UpLeft,
    UpRight,
    DownLeft,
    DownRight,
}

pub open spec fn spec_direction_values() -> Seq<Direction> {
    seq![
        Direction::Up,
        Direction::Down,
        Direction::Left,
        Direction::Right,
        Direction::UpLeft,
        Direction::UpRight,
        Direction::DownLeft,
        Direction::DownRight,
    ]
}

/// `Direction::values` lists each direction once, at its index.
pub proof fn lemma_direction_values_index()
    ensures
        forall|j: int| 0 <= j < 8 ==> (#[trigger] spec_direction_values()[j]).spec_index() == j,
        forall|d: Direction| #[trigger] spec_direction_values()[d.spec_index()] == d,
        spec_direction_values().len() == 8,
{
    let v = spec_direction_values();
    assert(v[0].spec_index() == 0 && v[1].spec_index() == 1 && v[2].spec_index() == 2 && v[3].spec_index() == 3
        && v[4].spec_index() == 4 && v[5].spec_index() == 5 && v[6].spec_index() == 6 && v[7].spec_index() == 7);
}

impl Direction {
    pub fn values() -> (v: [Direction; 8])
        ensures
            v@ == spec_direction_values(),
    {
        [
            Direction::Up,
            Direction::Down,
            Direction::Left,
            Direction::Right,
            Direction::UpLeft,
            Direction::UpRight,
            Direction::DownLeft,
            Direction::DownRight,
        ]
    }

    /// The position of this direction in `values`.
    pub open spec fn spec_index(self) -> int {
        match self {
            Direction::Up => 0,
            Direction::Down => 1,
            Direction::Left => 2,
            Direction::Right => 3,
            Direction::UpLeft => 4,
            Direction::UpRight => 5,
            Direction::DownLeft => 6,
            Direction::DownRight => 7,
        }
    }

    pub open spec fn spec_vec2d(self) -> (int, int) {
        match self {
            Direction::Up => (0, -1),
            Direction::Down => (0, 1),
            Direction::Left => (-1, 0),
            Direction::Right => (1, 0),
            Direction::UpLeft => (-1, -1),
            Direction::UpRight => (1, -1),
            Direction::DownLeft => (-1, 1),
            Direction::DownRight => (1, 1),
        }
    }

    /// The unit offset this direction corresponds to (y grows downward).
    pub fn vec2d(self) -> (v: Vec2d)
        ensures
            (v.x as int, v.y as int) == self.spec_vec2d(),
    {
        match self {
            Direction::Up => Vec2d { x: 0, y: -1 },
            Direction::Down => Vec2d { x: 0, y: 1 },
            Direction::Left => Vec2d { x: -1, y: 0 },
            Direction::Right => Vec2d { x: 1, y: 0 },
            Direction::UpLeft => Vec2d { x: -1, y: -1 },
            Direction::UpRight => Vec2d { x: 1, y: -1 },
            Direction::DownLeft => Vec2d { x: -1, y: 1 },
            Direction::DownRight => Vec2d { x: 1, y: 1 },
        }
    }
}

/// A two-dimensional offset.
#[derive(Clone, Copy, Debug, PartialEq, Eq, Hash, Structural)]
pub struct Vec2d {
    pub x: i32,
    pub y: i32,
}

impl Vec2d {
    pub fn new(x: i32, y: i32) -> (r: Vec2d)
        ensures
            r.x == x,
            r.y == y,
    {
        Vec2d { x, y }
    }
}

/// Whether the map wraps around horizontally and/or vertically.
#[derive(Clone, Copy, Debug, PartialEq, Eq, Hash, Structural)]
pub struct Wrap2d {
    pub horiz: bool,
    pub vert: bool,
}

/// One coordinate after adding an offset: wrapped modulo the bound, or absent when it leaves the bounds.
pub open spec fn spec_wrap_coord(c: int, inc: int, bound: int, wrap: bool) -> Option<int> {
    if wrap {
        Some((c + inc) % bound)
    } else if 0 <= c + inc < bound {
        Some(c + inc)
    } else {
        None
    }
}

fn wrap_coord(c: u16, inc: i32, bound: u16, wrap: bool) -> (r: Option<u16>)
    requires
        c < bound,
    ensures
        r matches Some(v) ==> spec_wrap_coord(c as int, inc as int, bound as int, wrap) == Some(v as int),
        r is None ==> spec_wrap_coord(c as int, inc as int, bound as int, wrap) is None,
{
    let s: i64 = c as i64 + inc as i64;
    let b: i64 = bound as i64;
    if wrap {
        let bu: u64 = bound as u64;
        if s >= 0 {
            let m: u64 = (s as u64) % bu;
            Some(m as u16)
        } else {
            let neg: u64 = (-s) as u64;
            let r: u64 = neg % bu;
            let m: u64 = if r == 0 { 0 } else { bu - r };
            proof {
                let q = neg as int / bu as int;
                assert(neg as int == q * bu as int + r as int) by (nonlinear_arith)
                    requires bu > 0, q == neg as int / bu as int, r as int == neg as int % bu as int;
                if r == 0 {
                    assert(s as int == (-q) * bu as int) by (nonlinear_arith)
                        requires neg as int == q * bu as int + r as int, r == 0, s as int == -(neg as int);
                    vstd::arithmetic::div_mod::lemma_mod_multiples_basic(-q, bu as int);
                } else {
                    assert(s as int == (-q - 1) * bu as int + (bu - r) as int) by (nonlinear_arith)
                        requires neg as int == q * bu as int + r as int, s as int == -(neg as int);
                    vstd::arithmetic::div_mod::lemma_fundamental_div_mod_converse(s as int, bu as int, -q - 1, (bu - r) as int);
                }
            }
            Some(m as u16)
        }
    } else if 0 <= s && s < b {
        Some(s as u16)
    } else {
        None
    }
}

impl Wrap2d {
    pub fn neither() -> (w: Wrap2d)
        ensures
            !w.horiz && !w.vert,
    {
        Wrap2d { horiz: false, vert: false }
    }

    pub fn both() -> (w: Wrap2d)
        ensures
            w.horiz && w.vert,
    {
        Wrap2d { horiz: true, vert: true }
    }

    /// The wrapping named by a one-letter code: 'h' horizontal only, 'v' vertical only, 'b' both, 'n' neither.
    pub open spec fn spec_from_code(code: Seq<char>) -> Option<Wrap2d> {
        if code == seq!['h'] {
            Some(Wrap2d { horiz: true, vert: false })
        } else if code == seq!['v'] {
            Some(Wrap2d { horiz: false, vert: true })
        } else if code == seq!['b'] {
            Some(Wrap2d { horiz: true, vert: true })
        } else if code == seq!['n'] {
            Some(Wrap2d { horiz: false, vert: false })
        } else {
            None
        }
    }

    /// Read a wrapping from its one-letter code; `None` for any other text.
    pub fn from_code(code: &str) -> (r: Option<Wrap2d>)
        ensures
            r == Self::spec_from_code(code@),
    {
        if code.unicode_len() != 1 {
            return None;
        }
        let c = code.get_char(0);
        proof {
            assert(code@ =~= seq![c]);
        }
        if c == 'h' {
            Some(Wrap2d { horiz: true, vert: false })
        } else if c == 'v' {
            Some(Wrap2d { horiz: false, vert: true })
        } else if c == 'b' {
            Some(Wrap2d { horiz: true, vert: true })
        } else if c == 'n' {
            Some(Wrap2d { horiz: false, vert: false })
        } else {
            None
        }
    }

    pub open spec fn spec_wrapped_add(self, dims: Dims, loc: Location, inc: Vec2d) -> Option<Location> {
        let x = spec_wrap_coord(loc.x as int, inc.x as int, dims.width as int, self.horiz);
        let y = spec_wrap_coord(loc.y as int, inc.y as int, dims.height as int, self.vert);
        if x is Some && y is Some {
            Some(Location { x: x->0 as u16, y: y->0 as u16 })
        } else {
            None
        }
    }

    /// Add an offset to a location, wrapping around the map where this policy says so; `None` when the result
    /// would leave the map.
    pub fn wrapped_add(&self, dims: Dims, loc: Location, inc: Vec2d) -> (r: Option<Location>)
        requires
            dims.spec_contains(loc),
        ensures
            r == self.spec_wrapped_add(dims, loc, inc),
            r matches Some(l) ==> dims.spec_contains(l),
    {
        let x = wrap_coord(loc.x, inc.x, dims.width, self.horiz);
        let y = wrap_coord(loc.y, inc.y, dims.height, self.vert);
        match (x, y) {
            (Some(x), Some(y)) => Some(Location { x, y }),
            _ => None,
        }
    }
}

/// The decimal digits of a number, most significant first.
pub open spec fn spec_decimal(n: nat) -> Seq<char>
    decreases n,
{
    if n < 10 {
        seq![spec_digit(n)]
    } else {
        spec_decimal(n / 10) + seq![spec_digit(n % 10)]
    }
}

pub open spec fn spec_digit(d: nat) -> char {
    if d == 0 { '0' } else if d == 1 { '1' } else if d == 2 { '2' } else if d == 3 { '3' } else if d == 4 { '4' }
    else if d == 5 { '5' } else if d == 6 { '6' } else if d == 7 { '7' } else if d == 8 { '8' } else { '9' }
}

/// Write a number in decimal.
pub fn decimal(n: u64) -> (s: String)
    ensures
        s@ == spec_decimal(n as nat),
    decreases n,
{
    let digit = digit_str(n % 10);
    if n < 10 {
        String::from_str(digit)
    } else {
        let mut s = decimal(n / 10);
        s.append(digit);
        s
    }
}

fn digit_str(d: u64) -> (s: &'static str)
    requires
        d < 10,
    ensures
        s@ == seq![spec_digit(d as nat)],
{
    if d == 0 {
        proof { reveal_strlit("0"); }
        "0"
    }
    else if d == 1 {
        proof { reveal_strlit("1"); }
        "1"
    }
    else if d == 2 {
        proof { reveal_strlit("2"); }
        "2"
    }
    else if d == 3 {
        proof { reveal_strlit("3"); }
        "3"
    }
    else if d == 4 {
        proof { reveal_strlit("4"); }
        "4"
    }
    else if d == 5 {
        proof { reveal_strlit("5"); }
        "5"
    }
    else if d == 6 {
        proof { reveal_strlit("6"); }
        "6"
    }
    else if d == 7 {
        proof { reveal_strlit("7"); }
        "7"
    }
    else if d == 8 {
        proof { reveal_strlit("8"); }
        "8"
    }
    else {
        proof { reveal_strlit("9"); }
        "9"
    }
}


impl Location {
    pub open spec fn spec_description(self) -> Seq<char> {
        "("@ + spec_decimal(self.x as nat) + ","@ + spec_decimal(self.y as nat) + ")"@
    }

    /// The location as text: `(x,y)`.
    pub fn description(&self) -> (s: String)
        ensures
            s@ == self.spec_description(),
    {
        let mut s = String::from_str("(");
        let x = decimal(self.x as u64);
        s.append(x.as_str());
        s.append(",");
        let y = decimal(self.y as u64);
        s.append(y.as_str());
        s.append(")");
        s
    }
}

impl Dims {
    pub open spec fn spec_description(self) -> Seq<char> {
        spec_decimal(self.width as nat) + "x"@ + spec_decimal(self.height as nat)
    }

    /// The dimensions as text: `WxH`.
    pub fn description(&self) -> (s: String)
        ensures
            s@ == self.spec_description(),
    {
        let mut s = decimal(self.width as u64);
        s.append("x");
        let h = decimal(self.height as u64);
        s.append(h.as_str());
        s
    }
}

} // verus!
