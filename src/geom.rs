use vstd::arithmetic::div_mod::{lemma_fundamental_div_mod, lemma_fundamental_div_mod_converse};
use vstd::prelude::*;

verus! {

/// The residue of `a` modulo 256, read as a two's complement byte.
pub open spec fn wrap8(a: int) -> int {
    let m = a % 256;
    if m >= 128 {
        m - 256
    } else {
        m
    }
}

/// How many whole turns of 256 separate `a` from `wrap8(a)`.
pub open spec fn wrap_turns(a: int) -> int {
    if a % 256 >= 128 {
        a / 256 + 1
    } else {
        a / 256
    }
}

/// `wrap8(a)` is a byte and differs from `a` by a multiple of 256.
pub proof fn lemma_wrap8(a: int)
    ensures
        -128 <= wrap8(a) < 128,
        a == wrap8(a) + 256 * wrap_turns(a),
        -128 <= a < 128 ==> wrap8(a) == a,
{
    lemma_fundamental_div_mod(a, 256);
    if -128 <= a < 128 {
        if a >= 0 {
            lemma_fundamental_div_mod_converse(a, 256, 0, a);
        } else {
            lemma_fundamental_div_mod_converse(a, 256, -1, a + 256);
        }
    }
}

/// Adding a multiple of 256 does not change the wrapped byte.
pub proof fn lemma_wrap8_turns(a: int, k: int)
    ensures
        wrap8(a + 256 * k) == wrap8(a),
{
    lemma_fundamental_div_mod(a, 256);
    lemma_fundamental_div_mod_converse(a + 256 * k, 256, a / 256 + k, a % 256);
}

/// Wrapping an intermediate sum does not change the wrapped result.
pub proof fn lemma_wrap8_add(a: int, b: int)
    ensures
        wrap8(wrap8(a) + b) == wrap8(a + b),
        wrap8(b + wrap8(a)) == wrap8(a + b),
{
    lemma_wrap8(a);
    lemma_wrap8_turns(wrap8(a) + b, wrap_turns(a));
}

/// Reduces an integer to the byte that is congruent to it modulo 256.
pub fn wrap_i8(a: i64) -> (r: i8)
    requires
        -0x1_0000_0000 <= a <= 0x1_0000_0000,
    ensures
        r == wrap8(a as int),
{
    let u: u64 = (a + 0x1_0000_0000) as u64;
    let m: u64 = u % 256;
    assert(m == a % 256) by {
        lemma_wrap8_turns(a as int, 0x100_0000);
        lemma_fundamental_div_mod(a as int, 256);
        lemma_fundamental_div_mod_converse(u as int, 256, (a as int) / 256 + 0x100_0000, (a as int) % 256);
    }
    if m >= 128 {
        (m as i64 - 256) as i8
    } else {
        m as i8
    }
}

/// Floor division by a small positive divisor.
pub fn floor_div(a: i64, d: i64) -> (r: i64)
    requires
        0 < d <= 1024,
        -0x1_0000_0000 <= a <= 0x1_0000_0000,
    ensures
        r == a / d,
{
    let shift: i64 = 0x1_0000_0000;
    let u: u64 = (a + d * shift) as u64;
    let q: u64 = u / (d as u64);
    proof {
        lemma_fundamental_div_mod(a as int, d as int);
        assert(u == (a / d + shift) * d + a % d) by (nonlinear_arith)
            requires
                u == a + d * shift,
                a == d * (a / d) + a % d,
        ;
        lemma_fundamental_div_mod_converse(u as int, d as int, (a as int) / (d as int) + shift, (a as int) % (d as int));
    }
    q as i64 - shift
}

/// A displacement on the hex plane, in axial coordinates.
#[derive(Clone, Copy, Debug, PartialEq, Eq, Hash, Structural)]
pub struct Vec2 {
    pub x: i32,
    pub y: i32,
}

impl Vec2 {
    pub fn new(x: i32, y: i32) -> (r: Vec2)
        ensures
            r == (Vec2 { x, y }),
    {
        Vec2 { x, y }
    }
}

/// Number of steps between two cells of the hex plane whose axial
/// coordinates differ by `(x, y)`.
///
/// Where both components have the same sign, a diagonal step covers one unit
/// of each; otherwise every unit is a step of its own.
pub open spec fn hex_dist(x: int, y: int) -> int {
    let ax = if x < 0 { -x } else { x };
    let ay = if y < 0 { -y } else { y };
    if (x >= 0 && y >= 0) || (x <= 0 && y <= 0) {
        if ax >= ay { ax } else { ay }
    } else {
        ax + ay
    }
}

/// Hex distance of a displacement.
pub fn hex_length(v: Vec2) -> (r: i32)
    requires
        -0x3fff_ffff <= v.x <= 0x3fff_ffff,
        -0x3fff_ffff <= v.y <= 0x3fff_ffff,
    ensures
        r == hex_dist(v.x as int, v.y as int),
{
    let ax: i32 = if v.x < 0 { -v.x } else { v.x };
    let ay: i32 = if v.y < 0 { -v.y } else { v.y };
    if (v.x >= 0 && v.y >= 0) || (v.x <= 0 && v.y <= 0) {
        if ax >= ay { ax } else { ay }
    } else {
        ax + ay
    }
}

/// The six directions of the hex grid, clockwise from north.
#[derive(Clone, Copy, Debug, PartialEq, Eq, Hash, PartialOrd, Ord, Structural)]
pub enum Dir6 {
    North,
    NorthEast,
    SouthEast,
    South,
    SouthWest,
    NorthWest,
}

/// The unit displacement of direction number `i` (taken modulo six).
pub open spec fn dir_x(i: int) -> int {
    let k = i % 6;
    if k == 0 { -1 } else if k == 1 { 0 } else if k == 2 { 1 } else if k == 3 { 1 } else if k == 4 { 0 } else { -1 }
}

/// See `dir_x`.
pub open spec fn dir_y(i: int) -> int {
    let k = i % 6;
    if k == 0 { -1 } else if k == 1 { -1 } else if k == 2 { 0 } else if k == 3 { 1 } else if k == 4 { 1 } else { 0 }
}

impl Dir6 {
    /// Position of the direction in clockwise order from north.
    pub open spec fn index(self) -> int {
        match self {
            Dir6::North => 0,
            Dir6::NorthEast => 1,
            Dir6::SouthEast => 2,
            Dir6::South => 3,
            Dir6::SouthWest => 4,
            Dir6::NorthWest => 5,
        }
    }

    /// The direction with the given number, counted modulo six.
    pub fn from_int(i: i32) -> (r: Dir6)
        ensures
            r.index() == (i as int) % 6,
    {
        let k: i64 = i as i64 - floor_div(i as i64, 6) * 6;
        proof {
            lemma_fundamental_div_mod(i as int, 6);
        }
        if k == 0 {
            Dir6::North
        } else if k == 1 {
            Dir6::NorthEast
        } else if k == 2 {
            Dir6::SouthEast
        } else if k == 3 {
            Dir6::South
        } else if k == 4 {
            Dir6::SouthWest
        } else {
            Dir6::NorthWest
        }
    }

    /// Unit displacement one step along this direction.
    pub fn to_v2(self) -> (r: Vec2)
        ensures
            r.x == dir_x(self.index()),
            r.y == dir_y(self.index()),
    {
        match self {
            Dir6::North => Vec2 { x: -1, y: -1 },
            Dir6::NorthEast => Vec2 { x: 0, y: -1 },
            Dir6::SouthEast => Vec2 { x: 1, y: 0 },
            Dir6::South => Vec2 { x: 1, y: 1 },
            Dir6::SouthWest => Vec2 { x: 0, y: 1 },
            Dir6::NorthWest => Vec2 { x: -1, y: 0 },
        }
    }
}

} // verus!
