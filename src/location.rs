use crate::geom::{
    dir_x, dir_y, floor_div, hex_dist, hex_length, lemma_wrap8, lemma_wrap8_add, wrap8, wrap_i8, wrap_turns,
    Dir6, Vec2,
};
use vstd::arithmetic::div_mod::{lemma_fundamental_div_mod, lemma_fundamental_div_mod_converse};
use vstd::prelude::*;

verus! {

/// Width of a sector in rectangular coordinates.
pub const SECTOR_WIDTH: i32 = 40;

/// Height of a sector in rectangular coordinates.
pub const SECTOR_HEIGHT: i32 = 22;

/// Unambiguous location in the game world.
///
/// `x` and `y` are axial hex coordinates that wrap around modulo 256; `z`
/// selects a zone, a plane of its own that only portals connect to others.
#[derive(Clone, Copy, Debug, PartialEq, Eq, Hash, PartialOrd, Ord, Structural)]
pub struct Location {
    pub x: i8,
    pub y: i8,
    pub z: i8,
}

/// A directed link that displaces a location and moves it into zone `z`.
#[derive(Clone, Copy, Debug, PartialEq, Eq, Hash, PartialOrd, Ord, Structural)]
pub struct Portal {
    pub dx: i8,
    pub dy: i8,
    pub z: i8,
}

/// A rectangular block of `SECTOR_WIDTH` by `SECTOR_HEIGHT` cells of one zone.
#[derive(Clone, Copy, Debug, PartialEq, Eq, Hash, PartialOrd, Ord, Structural)]
pub struct Sector {
    pub x: i8,
    pub y: i8,
    pub z: i8,
}

/// Rectangular column of axial coordinates.
pub open spec fn rect_u(x: int, y: int) -> int {
    x - y
}

/// Rectangular row of axial coordinates: half their sum, rounded down.
pub open spec fn rect_v(x: int, y: int) -> int {
    (x + y) / 2
}

/// Where the wrapped plane puts the rectangular cell `(u, v)` of zone `z`.
pub open spec fn rect_loc(u: int, v: int, z: i8) -> Location {
    Location { x: wrap8((u + 1) / 2 + v) as i8, y: wrap8(v - u / 2) as i8, z }
}

impl Location {
    /// The location displaced by `(dx, dy)` within its zone, wrapping around.
    pub open spec fn shifted(self, dx: int, dy: int) -> Location {
        Location { x: wrap8(self.x + dx) as i8, y: wrap8(self.y + dy) as i8, z: self.z }
    }

    /// The location that a portal leads to from this one.
    pub open spec fn through(self, p: Portal) -> Location {
        Location { x: wrap8(self.x + p.dx) as i8, y: wrap8(self.y + p.dy) as i8, z: p.z }
    }

    /// The sector that holds this location.
    pub open spec fn sector_of(self) -> Sector {
        Sector {
            x: (rect_u(self.x as int, self.y as int) / 40) as i8,
            y: (rect_v(self.x as int, self.y as int) / 22) as i8,
            z: self.z,
        }
    }

    pub fn origin() -> (r: Location)
        ensures
            r == (Location { x: 0, y: 0, z: 0 }),
    {
        Location { x: 0, y: 0, z: 0 }
    }

    pub fn new(x: i8, y: i8, z: i8) -> (r: Location)
        ensures
            r == (Location { x, y, z }),
    {
        Location { x, y, z }
    }

    /// Vector pointing from this location to `other`, when both are in the
    /// same zone.
    pub fn v2_at(&self, other: Location) -> (r: Option<Vec2>)
        ensures
            r == (if self.z == other.z {
                Some(Vec2 { x: (other.x - self.x) as i32, y: (other.y - self.y) as i32 })
            } else {
                None
            }),
    {
        if self.z != other.z {
            return None;
        }
        Some(Vec2 { x: other.x as i32 - self.x as i32, y: other.y as i32 - self.y as i32 })
    }

    /// Hex distance from this location to `other`, when both are in the same
    /// zone.
    pub fn distance_from(&self, other: Location) -> (r: Option<i32>)
        ensures
            r == (if self.z == other.z {
                Some(hex_dist(other.x - self.x, other.y - self.y) as i32)
            } else {
                None
            }),
    {
        match self.v2_at(other) {
            Some(v) => Some(hex_length(v)),
            None => None,
        }
    }

    /// Hex distance that is the largest `i32` between separate zones.
    ///
    /// Serves as a total metric for searches that need one.
    pub fn metric_distance(&self, other: Location) -> (r: i32)
        ensures
            r == (if self.z == other.z {
                hex_dist(other.x - self.x, other.y - self.y) as i32
            } else {
                i32::MAX
            }),
    {
        match self.distance_from(other) {
            Some(d) => d,
            None => i32::MAX,
        }
    }

    /// Displaces the location by a vector within its zone, wrapping around.
    pub fn add(self, v: Vec2) -> (r: Location)
        ensures
            r == self.shifted(v.x as int, v.y as int),
    {
        Location {
            x: wrap_i8(self.x as i64 + v.x as i64),
            y: wrap_i8(self.y as i64 + v.y as i64),
            z: self.z,
        }
    }

    /// Displaces the location by the opposite of a vector, wrapping around.
    pub fn sub(self, v: Vec2) -> (r: Location)
        ensures
            r == self.shifted(-v.x, -v.y),
    {
        Location {
            x: wrap_i8(self.x as i64 - v.x as i64),
            y: wrap_i8(self.y as i64 - v.y as i64),
            z: self.z,
        }
    }

    /// Follows a portal from this location.
    pub fn add_portal(self, p: Portal) -> (r: Location)
        ensures
            r == self.through(p),
    {
        Location {
            x: wrap_i8(self.x as i64 + p.dx as i64),
            y: wrap_i8(self.y as i64 + p.dy as i64),
            z: p.z,
        }
    }

    /// The six adjacent locations, clockwise from north.
    pub fn neighbors(&self) -> (r: Vec<Location>)
        ensures
            r@.len() == 6,
            forall|i: int| 0 <= i < 6 ==> r@[i] == self.shifted(dir_x(i), dir_y(i)),
    {
        let mut r: Vec<Location> = Vec::new();
        let mut i: i32 = 0;
        while i < 6
            invariant
                0 <= i <= 6,
                r@.len() == i,
                forall|j: int| 0 <= j < i ==> r@[j] == self.shifted(dir_x(j), dir_y(j)),
            decreases 6 - i,
        {
            let d = Dir6::from_int(i);
            r.push(self.add(d.to_v2()));
            i = i + 1;
        }
        r
    }

    /// Maps the axial coordinates to rectangular ones.
    pub fn to_rect_coords(self) -> (r: (i32, i32))
        ensures
            r.0 == rect_u(self.x as int, self.y as int),
            r.1 == rect_v(self.x as int, self.y as int),
    {
        let u: i32 = self.x as i32 - self.y as i32;
        let v: i64 = floor_div(self.x as i64 + self.y as i64, 2);
        (u, v as i32)
    }

    /// Maps rectangular coordinates back to a location of zone `z`.
    pub fn from_rect_coords(u: i32, v: i32, z: i8) -> (r: Location)
        ensures
            r == rect_loc(u as int, v as int, z),
    {
        let half_down: i64 = floor_div(u as i64, 2);
        let half_up: i64 = floor_div(u as i64 + 1, 2);
        Location::new(wrap_i8(half_up + v as i64), wrap_i8(v as i64 - half_down), z)
    }

    /// The sector that holds this location.
    pub fn sector(self) -> (r: Sector)
        ensures
            r == self.sector_of(),
    {
        let (u, v) = self.to_rect_coords();
        let sx: i64 = floor_div(u as i64, SECTOR_WIDTH as i64);
        let sy: i64 = floor_div(v as i64, SECTOR_HEIGHT as i64);
        Sector::new(sx as i8, sy as i8, self.z)
    }
}

impl Portal {
    /// The portal that leads from `from` to `to`.
    pub fn new(from: Location, to: Location) -> (r: Portal)
        ensures
            r == (Portal { dx: wrap8(to.x - from.x) as i8, dy: wrap8(to.y - from.y) as i8, z: to.z }),
    {
        Portal {
            dx: wrap_i8(to.x as i64 - from.x as i64),
            dy: wrap_i8(to.y as i64 - from.y as i64),
            z: to.z,
        }
    }

    /// The portal that takes a location through `self` and then `other`.
    pub open spec fn composed(self, other: Portal) -> Portal {
        Portal { dx: wrap8(self.dx + other.dx) as i8, dy: wrap8(self.dy + other.dy) as i8, z: other.z }
    }

    /// Composes two portals: the result does what `self` followed by `other`
    /// does.
    pub fn add(self, other: Portal) -> (r: Portal)
        ensures
            r == self.composed(other),
    {
        Portal {
            dx: wrap_i8(self.dx as i64 + other.dx as i64),
            dy: wrap_i8(self.dy as i64 + other.dy as i64),
            z: other.z,
        }
    }
}

impl Sector {
    /// The location at rectangular offset `(u, v)` from the sector's origin.
    pub open spec fn cell(self, u: int, v: int) -> Location {
        rect_loc(self.x * 40 + u, self.y * 22 + v, self.z)
    }

    /// All cells of the sector, row by row.
    pub open spec fn cells(self) -> Seq<Location> {
        Seq::new(880, |i: int| self.cell(i % 40, i / 40))
    }

    pub fn new(x: i8, y: i8, z: i8) -> (r: Sector)
        ensures
            r == (Sector { x, y, z }),
    {
        Sector { x, y, z }
    }

    /// The location in the sector's top left corner.
    pub fn origin(self) -> (r: Location)
        ensures
            r == self.cell(0, 0),
    {
        self.rect_coord_loc(0, 0)
    }

    /// The location at rectangular offset `(u, v)` from the sector's origin.
    pub fn rect_coord_loc(self, u: i32, v: i32) -> (r: Location)
        requires
            i32::MIN <= self.x * 40 + u <= i32::MAX,
            i32::MIN <= self.y * 22 + v <= i32::MAX,
        ensures
            r == self.cell(u as int, v as int),
    {
        let cu: i64 = self.x as i64 * SECTOR_WIDTH as i64 + u as i64;
        let cv: i64 = self.y as i64 * SECTOR_HEIGHT as i64 + v as i64;
        Location::from_rect_coords(cu as i32, cv as i32, self.z)
    }

    /// Center location for this sector.
    ///
    /// The sides have even lengths, so this is the cell just above and to
    /// the left of the geometric center.
    pub fn center(self) -> (r: Location)
        ensures
            r == self.cell(19, 10),
    {
        self.rect_coord_loc(SECTOR_WIDTH / 2 - 1, SECTOR_HEIGHT / 2 - 1)
    }

    /// All cells of the sector, row by row.
    pub fn iter(self) -> (r: Vec<Location>)
        ensures
            r@ == self.cells(),
    {
        let n: i32 = SECTOR_WIDTH * SECTOR_HEIGHT;
        let mut r: Vec<Location> = Vec::new();
        let mut i: i32 = 0;
        while i < n
            invariant
                n == 880,
                0 <= i <= n,
                r@.len() == i,
                forall|j: int| 0 <= j < i ==> r@[j] == self.cell(j % 40, j / 40),
            decreases n - i,
        {
            r.push(self.rect_coord_loc(i % SECTOR_WIDTH, i / SECTOR_WIDTH));
            i = i + 1;
        }
        assert(r@ =~= self.cells());
        r
    }
}

/// Two rectangular cells closer than a full turn in each coordinate are
/// different locations.
#[verifier::spinoff_prover]
proof fn lemma_rect_loc_injective(u1: int, v1: int, u2: int, v2: int, z: i8)
    requires
        -256 < u1 - u2 < 256,
        -256 < v1 - v2 < 256,
        rect_loc(u1, v1, z) == rect_loc(u2, v2, z),
    ensures
        u1 == u2,
        v1 == v2,
{
    let a1 = (u1 + 1) / 2 + v1;
    let b1 = v1 - u1 / 2;
    let a2 = (u2 + 1) / 2 + v2;
    let b2 = v2 - u2 / 2;
    lemma_wrap8(a1);
    lemma_wrap8(b1);
    lemma_wrap8(a2);
    lemma_wrap8(b2);
    assert(wrap8(a1) == wrap8(a2));
    assert(wrap8(b1) == wrap8(b2));
    assert((u1 + 1) / 2 + u1 / 2 == u1);
    assert((u2 + 1) / 2 + u2 / 2 == u2);
    let ka = wrap_turns(a1) - wrap_turns(a2);
    let kb = wrap_turns(b1) - wrap_turns(b2);
    assert(a1 - a2 == 256 * ka);
    assert(b1 - b2 == 256 * kb);
    assert(u1 - u2 == 256 * (ka - kb));
    assert(u1 == u2);
    assert(v1 - v2 == 256 * ka);
}

/// Every location lies in its own sector, exactly once.
#[verifier::spinoff_prover]
pub proof fn lemma_sector_holds_location(loc: Location)
    ensures
        loc.sector_of().cells().contains(loc),
        forall|i: int, j: int|
            0 <= i < 880 && 0 <= j < 880 && #[trigger] loc.sector_of().cells()[i] == loc
                && #[trigger] loc.sector_of().cells()[j] == loc ==> i == j,
{
    let s = loc.sector_of();
    let u = rect_u(loc.x as int, loc.y as int);
    let v = rect_v(loc.x as int, loc.y as int);
    assert(s.x == u / 40);
    assert(s.y == v / 22);
    lemma_fundamental_div_mod(u, 40);
    lemma_fundamental_div_mod(v, 22);
    let du = u - 40 * (u / 40);
    let dv = v - 22 * (v / 22);
    let k = du + 40 * dv;
    lemma_fundamental_div_mod_converse(k, 40, dv, du);
    lemma_rect_round_trip(loc);
    assert(s.cells()[k] == loc);
    assert forall|i: int, j: int|
        0 <= i < 880 && 0 <= j < 880 && #[trigger] s.cells()[i] == loc
            && #[trigger] s.cells()[j] == loc implies i == j by {
        lemma_fundamental_div_mod(i, 40);
        lemma_fundamental_div_mod(j, 40);
        lemma_rect_loc_injective(
            s.x * 40 + i % 40,
            s.y * 22 + i / 40,
            s.x * 40 + j % 40,
            s.y * 22 + j / 40,
            loc.z,
        );
    }
}

/// Read access to the portals of a world.
pub trait TerrainQuery {
    /// The portal that leaves from `loc`, if there is one.
    spec fn portal_at(&self, loc: Location) -> Option<Portal>;

    /// Looks up the portal that leaves from `loc`.
    fn portal(&self, loc: Location) -> (r: Option<Portal>)
        ensures
            r == self.portal_at(loc),
    ;
}

/// Where a jump by `v` from `loc` lands: the displaced location, or where
/// the portal found there leads.
pub open spec fn jump_target<T: TerrainQuery>(ctx: &T, loc: Location, v: Vec2) -> Location {
    let dest = loc.shifted(v.x as int, v.y as int);
    match ctx.portal_at(dest) {
        Some(p) => dest.through(p),
        None => dest,
    }
}

impl Location {
    /// Displaces the location and follows a portal found at the target, once.
    pub fn jump<T: TerrainQuery>(self, ctx: &T, offset: Vec2) -> (r: Location)
        ensures
            r == jump_target(ctx, self, offset),
    {
        let loc = self.add(offset);
        match ctx.portal(loc) {
            Some(p) => loc.add_portal(p),
            None => loc,
        }
    }
}

/// Without a portal at the target, a jump is a plain displacement.
pub proof fn lemma_jump_without_portal<T: TerrainQuery>(ctx: &T, loc: Location, v: Vec2)
    requires
        ctx.portal_at(loc.shifted(v.x as int, v.y as int)) is None,
    ensures
        jump_target(ctx, loc, v) == loc.shifted(v.x as int, v.y as int),
{
}

/// Following two portals in turn is following their composition.
pub proof fn lemma_portal_composition(loc: Location, p1: Portal, p2: Portal)
    ensures
        loc.through(p1).through(p2) == loc.through(p1.composed(p2)),
{
    lemma_wrap8_add(loc.x + p1.dx, p2.dx as int);
    lemma_wrap8_add(p1.dx + p2.dx, loc.x as int);
    lemma_wrap8_add(loc.y + p1.dy, p2.dy as int);
    lemma_wrap8_add(p1.dy + p2.dy, loc.y as int);
    lemma_wrap8(loc.x + p1.dx);
    lemma_wrap8(p1.dx + p2.dx);
    lemma_wrap8(loc.y + p1.dy);
    lemma_wrap8(p1.dy + p2.dy);
    assert(loc.x + (p1.dx + p2.dx) == (loc.x + p1.dx) + p2.dx);
    assert(loc.y + (p1.dy + p2.dy) == (loc.y + p1.dy) + p2.dy);
}

/// Mapping a location to rectangular coordinates and back gives the same
/// location.
pub proof fn lemma_rect_round_trip(loc: Location)
    ensures
        rect_loc(rect_u(loc.x as int, loc.y as int), rect_v(loc.x as int, loc.y as int), loc.z)
            == loc,
{
    let x = loc.x as int;
    let y = loc.y as int;
    let u = rect_u(x, y);
    let v = rect_v(x, y);
    assert((u + 1) / 2 + v == x);
    assert(v - u / 2 == y);
    lemma_wrap8(x);
    lemma_wrap8(y);
}

} // verus!
