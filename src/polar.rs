use crate::geom::{dir_x, dir_y, hex_dist, Dir6, Vec2};
use vstd::arithmetic::div_mod::{lemma_fundamental_div_mod, lemma_fundamental_div_mod_converse};
use vstd::prelude::*;

verus! {

/// Largest ring radius that a scan may reach.
///
/// Ring indices and offsets are computed in 64 and 32 bits; this bound
/// keeps them from overflowing.
pub const MAX_RADIUS: u32 = 0x1000_0000;

/// Largest numerator of a point's angle, so that `num * radius` fits in 64
/// bits with room to spare.
pub const MAX_NUM: u64 = 0x2_0000_0000;

/// A point on the hex ring of a given radius, in polar form.
///
/// The ring of radius `r` has `6 * r` cells, numbered clockwise from the
/// northern corner. The point sits at angle `num / den`, measured in sides
/// of the hexagon, so its position along the ring is
/// `pos = num * radius / den`. Cell `i` covers the half-open stretch
/// `[i - 1/2, i + 1/2)` of positions. Keeping the angle as an exact fraction
/// lets the scan carry a span outwards from ring to ring with no rounding.
#[derive(Clone, Copy, Debug, PartialEq, Eq)]
pub struct PolarPoint {
    pub num: u64,
    pub den: u64,
    pub radius: u32,
}

/// Offset of cell `i` of the ring of radius `r >= 1`, x component.
///
/// The ring's six sides start at the six corners `r * dir(s)`; a side runs
/// along the direction two steps clockwise from its corner.
pub open spec fn ring_x(r: int, i: int) -> int {
    let s = (i % (6 * r)) / r;
    dir_x(s) * r + dir_x(s + 2) * (i % r)
}

/// See `ring_x`.
pub open spec fn ring_y(r: int, i: int) -> int {
    let s = (i % (6 * r)) / r;
    dir_y(s) * r + dir_y(s + 2) * (i % r)
}

/// Whether angle `a` is at most angle `b`.
pub open spec fn angle_le(a: PolarPoint, b: PolarPoint) -> bool {
    a.num * b.den <= b.num * a.den
}

proof fn lemma_div_lower(a: int, b: int, k: int)
    requires
        b > 0,
        k <= a / b,
    ensures
        k * b <= a,
{
    lemma_fundamental_div_mod(a, b);
    let q = a / b;
    assert(k * b <= q * b) by (nonlinear_arith)
        requires
            k <= q,
            b > 0,
    ;
}

proof fn lemma_div_upper(a: int, b: int, k: int)
    requires
        b > 0,
        a / b < k,
    ensures
        a < k * b,
{
    lemma_fundamental_div_mod(a, b);
    let q = a / b;
    let m = a % b;
    assert(a < k * b) by (nonlinear_arith)
        requires
            a == b * q + m,
            m < b,
            q + 1 <= k,
            b > 0,
    ;
}

proof fn lemma_div_below(a: int, b: int, k: int)
    requires
        b > 0,
        a < k * b,
    ensures
        a / b < k,
{
    if a / b >= k {
        lemma_div_lower(a, b, k);
    }
}


/// The cell number of a well-formed point is small enough to double.
#[verifier::spinoff_prover]
pub(crate) proof fn lemma_winding_bound(p: PolarPoint)
    requires
        p.wf(),
    ensures
        0 <= p.winding() < 0x4000_0000_0000_0000,
        p.next_spec().num == 2 * p.winding() + 1,
        p.next_spec().den == 2 * p.radius,
{
    let x = p.pos2_num();
    let d = p.den as int;
    let n = p.num as int;
    let r = p.radius as int;
    assert(0 <= n * r <= MAX_NUM * MAX_RADIUS) by (nonlinear_arith)
        requires
            0 <= n <= MAX_NUM,
            0 <= r <= MAX_RADIUS,
    ;
    lemma_div_lower(x, 2 * d, p.winding());
    assert(2 * p.winding() <= x) by (nonlinear_arith)
        requires
            p.winding() * (2 * d) <= x,
            d >= 1,
            x >= 0,
    ;
    vstd::arithmetic::div_mod::lemma_div_pos_is_pos(x, 2 * d);
}

/// Moving to the next cell boundary never moves a point backwards, and
/// lands in the following cell.
#[verifier::spinoff_prover]
pub(crate) proof fn lemma_next_after(p: PolarPoint)
    requires
        p.wf(),
        1 <= p.radius,
    ensures
        angle_le(p, p.next_spec()),
        p.next_spec().winding() == p.winding() + 1,
{
    lemma_winding_bound(p);
    let w = p.winding();
    let r = p.radius as int;
    let d = p.den as int;
    lemma_div_upper(p.pos2_num(), 2 * d, w + 1);
    let n = p.num as int;
    assert(n * (2 * r) <= (2 * w + 1) * d) by (nonlinear_arith)
        requires
            2 * (n * r) + d < (w + 1) * (2 * d),
    ;
    let q = p.next_spec();
    assert(q.pos2_num() == (w + 1) * (4 * r)) by (nonlinear_arith)
        requires
            q.pos2_num() == 2 * (q.num * q.radius) + q.den,
            q.num == 2 * w + 1,
            q.den == 2 * r,
            q.radius == r,
    ;
    lemma_fundamental_div_mod_converse(q.pos2_num(), 4 * r, w + 1, 0);
}

/// A span that ends no later than angle 6 ends by cell `6 * radius`.
pub(crate) proof fn lemma_end_bound(e: PolarPoint)
    requires
        e.wf(),
        e.num <= 6 * e.den,
    ensures
        e.end_idx() <= 6 * e.radius + 1,
{
    let r = e.radius as int;
    let d = e.den as int;
    let n = e.num as int;
    assert(e.pos2_num() + 2 * d - 1 < (6 * r + 2) * (2 * d)) by (nonlinear_arith)
        requires
            e.pos2_num() == 2 * (n * r) + d,
            n <= 6 * d,
            d >= 1,
            r >= 0,
    ;
    lemma_div_below(e.pos2_num() + 2 * d - 1, 2 * d, 6 * r + 2);
}

/// A boundary point whose following cell still lies before the end of a
/// span does not pass the span's end angle.
#[verifier::spinoff_prover]
pub(crate) proof fn lemma_next_within(p: PolarPoint, e: PolarPoint)
    requires
        p.wf(),
        e.wf(),
        1 <= p.radius,
        p.radius == e.radius,
        p.next_spec().winding() < e.end_idx(),
    ensures
        angle_le(p.next_spec(), e),
{
    lemma_next_after(p);
    lemma_winding_bound(p);
    let w = p.winding();
    let r = p.radius as int;
    let d = e.den as int;
    let n = e.num as int;
    lemma_div_lower(e.pos2_num() + 2 * d - 1, 2 * d, w + 2);
    assert((2 * w + 1) * d <= n * (2 * r)) by (nonlinear_arith)
        requires
            (w + 2) * (2 * d) <= 2 * (n * r) + d + 2 * d - 1,
    ;
}

#[verifier::spinoff_prover]
pub(crate) proof fn lemma_angle_trans(a: PolarPoint, b: PolarPoint, c: PolarPoint)
    requires
        a.den > 0,
        b.den > 0,
        c.den > 0,
        angle_le(a, b),
        angle_le(b, c),
    ensures
        angle_le(a, c),
{
    let (an, ad, bn, bd, cn, cd) = (a.num as int, a.den as int, b.num as int, b.den as int, c.num as int, c.den as int);
    assert((an * bd) * cd <= (bn * ad) * cd) by (nonlinear_arith)
        requires
            an * bd <= bn * ad,
            cd > 0,
    ;
    assert((bn * cd) * ad <= (cn * bd) * ad) by (nonlinear_arith)
        requires
            bn * cd <= cn * bd,
            ad > 0,
    ;
    assert((an * cd) * bd <= (cn * ad) * bd) by (nonlinear_arith)
        requires
            (an * bd) * cd <= (bn * ad) * cd,
            (bn * cd) * ad <= (cn * bd) * ad,
    ;
    assert(an * cd <= cn * ad) by (nonlinear_arith)
        requires
            (an * cd) * bd <= (cn * ad) * bd,
            bd > 0,
    ;
}

/// A point no further round than a span end within angle 6 is itself
/// within angle 6.
pub(crate) proof fn lemma_angle_six(p: PolarPoint, e: PolarPoint)
    requires
        p.den > 0,
        e.den > 0,
        angle_le(p, e),
        e.num <= 6 * e.den,
    ensures
        p.num <= 6 * p.den,
{
    let (pn, pd, en, ed) = (p.num as int, p.den as int, e.num as int, e.den as int);
    assert(pn <= 6 * pd) by (nonlinear_arith)
        requires
            pn * ed <= en * pd,
            en <= 6 * ed,
            ed > 0,
            pd > 0,
    ;
}

/// Every cell of the ring of radius `r` is `r` steps from the center.
#[verifier::spinoff_prover]
pub(crate) proof fn lemma_ring_dist(r: int, i: int)
    requires
        r >= 1,
        i >= 0,
    ensures
        hex_dist(ring_x(r, i), ring_y(r, i)) == r,
{
    let s = (i % (6 * r)) / r;
    let o = i % r;
    lemma_fundamental_div_mod(i, 6 * r);
    lemma_div_below(i % (6 * r), r, 6);
    lemma_fundamental_div_mod(i, r);
    assert(0 <= s < 6);
    assert(0 <= o < r);
    let x = ring_x(r, i);
    let y = ring_y(r, i);
    assert(x == dir_x(s) * r + dir_x(s + 2) * o && y == dir_y(s) * r + dir_y(s + 2) * o);
    if s == 0 {
        assert(dir_x(0) == -1 && dir_x(2) == 1 && dir_y(0) == -1 && dir_y(2) == 0);
        assert(x == -r + o && y == -r);
    } else if s == 1 {
        assert(dir_x(1) == 0 && dir_x(3) == 1 && dir_y(1) == -1 && dir_y(3) == 1);
        assert(x == o && y == -r + o);
    } else if s == 2 {
        assert(dir_x(2) == 1 && dir_x(4) == 0 && dir_y(2) == 0 && dir_y(4) == 1);
        assert(x == r && y == o);
    } else if s == 3 {
        assert(dir_x(3) == 1 && dir_x(5) == -1 && dir_y(3) == 1 && dir_y(5) == 0);
        assert(x == r - o && y == r);
    } else if s == 4 {
        assert(dir_x(4) == 0 && dir_x(6) == -1 && dir_y(4) == 1 && dir_y(6) == -1);
        assert(x == -o && y == r - o);
    } else {
        assert(dir_x(5) == -1 && dir_x(7) == 0 && dir_y(5) == 0 && dir_y(7) == -1);
        assert(x == -r && y == -o);
    }
}

/// A unit step along the x axis changes the hex distance by at most one.
pub(crate) proof fn lemma_step_x(x: int, y: int)
    ensures
        hex_dist(x + 1, y) <= hex_dist(x, y) + 1,
        hex_dist(x - 1, y) <= hex_dist(x, y) + 1,
        hex_dist(x, y) <= hex_dist(x + 1, y) + 1,
        hex_dist(x, y) <= hex_dist(x - 1, y) + 1,
{
}

/// On the first ring, the cell after the western one is the northern one,
/// and the cell after the eastern one is the southern one.
pub(crate) proof fn lemma_first_ring_turns(w: int)
    requires
        w >= 0,
    ensures
        ring_x(1, w) == -1 && ring_y(1, w) == 0 ==> ring_x(1, w + 1) == -1 && ring_y(1, w + 1) == -1,
        ring_x(1, w) == 1 && ring_y(1, w) == 0 ==> ring_x(1, w + 1) == 1 && ring_y(1, w + 1) == 1,
{
    lemma_fundamental_div_mod(w, 6);
    lemma_fundamental_div_mod(w + 1, 6);
    let k = w % 6;
    if k < 5 {
        lemma_fundamental_div_mod_converse(w + 1, 6, w / 6, k + 1);
    } else {
        lemma_fundamental_div_mod_converse(w + 1, 6, w / 6 + 1, 0);
    }
    assert(w % 1 == 0 && (w + 1) % 1 == 0);
    assert(dir_x(k) == ring_x(1, w) && dir_y(k) == ring_y(1, w));
    assert(dir_x((w + 1) % 6) == ring_x(1, w + 1) && dir_y((w + 1) % 6) == ring_y(1, w + 1));
}

impl PolarPoint {
    /// Bounds that keep the arithmetic on the point within 64 bits.
    pub open spec fn wf(self) -> bool {
        &&& 1 <= self.den <= 2 * MAX_RADIUS
        &&& self.num <= MAX_NUM
        &&& self.radius <= MAX_RADIUS
    }

    /// Twice the position plus one, over twice `den`, as a fraction's parts.
    pub open spec fn pos2_num(self) -> int {
        2 * (self.num * self.radius) + self.den
    }

    /// Number of the cell that holds the point: `floor(pos + 1/2)`.
    pub open spec fn winding(self) -> int {
        self.pos2_num() / (2 * self.den as int)
    }

    /// First cell past the point when it marks the end of a span:
    /// `ceil(pos + 1/2)`.
    pub open spec fn end_idx(self) -> int {
        (self.pos2_num() + 2 * self.den - 1) / (2 * self.den as int)
    }

    /// The point's offset from the ring's center.
    pub open spec fn offset_x(self) -> int {
        if self.radius == 0 {
            0
        } else {
            ring_x(self.radius as int, self.winding())
        }
    }

    /// See `offset_x`.
    pub open spec fn offset_y(self) -> int {
        if self.radius == 0 {
            0
        } else {
            ring_y(self.radius as int, self.winding())
        }
    }

    /// The point at the same angle on the next ring out.
    pub open spec fn further_spec(self) -> PolarPoint {
        PolarPoint { num: self.num, den: self.den, radius: (self.radius + 1) as u32 }
    }

    /// The middle of the stretch between this point's cell and the next.
    pub open spec fn next_spec(self) -> PolarPoint {
        PolarPoint {
            num: (2 * self.winding() + 1) as u64,
            den: (2 * self.radius) as u64,
            radius: self.radius,
        }
    }

    /// The cell just outside the ring between this point's cell and the next
    /// one, where the two lie on a vertical rim.
    pub open spec fn side_spec(self) -> Option<(int, int)> {
        let ax = self.offset_x();
        let ay = self.offset_y();
        let bx = self.next_spec().offset_x();
        let by = self.next_spec().offset_y();
        if bx == ax + 1 && by == ay + 1 {
            Some((ax + 1, ay))
        } else if bx == ax - 1 && by == ay - 1 {
            Some((ax - 1, ay))
        } else {
            None
        }
    }

    pub fn new(num: u64, den: u64, radius: u32) -> (r: PolarPoint)
        requires
            (PolarPoint { num, den, radius }).wf(),
        ensures
            r == (PolarPoint { num, den, radius }),
    {
        PolarPoint { num, den, radius }
    }

    fn pos2(self) -> (r: u64)
        requires
            self.wf(),
        ensures
            r == self.pos2_num(),
            r <= 0x4000_0000_2000_0000,
    {
        proof {
            assert(self.num * self.radius <= MAX_NUM * MAX_RADIUS) by (nonlinear_arith)
                requires
                    self.num <= MAX_NUM,
                    self.radius <= MAX_RADIUS,
            ;
        }
        2 * (self.num * (self.radius as u64)) + self.den
    }

    /// Number of the cell that holds the point.
    fn winding_index(self) -> (r: u64)
        requires
            self.wf(),
        ensures
            r == self.winding(),
    {
        self.pos2() / (2 * self.den)
    }

    /// First cell past the point when it marks the end of a span.
    fn end_index(self) -> (r: u64)
        requires
            self.wf(),
        ensures
            r == self.end_idx(),
    {
        (self.pos2() + 2 * self.den - 1) / (2 * self.den)
    }

    /// Whether this point's cell comes before the end marked by `other`.
    pub fn is_below(self, other: PolarPoint) -> (r: bool)
        requires
            self.wf(),
            other.wf(),
        ensures
            r == (self.winding() < other.end_idx()),
    {
        self.winding_index() < other.end_index()
    }

    /// The offset of the point's cell from the center of the ring.
    ///
    /// Radius 0 holds a single cell, the center itself.
    pub fn to_v2(self) -> (r: Vec2)
        requires
            self.wf(),
        ensures
            r.x == self.offset_x(),
            r.y == self.offset_y(),
    {
        if self.radius == 0 {
            return Vec2 { x: 0, y: 0 };
        }
        let r: u64 = self.radius as u64;
        let index: u64 = self.winding_index();
        let sector: u64 = (index % (6 * r)) / r;
        let offset: u64 = index % r;
        proof {
            lemma_fundamental_div_mod(index as int, 6 * (r as int));
            lemma_div_below((index as int) % (6 * (r as int)), r as int, 6);
            assert((sector as int + 2) % 6 % 6 == (sector as int + 2) % 6);
        }
        let rod = Dir6::from_int(sector as i32).to_v2();
        let tangent = Dir6::from_int(((sector + 2) % 6) as i32).to_v2();
        let ri: i64 = r as i64;
        let oi: i64 = offset as i64;
        proof {
            assert(-ri <= rod.x * ri <= ri) by (nonlinear_arith)
                requires
                    -1 <= rod.x <= 1,
                    ri >= 0,
            ;
            assert(-ri <= rod.y * ri <= ri) by (nonlinear_arith)
                requires
                    -1 <= rod.y <= 1,
                    ri >= 0,
            ;
            assert(-ri <= tangent.x * oi <= ri) by (nonlinear_arith)
                requires
                    -1 <= tangent.x <= 1,
                    0 <= oi < ri,
            ;
            assert(-ri <= tangent.y * oi <= ri) by (nonlinear_arith)
                requires
                    -1 <= tangent.y <= 1,
                    0 <= oi < ri,
            ;
        }
        let x: i64 = rod.x as i64 * ri + tangent.x as i64 * oi;
        let y: i64 = rod.y as i64 * ri + tangent.y as i64 * oi;
        Vec2 { x: x as i32, y: y as i32 }
    }

    /// The point at the same angle on the ring one further out.
    pub fn further(self) -> (r: PolarPoint)
        requires
            self.radius < MAX_RADIUS,
        ensures
            r == self.further_spec(),
    {
        PolarPoint { num: self.num, den: self.den, radius: self.radius + 1 }
    }

    /// The point between this point's cell and the next one along the ring.
    ///
    /// The result's numerator is twice the cell number, so the cell number
    /// must stay below 2^32 for it to fit the representation; a point of
    /// radius 0 has no next point in it.
    pub fn next(self) -> (r: PolarPoint)
        requires
            self.wf(),
            1 <= self.radius,
            self.winding() < 0x1_0000_0000,
        ensures
            r == self.next_spec(),
            r.wf(),
            r.radius == self.radius,
            r.winding() == self.winding() + 1,
    {
        proof {
            lemma_next_after(self);
        }
        PolarPoint { num: 2 * self.winding_index() + 1, den: 2 * self.radius as u64, radius: self.radius }
    }

    /// Where this point's cell and the next one lie on a vertical rim of the
    /// ring, the cell just outside the ring between them.
    ///
    /// Rooms drawn in a fake-isometric style show this corner cell.
    pub fn side_point(self) -> (r: Option<Vec2>)
        requires
            self.wf(),
            1 <= self.radius,
            self.winding() < 0x1_0000_0000,
        ensures
            r matches Some(v) ==> self.side_spec() == Some((v.x as int, v.y as int)),
            r matches Some(v) ==> hex_dist(v.x as int, v.y as int) == self.radius + 1,
            r is None ==> self.side_spec() is None,
    {
        proof {
            lemma_next_after(self);
            lemma_winding_bound(self);
            lemma_side_outside(self.radius as int, self.winding());
        }
        let a = self.to_v2();
        let b = self.next().to_v2();
        if b.x == a.x + 1 && b.y == a.y + 1 {
            Some(Vec2 { x: a.x + 1, y: a.y })
        } else if b.x == a.x - 1 && b.y == a.y - 1 {
            Some(Vec2 { x: a.x - 1, y: a.y })
        } else {
            None
        }
    }
}


/// Cell `k` of the ring of radius `r` as a vector.
pub(crate) open spec fn ring_vec(r: int, k: int) -> Vec2 {
    Vec2 { x: ring_x(r, k) as i32, y: ring_y(r, k) as i32 }
}

/// The `k`-th point that a walk along the ring of radius `r` visits from
/// the northern corner.
pub(crate) open spec fn walk_point(r: u32, k: int) -> PolarPoint {
    if k == 0 {
        PolarPoint { num: 0, den: 1, radius: r }
    } else {
        PolarPoint { num: (2 * k - 1) as u64, den: (2 * r) as u64, radius: r }
    }
}

#[verifier::spinoff_prover]
pub(crate) proof fn lemma_walk_point(r: u32, k: int)
    requires
        1 <= r <= MAX_RADIUS,
        0 <= k <= 6 * r + 1,
    ensures
        walk_point(r, k).wf(),
        walk_point(r, k).winding() == k,
        k <= 6 * r ==> walk_point(r, k).next_spec() == walk_point(r, k + 1),
        (PolarPoint { num: 6, den: 1, radius: r }).end_idx() == 6 * r + 1,
        -2 * r <= ring_x(r as int, k) <= 2 * r,
        -2 * r <= ring_y(r as int, k) <= 2 * r,
{
    let p = walk_point(r, k);
    let ri = r as int;
    if k == 0 {
        assert(p.num * p.radius == 0) by (nonlinear_arith)
            requires
                p.num == 0,
        ;
        assert(p.pos2_num() == 1);
        lemma_fundamental_div_mod_converse(1, 2, 0, 1);
    } else {
        assert(p.pos2_num() == k * (4 * ri)) by (nonlinear_arith)
            requires
                p.pos2_num() == 2 * (p.num * p.radius) + p.den,
                p.num == 2 * k - 1,
                p.radius == ri,
                p.den == 2 * ri,
        ;
        lemma_fundamental_div_mod_converse(p.pos2_num(), 4 * ri, k, 0);
    }
    let e = PolarPoint { num: 6, den: 1, radius: r };
    assert(e.pos2_num() + 2 * e.den - 1 == 12 * ri + 2);
    lemma_fundamental_div_mod_converse(12 * ri + 2, 2, 6 * ri + 1, 0);
    if k <= 6 * r {
        lemma_winding_bound(p);
    }
    lemma_ring_dist(ri, k);
}

/// Moving one cell along the ring of radius `r` steps along the direction
/// two to the right of the corner that starts the current side.
#[verifier::spinoff_prover]
proof fn lemma_ring_step(r: int, w: int)
    requires
        r >= 1,
        w >= 0,
    ensures
        ring_x(r, w + 1) - ring_x(r, w) == dir_x((w % (6 * r)) / r + 2),
        ring_y(r, w + 1) - ring_y(r, w) == dir_y((w % (6 * r)) / r + 2),
{
    let i = w % (6 * r);
    let q = w / (6 * r);
    lemma_fundamental_div_mod(w, 6 * r);
    lemma_fundamental_div_mod(i, r);
    let s = i / r;
    let o = i % r;
    lemma_div_below(i, r, 6);
    assert(w == (6 * q + s) * r + o) by (nonlinear_arith)
        requires
            w == (6 * r) * q + i,
            i == r * s + o,
    ;
    lemma_fundamental_div_mod_converse(w, r, 6 * q + s, o);
    assert(ring_x(r, w) == dir_x(s) * r + dir_x(s + 2) * o);
    assert(ring_y(r, w) == dir_y(s) * r + dir_y(s + 2) * o);
    let (s1, o1): (int, int) = if o < r - 1 {
        (s, o + 1)
    } else if s < 5 {
        (s + 1, 0)
    } else {
        (0, 0)
    };
    let i1 = s1 * r + o1;
    lemma_ring_index(r, s1, o1);
    let q1 = if o == r - 1 && s == 5 { q + 1 } else { q };
    if o < r - 1 {
        assert(w + 1 == q1 * (6 * r) + i1) by (nonlinear_arith)
            requires
                w == (6 * r) * q + i,
                i == r * s + o,
                q1 == q,
                i1 == s * r + (o + 1),
        ;
    } else if s < 5 {
        assert(w + 1 == q1 * (6 * r) + i1) by (nonlinear_arith)
            requires
                w == (6 * r) * q + i,
                i == r * s + o,
                o == r - 1,
                q1 == q,
                i1 == (s + 1) * r + 0,
        ;
    } else {
        assert(w + 1 == q1 * (6 * r) + i1) by (nonlinear_arith)
            requires
                w == (6 * r) * q + i,
                i == r * s + o,
                o == r - 1,
                s == 5,
                q1 == q + 1,
                i1 == 0 * r + 0,
        ;
    }
    lemma_fundamental_div_mod_converse(w + 1, 6 * r, q1, i1);
    assert(w + 1 == (6 * q1 + s1) * r + o1) by (nonlinear_arith)
        requires
            w + 1 == q1 * (6 * r) + i1,
            i1 == s1 * r + o1,
    ;
    lemma_fundamental_div_mod_converse(w + 1, r, 6 * q1 + s1, o1);
    lemma_fundamental_div_mod_converse(i1, r, s1, o1);
    assert(ring_x(r, w + 1) == dir_x(s1) * r + dir_x(s1 + 2) * o1);
    assert(ring_y(r, w + 1) == dir_y(s1) * r + dir_y(s1 + 2) * o1);
    if s == 0 {
        assert(dir_x(0) == -1 && dir_x(1) == 0 && dir_x(2) == 1 && dir_x(3) == 1);
        assert(dir_y(0) == -1 && dir_y(1) == -1 && dir_y(2) == 0 && dir_y(3) == 1);
    } else if s == 1 {
        assert(dir_x(1) == 0 && dir_x(2) == 1 && dir_x(3) == 1 && dir_x(4) == 0);
        assert(dir_y(1) == -1 && dir_y(2) == 0 && dir_y(3) == 1 && dir_y(4) == 1);
    } else if s == 2 {
        assert(dir_x(2) == 1 && dir_x(3) == 1 && dir_x(4) == 0 && dir_x(5) == -1);
        assert(dir_y(2) == 0 && dir_y(3) == 1 && dir_y(4) == 1 && dir_y(5) == 0);
    } else if s == 3 {
        assert(dir_x(3) == 1 && dir_x(4) == 0 && dir_x(5) == -1 && dir_x(6) == -1);
        assert(dir_y(3) == 1 && dir_y(4) == 1 && dir_y(5) == 0 && dir_y(6) == -1);
    } else if s == 4 {
        assert(dir_x(4) == 0 && dir_x(5) == -1 && dir_x(6) == -1 && dir_x(7) == 0);
        assert(dir_y(4) == 1 && dir_y(5) == 0 && dir_y(6) == -1 && dir_y(7) == -1);
    } else {
        assert(dir_x(5) == -1 && dir_x(6) == -1 && dir_x(7) == 0 && dir_x(0) == -1 && dir_x(2) == 1);
        assert(dir_y(5) == 0 && dir_y(6) == -1 && dir_y(7) == -1 && dir_y(0) == -1 && dir_y(2) == 0);
    }
    if o < r - 1 {
        assert(ring_x(r, w + 1) - ring_x(r, w) == dir_x(s + 2)) by (nonlinear_arith)
            requires
                ring_x(r, w + 1) == dir_x(s) * r + dir_x(s + 2) * (o + 1),
                ring_x(r, w) == dir_x(s) * r + dir_x(s + 2) * o,
        ;
        assert(ring_y(r, w + 1) - ring_y(r, w) == dir_y(s + 2)) by (nonlinear_arith)
            requires
                ring_y(r, w + 1) == dir_y(s) * r + dir_y(s + 2) * (o + 1),
                ring_y(r, w) == dir_y(s) * r + dir_y(s + 2) * o,
        ;
    } else {
        assert(dir_x(s1) == dir_x(s) + dir_x(s + 2) && dir_y(s1) == dir_y(s) + dir_y(s + 2));
        assert(ring_x(r, w + 1) - ring_x(r, w) == dir_x(s + 2)) by (nonlinear_arith)
            requires
                ring_x(r, w + 1) == dir_x(s1) * r + dir_x(s1 + 2) * 0,
                ring_x(r, w) == dir_x(s) * r + dir_x(s + 2) * o,
                dir_x(s1) == dir_x(s) + dir_x(s + 2),
                o == r - 1,
        ;
        assert(ring_y(r, w + 1) - ring_y(r, w) == dir_y(s + 2)) by (nonlinear_arith)
            requires
                ring_y(r, w + 1) == dir_y(s1) * r + dir_y(s1 + 2) * 0,
                ring_y(r, w) == dir_y(s) * r + dir_y(s + 2) * o,
                dir_y(s1) == dir_y(s) + dir_y(s + 2),
                o == r - 1,
        ;
    }
}

/// Where two neighbouring cells of a ring lie on a vertical rim, the cell
/// beside them that `side_spec` picks lies on the next ring out.
#[verifier::spinoff_prover]
proof fn lemma_side_outside(r: int, w: int)
    requires
        r >= 1,
        w >= 0,
    ensures
        ring_x(r, w + 1) == ring_x(r, w) + 1 && ring_y(r, w + 1) == ring_y(r, w) + 1 ==> hex_dist(
            ring_x(r, w) + 1,
            ring_y(r, w),
        ) == r + 1,
        ring_x(r, w + 1) == ring_x(r, w) - 1 && ring_y(r, w + 1) == ring_y(r, w) - 1 ==> hex_dist(
            ring_x(r, w) - 1,
            ring_y(r, w),
        ) == r + 1,
{
    lemma_ring_step(r, w);
    let i = w % (6 * r);
    lemma_fundamental_div_mod(w, 6 * r);
    lemma_fundamental_div_mod(i, r);
    let s = i / r;
    lemma_div_below(i, r, 6);
    let o = w % r;
    lemma_fundamental_div_mod(w, r);
    assert((s + 2) % 6 == if s < 4 { s + 2 } else { s - 4 });
    if s == 1 {
        assert(dir_x(1) == 0 && dir_x(3) == 1 && dir_y(1) == -1 && dir_y(3) == 1);
        assert(ring_x(r, w) == o && ring_y(r, w) == o - r);
    } else if s == 4 {
        assert(dir_x(4) == 0 && dir_x(6) == -1 && dir_y(4) == 1 && dir_y(6) == -1);
        assert(ring_x(r, w) == -o && ring_y(r, w) == r - o);
    } else if s == 0 {
        assert(dir_x(2) == 1 && dir_y(2) == 0);
    } else if s == 2 {
        assert(dir_x(4) == 0 && dir_y(4) == 1);
    } else if s == 3 {
        assert(dir_x(5) == -1 && dir_y(5) == 0);
    } else {
        assert(dir_x(7) == 0 && dir_y(7) == -1);
    }
}

/// Cell `s * r + o` of the ring of radius `r` lies `o` steps along side `s`.
pub(crate) proof fn lemma_ring_index(r: int, s: int, o: int)
    requires
        r >= 1,
        0 <= s < 6,
        0 <= o < r,
    ensures
        0 <= s * r + o < 6 * r,
        ring_x(r, s * r + o) == dir_x(s) * r + dir_x(s + 2) * o,
        ring_y(r, s * r + o) == dir_y(s) * r + dir_y(s + 2) * o,
{
    let k = s * r + o;
    assert(0 <= k < 6 * r) by (nonlinear_arith)
        requires
            k == s * r + o,
            0 <= s < 6,
            0 <= o < r,
    ;
    lemma_fundamental_div_mod_converse(k, 6 * r, 0, k);
    lemma_fundamental_div_mod_converse(k, r, s, o);
}

/// Every cell `r >= 1` steps from the origin lies on the ring of radius `r`.
#[verifier::spinoff_prover]
pub(crate) proof fn lemma_ring_onto(r: int, x: int, y: int)
    requires
        r >= 1,
        hex_dist(x, y) == r,
    ensures
        exists|k: int| 0 <= k < 6 * r && ring_x(r, k) == x && ring_y(r, k) == y,
{
    let (s, o): (int, int) = if y == -r && -r <= x < 0 {
        (0, x + r)
    } else if 0 <= x < r && y == x - r {
        (1, x)
    } else if x == r && 0 <= y < r {
        (2, y)
    } else if y == r && 0 < x <= r {
        (3, r - x)
    } else if -r < x <= 0 && y == r + x {
        (4, -x)
    } else {
        (5, -y)
    };
    assert(0 <= s < 6 && 0 <= o < r);
    let k = s * r + o;
    lemma_ring_index(r, s, o);
    assert(dir_x(s) * r + dir_x(s + 2) * o == x && dir_y(s) * r + dir_y(s + 2) * o == y) by {
        if s == 0 {
            assert(dir_x(0) == -1 && dir_x(2) == 1 && dir_y(0) == -1 && dir_y(2) == 0);
        } else if s == 1 {
            assert(dir_x(1) == 0 && dir_x(3) == 1 && dir_y(1) == -1 && dir_y(3) == 1);
        } else if s == 2 {
            assert(dir_x(2) == 1 && dir_x(4) == 0 && dir_y(2) == 0 && dir_y(4) == 1);
        } else if s == 3 {
            assert(dir_x(3) == 1 && dir_x(5) == -1 && dir_y(3) == 1 && dir_y(5) == 0);
        } else if s == 4 {
            assert(dir_x(4) == 0 && dir_x(6) == -1 && dir_y(4) == 1 && dir_y(6) == -1);
        } else {
            assert(dir_x(5) == -1 && dir_x(7) == 0 && dir_y(5) == 0 && dir_y(7) == -1);
        }
    }
    assert(ring_x(r, k) == x && ring_y(r, k) == y);
}


/// Whether `p` is the first ring's northern corner, where a scan starts.
pub(crate) open spec fn first_corner(p: PolarPoint) -> bool {
    p == PolarPoint { num: 0, den: 1, radius: 1 }
}

/// Whether `p` lies halfway between two cells of the first ring, as
/// `next_spec` leaves it.
pub(crate) open spec fn first_half(p: PolarPoint) -> bool {
    p.radius == 1 && p.den == 2 && p.num % 2 == 1
}

/// On the first ring, where a point and the points that `next_spec` and
/// `further_spec` make of it lie.
#[verifier::spinoff_prover]
pub(crate) proof fn lemma_first_ring_points(p: PolarPoint)
    requires
        p.wf(),
        p.radius == 1,
    ensures
        p.further_spec().end_idx() >= 2 * p.winding(),
        p.winding() >= 0,
        first_half(p.next_spec()),
        p.next_spec().winding() == p.winding() + 1,
        p.next_spec().further_spec().end_idx() == 2 * p.winding() + 2,
        first_corner(p) ==> p.winding() == 0 && p.further_spec().winding() == 0
            && p.further_spec().end_idx() == 1,
        first_half(p) ==> p.further_spec().winding() == 2 * p.winding() - 1
            && p.further_spec().end_idx() == 2 * p.winding(),
{
    lemma_winding_bound(p);
    lemma_next_after(p);
    let n = p.num as int;
    let d = p.den as int;
    let w = p.winding();
    let f = p.further_spec();
    assert(p.num * p.radius == n);
    assert(p.pos2_num() == 2 * n + d);
    assert(f.radius == 2);
    assert(f.num * f.radius == 2 * n);
    assert(f.pos2_num() == 4 * n + d);
    lemma_div_lower(2 * n + d, 2 * d, w);
    assert(2 * w * (2 * d) <= 4 * n + 3 * d - 1) by (nonlinear_arith)
        requires
            w * (2 * d) <= 2 * n + d,
            d >= 1,
    ;
    if f.end_idx() < 2 * w {
        lemma_div_upper(4 * n + 3 * d - 1, 2 * d, 2 * w);
    }
    let q = p.next_spec();
    assert(q.num == 2 * w + 1 && q.den == 2);
    let qf = q.further_spec();
    assert(qf.radius == 2 && qf.num == q.num && qf.den == 2);
    assert(qf.num * qf.radius == 4 * w + 2);
    assert(qf.pos2_num() == 8 * w + 6);
    lemma_fundamental_div_mod_converse(8 * w + 9, 4, 2 * w + 2, 1);
    if first_corner(p) {
        lemma_fundamental_div_mod_converse(1, 2, 0, 1);
        assert(f.pos2_num() == 1);
        lemma_fundamental_div_mod_converse(2, 2, 1, 0);
    }
    if first_half(p) {
        let j = (n - 1) / 2;
        assert(n == 2 * j + 1);
        lemma_fundamental_div_mod_converse(4 * j + 4, 4, j + 1, 0);
        assert(w == j + 1);
        lemma_fundamental_div_mod_converse(8 * j + 6, 4, 2 * j + 1, 2);
        lemma_fundamental_div_mod_converse(8 * j + 9, 4, 2 * j + 2, 1);
    }
}

/// The end of a whole first ring lies past cell six, and past cell twelve
/// one ring further out.
pub(crate) proof fn lemma_first_ring_end()
    ensures
        (PolarPoint { num: 6, den: 1, radius: 1 }).end_idx() == 7,
        (PolarPoint { num: 6, den: 1, radius: 1 }).further_spec().end_idx() == 13,
{
    lemma_fundamental_div_mod_converse(14, 2, 7, 0);
    lemma_fundamental_div_mod_converse(26, 2, 13, 0);
}

/// Every even cell of the second ring is twice a cell of the first, and
/// every odd one has an odd coordinate.
#[verifier::spinoff_prover]
pub(crate) proof fn lemma_second_ring(w: int)
    requires
        w >= 0,
    ensures
        ring_x(2, 2 * w) == 2 * ring_x(1, w),
        ring_y(2, 2 * w) == 2 * ring_y(1, w),
        ring_x(2, 2 * w + 1) % 2 == 1 || ring_y(2, 2 * w + 1) % 2 == 1,
{
    let s = w % 6;
    lemma_fundamental_div_mod(w, 6);
    lemma_fundamental_div_mod_converse(2 * w, 12, w / 6, 2 * s);
    lemma_fundamental_div_mod_converse(2 * w + 1, 12, w / 6, 2 * s + 1);
    lemma_fundamental_div_mod_converse(2 * s, 2, s, 0);
    lemma_fundamental_div_mod_converse(2 * s + 1, 2, s, 1);
    lemma_fundamental_div_mod_converse(2 * w, 2, w, 0);
    lemma_fundamental_div_mod_converse(2 * w + 1, 2, w, 1);
    lemma_fundamental_div_mod_converse(w, 1, w, 0);
    lemma_fundamental_div_mod_converse(w, 6, w / 6, s);
    lemma_fundamental_div_mod_converse(s, 1, s, 0);
    assert(ring_x(1, w) == dir_x(s) && ring_y(1, w) == dir_y(s));
    assert(ring_x(2, 2 * w) == dir_x(s) * 2 && ring_y(2, 2 * w) == dir_y(s) * 2);
    assert(ring_x(2, 2 * w + 1) == dir_x(s) * 2 + dir_x(s + 2) && ring_y(2, 2 * w + 1) == dir_y(s) * 2
        + dir_y(s + 2));
    assert((s + 2) % 6 == if s < 4 { s + 2 } else { s - 4 });
    if s == 0 {
        assert(dir_x(2) == 1 && dir_y(2) == 0);
    } else if s == 1 {
        assert(dir_x(3) == 1 && dir_y(3) == 1);
    } else if s == 2 {
        assert(dir_x(4) == 0 && dir_y(4) == 1);
    } else if s == 3 {
        assert(dir_x(5) == -1 && dir_y(5) == 0);
    } else if s == 4 {
        assert(dir_x(6) == -1 && dir_y(6) == -1);
    } else {
        assert(dir_x(7) == 0 && dir_y(7) == -1);
    }
}

} // verus!
