use crate::geom::{lemma_wrap8, wrap8, wrap_i8};
use crate::location::Location;
use vstd::arithmetic::div_mod::{lemma_fundamental_div_mod, lemma_fundamental_div_mod_converse};
use vstd::arithmetic::power2::{lemma_pow2_unfold, pow2};
use vstd::prelude::*;

verus! {

/// Moves bit `k` of `n` to bit `2k`, leaving the odd bits clear.
pub open spec fn spread2(n: nat) -> nat
    decreases n,
{
    if n == 0 {
        0
    } else {
        spread2(n / 2) * 4 + n % 2
    }
}

/// Gathers the even bits of `n`: bit `2k` becomes bit `k`.
pub open spec fn compact2(n: nat) -> nat
    decreases n,
{
    if n == 0 {
        0
    } else {
        compact2(n / 4) * 2 + n % 2
    }
}

/// The unsigned byte with the same bits as `a`.
pub open spec fn byte(a: int) -> nat {
    (a % 256) as nat
}

/// Morton code of a location: the bits of `x` on the even positions and
/// those of `y` on the odd positions of the low 16 bits, `z` above them.
pub open spec fn morton_of(loc: Location) -> nat {
    spread2(byte(loc.x as int)) + 2 * spread2(byte(loc.y as int)) + 0x10000 * byte(loc.z as int)
}

/// The location that a Morton code encodes; bits above 24 are ignored.
pub open spec fn location_of(code: nat) -> Location {
    Location {
        x: wrap8((compact2(code) % 256) as int) as i8,
        y: wrap8((compact2(code / 2) % 256) as int) as i8,
        z: wrap8(((code / 0x10000) % 256) as int) as i8,
    }
}

proof fn lemma_spread2_bound(n: nat)
    ensures
        spread2(n) <= n * n,
    decreases n,
{
    if n > 0 {
        lemma_spread2_bound(n / 2);
        let h = n / 2;
        assert(spread2(n) <= n * n) by (nonlinear_arith)
            requires
                spread2(n) == spread2(h) * 4 + n % 2,
                spread2(h) <= h * h,
                n == 2 * h + n % 2,
                0 <= n % 2 <= 1,
        ;
    }
}

proof fn lemma_compact2_bound(n: nat)
    ensures
        compact2(n) <= n,
    decreases n,
{
    if n > 0 {
        lemma_compact2_bound(n / 4);
    }
}

/// Spreads the low 16 bits of `bits` over the even bit positions.
fn spread_bits_by_2(bits: u32) -> (r: u32)
    requires
        bits < 0x10000,
    ensures
        r == spread2(bits as nat),
    decreases bits,
{
    if bits == 0 {
        0
    } else {
        let s = spread_bits_by_2(bits / 2);
        proof {
            lemma_spread2_bound(bits as nat);
            assert((bits as nat) * (bits as nat) < 0x1_0000_0000) by (nonlinear_arith)
                requires
                    bits < 0x10000,
            ;
        }
        s * 4 + bits % 2
    }
}

/// Gathers the even bits of `bits` into the low half.
fn compact_bits_by_2(bits: u32) -> (r: u32)
    ensures
        r == compact2(bits as nat),
    decreases bits,
{
    if bits == 0 {
        0
    } else {
        let c = compact_bits_by_2(bits / 4);
        proof {
            lemma_compact2_bound(bits as nat);
        }
        c * 2 + bits % 2
    }
}

/// The unsigned byte with the same bits as `a`.
fn byte_of(a: i8) -> (r: u8)
    ensures
        r == byte(a as int),
{
    proof {
        if a < 0 {
            lemma_fundamental_div_mod_converse(a as int, 256, -1, a + 256);
        } else {
            lemma_fundamental_div_mod_converse(a as int, 256, 0, a as int);
        }
    }
    if a < 0 {
        (a as i16 + 256) as u8
    } else {
        a as u8
    }
}

impl Location {
    /// Constructs a location from its Morton code, as made by `to_morton`.
    ///
    /// The even bits of the low 16 give `x`, the odd ones `y`, and bits 16
    /// to 23 give `z`.
    pub fn from_morton(morton_code: u32) -> (r: Location)
        ensures
            r == location_of(morton_code as nat),
    {
        let x = compact_bits_by_2(morton_code) % 256;
        let y = compact_bits_by_2(morton_code >> 1) % 256;
        let z = (morton_code >> 16) % 256;
        proof {
            assert(morton_code >> 1 == morton_code / 2) by (bit_vector);
            assert(morton_code >> 16 == morton_code / 0x10000) by (bit_vector);
        }
        Location { x: wrap_i8(x as i64), y: wrap_i8(y as i64), z: wrap_i8(z as i64) }
    }

    /// The Morton code of the location.
    ///
    /// Spatially close locations often have numerically close codes, which
    /// suits quadtree-like structures.
    pub fn to_morton(&self) -> (r: u32)
        ensures
            r == morton_of(*self),
    {
        let x = spread_bits_by_2(byte_of(self.x) as u32);
        let y = spread_bits_by_2(byte_of(self.y) as u32);
        let z = byte_of(self.z) as u32;
        proof {
            lemma_spread2_bound(byte(self.x as int));
            lemma_spread2_bound(byte(self.y as int));
            assert(byte(self.x as int) * byte(self.x as int) <= 255 * 255) by (nonlinear_arith)
                requires
                    byte(self.x as int) <= 255,
            ;
            assert(byte(self.y as int) * byte(self.y as int) <= 255 * 255) by (nonlinear_arith)
                requires
                    byte(self.y as int) <= 255,
            ;
        }
        x + 2 * y + 0x10000 * z
    }
}

/// The even and the odd bits of `v` below bit `2k`, spread back out,
/// give `v` modulo `4^k`.
#[verifier::spinoff_prover]
proof fn lemma_interleave(v: nat, k: nat)
    ensures
        spread2(compact2(v) % pow2(k)) + 2 * spread2(compact2(v / 2) % pow2(k)) == v % (pow2(k) * pow2(k)),
    decreases k,
{
    if k == 0 {
        vstd::arithmetic::power2::lemma2_to64();
        assert(v % 1 == 0);
        assert(compact2(v) % 1 == 0);
        assert(compact2(v / 2) % 1 == 0);
        assert(spread2(0) == 0);
    } else {
        let q = v / 4;
        let b0 = v % 2;
        let b1 = (v / 2) % 2;
        lemma_interleave(q, (k - 1) as nat);
        let p = pow2((k - 1) as nat);
        lemma_pow2_unfold(k);
        vstd::arithmetic::power2::lemma_pow2_pos((k - 1) as nat);
        assert(pow2(k) == 2 * p);
        assert(p * p > 0) by (nonlinear_arith)
            requires
                p > 0,
        ;
        assert(v == 4 * q + 2 * b1 + b0);
        // The even-bit stream of v is that of q with b0 below.
        let a = compact2(q);
        let b = compact2(q / 2);
        if v > 0 {
            assert(compact2(v) == a * 2 + b0);
        } else {
            assert(compact2(v) == 0);
            assert(a == 0);
        }
        if v / 2 > 0 {
            assert((v / 2) / 4 == q / 2);
            assert(compact2(v / 2) == b * 2 + b1);
        } else {
            assert(compact2(v / 2) == 0);
            assert(q == 0);
            assert(b == 0);
        }
        lemma_low_bit_mod(a, b0, p);
        lemma_low_bit_mod(b, b1, p);
        lemma_spread2_step(a % p, b0);
        lemma_spread2_step(b % p, b1);
        lemma_quad_mod(q, 2 * b1 + b0, p * p);
        assert(pow2(k) * pow2(k) == 4 * (p * p)) by (nonlinear_arith)
            requires
                pow2(k) == 2 * p,
        ;
    }
}

/// `(2m + b) mod 2p` keeps the low bit `b` below `m mod p`.
proof fn lemma_low_bit_mod(m: nat, b: nat, p: nat)
    requires
        b < 2,
        p > 0,
    ensures
        (2 * m + b) % (2 * p) == 2 * (m % p) + b,
{
    lemma_fundamental_div_mod(m as int, p as int);
    let t = m / p;
    let s = m % p;
    assert(2 * m + b == t * (2 * p) + (2 * s + b)) by (nonlinear_arith)
        requires
            m == p * t + s,
    ;
    lemma_fundamental_div_mod_converse((2 * m + b) as int, (2 * p) as int, (m / p) as int, (2 * (m % p) + b) as int);
}

/// `(4q + r) mod 4d` keeps the low digit `r` below `q mod d`.
proof fn lemma_quad_mod(q: nat, r: nat, d: nat)
    requires
        r < 4,
        d > 0,
    ensures
        (4 * q + r) % (4 * d) == 4 * (q % d) + r,
{
    lemma_fundamental_div_mod(q as int, d as int);
    let t = q / d;
    let s = q % d;
    assert(4 * q + r == t * (4 * d) + (4 * s + r)) by (nonlinear_arith)
        requires
            q == d * t + s,
    ;
    lemma_fundamental_div_mod_converse((4 * q + r) as int, (4 * d) as int, (q / d) as int, (4 * (q % d) + r) as int);
}

proof fn lemma_spread2_step(m: nat, b: nat)
    requires
        b < 2,
    ensures
        spread2(2 * m + b) == 4 * spread2(m) + b,
{
    if 2 * m + b == 0 {
        assert(m == 0);
    } else {
        assert((2 * m + b) / 2 == m);
        assert((2 * m + b) % 2 == b);
    }
}

/// Decoding a Morton code of at most 24 bits and encoding the result gives
/// the code back.
#[verifier::spinoff_prover]
pub proof fn lemma_morton_round_trip(code: nat)
    requires
        code < 0x100_0000,
    ensures
        morton_of(location_of(code)) == code,
{
    let loc = location_of(code);
    let cx = compact2(code) % 256;
    let cy = compact2(code / 2) % 256;
    let cz = (code / 0x10000) % 256;
    lemma_wrap8(cx as int);
    lemma_wrap8(cy as int);
    lemma_wrap8(cz as int);
    lemma_byte_of_wrap(cx);
    lemma_byte_of_wrap(cy);
    lemma_byte_of_wrap(cz);
    vstd::arithmetic::power2::lemma2_to64();
    lemma_interleave(code, 8);
    lemma_fundamental_div_mod(code as int, 0x10000);
    assert(code / 0x10000 < 256);
    lemma_fundamental_div_mod_converse((code / 0x10000) as int, 256, 0, (code / 0x10000) as int);
}

proof fn lemma_byte_of_wrap(c: nat)
    requires
        c < 256,
    ensures
        byte(wrap8(c as int) as i8 as int) == c,
{
    lemma_wrap8(c as int);
    let w = wrap8(c as int);
    if c >= 128 {
        lemma_fundamental_div_mod_converse(c as int, 256, 0, c as int);
        assert(w == c - 256);
        lemma_fundamental_div_mod_converse(w, 256, -1, c as int);
    } else {
        lemma_fundamental_div_mod_converse(c as int, 256, 0, c as int);
    }
}

} // verus!
