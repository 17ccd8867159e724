use vstd::prelude::*;
use vstd::arithmetic::power2::{
    pow2, lemma2_to64, lemma_pow2_unfold, lemma_pow2_pos, lemma_pow2_strictly_increases,
};
use vstd::arithmetic::div_mod::{
    lemma_mod_breakdown, lemma_div_denominator, lemma_fundamental_div_mod_converse,
    lemma_fundamental_div_mod, lemma_div_pos_is_pos, lemma_hoist_over_denominator,
    lemma_mod_multiples_vanish, lemma_mod_pos_bound, lemma_small_mod,
};
use vstd::arithmetic::mul::{lemma_mul_is_associative, lemma_mul_strictly_positive};

verus! {

/// The side length of the grid that the curve covers: 2^16.
pub const N: u32 = 0x1_0000;

/// Rotates or flips a quadrant of side `n` so that the curve inside it has
/// the right orientation.
pub open spec fn rot_spec(n: int, rx: int, ry: int, x: int, y: int) -> (int, int) {
    if ry == 0 {
        if rx == 1 {
            (n - 1 - y, n - 1 - x)
        } else {
            (y, x)
        }
    } else {
        (x, y)
    }
}

/// The order in which the curve visits quadrant (`rx`, `ry`): 0, 1, 2, 3 for
/// lower-left, upper-left, upper-right, lower-right.
pub open spec fn quadrant_order(rx: int, ry: int) -> int {
    if rx == 0 {
        ry
    } else {
        3 - ry
    }
}

/// The x half of the quadrant visited in position `q`.
pub open spec fn quadrant_rx(q: int) -> int {
    if q >= 2 {
        1
    } else {
        0
    }
}

/// The y half of the quadrant visited in position `q`.
pub open spec fn quadrant_ry(q: int) -> int {
    if q == 1 || q == 2 {
        1
    } else {
        0
    }
}

/// The point that a curve of side 2^k visits at index `d` (only the low `2k`
/// bits of `d` count).  The curve of side 2^k visits the four quadrants of
/// side 2^(k-1) in turn, each traversed by a rotated copy of the smaller
/// curve.
pub open spec fn d2xy_spec(k: nat, d: nat) -> (int, int)
    decreases k,
{
    if k == 0 {
        (0, 0)
    } else {
        let s = pow2((k - 1) as nat) as int;
        let inner = d2xy_spec((k - 1) as nat, d);
        let q = ((d as int) / (s * s)) % 4;
        let rx = quadrant_rx(q);
        let ry = quadrant_ry(q);
        let r = rot_spec(s, rx, ry, inner.0, inner.1);
        (r.0 + s * rx, r.1 + s * ry)
    }
}

/// The index at which a curve of side 2^k visits the point (`x`, `y`), for
/// points inside the curve's square.
pub open spec fn xy2d_spec(k: nat, x: int, y: int) -> int
    decreases k,
{
    if k == 0 {
        0
    } else {
        let s = pow2((k - 1) as nat) as int;
        let rx = x / s;
        let ry = y / s;
        let r = rot_spec(s, rx, ry, x % s, y % s);
        s * s * quadrant_order(rx, ry) + xy2d_spec((k - 1) as nat, r.0, r.1)
    }
}

/// Rotates/flips the point (`x`, `y`) inside a quadrant of side `n`.
pub fn hil_rot(n: u32, rx: u32, ry: u32, x: &mut u32, y: &mut u32)
    requires
        0 < n,
        *old(x) < n,
        *old(y) < n,
    ensures
        (*final(x) as int, *final(y) as int) == rot_spec(
            n as int,
            rx as int,
            ry as int,
            *old(x) as int,
            *old(y) as int,
        ),
{
    if ry == 0 {
        if rx == 1 {
            *x = (n - 1) - *x;
            *y = (n - 1) - *y;
        }
        let t = *x;
        *x = *y;
        *y = t;
    }
}

proof fn lemma_level_bits(x: u32, s: u32, j: u32)
    by (bit_vector)
    requires
        j < 16,
        s == 1u32 << j,
        x < 2 * s,
    ensures
        ((x & s) > 0) == (x / s == 1),
        x & ((s - 1) as u32) == x % s,
        x / s <= 1,
{
}

proof fn lemma_digit_bits(t: u32)
    by (bit_vector)
    ensures
        (1u32 & (t >> 1u32)) == (if t % 4 >= 2 {
            1u32
        } else {
            0u32
        }),
        (1u32 & (t ^ (1u32 & (t >> 1u32)))) == (if t % 4 == 1 || t % 4 == 2 {
            1u32
        } else {
            0u32
        }),
        t >> 2u32 == t / 4,
        (0u32 ^ 0u32) == 0u32,
        (0u32 ^ 1u32) == 1u32,
        (3u32 ^ 1u32) == 2u32,
        (3u32 ^ 0u32) == 3u32,
{
}

proof fn lemma_shift_halves(v: u32)
    by (bit_vector)
    ensures
        v >> 1u32 == v / 2,
        v < 0x8000_0000 ==> v << 1u32 == 2 * v,
{
}

proof fn lemma_pow2_shift(j: nat)
    requires
        j < 16,
    ensures
        pow2(j) == (1u32 << (j as u32)),
        pow2(j + 1) == 2 * pow2(j),
        pow2(j) > 0,
        pow2(0) == 1,
    decreases j,
{
    lemma2_to64();
    lemma_pow2_unfold(j + 1);
    if j == 0 {
        assert(1u32 << 0u32 == 1) by (bit_vector);
    } else {
        lemma_pow2_shift((j - 1) as nat);
        let i = (j - 1) as u32;
        assert(i < 15 ==> (1u32 << ((i + 1) as u32)) == 2 * (1u32 << i)) by (bit_vector);
    }
}

/// Convert (x, y) to its index along the Hilbert curve that fills the
/// 2^16 by 2^16 grid.
///
/// Both coordinates must be below 2^16.
pub fn xy2d(x: u32, y: u32) -> (d: u32)
    requires
        x < N,
        y < N,
    ensures
        d == xy2d_spec(16, x as int, y as int),
{
    let ghost x0 = x as int;
    let ghost y0 = y as int;
    let (mut x, mut y) = (x, y);
    let mut d: u32 = 0;
    let mut s: u32 = N / 2;
    let ghost mut lvl: nat = 16;
    proof {
        lemma2_to64();
    }
    while s > 0
        invariant
            lvl <= 16,
            lvl > 0 ==> s as int == pow2((lvl - 1) as nat),
            lvl == 0 ==> s == 0,
            (x as int) < pow2(lvl),
            (y as int) < pow2(lvl),
            d as int + pow2(lvl) * pow2(lvl) <= 0x1_0000_0000,
            d as int + xy2d_spec(lvl, x as int, y as int) == xy2d_spec(16, x0, y0),
        decreases lvl,
    {
        let ghost j: nat = (lvl - 1) as nat;
        proof {
            lemma_pow2_shift(j);
            lemma_level_bits(x, s, j as u32);
            lemma_level_bits(y, s, j as u32);
        }
        let rx: u32 = if (x & s) > 0 {
            1
        } else {
            0
        };
        let ry: u32 = if (y & s) > 0 {
            1
        } else {
            0
        };
        proof {
            lemma_digit_bits(0);
        }
        let code: u32 = (3 * rx) ^ ry;
        proof {
            assert(code as int == quadrant_order(rx as int, ry as int));
            assert(s as int * s as int * 4 == pow2(lvl) * pow2(lvl)) by (nonlinear_arith)
                requires
                    pow2(lvl) == 2 * s,
            ;
            assert(s as int * s as int * code as int <= s as int * s as int * 3)
                by (nonlinear_arith)
                requires
                    code <= 3,
            ;
        }
        d = d + s * s * code;
        x = x & (s - 1);
        y = y & (s - 1);
        hil_rot(s, rx, ry, &mut x, &mut y);
        proof {
            lemma_shift_halves(s);
            if j > 0 {
                lemma_pow2_shift((j - 1) as nat);
            }
        }
        s = s >> 1u32;
        proof {
            lvl = j;
        }
    }
    d
}

/// Convert an index along the Hilbert curve to its (x, y) coordinates on the
/// 2^16 by 2^16 grid.
pub fn d2xy(d: u32) -> (p: (u32, u32))
    ensures
        (p.0 as int, p.1 as int) == d2xy_spec(16, d as nat),
        p.0 < N,
        p.1 < N,
{
    let (mut x, mut y): (u32, u32) = (0, 0);
    let mut s: u32 = 1;
    let mut t: u32 = d;
    let ghost mut i: nat = 0;
    proof {
        lemma2_to64();
    }
    while s < N
        invariant
            i <= 16,
            s as int == pow2(i),
            t as int == (d as int) / (s as int * s as int),
            (x as int, y as int) == d2xy_spec(i, d as nat),
            x < s,
            y < s,
        decreases 16 - i,
    {
        proof {
            lemma2_to64();
            assert(i < 16);
            lemma_pow2_shift(i);
            lemma_digit_bits(t);
        }
        proof {
            lemma_shift_halves(s);
        }
        let rx = 1 & (t >> 1u32);
        let ry = 1 & (t ^ rx);
        hil_rot(s, rx, ry, &mut x, &mut y);
        proof {
            assert(s * rx <= s && s * ry <= s) by (nonlinear_arith)
                requires
                    rx <= 1,
                    ry <= 1,
            ;
        }
        x = x + s * rx;
        y = y + s * ry;
        t = t >> 2u32;
        s = s << 1u32;
        proof {
            lemma_pow2_shift(i);
            lemma_mul_strictly_positive(pow2(i) as int, pow2(i) as int);
            lemma_div_denominator(d as int, (pow2(i) * pow2(i)) as int, 4);
            assert(pow2(i) * pow2(i) * 4 == pow2(i + 1) * pow2(i + 1)) by (nonlinear_arith)
                requires
                    pow2(i + 1) == 2 * pow2(i),
            ;
            i = i + 1;
        }
    }
    (x, y)
}

/// The point at any index lies inside the square of side `2^k`.
pub proof fn lemma_d2xy_bounds(k: nat, d: nat)
    ensures
        0 <= d2xy_spec(k, d).0 < pow2(k),
        0 <= d2xy_spec(k, d).1 < pow2(k),
    decreases k,
{
    if k == 0 {
        lemma2_to64();
    } else {
        lemma_d2xy_bounds((k - 1) as nat, d);
        lemma_pow2_unfold(k);
        lemma_pow2_pos((k - 1) as nat);
        let s = pow2((k - 1) as nat) as int;
        lemma_mul_strictly_positive(s, s);
    }
}

/// Walking the curve and then asking where on it the reached point lies
/// gives back the index one started from: `xy2d_spec` inverts `d2xy_spec`
/// on the `2k` low bits of the index.
pub proof fn law_xy2d_inverts_d2xy(k: nat, d: nat)
    ensures
        ({
            let p = d2xy_spec(k, d);
            xy2d_spec(k, p.0, p.1)
        }) == d % (pow2(k) * pow2(k)),
    decreases k,
{
    lemma_pow2_pos(k);
    lemma_mul_strictly_positive(pow2(k) as int, pow2(k) as int);
    if k == 0 {
        lemma2_to64();
        assert(pow2(0) * pow2(0) == 1) by (nonlinear_arith)
            requires
                pow2(0) == 1,
        ;
        assert(d % 1 == 0);
    } else {
        let s = pow2((k - 1) as nat) as int;
        lemma_pow2_unfold(k);
        lemma_pow2_pos((k - 1) as nat);
        lemma_mul_strictly_positive(s, s);
        let inner = d2xy_spec((k - 1) as nat, d);
        lemma_d2xy_bounds((k - 1) as nat, d);
        let q = ((d as int) / (s * s)) % 4;
        let rx = quadrant_rx(q);
        let ry = quadrant_ry(q);
        let r = rot_spec(s, rx, ry, inner.0, inner.1);
        assert(0 <= r.0 < s && 0 <= r.1 < s);
        let p = (r.0 + s * rx, r.1 + s * ry);
        assert(p == d2xy_spec(k, d));
        assert(p.0 == rx * s + r.0 && p.1 == ry * s + r.1) by (nonlinear_arith)
            requires
                p == (r.0 + s * rx, r.1 + s * ry),
        ;
        lemma_fundamental_div_mod_converse(p.0, s, rx, r.0);
        lemma_fundamental_div_mod_converse(p.1, s, ry, r.1);
        assert(p.0 / s == rx && p.0 % s == r.0);
        assert(p.1 / s == ry && p.1 % s == r.1);
        assert(rot_spec(s, rx, ry, r.0, r.1) == inner);
        assert(quadrant_order(rx, ry) == q);
        law_xy2d_inverts_d2xy((k - 1) as nat, d);
        assert(xy2d_spec((k - 1) as nat, inner.0, inner.1) == (d as int) % (s * s));
        assert(xy2d_spec(k, p.0, p.1) == s * s * q + (d as int) % (s * s));
        lemma_mod_breakdown(d as int, s * s, 4);
        assert(pow2(k) * pow2(k) == s * s * 4) by (nonlinear_arith)
            requires
                pow2(k) == 2 * s,
        ;
        assert((d as int) % (s * s * 4) == s * s * q + (d as int) % (s * s));
        assert(d % (pow2(k) * pow2(k)) == (d as int) % (s * s * 4));
    }
}

/// Converting an index to coordinates and back gives the index again, for
/// every 32-bit index.
pub proof fn law_reversible(d: u32)
    ensures
        ({
            let p = d2xy_spec(16, d as nat);
            xy2d_spec(16, p.0, p.1)
        }) == d as int,
{
    law_xy2d_inverts_d2xy(16, d as nat);
    lemma2_to64();
    assert(pow2(16) * pow2(16) == 0x1_0000_0000) by (nonlinear_arith)
        requires
            pow2(16) == 0x10000,
    ;
}

/// Where a point lies relative to the quadrants of a square of side `2s`:
/// which half it is in along an axis, and where inside that half.
proof fn lemma_halves(x: int, s: int)
    requires
        s > 0,
        0 <= x < 2 * s,
    ensures
        0 <= x / s <= 1,
        0 <= x % s < s,
        x == s * (x / s) + x % s,
{
    lemma_fundamental_div_mod(x, s);
    lemma_div_pos_is_pos(x, s);
    assert(x / s <= 1) by (nonlinear_arith)
        requires
            x == s * (x / s) + x % s,
            0 <= x % s,
            x < 2 * s,
            s > 0,
    ;
}

/// Rotating a quadrant twice the same way gives it back.
proof fn lemma_rot_involution(s: int, rx: int, ry: int, a: int, b: int)
    ensures
        ({
            let r = rot_spec(s, rx, ry, a, b);
            rot_spec(s, rx, ry, r.0, r.1)
        }) == (a, b),
{
}

/// The index of a point inside the square of side `2^k` lies below
/// `4^k`.
proof fn lemma_xy2d_bounds(k: nat, x: int, y: int)
    requires
        0 <= x < pow2(k),
        0 <= y < pow2(k),
    ensures
        0 <= xy2d_spec(k, x, y) < pow2(k) * pow2(k),
    decreases k,
{
    lemma_pow2_pos(k);
    lemma_mul_strictly_positive(pow2(k) as int, pow2(k) as int);
    if k > 0 {
        let s = pow2((k - 1) as nat) as int;
        lemma_pow2_unfold(k);
        lemma_pow2_pos((k - 1) as nat);
        lemma_halves(x, s);
        lemma_halves(y, s);
        let rx = x / s;
        let ry = y / s;
        let r = rot_spec(s, rx, ry, x % s, y % s);
        assert(0 <= r.0 < s && 0 <= r.1 < s);
        lemma_xy2d_bounds((k - 1) as nat, r.0, r.1);
        let e = xy2d_spec((k - 1) as nat, r.0, r.1);
        let q = quadrant_order(rx, ry);
        assert(0 <= q <= 3);
        assert(0 <= s * s * q + e < pow2(k) * pow2(k)) by (nonlinear_arith)
            requires
                0 <= q <= 3,
                0 <= e < s * s,
                pow2(k) == 2 * s,
                s > 0,
        ;
    }
}

/// The point at an index depends only on the index's `2k` low bits.
proof fn lemma_d2xy_shift(k: nat, m: nat, e: nat)
    ensures
        d2xy_spec(k, m * (pow2(k) * pow2(k)) + e) == d2xy_spec(k, e),
    decreases k,
{
    if k > 0 {
        let s = pow2((k - 1) as nat) as int;
        lemma_pow2_unfold(k);
        lemma_pow2_pos((k - 1) as nat);
        lemma_mul_strictly_positive(s, s);
        let d = m * (pow2(k) * pow2(k)) + e;
        assert(d == (4 * m) * (s * s) + e) by (nonlinear_arith)
            requires
                d == m * (pow2(k) * pow2(k)) + e,
                pow2(k) == 2 * s,
        ;
        assert(pow2((k - 1) as nat) * pow2((k - 1) as nat) == s * s);
        lemma_d2xy_shift((k - 1) as nat, 4 * m, e);
        lemma_hoist_over_denominator(e as int, (4 * m) as int, (s * s) as nat);
        assert((d as int) / (s * s) == (e as int) / (s * s) + 4 * m);
        lemma_mod_multiples_vanish(m as int, (e as int) / (s * s), 4);
        assert(((d as int) / (s * s)) % 4 == ((e as int) / (s * s)) % 4);
    }
}

/// Asking where on the curve a point lies and then walking the curve to
/// that index gives back the point, for every point of the square of side
/// `2^k`.
pub proof fn law_d2xy_inverts_xy2d(k: nat, x: int, y: int)
    requires
        0 <= x < pow2(k),
        0 <= y < pow2(k),
    ensures
        d2xy_spec(k, xy2d_spec(k, x, y) as nat) == (x, y),
    decreases k,
{
    lemma_pow2_pos(k);
    lemma_xy2d_bounds(k, x, y);
    if k == 0 {
        lemma2_to64();
    } else {
        let s = pow2((k - 1) as nat) as int;
        lemma_pow2_unfold(k);
        lemma_pow2_pos((k - 1) as nat);
        lemma_mul_strictly_positive(s, s);
        lemma_halves(x, s);
        lemma_halves(y, s);
        let rx = x / s;
        let ry = y / s;
        let r = rot_spec(s, rx, ry, x % s, y % s);
        assert(0 <= r.0 < s && 0 <= r.1 < s);
        let q = quadrant_order(rx, ry);
        lemma_xy2d_bounds((k - 1) as nat, r.0, r.1);
        let e = xy2d_spec((k - 1) as nat, r.0, r.1);
        let d = xy2d_spec(k, x, y);
        assert(d == s * s * q + e);
        assert(pow2((k - 1) as nat) * pow2((k - 1) as nat) == s * s);
        assert(d == q * (s * s) + e) by (nonlinear_arith)
            requires
                d == s * s * q + e,
        ;
        // The index lands in quadrant `q`, at the inner index `e`.
        lemma_d2xy_shift((k - 1) as nat, q as nat, e as nat);
        law_d2xy_inverts_xy2d((k - 1) as nat, r.0, r.1);
        assert(d2xy_spec((k - 1) as nat, d as nat) == (r.0, r.1));
        lemma_fundamental_div_mod_converse(d, s * s, q, e);
        assert((d / (s * s)) % 4 == q);
        assert(quadrant_rx(q) == rx && quadrant_ry(q) == ry);
        lemma_rot_involution(s, rx, ry, x % s, y % s);
        let p = d2xy_spec(k, d as nat);
        assert(p == (x % s + s * rx, y % s + s * ry));
    }
}

/// Converting coordinates to an index and back gives the coordinates
/// again, for every point of the 2^16 by 2^16 grid.
pub proof fn law_reversible_xy(x: u32, y: u32)
    requires
        x < N,
        y < N,
    ensures
        d2xy_spec(16, xy2d_spec(16, x as int, y as int) as nat) == (x as int, y as int),
{
    lemma2_to64();
    law_d2xy_inverts_xy2d(16, x as int, y as int);
}

/// A point inside the square of side `2^j` has an index below `4^j` on
/// every larger curve.
pub proof fn lemma_xy2d_small(k: nat, j: nat, x: int, y: int)
    requires
        j <= k,
        0 <= x < pow2(j),
        0 <= y < pow2(j),
    ensures
        0 <= xy2d_spec(k, x, y) < pow2(j) * pow2(j),
    decreases k,
{
    if k == j {
        lemma_xy2d_bounds(k, x, y);
    } else {
        let s = pow2((k - 1) as nat) as int;
        lemma_pow2_pos((k - 1) as nat);
        if j < (k - 1) as nat {
            lemma_pow2_strictly_increases(j, (k - 1) as nat);
        }
        assert(x < s && y < s);
        lemma_fundamental_div_mod_converse(x, s, 0, x);
        lemma_fundamental_div_mod_converse(y, s, 0, y);
        assert(x / s == 0 && x % s == x && y / s == 0 && y % s == y);
        lemma_xy2d_small((k - 1) as nat, j, y, x);
        assert(xy2d_spec(k, x, y) == xy2d_spec((k - 1) as nat, y, x));
    }
}

/// Points `p` and `r` are neighbouring cells of the grid: they share an
/// edge.
pub open spec fn adjacent(p: (int, int), r: (int, int)) -> bool {
    (if p.0 >= r.0 {
        p.0 - r.0
    } else {
        r.0 - p.0
    }) + (if p.1 >= r.1 {
        p.1 - r.1
    } else {
        r.1 - p.1
    }) == 1
}

/// Rotating or flipping two neighbouring cells of a quadrant leaves them
/// neighbours.
proof fn lemma_rot_adjacent(n: int, rx: int, ry: int, p: (int, int), r: (int, int))
    requires
        adjacent(p, r),
    ensures
        adjacent(rot_spec(n, rx, ry, p.0, p.1), rot_spec(n, rx, ry, r.0, r.1)),
{
}

/// The quadrant and the place in it of index `d`, for quadrants of `m`
/// cells: `d % (4m)` is `m` times the quadrant plus the place.
proof fn lemma_split_index(d: int, m: int)
    requires
        0 <= d,
        0 < m,
    ensures
        d % (m * 4) == m * ((d / m) % 4) + d % m,
        0 <= d % m < m,
        0 <= (d / m) % 4 < 4,
        d == m * (d / m) + d % m,
{
    lemma_mod_breakdown(d, m, 4);
    lemma_mod_pos_bound(d, m);
    lemma_div_pos_is_pos(d, m);
    lemma_mod_pos_bound(d / m, 4);
    lemma_fundamental_div_mod(d, m);
}

/// The number of cells of the square of side `2^k`.
pub open spec fn cells(k: nat) -> int {
    (pow2(k) * pow2(k)) as int
}

/// The curve of side `2^k` starts at the origin and ends at the last cell
/// of the bottom row.
pub proof fn lemma_d2xy_ends(k: nat, d: nat)
    ensures
        (d as int) % cells(k) == 0 ==> d2xy_spec(k, d) == (0int, 0int),
        (d as int) % cells(k) == cells(k) - 1 ==> d2xy_spec(k, d) == (
            pow2(k) - 1,
            0int,
        ),
    decreases k,
{
    if k == 0 {
        lemma2_to64();
    } else {
        let s = pow2((k - 1) as nat) as int;
        let m = s * s;
        lemma_pow2_unfold(k);
        lemma_pow2_pos((k - 1) as nat);
        lemma_mul_strictly_positive(s, s);
        assert(cells(k) == m * 4) by (nonlinear_arith)
            requires
                pow2(k) == 2 * s,
                m == s * s,
                cells(k) == pow2(k) * pow2(k),
        ;
        lemma_split_index(d as int, m);
        lemma_d2xy_ends((k - 1) as nat, d);
        let q = ((d as int) / m) % 4;
        let r = (d as int) % m;
        if (d as int) % cells(k) == 0 {
            if q == 0 {
            } else if q == 1 {
            } else if q == 2 {
            } else {
            }
            assert(q == 0 && r == 0);
        }
        if (d as int) % cells(k) == cells(k) - 1 {
            if q == 0 {
            } else if q == 1 {
            } else if q == 2 {
            } else {
            }
            assert(q == 3 && r == m - 1);
        }
    }
}

/// Within the curve of side `2^k`, each index and the next visit
/// neighbouring cells.
pub proof fn lemma_d2xy_adjacent(k: nat, d: nat)
    requires
        (d as int) % cells(k) < cells(k) - 1,
    ensures
        adjacent(d2xy_spec(k, d), d2xy_spec(k, d + 1)),
    decreases k,
{
    if k == 0 {
        lemma2_to64();
        assert(cells(0) == 1);
        assert((d as int) % 1 == 0);
    } else {
        let s = pow2((k - 1) as nat) as int;
        let m = s * s;
        lemma_pow2_unfold(k);
        lemma_pow2_pos((k - 1) as nat);
        lemma_mul_strictly_positive(s, s);
        assert(cells(k) == m * 4) by (nonlinear_arith)
            requires
                pow2(k) == 2 * s,
                m == s * s,
                cells(k) == pow2(k) * pow2(k),
        ;
        lemma_split_index(d as int, m);
        lemma_split_index(d + 1int, m);
        let a = (d as int) / m;
        let q = a % 4;
        let r = (d as int) % m;
        let inner = d2xy_spec((k - 1) as nat, d);
        let inner1 = d2xy_spec((k - 1) as nat, (d + 1) as nat);
        if r < m - 1 {
            lemma_fundamental_div_mod_converse(d + 1int, m, a, r + 1);
            assert(((d + 1) as int) / m == a);
            lemma_d2xy_adjacent((k - 1) as nat, d);
            lemma_rot_adjacent(s, quadrant_rx(q), quadrant_ry(q), inner, inner1);
        } else {
            if q == 3 {
                assert(m * q == m * 3);
            }
            assert(q < 3);
            assert(m * (a + 1) == m * a + m) by (nonlinear_arith);
            lemma_fundamental_div_mod_converse(d + 1int, m, a + 1, 0);
            lemma_fundamental_div_mod_converse(a, 4, a / 4, q);
            lemma_fundamental_div_mod(a, 4);
            lemma_fundamental_div_mod_converse(a + 1, 4, a / 4, q + 1);
            assert(((d + 1) as int) / m % 4 == q + 1);
            lemma_d2xy_ends((k - 1) as nat, d);
            lemma_d2xy_ends((k - 1) as nat, (d + 1) as nat);
            assert(inner == (s - 1, 0int));
            assert(inner1 == (0int, 0int));
        }
    }
}

/// Consecutive indices of the curve visit neighbouring cells of the grid,
/// for every 32-bit index but the last.
pub proof fn law_neighbours_adjacent(d: u32)
    requires
        d < u32::MAX,
    ensures
        adjacent(d2xy_spec(16, d as nat), d2xy_spec(16, (d + 1) as nat)),
{
    lemma2_to64();
    assert(pow2(16) * pow2(16) == 0x1_0000_0000) by (nonlinear_arith)
        requires
            pow2(16) == 0x10000,
    ;
    assert(cells(16) == 0x1_0000_0000);
    lemma_small_mod(d as nat, 0x1_0000_0000);
    lemma_d2xy_adjacent(16, d as nat);
}

} // verus!
