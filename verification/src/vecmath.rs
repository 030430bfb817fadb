//! Fixed-point 2D vectors for the flow field: integer square root and
//! normalization to a unit-or-zero vector at scale `FLOW_UNIT`.

use crate::coords::floor_div;
use vstd::arithmetic::div_mod::lemma_fundamental_div_mod;
use vstd::prelude::*;

verus! {

/// One unit of flow-vector magnitude: a normalized vector has squared
/// magnitude close to `FLOW_UNIT * FLOW_UNIT`.
pub const FLOW_UNIT: i64 = 1000;

/// Squared-magnitude tolerance band of a normalized vector.
pub const FLOW_MAG_SQ_MIN: i64 = 990000;

pub const FLOW_MAG_SQ_MAX: i64 = 1010000;

/// A flow direction in fixed-point units: either the zero vector ("no
/// guidance") or approximately `FLOW_UNIT` long.
#[derive(Debug, PartialEq, Eq, Structural, Clone, Copy, Default)]
pub struct FlowVector {
    pub x: i64,
    pub y: i64,
}

/// Squared magnitude, in exact integer arithmetic.
pub open spec fn mag_sq(v: FlowVector) -> int {
    v.x * v.x + v.y * v.y
}

/// The unit-or-zero property every stored flow vector satisfies.
pub open spec fn unit_or_zero(v: FlowVector) -> bool {
    ||| (v.x == 0 && v.y == 0)
    ||| (FLOW_MAG_SQ_MIN <= mag_sq(v) <= FLOW_MAG_SQ_MAX)
}

/// Integer square root, rounded down.
pub fn isqrt(n: u64) -> (r: u64)
    ensures
        r * r <= n < (r + 1) * (r + 1),
{
    let mut lo: u64 = 0;
    let mut hi: u64 = 4294967296;
    proof {
        assert(n < hi * hi) by (nonlinear_arith)
            requires
                hi == 4294967296,
                n <= 0xffff_ffff_ffff_ffff,
        ;
    }
    while lo + 1 < hi
        invariant
            lo < hi <= 4294967296,
            lo * lo <= n,
            n < hi * hi,
        decreases hi - lo,
    {
        let mid = lo + (hi - lo) / 2;
        proof {
            assert(lo < mid < hi);
            assert(mid * mid < 0x1_0000_0000_0000_0000) by (nonlinear_arith)
                requires
                    0 <= mid <= 4294967295,
            ;
        }
        if mid * mid <= n {
            lo = mid;
        } else {
            hi = mid;
        }
    }
    lo
}

/// Normalizes a vector to length `FLOW_UNIT` (zero stays zero): the input
/// is halved into a safe range, stretched until one component is large,
/// and divided by the integer length.
pub fn normalized_or_zero(v: FlowVector) -> (r: FlowVector)
    ensures
        (v.x == 0 && v.y == 0) ==> r == (FlowVector { x: 0, y: 0 }),
        unit_or_zero(r),
        !(v.x == 0 && v.y == 0) ==> FLOW_MAG_SQ_MIN <= mag_sq(r),
        r.x * v.x >= 0 && r.y * v.y >= 0,
        v.x == 0 ==> r.x == 0,
        v.y == 0 ==> r.y == 0,
        (-0x4000_0000 <= v.x <= 0x4000_0000 && -0x4000_0000 <= v.y <= 0x4000_0000) ==> -((
        if v.x >= 0 {
            v.x as int
        } else {
            -(v.x as int)
        }) + (if v.y >= 0 {
            v.y as int
        } else {
            -(v.y as int)
        })) <= r.x * v.y - r.y * v.x <= (if v.x >= 0 {
            v.x as int
        } else {
            -(v.x as int)
        }) + (if v.y >= 0 {
            v.y as int
        } else {
            -(v.y as int)
        }),
{
    if v.x == 0 && v.y == 0 {
        return FlowVector { x: 0, y: 0 };
    }
    let mut ax = v.x;
    let mut ay = v.y;
    // Shrink oversized inputs so their squares stay inside i64.
    while ax > 0x4000_0000 || ax < -0x4000_0000 || ay > 0x4000_0000 || ay < -0x4000_0000
        invariant
            !(ax == 0 && ay == 0),
            v.x >= 0 ==> ax >= 0,
            v.x <= 0 ==> ax <= 0,
            v.y >= 0 ==> ay >= 0,
            v.y <= 0 ==> ay <= 0,
            v.x == 0 ==> ax == 0,
            v.y == 0 ==> ay == 0,
            (-0x4000_0000 <= v.x <= 0x4000_0000 && -0x4000_0000 <= v.y <= 0x4000_0000) ==> ax
                == v.x && ay == v.y,
        decreases (if ax >= 0 {
            ax as int
        } else {
            -(ax as int)
        }) + (if ay >= 0 {
            ay as int
        } else {
            -(ay as int)
        }),
    {
        let nax = floor_div(ax, 2);
        let nay = floor_div(ay, 2);
        proof {
            lemma_fundamental_div_mod(ax as int, 2);
            lemma_fundamental_div_mod(ay as int, 2);
            assert(ax > 0x4000_0000 ==> 0x2000_0000 <= nax < ax);
            assert(ax < -0x4000_0000 ==> ax < nax <= -0x2000_0000);
            assert(ay > 0x4000_0000 ==> 0x2000_0000 <= nay < ay);
            assert(ay < -0x4000_0000 ==> ay < nay <= -0x2000_0000);
            assert(ax > 0 ==> 0 <= nax <= ax);
            assert(ax < 0 ==> ax <= nax <= 0);
            assert(ax == 0 ==> nax == 0);
            assert(ay > 0 ==> 0 <= nay <= ay);
            assert(ay < 0 ==> ay <= nay <= 0);
            assert(ay == 0 ==> nay == 0);
        }
        ax = nax;
        ay = nay;
    }
    // Stretch small inputs so the integer division below loses little.
    while -0x2000_0000 < ax && ax < 0x2000_0000 && -0x2000_0000 < ay && ay < 0x2000_0000
        invariant
            !(ax == 0 && ay == 0),
            -0x4000_0000 <= ax <= 0x4000_0000,
            -0x4000_0000 <= ay <= 0x4000_0000,
            v.x >= 0 ==> ax >= 0,
            v.x <= 0 ==> ax <= 0,
            v.y >= 0 ==> ay >= 0,
            v.y <= 0 ==> ay <= 0,
            v.x == 0 ==> ax == 0,
            v.y == 0 ==> ay == 0,
            (-0x4000_0000 <= v.x <= 0x4000_0000 && -0x4000_0000 <= v.y <= 0x4000_0000) ==> ax
                * v.y == ay * v.x,
        decreases 0x8000_0000 - (if ax >= 0 {
            ax as int
        } else {
            -(ax as int)
        }) - (if ay >= 0 {
            ay as int
        } else {
            -(ay as int)
        }),
    {
        let ghost pre_ax = ax as int;
        let ghost pre_ay = ay as int;
        ax = ax * 2;
        ay = ay * 2;
        proof {
            if -0x4000_0000 <= v.x <= 0x4000_0000 && -0x4000_0000 <= v.y <= 0x4000_0000 {
                assert(ax * v.y == ay * v.x) by (nonlinear_arith)
                    requires
                        pre_ax * v.y == pre_ay * v.x,
                        ax == 2 * pre_ax,
                        ay == 2 * pre_ay,
                ;
            }
        }
    }
    proof {
        assert(ax >= 0x2000_0000 || ax <= -0x2000_0000 || ay >= 0x2000_0000 || ay
            <= -0x2000_0000);
        assert(ax * ax + ay * ay <= 0x2000_0000_0000_0000 && ax * ax + ay * ay
            >= 0x400_0000_0000_0000 && 0 <= ax * ax && 0 <= ay * ay) by (nonlinear_arith)
            requires
                -0x4000_0000 <= ax <= 0x4000_0000,
                -0x4000_0000 <= ay <= 0x4000_0000,
                ax >= 0x2000_0000 || ax <= -0x2000_0000 || ay >= 0x2000_0000 || ay
                    <= -0x2000_0000,
        ;
    }
    let hsq: i64 = ax * ax + ay * ay;
    let m64 = isqrt(hsq as u64);
    proof {
        assert(m64 * m64 <= hsq);
        assert(0x2000_0000 <= m64 < 0x8000_0000) by (nonlinear_arith)
            requires
                m64 * m64 <= hsq as int,
                (hsq as int) < (m64 + 1) * (m64 + 1),
                0x400_0000_0000_0000 <= hsq as int,
                (hsq as int) <= 0x2000_0000_0000_0000,
                m64 >= 0,
        ;
    }
    let m: i64 = m64 as i64;
    let ux = ax * FLOW_UNIT;
    let uy = ay * FLOW_UNIT;
    let rx = floor_div(ux, m);
    let ry = floor_div(uy, m);
    proof {
        lemma_normalized_bounds(ax as int, ay as int, m as int, rx as int, ry as int);
        if -0x4000_0000 <= v.x <= 0x4000_0000 && -0x4000_0000 <= v.y <= 0x4000_0000 {
            lemma_normalized_colinear(
                ax as int,
                ay as int,
                m as int,
                rx as int,
                ry as int,
                v.x as int,
                v.y as int,
            );
        }
        assert(rx * v.x >= 0 && ry * v.y >= 0) by (nonlinear_arith)
            requires
                v.x >= 0 ==> ax >= 0,
                v.x <= 0 ==> ax <= 0,
                v.y >= 0 ==> ay >= 0,
                v.y <= 0 ==> ay <= 0,
                ax >= 0 ==> rx >= 0,
                ax <= 0 ==> rx <= 0,
                ay >= 0 ==> ry >= 0,
                ay <= 0 ==> ry <= 0,
        ;
    }
    FlowVector { x: rx, y: ry }
}

/// Core magnitude estimate: dividing a vector of integer length about `m`
/// by `m` (in `FLOW_UNIT` scale, rounding down) lands inside the
/// tolerance band, provided `m` is large.
proof fn lemma_normalized_bounds(ax: int, ay: int, m: int, rx: int, ry: int)
    requires
        -0x4000_0000 <= ax <= 0x4000_0000,
        -0x4000_0000 <= ay <= 0x4000_0000,
        0x2000_0000 <= m,
        m * m <= ax * ax + ay * ay < (m + 1) * (m + 1),
        rx == (ax * 1000) / m,
        ry == (ay * 1000) / m,
    ensures
        FLOW_MAG_SQ_MIN <= rx * rx + ry * ry <= FLOW_MAG_SQ_MAX,
        ax == 0 ==> rx == 0,
        ay == 0 ==> ry == 0,
        ax >= 0 ==> rx >= 0,
        ax <= 0 ==> rx <= 0,
        ay >= 0 ==> ry >= 0,
        ay <= 0 ==> ry <= 0,
{
    let ux = ax * 1000;
    let uy = ay * 1000;
    lemma_fundamental_div_mod(ux, m);
    lemma_fundamental_div_mod(uy, m);
    let sx = ux % m;
    let sy = uy % m;
    assert(ux == m * rx + sx && 0 <= sx < m);
    assert(uy == m * ry + sy && 0 <= sy < m);
    let px = if ux >= 0 { ux } else { -ux };
    let py = if uy >= 0 { uy } else { -uy };
    // |ax|, |ay| are at most m + 1 because their squares sum below
    // (m + 1)^2.
    assert(-(m + 1) <= ax <= m + 1 && -(m + 1) <= ay <= m + 1) by (nonlinear_arith)
        requires
            ax * ax + ay * ay < (m + 1) * (m + 1),
            0 <= m,
    ;
    assert(px <= 1000 * (m + 1) && py <= 1000 * (m + 1)) by (nonlinear_arith)
        requires
            -(m + 1) <= ax <= m + 1,
            -(m + 1) <= ay <= m + 1,
            ux == ax * 1000,
            uy == ay * 1000,
            px == (if ux >= 0 { ux } else { -ux }),
            py == (if uy >= 0 { uy } else { -uy }),
            0 <= m,
    ;
    // Sign of each output follows the dividend.
    assert(ux >= 0 ==> rx >= 0) by (nonlinear_arith)
        requires ux == m * rx + sx, 0 <= sx < m, 1 <= m,
    ;
    assert(ux <= 0 ==> rx <= 0) by (nonlinear_arith)
        requires ux == m * rx + sx, 0 <= sx < m, 1 <= m,
    ;
    assert(uy >= 0 ==> ry >= 0) by (nonlinear_arith)
        requires uy == m * ry + sy, 0 <= sy < m, 1 <= m,
    ;
    assert(uy <= 0 ==> ry <= 0) by (nonlinear_arith)
        requires uy == m * ry + sy, 0 <= sy < m, 1 <= m,
    ;
    assert(ax == 0 ==> rx == 0) by (nonlinear_arith)
        requires ux == ax * 1000, ux == m * rx + sx, 0 <= sx < m, 1 <= m,
    ;
    assert(ay == 0 ==> ry == 0) by (nonlinear_arith)
        requires uy == ay * 1000, uy == m * ry + sy, 0 <= sy < m, 1 <= m,
    ;
    // Per-component rounding bounds, scaled by m.
    assert((m * rx) * (m * rx) <= ux * ux + 2 * (px * m) + m * m) by (nonlinear_arith)
        requires
            ux == m * rx + sx,
            0 <= sx < m,
            px == (if ux >= 0 { ux } else { -ux }),
            1 <= m,
    ;
    assert((m * ry) * (m * ry) <= uy * uy + 2 * (py * m) + m * m) by (nonlinear_arith)
        requires
            uy == m * ry + sy,
            0 <= sy < m,
            py == (if uy >= 0 { uy } else { -uy }),
            1 <= m,
    ;
    assert((m * rx) * (m * rx) >= ux * ux - 2 * (px * m)) by (nonlinear_arith)
        requires
            ux == m * rx + sx,
            0 <= sx < m,
            px == (if ux >= 0 { ux } else { -ux }),
            1 <= m,
    ;
    assert((m * ry) * (m * ry) >= uy * uy - 2 * (py * m)) by (nonlinear_arith)
        requires
            uy == m * ry + sy,
            0 <= sy < m,
            py == (if uy >= 0 { uy } else { -uy }),
            1 <= m,
    ;
    // The exact scaled magnitude is pinned by m^2 <= ax^2 + ay^2 < (m+1)^2.
    assert(ux * ux + uy * uy >= 1000000 * (m * m) && ux * ux + uy * uy < 1000000 * ((m + 1) * (m
        + 1))) by (nonlinear_arith)
        requires
            ux == ax * 1000,
            uy == ay * 1000,
            m * m <= ax * ax + ay * ay < (m + 1) * (m + 1),
    ;
    assert(px * m <= 1000 * ((m + 1) * m) && py * m <= 1000 * ((m + 1) * m)) by (nonlinear_arith)
        requires
            0 <= px <= 1000 * (m + 1),
            0 <= py <= 1000 * (m + 1),
            1 <= m,
    ;
    // Combine: the scaled magnitude lies inside the scaled tolerance band.
    assert((m * rx) * (m * rx) + (m * ry) * (m * ry) <= 1010000 * (m * m)) by (nonlinear_arith)
        requires
            (m * rx) * (m * rx) + (m * ry) * (m * ry) <= 1000000 * ((m + 1) * (m + 1)) + 4 * (1000
                * ((m + 1) * m)) + 2 * (m * m),
            0x2000_0000 <= m,
    ;
    assert((m * rx) * (m * rx) + (m * ry) * (m * ry) >= 990000 * (m * m)) by (nonlinear_arith)
        requires
            (m * rx) * (m * rx) + (m * ry) * (m * ry) >= 1000000 * (m * m) - 4 * (1000 * ((m + 1)
                * m)),
            0x2000_0000 <= m,
    ;
    // Divide the scale back out.
    assert(FLOW_MAG_SQ_MIN <= rx * rx + ry * ry <= FLOW_MAG_SQ_MAX) by (nonlinear_arith)
        requires
            990000 * (m * m) <= (m * rx) * (m * rx) + (m * ry) * (m * ry) <= 1010000 * (m * m),
            1 <= m,
            FLOW_MAG_SQ_MIN == 990000,
            FLOW_MAG_SQ_MAX == 1010000,
    ;
}

/// Dividing a vector colinear with `(vx, vy)` by its length keeps it
/// colinear up to the rounding remainders: the cross product of the
/// result with the input is at most the input's coordinate sum in
/// magnitude -- a vanishing angular error at the output scale.
proof fn lemma_normalized_colinear(ax: int, ay: int, m: int, rx: int, ry: int, vx: int, vy: int)
    requires
        1 <= m,
        rx == (ax * 1000) / m,
        ry == (ay * 1000) / m,
        ax * vy == ay * vx,
    ensures
        -((if vx >= 0 {
            vx
        } else {
            -vx
        }) + (if vy >= 0 {
            vy
        } else {
            -vy
        })) <= rx * vy - ry * vx <= (if vx >= 0 {
            vx
        } else {
            -vx
        }) + (if vy >= 0 {
            vy
        } else {
            -vy
        }),
{
    let ux = ax * 1000;
    let uy = ay * 1000;
    lemma_fundamental_div_mod(ux, m);
    lemma_fundamental_div_mod(uy, m);
    let sx = ux % m;
    let sy = uy % m;
    let pabs = (if vx >= 0 {
        vx
    } else {
        -vx
    }) + (if vy >= 0 {
        vy
    } else {
        -vy
    });
    assert(m * (rx * vy - ry * vx) == sy * vx - sx * vy) by (nonlinear_arith)
        requires
            ux == m * rx + sx,
            uy == m * ry + sy,
            ax * vy == ay * vx,
            ux == ax * 1000,
            uy == ay * 1000,
    ;
    assert(-pabs <= rx * vy - ry * vx <= pabs) by (nonlinear_arith)
        requires
            m * (rx * vy - ry * vx) == sy * vx - sx * vy,
            0 <= sx < m,
            0 <= sy < m,
            1 <= m,
            pabs == (if vx >= 0 {
                vx
            } else {
                -vx
            }) + (if vy >= 0 {
                vy
            } else {
                -vy
            }),
    ;
}

} // verus!
