use vstd::arithmetic::power::pow;
use vstd::arithmetic::power2::pow2;
use vstd::prelude::*;

use crate::error::PMTilesError;

verus! {

/// The binary digit of `v` at weight `s` (`s` a power of two), read off the
/// Euclidean quotient so that negative intermediates carry their two's
/// complement digits.
pub open spec fn bit_of(v: int, s: int) -> int {
    (v / s) % 2
}

/// One step of the Hilbert rotation on a sub-square of side `s`: where the
/// walk leaves through a lower quadrant, reflect if needed, then transpose.
pub open spec fn rot(s: int, x: int, y: int, rx: int, ry: int) -> (int, int) {
    if ry == 0 {
        if rx == 1 {
            (s - 1 - y, s - 1 - x)
        } else {
            (y, x)
        }
    } else {
        (x, y)
    }
}

/// The quadrant code at one level: what `(3 * rx) XOR ry` computes on one-bit
/// values.
pub open spec fn hcode(rx: int, ry: int) -> int {
    if rx == 0 {
        if ry == 0 {
            0
        } else {
            1
        }
    } else {
        if ry == 1 {
            2
        } else {
            3
        }
    }
}

/// The Hilbert index of (x, y) on a grid of side 2^k, by the standard
/// top-down walk. Intermediate coordinates may leave the grid; only their
/// residues matter.
pub open spec fn hilbert_d(k: nat, x: int, y: int) -> int
    decreases k,
{
    if k == 0 {
        0
    } else {
        let s = pow2((k - 1) as nat) as int;
        let rx = bit_of(x, s);
        let ry = bit_of(y, s);
        let r = rot(s, x, y, rx, ry);
        hcode(rx, ry) * (s * s) + hilbert_d((k - 1) as nat, r.0, r.1)
    }
}

/// The point of the Hilbert walk at index `d` on a grid of side 2^k, built
/// low level first.
pub open spec fn hilbert_xy(k: nat, d: int) -> (int, int)
    decreases k,
{
    if k == 0 {
        (0, 0)
    } else {
        let s = pow2((k - 1) as nat) as int;
        let c = (d / (s * s)) % 4;
        let inner = hilbert_xy((k - 1) as nat, d % (s * s));
        let rx = c / 2;
        let ry: int = if c == 1 || c == 2 {
            1
        } else {
            0
        };
        let r = rot(s, inner.0, inner.1, rx, ry);
        (r.0 + s * rx, r.1 + s * ry)
    }
}

/// How many tiles all zoom levels below `z` hold together.
pub open spec fn tiles_per_level_spec(z: nat) -> int
    decreases z,
{
    if z == 0 {
        0
    } else {
        4 * tiles_per_level_spec((z - 1) as nat) + 1
    }
}

/// The cumulative tile count below zoom `z` is (4^z - 1) / 3.
pub proof fn lemma_tiles_per_level_identity(z: nat)
    ensures
        3 * tiles_per_level_spec(z) + 1 == pow(4, z),
        tiles_per_level_spec(z) == (pow(4, z) - 1) / 3,
    decreases z,
{
    if z == 0 {
        vstd::arithmetic::power::lemma_pow0(4);
    } else {
        lemma_tiles_per_level_identity((z - 1) as nat);
        assert(pow(4, z) == 4 * pow(4, (z - 1) as nat)) by {
            reveal(pow);
        }
    }
    let t = tiles_per_level_spec(z);
    assert((3 * t) / 3 == t) by {
        vstd::arithmetic::div_mod::lemma_div_multiples_vanish(t, 3);
    }
    assert(pow(4, z) - 1 == 3 * t);
}

/// Hilbert indices stay on the grid: 0 <= d < 4^k.
proof fn lemma_hilbert_d_bounds(k: nat, x: int, y: int)
    ensures
        0 <= hilbert_d(k, x, y) < pow2(k) * pow2(k),
    decreases k,
{
    if k == 0 {
        assert(pow2(0) == 1) by {
            vstd::arithmetic::power2::lemma_pow2_unfold(1);
            vstd::arithmetic::power::lemma_pow0(2);
        }
    } else {
        let s = pow2((k - 1) as nat) as int;
        assert(s >= 1) by {
            vstd::arithmetic::power2::lemma_pow2_pos((k - 1) as nat);
        }
        let rx = bit_of(x, s);
        let ry = bit_of(y, s);
        let r = rot(s, x, y, rx, ry);
        lemma_hilbert_d_bounds((k - 1) as nat, r.0, r.1);
        assert(0 <= hcode(rx, ry) <= 3);
        assert(pow2(k) == 2 * s) by {
            vstd::arithmetic::power2::lemma_pow2_unfold(k);
        }
        assert(hcode(rx, ry) * (s * s) <= 3 * (s * s)) by (nonlinear_arith)
            requires
                0 <= hcode(rx, ry) <= 3,
                s >= 1,
        ;
        assert(hcode(rx, ry) * (s * s) >= 0) by (nonlinear_arith)
            requires
                0 <= hcode(rx, ry),
                s >= 1,
        ;
        assert(3 * (s * s) + s * s == (2 * s) * (2 * s) - 0) by (nonlinear_arith);
    }
}

proof fn lemma_bit_of_range(v: int, s: int)
    requires
        s > 0,
    ensures
        0 <= bit_of(v, s) <= 1,
{
    vstd::arithmetic::div_mod::lemma_mod_division_less_than_divisor(v / s, 2);
}

/// A residue modulo `2 * s` splits into the residue modulo `s` and the digit
/// at weight `s`; both survive the reduction.
proof fn lemma_mod_split(x: int, s: int)
    requires
        s > 0,
    ensures
        (x % (2 * s)) % s == x % s,
        bit_of(x % (2 * s), s) == bit_of(x, s),
        x % (2 * s) == x % s + s * bit_of(x, s),
        0 <= x % (2 * s) < 2 * s,
{
    let m = x % (2 * s);
    vstd::arithmetic::div_mod::lemma_mod_division_less_than_divisor(x, 2 * s);
    assert((x % (s * 2)) % s == x % s) by {
        vstd::arithmetic::div_mod::lemma_mod_mod(x, s, 2);
    }
    vstd::arithmetic::div_mod::lemma_fundamental_div_mod(x, 2 * s);
    let q = x / (2 * s);
    vstd::arithmetic::div_mod::lemma_fundamental_div_mod(m, s);
    let t = m / s;
    vstd::arithmetic::div_mod::lemma_mod_division_less_than_divisor(m, s);
    assert(0 <= t <= 1) by (nonlinear_arith)
        requires
            m == s * t + m % s,
            0 <= m < 2 * s,
            0 <= m % s < s,
            s > 0,
    ;
    // x == s * (2q + t) + (m % s), so x / s == 2q + t and x % s == m % s.
    assert(x == s * (2 * q + t) + m % s) by (nonlinear_arith)
        requires
            x == (2 * s) * q + m,
            m == s * t + m % s,
    ;
    vstd::arithmetic::div_mod::lemma_fundamental_div_mod_converse(x, s, 2 * q + t, m % s);
    assert(bit_of(x, s) == (2 * q + t) % 2);
    assert((2 * q + t) % 2 == t % 2) by {
        vstd::arithmetic::div_mod::lemma_mod_multiples_vanish(q, t, 2);
    }
    vstd::arithmetic::div_mod::lemma_small_mod(t as nat, 2);
    // The digit of the reduced value: m / s == t and m < 2s, so m's digit is t.
    assert(m / s == t);
    vstd::arithmetic::div_mod::lemma_small_mod(m as nat, (2 * s) as nat);
    assert(bit_of(m, s) == (m / s) % 2);
}

/// Applying the rotation, reducing, and applying it again with the same
/// quadrant bits undoes it, modulo the sub-square.
proof fn lemma_rot_unrot(s: int, x: int, y: int, rx: int, ry: int)
    requires
        s > 0,
    ensures
        ({
            let r2 = rot(s, x, y, rx, ry);
            rot(s, r2.0 % s, r2.1 % s, rx, ry) == (x % s, y % s)
        }),
{
    let r2 = rot(s, x, y, rx, ry);
    vstd::arithmetic::div_mod::lemma_mod_division_less_than_divisor(x, s);
    vstd::arithmetic::div_mod::lemma_mod_division_less_than_divisor(y, s);
    if ry == 0 && rx == 1 {
        let u = (s - 1 - y) % s;
        let v = (s - 1 - x) % s;
        vstd::arithmetic::div_mod::lemma_mod_division_less_than_divisor(s - 1 - y, s);
        vstd::arithmetic::div_mod::lemma_mod_division_less_than_divisor(s - 1 - x, s);
        assert(((s - 1) - (s - 1 - x) % s) % s == ((s - 1) - (s - 1 - x)) % s) by {
            vstd::arithmetic::div_mod::lemma_sub_mod_noop_right(s - 1, s - 1 - x, s);
        }
        assert(((s - 1) - (s - 1 - y) % s) % s == ((s - 1) - (s - 1 - y)) % s) by {
            vstd::arithmetic::div_mod::lemma_sub_mod_noop_right(s - 1, s - 1 - y, s);
        }
        assert(0 <= s - 1 - v < s);
        assert(0 <= s - 1 - u < s);
        vstd::arithmetic::div_mod::lemma_small_mod((s - 1 - v) as nat, s as nat);
        vstd::arithmetic::div_mod::lemma_small_mod((s - 1 - u) as nat, s as nat);
        assert(rot(s, u, v, rx, ry) == (s - 1 - v, s - 1 - u));
        assert(s - 1 - v == x % s);
        assert(s - 1 - u == y % s);
    }
}

/// Hilbert round trip at one grid size: decoding the index of any point
/// recovers the point, reduced to the grid.
pub proof fn lemma_hilbert_round_trip(k: nat, x: int, y: int)
    ensures
        hilbert_xy(k, hilbert_d(k, x, y)) == (x % (pow2(k) as int), y % (pow2(k) as int)),
    decreases k,
{
    if k == 0 {
        assert(pow2(0) == 1) by {
            vstd::arithmetic::power::lemma_pow0(2);
        }
        vstd::arithmetic::div_mod::lemma_mod_division_less_than_divisor(x, 1);
        vstd::arithmetic::div_mod::lemma_mod_division_less_than_divisor(y, 1);
    } else {
        let s = pow2((k - 1) as nat) as int;
        assert(s >= 1) by {
            vstd::arithmetic::power2::lemma_pow2_pos((k - 1) as nat);
        }
        assert(pow2(k) == 2 * s) by {
            vstd::arithmetic::power2::lemma_pow2_unfold(k);
        }
        let rx = bit_of(x, s);
        let ry = bit_of(y, s);
        lemma_bit_of_range(x, s);
        lemma_bit_of_range(y, s);
        let r2 = rot(s, x, y, rx, ry);
        let c = hcode(rx, ry);
        let dd = hilbert_d((k - 1) as nat, r2.0, r2.1);
        lemma_hilbert_d_bounds((k - 1) as nat, r2.0, r2.1);
        let d = hilbert_d(k, x, y);
        assert(d == c * (s * s) + dd);
        assert(s * s > 0) by (nonlinear_arith)
            requires
                s >= 1,
        ;
        assert(d == (s * s) * c + dd) by (nonlinear_arith)
            requires
                d == c * (s * s) + dd,
        ;
        vstd::arithmetic::div_mod::lemma_fundamental_div_mod_converse(d, s * s, c, dd);
        assert(d / (s * s) == c);
        assert(d % (s * s) == dd);
        vstd::arithmetic::div_mod::lemma_small_mod(c as nat, 4);
        assert((d / (s * s)) % 4 == c);
        // The quadrant code decodes back to the same bits.
        let rx2 = c / 2;
        let ry2: int = if c == 1 || c == 2 {
            1
        } else {
            0
        };
        assert(rx2 == rx && ry2 == ry);
        // The lower levels recover the rotated point, reduced.
        lemma_hilbert_round_trip((k - 1) as nat, r2.0, r2.1);
        assert(hilbert_xy((k - 1) as nat, dd) == (r2.0 % s, r2.1 % s));
        // Undoing the rotation recovers the residues of the original point.
        lemma_rot_unrot(s, x, y, rx, ry);
        let r3 = rot(s, r2.0 % s, r2.1 % s, rx, ry);
        assert(r3 == (x % s, y % s));
        // Adding the top digit back yields the residues on the full grid.
        lemma_mod_split(x, s);
        lemma_mod_split(y, s);
        assert(hilbert_xy(k, d) == (r3.0 + s * rx, r3.1 + s * ry));
    }
}

/// The Hilbert index only depends on the point's residues on the grid.
proof fn lemma_hilbert_d_congruent(k: nat, x: int, y: int)
    ensures
        hilbert_d(k, x, y) == hilbert_d(k, x % (pow2(k) as int), y % (pow2(k) as int)),
    decreases k,
{
    if k == 0 {
    } else {
        let s = pow2((k - 1) as nat) as int;
        assert(s >= 1) by {
            vstd::arithmetic::power2::lemma_pow2_pos((k - 1) as nat);
        }
        assert(pow2(k) == 2 * s) by {
            vstd::arithmetic::power2::lemma_pow2_unfold(k);
        }
        let xm = x % (2 * s);
        let ym = y % (2 * s);
        lemma_mod_split(x, s);
        lemma_mod_split(y, s);
        let rx = bit_of(x, s);
        let ry = bit_of(y, s);
        assert(bit_of(xm, s) == rx);
        assert(bit_of(ym, s) == ry);
        let r2 = rot(s, x, y, rx, ry);
        let r2m = rot(s, xm, ym, rx, ry);
        // The rotated points agree modulo the sub-square.
        assert(r2.0 % s == r2m.0 % s && r2.1 % s == r2m.1 % s) by {
            if ry == 0 && rx == 1 {
                assert(((s - 1) - y) % s == ((s - 1) - y % s) % s) by {
                    vstd::arithmetic::div_mod::lemma_sub_mod_noop_right(s - 1, y, s);
                }
                assert(((s - 1) - ym) % s == ((s - 1) - ym % s) % s) by {
                    vstd::arithmetic::div_mod::lemma_sub_mod_noop_right(s - 1, ym, s);
                }
                assert(ym % s == y % s);
                assert(((s - 1) - x) % s == ((s - 1) - x % s) % s) by {
                    vstd::arithmetic::div_mod::lemma_sub_mod_noop_right(s - 1, x, s);
                }
                assert(((s - 1) - xm) % s == ((s - 1) - xm % s) % s) by {
                    vstd::arithmetic::div_mod::lemma_sub_mod_noop_right(s - 1, xm, s);
                }
                assert(xm % s == x % s);
            }
        }
        lemma_hilbert_d_congruent((k - 1) as nat, r2.0, r2.1);
        lemma_hilbert_d_congruent((k - 1) as nat, r2m.0, r2m.1);
    }
}

/// The cumulative counts grow with the zoom level.
pub proof fn lemma_tiles_per_level_increases(z1: nat, z2: nat)
    requires
        z1 <= z2,
    ensures
        0 <= tiles_per_level_spec(z1) <= tiles_per_level_spec(z2),
    decreases z2,
{
    if z2 == 0 {
    } else if z1 == z2 {
        lemma_tiles_per_level_increases((z1 - 1) as nat, (z2 - 1) as nat);
    } else {
        lemma_tiles_per_level_increases(z1, (z2 - 1) as nat);
    }
}

/// 2^e, as a machine word.
fn pow2_u64(e: u64) -> (r: u64)
    requires
        e <= 62,
    ensures
        r as int == pow2(e as nat),
{
    proof {
        vstd::arithmetic::power::lemma_pow0(2);
    }
    let mut r: u64 = 1;
    let mut i: u64 = 0;
    while i < e
        invariant
            0 <= i <= e <= 62,
            r as int == pow2(i as nat),
        decreases e - i,
    {
        proof {
            assert(pow2((i + 1) as nat) == 2 * pow2(i as nat)) by {
                vstd::arithmetic::power2::lemma_pow2_unfold((i + 1) as nat);
            }
            assert(pow2((i + 1) as nat) <= pow2(62)) by {
                if i + 1 < 62 {
                    vstd::arithmetic::power2::lemma_pow2_strictly_increases((i + 1) as nat, 62);
                }
            }
            assert(pow2(62) == 0x4000_0000_0000_0000) by {
                vstd::arithmetic::power2::lemma2_to64_rest();
            }
        }
        r = r * 2;
        i = i + 1;
    }
    r
}

/// How many tiles all zoom levels below `z` hold together: the offset at
/// which zoom `z` starts in the single 64-bit id space.
pub fn tiles_per_level(z: u64) -> (r: u64)
    requires
        z <= 26,
    ensures
        r as int == tiles_per_level_spec(z as nat),
{
    let mut acc: u64 = 0;
    let mut i: u64 = 0;
    while i < z
        invariant
            0 <= i <= z <= 26,
            acc as int == tiles_per_level_spec(i as nat),
        decreases z - i,
    {
        proof {
            lemma_tiles_per_level_increases((i + 1) as nat, 26);
            assert(tiles_per_level_spec(26) == 1501199875790165) by {
                reveal_with_fuel(tiles_per_level_spec, 27);
            }
        }
        acc = acc * 4 + 1;
        i = i + 1;
    }
    acc
}

/// The Hilbert rotation step, as the walk applies it at sub-square size `n`:
/// on the lower quadrants, reflect when the exit side demands it, then
/// transpose the coordinates.
pub fn rotate(n: i64, x: &mut i64, y: &mut i64, rx: i64, ry: i64)
    requires
        0 <= n <= 0x1000_0000_0000_0000,
        -0x1000_0000_0000_0000 <= *old(x) <= 0x1000_0000_0000_0000,
        -0x1000_0000_0000_0000 <= *old(y) <= 0x1000_0000_0000_0000,
    ensures
        (*final(x) as int, *final(y) as int) == rot(
            n as int,
            *old(x) as int,
            *old(y) as int,
            rx as int,
            ry as int,
        ),
{
    if ry == 0 {
        if rx == 1 {
            *x = n - 1 - *x;
            *y = n - 1 - *y;
        }
        let tmp_x = *x;
        *x = *y;
        *y = tmp_x;
    }
}

/// Map (z, x, y) to its 64-bit Hilbert tile id: the id offset of zoom `z`
/// plus the Hilbert index of (x, y) on the 2^z grid. Rejects zoom levels
/// over 26 and coordinates off the grid.
#[verifier::loop_isolation(false)]
pub fn zxy_to_tile_id(z: u64, x: u64, y: u64) -> (r: Result<u64, PMTilesError>)
    ensures
        z > 26 ==> r == Err::<u64, PMTilesError>(PMTilesError::OutOfBoundsZ()),
        z <= 26 && (x >= pow2(z as nat) || y >= pow2(z as nat)) ==> r == Err::<
            u64,
            PMTilesError,
        >(PMTilesError::OutOfBounds()),
        z <= 26 && x < pow2(z as nat) && y < pow2(z as nat) ==> (r matches Ok(id) && id
            == tiles_per_level_spec(z as nat) + hilbert_d(z as nat, x as int, y as int)),
{
    if z > 26 {
        return Err(PMTilesError::OutOfBoundsZ());
    }
    let n = pow2_u64(z);
    if x >= n || y >= n {
        return Err(PMTilesError::OutOfBounds());
    }
    let acc = tiles_per_level(z);
    proof {
        lemma_hilbert_d_bounds(z as nat, x as int, y as int);
        assert(pow2(z as nat) <= pow2(26)) by {
            if z < 26 {
                vstd::arithmetic::power2::lemma_pow2_strictly_increases(z as nat, 26);
            }
        }
        assert(pow2(26) == 0x400_0000) by {
            vstd::arithmetic::power2::lemma2_to64();
        }
        assert(pow2(z as nat) * pow2(z as nat) <= 0x400_0000 * 0x400_0000) by (nonlinear_arith)
            requires
                0 < pow2(z as nat) <= 0x400_0000,
        ;
    }
    let ghost total: int = hilbert_d(z as nat, x as int, y as int);
    let mut cx = x;
    let mut cy = y;
    let mut d: u64 = 0;
    let mut k = z;
    while k > 0
        invariant
            k <= z,
            cx < pow2(k as nat),
            cy < pow2(k as nat),
            d + hilbert_d(k as nat, cx as int, cy as int) == total,
            d <= total,
        decreases k,
    {
        let s = pow2_u64(k - 1);
        let ghost si: int = s as int;
        proof {
            vstd::arithmetic::power2::lemma_pow2_pos((k - 1) as nat);
            assert(pow2(k as nat) == 2 * pow2((k - 1) as nat)) by {
                vstd::arithmetic::power2::lemma_pow2_unfold(k as nat);
            }
            assert(pow2((k - 1) as nat) <= pow2(25)) by {
                if k - 1 < 25 {
                    vstd::arithmetic::power2::lemma_pow2_strictly_increases((k - 1) as nat, 25);
                }
            }
            assert(pow2(25) == 0x200_0000) by {
                vstd::arithmetic::power2::lemma2_to64();
            }
            assert(si * si <= 0x200_0000 * 0x200_0000) by (nonlinear_arith)
                requires
                    0 < si <= 0x200_0000,
            ;
        }
        let rx = cx / s;
        let ry = cy / s;
        proof {
            assert(cx / s < 2 && cy / s < 2) by (nonlinear_arith)
                requires
                    cx < 2 * s,
                    cy < 2 * s,
                    s > 0,
            ;
            vstd::arithmetic::div_mod::lemma_small_mod((cx / s) as nat, 2);
            vstd::arithmetic::div_mod::lemma_small_mod((cy / s) as nat, 2);
            assert(bit_of(cx as int, si) == rx as int);
            assert(bit_of(cy as int, si) == ry as int);
        }
        let code: u64 = if ry == 0 {
            if rx == 0 {
                0
            } else {
                3
            }
        } else {
            if rx == 0 {
                1
            } else {
                2
            }
        };
        let ghost rold = rot(si, cx as int, cy as int, rx as int, ry as int);
        proof {
            assert(code as int == hcode(rx as int, ry as int));
            assert(hilbert_d(k as nat, cx as int, cy as int) == code * (si * si) + hilbert_d(
                (k - 1) as nat,
                rold.0,
                rold.1,
            ));
            lemma_hilbert_d_bounds((k - 1) as nat, rold.0, rold.1);
            assert(code * (si * si) <= 3 * (si * si)) by (nonlinear_arith)
                requires
                    0 <= code <= 3,
                    si * si >= 0,
            ;
            assert(0 <= code * (si * si)) by (nonlinear_arith)
                requires
                    0 <= code,
                    si * si >= 0,
            ;
        }
        d = d + s * s * code;
        // Rotate, then reduce to the sub-square: the lower levels only read
        // the residues.
        if ry == 0 {
            if rx == 1 {
                let nx = (3 * s - 1 - cy) % s;
                let ny = (3 * s - 1 - cx) % s;
                proof {
                    assert((2 * si + (si - 1 - cy)) % si == (si - 1 - cy) % si) by {
                        vstd::arithmetic::div_mod::lemma_mod_multiples_vanish(
                            2,
                            si - 1 - cy,
                            si,
                        );
                    }
                    assert((2 * si + (si - 1 - cx)) % si == (si - 1 - cx) % si) by {
                        vstd::arithmetic::div_mod::lemma_mod_multiples_vanish(
                            2,
                            si - 1 - cx,
                            si,
                        );
                    }
                    lemma_hilbert_d_congruent((k - 1) as nat, rold.0, rold.1);
                }
                cx = nx;
                cy = ny;
            } else {
                let t = cx % s;
                proof {
                    lemma_hilbert_d_congruent((k - 1) as nat, rold.0, rold.1);
                }
                cx = cy % s;
                cy = t;
            }
        } else {
            proof {
                lemma_hilbert_d_congruent((k - 1) as nat, rold.0, rold.1);
            }
            cx = cx % s;
            cy = cy % s;
        }
        proof {
            vstd::arithmetic::div_mod::lemma_mod_division_less_than_divisor(rold.0, si);
            vstd::arithmetic::div_mod::lemma_mod_division_less_than_divisor(rold.1, si);
        }
        k = k - 1;
    }
    proof {
        lemma_tiles_per_level_increases(z as nat, 26);
        assert(tiles_per_level_spec(26) == 1501199875790165) by {
            reveal_with_fuel(tiles_per_level_spec, 27);
        }
    }
    Ok(acc + d)
}

/// Map a 64-bit tile id back to (z, x, y): find the zoom level whose id
/// range holds it, then walk the Hilbert curve back up from the low levels.
#[verifier::loop_isolation(false)]
pub fn id_to_zxy(id: u64) -> (r: Result<(u64, u64, u64), PMTilesError>)
    ensures
        r matches Ok(t) ==> {
            &&& t.0 <= 26
            &&& tiles_per_level_spec(t.0 as nat) <= id < tiles_per_level_spec((t.0 + 1) as nat)
            &&& (t.1 as int, t.2 as int) == hilbert_xy(
                t.0 as nat,
                id - tiles_per_level_spec(t.0 as nat),
            )
        },
        r is Ok <==> id < tiles_per_level_spec(27),
        r is Err ==> r == Err::<(u64, u64, u64), PMTilesError>(PMTilesError::OutOfBoundsZ()),
{
    proof {
        assert(tiles_per_level_spec(26) == 1501199875790165) by {
            reveal_with_fuel(tiles_per_level_spec, 27);
        }
    }
    let mut z: u64 = 0;
    let mut acc: u64 = 0;
    while z < 26 && id >= 4 * acc + 1
        invariant
            z <= 26,
            acc as int == tiles_per_level_spec(z as nat),
            acc <= id,
            acc <= 1501199875790165,
        decreases 26 - z,
    {
        proof {
            lemma_tiles_per_level_increases((z + 1) as nat, 26);
            assert(tiles_per_level_spec(26) == 1501199875790165) by {
                reveal_with_fuel(tiles_per_level_spec, 27);
            }
        }
        acc = 4 * acc + 1;
        z = z + 1;
    }
    if id >= 4 * acc + 1 {
        // Only reachable at the deepest zoom: the id lies beyond level 26.
        assert(z == 26);
        return Err(PMTilesError::OutOfBoundsZ());
    }
    proof {
        lemma_tiles_per_level_increases((z + 1) as nat, 27);
        lemma_tiles_per_level_identity(z as nat);
        assert(pow(4, z as nat) == pow2(z as nat) * pow2(z as nat)) by {
            lemma_pow4_is_pow2_squared(z as nat);
        }
    }
    let d = id - acc;
    let ghost dz: int = d as int;
    let ghost mz: int = pow2(z as nat) as int * pow2(z as nat) as int;
    proof {
        assert(0 <= dz < mz);
        vstd::arithmetic::power::lemma_pow0(2);
        vstd::arithmetic::div_mod::lemma_div_basics(dz);
        vstd::arithmetic::div_mod::lemma_small_mod(0, 1);
        assert(dz % 1 == 0) by {
            vstd::arithmetic::div_mod::lemma_mod_division_less_than_divisor(dz, 1);
        }
    }
    let mut cx: u64 = 0;
    let mut cy: u64 = 0;
    let mut t: u64 = d;
    let mut j: u64 = 0;
    while j < z
        invariant
            j <= z <= 26,
            cx < pow2(j as nat),
            cy < pow2(j as nat),
            0 <= dz < mz,
            mz == pow2(z as nat) as int * pow2(z as nat) as int,
            dz == d,
            t as int == dz / (pow2(j as nat) as int * pow2(j as nat) as int),
            (cx as int, cy as int) == hilbert_xy(
                j as nat,
                dz % (pow2(j as nat) as int * pow2(j as nat) as int),
            ),
        decreases z - j,
    {
        let s = pow2_u64(j);
        let ghost si: int = s as int;
        let ghost m0: int = si * si;
        let ghost m1: int = (2 * si) * (2 * si);
        proof {
            vstd::arithmetic::power2::lemma_pow2_pos(j as nat);
            assert(pow2((j + 1) as nat) == 2 * pow2(j as nat)) by {
                vstd::arithmetic::power2::lemma_pow2_unfold((j + 1) as nat);
            }
            assert(pow2(j as nat) <= pow2(25)) by {
                if j < 25 {
                    vstd::arithmetic::power2::lemma_pow2_strictly_increases(j as nat, 25);
                }
            }
            assert(pow2(25) == 0x200_0000) by {
                vstd::arithmetic::power2::lemma2_to64();
            }
            assert((2 * si) * (2 * si) == 4 * (si * si)) by (nonlinear_arith);
            assert(si * si > 0) by (nonlinear_arith)
                requires
                    si > 0,
            ;
        }
        // Split the two quadrant bits for this level off the index.
        let ghost c: int = (t as int) % 4;
        let rx: u64 = (t / 2) % 2;
        let ry: u64 = if (t % 2 == 1) != (rx == 1) {
            1
        } else {
            0
        };
        proof {
            // The spec reads the same two bits from the residue at the next
            // level up.
            vstd::arithmetic::div_mod::lemma_mod_breakdown(dz, m0, 4);
            assert(dz % m1 == m0 * ((dz / m0) % 4) + dz % m0);
            vstd::arithmetic::div_mod::lemma_mod_division_less_than_divisor(dz / m0, 4);
            vstd::arithmetic::div_mod::lemma_mod_division_less_than_divisor(dz, m0);
            vstd::arithmetic::div_mod::lemma_fundamental_div_mod_converse(
                dz % m1,
                m0,
                (dz / m0) % 4,
                dz % m0,
            );
            assert((dz % m1) / m0 == c);
            assert((dz % m1) % m0 == dz % m0) by {
                vstd::arithmetic::div_mod::lemma_mod_mod(dz, m0, 4);
            }
            // The bit arithmetic on `t` agrees with the spec's quadrant code.
            vstd::arithmetic::div_mod::lemma_mod_breakdown(t as int, 2, 2);
            vstd::arithmetic::div_mod::lemma_mod_division_less_than_divisor(t as int, 2);
            vstd::arithmetic::div_mod::lemma_mod_division_less_than_divisor((t as int) / 2, 2);
            vstd::arithmetic::div_mod::lemma_fundamental_div_mod_converse(
                c,
                2,
                ((t as int) / 2) % 2,
                (t as int) % 2,
            );
            assert(c / 2 == rx as int);
            assert(c % 2 == (t as int) % 2) by {
                vstd::arithmetic::div_mod::lemma_mod_mod(t as int, 2, 2);
            }
        }
        if ry == 0 {
            if rx == 1 {
                let nx = s - 1 - cy;
                let ny = s - 1 - cx;
                cx = nx;
                cy = ny;
            } else {
                let tmp = cx;
                cx = cy;
                cy = tmp;
            }
        }
        cx = cx + s * rx;
        cy = cy + s * ry;
        proof {
            // One more level of the spec walk lands exactly here.
            assert((cx as int, cy as int) == hilbert_xy((j + 1) as nat, dz % m1));
            // The remaining index drops two bits.
            assert((dz / m0) / 4 == dz / m1) by {
                vstd::arithmetic::div_mod::lemma_div_denominator(dz, m0, 4);
            }
        }
        t = t / 4;
        j = j + 1;
    }
    proof {
        vstd::arithmetic::div_mod::lemma_small_mod(dz as nat, mz as nat);
    }
    Ok((z, cx, cy))
}

/// 4^e is the square of 2^e.
proof fn lemma_pow4_is_pow2_squared(e: nat)
    ensures
        pow(4, e) == pow2(e) * pow2(e),
    decreases e,
{
    if e == 0 {
        vstd::arithmetic::power::lemma_pow0(4);
        vstd::arithmetic::power::lemma_pow0(2);
        assert(pow2(0) == 1);
        assert(pow(4, 0) == 1);
    } else {
        lemma_pow4_is_pow2_squared((e - 1) as nat);
        assert(pow(4, e) == 4 * pow(4, (e - 1) as nat)) by {
            reveal(pow);
        }
        let p = pow2((e - 1) as nat) as int;
        let q = pow2(e) as int;
        assert(q == 2 * p) by {
            vstd::arithmetic::power2::lemma_pow2_unfold(e);
        }
        assert(4 * (p * p) == (2 * p) * (2 * p)) by (nonlinear_arith);
        assert(q * q == (2 * p) * (2 * p)) by (nonlinear_arith)
            requires
                q == 2 * p,
        ;
        assert(pow(4, (e - 1) as nat) == p * p);
        assert(pow(4, e) == 4 * (p * p));
        assert(pow(4, e) == q * q);
        assert(pow2(e) * pow2(e) == q * q);
    }
}

/// Hilbert round trip on tile ids: for every zoom up to 26 and every
/// coordinate pair on that zoom's grid, the tile id built from (z, x, y)
/// falls in zoom `z`'s id range and decodes back to exactly (x, y).
pub proof fn lemma_tile_id_round_trip(z: nat, x: int, y: int)
    requires
        z <= 26,
        0 <= x < pow2(z),
        0 <= y < pow2(z),
    ensures
        tiles_per_level_spec(z) <= tiles_per_level_spec(z) + hilbert_d(z, x, y)
            < tiles_per_level_spec((z + 1) as nat),
        hilbert_xy(z, hilbert_d(z, x, y)) == (x, y),
{
    lemma_hilbert_d_bounds(z, x, y);
    lemma_hilbert_round_trip(z, x, y);
    vstd::arithmetic::div_mod::lemma_small_mod(x as nat, pow2(z));
    vstd::arithmetic::div_mod::lemma_small_mod(y as nat, pow2(z));
    lemma_tiles_per_level_identity(z);
    lemma_tiles_per_level_identity((z + 1) as nat);
    lemma_pow4_is_pow2_squared(z);
    assert(pow(4, (z + 1) as nat) == 4 * pow(4, z)) by {
        reveal(pow);
    }
}

} // verus!
