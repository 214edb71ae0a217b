//! Anti-cheat movement validation.
//!
//! Positions are fixed-point integers in micrometers, velocities in
//! micrometers per second, timestamps in milliseconds. A candidate sample is
//! rejected when the actual displacement since the previous sample exceeds
//! the displacement expected from the reported velocity by more than a fixed
//! tolerance of half a meter; a rejected sample is corrected to the position
//! the reported velocity would have reached.
//!
//! The comparison `actual > expected + tolerance` is between Euclidean
//! distances, i.e. between square roots of integers. It is decided exactly:
//! for integers `A = actual²`, `E = expected²` (both in nm²) and tolerance
//! `T` (in nm),
//!
//! `√A > √E + T  ⟺  A − E − T² > 0  ∧  (A − E − T²)² > 4·T²·E`
//!
//! so the spec below is a purely integer characterization of the real
//! comparison, and the implementation decides it without overflow.

use vstd::prelude::*;

verus! {

use vstd::arithmetic::div_mod::lemma_fundamental_div_mod;

/// Largest coordinate magnitude the model admits, in micrometers (10^9 m).
pub const COORD_LIMIT: i64 = 1_000_000_000_000_000;
/// Largest velocity magnitude the model admits, in micrometers/second (10^6 m/s).
pub const VEL_LIMIT: i64 = 1_000_000_000_000;
/// Absolute tolerance on displacement, in nanometers (0.5 m).
pub const TOLERANCE_NM: u128 = 500_000_000;
/// Time deltas of this many milliseconds or more are not judged (60 s).
pub const MAX_DT_MS: u128 = 60_000;

pub open spec fn coord_ok(x: i64) -> bool {
    -COORD_LIMIT <= x <= COORD_LIMIT
}

pub open spec fn vel_ok(v: i64) -> bool {
    -VEL_LIMIT <= v <= VEL_LIMIT
}

pub open spec fn sq(x: int) -> int {
    x * x
}

/// Milliseconds elapsed between the previous and the candidate sample;
/// reordered samples count as zero elapsed time.
pub open spec fn spec_dt_ms(prev_ts: u128, new_ts: u128) -> int {
    if new_ts > prev_ts { new_ts - prev_ts } else { 0 }
}

/// Only deltas strictly between 0 and 60 s are judged.
pub open spec fn in_window(dt: int) -> bool {
    0 < dt < MAX_DT_MS
}

/// Squared actual displacement, in nm² (coordinates are in µm).
pub open spec fn actual2(px: int, py: int, pz: int, nx: int, ny: int, nz: int) -> int {
    sq((nx - px) * 1000) + sq((ny - py) * 1000) + sq((nz - pz) * 1000)
}

/// Squared expected displacement, in nm²: a velocity of `v` µm/s held for
/// `dt` ms travels exactly `v·dt` nm along that axis.
pub open spec fn expected2(vx: int, vy: int, vz: int, dt: int) -> int {
    sq(vx * dt) + sq(vy * dt) + sq(vz * dt)
}

/// Exact integer characterization of
/// `√a2 > √e2 + TOLERANCE_NM` over the reals.
pub open spec fn displacement_exceeded(a2: int, e2: int) -> bool {
    let t2 = sq(TOLERANCE_NM as int);
    let d = a2 - e2 - t2;
    d > 0 && sq(d) > 4 * t2 * e2
}

/// A sample is rejected when its time delta is judged and the actual
/// displacement exceeds the expected displacement by more than the tolerance.
pub open spec fn movement_rejected(
    px: int, py: int, pz: int, prev_ts: u128,
    nx: int, ny: int, nz: int, new_ts: u128,
    vx: int, vy: int, vz: int,
) -> bool {
    let dt = spec_dt_ms(prev_ts, new_ts);
    in_window(dt) && displacement_exceeded(
        actual2(px, py, pz, nx, ny, nz),
        expected2(vx, vy, vz, dt),
    )
}

pub open spec fn clamp_coord(x: int) -> int {
    if x > COORD_LIMIT { COORD_LIMIT as int }
    else if x < -COORD_LIMIT { -COORD_LIMIT as int }
    else { x }
}

/// Corrected position along one axis: the previous position plus the
/// displacement the reported velocity accounts for, truncated to whole
/// micrometers and clamped to the coordinate range.
pub open spec fn corrected_coord(prev: int, v: int, dt: int) -> int {
    let delta = if v >= 0 { (v * dt) / 1000 } else { -((-v * dt) / 1000) };
    clamp_coord(prev + delta)
}

/// Outcome of validating one movement sample.
#[derive(Clone, Copy, Debug)]
pub struct MovementValidation {
    pub is_valid: bool,
    pub corrected_x: Option<i64>,
    pub corrected_y: Option<i64>,
    pub corrected_z: Option<i64>,
}

/// `|b − a|` scaled from µm to nm.
fn abs_diff_nm(a: i64, b: i64) -> (r: u128)
    requires
        coord_ok(a),
        coord_ok(b),
    ensures
        r <= 2_000_000_000_000_000_000,
        r as int == if b >= a { (b - a) * 1000 } else { (a - b) * 1000 },
{
    if b >= a {
        (b - a) as u128 * 1000
    } else {
        (a - b) as u128 * 1000
    }
}

/// `|v|·dt`: the expected displacement magnitude along one axis in nm.
fn abs_vel_nm(v: i64, dt: u128) -> (r: u128)
    requires
        vel_ok(v),
        0 < dt < MAX_DT_MS,
    ensures
        r <= 60_000_000_000_000_000,
        r as int == if v >= 0 { v * dt } else { (-v) * dt },
{
    let m: u128 = if v >= 0 { v as u128 } else { (-v) as u128 };
    proof {
        assert(m * dt <= 60_000_000_000_000_000) by (nonlinear_arith)
            requires m <= 1_000_000_000_000, dt < 60_000;
    }
    m * dt
}

/// Corrected position along one axis, in µm.
fn corrected_axis(prev: i64, v: i64, dt: u128) -> (r: i64)
    requires
        coord_ok(prev),
        vel_ok(v),
        0 < dt < MAX_DT_MS,
    ensures
        r as int == corrected_coord(prev as int, v as int, dt as int),
        coord_ok(r),
{
    let mag_nm: u128 = if v >= 0 { v as u128 } else { (-v) as u128 };
    proof {
        assert(mag_nm * dt <= 60_000_000_000_000_000) by (nonlinear_arith)
            requires mag_nm <= 1_000_000_000_000, dt < 60_000;
    }
    let mag: u128 = mag_nm * dt / 1000;
    let delta: i64 = mag as i64;
    let c: i64 = if v >= 0 { prev + delta } else { prev - delta };
    if c > COORD_LIMIT {
        COORD_LIMIT
    } else if c < -COORD_LIMIT {
        -COORD_LIMIT
    } else {
        c
    }
}

/// Decide `sq(d) > k²·e` for `k = 2·TOLERANCE_NM`, given `d = a − e − t² > 0`.
/// Works entirely in `u128` by splitting `d = k·q + s`.
fn exceeds_squared(d: u128, e: u128) -> (r: bool)
    requires
        d <= 12_000_000_000_000_000_000_000_000_000_000_000_000,
        e <= 11_000_000_000_000_000_000_000_000_000_000_000,
    ensures
        r == (sq(d as int) > 4 * sq(TOLERANCE_NM as int) * (e as int)),
{
    let k: u128 = 2 * TOLERANCE_NM;
    let q: u128 = d / k;
    let s: u128 = d % k;
    proof {
        lemma_fundamental_div_mod(d as int, k as int);
        assert(4 * sq(TOLERANCE_NM as int) == (k as int) * (k as int));
    }
    if q > 200_000_000_000_000_000 {
        // q² > e, so d² ≥ k²q² > k²e.
        proof {
            assert(sq(d as int) > (k as int) * (k as int) * (e as int)) by (nonlinear_arith)
                requires
                    d as int == k * q + s,
                    0 <= s,
                    q > 200_000_000_000_000_000int,
                    k == 1_000_000_000int,
                    e <= 11_000_000_000_000_000_000_000_000_000_000_000int;
        }
        true
    } else {
        proof {
            assert(q * q <= 40_000_000_000_000_000_000_000_000_000_000_000) by (nonlinear_arith)
                requires 0 <= q <= 200_000_000_000_000_000int;
        }
        let qq: u128 = q * q;
        if qq > e {
            proof {
                assert(sq(d as int) > (k as int) * (k as int) * (e as int)) by (nonlinear_arith)
                    requires
                        d as int == k * q + s,
                        0 <= s,
                        0 <= q,
                        qq == q * q,
                        qq > e,
                        k == 1_000_000_000int;
            }
            true
        } else {
            let l: u128 = e - qq;
            if l > 1_000_000_000_000_000_000 {
                // k²·l is far larger than 2kqs + s² can be, so d² ≤ k²e.
                proof {
                    assert(sq(d as int) <= (k as int) * (k as int) * (e as int)) by (nonlinear_arith)
                        requires
                            d as int == k * q + s,
                            0 <= s < k,
                            0 <= q <= 200_000_000_000_000_000int,
                            e as int == q * q + l,
                            l > 1_000_000_000_000_000_000int,
                            k == 1_000_000_000int;
                }
                false
            } else {
                let lhs: u128 = k * k * l;
                proof {
                    assert(2 * k * q * s + s * s
                        <= 500_000_000_000_000_000_000_000_000_000_000_000) by (nonlinear_arith)
                        requires
                            0 <= s < k,
                            0 <= q <= 200_000_000_000_000_000int,
                            k == 1_000_000_000int;
                }
                let rhs: u128 = 2 * k * q * s + s * s;
                proof {
                    assert((lhs < rhs) == (sq(d as int) > (k as int) * (k as int) * (e as int)))
                        by (nonlinear_arith)
                        requires
                            d as int == k * q + s,
                            0 <= s < k,
                            0 <= q,
                            e as int == q * q + l,
                            0 <= l,
                            lhs == k * k * l,
                            rhs == 2 * k * q * s + s * s,
                            k == 1_000_000_000int;
                }
                lhs < rhs
            }
        }
    }
}

/// Validate one movement sample against the previous one.
///
/// A sample whose time delta is zero, negative or at least 60 s is accepted
/// unconditionally. Otherwise it is accepted exactly when the actual
/// displacement does not exceed the expected displacement by more than the
/// tolerance; a rejected sample carries the corrected position.
pub fn validate_movement(
    prev_x: i64, prev_y: i64, prev_z: i64, prev_ts: u128,
    new_x: i64, new_y: i64, new_z: i64, new_ts: u128,
    vx: i64, vy: i64, vz: i64,
) -> (r: MovementValidation)
    requires
        coord_ok(prev_x), coord_ok(prev_y), coord_ok(prev_z),
        coord_ok(new_x), coord_ok(new_y), coord_ok(new_z),
        vel_ok(vx), vel_ok(vy), vel_ok(vz),
    ensures
        r.is_valid == !movement_rejected(
            prev_x as int, prev_y as int, prev_z as int, prev_ts,
            new_x as int, new_y as int, new_z as int, new_ts,
            vx as int, vy as int, vz as int,
        ),
        r.is_valid ==> r.corrected_x is None && r.corrected_y is None && r.corrected_z is None,
        !r.is_valid ==> {
            let dt = spec_dt_ms(prev_ts, new_ts);
            &&& r.corrected_x matches Some(c) && c as int == corrected_coord(prev_x as int, vx as int, dt)
            &&& r.corrected_y matches Some(c) && c as int == corrected_coord(prev_y as int, vy as int, dt)
            &&& r.corrected_z matches Some(c) && c as int == corrected_coord(prev_z as int, vz as int, dt)
        },
{
    let dt_ms: u128 = if new_ts > prev_ts { new_ts - prev_ts } else { 0 };
    if dt_ms == 0 || dt_ms >= MAX_DT_MS {
        return MovementValidation { is_valid: true, corrected_x: None, corrected_y: None, corrected_z: None };
    }
    let ax = abs_diff_nm(prev_x, new_x);
    let ay = abs_diff_nm(prev_y, new_y);
    let az = abs_diff_nm(prev_z, new_z);
    proof {
        assert(ax * ax <= 4_000_000_000_000_000_000_000_000_000_000_000_000) by (nonlinear_arith)
            requires ax <= 2_000_000_000_000_000_000;
        assert(ay * ay <= 4_000_000_000_000_000_000_000_000_000_000_000_000) by (nonlinear_arith)
            requires ay <= 2_000_000_000_000_000_000;
        assert(az * az <= 4_000_000_000_000_000_000_000_000_000_000_000_000) by (nonlinear_arith)
            requires az <= 2_000_000_000_000_000_000;
    }
    let a: u128 = ax * ax + ay * ay + az * az;
    let ex = abs_vel_nm(vx, dt_ms);
    let ey = abs_vel_nm(vy, dt_ms);
    let ez = abs_vel_nm(vz, dt_ms);
    proof {
        assert(ex * ex <= 3_600_000_000_000_000_000_000_000_000_000_000) by (nonlinear_arith)
            requires ex <= 60_000_000_000_000_000;
        assert(ey * ey <= 3_600_000_000_000_000_000_000_000_000_000_000) by (nonlinear_arith)
            requires ey <= 60_000_000_000_000_000;
        assert(ez * ez <= 3_600_000_000_000_000_000_000_000_000_000_000) by (nonlinear_arith)
            requires ez <= 60_000_000_000_000_000;
    }
    let e: u128 = ex * ex + ey * ey + ez * ez;
    proof {
        assert(a as int == actual2(
            prev_x as int, prev_y as int, prev_z as int,
            new_x as int, new_y as int, new_z as int,
        )) by (nonlinear_arith)
            requires
                a as int == ax * ax + ay * ay + az * az,
                ax as int == if new_x as int >= prev_x as int { (new_x - prev_x) * 1000 } else { (prev_x - new_x) * 1000 },
                ay as int == if new_y as int >= prev_y as int { (new_y - prev_y) * 1000 } else { (prev_y - new_y) * 1000 },
                az as int == if new_z as int >= prev_z as int { (new_z - prev_z) * 1000 } else { (prev_z - new_z) * 1000 };
        assert(e as int == expected2(vx as int, vy as int, vz as int, dt_ms as int)) by (nonlinear_arith)
            requires
                e as int == ex * ex + ey * ey + ez * ez,
                ex as int == if vx as int >= 0 { vx * (dt_ms as int) } else { (-vx) * (dt_ms as int) },
                ey as int == if vy as int >= 0 { vy * (dt_ms as int) } else { (-vy) * (dt_ms as int) },
                ez as int == if vz as int >= 0 { vz * (dt_ms as int) } else { (-vz) * (dt_ms as int) };
    }
    let t2: u128 = TOLERANCE_NM * TOLERANCE_NM;
    let exceeded: bool = if a <= e + t2 {
        false
    } else {
        exceeds_squared(a - e - t2, e)
    };
    if exceeded {
        MovementValidation {
            is_valid: false,
            corrected_x: Some(corrected_axis(prev_x, vx, dt_ms)),
            corrected_y: Some(corrected_axis(prev_y, vy, dt_ms)),
            corrected_z: Some(corrected_axis(prev_z, vz, dt_ms)),
        }
    } else {
        MovementValidation { is_valid: true, corrected_x: None, corrected_y: None, corrected_z: None }
    }
}

} // verus!
