//! The force and motion rules, each on a single entity or pair.
use vstd::prelude::*;
use vstd::arithmetic::div_mod::{lemma_div_pos_is_pos, lemma_fundamental_div_mod, lemma_mod_bound};
use crate::components::{Position, PosDiff, CHARGE_LIMIT, STIFFNESS_LIMIT};
use crate::fixed::{
    abs, div_toward_zero, div_trunc, floor_sqrt, in_range, is_floor_sqrt, lemma_floor_sqrt_exists,
    lemma_mul_bound, sat, saturate, FORCE_BOUND, LIMIT, SCALE,
};

verus! {

/// Largest Coulomb constant.
pub const COULOMB_K_LIMIT: i64 = 1000;

/// Turns `k * c1 * c2 / dist²` over fixed-point distances into a fixed-point
/// velocity: the cube of `SCALE`.
pub const COULOMB_UNIT: i128 = 1_000_000_000;

/// Pairs whose squared distance is below this (0.01 squared scene units)
/// exert no force on each other.
pub const MIN_DIST_SQ: i128 = 10_000;

/// Thousandths of its velocity that an entity keeps each tick.
pub const DAMPING: i64 = 995;

/// Thousandths of its velocity that an entity keeps, reversed, on a bounce.
pub const RESTITUTION: i64 = 800;

/// Distance from the pointer at which its pull reaches full strength.
pub const MOUSE_RANGE: i64 = 200_000;

/// Full strength of the pointer's pull, per tick.
pub const MOUSE_MAX_ACCEL: i64 = 200_000;

/// Bound on the magnitude of a force before it is split along an offset.
pub const ACC_BOUND: i128 = 0x1_0000_0000_0000_0000_0000;

/// Velocity change of magnitude `acc` along the offset `(dx, dy)` of length `d`.
pub open spec fn along(acc: int, dx: int, dy: int, d: int) -> (int, int) {
    (div_trunc(acc * dx, d), div_trunc(acc * dy, d))
}

pub open spec fn coulomb_accel(k: int, c1: int, c2: int, d2: int) -> int {
    div_trunc(k * COULOMB_UNIT * c1 * c2, d2)
}

/// Velocity change of `a` (charge `ca`) caused by `b` (charge `cb`).
pub open spec fn coulomb_delta(k: int, a: Position, b: Position, ca: int, cb: int) -> (int, int) {
    let dx = a.x - b.x;
    let dy = a.y - b.y;
    let d2 = dx * dx + dy * dy;
    if d2 < MIN_DIST_SQ {
        (0, 0)
    } else {
        along(coulomb_accel(k, ca, cb, d2), dx, dy, floor_sqrt(d2))
    }
}

/// Signed spring force: positive pushes apart, negative pulls together.
pub open spec fn spring_force(d: int, rest: int, k: int) -> int {
    div_trunc((rest - d) * k, SCALE as int)
}

/// Velocity change of endpoint `a`; endpoint `b` gets its negation.
pub open spec fn spring_delta(a: Position, b: Position, rest: int, k: int) -> (int, int) {
    let dx = a.x - b.x;
    let dy = a.y - b.y;
    let d2 = dx * dx + dy * dy;
    if d2 < MIN_DIST_SQ {
        (0, 0)
    } else {
        let d = floor_sqrt(d2);
        along(spring_force(d, rest, k), dx, dy, d)
    }
}

/// Cubic smoothstep `3t² - 2t³` of `t` in thousandths.
pub open spec fn smoothstep(t: int) -> int {
    div_trunc(3 * t * t * SCALE - 2 * t * t * t, SCALE * SCALE)
}

pub open spec fn mouse_accel(d: int) -> int {
    let r = d * SCALE / (MOUSE_RANGE as int);
    let t = if r < SCALE { r } else { SCALE as int };
    div_trunc(MOUSE_MAX_ACCEL * smoothstep(t), SCALE as int)
}

/// Velocity change of an entity at `p` pulled toward the pointer `m`.
pub open spec fn mouse_delta(p: Position, mx: int, my: int) -> (int, int) {
    let dx = mx - p.x;
    let dy = my - p.y;
    let d2 = dx * dx + dy * dy;
    if d2 < MIN_DIST_SQ {
        (0, 0)
    } else {
        let d = floor_sqrt(d2);
        along(mouse_accel(d), dx, dy, d)
    }
}

pub open spec fn damped(v: int) -> int {
    div_trunc(v * DAMPING, 1000)
}

pub open spec fn bounced(v: int) -> int {
    -div_trunc(v * RESTITUTION, 1000)
}

/// Coordinate after moving at velocity `v` for `dt` milliseconds.
pub open spec fn integrated(p: int, v: int, dt: int) -> int {
    sat(p + div_trunc(v * dt, 1000))
}

/// Coordinate and velocity along one axis after containment in `[0, size]`
/// of a footprint of half-size `ext`.
pub open spec fn contained(p: int, v: int, ext: int, size: int) -> (int, int) {
    if size < 2 * ext {
        (p, v)
    } else if p < ext {
        (ext, bounced(v))
    } else if p > size - ext {
        (size - ext, bounced(v))
    } else {
        (p, v)
    }
}

proof fn lemma_dist_positive(d2: int, d: int)
    requires
        d2 >= MIN_DIST_SQ,
        is_floor_sqrt(d2, d),
    ensures
        d >= 1,
{
    if d == 0 {
        assert((d + 1) * (d + 1) == 1);
    }
}

/// Splits `acc` along a difference of two positions.
fn split_along(acc: i128, diff: &PosDiff) -> (r: (i128, i128))
    requires
        diff.wf(),
        diff.dist_sq() >= MIN_DIST_SQ,
        -ACC_BOUND <= acc <= ACC_BOUND,
    ensures
        (r.0 as int, r.1 as int) == along(acc as int, diff.dx as int, diff.dy as int, floor_sqrt(diff.dist_sq())),
        -FORCE_BOUND <= r.0 <= FORCE_BOUND,
        -FORCE_BOUND <= r.1 <= FORCE_BOUND,
{
    let d = diff.dist();
    proof {
        lemma_dist_positive(diff.dist_sq(), d as int);
    }
    let dx = diff.dx as i128;
    let dy = diff.dy as i128;
    proof {
        lemma_mul_bound(acc as int, dx as int, ACC_BOUND as int, 2 * LIMIT);
        lemma_mul_bound(acc as int, dy as int, ACC_BOUND as int, 2 * LIMIT);
    }
    (div_toward_zero(acc * dx, d), div_toward_zero(acc * dy, d))
}

/// Velocity change of `a` (charge `ca`) caused by `b` (charge `cb`) under
/// Coulomb's law with constant `k`; none for pairs closer than the guard.
pub fn coulomb_pair(k: i64, a: &Position, b: &Position, ca: i64, cb: i64) -> (r: (i128, i128))
    requires
        0 <= k <= COULOMB_K_LIMIT,
        a.wf(),
        b.wf(),
        -CHARGE_LIMIT <= ca <= CHARGE_LIMIT,
        -CHARGE_LIMIT <= cb <= CHARGE_LIMIT,
    ensures
        (r.0 as int, r.1 as int) == coulomb_delta(k as int, *a, *b, ca as int, cb as int),
        -FORCE_BOUND <= r.0 <= FORCE_BOUND,
        -FORCE_BOUND <= r.1 <= FORCE_BOUND,
{
    let diff = a.diff(b);
    let d2 = diff.dist_squared();
    if d2 < MIN_DIST_SQ {
        return (0, 0);
    }
    proof {
        lemma_mul_bound(k as int, COULOMB_UNIT as int, COULOMB_K_LIMIT as int, COULOMB_UNIT as int);
        lemma_mul_bound(k * COULOMB_UNIT, ca as int, COULOMB_K_LIMIT * COULOMB_UNIT, CHARGE_LIMIT as int);
        lemma_mul_bound(k * COULOMB_UNIT * ca, cb as int, COULOMB_K_LIMIT * COULOMB_UNIT * CHARGE_LIMIT, CHARGE_LIMIT as int);
    }
    let num = (k as i128) * COULOMB_UNIT * (ca as i128) * (cb as i128);
    let acc = div_toward_zero(num, d2);
    split_along(acc, &diff)
}

/// Velocity change of endpoint `a` of a spring with rest length `rest` and
/// stiffness `k` (thousandths); the other endpoint takes its negation.
pub fn spring_pair(a: &Position, b: &Position, rest: i64, k: i64) -> (r: (i128, i128))
    requires
        a.wf(),
        b.wf(),
        0 <= rest <= LIMIT,
        0 <= k <= STIFFNESS_LIMIT,
    ensures
        (r.0 as int, r.1 as int) == spring_delta(*a, *b, rest as int, k as int),
        -FORCE_BOUND <= r.0 <= FORCE_BOUND,
        -FORCE_BOUND <= r.1 <= FORCE_BOUND,
{
    let diff = a.diff(b);
    let d2 = diff.dist_squared();
    if d2 < MIN_DIST_SQ {
        return (0, 0);
    }
    let d = diff.dist();
    let dev = rest as i128 - d;
    proof {
        lemma_mul_bound(dev as int, k as int, 0x8_0000_0000_0000, STIFFNESS_LIMIT as int);
    }
    let f = div_toward_zero(dev * (k as i128), SCALE as i128);
    split_along(f, &diff)
}

/// Velocity change of an entity at `p` pulled toward the pointer at `(mx, my)`.
pub fn mouse_pull(p: &Position, mx: i64, my: i64) -> (r: (i128, i128))
    requires
        p.wf(),
        in_range(mx as int),
        in_range(my as int),
    ensures
        (r.0 as int, r.1 as int) == mouse_delta(*p, mx as int, my as int),
        -FORCE_BOUND <= r.0 <= FORCE_BOUND,
        -FORCE_BOUND <= r.1 <= FORCE_BOUND,
{
    let m = Position { x: mx, y: my };
    let diff = m.diff(p);
    let d2 = diff.dist_squared();
    if d2 < MIN_DIST_SQ {
        return (0, 0);
    }
    let d = diff.dist();
    proof {
        lemma_mul_bound(d as int, SCALE as int, 0x4_0000_0000_0000, SCALE as int);
    }
    let ratio = d * (SCALE as i128) / (MOUSE_RANGE as i128);
    let t: i128 = if ratio < SCALE as i128 { ratio } else { SCALE as i128 };
    assert(0 <= t <= 1000) by {
        lemma_div_pos_is_pos(d * SCALE, MOUSE_RANGE as int);
    }
    assert(0 <= t * t <= 1_000_000 && 0 <= t * t * t <= 1_000_000_000) by (nonlinear_arith)
        requires
            0 <= t <= 1000,
    ;
    let t2 = t * t;
    let t3 = t2 * t;
    let num = 3 * t2 * (SCALE as i128) - 2 * t3;
    assert(num == 3 * t * t * SCALE - 2 * t * t * t) by (nonlinear_arith)
        requires
            t2 == t * t,
            t3 == t2 * t,
            num == 3 * t2 * SCALE - 2 * t3,
    ;
    let s = div_toward_zero(num, (SCALE as i128) * (SCALE as i128));
    proof {
        lemma_mul_bound(MOUSE_MAX_ACCEL as int, s as int, MOUSE_MAX_ACCEL as int, 3_000_000_000);
    }
    let acc = div_toward_zero((MOUSE_MAX_ACCEL as i128) * s, SCALE as i128);
    split_along(acc, &diff)
}

/// One tick of viscous damping on one velocity component.
pub fn damp_component(v: i64) -> (r: i64)
    requires
        in_range(v as int),
    ensures
        r == damped(v as int),
        in_range(r as int),
{
    proof {
        lemma_mul_bound(v as int, DAMPING as int, LIMIT as int, DAMPING as int);
    }
    let r = div_toward_zero((v as i128) * (DAMPING as i128), 1000);
    proof {
        lemma_damped_shrinks(v as int);
    }
    r as i64
}

/// Coordinate `p` moved at velocity `v` for `dt` milliseconds, saturated.
pub fn integrate_axis(p: i64, v: i64, dt: i64) -> (r: i64)
    requires
        in_range(p as int),
        in_range(v as int),
        0 <= dt,
    ensures
        r == integrated(p as int, v as int, dt as int),
        in_range(r as int),
{
    proof {
        lemma_mul_bound(v as int, dt as int, LIMIT as int, i64::MAX as int);
    }
    let step = div_toward_zero((v as i128) * (dt as i128), 1000);
    saturate(p as i128 + step)
}

/// Keeps a footprint of half-size `ext` at `p` inside `[0, size]` along one
/// axis, reversing and attenuating `v` when the coordinate had to move.
pub fn contain_axis(p: i64, v: i64, ext: i64, size: i64) -> (r: (i64, i64))
    requires
        in_range(p as int),
        in_range(v as int),
        0 <= ext <= LIMIT,
    ensures
        (r.0 as int, r.1 as int) == contained(p as int, v as int, ext as int, size as int),
        in_range(r.0 as int),
        in_range(r.1 as int),
{
    if (size as i128) < 2 * (ext as i128) {
        (p, v)
    } else if p < ext {
        (ext, bounce(v))
    } else if (p as i128) > (size as i128) - (ext as i128) {
        (size - ext, bounce(v))
    } else {
        (p, v)
    }
}

fn bounce(v: i64) -> (r: i64)
    requires
        in_range(v as int),
    ensures
        r == bounced(v as int),
        in_range(r as int),
{
    proof {
        lemma_mul_bound(v as int, RESTITUTION as int, LIMIT as int, RESTITUTION as int);
    }
    let q = div_toward_zero((v as i128) * (RESTITUTION as i128), 1000);
    assert(abs(q as int) <= abs(v as int)) by {
        lemma_scaled_down(v as int, RESTITUTION as int);
    }
    -(q as i64)
}

/// Scaling by fewer than a thousand thousandths never grows a magnitude, and
/// shrinks every nonzero one.
proof fn lemma_scaled_down(v: int, f: int)
    requires
        0 <= f < 1000,
    ensures
        abs(div_trunc(v * f, 1000)) <= abs(v),
        v != 0 ==> abs(div_trunc(v * f, 1000)) < abs(v),
        (v >= 0) == (div_trunc(v * f, 1000) >= 0) || div_trunc(v * f, 1000) == 0,
{
    let a = abs(v);
    assert(abs(v * f) == a * f) by (nonlinear_arith)
        requires
            a == abs(v),
            f >= 0,
    ;
    assert(0 <= a * f <= a * 1000 - a) by (nonlinear_arith)
        requires
            a >= 0,
            0 <= f < 1000,
    ;
    lemma_div_pos_is_pos(a * f, 1000);
    assert((a * f) / 1000 <= a - 1 || a == 0) by (nonlinear_arith)
        requires
            a >= 0,
            0 <= a * f <= a * 1000 - a,
    ;
    if v >= 0 {
        assert(v * f >= 0) by (nonlinear_arith)
            requires
                v >= 0,
                f >= 0,
        ;
    } else {
        assert(v * f <= 0) by (nonlinear_arith)
            requires
                v < 0,
                f >= 0,
        ;
    }
}

pub proof fn lemma_bounce_in_range(v: int)
    requires
        in_range(v),
    ensures
        in_range(bounced(v)),
{
    lemma_scaled_down(v, RESTITUTION as int);
}

pub proof fn lemma_damped_in_range(v: int)
    requires
        in_range(v),
    ensures
        in_range(damped(v)),
{
    lemma_damped_shrinks(v);
}

proof fn lemma_damped_shrinks(v: int)
    ensures
        abs(damped(v)) <= abs(v),
        v != 0 ==> abs(damped(v)) < abs(v),
{
    lemma_scaled_down(v, DAMPING as int);
}

proof fn lemma_div_trunc_sign(x: int, d: int)
    requires
        d > 0,
    ensures
        x >= 0 ==> div_trunc(x, d) >= 0,
        x <= 0 ==> div_trunc(x, d) <= 0,
{
    if x >= 0 {
        lemma_div_pos_is_pos(x, d);
    } else {
        lemma_div_pos_is_pos(-x, d);
    }
}

/// Rounding toward zero is off by less than one divisor.
proof fn lemma_div_trunc_close(x: int, d: int)
    requires
        d > 0,
    ensures
        abs(div_trunc(x, d) * d - x) < d,
{
    let y = abs(x);
    lemma_fundamental_div_mod(y, d);
    lemma_mod_bound(y, d);
    assert(d * (y / d) == (y / d) * d) by (nonlinear_arith);
    if x < 0 {
        assert(-(y / d) * d == -((y / d) * d)) by (nonlinear_arith);
    }
}

/// Charges of equal magnitude and opposite sign, farther apart than the
/// guard, attract: the force on `a` has magnitude `k·|c1·c2|/d²` (fixed-point,
/// rounded down) and points toward `b`; each component of the change is the
/// projection `acc·dx/d` onto the line from `a` to `b`, off by less than one
/// unit (`d` the distance rounded down).
pub proof fn lemma_opposite_charges_attract(k: int, a: Position, b: Position, c: int)
    requires
        0 <= k <= COULOMB_K_LIMIT,
        a.wf(),
        b.wf(),
        -CHARGE_LIMIT <= c <= CHARGE_LIMIT,
        (a.x - b.x) * (a.x - b.x) + (a.y - b.y) * (a.y - b.y) >= MIN_DIST_SQ,
    ensures
        ({
            let dx = a.x - b.x;
            let dy = a.y - b.y;
            let d2 = dx * dx + dy * dy;
            let acc = coulomb_accel(k, c, -c, d2);
            let r = coulomb_delta(k, a, b, c, -c);
            &&& abs(acc) == k * COULOMB_UNIT * abs(c * -c) / d2
            &&& acc <= 0
            &&& r == along(acc, dx, dy, floor_sqrt(d2))
            &&& r.0 * dx <= 0
            &&& r.1 * dy <= 0
            &&& abs(r.0 * floor_sqrt(d2) - acc * dx) < floor_sqrt(d2)
            &&& abs(r.1 * floor_sqrt(d2) - acc * dy) < floor_sqrt(d2)
        }),
{
    let dx = a.x - b.x;
    let dy = a.y - b.y;
    let d2 = dx * dx + dy * dy;
    let m = k * COULOMB_UNIT * (c * c);
    assert(m >= 0 && k * COULOMB_UNIT * c * -c == -m && abs(c * -c) == c * c) by (nonlinear_arith)
        requires
            k >= 0,
            m == k * COULOMB_UNIT * (c * c),
    ;
    lemma_div_pos_is_pos(m, d2);
    let acc = coulomb_accel(k, c, -c, d2);
    assert(acc <= 0);
    let d = floor_sqrt(d2);
    assert(is_floor_sqrt(d2, d)) by {
        assert(d2 >= 0) by (nonlinear_arith)
            requires
                d2 == dx * dx + dy * dy,
        ;
        lemma_floor_sqrt_exists(d2);
    }
    lemma_dist_positive(d2, d);
    assert((dx >= 0 ==> acc * dx <= 0) && (dx <= 0 ==> acc * dx >= 0)) by (nonlinear_arith)
        requires
            acc <= 0,
    ;
    assert((dy >= 0 ==> acc * dy <= 0) && (dy <= 0 ==> acc * dy >= 0)) by (nonlinear_arith)
        requires
            acc <= 0,
    ;
    lemma_div_trunc_sign(acc * dx, d);
    lemma_div_trunc_sign(acc * dy, d);
    lemma_div_trunc_close(acc * dx, d);
    lemma_div_trunc_close(acc * dy, d);
    let r = along(acc, dx, dy, d);
    assert(r.0 * dx <= 0) by (nonlinear_arith)
        requires
            dx >= 0 ==> r.0 <= 0,
            dx <= 0 ==> r.0 >= 0,
    ;
    assert(r.1 * dy <= 0) by (nonlinear_arith)
        requires
            dy >= 0 ==> r.1 <= 0,
            dy <= 0 ==> r.1 >= 0,
    ;
}

/// Containment is idempotent: a second pass with no motion in between moves
/// nothing and leaves the velocity as the first pass left it.
pub proof fn lemma_containment_idempotent(p: int, v: int, ext: int, size: int)
    requires
        0 <= ext,
    ensures
        contained(contained(p, v, ext, size).0, contained(p, v, ext, size).1, ext, size)
            == contained(p, v, ext, size),
{
}

/// Velocity component after `n` ticks of damping with no force.
pub open spec fn damped_n(v: int, n: nat) -> int
    decreases n,
{
    if n == 0 {
        v
    } else {
        damped(damped_n(v, (n - 1) as nat))
    }
}

proof fn lemma_square_monotone(a: int, b: int)
    requires
        abs(a) <= abs(b),
    ensures
        a * a <= b * b,
        abs(a) < abs(b) ==> a * a < b * b,
{
    assert(a * a == abs(a) * abs(a) && b * b == abs(b) * abs(b)) by (nonlinear_arith);
    assert(abs(a) * abs(a) <= abs(b) * abs(b)) by (nonlinear_arith)
        requires
            0 <= abs(a) <= abs(b),
    ;
    if abs(a) < abs(b) {
        assert(abs(a) * abs(a) < abs(b) * abs(b)) by (nonlinear_arith)
            requires
                0 <= abs(a) < abs(b),
        ;
    }
}

/// Damping with no force input strictly lowers the squared speed of a moving
/// entity, and leaves a resting one at rest.
pub proof fn lemma_damping_decreases(vx: int, vy: int)
    ensures
        damped(vx) * damped(vx) + damped(vy) * damped(vy) <= vx * vx + vy * vy,
        vx != 0 || vy != 0 ==> damped(vx) * damped(vx) + damped(vy) * damped(vy) < vx * vx + vy
            * vy,
        vx == 0 && vy == 0 ==> damped(vx) == 0 && damped(vy) == 0,
{
    lemma_damped_shrinks(vx);
    lemma_damped_shrinks(vy);
    lemma_square_monotone(damped(vx), vx);
    lemma_square_monotone(damped(vy), vy);
}

/// Damping with no force input brings a velocity component to exactly zero
/// after at most its magnitude in ticks.
pub proof fn lemma_damping_reaches_zero(v: int, n: nat)
    requires
        n >= abs(v),
    ensures
        damped_n(v, n) == 0,
{
    lemma_damped_n_bound(v, n);
}

/// `n` damping steps never grow a magnitude, and take off at least one unit
/// per step until zero.
pub proof fn lemma_damped_n_bound(v: int, n: nat)
    ensures
        abs(damped_n(v, n)) <= if n >= abs(v) { 0 } else { abs(v) - n },
    decreases n,
{
    if n > 0 {
        lemma_damped_n_bound(v, (n - 1) as nat);
        lemma_damped_shrinks(damped_n(v, (n - 1) as nat));
    }
}

} // verus!
