//! Fixed-point point masses in the plane and the inverse-distance force law.
//!
//! Coordinates and velocity components are integers in grid units, masses are
//! positive integers, and forces are integers in units of `1 / FORCE_SCALE`.
use crate::sums::{lemma_mass_bounds, lemma_total_prefix, mass_of, total};
use vstd::arithmetic::div_mod::{lemma_div_by_multiple, lemma_div_is_ordered};
use vstd::prelude::*;

verus! {

/// Largest absolute value of a coordinate or of a velocity component.
pub const COORD_LIMIT: i64 = 1073741824;

/// Largest mass of a single particle.
pub const MASS_LIMIT: u64 = 1048576;

/// Largest number of particles in one snapshot.
pub const MAX_PARTICLES: usize = 1048576;

/// Largest total mass of a snapshot: `MASS_LIMIT * MAX_PARTICLES`.
pub const TOTAL_MASS_LIMIT: u64 = 1099511627776;

/// Forces are reported in units of `1 / FORCE_SCALE`.
pub const FORCE_SCALE: i128 = 65536;

/// A two-dimensional integer vector.
#[derive(Clone, Copy, PartialEq, Eq, Structural, Debug)]
pub struct PhysVec {
    pub x: i64,
    pub y: i64,
}

/// A point mass: position, velocity and mass.
#[derive(Clone, Copy, PartialEq, Eq, Structural, Debug)]
pub struct Particle {
    pub pos: PhysVec,
    pub vel: PhysVec,
    pub mass: u64,
}

/// A force (or a sum of forces), in units of `1 / FORCE_SCALE`.
#[derive(Clone, Copy, PartialEq, Eq, Structural, Debug)]
pub struct Force {
    pub x: i128,
    pub y: i128,
}

/// A non-negative rational number `num / den`.
#[derive(Clone, Copy, PartialEq, Eq, Structural, Debug)]
pub struct Ratio {
    pub num: u32,
    pub den: u32,
}

impl Ratio {
    pub open spec fn wf(self) -> bool {
        self.den > 0
    }
}

/// Division that rounds toward zero, as a cast of a real quotient to an integer does.
pub open spec fn trunc_div(n: int, d: int) -> int {
    if n >= 0 {
        n / d
    } else {
        -((-n) / d)
    }
}

pub open spec fn in_coord_range(v: int) -> bool {
    -COORD_LIMIT <= v <= COORD_LIMIT
}

pub open spec fn vec_in_range(v: PhysVec) -> bool {
    in_coord_range(v.x as int) && in_coord_range(v.y as int)
}

impl Particle {
    /// Position and velocity within `COORD_LIMIT`, mass in `1..=MASS_LIMIT`.
    pub open spec fn wf(self) -> bool {
        &&& vec_in_range(self.pos)
        &&& vec_in_range(self.vel)
        &&& 1 <= self.mass <= MASS_LIMIT
    }
}

/// Every particle is well formed and there are at most `MAX_PARTICLES` of them.
pub open spec fn snapshot_wf(ps: Seq<Particle>) -> bool {
    &&& ps.len() <= MAX_PARTICLES
    &&& forall|i: int| 0 <= i < ps.len() ==> (#[trigger] ps[i]).wf()
}

/// The force that `p2` exerts on `p1`: `m1 * m2 * d / |d|^2`, where `d` points
/// from `p1` toward `p2`, scaled by `FORCE_SCALE` and rounded toward zero.
/// Two particles at the same position exert no force on each other.
pub open spec fn pair_force(p1: Particle, p2: Particle) -> (int, int) {
    let dx = p2.pos.x - p1.pos.x;
    let dy = p2.pos.y - p1.pos.y;
    let d2 = dx * dx + dy * dy;
    if d2 == 0 {
        (0, 0)
    } else {
        let k = FORCE_SCALE * p1.mass * p2.mass;
        (trunc_div(k * dx, d2), trunc_div(k * dy, d2))
    }
}

/// The arguments of the force law stay within the range where it is computed exactly:
/// coordinates within `COORD_LIMIT`, the target's mass within `MASS_LIMIT` and the
/// source's (possibly aggregate) mass within `TOTAL_MASS_LIMIT`.
pub open spec fn force_args_ok(p1: Particle, p2: Particle) -> bool {
    &&& vec_in_range(p1.pos)
    &&& vec_in_range(p2.pos)
    &&& p1.mass <= MASS_LIMIT
    &&& p2.mass <= TOTAL_MASS_LIMIT
}

/// Largest integer whose square is at most `n`.
pub open spec fn is_isqrt(r: int, n: int) -> bool {
    r >= 0 && r * r <= n < (r + 1) * (r + 1)
}

impl PhysVec {
    /// Adds `other` to `self`, component by component.
    pub fn add(&mut self, other: &PhysVec)
        requires
            i64::MIN <= old(self).x + other.x <= i64::MAX,
            i64::MIN <= old(self).y + other.y <= i64::MAX,
        ensures
            final(self).x == old(self).x + other.x,
            final(self).y == old(self).y + other.y,
    {
        self.x = self.x + other.x;
        self.y = self.y + other.y;
    }

    /// The dot product.
    pub fn dot(&self, other: &PhysVec) -> (r: i128)
        requires
            self.x * other.x + self.y * other.y <= i128::MAX,
        ensures
            r == self.x * other.x + self.y * other.y,
    {
        let (x1, x2, y1, y2) = (self.x as i128, other.x as i128, self.y as i128, other.y as i128);
        assert(-0x4000_0000_0000_0000_0000_0000_0000_0000int <= x1 * x2
            <= 0x4000_0000_0000_0000_0000_0000_0000_0000int) by (nonlinear_arith)
            requires
                -0x8000_0000_0000_0000int <= x1 <= 0x8000_0000_0000_0000int,
                -0x8000_0000_0000_0000int <= x2 <= 0x8000_0000_0000_0000int,
        ;
        assert(-0x4000_0000_0000_0000_0000_0000_0000_0000int <= y1 * y2
            <= 0x4000_0000_0000_0000_0000_0000_0000_0000int) by (nonlinear_arith)
            requires
                -0x8000_0000_0000_0000int <= y1 <= 0x8000_0000_0000_0000int,
                -0x8000_0000_0000_0000int <= y2 <= 0x8000_0000_0000_0000int,
        ;
        x1 * x2 + y1 * y2
    }

    /// The Euclidean length, rounded down to an integer.
    pub fn modulus(&self) -> (r: u64)
        ensures
            is_isqrt(r as int, self.x * self.x + self.y * self.y),
    {
        let ax: u128 = if self.x < 0 { (-(self.x as i128)) as u128 } else { self.x as u128 };
        let ay: u128 = if self.y < 0 { (-(self.y as i128)) as u128 } else { self.y as u128 };
        assert(ax * ax <= 0x4000_0000_0000_0000_0000_0000_0000_0000int) by (nonlinear_arith)
            requires
                ax <= 0x8000_0000_0000_0000int,
        ;
        assert(ay * ay <= 0x4000_0000_0000_0000_0000_0000_0000_0000int) by (nonlinear_arith)
            requires
                ay <= 0x8000_0000_0000_0000int,
        ;
        let n: u128 = ax * ax + ay * ay;
        assert(n == self.x * self.x + self.y * self.y) by (nonlinear_arith)
            requires
                n == ax * ax + ay * ay,
                ax == self.x || ax == -self.x,
                ay == self.y || ay == -self.y,
        ;
        isqrt(n)
    }

    /// The vector pointing from `self` toward `v2`.
    pub fn diff(&self, v2: PhysVec) -> (r: PhysVec)
        requires
            i64::MIN <= v2.x - self.x <= i64::MAX,
            i64::MIN <= v2.y - self.y <= i64::MAX,
        ensures
            r.x == v2.x - self.x,
            r.y == v2.y - self.y,
    {
        PhysVec { x: v2.x - self.x, y: v2.y - self.y }
    }
}

/// Integer square root by bisection.
fn isqrt(n: u128) -> (r: u64)
    requires
        n <= 0x8000_0000_0000_0000_0000_0000_0000_0000int,
    ensures
        is_isqrt(r as int, n as int),
{
    let mut lo: u128 = 0;
    let mut hi: u128 = 0x1_0000_0000_0000_0000;
    assert(n < hi * hi) by (nonlinear_arith)
        requires
            hi == 0x1_0000_0000_0000_0000int,
            n <= 0x8000_0000_0000_0000_0000_0000_0000_0000int,
    ;
    while hi - lo > 1
        invariant
            lo < hi <= 0x1_0000_0000_0000_0000int,
            lo * lo <= n < hi * hi,
        decreases hi - lo,
    {
        let mid = lo + (hi - lo) / 2;
        assert(mid * mid < 0x1_0000_0000_0000_0000_0000_0000_0000_0000int) by (nonlinear_arith)
            requires
                mid < 0x1_0000_0000_0000_0000int,
        ;
        if mid * mid <= n {
            lo = mid;
        } else {
            hi = mid;
        }
    }
    assert(hi == lo + 1);
    lo as u64
}

impl Force {
    pub fn zero() -> (r: Force)
        ensures
            r.x == 0 && r.y == 0,
    {
        Force { x: 0, y: 0 }
    }

    /// Adds `other` to `self`, component by component.
    pub fn add(&mut self, other: &Force)
        requires
            i128::MIN <= old(self).x + other.x <= i128::MAX,
            i128::MIN <= old(self).y + other.y <= i128::MAX,
        ensures
            final(self).x == old(self).x + other.x,
            final(self).y == old(self).y + other.y,
    {
        self.x = self.x + other.x;
        self.y = self.y + other.y;
    }
}

/// `trunc_div(n, d)` lies within `[-b, b]` when `|n| <= b * d`.
pub proof fn lemma_trunc_div_bound(n: int, d: int, b: int)
    requires
        d > 0,
        b >= 0,
        -(b * d) <= n <= b * d,
    ensures
        -b <= trunc_div(n, d) <= b,
{
    lemma_div_by_multiple(b, d);
    if n >= 0 {
        lemma_div_is_ordered(n, b * d, d);
        lemma_div_is_ordered(0, n, d);
    } else {
        lemma_div_is_ordered(-n, b * d, d);
        lemma_div_is_ordered(0, -n, d);
    }
}

/// Quotient rounded toward zero, for a positive divisor.
pub fn trunc_div_exec(n: i128, d: i128) -> (r: i128)
    requires
        d > 0,
        n > i128::MIN,
    ensures
        r == trunc_div(n as int, d as int),
{
    if n >= 0 {
        n / d
    } else {
        -((-n) / d)
    }
}

/// The force law, with its bound: each component is at most
/// `FORCE_SCALE * m1 * m2` in absolute value.
pub proof fn lemma_pair_force_bound(p1: Particle, p2: Particle)
    ensures
        -(FORCE_SCALE * p1.mass * p2.mass) <= pair_force(p1, p2).0 <= FORCE_SCALE * p1.mass * p2.mass,
        -(FORCE_SCALE * p1.mass * p2.mass) <= pair_force(p1, p2).1 <= FORCE_SCALE * p1.mass * p2.mass,
{
    let dx = p2.pos.x - p1.pos.x;
    let dy = p2.pos.y - p1.pos.y;
    let d2 = dx * dx + dy * dy;
    let k = FORCE_SCALE * p1.mass * p2.mass;
    assert(k >= 0) by (nonlinear_arith)
        requires
            k == FORCE_SCALE * p1.mass * p2.mass,
            p1.mass >= 0,
            p2.mass >= 0,
    ;
    if d2 != 0 {
        assert(d2 > 0 && -(k * d2) <= k * dx <= k * d2 && -(k * d2) <= k * dy <= k * d2)
            by (nonlinear_arith)
            requires
                d2 == dx * dx + dy * dy,
                d2 != 0,
                k >= 0,
        ;
        lemma_trunc_div_bound(k * dx, d2, k);
        lemma_trunc_div_bound(k * dy, d2, k);
    }
}

/// The force that `p2` exerts on `p1` (see `pair_force`).
pub fn force(p1: &Particle, p2: &Particle) -> (r: Force)
    requires
        force_args_ok(*p1, *p2),
    ensures
        r.x == pair_force(*p1, *p2).0,
        r.y == pair_force(*p1, *p2).1,
{
    proof {
        lemma_pair_force_bound(*p1, *p2);
    }
    let dx: i128 = p2.pos.x as i128 - p1.pos.x as i128;
    let dy: i128 = p2.pos.y as i128 - p1.pos.y as i128;
    assert(0 <= dx * dx <= 0x10_0000_0000_0000_0000int && 0 <= dy * dy <= 0x10_0000_0000_0000_0000int)
        by (nonlinear_arith)
        requires
            -0x8000_0000int <= dx <= 0x8000_0000int,
            -0x8000_0000int <= dy <= 0x8000_0000int,
    ;
    let d2: i128 = dx * dx + dy * dy;
    if d2 == 0 {
        return Force { x: 0, y: 0 };
    }
    let m1 = p1.mass as i128;
    let m2 = p2.mass as i128;
    assert(FORCE_SCALE * m1 * m2 <= 0x1000_0000_0000_0000_0000int) by (nonlinear_arith)
        requires
            0 <= m1 <= MASS_LIMIT,
            0 <= m2 <= TOTAL_MASS_LIMIT,
    ;
    let k: i128 = FORCE_SCALE * m1 * m2;
    assert(-0x800_0000_0000_0000_0000_0000_0000int <= k * dx <= 0x800_0000_0000_0000_0000_0000_0000int
        && -0x800_0000_0000_0000_0000_0000_0000int <= k * dy <= 0x800_0000_0000_0000_0000_0000_0000int)
        by (nonlinear_arith)
        requires
            0 <= k <= 0x1000_0000_0000_0000_0000int,
            -0x8000_0000int <= dx <= 0x8000_0000int,
            -0x8000_0000int <= dy <= 0x8000_0000int,
    ;
    let fx = trunc_div_exec(k * dx, d2);
    let fy = trunc_div_exec(k * dy, d2);
    Force { x: fx, y: fy }
}

/// Largest absolute value of a force component handed to the integrator.
pub const FORCE_LIMIT: i128 = 151115727451828646838272;

/// Velocity component after a kick by force component `f` over `dt`:
/// `v + f * dt / (m * FORCE_SCALE)` rounded toward zero, or minus that when
/// `sense` is false.
pub open spec fn kicked(v: int, f: int, m: int, sense: bool, dt: Ratio) -> int {
    let dv = trunc_div(f * dt.num, m * dt.den * FORCE_SCALE);
    if sense {
        v + dv
    } else {
        v - dv
    }
}

/// Coordinate after a drift at velocity component `v` over `dt`:
/// `x + v * dt` rounded toward zero.
pub open spec fn drifted(x: int, v: int, dt: Ratio) -> int {
    x + trunc_div(v * dt.num, dt.den as int)
}

pub open spec fn force_in_range(f: Force) -> bool {
    -FORCE_LIMIT <= f.x <= FORCE_LIMIT && -FORCE_LIMIT <= f.y <= FORCE_LIMIT
}

/// Kicks one velocity component; the result is exact, in `i128`.
fn kick_component(v: i64, f: i128, m: u64, sense: bool, dt: Ratio) -> (r: i128)
    requires
        -FORCE_LIMIT <= f <= FORCE_LIMIT,
        1 <= m <= MASS_LIMIT,
        dt.wf(),
    ensures
        r == kicked(v as int, f as int, m as int, sense, dt),
{
    assert(-0x8000_0000_0000_0000_0000_0000_0000int <= f * dt.num <= 0x8000_0000_0000_0000_0000_0000_0000int) by (
    nonlinear_arith)
        requires
            -FORCE_LIMIT <= f <= FORCE_LIMIT,
            0 <= dt.num <= 0xffff_ffffint,
    ;
    assert(1 <= m * dt.den * FORCE_SCALE <= 0x10_0000_0000_0000_0000int) by (nonlinear_arith)
        requires
            1 <= m <= MASS_LIMIT,
            1 <= dt.den <= 0xffff_ffffint,
    ;
    let n = f * (dt.num as i128);
    let d = (m as i128) * (dt.den as i128) * FORCE_SCALE;
    let dv = trunc_div_exec(n, d);
    proof {
        lemma_trunc_div_bound(n as int, d as int, 0x8000_0000_0000_0000_0000_0000_0000int);
        assert(0x8000_0000_0000_0000_0000_0000_0000int * d >= 0x8000_0000_0000_0000_0000_0000_0000int) by (
        nonlinear_arith)
            requires
                d >= 1,
        ;
    }
    if sense {
        v as i128 + dv
    } else {
        v as i128 - dv
    }
}

/// Drifts one coordinate; the result is exact, in `i128`.
fn drift_component(x: i64, v: i64, dt: Ratio) -> (r: i128)
    requires
        in_coord_range(x as int),
        in_coord_range(v as int),
        dt.wf(),
    ensures
        r == drifted(x as int, v as int, dt),
        -0x2_0000_0000_0000_0000int <= r <= 0x2_0000_0000_0000_0000int,
{
    assert(-0x1_0000_0000_0000_0000int <= v * dt.num <= 0x1_0000_0000_0000_0000int) by (
    nonlinear_arith)
        requires
            in_coord_range(v as int),
            0 <= dt.num <= 0xffff_ffffint,
    ;
    let n = (v as i128) * (dt.num as i128);
    let q = trunc_div_exec(n, dt.den as i128);
    proof {
        lemma_trunc_div_bound(n as int, dt.den as int, 0x1_0000_0000_0000_0000int);
        assert(0x1_0000_0000_0000_0000int * dt.den >= 0x1_0000_0000_0000_0000int) by (
        nonlinear_arith)
            requires
                dt.den >= 1,
        ;
    }
    x as i128 + q
}

/// Velocity update: kicks the velocity of `p` by `force` over `dt` (see
/// `kicked`). Where a new component would leave `COORD_LIMIT`, `p` is left
/// as it was and the result is false.
pub fn stepvel(p: &mut Particle, force: Force, sense: bool, dt: Ratio) -> (ok: bool)
    requires
        old(p).wf(),
        force_in_range(force),
        dt.wf(),
    ensures
        ok == (in_coord_range(kicked(old(p).vel.x as int, force.x as int, old(p).mass as int, sense, dt))
            && in_coord_range(kicked(old(p).vel.y as int, force.y as int, old(p).mass as int, sense, dt))),
        ok ==> final(p).vel.x == kicked(old(p).vel.x as int, force.x as int, old(p).mass as int, sense, dt),
        ok ==> final(p).vel.y == kicked(old(p).vel.y as int, force.y as int, old(p).mass as int, sense, dt),
        ok ==> final(p).pos == old(p).pos && final(p).mass == old(p).mass,
        ok ==> final(p).wf(),
        !ok ==> *final(p) == *old(p),
{
    let vx = kick_component(p.vel.x, force.x, p.mass, sense, dt);
    let vy = kick_component(p.vel.y, force.y, p.mass, sense, dt);
    let lim = COORD_LIMIT as i128;
    if -lim <= vx && vx <= lim && -lim <= vy && vy <= lim {
        p.vel = PhysVec { x: vx as i64, y: vy as i64 };
        true
    } else {
        false
    }
}

impl Particle {
    /// Position update: drifts `self` at its velocity over `dt` (see
    /// `drifted`). Where a new coordinate would leave `COORD_LIMIT`, `self`
    /// is left as it was and the result is false.
    pub fn steppos(&mut self, dt: Ratio) -> (ok: bool)
        requires
            old(self).wf(),
            dt.wf(),
        ensures
            ok == (in_coord_range(drifted(old(self).pos.x as int, old(self).vel.x as int, dt))
                && in_coord_range(drifted(old(self).pos.y as int, old(self).vel.y as int, dt))),
            ok ==> final(self).pos.x == drifted(old(self).pos.x as int, old(self).vel.x as int, dt),
            ok ==> final(self).pos.y == drifted(old(self).pos.y as int, old(self).vel.y as int, dt),
            ok ==> final(self).vel == old(self).vel && final(self).mass == old(self).mass,
            ok ==> final(self).wf(),
            !ok ==> *final(self) == *old(self),
    {
        let x = drift_component(self.pos.x, self.vel.x, dt);
        let y = drift_component(self.pos.y, self.vel.y, dt);
        let lim = COORD_LIMIT as i128;
        if -lim <= x && x <= lim && -lim <= y && y <= lim {
            self.pos = PhysVec { x: x as i64, y: y as i64 };
            true
        } else {
            false
        }
    }
}

/// One integration step under force `f` stays within `COORD_LIMIT`.
pub open spec fn integrate_ok(p: Particle, f: (int, int), dt: Ratio) -> bool {
    let vx = kicked(p.vel.x as int, f.0, p.mass as int, true, dt);
    let vy = kicked(p.vel.y as int, f.1, p.mass as int, true, dt);
    &&& in_coord_range(vx)
    &&& in_coord_range(vy)
    &&& in_coord_range(drifted(p.pos.x as int, vx, dt))
    &&& in_coord_range(drifted(p.pos.y as int, vy, dt))
}

/// `p` after one integration step under force `f`: the velocity is kicked
/// first, then the position drifts at the new velocity.
pub open spec fn integrated(p: Particle, f: (int, int), dt: Ratio) -> Particle {
    let vx = kicked(p.vel.x as int, f.0, p.mass as int, true, dt);
    let vy = kicked(p.vel.y as int, f.1, p.mass as int, true, dt);
    Particle {
        pos: PhysVec { x: drifted(p.pos.x as int, vx, dt) as i64, y: drifted(p.pos.y as int, vy, dt) as i64 },
        vel: PhysVec { x: vx as i64, y: vy as i64 },
        mass: p.mass,
    }
}

/// Why a step was refused.
#[derive(Clone, Copy, PartialEq, Eq, Structural, Debug)]
pub enum StepError {
    /// Some particle would leave `COORD_LIMIT`.
    OutOfRange,
}

/// A copy of `v`.
pub fn copy_particles(v: &Vec<Particle>) -> (r: Vec<Particle>)
    ensures
        r@ == v@,
{
    let mut r: Vec<Particle> = Vec::new();
    let mut i: usize = 0;
    while i < v.len()
        invariant
            i <= v.len(),
            r@ == v@.subrange(0, i as int),
        decreases v.len() - i,
    {
        r.push(v[i]);
        i += 1;
    }
    assert(r@ =~= v@);
    r
}

/// The forces of `fs` as pairs of integers.
pub open spec fn force_pairs(fs: Seq<Force>) -> Seq<(int, int)> {
    fs.map_values(|f: Force| (f.x as int, f.y as int))
}

/// The snapshot after one integration step of each `ps[i]` under `fs[i]`, or
/// `None` where some force exceeds `FORCE_LIMIT` or some particle would leave
/// `COORD_LIMIT`.
pub open spec fn step_outcome(ps: Seq<Particle>, fs: Seq<(int, int)>, dt: Ratio) -> Option<
    Seq<Particle>,
> {
    if forall|i: int|
        0 <= i < ps.len() ==> -FORCE_LIMIT <= (#[trigger] fs[i]).0 <= FORCE_LIMIT && -FORCE_LIMIT
            <= fs[i].1 <= FORCE_LIMIT && integrate_ok(ps[i], fs[i], dt) {
        Some(Seq::new(ps.len(), |i: int| integrated(ps[i], fs[i], dt)))
    } else {
        None
    }
}

/// Applies one integration step to every particle, the `i`-th under
/// `forces[i]` (see `step_outcome`). Where that is refused, nothing changes
/// and the result is `OutOfRange`.
pub fn apply_forces(particles: &mut Vec<Particle>, forces: &Vec<Force>, dt: Ratio) -> (r: Result<
    (),
    StepError,
>)
    requires
        snapshot_wf(old(particles)@),
        forces@.len() == old(particles)@.len(),
        dt.wf(),
    ensures
        match step_outcome(old(particles)@, force_pairs(forces@), dt) {
            Some(next) => r is Ok && final(particles)@ == next,
            None => r == Err::<(), StepError>(StepError::OutOfRange) && final(particles)@ == old(
                particles,
            )@,
        },
        r is Ok ==> snapshot_wf(final(particles)@),
{
    let ghost ps = particles@;
    let ghost fs = force_pairs(forces@);
    let n = particles.len();
    let mut next: Vec<Particle> = Vec::new();
    let mut i: usize = 0;
    let lim = FORCE_LIMIT;
    while i < n
        invariant
            i <= n,
            n == ps.len(),
            particles@ == ps,
            snapshot_wf(ps),
            forces@.len() == n,
            fs == force_pairs(forces@),
            dt.wf(),
            lim == FORCE_LIMIT,
            next@.len() == i,
            forall|k: int|
                0 <= k < i ==> -FORCE_LIMIT <= (#[trigger] fs[k]).0 <= FORCE_LIMIT && -FORCE_LIMIT
                    <= fs[k].1 <= FORCE_LIMIT && integrate_ok(ps[k], fs[k], dt),
            forall|k: int| 0 <= k < i ==> #[trigger] next@[k] == integrated(ps[k], fs[k], dt),
            forall|k: int| 0 <= k < i ==> (#[trigger] next@[k]).wf(),
        decreases n - i,
    {
        let mut p = particles[i];
        let f = forces[i];
        assert(ps[i as int].wf());
        assert(fs[i as int] == (f.x as int, f.y as int));
        if !(-lim <= f.x && f.x <= lim && -lim <= f.y && f.y <= lim) {
            return Err(StepError::OutOfRange);
        }
        if !stepvel(&mut p, f, true, dt) {
            return Err(StepError::OutOfRange);
        }
        if !p.steppos(dt) {
            return Err(StepError::OutOfRange);
        }
        next.push(p);
        i += 1;
    }
    assert(next@ =~= Seq::new(ps.len(), |k: int| integrated(ps[k], fs[k], dt)));
    *particles = next;
    Ok(())
}

/// The `x` component of the force that `q` exerts on `p`, nothing where `q` is `p`.
pub open spec fn exact_x(p: Particle) -> spec_fn(Particle) -> int {
    |q: Particle| if q == p { 0 } else { pair_force(p, q).0 }
}

/// The `y` component of the force that `q` exerts on `p`, nothing where `q` is `p`.
pub open spec fn exact_y(p: Particle) -> spec_fn(Particle) -> int {
    |q: Particle| if q == p { 0 } else { pair_force(p, q).1 }
}

/// The exact force on `p`: the sum of the pairwise forces of every other particle of `ps`.
pub open spec fn exact_force_of(ps: Seq<Particle>, p: Particle) -> (int, int) {
    (total(ps, exact_x(p)), total(ps, exact_y(p)))
}

pub open spec fn exact_forces_of(ps: Seq<Particle>) -> Seq<(int, int)> {
    Seq::new(ps.len(), |i: int| exact_force_of(ps, ps[i]))
}

/// The exact force on `p` from every particle of `particles` other than `p`
/// itself, summed pair by pair.
pub fn exact_force(particles: &Vec<Particle>, p: &Particle) -> (r: Force)
    requires
        snapshot_wf(particles@),
        p.wf(),
    ensures
        (r.x as int, r.y as int) == exact_force_of(particles@, *p),
        force_in_range(r),
{
    let ghost ps = particles@;
    let ghost k = FORCE_SCALE * p.mass;
    let mut tot = Force::zero();
    let mut i: usize = 0;
    assert(0 <= k <= 0x10_0000_0000int);
    while i < particles.len()
        invariant
            i <= ps.len(),
            ps == particles@,
            snapshot_wf(ps),
            p.wf(),
            k == FORCE_SCALE * p.mass,
            0 <= k <= 0x10_0000_0000int,
            tot.x == total(ps.subrange(0, i as int), exact_x(*p)),
            tot.y == total(ps.subrange(0, i as int), exact_y(*p)),
            -(k * total(ps.subrange(0, i as int), mass_of())) <= tot.x <= k * total(
                ps.subrange(0, i as int),
                mass_of(),
            ),
            -(k * total(ps.subrange(0, i as int), mass_of())) <= tot.y <= k * total(
                ps.subrange(0, i as int),
                mass_of(),
            ),
        decreases ps.len() - i,
    {
        let q = particles[i];
        let ghost m0 = total(ps.subrange(0, i as int), mass_of());
        proof {
            assert(q.wf());
            lemma_total_prefix(ps, i as int, exact_x(*p));
            lemma_total_prefix(ps, i as int, exact_y(*p));
            lemma_total_prefix(ps, i as int, mass_of());
            lemma_pair_force_bound(*p, q);
            lemma_mass_bounds(ps.subrange(0, i + 1));
            assert(k * (m0 + q.mass) == k * m0 + k * q.mass) by (nonlinear_arith);
            assert(FORCE_SCALE * p.mass * q.mass == k * q.mass);
            assert(k * (m0 + q.mass) <= 0x10_0000_0000int * TOTAL_MASS_LIMIT) by (nonlinear_arith)
                requires
                    0 <= k <= 0x10_0000_0000int,
                    0 <= m0 + q.mass <= (i + 1) * MASS_LIMIT,
                    i + 1 <= MAX_PARTICLES,
            ;
        }
        if q != *p {
            let f = force(p, &q);
            tot.add(&f);
        }
        i += 1;
    }
    proof {
        assert(ps.subrange(0, ps.len() as int) =~= ps);
        lemma_mass_bounds(ps);
        assert(k * total(ps, mass_of()) <= FORCE_LIMIT) by (nonlinear_arith)
            requires
                0 <= k <= 0x10_0000_0000int,
                total(ps, mass_of()) <= ps.len() * MASS_LIMIT,
                ps.len() <= MAX_PARTICLES,
        ;
    }
    tot
}

/// One exact step: the force on every particle is the sum of the pairwise
/// forces of all the others, then every particle is integrated (see
/// `step_outcome`). Where that is refused, nothing changes and the result is
/// `OutOfRange`.
pub fn stepsim(particles: &mut Vec<Particle>, dt: Ratio) -> (r: Result<(), StepError>)
    requires
        snapshot_wf(old(particles)@),
        dt.wf(),
    ensures
        match step_outcome(old(particles)@, exact_forces_of(old(particles)@), dt) {
            Some(next) => r is Ok && final(particles)@ == next,
            None => r == Err::<(), StepError>(StepError::OutOfRange) && final(particles)@ == old(
                particles,
            )@,
        },
        r is Ok ==> snapshot_wf(final(particles)@),
{
    let ghost ps = particles@;
    let mut frcs: Vec<Force> = Vec::new();
    let mut i: usize = 0;
    while i < particles.len()
        invariant
            i <= ps.len(),
            ps == particles@,
            snapshot_wf(ps),
            frcs@.len() == i,
            forall|k: int|
                0 <= k < i ==> ((#[trigger] frcs@[k]).x as int, frcs@[k].y as int)
                    == exact_force_of(ps, ps[k]),
        decreases ps.len() - i,
    {
        assert(ps[i as int].wf());
        let f = exact_force(particles, &particles[i]);
        frcs.push(f);
        i += 1;
    }
    assert(force_pairs(frcs@) =~= exact_forces_of(ps));
    apply_forces(particles, &frcs, dt)
}

} // verus!
