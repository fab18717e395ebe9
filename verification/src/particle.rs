//! Merge-feedback particles, simulated in fixed point.
//!
//! Positions, velocities and life are integers counted in thousandths: a
//! particle with `x == 1500` sits at 1.5 px, a velocity of `50_000` is 50 px
//! per second, and a full life of `200_000` is 200 life units.  Time advances
//! in whole milliseconds.  This keeps the simulation exact; the renderer
//! divides by a thousand when drawing.

use vstd::prelude::*;
use crate::rng::{rand_range_i64, rand_range_usize};

verus! {

/// An RGBA colour, as the renderer uses it.
#[derive(Clone, Copy, PartialEq, Eq, Structural, Debug)]
pub struct Rgba {
    pub r: u8,
    pub g: u8,
    pub b: u8,
    pub a: u8,
}

/// Life of a freshly full particle: the denominator of the fade.
pub const PARTICLE_LIFE: i64 = 200_000;

/// Life units spent per millisecond.
pub const PARTICLE_LIFE_DECAY: i64 = 200;

/// Velocity units shed to friction per millisecond.
pub const PARTICLE_FRICTION: i64 = 20;

/// Largest magnitude of a spawned velocity component.
pub const PARTICLE_VEL_MAX: i64 = 50_000;

/// Smallest spawned life.
pub const PARTICLE_LIFE_MIN: i64 = 150_000;

/// Largest spawned life (exclusive).
pub const PARTICLE_LIFE_MAX: i64 = 250_000;

/// Positions are clamped to this magnitude: a million pixels off screen.
pub const POS_MAX: i64 = 1_000_000_000;

/// One decorative particle: position, size, velocity, colour and remaining
/// life.  Dead once life drops below zero.
#[derive(Clone, Copy, PartialEq, Eq, Structural, Debug)]
pub struct Particle {
    pub x: i64,
    pub y: i64,
    pub width: u32,
    pub height: u32,
    pub vel_x: i64,
    pub vel_y: i64,
    pub color: Rgba,
    pub life: i64,
}

/// A value moved toward zero by `amount`, stopping at zero: the magnitude
/// never grows and the sign never flips.
pub open spec fn shrunk(x: int, amount: int) -> int {
    if x > 0 {
        if x - amount < 0 {
            0
        } else {
            x - amount
        }
    } else if x < 0 {
        if x + amount > 0 {
            0
        } else {
            x + amount
        }
    } else {
        0
    }
}

/// Displacement of a velocity component `v` over `dt` milliseconds, in
/// thousandths of a pixel (velocities are per second).
pub open spec fn vel_step(v: int, dt: int) -> int {
    if v >= 0 {
        v * dt / 1000
    } else {
        -((-v) * dt / 1000)
    }
}

/// A position clamped to the simulation's bounds.
pub open spec fn clamped_pos(p: int) -> int {
    if p < -POS_MAX {
        -POS_MAX as int
    } else if p > POS_MAX {
        POS_MAX as int
    } else {
        p
    }
}

/// Remaining life clamped just below zero, so a long-dead particle cannot
/// underflow.
pub open spec fn clamped_life(l: int) -> int {
    if l < -1 {
        -1
    } else {
        l
    }
}

/// The particle `dt` milliseconds later: moved by its velocity, life spent
/// at the fixed decay rate, velocity shed to friction without crossing zero.
pub open spec fn ticked(p: Particle, dt: u32) -> Particle {
    Particle {
        x: clamped_pos(p.x + vel_step(p.vel_x as int, dt as int)) as i64,
        y: clamped_pos(p.y + vel_step(p.vel_y as int, dt as int)) as i64,
        width: p.width,
        height: p.height,
        vel_x: shrunk(p.vel_x as int, PARTICLE_FRICTION * dt) as i64,
        vel_y: shrunk(p.vel_y as int, PARTICLE_FRICTION * dt) as i64,
        color: p.color,
        life: clamped_life(p.life - PARTICLE_LIFE_DECAY * dt) as i64,
    }
}

/// Move `x` toward zero by `amount`, clamping at zero instead of crossing it.
pub fn decrease_abs(x: i64, amount: i64) -> (r: i64)
    requires
        0 <= amount,
    ensures
        r == shrunk(x as int, amount as int),
{
    if x > 0 {
        let y = x - amount;
        if y < 0 {
            0
        } else {
            y
        }
    } else if x < 0 {
        let y = x + amount;
        if y > 0 {
            0
        } else {
            y
        }
    } else {
        0
    }
}

impl Particle {
    /// Within the simulation's numeric bounds: position on the clamped
    /// plane, velocity no faster than a spawned one, life no fuller than a
    /// spawned one and clamped just below zero.
    pub open spec fn wf(&self) -> bool {
        &&& -POS_MAX <= self.x <= POS_MAX
        &&& -POS_MAX <= self.y <= POS_MAX
        &&& -PARTICLE_VEL_MAX <= self.vel_x <= PARTICLE_VEL_MAX
        &&& -PARTICLE_VEL_MAX <= self.vel_y <= PARTICLE_VEL_MAX
        &&& -1 <= self.life < PARTICLE_LIFE_MAX
    }

    /// A burst particle at `(x, y)`: a square of 5 to 9 pixels, each
    /// velocity component uniform within ±50 px/s, life uniform in the
    /// spawn range, with the given colour.
    pub fn new_random(x: i64, y: i64, color: Rgba) -> (p: Particle)
        requires
            -POS_MAX <= x <= POS_MAX,
            -POS_MAX <= y <= POS_MAX,
        ensures
            p.wf(),
            p.x == x,
            p.y == y,
            p.color == color,
            5 <= p.width < 10,
            p.height == p.width,
            -PARTICLE_VEL_MAX <= p.vel_x < PARTICLE_VEL_MAX,
            -PARTICLE_VEL_MAX <= p.vel_y < PARTICLE_VEL_MAX,
            PARTICLE_LIFE_MIN <= p.life < PARTICLE_LIFE_MAX,
    {
        let size = rand_range_usize(5, 10) as u32;
        Particle {
            x,
            y,
            width: size,
            height: size,
            vel_x: rand_range_i64(-PARTICLE_VEL_MAX, PARTICLE_VEL_MAX),
            vel_y: rand_range_i64(-PARTICLE_VEL_MAX, PARTICLE_VEL_MAX),
            color,
            life: rand_range_i64(PARTICLE_LIFE_MIN, PARTICLE_LIFE_MAX),
        }
    }

    /// One position component stepped by its velocity and clamped.
    fn step_pos(x: i64, v: i64, dt: u32) -> (r: i64)
        requires
            -POS_MAX <= x <= POS_MAX,
            -PARTICLE_VEL_MAX <= v <= PARTICLE_VEL_MAX,
        ensures
            r == clamped_pos(x + vel_step(v as int, dt as int)),
    {
        let mag: u64 = if v >= 0 {
            v as u64
        } else {
            (-v) as u64
        };
        proof {
            assert((mag as int) * (dt as int) <= 50_000 * 0xffff_ffff) by (nonlinear_arith)
                requires
                    0 <= mag as int <= 50_000,
                    0 <= dt as int <= 0xffff_ffff,
            ;
        }
        let moved: u64 = mag * (dt as u64) / 1000;
        let delta: i64 = if v >= 0 {
            moved as i64
        } else {
            -(moved as i64)
        };
        let p = x + delta;
        if p < -POS_MAX {
            -POS_MAX
        } else if p > POS_MAX {
            POS_MAX
        } else {
            p
        }
    }

    /// Remaining life after `dt` milliseconds of decay.
    fn step_life(l: i64, dt: u32) -> (r: i64)
        requires
            -1 <= l < PARTICLE_LIFE_MAX,
        ensures
            r == clamped_life(l - PARTICLE_LIFE_DECAY * dt),
    {
        let dec = PARTICLE_LIFE_DECAY * (dt as i64);
        let nl = l - dec;
        if nl < -1 {
            -1
        } else {
            nl
        }
    }

    /// Advance the particle by `dt` milliseconds.
    pub fn tick(&mut self, dt: u32)
        requires
            old(self).wf(),
        ensures
            *final(self) == ticked(*old(self), dt),
            final(self).wf(),
            final(self).life <= old(self).life,
    {
        let nx = Self::step_pos(self.x, self.vel_x, dt);
        let ny = Self::step_pos(self.y, self.vel_y, dt);
        let nvx = decrease_abs(self.vel_x, PARTICLE_FRICTION * (dt as i64));
        let nvy = decrease_abs(self.vel_y, PARTICLE_FRICTION * (dt as i64));
        let nl = Self::step_life(self.life, dt);
        self.x = nx;
        self.y = ny;
        self.vel_x = nvx;
        self.vel_y = nvy;
        self.life = nl;
    }

    /// Dead once life has dropped below zero; such a particle is pruned at
    /// the end of the frame.
    pub fn is_dead(&self) -> (r: bool)
        ensures
            r <==> self.life < 0,
    {
        self.life < 0
    }

    /// Still part of the simulation.
    pub fn is_alive(&self) -> (r: bool)
        ensures
            r <==> self.life >= 0,
    {
        self.life >= 0
    }

    /// Display opacity of a particle with the given remaining life:
    /// proportional to life over the full-life constant, saturating at fully
    /// opaque, and zero once life is spent.
    pub open spec fn alpha_of(life: int) -> int {
        if life <= 0 {
            0
        } else if life * 255 / (PARTICLE_LIFE as int) > 255 {
            255
        } else {
            life * 255 / (PARTICLE_LIFE as int)
        }
    }

    /// Display opacity.  A particle is drawn only while its life is strictly
    /// positive, fading out as life runs down.
    pub fn alpha(&self) -> (a: u8)
        requires
            self.wf(),
        ensures
            a as int == Self::alpha_of(self.life as int),
    {
        if self.life <= 0 {
            return 0;
        }
        let num = (self.life as u64) * 255 / (PARTICLE_LIFE as u64);
        if num > 255 {
            255
        } else {
            num as u8
        }
    }
}

/// Friction only ever shrinks a velocity component toward zero: the
/// magnitude never grows, the sign never flips, and once the accumulated
/// friction reaches the starting magnitude the component is exactly zero.
pub proof fn lemma_friction_monotone(v: int, amount: int)
    requires
        0 <= amount,
    ensures
        v >= 0 ==> 0 <= shrunk(v, amount) <= v,
        v <= 0 ==> v <= shrunk(v, amount) <= 0,
        amount >= (if v >= 0 { v } else { -v }) ==> shrunk(v, amount) == 0,
{
}

/// Life lost to decay is additive: ticking `dt1` then `dt2` milliseconds
/// spends exactly as much life as a single tick of `dt1 + dt2`.
pub proof fn lemma_tick_life_additive(p: Particle, dt1: u32, dt2: u32)
    requires
        dt1 + dt2 <= u32::MAX,
    ensures
        ticked(ticked(p, dt1), dt2).life == ticked(p, (dt1 + dt2) as u32).life,
{
}

/// A particle with life `l` is dead — no longer drawn, pruned at the frame's
/// end — exactly once decay has run for more than `l / PARTICLE_LIFE_DECAY`
/// milliseconds of accumulated ticks.
pub proof fn lemma_lifetime(l: int, t: int)
    requires
        0 <= l,
        0 <= t,
    ensures
        clamped_life(l - PARTICLE_LIFE_DECAY * t) < 0 <==> t > l / (PARTICLE_LIFE_DECAY as int),
{
    let d = PARTICLE_LIFE_DECAY as int;
    let q = l / d;
    let m = l % d;
    vstd::arithmetic::div_mod::lemma_fundamental_div_mod(l, d);
    vstd::arithmetic::div_mod::lemma_mod_bound(l, d);
    if t > q {
        assert(d * t >= d * (q + 1)) by (nonlinear_arith)
            requires t >= q + 1 && d > 0;
        assert(d * (q + 1) == d * q + d);
    } else {
        assert(d * t <= d * q) by (nonlinear_arith)
            requires t <= q && d > 0;
    }
}

} // verus!
