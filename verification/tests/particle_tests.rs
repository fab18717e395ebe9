use tile2048::particle::{decrease_abs, Particle, Rgba};
use tile2048::session::GameState;

const WHITE: Rgba = Rgba { r: 255, g: 255, b: 255, a: 255 };

fn particle(vel_x: i64, vel_y: i64, life: i64) -> Particle {
    Particle {
        x: 0,
        y: 0,
        width: 5,
        height: 5,
        vel_x,
        vel_y,
        color: WHITE,
        life,
    }
}

#[test]
fn decrease_abs_shrinks_toward_zero() {
    assert_eq!(decrease_abs(100, 30), 70);
    assert_eq!(decrease_abs(-100, 30), -70);
    assert_eq!(decrease_abs(100, 150), 0);
    assert_eq!(decrease_abs(-100, 150), 0);
    assert_eq!(decrease_abs(0, 5), 0);
    assert_eq!(decrease_abs(7, 7), 0);
}

#[test]
fn particle_expires_after_life_over_decay() {
    // life 200_000, decay 200 per ms: dead strictly after 1000 ms.
    let mut p = particle(0, 0, 200_000);
    p.tick(500);
    assert_eq!(p.life, 100_000);
    assert!(p.is_alive());
    p.tick(499);
    assert_eq!(p.life, 200);
    p.tick(1);
    assert_eq!(p.life, 0);
    assert!(p.is_alive());
    assert!(!p.is_dead());
    assert_eq!(p.alpha(), 0); // no longer drawn, not yet pruned
    p.tick(1);
    assert!(p.is_dead());
}

#[test]
fn life_decay_is_additive_over_ticks() {
    let mut a = particle(0, 0, 240_000);
    let mut b = particle(0, 0, 240_000);
    a.tick(300);
    a.tick(700);
    b.tick(1000);
    assert_eq!(a.life, b.life);
    assert_eq!(a.life, 240_000 - 200 * 1000);
}

#[test]
fn velocity_shrinks_monotonically_and_never_flips_sign() {
    // friction is 20 units per ms
    let mut p = particle(1000, -1000, 200_000);
    p.tick(10);
    assert_eq!(p.vel_x, 800);
    assert_eq!(p.vel_y, -800);
    p.tick(30);
    assert_eq!(p.vel_x, 200);
    assert_eq!(p.vel_y, -200);
    p.tick(30);
    assert_eq!(p.vel_x, 0);
    assert_eq!(p.vel_y, 0);
    p.tick(100);
    assert_eq!(p.vel_x, 0);
    assert_eq!(p.vel_y, 0);
}

#[test]
fn position_advances_by_velocity_times_time() {
    // 50 px/s for 100 ms moves 5 px (5000 thousandths), before friction
    // has shed the whole velocity.
    let mut p = particle(50_000, -50_000, 200_000);
    p.tick(100);
    assert_eq!(p.x, 5_000);
    assert_eq!(p.y, -5_000);
}

#[test]
fn alpha_fades_with_life_and_saturates() {
    let mut p = particle(0, 0, 100_000);
    assert_eq!(p.alpha(), 127); // 100_000 * 255 / 200_000
    p.life = 200_000;
    assert_eq!(p.alpha(), 255);
    p.life = 249_999;
    assert_eq!(p.alpha(), 255); // saturates at fully opaque
    p.life = -1;
    assert_eq!(p.alpha(), 0);
}

#[test]
fn spawn_burst_creates_bounded_particles_at_the_cell() {
    let mut gs = GameState::new();
    gs.spawn_burst(1_000, 2_000, WHITE, 20);
    assert_eq!(gs.particles.len(), 20);
    for p in &gs.particles {
        assert_eq!(p.x, 1_000);
        assert_eq!(p.y, 2_000);
        assert_eq!(p.color, WHITE);
        assert!(p.width >= 5 && p.width < 10);
        assert_eq!(p.height, p.width);
        assert!(p.vel_x >= -50_000 && p.vel_x < 50_000);
        assert!(p.vel_y >= -50_000 && p.vel_y < 50_000);
        assert!(p.life >= 150_000 && p.life < 250_000);
    }
}

#[test]
fn tick_particles_advances_every_particle() {
    let mut gs = GameState::new();
    gs.particles.push(particle(1000, 0, 200_000));
    gs.particles.push(particle(0, 2000, 100_000));
    gs.tick_particles(100);
    assert_eq!(gs.particles[0].life, 180_000);
    assert_eq!(gs.particles[0].x, 100);
    assert_eq!(gs.particles[1].life, 80_000);
    assert_eq!(gs.particles[1].y, 200);
}

#[test]
fn prune_drops_only_dead_particles_and_keeps_order() {
    let mut gs = GameState::new();
    gs.particles.push(particle(1, 0, 10));
    gs.particles.push(particle(2, 0, -5));
    gs.particles.push(particle(3, 0, 0));
    gs.particles.push(particle(4, 0, -1));
    gs.prune_particles();
    assert_eq!(gs.particles.len(), 2);
    assert_eq!(gs.particles[0].vel_x, 1);
    assert_eq!(gs.particles[1].vel_x, 3); // life exactly zero still lives this frame
}
