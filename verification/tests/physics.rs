use lay_tracing::physics::{Ball, World, collision};
use lay_tracing::{FX_ONE, V3};

#[test]
fn test_collision() {
    let mut world = World {
        balls: vec![
            Ball { pos: V3(0, 10 * FX_ONE, 0), radius: 4 * FX_ONE, speed: V3(0, 2 * FX_ONE, 0) },
            Ball { pos: V3(0, 25 * FX_ONE, 0), radius: 3 * FX_ONE, speed: V3(0, -45875, 0) },
        ],
        bump: FX_ONE / 2,
        gravity: 3277,
    };
    for _ in 0..20 {
        let w = 50;
        let mut row = vec!["_"; w];
        let conv = |x: i64| -> usize { ((x / FX_ONE).max(0) as usize).min(w - 1) };
        row[conv(world.balls[0].pos.1)] = "1";
        row[conv(world.balls[1].pos.1)] = "2";
        println!("{}", row.join(""));
        world.tick();
    }
}

#[test]
fn equal_masses_swap_velocities() {
    let m = 4 * FX_ONE;
    let (w1, w2) = collision(FX_ONE, 0, m, m);
    assert_eq!(w1, 0);
    assert_eq!(w2, FX_ONE);
    let (w3, w4) = collision(0, -FX_ONE, m, m);
    assert_eq!(w3, -FX_ONE);
    assert_eq!(w4, 0);
}

#[test]
fn heavy_ball_barely_moves() {
    // a light ball striking a ball a thousand times as massive bounces back
    let (w1, w2) = collision(FX_ONE, 0, FX_ONE, 1000 * FX_ONE);
    assert!(w1 < 0, "light ball reverses, got {}", w1);
    assert!(0 < w2 && w2 < FX_ONE / 100, "heavy ball barely moves, got {}", w2);
}

#[test]
fn separated_balls_never_collide() {
    // zero initial velocity, separated by more than the radii plus every
    // fall distance: the frames must show pure free fall, no pair response
    let mut world = World {
        balls: vec![
            Ball { pos: V3(0, 10 * FX_ONE, 0), radius: FX_ONE, speed: V3(0, 0, 0) },
            Ball { pos: V3(5 * FX_ONE, 10 * FX_ONE, 0), radius: FX_ONE, speed: V3(0, 0, 0) },
        ],
        bump: FX_ONE / 2,
        gravity: 3277,
    };
    for _ in 0..20 {
        world.tick();
        // any overlap resolution would push the centers apart along x
        assert_eq!(world.balls[0].pos.0, 0);
        assert_eq!(world.balls[0].pos.2, 0);
        assert_eq!(world.balls[1].pos.0, 5 * FX_ONE);
        assert_eq!(world.balls[1].pos.2, 0);
        assert_eq!(world.balls[0].speed.0, 0);
        assert_eq!(world.balls[1].speed.0, 0);
    }
}

#[test]
fn overlapping_pair_is_pushed_apart() {
    // two unit balls whose centers sit one unit apart: the tick pushes each
    // half the scaled penetration along the contact line; the still pair
    // exchanges equal (zero) contact velocities
    let mut world = World {
        balls: vec![
            Ball { pos: V3(0, 10 * FX_ONE, 0), radius: FX_ONE, speed: V3(0, 0, 0) },
            Ball { pos: V3(FX_ONE, 10 * FX_ONE, 0), radius: FX_ONE, speed: V3(0, 0, 0) },
        ],
        bump: FX_ONE / 2,
        gravity: 0,
    };
    world.tick();
    assert_eq!(world.balls[0].pos, V3(-32768, 10 * FX_ONE, 0));
    assert_eq!(world.balls[1].pos, V3(FX_ONE + 32768, 10 * FX_ONE, 0));
    assert_eq!(world.balls[0].speed, V3(0, 0, 0));
    assert_eq!(world.balls[1].speed, V3(0, 0, 0));
    // the centers now cover both radii exactly
    let ab = world.balls[0].pos.minus(world.balls[1].pos);
    assert_eq!(ab.len(), 2 * FX_ONE);
}

#[test]
fn moving_pair_exchanges_contact_velocity() {
    // equal masses, head-on along the contact line: velocities swap
    let mut world = World {
        balls: vec![
            Ball { pos: V3(0, 10 * FX_ONE, 0), radius: FX_ONE, speed: V3(FX_ONE / 4, 0, 0) },
            Ball { pos: V3(FX_ONE, 10 * FX_ONE, 0), radius: FX_ONE, speed: V3(-(FX_ONE / 4), 0, 0) },
        ],
        bump: FX_ONE / 2,
        gravity: 0,
    };
    world.tick();
    assert_eq!(world.balls[0].speed.0, -(FX_ONE / 4));
    assert_eq!(world.balls[1].speed.0, FX_ONE / 4);
}

#[test]
fn floor_bounce_reverses_fall() {
    let mut world = World {
        balls: vec![Ball { pos: V3(0, 2 * FX_ONE, 0), radius: FX_ONE, speed: V3(0, -2 * FX_ONE, 0) }],
        bump: FX_ONE / 2,
        gravity: 3277,
    };
    world.tick();
    // the center never sinks below the radius, and the fall reverses
    assert_eq!(world.balls[0].pos.1, FX_ONE);
    assert!(world.balls[0].speed.1 > 0);
}

#[test]
fn gravity_accumulates() {
    let mut world = World {
        balls: vec![Ball { pos: V3(0, 100 * FX_ONE, 0), radius: FX_ONE, speed: V3(0, 0, 0) }],
        bump: FX_ONE / 2,
        gravity: 3277,
    };
    world.tick();
    assert_eq!(world.balls[0].speed.1, -3277);
    assert_eq!(world.balls[0].pos.1, 100 * FX_ONE);
    world.tick();
    assert_eq!(world.balls[0].speed.1, -2 * 3277);
    assert_eq!(world.balls[0].pos.1, 100 * FX_ONE - 3277);
}
