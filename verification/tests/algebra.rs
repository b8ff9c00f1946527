use lay_tracing::fixed::{clamp_fx, fx_div, fx_mul, fx_sqrt, idiv};
use lay_tracing::math_util::{Rng, rand, rand_disk, rand_hemisphere, rand_in, rand_v3};
use lay_tracing::{FX_ONE, V3};

#[test]
fn fx_mul_rounds_toward_zero() {
    assert_eq!(fx_mul(3 * FX_ONE, 2 * FX_ONE), 6 * FX_ONE);
    assert_eq!(fx_mul(-3 * FX_ONE, 2 * FX_ONE), -6 * FX_ONE);
    assert_eq!(fx_mul(1, 1), 0);
    assert_eq!(fx_mul(-1, 1), 0);
    assert_eq!(fx_mul(FX_ONE / 2, FX_ONE / 2), FX_ONE / 4);
}

#[test]
fn fx_div_and_idiv() {
    assert_eq!(fx_div(FX_ONE, 2 * FX_ONE), FX_ONE / 2);
    assert_eq!(fx_div(-FX_ONE, 2 * FX_ONE), -(FX_ONE / 2));
    assert_eq!(idiv(7, 2), 3);
    assert_eq!(idiv(-7, 2), -3);
}

#[test]
fn fx_sqrt_exact_squares() {
    assert_eq!(fx_sqrt(0), 0);
    assert_eq!(fx_sqrt(FX_ONE), FX_ONE);
    assert_eq!(fx_sqrt(4 * FX_ONE), 2 * FX_ONE);
    assert_eq!(fx_sqrt(9 * FX_ONE), 3 * FX_ONE);
    // the root of 2 at this scale, truncated
    assert_eq!(fx_sqrt(2 * FX_ONE), 92681);
}

#[test]
fn clamp_works() {
    assert_eq!(clamp_fx(-5, 0, FX_ONE), 0);
    assert_eq!(clamp_fx(FX_ONE + 1, 0, FX_ONE), FX_ONE);
    assert_eq!(clamp_fx(17, 0, FX_ONE), 17);
}

#[test]
fn vector_componentwise_ops() {
    let a = V3(FX_ONE, 2 * FX_ONE, -FX_ONE);
    let b = V3(3 * FX_ONE, -FX_ONE, FX_ONE);
    assert_eq!(a.plus(b), V3(4 * FX_ONE, FX_ONE, 0));
    assert_eq!(a.minus(b), V3(-2 * FX_ONE, 3 * FX_ONE, -2 * FX_ONE));
    assert_eq!(a.neg(), V3(-FX_ONE, -2 * FX_ONE, FX_ONE));
    assert_eq!(a.scale(2 * FX_ONE), V3(2 * FX_ONE, 4 * FX_ONE, -2 * FX_ONE));
    assert_eq!(a.elem_mul(b), V3(3 * FX_ONE, -2 * FX_ONE, -FX_ONE));
    assert_eq!(a.scale_div(2 * FX_ONE), V3(FX_ONE / 2, FX_ONE, -(FX_ONE / 2)));
}

#[test]
fn dot_cross_and_lengths() {
    let a = V3(FX_ONE, 0, 0);
    let b = V3(0, FX_ONE, 0);
    assert_eq!(a.dot(b), 0);
    assert_eq!(a.dot(a), FX_ONE);
    assert_eq!(a.cross(b), V3(0, 0, FX_ONE));
    let v = V3(3 * FX_ONE, 4 * FX_ONE, 0);
    assert_eq!(v.sq_len(), 25 * FX_ONE);
    assert_eq!(v.len(), 5 * FX_ONE);
    let n = v.norm();
    assert_eq!(n, V3(39321, 52428, 0));
}

#[test]
fn norm_output_is_near_unit() {
    let samples = [
        V3(3 * FX_ONE, 4 * FX_ONE, 0),
        V3(FX_ONE, FX_ONE, FX_ONE),
        V3(-7 * FX_ONE, 2 * FX_ONE, 5 * FX_ONE),
        V3(FX_ONE, 0, 0),
        V3(100 * FX_ONE, -1, 17),
    ];
    for v in samples {
        assert!(v.sq_len() >= FX_ONE);
        let n = v.norm();
        let sq = n.sq_len();
        assert!(FX_ONE - 10 <= sq && sq <= FX_ONE + 8, "sq = {}", sq);
        assert!(n.0.abs() <= FX_ONE + 4 && n.1.abs() <= FX_ONE + 4 && n.2.abs() <= FX_ONE + 4);
    }
}

#[test]
fn near_zero_is_the_smallest_threshold() {
    assert!(V3(0, 0, 0).near_zero());
    assert!(V3(255, 255, 255).near_zero());
    assert!(!V3(256, 0, 0).near_zero());
    assert!(!V3(FX_ONE, 0, 0).near_zero());
}

#[test]
fn reflect_flips_the_normal_component() {
    let d = V3(FX_ONE, -FX_ONE, 0);
    let n = V3(0, FX_ONE, 0);
    assert_eq!(d.reflect(n), V3(FX_ONE, FX_ONE, 0));
    // applied twice about the same flat normal: back where it started
    assert_eq!(d.reflect(n).reflect(n), d);
    // energy preserving on the flat normal: same squared length
    assert_eq!(d.reflect(n).sq_len(), d.sq_len());
}

#[test]
fn refract_straight_through_at_normal_incidence() {
    let d = V3(0, 0, -FX_ONE);
    let n = V3(0, 0, FX_ONE);
    assert_eq!(d.refract(n, FX_ONE), V3(0, 0, -FX_ONE));
}

#[test]
fn rng_is_deterministic() {
    let mut a = Rng::new(42);
    let mut b = Rng::new(42);
    for _ in 0..10 {
        assert_eq!(rand(&mut a), rand(&mut b));
    }
    let mut c = Rng::new(43);
    let mut d = Rng::new(42);
    assert_ne!(rand(&mut c), rand(&mut d));
}

#[test]
fn rand_in_stays_inside() {
    let mut rng = Rng::new(7);
    for _ in 0..100 {
        let v = rand_in(-FX_ONE, FX_ONE, &mut rng);
        assert!(-FX_ONE <= v && v < FX_ONE);
        let u = rand(&mut rng);
        assert!(0 <= u && u < FX_ONE);
    }
}

#[test]
fn sphere_samples_are_unit_like() {
    let mut rng = Rng::new(11);
    for _ in 0..50 {
        let v = rand_v3(&mut rng);
        let sq = v.sq_len();
        // within rounding of the unit sphere
        assert!(sq > FX_ONE / 2 && sq < 2 * FX_ONE, "sq = {}", sq);
    }
}

#[test]
fn hemisphere_samples_point_with_the_normal() {
    let n = V3(0, FX_ONE, 0);
    let mut rng = Rng::new(13);
    for _ in 0..50 {
        let v = rand_hemisphere(n, &mut rng);
        assert!(n.dot(v) >= 0);
    }
}

#[test]
fn disk_samples_are_flat_and_inside() {
    let mut rng = Rng::new(17);
    for _ in 0..50 {
        let v = rand_disk(&mut rng);
        assert_eq!(v.2, 0);
        assert!(v.sq_len() <= FX_ONE + 256);
    }
}
