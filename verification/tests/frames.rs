use lay_tracing::fixed::{fx_div, idiv};
use lay_tracing::math_util::Rng;
use lay_tracing::render::{pix_seed, sky, to_byte};
use lay_tracing::{
    Camera, FX_ONE, GeomList, Glass, Lambertian, Material, RenderOption, Sphere, V3, World, rand,
};

fn test_camera() -> Camera {
    Camera::new(
        V3(0, 0, 0),
        V3(0, 0, -FX_ONE),
        V3(0, -FX_ONE, 0),
        61766,
        FX_ONE,
        0,
        FX_ONE,
    )
}

#[test]
fn to_byte_applies_the_gamma_curve() {
    assert_eq!(to_byte(0), 0);
    assert_eq!(to_byte(FX_ONE), 255);
    // sqrt(1/4) = 1/2 of the byte range, truncated
    assert_eq!(to_byte(FX_ONE / 4), 127);
    // out-of-range channels are clamped before the curve
    assert_eq!(to_byte(-5 * FX_ONE), 0);
    assert_eq!(to_byte(2 * FX_ONE), 255);
}

#[test]
fn frame_has_row_major_byte_triples() {
    let world = World { objects: GeomList { geoms: vec![] }, camera: test_camera() };
    let option = RenderOption { campus_width: 6, campus_height: 4, depth: 2, samples: 1 };
    let frame = world.render(option, 1);
    assert_eq!(frame.width, 6);
    assert_eq!(frame.height, 4);
    assert_eq!(frame.data.len(), 3 * 6 * 4);
}

#[test]
fn enclosing_diffuse_sphere_renders_black() {
    // a white diffuse sphere enclosing the camera, one sample, one bounce:
    // the single bounce cannot reach the sky, so every pixel is black
    let sphere = Sphere {
        pos: V3(0, 0, 0),
        radius: 5 * FX_ONE,
        material: Material::Lambertian(Lambertian { color: V3(FX_ONE, FX_ONE, FX_ONE) }),
    };
    let world = World { objects: GeomList { geoms: vec![sphere] }, camera: test_camera() };
    let option = RenderOption { campus_width: 8, campus_height: 8, depth: 1, samples: 1 };
    let frame = world.render(option, 3);
    assert!(frame.data.iter().all(|&b| b == 0));
}

#[test]
fn empty_scene_reproduces_the_sky_gradient() {
    let world = World { objects: GeomList { geoms: vec![] }, camera: test_camera() };
    let w: u32 = 4;
    let h: u32 = 4;
    let seed: u64 = 9;
    let option = RenderOption { campus_width: w, campus_height: h, depth: 3, samples: 1 };
    let frame = world.render(option, seed);
    for y in 0..h {
        for x in 0..w {
            // replay the pixel's single sample from its seed
            let mut rng = Rng::new(pix_seed(seed, x, y));
            let u1 = rand(&mut rng);
            let sx = fx_div((x as i64) * FX_ONE + u1, (w as i64) * FX_ONE);
            let u2 = rand(&mut rng);
            let sy = fx_div((y as i64) * FX_ONE + u2, (h as i64) * FX_ONE);
            let ray = world.camera.get_ray(sx, sy, &mut rng);
            let col = sky(ray.way);
            let idx = 3 * ((y as usize) * (w as usize) + (x as usize));
            assert_eq!(frame.data[idx] as i64, to_byte(idiv(col.0, 1)) as i64);
            assert_eq!(frame.data[idx + 1] as i64, to_byte(idiv(col.1, 1)) as i64);
            assert_eq!(frame.data[idx + 2] as i64, to_byte(idiv(col.2, 1)) as i64);
        }
    }
}

#[test]
fn stock_scene_holds_four_spheres() {
    let world = World::new();
    assert_eq!(world.objects.geoms.len(), 4);
    assert_eq!(
        world.objects.geoms[0],
        Sphere { pos: V3(52428, 0, -65536), radius: 26214, material: Material::Glass(Glass { ir: 131072 }) },
    );
    assert_eq!(
        world.objects.geoms[3].material,
        Material::Lambertian(Lambertian { color: V3(52428, 52428, 6553) }),
    );
    assert_eq!(world.camera.pos, V3(78643, 58982, 45875));
}

#[test]
fn stock_scene_renders_deterministically() {
    let world = World::new();
    let option = RenderOption { campus_width: 4, campus_height: 4, depth: 3, samples: 2 };
    let a = world.render(option, 7);
    let b = world.render(option, 7);
    assert_eq!(a.data, b.data);
    let c = world.render(option, 8);
    assert!(a.data != c.data);
}
