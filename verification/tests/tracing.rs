use lay_tracing::math_util::Rng;
use lay_tracing::{FX_ONE, GeomList, Glass, HitRecord, Lambertian, Material, Ray, Sphere, V3};

fn white_diffuse() -> Material {
    Material::Lambertian(Lambertian { color: V3(FX_ONE, FX_ONE, FX_ONE) })
}

#[test]
fn axis_hit_distance_is_center_minus_radius() {
    // center three units away, unit radius: the hit lands at distance two
    let sph = Sphere { pos: V3(0, 0, -3 * FX_ONE), radius: FX_ONE, material: white_diffuse() };
    let ray = Ray { pos: V3(0, 0, 0), way: V3(0, 0, -FX_ONE) };
    let hit = sph.hit(ray, 7, 10 * FX_ONE).unwrap();
    assert_eq!(hit.distance, 2 * FX_ONE);
    assert_eq!(hit.pos, V3(0, 0, -2 * FX_ONE));
    assert_eq!(hit.normal, V3(0, 0, FX_ONE));
    assert!(hit.front_face);
}

#[test]
fn clear_miss_yields_no_hit() {
    // tangent distance five units, radius one: a clear miss
    let sph = Sphere { pos: V3(5 * FX_ONE, 0, -3 * FX_ONE), radius: FX_ONE, material: white_diffuse() };
    let ray = Ray { pos: V3(0, 0, 0), way: V3(0, 0, -FX_ONE) };
    assert!(sph.hit(ray, 7, 10 * FX_ONE).is_none());
}

#[test]
fn tangent_ray_is_handled() {
    // the ray grazes the sphere: the discriminant is exactly zero
    let sph = Sphere { pos: V3(FX_ONE, 0, -3 * FX_ONE), radius: FX_ONE, material: white_diffuse() };
    let ray = Ray { pos: V3(0, 0, 0), way: V3(0, 0, -FX_ONE) };
    let hit = sph.hit(ray, 7, 10 * FX_ONE).unwrap();
    assert_eq!(hit.distance, 3 * FX_ONE);
    // at the graze the normal is perpendicular to the ray
    assert_eq!(ray.way.dot(hit.normal), 0);
}

#[test]
fn hit_behind_window_is_rejected() {
    let sph = Sphere { pos: V3(0, 0, -3 * FX_ONE), radius: FX_ONE, material: white_diffuse() };
    let ray = Ray { pos: V3(0, 0, 0), way: V3(0, 0, -FX_ONE) };
    // window too short to reach the sphere
    assert!(sph.hit(ray, 7, FX_ONE).is_none());
}

#[test]
fn hollow_sphere_is_hit_from_inside() {
    // negative radius: same squared radius, front face seen from inside
    let sph = Sphere { pos: V3(0, 0, -3 * FX_ONE), radius: -FX_ONE, material: white_diffuse() };
    let ray = Ray { pos: V3(0, 0, 0), way: V3(0, 0, -FX_ONE) };
    let hit = sph.hit(ray, 7, 10 * FX_ONE).unwrap();
    assert_eq!(hit.distance, 2 * FX_ONE);
}

#[test]
fn front_face_flips_with_the_ray() {
    let mat = white_diffuse();
    let outward = V3(0, 0, FX_ONE);
    let pos = V3(0, 0, -2 * FX_ONE);
    let into = Ray { pos: V3(0, 0, 0), way: V3(0, 0, -FX_ONE) };
    let out_of = Ray { pos: V3(0, 0, 0), way: V3(0, 0, FX_ONE) };
    let a = HitRecord::new_normal(into, pos, outward, FX_ONE, mat);
    let b = HitRecord::new_normal(out_of, pos, outward, FX_ONE, mat);
    assert!(a.front_face);
    assert!(!b.front_face);
    assert_eq!(a.normal, V3(0, 0, FX_ONE));
    assert_eq!(b.normal, V3(0, 0, -FX_ONE));
    // the stored normal never points with the ray
    assert!(into.way.dot(a.normal) < 0);
    assert!(out_of.way.dot(b.normal) < 0);
}

#[test]
fn nearest_of_two_spheres_wins() {
    let near = Sphere { pos: V3(0, 0, -3 * FX_ONE), radius: FX_ONE, material: white_diffuse() };
    let far = Sphere {
        pos: V3(0, 0, -6 * FX_ONE),
        radius: FX_ONE,
        material: Material::Glass(Glass { ir: 2 * FX_ONE }),
    };
    let list = GeomList { geoms: vec![far, near] };
    let ray = Ray { pos: V3(0, 0, 0), way: V3(0, 0, -FX_ONE) };
    let hit = list.hit(ray, 7, 10 * FX_ONE).unwrap();
    assert_eq!(hit.distance, 2 * FX_ONE);
    assert_eq!(hit.material, white_diffuse());
}

#[test]
fn empty_list_never_hits() {
    let list = GeomList { geoms: vec![] };
    let ray = Ray { pos: V3(0, 0, 0), way: V3(0, 0, -FX_ONE) };
    assert!(list.hit(ray, 7, 10 * FX_ONE).is_none());
}

#[test]
fn add_and_clear_change_the_list() {
    let mut list = GeomList { geoms: vec![] };
    let sph = Sphere { pos: V3(0, 0, -3 * FX_ONE), radius: FX_ONE, material: white_diffuse() };
    list.add(sph);
    assert_eq!(list.geoms.len(), 1);
    let ray = Ray { pos: V3(0, 0, 0), way: V3(0, 0, -FX_ONE) };
    assert!(list.hit(ray, 7, 10 * FX_ONE).is_some());
    list.clear();
    assert_eq!(list.geoms.len(), 0);
    assert!(list.hit(ray, 7, 10 * FX_ONE).is_none());
}

#[test]
fn glass_refracts_at_normal_incidence() {
    // dielectric with any index refracts straight through head-on
    let glass = Glass { ir: 2 * FX_ONE };
    let ray = Ray { pos: V3(0, 0, 0), way: V3(0, 0, -FX_ONE) };
    let hit = HitRecord {
        pos: V3(0, 0, -2 * FX_ONE),
        normal: V3(0, 0, FX_ONE),
        distance: 2 * FX_ONE,
        front_face: true,
        material: Material::Glass(glass),
    };
    let mut rng = Rng::new(1);
    let (att, scattered) = glass.scatter(ray, &hit, &mut rng);
    assert_eq!(att, V3(FX_ONE, FX_ONE, FX_ONE));
    let sr = scattered.unwrap();
    assert_eq!(sr.pos, hit.pos);
    assert_eq!(sr.way, V3(0, 0, -FX_ONE));
}

#[test]
fn lambertian_scatters_into_the_hemisphere() {
    let lam = Lambertian { color: V3(FX_ONE / 2, FX_ONE / 2, FX_ONE / 2) };
    let ray = Ray { pos: V3(0, 0, 0), way: V3(0, 0, -FX_ONE) };
    let hit = HitRecord {
        pos: V3(0, 0, -2 * FX_ONE),
        normal: V3(0, 0, FX_ONE),
        distance: 2 * FX_ONE,
        front_face: true,
        material: Material::Lambertian(lam),
    };
    let mut rng = Rng::new(5);
    for _ in 0..20 {
        let (att, scattered) = lam.scatter(ray, &hit, &mut rng);
        assert_eq!(att, V3(FX_ONE / 2, FX_ONE / 2, FX_ONE / 2));
        let sr = scattered.unwrap();
        assert_eq!(sr.pos, hit.pos);
        // never into the surface
        assert!(hit.normal.dot(sr.way) >= 0);
    }
}

#[test]
fn ray_at_walks_the_ray() {
    let ray = Ray { pos: V3(FX_ONE, 0, 0), way: V3(0, 0, -FX_ONE) };
    assert_eq!(ray.at(2 * FX_ONE), V3(FX_ONE, 0, -2 * FX_ONE));
}
