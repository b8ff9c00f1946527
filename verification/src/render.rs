use vstd::prelude::*;
use crate::camera::{Camera, camera_wf, get_ray_s};
use crate::fixed::{
    FX_HALF, FX_ONE, clamp_s, fx_div, fx_div_s, fx_mul, fx_sqrt, fx_sqrt_s, idiv, lemma_mul_le,
    lemma_tdiv_le, lemma_tdiv_mul_bound, tdiv,
};
use crate::geom::{B_POS, GeomList, HitRecord, Ray, Rayi, Sphere, list_hit_s, list_wf, ray_wf, sphere_wf};
use crate::material::{Glass, Lambertian, Material, scatter_s};
use crate::math_util::{
    Rng, V3, V3i, bounded3, lemma_scale_cap, rand, rand_bits_s, rng_next_state, sq_len_s, vadd,
    velem_mul, vscale,
};

verus! {

/// The lower cutoff of the hit window, excluding self-intersection acne.
pub const D_MIN: i64 = 7;

/// The upper cutoff of the hit window, bounding the world.
pub const D_MAX: i64 = 655360;

/// Pure render configuration.
#[derive(Debug, Clone, Copy, PartialEq, Eq, Structural)]
pub struct RenderOption {
    pub campus_width: u32,
    pub campus_height: u32,
    pub depth: usize,
    pub samples: usize,
}

pub open spec fn option_wf(o: RenderOption) -> bool {
    &&& 1 <= o.campus_width <= 0x1000
    &&& 1 <= o.campus_height <= 0x1000
    &&& 1 <= o.samples <= 0x1_0000
}

/// The scene and the camera that looks at it.
pub struct World {
    pub objects: GeomList,
    pub camera: Camera,
}

pub open spec fn world_wf(w: World) -> bool {
    &&& list_wf(w.objects@)
    &&& camera_wf(w.camera)
}

/// A rendered image: `width * height` RGB byte triples, row-major.
pub struct Frame {
    pub width: usize,
    pub height: usize,
    pub data: Vec<u8>,
}

pub open spec fn black_s() -> V3i {
    V3i { x: 0, y: 0, z: 0 }
}

/// The background: a vertical blend from white toward sky blue by the
/// direction's downward-growing second component.
pub open spec fn sky_s(way: V3i) -> V3i {
    let t = crate::fixed::fx_mul_s(FX_HALF as int, way.y + FX_ONE as int);
    vadd(
        vscale(V3i { x: FX_ONE as int, y: FX_ONE as int, z: FX_ONE as int }, FX_ONE as int - t),
        vscale(V3i { x: 32768, y: 45875, z: 65536 }, t),
    )
}

pub fn sky(way: V3) -> (r: V3)
    requires
        bounded3(way@, 0x3_0000),
    ensures
        r@ == sky_s(way@),
        bounded3(r@, 0x4_0000),
{
    proof {
        lemma_mul_le(FX_HALF as int, way@.y + FX_ONE as int, 0x8000, 0x4_0000);
        lemma_tdiv_le((FX_HALF as int) * (way@.y + FX_ONE as int), FX_ONE as int, 0x2_0000_0000);
    }
    let t: i64 = fx_mul(FX_HALF, way.1 + FX_ONE);
    let white: V3 = V3(FX_ONE, FX_ONE, FX_ONE);
    let blue: V3 = V3(32768, 45875, 65536);
    proof {
        lemma_scale_cap(white@, FX_ONE as int - t as int, 0x1_0000, 0x2_0000);
        lemma_scale_cap(blue@, t as int, 0x1_0000, 0x2_0000);
    }
    white.scale(FX_ONE - t).plus(blue.scale(t))
}

/// The color carried back along a ray: black at exhausted depth, the sky on
/// a miss, and the scattered color filtered by the material's attenuation on
/// a hit. A scattered origin outside the world box counts as absorbed.
pub open spec fn ray_color_s(geoms: Seq<crate::geom::Spherei>, ray: Rayi, depth: nat, s: u64) -> (
    V3i,
    u64,
)
    decreases depth,
{
    if depth == 0 {
        (black_s(), s)
    } else {
        match list_hit_s(geoms, ray, D_MIN as int, D_MAX as int) {
            None => (sky_s(ray.way), s),
            Some(h) => {
                let (att, osr, s2) = scatter_s(h.material, ray, h, s);
                match osr {
                    None => (black_s(), s2),
                    Some(sr) => if !bounded3(sr.pos, B_POS as int) {
                        (black_s(), s2)
                    } else {
                        let (sub, s3) = ray_color_s(geoms, sr, (depth - 1) as nat, s2);
                        (velem_mul(att, sub), s3)
                    },
                }
            },
        }
    }
}

/// Whether a point lies inside the box that ray origins must stay in.
fn in_pos_box(v: V3) -> (r: bool)
    ensures
        r == bounded3(v@, B_POS as int),
{
    -B_POS <= v.0 && v.0 <= B_POS && -B_POS <= v.1 && v.1 <= B_POS && -B_POS <= v.2 && v.2
        <= B_POS
}

/// One generator step mixed from the frame seed and the pixel coordinates,
/// so that every pixel's sample sequence is independent and reproducible.
pub open spec fn pix_seed_s(seed: u64, x: u32, y: u32) -> u64 {
    seed ^ (x as u64).wrapping_mul(0x9E37_79B9_7F4A_7C15) ^ (y as u64).wrapping_mul(
        0xC2B2_AE3D_27D4_EB4F,
    )
}

pub fn pix_seed(seed: u64, x: u32, y: u32) -> (r: u64)
    ensures
        r == pix_seed_s(seed, x, y),
{
    seed ^ (x as u64).wrapping_mul(0x9E37_79B9_7F4A_7C15) ^ (y as u64).wrapping_mul(
        0xC2B2_AE3D_27D4_EB4F,
    )
}

/// The jittered normalized coordinate of pixel `p` out of `n`.
pub open spec fn sample_coord_s(p: int, n: int, s: u64) -> int {
    fx_div_s(p * (FX_ONE as int) + rand_bits_s(s), n * (FX_ONE as int))
}

pub open spec fn pixel_s(
    geoms: Seq<crate::geom::Spherei>,
    cam: Camera,
    x: int,
    y: int,
    depth: nat,
    s: u64,
) -> (V3i, u64) {
    let ray = get_ray_s(cam, x, y, s);
    ray_color_s(geoms, ray, depth, crate::math_util::rand2_state(s))
}

/// One anti-aliasing sample of a pixel: jitter both coordinates, then trace.
pub open spec fn sample_one_s(
    geoms: Seq<crate::geom::Spherei>,
    cam: Camera,
    x: int,
    y: int,
    w: int,
    h: int,
    depth: nat,
    s: u64,
) -> (V3i, u64) {
    let sx = sample_coord_s(x, w, s);
    let s1 = rng_next_state(s);
    let sy = sample_coord_s(y, h, s1);
    let s2 = rng_next_state(s1);
    pixel_s(geoms, cam, sx, sy, depth, s2)
}

/// Accumulate `n` samples of a pixel.
pub open spec fn sample_loop_s(
    geoms: Seq<crate::geom::Spherei>,
    cam: Camera,
    x: int,
    y: int,
    w: int,
    h: int,
    depth: nat,
    n: nat,
    s: u64,
    acc: V3i,
) -> (V3i, u64)
    decreases n,
{
    if n == 0 {
        (acc, s)
    } else {
        let (c, s2) = sample_one_s(geoms, cam, x, y, w, h, depth, s);
        sample_loop_s(geoms, cam, x, y, w, h, depth, (n - 1) as nat, s2, vadd(acc, c))
    }
}

/// Gamma-corrected quantization of one channel: clamp into the unit range,
/// take the square root, scale to a byte.
pub open spec fn byte_s(ch: int) -> int {
    tdiv(fx_sqrt_s(clamp_s(ch, 0, FX_ONE as int)) * 255, FX_ONE as int)
}

pub fn to_byte(ch: i64) -> (r: u8)
    ensures
        r as int == byte_s(ch as int),
{
    let c: i64 = crate::fixed::clamp_fx(ch, 0, FX_ONE);
    let sq: i64 = fx_sqrt(c);
    proof {
        assert(sq <= 65536) by (nonlinear_arith)
            requires
                (sq as int) * (sq as int) <= (c as int) * 65536,
                0 <= c <= 65536,
                0 <= sq,
        ;
    }
    (sq * 255 / 65536) as u8
}

/// The bytes that the renderer owes pixel `(x, y)`.
pub open spec fn pixel_bytes_s(
    geoms: Seq<crate::geom::Spherei>,
    cam: Camera,
    o: RenderOption,
    seed: u64,
    x: u32,
    y: u32,
) -> (int, int, int) {
    let st = pix_seed_s(seed, x, y) ^ 0x9E37_79B9_7F4A_7C15u64;
    let (total, _) = sample_loop_s(
        geoms,
        cam,
        x as int,
        y as int,
        o.campus_width as int,
        o.campus_height as int,
        o.depth as nat,
        o.samples as nat,
        st,
        black_s(),
    );
    let n = o.samples as int;
    (byte_s(tdiv(total.x, n)), byte_s(tdiv(total.y, n)), byte_s(tdiv(total.z, n)))
}

impl World {
    /// The stock scene: two glass spheres and a diffuse one in a row, over a
    /// hollow ground sphere, seen by a thin-lens camera focused on the row.
    pub fn new() -> (r: World)
        ensures
            world_wf(r),
            r.objects.geoms@.len() == 4,
            r.objects.geoms@[0] == (Sphere {
                pos: V3(52428i64, 0i64, -65536i64),
                radius: 26214i64,
                material: Material::Glass(Glass { ir: 131072i64 }),
            }),
            r.objects.geoms@[1] == (Sphere {
                pos: V3(0i64, 0i64, -65536i64),
                radius: 26214i64,
                material: Material::Glass(Glass { ir: 655360i64 }),
            }),
            r.objects.geoms@[2] == (Sphere {
                pos: V3(-52428i64, 0i64, -65536i64),
                radius: 26214i64,
                material: Material::Lambertian(Lambertian { color: V3(52428i64, 39321i64, 13107i64) }),
            }),
            r.objects.geoms@[3] == (Sphere {
                pos: V3(0i64, -681574i64, -65536i64),
                radius: -655360i64,
                material: Material::Lambertian(Lambertian { color: V3(52428i64, 52428i64, 6553i64) }),
            }),
            r.camera.pos == (V3(78643i64, 58982i64, 45875i64)),
            r.camera.w@ == crate::math_util::norm_s(
                crate::math_util::vsub(
                    (V3(78643i64, 58982i64, 45875i64))@,
                    (V3(0i64, 0i64, -65536i64))@,
                ),
            ),
            r.camera.u@ == crate::math_util::cross_s(
                crate::math_util::norm_s((V3(0i64, -65536i64, 0i64))@),
                r.camera.w@,
            ),
            r.camera.v@ == crate::math_util::cross_s(r.camera.w@, r.camera.u@),
            r.camera.horizontal@ == vscale(
                vscale(r.camera.u@, crate::camera::cam_width_s(61766, 116508)),
                148579,
            ),
            r.camera.vertical@ == vscale(
                vscale(r.camera.v@, crate::camera::cam_height_s(61766)),
                148579,
            ),
            r.camera.lower_left@ == crate::math_util::vsub(
                crate::math_util::vsub(
                    crate::math_util::vsub(
                        (V3(78643i64, 58982i64, 45875i64))@,
                        vscale(r.camera.horizontal@, FX_HALF as int),
                    ),
                    vscale(r.camera.vertical@, FX_HALF as int),
                ),
                vscale(r.camera.w@, 148579),
            ),
            r.camera.lens_radius == 26214,
    {
        let material_ground: Lambertian = Lambertian { color: V3(52428, 52428, 6553) };
        let material_left: Glass = Glass { ir: 131072 };
        let material_center: Glass = Glass { ir: 655360 };
        let material_right: Lambertian = Lambertian { color: V3(52428, 39321, 13107) };
        let geom_ground: Sphere = Sphere {
            pos: V3(0, -681574, -65536),
            radius: -655360,
            material: Material::Lambertian(material_ground),
        };
        let geom_left: Sphere = Sphere {
            pos: V3(52428, 0, -65536),
            radius: 26214,
            material: Material::Glass(material_left),
        };
        let geom_center: Sphere = Sphere {
            pos: V3(0, 0, -65536),
            radius: 26214,
            material: Material::Glass(material_center),
        };
        let geom_right: Sphere = Sphere {
            pos: V3(-52428, 0, -65536),
            radius: 26214,
            material: Material::Lambertian(material_right),
        };
        let mut geoms: Vec<Sphere> = Vec::new();
        geoms.push(geom_left);
        geoms.push(geom_center);
        geoms.push(geom_right);
        geoms.push(geom_ground);
        let objects: GeomList = GeomList { geoms };
        let look_from: V3 = V3(78643, 58982, 45875);
        let look_at: V3 = V3(0, 0, -65536);
        let up: V3 = V3(0, -65536, 0);
        let diff: V3 = look_from.minus(look_at);
        let sl: i64 = diff.sq_len();
        proof {
            assert(crate::fixed::fx_mul_s(78643, 78643) == 94371);
            assert(crate::fixed::fx_mul_s(58982, 58982) == 53083);
            assert(crate::fixed::fx_mul_s(111411, 111411) == 189398);
            assert(sq_len_s(diff@) == 336852);
            assert(sq_len_s(crate::math_util::vsub(look_from@, look_at@)) >= 1);
            assert((-65536int) * (-65536int) == 0x1_0000_0000int) by (nonlinear_arith);
            assert(sq_len_s(up@) >= 1);
            assert(crate::camera::cam_half_fov_s(61766) == 30883);
            assert(crate::fixed::fx_mul_s(30883, 30883) == 14553);
            assert(crate::fixed::fx_mul_s(14553, 30883) == 6857);
            assert(crate::fixed::fx_mul_s(6857, 14553) == 1522);
            assert(crate::trig::sin_poly_s(30883) == 29753);
            assert(crate::fixed::fx_mul_s(72060, 72060) == 79233);
            assert(crate::fixed::fx_mul_s(79233, 72060) == 87120);
            assert(crate::fixed::fx_mul_s(87120, 79233) == 105328);
            assert(crate::trig::sin_poly_s(72060) == 58417);
            assert(crate::trig::sin_s(30883) == 29753);
            assert(crate::trig::sin_s(133827) == 58417);
            assert(crate::trig::cos_s(30883) == 58417);
            assert(crate::trig::tan_s(30883) == 33378);
        }
        let focus_dist: i64 = crate::fixed::fx_sqrt(sl);
        proof {
            assert(148579int * 148579 <= 336852int * 65536 < 148580int * 148580)
                by (nonlinear_arith);
            assert(crate::fixed::is_isqrt(336852int * 65536, 148579));
            crate::fixed::lemma_isqrt_unique(336852int * 65536, 148579);
            assert(focus_dist == 148579);
            assert(crate::fixed::fx_mul_s(52428, 32768) == 26214);
        }
        let camera: Camera = Camera::new(look_from, look_at, up, 61766, 116508, 52428, focus_dist);
        World { objects, camera }
    }

    /// Trace a ray through the scene, recursing on scattered rays until the
    /// depth budget runs out.
    pub fn ray_color(&self, ray: Ray, depth: usize, rng: &mut Rng) -> (r: V3)
        requires
            world_wf(*self),
            ray_wf(ray@),
        ensures
            r@ == ray_color_s(self.objects@, ray@, depth as nat, old(rng).state).0,
            final(rng).state == ray_color_s(self.objects@, ray@, depth as nat, old(rng).state).1,
            bounded3(r@, 0x4_0000),
            depth == 0 ==> r@ == black_s(),
            depth > 0 && list_hit_s(self.objects@, ray@, D_MIN as int, D_MAX as int) is None
                ==> r@ == sky_s(ray@.way),
        decreases depth,
    {
        if depth == 0 {
            return V3(0, 0, 0);
        }
        let hit: Option<HitRecord> = self.objects.hit(ray, D_MIN, D_MAX);
        match hit {
            Some(h) => {
                proof {
                    let j = choose|j: int|
                        0 <= j < self.objects@.len() && h.material == self.objects@[j].material;
                    assert(sphere_wf(self.objects@[j]));
                }
                let (color, scatter) = h.material.scatter(ray, &h, rng);
                match scatter {
                    Some(sr) => {
                        if in_pos_box(sr.pos) {
                            let sub: V3 = self.ray_color(sr, depth - 1, rng);
                            proof {
                                lemma_mul_le(color@.x, sub@.x, 0x1_0000, 0x4_0000);
                                lemma_mul_le(color@.y, sub@.y, 0x1_0000, 0x4_0000);
                                lemma_mul_le(color@.z, sub@.z, 0x1_0000, 0x4_0000);
                                lemma_tdiv_le(color@.x * sub@.x, FX_ONE as int, 0x4_0000_0000);
                                lemma_tdiv_le(color@.y * sub@.y, FX_ONE as int, 0x4_0000_0000);
                                lemma_tdiv_le(color@.z * sub@.z, FX_ONE as int, 0x4_0000_0000);
                            }
                            color.elem_mul(sub)
                        } else {
                            V3(0, 0, 0)
                        }
                    },
                    None => V3(0, 0, 0),
                }
            },
            None => sky(ray.way),
        }
    }

    /// Trace one camera ray for normalized screen coordinates.
    pub fn pixel(&self, x: i64, y: i64, depth: usize, rng: &mut Rng) -> (r: V3)
        requires
            world_wf(*self),
            0 <= x <= FX_ONE,
            0 <= y <= FX_ONE,
        ensures
            r@ == pixel_s(self.objects@, self.camera, x as int, y as int, depth as nat, old(rng).state).0,
            final(rng).state == pixel_s(
                self.objects@,
                self.camera,
                x as int,
                y as int,
                depth as nat,
                old(rng).state,
            ).1,
            bounded3(r@, 0x4_0000),
    {
        let ray: Ray = self.camera.get_ray(x, y, rng);
        self.ray_color(ray, depth, rng)
    }

    /// Render one pixel: seed its generator, average the jittered samples,
    /// and quantize each channel with the gamma curve.
    pub fn render_pixel(&self, option: RenderOption, seed: u64, x: u32, y: u32) -> (r: (
        u8,
        u8,
        u8,
    ))
        requires
            world_wf(*self),
            option_wf(option),
            x < option.campus_width,
            y < option.campus_height,
        ensures
            r.0 as int == pixel_bytes_s(self.objects@, self.camera, option, seed, x, y).0,
            r.1 as int == pixel_bytes_s(self.objects@, self.camera, option, seed, x, y).1,
            r.2 as int == pixel_bytes_s(self.objects@, self.camera, option, seed, x, y).2,
    {
        let w: u32 = option.campus_width;
        let h: u32 = option.campus_height;
        let mut rng: Rng = Rng::new(pix_seed(seed, x, y));
        let ghost st0 = rng.state;
        let mut total_color: V3 = V3(0, 0, 0);
        let mut k: usize = 0;
        while k < option.samples
            invariant
                world_wf(*self),
                option_wf(option),
                w == option.campus_width,
                h == option.campus_height,
                x < w,
                y < h,
                0 <= k <= option.samples,
                bounded3(total_color@, (k as int) * 0x4_0000),
                sample_loop_s(
                    self.objects@,
                    self.camera,
                    x as int,
                    y as int,
                    w as int,
                    h as int,
                    option.depth as nat,
                    (option.samples - k) as nat,
                    rng.state,
                    total_color@,
                ) == sample_loop_s(
                    self.objects@,
                    self.camera,
                    x as int,
                    y as int,
                    w as int,
                    h as int,
                    option.depth as nat,
                    option.samples as nat,
                    st0,
                    black_s(),
                ),
            decreases option.samples - k,
        {
            let ghost s_pre = rng.state;
            let ghost acc_pre = total_color@;
            let ghost m = (option.samples - k) as nat;
            let u1: i64 = rand(&mut rng);
            let sx: i64 = fx_div((x as i64) * FX_ONE + u1, (w as i64) * FX_ONE);
            let u2: i64 = rand(&mut rng);
            let sy: i64 = fx_div((y as i64) * FX_ONE + u2, (h as i64) * FX_ONE);
            proof {
                lemma_coord_range(x as int, u1 as int, w as int);
                lemma_coord_range(y as int, u2 as int, h as int);
            }
            let color: V3 = self.pixel(sx, sy, option.depth, &mut rng);
            total_color = total_color.plus(color);
            k = k + 1;
            proof {
                let one = sample_one_s(
                    self.objects@,
                    self.camera,
                    x as int,
                    y as int,
                    w as int,
                    h as int,
                    option.depth as nat,
                    s_pre,
                );
                assert(one.0 == color@ && one.1 == rng.state);
                assert(sample_loop_s(
                    self.objects@,
                    self.camera,
                    x as int,
                    y as int,
                    w as int,
                    h as int,
                    option.depth as nat,
                    m,
                    s_pre,
                    acc_pre,
                ) == sample_loop_s(
                    self.objects@,
                    self.camera,
                    x as int,
                    y as int,
                    w as int,
                    h as int,
                    option.depth as nat,
                    (m - 1) as nat,
                    rng.state,
                    total_color@,
                ));
            }
        }
        let n: i64 = option.samples as i64;
        let b0: u8 = to_byte(idiv(total_color.0, n));
        let b1: u8 = to_byte(idiv(total_color.1, n));
        let b2: u8 = to_byte(idiv(total_color.2, n));
        (b0, b1, b2)
    }

    /// Render the frame: every pixel's byte triple, row-major. Pixels are
    /// seeded independently from `seed`, so the image is a function of the
    /// scene, the options and the seed alone.
    pub fn render(&self, option: RenderOption, seed: u64) -> (r: Frame)
        requires
            world_wf(*self),
            option_wf(option),
        ensures
            r.width == option.campus_width as usize,
            r.height == option.campus_height as usize,
            r.data@.len() == 3 * ((option.campus_height as int) * (option.campus_width as int)),
            forall|x: u32, y: u32|
                x < option.campus_width && y < option.campus_height ==> #[trigger] pix_ok(
                    r.data@,
                    self.objects@,
                    self.camera,
                    option,
                    seed,
                    x,
                    y,
                ),
    {
        let w: u32 = option.campus_width;
        let h: u32 = option.campus_height;
        let mut data: Vec<u8> = Vec::new();
        let mut y: u32 = 0;
        while y < h
            invariant
                world_wf(*self),
                option_wf(option),
                w == option.campus_width,
                h == option.campus_height,
                0 <= y <= h,
                data@.len() == 3 * ((y as int) * (w as int)),
                forall|xx: u32, yy: u32|
                    xx < w && yy < y ==> #[trigger] pix_ok(
                        data@,
                        self.objects@,
                        self.camera,
                        option,
                        seed,
                        xx,
                        yy,
                    ),
            decreases h - y,
        {
            let mut x: u32 = 0;
            while x < w
                invariant
                    world_wf(*self),
                    option_wf(option),
                    w == option.campus_width,
                    h == option.campus_height,
                    0 <= y < h,
                    0 <= x <= w,
                    data@.len() == 3 * ((y as int) * (w as int) + (x as int)),
                    forall|xx: u32, yy: u32|
                        xx < w && (yy < y || (yy == y && xx < x)) ==> #[trigger] pix_ok(
                            data@,
                            self.objects@,
                            self.camera,
                            option,
                            seed,
                            xx,
                            yy,
                        ),
                decreases w - x,
            {
                let (b0, b1, b2): (u8, u8, u8) = self.render_pixel(option, seed, x, y);
                let ghost before = data@;
                data.push(b0);
                data.push(b1);
                data.push(b2);
                proof {
                    assert((y as int) * (w as int) >= 0) by (nonlinear_arith)
                        requires
                            y >= 0,
                            w >= 0,
                    ;
                    assert forall|xx: u32, yy: u32|
                        xx < w && (yy < y || (yy == y && xx < x + 1)) implies #[trigger] pix_ok(
                        data@,
                        self.objects@,
                        self.camera,
                        option,
                        seed,
                        xx,
                        yy,
                    ) by {
                        if yy < y || (yy == y && xx < x) {
                            lemma_pix_lt(w as int, x as int, y as int, xx as int, yy as int);
                            let idx = 3 * ((yy as int) * (w as int) + (xx as int));
                            assert(pix_ok(before, self.objects@, self.camera, option, seed, xx, yy));
                            assert(data@[idx] == before[idx]);
                            assert(data@[idx + 1] == before[idx + 1]);
                            assert(data@[idx + 2] == before[idx + 2]);
                        } else {
                            assert(xx == x && yy == y);
                            assert(data@[before.len() as int] == b0);
                            assert(data@[before.len() as int + 1] == b1);
                            assert(data@[before.len() as int + 2] == b2);
                        }
                    }
                }
                x = x + 1;
            }
            proof {
                assert((y as int) * (w as int) + (w as int) == (y as int + 1) * (w as int))
                    by (nonlinear_arith);
            }
            y = y + 1;
        }
        Frame { width: w as usize, height: h as usize, data }
    }
}

/// Pixel `(x, y)` of the frame holds exactly the bytes the renderer owes it.
pub open spec fn pix_ok(
    data: Seq<u8>,
    geoms: Seq<crate::geom::Spherei>,
    cam: Camera,
    o: RenderOption,
    seed: u64,
    x: u32,
    y: u32,
) -> bool {
    let idx = 3 * ((y as int) * (o.campus_width as int) + (x as int));
    &&& 0 <= idx
    &&& idx + 2 < data.len()
    &&& data[idx] as int == pixel_bytes_s(geoms, cam, o, seed, x, y).0
    &&& data[idx + 1] as int == pixel_bytes_s(geoms, cam, o, seed, x, y).1
    &&& data[idx + 2] as int == pixel_bytes_s(geoms, cam, o, seed, x, y).2
}

/// Row-major pixel indices respect the traversal order.
proof fn lemma_pix_lt(w: int, x: int, y: int, xx: int, yy: int)
    by (nonlinear_arith)
    requires
        0 <= xx < w,
        0 <= x,
        0 <= yy,
        yy < y || (yy == y && xx < x),
    ensures
        yy * w + xx < y * w + x,
        0 <= yy * w + xx,
{
}

/// A jittered pixel coordinate lands in the unit interval.
proof fn lemma_coord_range(p: int, u: int, n: int)
    requires
        0 <= p < n,
        0 <= u < 65536,
        n <= 0x1000,
    ensures
        0 <= fx_div_s(p * 65536 + u, n * 65536) <= 65536,
{
    let a = (p * 65536 + u) * 65536;
    assert(a >= 0) by (nonlinear_arith)
        requires
            p >= 0,
            u >= 0,
            a == (p * 65536 + u) * 65536,
    ;
    lemma_tdiv_mul_bound(a, n * 65536);
    assert(tdiv(a, n * 65536) <= 65536) by (nonlinear_arith)
        requires
            (n * 65536) * tdiv(a, n * 65536) <= a,
            0 <= tdiv(a, n * 65536),
            a == (p * 65536 + u) * 65536,
            p <= n - 1,
            u <= 65535,
            n >= 1,
    ;
}

} // verus!
