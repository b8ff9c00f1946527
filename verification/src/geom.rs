use vstd::prelude::*;
use crate::fixed::{FX_ONE, fx_div, fx_div_s, fx_mul, fx_mul_s, fx_sqrt, fx_sqrt_s, lemma_mul_le, lemma_tdiv_le};
use crate::math_util::{
    B_COORD, B_VEC, V3, V3i, bounded3, dot_s, lemma_dot_cap, lemma_dot_neg, lemma_scale_cap,
    lemma_sq_len_neg, len_s, near_zero_s, norm_s, sq_len_s, vadd, vneg, vscale, vsub,
};
use crate::material::{Material, material_wf};

verus! {

/// Magnitude cap for ray origins; hit points stay within twice this cap.
pub const B_POS: i64 = 0x2000_0000;

/// The mathematical value of a ray: origin and direction as integer vectors.
pub ghost struct Rayi {
    pub pos: V3i,
    pub way: V3i,
}

/// A half-line: origin `pos`, direction `way`.
#[derive(Debug, Clone, Copy, PartialEq, Eq, Structural)]
pub struct Ray {
    pub pos: V3,
    pub way: V3,
}

impl View for Ray {
    type V = Rayi;

    open spec fn view(&self) -> Rayi {
        Rayi { pos: self.pos@, way: self.way@ }
    }
}

pub open spec fn ray_at_s(ray: Rayi, k: int) -> V3i {
    vadd(ray.pos, vscale(ray.way, k))
}

/// A ray fit for tracing: origin in the world box, direction unit-like and
/// not degenerate.
pub open spec fn ray_wf(ray: Rayi) -> bool {
    &&& bounded3(ray.pos, B_POS as int)
    &&& bounded3(ray.way, 0x3_0000)
    &&& sq_len_s(ray.way) >= 1
}

impl Ray {
    /// The point at distance `k` along the ray.
    pub fn at(self, k: i64) -> (r: V3)
        requires
            bounded3(self@.pos, 0x1_0000_0000_0000),
            bounded3(self@.way, B_VEC as int),
            -B_COORD <= k <= B_COORD,
        ensures
            r@ == ray_at_s(self@, k as int),
    {
        proof {
            lemma_scale_cap(self@.way, k as int, B_VEC as int, B_COORD as int);
        }
        self.pos.plus(self.way.scale(k))
    }
}

/// The mathematical value of an intersection record.
pub ghost struct HitRec {
    pub pos: V3i,
    pub normal: V3i,
    pub distance: int,
    pub front_face: bool,
    pub material: Material,
}

/// A successful intersection: point, front-facing normal, distance along the
/// ray, whether the outward normal already faced the ray, and the surface's
/// material.
#[derive(Debug, Clone, Copy, PartialEq, Eq, Structural)]
pub struct HitRecord {
    pub pos: V3,
    pub normal: V3,
    pub distance: i64,
    pub front_face: bool,
    pub material: Material,
}

impl View for HitRecord {
    type V = HitRec;

    open spec fn view(&self) -> HitRec {
        HitRec {
            pos: self.pos@,
            normal: self.normal@,
            distance: self.distance as int,
            front_face: self.front_face,
            material: self.material,
        }
    }
}

/// A record fit for scattering: bounded point, unit-like normal.
pub open spec fn hr_wf(h: HitRec) -> bool {
    &&& bounded3(h.pos, 0x4000_0000)
    &&& bounded3(h.normal, 0x3_0000)
    &&& sq_len_s(h.normal) >= 1
    &&& 0 <= h.distance
}

pub open spec fn front_face_s(way: V3i, outward: V3i) -> bool {
    dot_s(way, outward) < 0
}

pub open spec fn new_normal_s(ray: Rayi, pos: V3i, outward: V3i, distance: int, material: Material) -> HitRec {
    let front = front_face_s(ray.way, outward);
    HitRec {
        pos,
        normal: if front {
            outward
        } else {
            vneg(outward)
        },
        distance,
        front_face: front,
        material,
    }
}

impl HitRecord {
    /// Build a record whose normal is turned against the incoming ray; the
    /// stored normal never points with the ray.
    pub fn new_normal(ray: Ray, pos: V3, outward: V3, distance: i64, material: Material) -> (r: HitRecord)
        requires
            bounded3(ray@.way, B_VEC as int),
            bounded3(outward@, 0x3_0000),
            bounded3(pos@, 0x4000_0000),
            sq_len_s(outward@) >= 1,
            0 <= distance,
        ensures
            r@ == new_normal_s(ray@, pos@, outward@, distance as int, material),
            hr_wf(r@),
            dot_s(ray@.way, r@.normal) <= 0,
            dot_s(ray@.way, outward@) != 0 ==> dot_s(ray@.way, r@.normal) < 0,
            r.material == material,
            r.distance == distance,
    {
        proof {
            lemma_dot_neg(ray@.way, outward@);
            lemma_sq_len_neg(outward@);
        }
        let d: i64 = ray.way.dot(outward);
        let front_face: bool = d < 0;
        let normal: V3 = if front_face {
            outward
        } else {
            outward.neg()
        };
        HitRecord { pos, normal, distance, front_face, material }
    }
}

/// Flipping the incoming direction flips which side counts as the front,
/// whenever the ray is not tangent to the surface.
pub proof fn lemma_front_face_flip(way: V3i, outward: V3i)
    requires
        dot_s(way, outward) != 0,
    ensures
        front_face_s(vneg(way), outward) == !front_face_s(way, outward),
{
    lemma_dot_neg(way, outward);
}

/// The mathematical value of a sphere.
pub ghost struct Spherei {
    pub pos: V3i,
    pub radius: int,
    pub material: Material,
}

/// A sphere; a negative radius models a hollow sphere whose surface is seen
/// from inside, and the squared radius is the same either way.
#[derive(Debug, Clone, Copy, PartialEq, Eq, Structural)]
pub struct Sphere {
    pub pos: V3,
    pub radius: i64,
    pub material: Material,
}

impl View for Sphere {
    type V = Spherei;

    open spec fn view(&self) -> Spherei {
        Spherei { pos: self.pos@, radius: self.radius as int, material: self.material }
    }
}

pub open spec fn sphere_wf(s: Spherei) -> bool {
    &&& bounded3(s.pos, B_COORD as int)
    &&& -(B_COORD as int) <= s.radius <= B_COORD as int
    &&& material_wf(s.material)
}

pub open spec fn sph_rw(sph: Spherei, ray: Rayi) -> V3i {
    vsub(ray.pos, sph.pos)
}

pub open spec fn sph_ra(ray: Rayi) -> int {
    sq_len_s(ray.way)
}

pub open spec fn sph_rb(sph: Spherei, ray: Rayi) -> int {
    dot_s(ray.way, sph_rw(sph, ray))
}

pub open spec fn sph_rc(sph: Spherei, ray: Rayi) -> int {
    sq_len_s(sph_rw(sph, ray)) - fx_mul_s(sph.radius, sph.radius)
}

/// The discriminant of the intersection quadratic (with the factor of two
/// folded out of the linear term).
pub open spec fn sphere_det_s(sph: Spherei, ray: Rayi) -> int {
    fx_mul_s(sph_rb(sph, ray), sph_rb(sph, ray)) - fx_mul_s(sph_ra(ray), sph_rc(sph, ray))
}

/// The record for a hit of `sph` at distance `d` along `ray`; a degenerate
/// point on the center yields nothing rather than an undefined normal.
pub open spec fn sphere_rec_s(sph: Spherei, ray: Rayi, d: int) -> Option<HitRec> {
    let pos = ray_at_s(ray, d);
    let diff = vsub(pos, sph.pos);
    if near_zero_s(diff) {
        None
    } else {
        Some(new_normal_s(ray, pos, norm_s(diff), d, sph.material))
    }
}

/// Nearest-root selection: the smaller root if it lies strictly inside the
/// window, else the larger, else no hit.
pub open spec fn sphere_hit_s(sph: Spherei, ray: Rayi, t_min: int, t_max: int) -> Option<HitRec> {
    let ra = sph_ra(ray);
    let rb = sph_rb(sph, ray);
    let det = sphere_det_s(sph, ray);
    if det < 0 {
        None
    } else {
        let sq = fx_sqrt_s(det);
        let d0 = fx_div_s(-rb - sq, ra);
        let d1 = fx_div_s(-rb + sq, ra);
        if t_min < d0 && d0 < t_max {
            sphere_rec_s(sph, ray, d0)
        } else if t_min < d1 && d1 < t_max {
            sphere_rec_s(sph, ray, d1)
        } else {
            None
        }
    }
}

impl Sphere {
    pub fn hit(&self, ray: Ray, t_min: i64, t_max: i64) -> (r: Option<HitRecord>)
        requires
            sphere_wf(self@),
            ray_wf(ray@),
            0 <= t_min,
            t_max <= B_COORD,
        ensures
            (match r {
                Some(h) => sphere_hit_s(self@, ray@, t_min as int, t_max as int) == Some(h@),
                None => sphere_hit_s(self@, ray@, t_min as int, t_max as int) is None,
            }),
            sphere_det_s(self@, ray@) < 0 ==> r is None,
            (match r {
                Some(h) => {
                    &&& hr_wf(h@)
                    &&& dot_s(ray@.way, h@.normal) <= 0
                    &&& t_min < h.distance < t_max
                    &&& h.material == self.material
                    &&& bounded3(h@.pos, 0x3000_0000)
                },
                None => true,
            }),
    {
        let rw: V3 = ray.pos.minus(self.pos);
        let ra: i64 = ray.way.sq_len();
        proof {
            lemma_dot_cap(ray@.way, ray@.way, 0x3_0000, 0x3_0000);
            lemma_dot_cap(ray@.way, rw@, 0x3_0000, 0x2400_0000);
            lemma_dot_cap(rw@, rw@, 0x2400_0000, 0x2400_0000);
            lemma_mul_le(self.radius as int, self.radius as int, B_COORD as int, B_COORD as int);
            lemma_tdiv_le(
                (self.radius as int) * (self.radius as int),
                FX_ONE as int,
                0x10_0000_0000_0000,
            );
        }
        let rb: i64 = ray.way.dot(rw);
        let rc: i64 = rw.sq_len() - fx_mul(self.radius, self.radius);
        proof {
            lemma_mul_le(rb as int, rb as int, 0x1_4400_0000, 0x1_4400_0000);
            lemma_mul_le(ra as int, rc as int, 0x1B_0000, 0x4000_0000_0000);
            lemma_tdiv_le((rb as int) * (rb as int), FX_ONE as int, 0x1_9A10_0000_0000_0000);
            lemma_tdiv_le((ra as int) * (rc as int), FX_ONE as int, 0x6C0_0000_0000_0000_0000);
        }
        let det: i64 = fx_mul(rb, rb) - fx_mul(ra, rc);
        if det < 0 {
            return None;
        }
        let sq: i64 = fx_sqrt(det);
        let d0: i64 = fx_div(-rb - sq, ra);
        let d1: i64 = fx_div(-rb + sq, ra);
        let d: i64 = if t_min < d0 && d0 < t_max {
            d0
        } else if t_min < d1 && d1 < t_max {
            d1
        } else {
            return None;
        };
        proof {
            lemma_scale_cap(ray@.way, d as int, 0x3_0000, B_COORD as int);
        }
        let pos: V3 = ray.at(d);
        let diff: V3 = pos.minus(self.pos);
        if diff.near_zero() {
            return None;
        }
        proof {
            crate::math_util::lemma_sq_len_nonneg(diff@);
        }
        let normal: V3 = diff.norm();
        Some(HitRecord::new_normal(ray, pos, normal, d, self.material))
    }
}

/// Aim straight down the axis at a sphere `c` whole units away with radius
/// `r` whole units: the hit lands at distance exactly `c - r`, on the front
/// face, with the outward unit normal back along the axis.
pub proof fn lemma_axis_hit(sph: Spherei, ray: Rayi, c: int, r: int, t_min: int, t_max: int)
    requires
        ray.pos == (V3i { x: 0, y: 0, z: 0 }),
        ray.way == (V3i { x: 0, y: 0, z: -65536 }),
        sph.pos == (V3i { x: 0, y: 0, z: -c * 65536 }),
        sph.radius == r * 65536,
        0 < r < c,
        t_min < (c - r) * 65536 < t_max,
    ensures
        sphere_hit_s(sph, ray, t_min, t_max) == Some(
            HitRec {
                pos: V3i { x: 0, y: 0, z: -(c - r) * 65536 },
                normal: V3i { x: 0, y: 0, z: 65536 },
                distance: (c - r) * 65536,
                front_face: true,
                material: sph.material,
            },
        ),
{
    let w = ray.way;
    let rw = sph_rw(sph, ray);
    assert(rw == V3i { x: 0, y: 0, z: c * 65536 });
    assert(0 * 0 == 0) by (nonlinear_arith);
    assert((-65536) * (-65536) == 65536 * 65536) by (nonlinear_arith);
    crate::fixed::lemma_tdiv_exact(65536, 65536);
    assert(sph_ra(ray) == 65536);
    assert((-65536) * (c * 65536) == -((c * 65536) * 65536)) by (nonlinear_arith);
    crate::fixed::lemma_tdiv_exact(c * 65536, 65536);
    crate::fixed::lemma_tdiv_neg((c * 65536) * 65536, 65536);
    assert(0 * (c * 65536) == 0) by (nonlinear_arith);
    assert(sph_rb(sph, ray) == -(c * 65536));
    assert((c * 65536) * (c * 65536) == ((c * c) * 65536) * 65536) by (nonlinear_arith);
    crate::fixed::lemma_tdiv_exact((c * c) * 65536, 65536);
    assert(sq_len_s(rw) == (c * c) * 65536);
    assert((r * 65536) * (r * 65536) == ((r * r) * 65536) * 65536) by (nonlinear_arith);
    crate::fixed::lemma_tdiv_exact((r * r) * 65536, 65536);
    assert(fx_mul_s(sph.radius, sph.radius) == (r * r) * 65536);
    assert(sph_rc(sph, ray) == ((c * c) - (r * r)) * 65536) by (nonlinear_arith)
        requires
            sph_rc(sph, ray) == (c * c) * 65536 - (r * r) * 65536,
    ;
    assert((-(c * 65536)) * (-(c * 65536)) == ((c * c) * 65536) * 65536) by (nonlinear_arith);
    assert(65536 * (((c * c) - (r * r)) * 65536) == ((((c * c) - (r * r)) * 65536)) * 65536)
        by (nonlinear_arith);
    crate::fixed::lemma_tdiv_exact(((c * c) - (r * r)) * 65536, 65536);
    assert(sphere_det_s(sph, ray) == (r * r) * 65536) by (nonlinear_arith)
        requires
            sphere_det_s(sph, ray) == ((c * c) * 65536) - (((c * c) - (r * r)) * 65536),
    ;
    assert((r * r) * 65536 >= 65536) by (nonlinear_arith)
        requires
            r >= 1,
    ;
    assert(((r * r) * 65536) * 65536 == (r * 65536) * (r * 65536)) by (nonlinear_arith);
    assert(crate::fixed::is_isqrt(((r * r) * 65536) * 65536, r * 65536)) by (nonlinear_arith)
        requires
            r >= 1,
            ((r * r) * 65536) * 65536 == (r * 65536) * (r * 65536),
    ;
    crate::fixed::lemma_isqrt_unique(((r * r) * 65536) * 65536, r * 65536);
    assert(fx_sqrt_s(sphere_det_s(sph, ray)) == r * 65536);
    let d0 = fx_div_s(-sph_rb(sph, ray) - fx_sqrt_s(sphere_det_s(sph, ray)), sph_ra(ray));
    assert(c * 65536 - r * 65536 == (c - r) * 65536) by (nonlinear_arith);
    crate::fixed::lemma_tdiv_exact((c - r) * 65536, 65536);
    assert(d0 == (c - r) * 65536);
    assert((-65536) * ((c - r) * 65536) == -(((c - r) * 65536) * 65536)) by (nonlinear_arith);
    crate::fixed::lemma_tdiv_neg(((c - r) * 65536) * 65536, 65536);
    assert(0 * ((c - r) * 65536) == 0) by (nonlinear_arith);
    let pos = ray_at_s(ray, d0);
    assert(pos == V3i { x: 0, y: 0, z: -((c - r) * 65536) });
    let diff = vsub(pos, sph.pos);
    assert(diff.z == r * 65536) by (nonlinear_arith)
        requires
            diff.z == -((c - r) * 65536) - (-c * 65536),
    ;
    assert(diff == V3i { x: 0, y: 0, z: r * 65536 });
    assert(sq_len_s(diff) == (r * r) * 65536);
    assert(!near_zero_s(diff));
    assert(len_s(diff) == r * 65536);
    assert(r * 65536 >= 65536) by (nonlinear_arith)
        requires
            r >= 1,
    ;
    assert(0 * 65536 == 0) by (nonlinear_arith);
    crate::fixed::lemma_tdiv_le(0, r * 65536, 0);
    assert(65536 * (r * 65536) == (r * 65536) * 65536) by (nonlinear_arith);
    crate::fixed::lemma_tdiv_exact(65536, r * 65536);
    assert(norm_s(diff) == V3i { x: 0, y: 0, z: 65536 });
    assert((-65536) * 65536 == -(65536 * 65536)) by (nonlinear_arith);
    crate::fixed::lemma_tdiv_neg(65536int * 65536, 65536);
    assert(0 * 65536 == 0) by (nonlinear_arith);
    assert(dot_s(ray.way, norm_s(diff)) == -65536);
    assert(front_face_s(ray.way, norm_s(diff)));
    assert(-((c - r) * 65536) == -(c - r) * 65536) by (nonlinear_arith);
}

/// The composite scene: an ordered list of spheres.
#[derive(Debug)]
pub struct GeomList {
    pub geoms: Vec<Sphere>,
}

impl View for GeomList {
    type V = Seq<Spherei>;

    open spec fn view(&self) -> Seq<Spherei> {
        self.geoms@.map_values(|s: Sphere| s@)
    }
}

pub open spec fn list_wf(s: Seq<Spherei>) -> bool {
    forall|i: int| 0 <= i < s.len() ==> sphere_wf(#[trigger] s[i])
}

/// Keep the nearer of a running best hit and a candidate.
pub open spec fn closer_hit(acc: Option<HitRec>, cand: Option<HitRec>) -> Option<HitRec> {
    match cand {
        Some(c) => match acc {
            None => Some(c),
            Some(a) => if c.distance < a.distance {
                Some(c)
            } else {
                Some(a)
            },
        },
        None => acc,
    }
}

pub open spec fn list_hit_from(
    geoms: Seq<Spherei>,
    i: int,
    ray: Rayi,
    t_min: int,
    t_max: int,
    acc: Option<HitRec>,
) -> Option<HitRec>
    decreases geoms.len() - i,
{
    if i < 0 || i >= geoms.len() {
        acc
    } else {
        list_hit_from(
            geoms,
            i + 1,
            ray,
            t_min,
            t_max,
            closer_hit(acc, sphere_hit_s(geoms[i], ray, t_min, t_max)),
        )
    }
}

/// The nearest hit over the whole list: the member hit of least distance,
/// the earliest such member on ties.
pub open spec fn list_hit_s(geoms: Seq<Spherei>, ray: Rayi, t_min: int, t_max: int) -> Option<
    HitRec,
> {
    list_hit_from(geoms, 0, ray, t_min, t_max, None)
}

/// An empty fold result means the running best was empty and every member
/// from `i` on misses.
proof fn lemma_list_hit_from_none(
    geoms: Seq<Spherei>,
    i: int,
    ray: Rayi,
    t_min: int,
    t_max: int,
    acc: Option<HitRec>,
)
    requires
        0 <= i,
        list_hit_from(geoms, i, ray, t_min, t_max, acc) is None,
    ensures
        acc is None,
        forall|j: int|
            i <= j < geoms.len() ==> #[trigger] sphere_hit_s(geoms[j], ray, t_min, t_max)
                is None,
    decreases geoms.len() - i,
{
    if i < 0 || i >= geoms.len() {
    } else {
        lemma_list_hit_from_none(
            geoms,
            i + 1,
            ray,
            t_min,
            t_max,
            closer_hit(acc, sphere_hit_s(geoms[i], ray, t_min, t_max)),
        );
    }
}

pub open spec fn opt_hit_view(o: Option<HitRecord>) -> Option<HitRec> {
    match o {
        Some(h) => Some(h@),
        None => None,
    }
}

impl GeomList {
    pub fn hit(&self, ray: Ray, d_min: i64, d_max: i64) -> (r: Option<HitRecord>)
        requires
            list_wf(self@),
            ray_wf(ray@),
            0 <= d_min,
            d_max <= B_COORD,
        ensures
            opt_hit_view(r) == list_hit_s(self@, ray@, d_min as int, d_max as int),
            (match r {
                Some(h) => {
                    &&& hr_wf(h@)
                    &&& dot_s(ray@.way, h@.normal) <= 0
                    &&& d_min < h.distance < d_max
                    &&& bounded3(h@.pos, 0x3000_0000)
                    &&& exists|i: int|
                        0 <= i < self@.len() && h.material == #[trigger] self@[i].material
                },
                None => true,
            }),
            r is None ==> forall|i: int|
                0 <= i < self@.len() ==> #[trigger] sphere_hit_s(
                    self@[i],
                    ray@,
                    d_min as int,
                    d_max as int,
                ) is None,
    {
        let mut nearest: Option<HitRecord> = None;
        let mut i: usize = 0;
        while i < self.geoms.len()
            invariant
                list_wf(self@),
                ray_wf(ray@),
                0 <= d_min,
                d_max <= B_COORD,
                0 <= i <= self.geoms.len(),
                self@.len() == self.geoms@.len(),
                list_hit_from(self@, i as int, ray@, d_min as int, d_max as int, opt_hit_view(nearest))
                    == list_hit_s(self@, ray@, d_min as int, d_max as int),
                (match nearest {
                    Some(h) => {
                        &&& hr_wf(h@)
                        &&& dot_s(ray@.way, h@.normal) <= 0
                        &&& d_min < h.distance < d_max
                        &&& bounded3(h@.pos, 0x3000_0000)
                        &&& exists|j: int|
                            0 <= j < self@.len() && h.material == #[trigger] self@[j].material
                    },
                    None => true,
                }),
            decreases self.geoms.len() - i,
        {
            let g: Sphere = self.geoms[i];
            proof {
                assert(self@[i as int] == g@);
            }
            let cand: Option<HitRecord> = g.hit(ray, d_min, d_max);
            let ghost prev = opt_hit_view(nearest);
            match cand {
                Some(h) => {
                    let replace: bool = match nearest {
                        None => true,
                        Some(n) => h.distance < n.distance,
                    };
                    if replace {
                        nearest = Some(h);
                    }
                    proof {
                        assert(exists|j: int|
                            0 <= j < self@.len() && h.material == #[trigger] self@[j].material) by {
                            assert(h.material == self@[i as int].material);
                        }
                    }
                },
                None => {},
            }
            proof {
                assert(opt_hit_view(nearest) == closer_hit(
                    prev,
                    sphere_hit_s(self@[i as int], ray@, d_min as int, d_max as int),
                ));
            }
            i = i + 1;
        }
        proof {
            if nearest is None {
                lemma_list_hit_from_none(
                    self@,
                    0,
                    ray@,
                    d_min as int,
                    d_max as int,
                    None,
                );
            }
        }
        nearest
    }

    pub fn add(&mut self, geom: Sphere)
        ensures
            final(self).geoms@ == old(self).geoms@.push(geom),
            final(self)@ == old(self)@.push(geom@),
    {
        self.geoms.push(geom);
        proof {
            assert(self@ =~= old(self)@.push(geom@));
        }
    }

    pub fn clear(&mut self)
        ensures
            final(self).geoms@.len() == 0,
            final(self)@ =~= Seq::<Spherei>::empty(),
    {
        self.geoms.clear();
    }
}

} // verus!
