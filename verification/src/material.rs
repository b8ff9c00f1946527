use vstd::prelude::*;
use crate::fixed::{FX_ONE, fx_div, fx_div_s, fx_mul, fx_mul_s, fx_sqrt, fx_sqrt_s, lemma_mul_le, lemma_tdiv_le, lemma_tdiv_mul_bound, tdiv};
use crate::geom::{HitRec, HitRecord, Ray, Rayi, hr_wf};
use crate::math_util::{
    B_VEC, Rng, V3, V3i, bounded3, dot_s, lemma_dot_cap, lemma_scale_cap, near_zero_s, norm_s,
    rand2_state, rand_hemisphere, rand_hemisphere_s, reflect_s, refract_s, sq_len_s, vadd, vscale,
};

verus! {

/// Diffuse surface: scatters into the hemisphere around the normal with a
/// fixed color attenuation.
#[derive(Debug, Clone, Copy, PartialEq, Eq, Structural)]
pub struct Lambertian {
    pub color: V3,
}

/// Glossy mirror: reflects about the normal, perturbed by `fuzz`.
#[derive(Debug, Clone, Copy, PartialEq, Eq, Structural)]
pub struct Metal {
    pub color: V3,
    pub fuzz: i64,
}

/// Dielectric: refracts or, past the critical angle, reflects; never absorbs.
#[derive(Debug, Clone, Copy, PartialEq, Eq, Structural)]
pub struct Glass {
    pub ir: i64,
}

#[derive(Debug, Clone, Copy, PartialEq, Eq, Structural)]
pub enum Material {
    Lambertian(Lambertian),
    Metal(Metal),
    Glass(Glass),
}

/// Color channels lie in the unit interval.
pub open spec fn color01(c: V3i) -> bool {
    &&& 0 <= c.x <= FX_ONE as int
    &&& 0 <= c.y <= FX_ONE as int
    &&& 0 <= c.z <= FX_ONE as int
}

pub open spec fn material_wf(m: Material) -> bool {
    match m {
        Material::Lambertian(l) => color01(l.color@),
        Material::Metal(mt) => color01(mt.color@) && 0 <= mt.fuzz <= FX_ONE,
        Material::Glass(g) => FX_ONE <= g.ir <= 0x40_0000,
    }
}

/// A scatter direction is renormalized, falling back to the surface normal
/// when the raw direction truncates to zero.
pub open spec fn scatter_way_s(raw: V3i, normal: V3i) -> V3i {
    if near_zero_s(raw) {
        norm_s(normal)
    } else {
        norm_s(raw)
    }
}

pub open spec fn lambertian_scatter_s(color: V3i, hit: HitRec, s: u64) -> (V3i, Rayi) {
    let way = vadd(hit.normal, rand_hemisphere_s(hit.normal, s));
    (color, Rayi { pos: hit.pos, way: scatter_way_s(way, hit.normal) })
}

pub open spec fn metal_scatter_s(color: V3i, fuzz: int, ray: Rayi, hit: HitRec, s: u64) -> (
    V3i,
    Rayi,
) {
    let refl = reflect_s(ray.way, hit.normal);
    let way = vadd(refl, vscale(rand_hemisphere_s(refl, s), fuzz));
    (color, Rayi { pos: hit.pos, way: scatter_way_s(way, hit.normal) })
}

/// The refraction-index ratio seen by the ray: inverted on entry, direct on
/// exit.
pub open spec fn glass_ratio_s(ir: int, front_face: bool) -> int {
    if front_face {
        fx_div_s(FX_ONE as int, ir)
    } else {
        ir
    }
}

/// The sine of the incidence angle, from its cosine; the operand of the
/// square root is floored at zero against round-off.
pub open spec fn glass_sin_s(cos: int) -> int {
    let rest = FX_ONE as int - fx_mul_s(cos, cos);
    fx_sqrt_s(
        if rest < 0 {
            0
        } else {
            rest
        },
    )
}

/// Total internal reflection applies when the scaled sine leaves the unit
/// range.
pub open spec fn glass_cannot_refract_s(ir: int, ray: Rayi, hit: HitRec) -> bool {
    let ratio = glass_ratio_s(ir, hit.front_face);
    let cos = -dot_s(ray.way, hit.normal);
    fx_mul_s(ratio, glass_sin_s(cos)) > FX_ONE as int
}

pub open spec fn glass_scatter_s(ir: int, ray: Rayi, hit: HitRec) -> (V3i, Rayi) {
    let ratio = glass_ratio_s(ir, hit.front_face);
    let way = if glass_cannot_refract_s(ir, ray, hit) {
        reflect_s(ray.way, hit.normal)
    } else {
        refract_s(ray.way, hit.normal, ratio)
    };
    (
        V3i { x: FX_ONE as int, y: FX_ONE as int, z: FX_ONE as int },
        Rayi { pos: hit.pos, way: scatter_way_s(way, hit.normal) },
    )
}

/// What a material does to an incoming ray at a hit: an attenuation color,
/// the scattered ray (none would mean absorption), and the generator state
/// after sampling.
pub open spec fn scatter_s(m: Material, ray: Rayi, hit: HitRec, s: u64) -> (V3i, Option<Rayi>, u64) {
    match m {
        Material::Lambertian(l) => {
            let (c, r) = lambertian_scatter_s(l.color@, hit, s);
            (c, Some(r), rand2_state(s))
        },
        Material::Metal(mt) => {
            let (c, r) = metal_scatter_s(mt.color@, mt.fuzz as int, ray, hit, s);
            (c, Some(r), rand2_state(s))
        },
        Material::Glass(g) => {
            let (c, r) = glass_scatter_s(g.ir as int, ray, hit);
            (c, Some(r), s)
        },
    }
}

/// What every scattered ray satisfies: it starts at the hit point with a
/// unit-like direction.
pub open spec fn scatter_ray_ok(sr: Rayi, hit: HitRec) -> bool {
    &&& sr.pos == hit.pos
    &&& bounded3(sr.way, 0x3_0000)
    &&& sq_len_s(sr.way) >= 1
}

/// Renormalize a raw scatter direction, falling back to the normal when it
/// truncates to zero.
fn scatter_way(raw: V3, normal: V3) -> (r: V3)
    requires
        bounded3(raw@, B_VEC as int),
        bounded3(normal@, 0x3_0000),
        sq_len_s(normal@) >= 1,
    ensures
        r@ == scatter_way_s(raw@, normal@),
        bounded3(r@, 0x3_0000),
        sq_len_s(r@) >= 1,
{
    proof {
        crate::math_util::lemma_sq_len_nonneg(raw@);
    }
    if raw.near_zero() {
        normal.norm()
    } else {
        raw.norm()
    }
}

impl Lambertian {
    pub fn scatter(&self, ray: Ray, hit: &HitRecord, rng: &mut Rng) -> (r: (V3, Option<Ray>))
        requires
            hr_wf(hit@),
            color01(self.color@),
        ensures
            r.0@ == lambertian_scatter_s(self.color@, hit@, old(rng).state).0,
            (match r.1 {
                Some(x) => x@ == lambertian_scatter_s(self.color@, hit@, old(rng).state).1
                    && scatter_ray_ok(x@, hit@),
                None => false,
            }),
            final(rng).state == rand2_state(old(rng).state),
            sq_len_s(hit@.normal) >= FX_ONE ==> (match r.1 {
                Some(x) => dot_s(hit@.normal, x@.way) >= 1,
                None => true,
            }),
    {
        let h: V3 = rand_hemisphere(hit.normal, rng);
        let way: V3 = hit.normal.plus(h);
        let w: V3 = scatter_way(way, hit.normal);
        proof {
            if sq_len_s(hit@.normal) >= FX_ONE {
                let nv = hit@.normal;
                let v = crate::math_util::rand_v3_s(old(rng).state);
                if dot_s(nv, v) > 0 {
                } else {
                    crate::math_util::lemma_dot_neg(nv, v);
                }
                assert(dot_s(nv, h@) >= 0);
                crate::math_util::lemma_heading_premise(nv, h@);
                if near_zero_s(way@) {
                    assert(nv.x * 0 == 0) by (nonlinear_arith);
                    assert(nv.y * 0 == 0) by (nonlinear_arith);
                    assert(nv.z * 0 == 0) by (nonlinear_arith);
                    assert(dot_s(nv, V3i { x: 0, y: 0, z: 0 }) == 0);
                    crate::math_util::lemma_heading_premise(nv, V3i { x: 0, y: 0, z: 0 });
                    assert(nv.x * (nv.x + 0) == nv.x * nv.x) by (nonlinear_arith);
                    assert(nv.y * (nv.y + 0) == nv.y * nv.y) by (nonlinear_arith);
                    assert(nv.z * (nv.z + 0) == nv.z * nv.z) by (nonlinear_arith);
                    crate::math_util::lemma_norm_keeps_heading(nv, nv);
                } else {
                    crate::math_util::lemma_sq_len_nonneg(way@);
                    crate::math_util::lemma_norm_keeps_heading(nv, way@);
                }
                assert(dot_s(nv, w@) >= 1);
            }
        }
        (self.color, Some(Ray { pos: hit.pos, way: w }))
    }
}

impl Metal {
    pub fn scatter(&self, ray: Ray, hit: &HitRecord, rng: &mut Rng) -> (r: (V3, Option<Ray>))
        requires
            hr_wf(hit@),
            color01(self.color@),
            0 <= self.fuzz <= FX_ONE,
            bounded3(ray@.way, 0x3_0000),
        ensures
            r.0@ == metal_scatter_s(self.color@, self.fuzz as int, ray@, hit@, old(rng).state).0,
            (match r.1 {
                Some(x) => x@ == metal_scatter_s(
                    self.color@,
                    self.fuzz as int,
                    ray@,
                    hit@,
                    old(rng).state,
                ).1 && scatter_ray_ok(x@, hit@),
                None => false,
            }),
            final(rng).state == rand2_state(old(rng).state),
    {
        let refl: V3 = ray.way.reflect(hit.normal);
        let h: V3 = rand_hemisphere(refl, rng);
        proof {
            lemma_scale_cap(rand_hemisphere_s(refl@, old(rng).state), self.fuzz as int, 0x1_0000, 0x1_0000);
        }
        let way: V3 = refl.plus(h.scale(self.fuzz));
        let w: V3 = scatter_way(way, hit.normal);
        (self.color, Some(Ray { pos: hit.pos, way: w }))
    }
}

impl Glass {
    pub fn scatter(&self, ray: Ray, hit: &HitRecord, rng: &mut Rng) -> (r: (V3, Option<Ray>))
        requires
            hr_wf(hit@),
            FX_ONE <= self.ir <= 0x40_0000,
            bounded3(ray@.way, 0x3_0000),
        ensures
            r.0@ == glass_scatter_s(self.ir as int, ray@, hit@).0,
            (match r.1 {
                Some(x) => x@ == glass_scatter_s(self.ir as int, ray@, hit@).1
                    && scatter_ray_ok(x@, hit@),
                None => false,
            }),
            final(rng).state == old(rng).state,
    {
        let ratio: i64 = if hit.front_face {
            let q: i64 = fx_div(FX_ONE, self.ir);
            proof {
                lemma_tdiv_mul_bound(0x1_0000_0000int, self.ir as int);
                assert(tdiv(0x1_0000_0000int, self.ir as int) <= 65536) by (nonlinear_arith)
                    requires
                        (self.ir as int) * tdiv(0x1_0000_0000int, self.ir as int) <= 0x1_0000_0000int,
                        0 <= tdiv(0x1_0000_0000int, self.ir as int),
                        self.ir >= 65536,
                ;
            }
            q
        } else {
            self.ir
        };
        let cos: i64 = -ray.way.dot(hit.normal);
        proof {
            lemma_dot_cap(ray@.way, hit@.normal, 0x3_0000, 0x3_0000);
            lemma_mul_le(cos as int, cos as int, 0x1B_0000, 0x1B_0000);
            assert((cos as int) * (cos as int) >= 0) by (nonlinear_arith);
            lemma_tdiv_mul_bound((cos as int) * (cos as int), FX_ONE as int);
            lemma_tdiv_le((cos as int) * (cos as int), FX_ONE as int, 0x2D9_0000_0000);
        }
        let csq: i64 = fx_mul(cos, cos);
        let rest: i64 = FX_ONE - csq;
        let arg: i64 = if rest < 0 {
            0
        } else {
            rest
        };
        let sin: i64 = fx_sqrt(arg);
        proof {
            assert(sin <= 65536) by (nonlinear_arith)
                requires
                    (sin as int) * (sin as int) <= (arg as int) * 65536,
                    0 <= arg <= 65536,
                    0 <= sin,
            ;
            lemma_mul_le(ratio as int, sin as int, 0x40_0000, 0x1_0000);
        }
        let cannot_refract: bool = fx_mul(ratio, sin) > FX_ONE;
        let way: V3 = if cannot_refract {
            ray.way.reflect(hit.normal)
        } else {
            ray.way.refract(hit.normal, ratio)
        };
        let w: V3 = scatter_way(way, hit.normal);
        (V3(FX_ONE, FX_ONE, FX_ONE), Some(Ray { pos: hit.pos, way: w }))
    }
}

/// At exact normal incidence a dielectric refracts, whatever its index:
/// the total-internal-reflection test cannot fire.
pub proof fn lemma_glass_normal_incidence(ir: int, ray: Rayi, hit: HitRec)
    requires
        dot_s(ray.way, hit.normal) == -(FX_ONE as int),
    ensures
        !glass_cannot_refract_s(ir, ray, hit),
{
    let cos = -dot_s(ray.way, hit.normal);
    crate::fixed::lemma_tdiv_exact(65536, 65536);
    assert(fx_mul_s(cos, cos) == 65536);
    assert(crate::fixed::is_isqrt(0, 0)) by (nonlinear_arith);
    crate::fixed::lemma_isqrt_unique(0, 0);
    assert(glass_sin_s(cos) == 0);
    let ratio = glass_ratio_s(ir, hit.front_face);
    assert(ratio * 0 == 0) by (nonlinear_arith);
    assert(fx_mul_s(ratio, 0) == 0);
}

impl Material {
    /// Dispatch to the variant's scattering rule.
    pub fn scatter(&self, ray: Ray, hit: &HitRecord, rng: &mut Rng) -> (r: (V3, Option<Ray>))
        requires
            hr_wf(hit@),
            material_wf(*self),
            bounded3(ray@.way, 0x3_0000),
        ensures
            ({
                let (c, sr, s2) = scatter_s(*self, ray@, hit@, old(rng).state);
                &&& r.0@ == c
                &&& final(rng).state == s2
                &&& match r.1 {
                    Some(x) => sr == Some(x@),
                    None => sr is None,
                }
            }),
            (match r.1 {
                Some(x) => scatter_ray_ok(x@, hit@),
                None => true,
            }),
    {
        match self {
            Material::Lambertian(l) => l.scatter(ray, hit, rng),
            Material::Metal(mt) => mt.scatter(ray, hit, rng),
            Material::Glass(g) => g.scatter(ray, hit, rng),
        }
    }
}

} // verus!
