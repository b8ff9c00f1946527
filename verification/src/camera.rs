use vstd::prelude::*;
use crate::fixed::{FX_HALF, FX_ONE, fx_mul, fx_mul_s, lemma_mul_le, lemma_tdiv_le};
use crate::geom::{Ray, Rayi, ray_wf};
use crate::math_util::{
    B_COORD, B_VEC, Rng, V3, V3i, bounded3, cross_s, lemma_scale_cap, lemma_sq_len_neg,
    near_zero_s, norm_s, rand2_state, rand_disk, rand_disk_s, sq_len_s, vadd, vneg, vscale, vsub,
};
use crate::trig::{HALF_PI, cos_s, tan_fx, tan_s};

verus! {

/// The thin-lens camera: eye position, screen frame, orthonormal-like basis,
/// and the lens radius for depth of field.
#[derive(Debug, Clone, Copy, PartialEq, Eq, Structural)]
pub struct Camera {
    pub pos: V3,
    pub lower_left: V3,
    pub horizontal: V3,
    pub vertical: V3,
    pub u: V3,
    pub v: V3,
    pub w: V3,
    pub lens_radius: i64,
}

/// The bounds under which ray generation is free of overflow and always
/// yields a well-formed ray.
pub open spec fn camera_wf(c: Camera) -> bool {
    &&& bounded3(c.pos@, B_COORD as int)
    &&& bounded3(c.lower_left@, 0x9_0000_0000)
    &&& bounded3(c.horizontal@, 0x8_0000_0000)
    &&& bounded3(c.vertical@, 0x8_0000_0000)
    &&& bounded3(c.u@, 0x12_0000)
    &&& bounded3(c.v@, 0x6C_0000)
    &&& bounded3(c.w@, 0x3_0000)
    &&& sq_len_s(c.w@) >= 1
    &&& 0 <= c.lens_radius <= FX_ONE
}

/// Half the field of view, as the tangent's argument.
pub open spec fn cam_half_fov_s(vfov: int) -> int {
    fx_mul_s(vfov, FX_HALF as int)
}

pub open spec fn cam_height_s(vfov: int) -> int {
    2 * tan_s(cam_half_fov_s(vfov))
}

pub open spec fn cam_width_s(vfov: int, aspect: int) -> int {
    fx_mul_s(aspect, cam_height_s(vfov))
}

/// The ray for normalized screen coordinates `(x, y)`: the origin is
/// displaced within the lens disk, and the direction runs to the screen
/// point; a degenerate direction falls back to the view axis.
pub open spec fn get_ray_s(c: Camera, x: int, y: int, s: u64) -> Rayi {
    let disk = vscale(rand_disk_s(s), c.lens_radius as int);
    let offset = vadd(vscale(c.u@, disk.x), vscale(c.v@, disk.y));
    let origin = vadd(c.pos@, offset);
    let dir = vsub(
        vsub(vadd(vadd(c.lower_left@, vscale(c.horizontal@, x)), vscale(c.vertical@, y)), c.pos@),
        offset,
    );
    let way = if near_zero_s(dir) {
        vneg(c.w@)
    } else {
        norm_s(dir)
    };
    Rayi { pos: origin, way }
}

impl Camera {
    pub fn new(
        look_from: V3,
        look_at: V3,
        up: V3,
        vfov: i64,
        aspect: i64,
        aperture: i64,
        focus_dist: i64,
    ) -> (r: Camera)
        requires
            bounded3(look_from@, B_COORD as int),
            bounded3(look_at@, B_COORD as int),
            sq_len_s(vsub(look_from@, look_at@)) >= 1,
            bounded3(up@, B_VEC as int),
            sq_len_s(up@) >= 1,
            0 <= vfov <= 0x8_0000,
            0 <= cam_half_fov_s(vfov as int) < HALF_PI,
            cos_s(cam_half_fov_s(vfov as int)) >= 1,
            0 <= tan_s(cam_half_fov_s(vfov as int)) <= 0x8_0000,
            0 < aspect <= 0x4_0000,
            0 <= aperture <= 0x2_0000,
            0 < focus_dist <= 0x100_0000,
        ensures
            r.pos == look_from,
            r.w@ == norm_s(vsub(look_from@, look_at@)),
            r.u@ == cross_s(norm_s(up@), r.w@),
            r.v@ == cross_s(r.w@, r.u@),
            r.horizontal@ == vscale(
                vscale(r.u@, cam_width_s(vfov as int, aspect as int)),
                focus_dist as int,
            ),
            r.vertical@ == vscale(vscale(r.v@, cam_height_s(vfov as int)), focus_dist as int),
            r.lower_left@ == vsub(
                vsub(
                    vsub(look_from@, vscale(r.horizontal@, FX_HALF as int)),
                    vscale(r.vertical@, FX_HALF as int),
                ),
                vscale(r.w@, focus_dist as int),
            ),
            r.lens_radius as int == fx_mul_s(aperture as int, FX_HALF as int),
            camera_wf(r),
    {
        proof {
            lemma_mul_le(vfov as int, FX_HALF as int, 0x8_0000, 0x8000);
        }
        let h: i64 = tan_fx(fx_mul(vfov, FX_HALF));
        let height: i64 = 2 * h;
        proof {
            lemma_mul_le(aspect as int, height as int, 0x4_0000, 0x10_0000);
            lemma_tdiv_le((aspect as int) * (height as int), FX_ONE as int, 0x40_0000_0000);
        }
        let width: i64 = fx_mul(aspect, height);
        let w: V3 = look_from.minus(look_at).norm();
        let un: V3 = up.norm();
        proof {
            crate::math_util::lemma_cross_cap(un@, w@, 0x3_0000, 0x3_0000);
        }
        let u: V3 = un.cross(w);
        proof {
            crate::math_util::lemma_cross_cap(w@, u@, 0x3_0000, 0x12_0000);
        }
        let v: V3 = w.cross(u);
        proof {
            lemma_scale_cap(u@, width as int, 0x12_0000, 0x40_0000);
            lemma_scale_cap(vscale(u@, width as int), focus_dist as int, 0x480_0000, 0x100_0000);
            lemma_scale_cap(v@, height as int, 0x6C_0000, 0x10_0000);
            lemma_scale_cap(vscale(v@, height as int), focus_dist as int, 0x6C0_0000, 0x100_0000);
        }
        let horizontal: V3 = u.scale(width).scale(focus_dist);
        let vertical: V3 = v.scale(height).scale(focus_dist);
        proof {
            lemma_scale_cap(horizontal@, FX_HALF as int, 0x8_0000_0000, 0x8000);
            lemma_scale_cap(vertical@, FX_HALF as int, 0x8_0000_0000, 0x8000);
            lemma_scale_cap(w@, focus_dist as int, 0x3_0000, 0x100_0000);
            lemma_mul_le(aperture as int, FX_HALF as int, 0x2_0000, 0x8000);
            lemma_tdiv_le((aperture as int) * (FX_HALF as int), FX_ONE as int, 0x1_0000_0000);
        }
        let lower_left: V3 = look_from.minus(horizontal.scale(FX_HALF)).minus(
            vertical.scale(FX_HALF),
        ).minus(w.scale(focus_dist));
        Camera {
            pos: look_from,
            horizontal,
            vertical,
            lower_left,
            u,
            v,
            w,
            lens_radius: fx_mul(aperture, FX_HALF),
        }
    }

    /// Sample a lens point and aim the ray through the screen point at
    /// normalized coordinates `(x, y)`.
    pub fn get_ray(&self, x: i64, y: i64, rng: &mut Rng) -> (r: Ray)
        requires
            camera_wf(*self),
            0 <= x <= FX_ONE,
            0 <= y <= FX_ONE,
        ensures
            r@ == get_ray_s(*self, x as int, y as int, old(rng).state),
            final(rng).state == rand2_state(old(rng).state),
            ray_wf(r@),
    {
        let d: V3 = rand_disk(rng);
        proof {
            lemma_scale_cap(d@, self.lens_radius as int, 0x1_0000, 0x1_0000);
            let disk = vscale(d@, self.lens_radius as int);
            lemma_scale_cap(self.u@, disk.x, 0x12_0000, 0x1_0000);
            lemma_scale_cap(self.v@, disk.y, 0x6C_0000, 0x1_0000);
            lemma_scale_cap(self.horizontal@, x as int, 0x8_0000_0000, 0x1_0000);
            lemma_scale_cap(self.vertical@, y as int, 0x8_0000_0000, 0x1_0000);
            lemma_sq_len_neg(self.w@);
        }
        let lens_disk: V3 = d.scale(self.lens_radius);
        let offset: V3 = self.u.scale(lens_disk.0).plus(self.v.scale(lens_disk.1));
        let origin: V3 = self.pos.plus(offset);
        let dir: V3 = self.lower_left.plus(self.horizontal.scale(x)).plus(
            self.vertical.scale(y),
        ).minus(self.pos).minus(offset);
        proof {
            crate::math_util::lemma_sq_len_nonneg(dir@);
        }
        let way: V3 = if dir.near_zero() {
            self.w.neg()
        } else {
            dir.norm()
        };
        Ray { pos: origin, way }
    }
}

} // verus!
