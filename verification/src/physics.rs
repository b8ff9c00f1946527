use vstd::prelude::*;
use crate::fixed::{FX_HALF, FX_ONE, fx_div_r, fx_div_s, fx_mul, fx_mul_s, lemma_mul_le, lemma_tdiv_exact, lemma_tdiv_le};
use crate::math_util::{
    V3, V3i, bounded3, dot_s, len_s, lemma_scale_cap, lemma_sq_len_nonneg, near_zero_s, norm_s,
    vadd, vscale, vsub,
};

verus! {

/// Magnitude cap that every ball's position and velocity keep through a tick.
pub const PB_BOX: i64 = 0x2000_0000;

/// A rigid ball: center, radius, velocity.
#[derive(Debug, Clone, Copy, PartialEq, Eq, Structural)]
pub struct Ball {
    pub pos: V3,
    pub radius: i64,
    pub speed: V3,
}

/// The mathematical value of a ball.
pub ghost struct Balli {
    pub pos: V3i,
    pub radius: int,
    pub speed: V3i,
}

impl View for Ball {
    type V = Balli;

    open spec fn view(&self) -> Balli {
        Balli { pos: self.pos@, radius: self.radius as int, speed: self.speed@ }
    }
}

/// The ball world: all balls, the floor's restitution, and gravity per tick.
#[derive(Debug)]
pub struct World {
    pub balls: Vec<Ball>,
    pub bump: i64,
    pub gravity: i64,
}

pub open spec fn ball_wf(b: Balli) -> bool {
    &&& bounded3(b.pos, 0x1000_0000)
    &&& bounded3(b.speed, 0x10_0000)
    &&& 1 <= b.radius <= 0x40_0000
}

pub open spec fn pw_wf(w: World) -> bool {
    &&& forall|i: int| 0 <= i < w.balls@.len() ==> ball_wf(#[trigger] w.balls@[i]@)
    &&& 0 <= w.bump <= FX_ONE
    &&& 0 <= w.gravity <= FX_ONE
}

/// A ball's state within the box that a tick keeps it in.
pub open spec fn pb_ok(b: Balli) -> bool {
    bounded3(b.pos, PB_BOX as int) && bounded3(b.speed, PB_BOX as int)
}

/// One ball's free step: move by the velocity, pull the vertical velocity
/// down by gravity, and bounce off the floor when the center dips under the
/// radius.
pub open spec fn step_ball_s(b: Balli, gravity: int, bump: int) -> Balli {
    let pos = vadd(b.pos, b.speed);
    let vy = b.speed.y - gravity;
    if pos.y < b.radius {
        Balli {
            pos: V3i { x: pos.x, y: b.radius, z: pos.z },
            radius: b.radius,
            speed: V3i { x: b.speed.x, y: -fx_mul_s(bump, vy), z: b.speed.z },
        }
    } else {
        Balli { pos, radius: b.radius, speed: V3i { x: b.speed.x, y: vy, z: b.speed.z } }
    }
}

/// Two balls touch nothing of each other when the distance of their centers
/// covers both radii.
pub open spec fn separated_s(a: Balli, b: Balli) -> bool {
    len_s(vsub(a.pos, b.pos)) - a.radius - b.radius >= 0
}

/// After the free step, no pair overlaps.
pub open spec fn all_separated_s(balls: Seq<Ball>, gravity: int, bump: int) -> bool {
    forall|i: int, j: int|
        0 <= i < j < balls.len() ==> separated_s(
            #[trigger] step_ball_s(balls[i]@, gravity, bump),
            #[trigger] step_ball_s(balls[j]@, gravity, bump),
        )
}

/// The mathematical value of every ball in a list.
pub open spec fn views_s(balls: Seq<Ball>) -> Seq<Balli> {
    balls.map_values(|b: Ball| b@)
}

/// One pass over the pair `(a, b)`: when the pair overlaps with a usable
/// contact line, push the centers apart by half the scaled penetration each
/// and exchange the contact-line velocity components by the volumetric
/// masses — but only when the masses, contact velocities and the resulting
/// states stay inside the guard ranges of this scale; any other pair is
/// left as it stands.
pub open spec fn pair_step_s(balls: Seq<Balli>, a: int, b: int) -> Seq<Balli> {
    if !(0 <= a && a < balls.len() && 0 <= b && b < balls.len()) {
        balls
    } else {
        let ba = balls[a];
        let bb = balls[b];
        let ab = vsub(ba.pos, bb.pos);
        let gap = len_s(ab) - ba.radius - bb.radius;
        if gap < 0 && !near_zero_s(ab) {
            let nrm = norm_s(ab);
            let half_pull = vscale(vscale(vscale(nrm, gap), 65537), FX_HALF as int);
            let na_pos = vsub(ba.pos, half_pull);
            let nb_pos = vadd(bb.pos, half_pull);
            let ma = fx_mul_s(fx_mul_s(ba.radius, ba.radius), ba.radius);
            let mb = fx_mul_s(fx_mul_s(bb.radius, bb.radius), bb.radius);
            let va = dot_s(ba.speed, nrm);
            let vb = dot_s(bb.speed, nrm);
            if 1 <= ma && ma <= 0x4_0000_0000 && 1 <= mb && mb <= 0x4_0000_0000 && -0x1000_0000
                <= va && va <= 0x1000_0000 && -0x1000_0000 <= vb && vb <= 0x1000_0000 {
                let (wa, wb) = collision_s(va, vb, ma, mb);
                let na_speed = vsub(ba.speed, vscale(nrm, va - wa));
                let nb_speed = vsub(bb.speed, vscale(nrm, vb - wb));
                if bounded3(na_pos, PB_BOX as int) && bounded3(nb_pos, PB_BOX as int) && bounded3(
                    na_speed,
                    PB_BOX as int,
                ) && bounded3(nb_speed, PB_BOX as int) {
                    balls.update(a, Balli { pos: na_pos, radius: ba.radius, speed: na_speed })
                        .update(b, Balli { pos: nb_pos, radius: bb.radius, speed: nb_speed })
                } else {
                    balls
                }
            } else {
                balls
            }
        } else {
            balls
        }
    }
}

/// One row of pair passes: ball `a` against each later ball in turn.
pub open spec fn resolve_row_s(balls: Seq<Balli>, n: int, a: int, b: int) -> Seq<Balli>
    decreases n - b,
{
    if b < a + 1 || b >= n {
        balls
    } else {
        resolve_row_s(pair_step_s(balls, a, b), n, a, b + 1)
    }
}

/// All pair passes, in loop order.
pub open spec fn resolve_all_s(balls: Seq<Balli>, n: int, a: int) -> Seq<Balli>
    decreases n - a,
{
    if a < 0 || a >= n {
        balls
    } else {
        resolve_all_s(resolve_row_s(balls, n, a, a + 1), n, a + 1)
    }
}

/// The whole tick: every ball's free step, then every pair pass.
pub open spec fn tick_s(balls: Seq<Ball>, gravity: int, bump: int) -> Seq<Balli> {
    resolve_all_s(
        Seq::new(balls.len(), |i: int| step_ball_s(balls[i]@, gravity, bump)),
        balls.len() as int,
        0,
    )
}

/// Taking values commutes with replacing one element.
proof fn lemma_view_update(balls: Seq<Ball>, i: int, b: Ball)
    requires
        0 <= i < balls.len(),
    ensures
        views_s(balls.update(i, b)) == views_s(balls).update(i, b@),
{
    assert(views_s(balls.update(i, b)) =~= views_s(balls).update(i, b@));
}

/// Two balls with the same velocity and no floor contact fall as one: the
/// free step moves both by the same displacement, so their center distance
/// — and with it their separation — is unchanged. Iterated against `tick`'s
/// no-overlap clause, this keeps distant co-falling balls from ever
/// registering a collision.
pub proof fn lemma_free_fall_keeps_separation(a: Balli, b: Balli, g: int, bump: int)
    requires
        a.speed == b.speed,
        vadd(a.pos, a.speed).y >= a.radius,
        vadd(b.pos, b.speed).y >= b.radius,
        separated_s(a, b),
    ensures
        separated_s(step_ball_s(a, g, bump), step_ball_s(b, g, bump)),
        vsub(step_ball_s(a, g, bump).pos, step_ball_s(b, g, bump).pos) == vsub(a.pos, b.pos),
        step_ball_s(a, g, bump).speed == step_ball_s(b, g, bump).speed,
        step_ball_s(a, g, bump).radius == a.radius,
        step_ball_s(b, g, bump).radius == b.radius,
{
    let sa = step_ball_s(a, g, bump);
    let sb = step_ball_s(b, g, bump);
    assert(sa.pos == vadd(a.pos, a.speed));
    assert(sb.pos == vadd(b.pos, b.speed));
    assert(vsub(sa.pos, sb.pos) == vsub(a.pos, b.pos));
}

/// Elastic head-on exchange of velocities between masses `m1` and `m2`.
pub open spec fn collision_s(v1: int, v2: int, m1: int, m2: int) -> (int, int) {
    (
        fx_div_s(fx_mul_s(m2 + m2, v2) + fx_mul_s(m1 - m2, v1), m1 + m2),
        fx_div_s(fx_mul_s(m1 + m1, v1) + fx_mul_s(m2 - m1, v2), m1 + m2),
    )
}

pub fn collision(v1: i64, v2: i64, m1: i64, m2: i64) -> (r: (i64, i64))
    requires
        1 <= m1 <= 0x4_0000_0000,
        1 <= m2 <= 0x4_0000_0000,
        -0x1000_0000 <= v1 <= 0x1000_0000,
        -0x1000_0000 <= v2 <= 0x1000_0000,
    ensures
        r.0 as int == collision_s(v1 as int, v2 as int, m1 as int, m2 as int).0,
        r.1 as int == collision_s(v1 as int, v2 as int, m1 as int, m2 as int).1,
        -0x3000_0000 <= r.0 <= 0x3000_0000,
        -0x3000_0000 <= r.1 <= 0x3000_0000,
{
    let ghost msum = m1 as int + m2 as int;
    proof {
        lemma_collision_term(m2 as int, v2 as int, msum);
        lemma_collision_term(m1 as int, v1 as int, msum);
        lemma_collision_diff(m1 as int, m2 as int, v1 as int, msum);
        lemma_collision_diff(m2 as int, m1 as int, v2 as int, msum);
    }
    let n1: i64 = fx_mul(m2 + m2, v2) + fx_mul(m1 - m2, v1);
    let n2: i64 = fx_mul(m1 + m1, v1) + fx_mul(m2 - m1, v2);
    proof {
        assert(-(msum * 12288) <= n1 as int <= msum * 12288) by (nonlinear_arith)
            requires
                -(msum * 8192) <= fx_mul_s(2 * (m2 as int), v2 as int) <= msum * 8192,
                -(msum * 4096) <= fx_mul_s(m1 as int - m2 as int, v1 as int) <= msum * 4096,
                n1 as int == fx_mul_s(2 * (m2 as int), v2 as int) + fx_mul_s(
                    m1 as int - m2 as int,
                    v1 as int,
                ),
                msum >= 2,
        ;
        assert(-(msum * 12288) <= n2 as int <= msum * 12288) by (nonlinear_arith)
            requires
                -(msum * 8192) <= fx_mul_s(2 * (m1 as int), v1 as int) <= msum * 8192,
                -(msum * 4096) <= fx_mul_s(m2 as int - m1 as int, v2 as int) <= msum * 4096,
                n2 as int == fx_mul_s(2 * (m1 as int), v1 as int) + fx_mul_s(
                    m2 as int - m1 as int,
                    v2 as int,
                ),
                msum >= 2,
        ;
        assert(msum * 12288 <= 0x2000_0000 * msum) by (nonlinear_arith)
            requires
                msum >= 2,
        ;
    }
    let w1: i64 = fx_div_r(n1, m1 + m2);
    let w2: i64 = fx_div_r(n2, m1 + m2);
    proof {
        lemma_collision_quot(n1 as int, msum);
        lemma_collision_quot(n2 as int, msum);
    }
    (w1, w2)
}

/// The doubled-mass term of the exchange is a small multiple of the mass sum.
proof fn lemma_collision_term(m: int, v: int, msum: int)
    requires
        1 <= m,
        m + 1 <= msum,
        msum <= 0x8_0000_0001,
        -0x1000_0000 <= v <= 0x1000_0000,
    ensures
        -(msum * 8192) <= fx_mul_s(m + m, v) <= msum * 8192,
        -0x4000_0000_0000_0000_0000 <= (m + m) * v <= 0x4000_0000_0000_0000_0000,
{
    assert(-(msum * 0x2000_0000) <= (m + m) * v <= msum * 0x2000_0000) by (nonlinear_arith)
        requires
            1 <= m,
            m + 1 <= msum,
            -0x1000_0000 <= v <= 0x1000_0000,
    ;
    lemma_tdiv_le((m + m) * v, FX_ONE as int, msum * 0x2000_0000);
    assert(msum * 0x2000_0000 == (msum * 8192) * 65536) by (nonlinear_arith);
    lemma_tdiv_exact(msum * 8192, 65536);
    assert(msum * 0x2000_0000 <= 0x4000_0000_0000_0000_0000) by (nonlinear_arith)
        requires
            msum <= 0x8_0000_0001,
    ;
}

/// The mass-difference term of the exchange is a small multiple of the mass
/// sum.
proof fn lemma_collision_diff(ma: int, mb: int, v: int, msum: int)
    requires
        1 <= ma,
        1 <= mb,
        msum == ma + mb,
        msum <= 0x8_0000_0001,
        -0x1000_0000 <= v <= 0x1000_0000,
    ensures
        -(msum * 4096) <= fx_mul_s(ma - mb, v) <= msum * 4096,
        -0x4000_0000_0000_0000_0000 <= (ma - mb) * v <= 0x4000_0000_0000_0000_0000,
{
    assert(-(msum * 0x1000_0000) <= (ma - mb) * v <= msum * 0x1000_0000) by (nonlinear_arith)
        requires
            1 <= ma,
            1 <= mb,
            msum == ma + mb,
            -0x1000_0000 <= v <= 0x1000_0000,
    ;
    lemma_tdiv_le((ma - mb) * v, FX_ONE as int, msum * 0x1000_0000);
    assert(msum * 0x1000_0000 == (msum * 4096) * 65536) by (nonlinear_arith);
    lemma_tdiv_exact(msum * 4096, 65536);
    assert(msum * 0x1000_0000 <= 0x4000_0000_0000_0000_0000) by (nonlinear_arith)
        requires
            msum <= 0x8_0000_0001,
    ;
}

/// The exchanged velocity stays within a few incoming magnitudes.
proof fn lemma_collision_quot(n: int, msum: int)
    requires
        2 <= msum,
        -(msum * 12288) <= n <= msum * 12288,
    ensures
        -0x3000_0000 <= fx_div_s(n, msum) <= 0x3000_0000,
{
    assert(-(msum * 0x3000_0000) <= n * 65536 <= msum * 0x3000_0000) by (nonlinear_arith)
        requires
            -(msum * 12288) <= n <= msum * 12288,
    ;
    lemma_tdiv_le(n * 65536, msum, msum * 0x3000_0000);
    assert(msum * 0x3000_0000 == 0x3000_0000 * msum) by (nonlinear_arith);
    lemma_tdiv_exact(0x3000_0000, msum);
}

impl World {
    /// Advance the world one step: every ball falls freely and bounces off
    /// the floor, then overlapping pairs are pushed apart and exchange
    /// velocity along the contact line by their volumetric masses. When no
    /// pair overlaps after the free step, the free step is the whole story.
    pub fn tick(&mut self)
        requires
            pw_wf(*old(self)),
        ensures
            views_s(final(self).balls@) == tick_s(
                old(self).balls@,
                old(self).gravity as int,
                old(self).bump as int,
            ),
            final(self).balls@.len() == old(self).balls@.len(),
            final(self).bump == old(self).bump,
            final(self).gravity == old(self).gravity,
            forall|i: int|
                0 <= i < old(self).balls@.len() ==> #[trigger] final(self).balls@[i]@.radius
                    == old(self).balls@[i]@.radius,
            forall|i: int|
                0 <= i < old(self).balls@.len() ==> bounded3(
                    #[trigger] final(self).balls@[i]@.pos,
                    PB_BOX as int,
                ) && bounded3(final(self).balls@[i]@.speed, PB_BOX as int),
            all_separated_s(old(self).balls@, old(self).gravity as int, old(self).bump as int)
                ==> forall|i: int|
                0 <= i < old(self).balls@.len() ==> #[trigger] final(self).balls@[i]@
                    == step_ball_s(
                    old(self).balls@[i]@,
                    old(self).gravity as int,
                    old(self).bump as int,
                ),
    {
        let g: i64 = self.gravity;
        let bump: i64 = self.bump;
        let n: usize = self.balls.len();
        let mut i: usize = 0;
        while i < n
            invariant
                n == self.balls@.len(),
                self.bump == old(self).bump,
                self.gravity == old(self).gravity,
                g == old(self).gravity,
                bump == old(self).bump,
                pw_wf(*old(self)),
                0 <= i <= n,
                old(self).balls@.len() == n,
                forall|j: int|
                    i <= j < n ==> #[trigger] self.balls@[j] == old(self).balls@[j],
                forall|j: int|
                    0 <= j < i ==> #[trigger] self.balls@[j]@ == step_ball_s(
                        old(self).balls@[j]@,
                        g as int,
                        bump as int,
                    ),
                forall|j: int| 0 <= j < i ==> pb_ok(#[trigger] self.balls@[j]@),
            decreases n - i,
        {
            proof {
                assert(ball_wf(old(self).balls@[i as int]@));
            }
            let b: Ball = self.balls[i];
            let pos: V3 = b.pos.plus(b.speed);
            let vy: i64 = b.speed.1 - g;
            let nb: Ball = if pos.1 < b.radius {
                proof {
                    lemma_mul_le(bump as int, vy as int, 0x1_0000, 0x11_0000);
                    lemma_tdiv_le((bump as int) * (vy as int), FX_ONE as int, 0x11_0000_0000);
                }
                Ball {
                    pos: V3(pos.0, b.radius, pos.2),
                    radius: b.radius,
                    speed: V3(b.speed.0, -fx_mul(bump, vy), b.speed.2),
                }
            } else {
                Ball { pos, radius: b.radius, speed: V3(b.speed.0, vy, b.speed.2) }
            };
            self.balls[i] = nb;
            i = i + 1;
        }
        let ghost stepped = self.balls@;
        let ghost stepv = views_s(stepped);
        proof {
            assert(stepv =~= Seq::new(
                old(self).balls@.len(),
                |i: int| step_ball_s(old(self).balls@[i]@, g as int, bump as int),
            ));
        }
        let mut a: usize = 0;
        while a < n
            invariant
                n == self.balls@.len(),
                self.bump == old(self).bump,
                self.gravity == old(self).gravity,
                g == old(self).gravity,
                bump == old(self).bump,
                pw_wf(*old(self)),
                0 <= a <= n,
                old(self).balls@.len() == n,
                stepped.len() == n,
                forall|j: int|
                    0 <= j < n ==> #[trigger] stepped[j]@ == step_ball_s(
                        old(self).balls@[j]@,
                        g as int,
                        bump as int,
                    ),
                forall|j: int|
                    0 <= j < n ==> #[trigger] self.balls@[j]@.radius == old(
                        self,
                    ).balls@[j]@.radius,
                forall|j: int| 0 <= j < n ==> pb_ok(#[trigger] self.balls@[j]@),
                all_separated_s(old(self).balls@, g as int, bump as int) ==> self.balls@
                    == stepped,
                resolve_all_s(views_s(self.balls@), n as int, a as int) == resolve_all_s(
                    stepv,
                    n as int,
                    0,
                ),
            decreases n - a,
        {
            let mut b: usize = a + 1;
            while b < n
                invariant
                    n == self.balls@.len(),
                    self.bump == old(self).bump,
                    self.gravity == old(self).gravity,
                    g == old(self).gravity,
                    bump == old(self).bump,
                    pw_wf(*old(self)),
                    0 <= a < n,
                    a < b <= n,
                    old(self).balls@.len() == n,
                    stepped.len() == n,
                    forall|j: int|
                        0 <= j < n ==> #[trigger] stepped[j]@ == step_ball_s(
                            old(self).balls@[j]@,
                            g as int,
                            bump as int,
                        ),
                    forall|j: int|
                        0 <= j < n ==> #[trigger] self.balls@[j]@.radius == old(
                            self,
                        ).balls@[j]@.radius,
                    forall|j: int| 0 <= j < n ==> pb_ok(#[trigger] self.balls@[j]@),
                    all_separated_s(old(self).balls@, g as int, bump as int) ==> self.balls@
                        == stepped,
                    resolve_all_s(
                        resolve_row_s(views_s(self.balls@), n as int, a as int, b as int),
                        n as int,
                        a as int + 1,
                    ) == resolve_all_s(stepv, n as int, 0),
                decreases n - b,
            {
                proof {
                    assert(pb_ok(self.balls@[a as int]@));
                    assert(pb_ok(self.balls@[b as int]@));
                    assert(ball_wf(old(self).balls@[a as int]@));
                    assert(ball_wf(old(self).balls@[b as int]@));
                    assert(self.balls@[a as int]@.radius == old(self).balls@[a as int]@.radius);
                    assert(self.balls@[b as int]@.radius == old(self).balls@[b as int]@.radius);
                }
                let ghost pre = views_s(self.balls@);
                let ba: Ball = self.balls[a];
                let bb: Ball = self.balls[b];
                proof {
                    assert(pre[a as int] == ba@);
                    assert(pre[b as int] == bb@);
                }
                let ab: V3 = ba.pos.minus(bb.pos);
                let gap: i64 = ab.len() - ba.radius - bb.radius;
                if gap < 0 && !ab.near_zero() {
                    proof {
                        lemma_sq_len_nonneg(ab@);
                        lemma_mul_le(ba.radius as int, ba.radius as int, 0x40_0000, 0x40_0000);
                        lemma_tdiv_le(
                            (ba.radius as int) * (ba.radius as int),
                            FX_ONE as int,
                            0x1000_0000_0000,
                        );
                        lemma_mul_le(bb.radius as int, bb.radius as int, 0x40_0000, 0x40_0000);
                        lemma_tdiv_le(
                            (bb.radius as int) * (bb.radius as int),
                            FX_ONE as int,
                            0x1000_0000_0000,
                        );
                    }
                    let ab_norm: V3 = ab.norm();
                    proof {
                        lemma_scale_cap(ab_norm@, gap as int, 0x3_0000, 0x80_0000);
                        lemma_scale_cap(vscale(ab_norm@, gap as int), 65537, 0x180_0000, 0x1_0001);
                        lemma_scale_cap(
                            vscale(vscale(ab_norm@, gap as int), 65537),
                            FX_HALF as int,
                            0x200_0000,
                            0x8000,
                        );
                    }
                    let pull: V3 = ab_norm.scale(gap).scale(65537);
                    let half_pull: V3 = pull.scale(FX_HALF);
                    let na_pos: V3 = ba.pos.minus(half_pull);
                    let nb_pos: V3 = bb.pos.plus(half_pull);
                    let ra2: i64 = fx_mul(ba.radius, ba.radius);
                    let rb2: i64 = fx_mul(bb.radius, bb.radius);
                    proof {
                        lemma_mul_le(ra2 as int, ba.radius as int, 0x1000_0000, 0x40_0000);
                        lemma_tdiv_le(
                            (ra2 as int) * (ba.radius as int),
                            FX_ONE as int,
                            0x40_0000_0000_0000,
                        );
                        lemma_mul_le(rb2 as int, bb.radius as int, 0x1000_0000, 0x40_0000);
                        lemma_tdiv_le(
                            (rb2 as int) * (bb.radius as int),
                            FX_ONE as int,
                            0x40_0000_0000_0000,
                        );
                    }
                    let ma: i64 = fx_mul(ra2, ba.radius);
                    let mb: i64 = fx_mul(rb2, bb.radius);
                    let va: i64 = ba.speed.dot(ab_norm);
                    let vb: i64 = bb.speed.dot(ab_norm);
                    if 1 <= ma && ma <= 0x4_0000_0000 && 1 <= mb && mb <= 0x4_0000_0000
                        && -0x1000_0000 <= va && va <= 0x1000_0000 && -0x1000_0000 <= vb && vb
                        <= 0x1000_0000 {
                        let (wa, wb): (i64, i64) = collision(va, vb, ma, mb);
                        proof {
                            lemma_scale_cap(ab_norm@, va as int - wa as int, 0x3_0000, 0x4000_0000);
                            lemma_scale_cap(ab_norm@, vb as int - wb as int, 0x3_0000, 0x4000_0000);
                        }
                        let na_speed: V3 = ba.speed.minus(ab_norm.scale(va - wa));
                        let nb_speed: V3 = bb.speed.minus(ab_norm.scale(vb - wb));
                        if in_pb_box(na_pos) && in_pb_box(nb_pos) && in_pb_box(na_speed)
                            && in_pb_box(nb_speed) {
                            let ghost before_a = self.balls@;
                            self.balls[a] = Ball { pos: na_pos, radius: ba.radius, speed: na_speed };
                            let ghost before_b = self.balls@;
                            self.balls[b] = Ball { pos: nb_pos, radius: bb.radius, speed: nb_speed };
                            proof {
                                lemma_view_update(
                                    before_a,
                                    a as int,
                                    Ball { pos: na_pos, radius: ba.radius, speed: na_speed },
                                );
                                lemma_view_update(
                                    before_b,
                                    b as int,
                                    Ball { pos: nb_pos, radius: bb.radius, speed: nb_speed },
                                );
                            }
                        }
                    }
                }
                proof {
                    assert(views_s(self.balls@) == pair_step_s(pre, a as int, b as int));
                    assert(resolve_row_s(pre, n as int, a as int, b as int) == resolve_row_s(
                        views_s(self.balls@),
                        n as int,
                        a as int,
                        b as int + 1,
                    ));
                }
                b = b + 1;
            }
            proof {
                assert(resolve_row_s(views_s(self.balls@), n as int, a as int, n as int)
                    == views_s(self.balls@));
            }
            a = a + 1;
        }
        proof {
            assert(resolve_all_s(views_s(self.balls@), n as int, n as int)
                == views_s(self.balls@));
        }
    }
}

/// Whether a vector lies inside the physics box.
fn in_pb_box(v: V3) -> (r: bool)
    ensures
        r == bounded3(v@, PB_BOX as int),
{
    -PB_BOX <= v.0 && v.0 <= PB_BOX && -PB_BOX <= v.1 && v.1 <= PB_BOX && -PB_BOX <= v.2 && v.2
        <= PB_BOX
}

} // verus!
