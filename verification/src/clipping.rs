//! Visibility culling: clip planes, bounding spheres, and the
//! sphere-versus-plane classification that decides which instances are
//! rasterized.

use vstd::prelude::*;
use crate::fixed::{FX_ONE, fx_mul, fx_mul_e, mag, div_trunc, div_trunc_i128};
use crate::geometry::{Vec3, bounded3, rot_y_x, rot_y_z, rotate_y, dist2, lemma_fx_mul_bound};
use crate::consts::{DEFAULT_TRANSL_X, DEFAULT_TRANSL_Y, DEFAULT_TRANSL_Z, default_transl};

verus! {

/// A clip plane, representing the half-space `dot(normal, p) + d >= 0`.
#[derive(Clone, Copy, Debug, PartialEq, Eq, Structural)]
pub struct Plane {
    pub normal: Vec3,
    pub d: i64,
}

impl Plane {
    /// Build a plane from its normal and scalar offset.
    pub fn new(normal: Vec3, d: i64) -> (r: Self)
        ensures
            r.normal == normal,
            r.d == d,
    {
        Self { normal, d }
    }
}

/// How a bounding sphere stands to a clip plane.
#[derive(Clone, Copy, Debug, PartialEq, Eq, Structural)]
pub enum PlaneSide {
    /// The sphere lies entirely on the inner side: the plane keeps it.
    Inside,
    /// The sphere lies entirely on the outer side: the plane drops it.
    Outside,
    /// Neither test is conclusive: the conservative policy drops it.
    Straddles,
}

/// Signed distance from a point to a plane, in raw units:
/// `nx*x + ny*y + nz*z + d` with fixed-point products.
pub open spec fn signed_dist_spec(plane: Plane, vert: Vec3) -> int {
    fx_mul(vert.x as int, plane.normal.x as int) + fx_mul(vert.y as int, plane.normal.y as int)
        + fx_mul(vert.z as int, plane.normal.z as int) + plane.d
}

/// Magnitude bounds under which the signed distance cannot overflow.
pub open spec fn plane_ok(plane: Plane) -> bool {
    bounded3(plane.normal, 0x4_0000) && mag(plane.d as int) <= 0x100_0000_0000
}

/// Compute the signed distance from `vert` to the plane.
pub fn signed_dist(plane: &Plane, vert: Vec3) -> (r: i64)
    requires
        plane_ok(*plane),
        bounded3(vert, 0x100_0000_0000),
    ensures
        r == signed_dist_spec(*plane, vert),
        mag(r as int) <= 0x4000_0000_0000,
{
    proof {
        lemma_fx_mul_bound(vert.x as int, plane.normal.x as int, 0x100_0000_0000, 0x4_0000);
        lemma_fx_mul_bound(vert.y as int, plane.normal.y as int, 0x100_0000_0000, 0x4_0000);
        lemma_fx_mul_bound(vert.z as int, plane.normal.z as int, 0x100_0000_0000, 0x4_0000);
    }
    let px = fx_mul_e(vert.x, plane.normal.x);
    let py = fx_mul_e(vert.y, plane.normal.y);
    let pz = fx_mul_e(vert.z, plane.normal.z);
    px + py + pz + plane.d
}

/// Classify a bounding sphere against a clip plane by its center's signed
/// distance: beyond the radius on the inner side it is fully inside, beyond
/// the radius on the outer side fully outside, and otherwise it straddles
/// the plane.
pub fn classify_sphere_plane(center: Vec3, radius: i64, plane: &Plane) -> (r: PlaneSide)
    requires
        plane_ok(*plane),
        bounded3(center, 0x100_0000_0000),
        0 <= radius,
    ensures
        r == PlaneSide::Inside <==> signed_dist_spec(*plane, center) > radius,
        r == PlaneSide::Outside <==> signed_dist_spec(*plane, center) < -radius,
        r == PlaneSide::Straddles <==> -radius <= signed_dist_spec(*plane, center) <= radius,
{
    let d = signed_dist(plane, center);
    if d > radius {
        PlaneSide::Inside
    } else if d < -radius {
        PlaneSide::Outside
    } else {
        PlaneSide::Straddles
    }
}

/// The three sphere-plane classes are mutually exclusive and together cover
/// every signed distance.
pub proof fn lemma_classification_partition(dist: int, radius: int)
    requires
        radius >= 0,
    ensures
        !(dist > radius && dist < -radius),
        !(dist > radius && -radius <= dist <= radius),
        !(dist < -radius && -radius <= dist <= radius),
        (dist > radius) || (dist < -radius) || (-radius <= dist <= radius),
{
}

/// Componentwise sum of a sequence of vectors.
pub open spec fn sum3(s: Seq<Vec3>) -> (int, int, int)
    decreases s.len(),
{
    if s.len() == 0 {
        (0, 0, 0)
    } else {
        let rest = sum3(s.drop_last());
        (rest.0 + s.last().x, rest.1 + s.last().y, rest.2 + s.last().z)
    }
}

/// Integer square root: the largest `r` with `r * r <= n`.
pub fn isqrt_u128(n: u128) -> (r: u128)
    ensures
        r * r <= n,
        (r + 1) * (r + 1) > n,
        r < 0x1_0000_0000_0000_0000,
{
    let mut lo: u128 = 0;
    let mut hi: u128 = 0x1_0000_0000_0000_0000;
    proof {
        assert(hi * hi > n) by (nonlinear_arith)
            requires
                hi == 0x1_0000_0000_0000_0000,
                n <= u128::MAX,
        ;
    }
    while lo + 1 < hi
        invariant
            lo < hi,
            hi <= 0x1_0000_0000_0000_0000,
            lo * lo <= n,
            hi * hi > n,
        decreases hi - lo,
    {
        let mid = lo + (hi - lo) / 2;
        proof {
            assert(2 <= hi - lo);
            assert(1 <= (hi - lo) / 2 < hi - lo) by {
                vstd::arithmetic::div_mod::lemma_div_is_ordered(2, (hi - lo) as int, 2);
                vstd::arithmetic::div_mod::lemma_div_is_strictly_smaller((hi - lo) as int, 2);
            }
            assert(lo < mid < hi);
            assert(mid * mid <= u128::MAX) by (nonlinear_arith)
                requires
                    mid < 0x1_0000_0000_0000_0000,
            ;
        }
        if mid * mid <= n {
            lo = mid;
        } else {
            hi = mid;
        }
    }
    lo
}

/// Rounded-up integer square root: the smallest `r` with `r * r >= n`.
pub fn isqrt_ceil_u128(n: u128) -> (r: u128)
    ensures
        r * r >= n,
        r > 0 ==> (r - 1) * (r - 1) < n,
        r <= 0x1_0000_0000_0000_0000,
{
    let f = isqrt_u128(n);
    if f * f == n {
        proof {
            if f > 0 {
                assert((f - 1) * (f - 1) < f * f) by (nonlinear_arith)
                    requires
                        f > 0,
                ;
            }
        }
        f
    } else {
        proof {
            assert(f * f < n);
        }
        f + 1
    }
}

/// A conservative spherical bound on a mesh: its object-space center and
/// radius are fixed at construction; `center` is the world-space position
/// recomputed each frame before culling.
#[derive(Clone, Copy, Debug, PartialEq, Eq, Structural)]
pub struct BoundingSphere {
    pub center: Vec3,
    pub orig_center: Vec3,
    pub radius: i64,
}

/// The sphere truly bounds the vertex set: every vertex lies within
/// `radius` of the object-space center.
pub open spec fn sphere_bounds(center: Vec3, radius: i64, verts: Seq<Vec3>) -> bool {
    &&& radius >= 0
    &&& forall|k: int| 0 <= k < verts.len() ==> #[trigger] dist2(center, verts[k]) <= (radius as int)
        * (radius as int)
}

impl BoundingSphere {
    /// The average of the vertices and the distance to the farthest vertex,
    /// rounded up so the result is a true bound.
    fn compute(verts: &Vec<Vec3>) -> (r: (Vec3, i64))
        requires
            1 <= verts.len() <= 0x10000,
            forall|k: int| 0 <= k < verts@.len() ==> bounded3(#[trigger] verts@[k], 0x400_0000),
        ensures
            r.0.x == div_trunc(sum3(verts@).0, verts@.len() as int),
            r.0.y == div_trunc(sum3(verts@).1, verts@.len() as int),
            r.0.z == div_trunc(sum3(verts@).2, verts@.len() as int),
            bounded3(r.0, 0x400_0000),
            sphere_bounds(r.0, r.1, verts@),
            r.1 <= 0x1000_0000,
            r.1 == 0 || exists|k: int|
                0 <= k < verts@.len() && ((r.1 - 1) as int) * ((r.1 - 1) as int) < #[trigger] dist2(
                    r.0,
                    verts@[k],
                ),
    {
        let n = verts.len();
        let mut sx: i64 = 0;
        let mut sy: i64 = 0;
        let mut sz: i64 = 0;
        let mut i: usize = 0;
        while i < n
            invariant
                0 <= i <= n,
                n == verts@.len(),
                1 <= n <= 0x10000,
                forall|k: int| 0 <= k < verts@.len() ==> bounded3(#[trigger] verts@[k], 0x400_0000),
                sx == sum3(verts@.take(i as int)).0,
                sy == sum3(verts@.take(i as int)).1,
                sz == sum3(verts@.take(i as int)).2,
                mag(sx as int) <= i * 0x400_0000,
                mag(sy as int) <= i * 0x400_0000,
                mag(sz as int) <= i * 0x400_0000,
            decreases n - i,
        {
            proof {
                assert(verts@.take(i + 1).drop_last() =~= verts@.take(i as int));
                assert(verts@.take(i + 1).last() == verts@[i as int]);
                assert((i + 1) * 0x400_0000 == i * 0x400_0000 + 0x400_0000) by (nonlinear_arith);
                assert(i * 0x400_0000 <= 0x10000 * 0x400_0000) by (nonlinear_arith)
                    requires
                        0 <= i <= 0x10000,
                ;
            }
            let v = verts[i];
            sx = sx + v.x;
            sy = sy + v.y;
            sz = sz + v.z;
            i = i + 1;
        }
        proof {
            assert(verts@.take(n as int) =~= verts@);
            assert(mag(sx as int) <= n * 0x400_0000);
            assert(n * 0x400_0000 > 0) by (nonlinear_arith)
                requires
                    n >= 1,
            ;
        }
        let cx = div_trunc_i128(sx as i128, n as i128) as i64;
        let cy = div_trunc_i128(sy as i128, n as i128) as i64;
        let cz = div_trunc_i128(sz as i128, n as i128) as i64;
        proof {
            assert(mag(div_trunc(sx as int, n as int)) <= 0x400_0000) by {
                assert(mag(div_trunc(sx as int, n as int)) == mag(sx as int) / (n as int));
                vstd::arithmetic::div_mod::lemma_div_is_ordered(
                    mag(sx as int),
                    n * 0x400_0000,
                    n as int,
                );
                vstd::arithmetic::div_mod::lemma_div_multiples_vanish(0x400_0000, n as int);
            }
            assert(mag(div_trunc(sy as int, n as int)) <= 0x400_0000) by {
                assert(mag(div_trunc(sy as int, n as int)) == mag(sy as int) / (n as int));
                vstd::arithmetic::div_mod::lemma_div_is_ordered(
                    mag(sy as int),
                    n * 0x400_0000,
                    n as int,
                );
                vstd::arithmetic::div_mod::lemma_div_multiples_vanish(0x400_0000, n as int);
            }
            assert(mag(div_trunc(sz as int, n as int)) <= 0x400_0000) by {
                assert(mag(div_trunc(sz as int, n as int)) == mag(sz as int) / (n as int));
                vstd::arithmetic::div_mod::lemma_div_is_ordered(
                    mag(sz as int),
                    n * 0x400_0000,
                    n as int,
                );
                vstd::arithmetic::div_mod::lemma_div_multiples_vanish(0x400_0000, n as int);
            }
        }
        let center = Vec3 { x: cx, y: cy, z: cz };
        let mut best: u128 = 0;
        let ghost mut best_k: int = 0int;
        let mut i: usize = 0;
        while i < n
            invariant
                0 <= i <= n,
                n == verts@.len(),
                forall|k: int| 0 <= k < verts@.len() ==> bounded3(#[trigger] verts@[k], 0x400_0000),
                bounded3(center, 0x400_0000),
                forall|k: int| 0 <= k < i ==> #[trigger] dist2(center, verts@[k]) <= best,
                i > 0 ==> 0 <= best_k < i && best == dist2(center, verts@[best_k]),
                i == 0 ==> best == 0 && best_k == 0,
                best <= 0xC0_0000_0000_0000,
            decreases n - i,
        {
            let v = verts[i];
            let dx: i128 = (center.x as i128) - (v.x as i128);
            let dy: i128 = (center.y as i128) - (v.y as i128);
            let dz: i128 = (center.z as i128) - (v.z as i128);
            proof {
                assert(bounded3(verts@[i as int], 0x400_0000));
                assert(mag(dx as int) <= 0x800_0000 && mag(dy as int) <= 0x800_0000 && mag(
                    dz as int,
                ) <= 0x800_0000);
                assert(0 <= dx * dx <= 0x40_0000_0000_0000 && 0 <= dy * dy <= 0x40_0000_0000_0000
                    && 0 <= dz * dz <= 0x40_0000_0000_0000) by (nonlinear_arith)
                    requires
                        mag(dx as int) <= 0x800_0000,
                        mag(dy as int) <= 0x800_0000,
                        mag(dz as int) <= 0x800_0000,
                ;
            }
            let d2: i128 = dx * dx + dy * dy + dz * dz;
            let d2u: u128 = d2 as u128;
            proof {
                assert(d2u == dist2(center, v));
            }
            if d2u > best {
                best = d2u;
                proof {
                    best_k = i as int;
                }
            }
            i = i + 1;
        }
        let radius_u = isqrt_ceil_u128(best);
        let radius = radius_u as i64;
        proof {
            assert(radius_u * radius_u >= best);
            assert(radius_u <= 0x1000_0000) by (nonlinear_arith)
                requires
                    radius_u > 0 ==> (radius_u - 1) * (radius_u - 1) < best,
                    best <= 0xC0_0000_0000_0000,
                    radius_u >= 0,
            ;
            assert(radius == radius_u);
            assert forall|k: int| 0 <= k < verts@.len() implies #[trigger] dist2(center, verts@[k])
                <= (radius as int) * (radius as int) by {
                assert(dist2(center, verts@[k]) <= best);
            }
        }
        (center, radius)
    }

    /// Build the bounding sphere of a vertex set; the world center starts at
    /// the object-space center.
    pub fn new(verts: &Vec<Vec3>) -> (r: Self)
        requires
            1 <= verts.len() <= 0x10000,
            forall|k: int| 0 <= k < verts@.len() ==> bounded3(#[trigger] verts@[k], 0x400_0000),
        ensures
            r.orig_center == r.center,
            bounded3(r.orig_center, 0x400_0000),
            sphere_bounds(r.orig_center, r.radius, verts@),
            r.radius <= 0x1000_0000,
            r.radius == 0 || exists|k: int|
                0 <= k < verts@.len() && ((r.radius - 1) as int) * ((r.radius - 1) as int)
                    < #[trigger] dist2(r.orig_center, verts@[k]),
    {
        let (center, radius) = BoundingSphere::compute(verts);
        Self { center, radius, orig_center: center }
    }

    /// Recompute the world-space center for this frame: translate the
    /// object-space center by the instance translation and the fixed world
    /// offset, then apply the camera's view rotation (the inverse of the
    /// camera angle, whose cosine/sine pair is given).
    pub fn update(&mut self, trans: Vec3, cam_cos: i64, cam_sin: i64)
        requires
            bounded3(old(self).orig_center, 0x400_0000),
            bounded3(trans, 0x100_0000),
            mag(cam_cos as int) <= 2 * FX_ONE,
            mag(cam_sin as int) <= 2 * FX_ONE,
        ensures
            final(self).radius == old(self).radius,
            final(self).orig_center == old(self).orig_center,
            ({
                let cx = trans.x + old(self).orig_center.x + DEFAULT_TRANSL_X;
                let cy = trans.y + old(self).orig_center.y + DEFAULT_TRANSL_Y;
                let cz = trans.z + old(self).orig_center.z + DEFAULT_TRANSL_Z;
                &&& final(self).center.x == rot_y_x(cx, cz, cam_cos as int, -cam_sin as int)
                &&& final(self).center.y == cy
                &&& final(self).center.z == rot_y_z(cx, cz, cam_cos as int, -cam_sin as int)
            }),
            bounded3(final(self).center, 0x100_0000_0000),
    {
        let offset = default_transl();
        let cx = trans.x + self.orig_center.x + offset.x;
        let cy = trans.y + self.orig_center.y + offset.y;
        let cz = trans.z + self.orig_center.z + offset.z;
        let moved = Vec3 { x: cx, y: cy, z: cz };
        let rotated = rotate_y(moved, cam_cos, -cam_sin);
        self.center = rotated;
    }
}

} // verus!

use crate::instance::{Instance, inst_view, scene_view};

verus! {

/// Whether an instance survives culling: its bounding sphere's world
/// center lies strictly more than a radius inside every clip plane. Any
/// other relation to any plane (fully outside, or straddling) drops the
/// whole instance: no partial clipping is attempted.
pub open spec fn survives(inst: Instance, planes: Seq<Plane>) -> bool {
    forall|k: int|
        0 <= k < planes.len() ==> signed_dist_spec(#[trigger] planes[k], inst.bounding_sphere.center)
            > inst.bounding_sphere.radius
}

/// [`survives`] as a predicate over instances, for a fixed plane set.
pub open spec fn survives_pred(planes: Seq<Plane>) -> spec_fn(Instance) -> bool {
    |inst: Instance| survives(inst, planes)
}

/// Magnitude bounds under which an instance can be culled without
/// overflow.
pub open spec fn cullable(inst: Instance) -> bool {
    bounded3(inst.bounding_sphere.center, 0x100_0000_0000) && 0 <= inst.bounding_sphere.radius
}

/// Rebuild an instance field by field, so the copy is known equal to the
/// original.
fn clone_instance(inst: &Instance) -> (r: Instance)
    ensures
        inst_view(r) == inst_view(*inst),
        r.bounding_sphere == inst.bounding_sphere,
{
    let mut verts: Vec<crate::geometry::Vec3> = Vec::new();
    let n = inst.verts.len();
    let mut i: usize = 0;
    while i < n
        invariant
            0 <= i <= n,
            n == inst.verts@.len(),
            verts@ == inst.verts@.take(i as int),
        decreases n - i,
    {
        verts.push(inst.verts[i]);
        proof {
            assert(verts@ =~= inst.verts@.take(i + 1));
        }
        i = i + 1;
    }
    let mut triangles: Vec<(usize, usize, usize)> = Vec::new();
    let m = inst.triangles.len();
    let mut i: usize = 0;
    while i < m
        invariant
            0 <= i <= m,
            m == inst.triangles@.len(),
            triangles@ == inst.triangles@.take(i as int),
        decreases m - i,
    {
        triangles.push(inst.triangles[i]);
        proof {
            assert(triangles@ =~= inst.triangles@.take(i + 1));
        }
        i = i + 1;
    }
    let r = Instance {
        model: inst.model,
        verts,
        triangles,
        bounding_sphere: inst.bounding_sphere,
        trans: inst.trans,
    };
    proof {
        assert(r.verts@ =~= inst.verts@);
        assert(r.triangles@ =~= inst.triangles@);
        assert(inst_view(r) =~~= inst_view(*inst));
    }
    r
}

/// Test one instance against one plane: it passes only when its sphere is
/// fully inside. A sphere fully outside, or one straddling the plane, is
/// dropped whole (the conservative policy instead of partial clipping).
pub fn clip_instance_against_plane(inst: &Instance, plane: &Plane) -> (r: Option<Instance>)
    requires
        plane_ok(*plane),
        cullable(*inst),
    ensures
        r is Some <==> signed_dist_spec(*plane, inst.bounding_sphere.center)
            > inst.bounding_sphere.radius,
        r is Some ==> inst_view(r->0) == inst_view(*inst),
{
    let d = signed_dist(plane, inst.bounding_sphere.center);
    let r = inst.bounding_sphere.radius;
    if d > r {
        Option::Some(clone_instance(inst))
    } else if d < -r {
        // Fully outside: the whole instance is dropped.
        Option::None
    } else {
        // Ambiguous: the conservative policy also drops it whole.
        Option::None
    }
}

/// Test one instance against every plane: it survives only if every plane
/// keeps it.
#[verifier::loop_isolation(false)]
pub fn clip_instance(inst: &Instance, planes: &Vec<Plane>) -> (r: Option<Instance>)
    requires
        cullable(*inst),
        forall|k: int| 0 <= k < planes@.len() ==> plane_ok(#[trigger] planes@[k]),
    ensures
        r is Some <==> survives(*inst, planes@),
        r is Some ==> inst_view(r->0) == inst_view(*inst),
{
    let n = planes.len();
    let mut k: usize = 0;
    while k < n
        invariant
            0 <= k <= n,
            forall|j: int|
                0 <= j < k ==> signed_dist_spec(#[trigger] planes@[j], inst.bounding_sphere.center)
                    > inst.bounding_sphere.radius,
        decreases n - k,
    {
        let instance = clip_instance_against_plane(inst, &planes[k]);
        match instance {
            Option::Some(_) => {},
            Option::None => {
                return Option::None;
            },
        }
        k = k + 1;
    }
    Option::Some(clone_instance(inst))
}

/// Cull a scene: keep, in order, exactly the instances whose bounding
/// spheres survive every clip plane.
#[verifier::loop_isolation(false)]
pub fn clip_scene(instances: &Vec<Instance>, planes: &Vec<Plane>) -> (r: Vec<Instance>)
    requires
        forall|i: int| 0 <= i < instances@.len() ==> cullable(#[trigger] instances@[i]),
        forall|k: int| 0 <= k < planes@.len() ==> plane_ok(#[trigger] planes@[k]),
    ensures
        scene_view(r@) == scene_view(instances@.filter(survives_pred(planes@))),
{
    let mut clipped_instances: Vec<Instance> = Vec::new();
    let n = instances.len();
    let mut i: usize = 0;
    while i < n
        invariant
            0 <= i <= n,
            scene_view(clipped_instances@) == scene_view(
                instances@.take(i as int).filter(survives_pred(planes@)),
            ),
        decreases n - i,
    {
        let clipped_instance = clip_instance(&instances[i], planes);
        proof {
            let pred = survives_pred(planes@);
            let prev = instances@.take(i as int);
            let cur = instances@[i as int];
            reveal_with_fuel(Seq::filter, 2);
            assert(instances@.take(i + 1).len() == i + 1);
            assert(instances@.take(i + 1).drop_last() =~= prev);
            assert(instances@.take(i + 1).last() == cur);
            assert(instances@.take(i + 1).filter(pred) == (if pred(cur) {
                prev.filter(pred).push(cur)
            } else {
                prev.filter(pred)
            }));
        }
        match clipped_instance {
            Option::Some(clipped) => {
                clipped_instances.push(clipped);
                proof {
                    let pred = survives_pred(planes@);
                    let prev = instances@.take(i as int);
                    let cur = instances@[i as int];
                    assert(pred(cur));
                    assert(scene_view(clipped_instances@) =~= scene_view(
                        prev.filter(pred),
                    ).push(inst_view(cur)));
                    assert(scene_view(prev.filter(pred).push(cur)) =~= scene_view(
                        prev.filter(pred),
                    ).push(inst_view(cur)));
                }
            },
            Option::None => {
                proof {
                    assert(!survives_pred(planes@)(instances@[i as int]));
                }
            },
        }
        i = i + 1;
    }
    proof {
        assert(instances@.take(n as int) =~= instances@);
    }
    clipped_instances
}

/// An instance whose bounding sphere lies entirely behind some clip plane
/// never survives culling: it is absent from every culled scene, so it is
/// never handed to the rasterizer.
pub proof fn lemma_behind_plane_culled(inst: Instance, planes: Seq<Plane>, k: int)
    requires
        0 <= k < planes.len(),
        inst.bounding_sphere.radius >= 0,
        signed_dist_spec(planes[k], inst.bounding_sphere.center) < -inst.bounding_sphere.radius,
    ensures
        !survives(inst, planes),
        forall|scene: Seq<Instance>|
            !(#[trigger] scene.filter(survives_pred(planes))).contains(inst),
{
    assert(!survives(inst, planes)) by {
        assert(!(signed_dist_spec(planes[k], inst.bounding_sphere.center)
            > inst.bounding_sphere.radius));
    }
    assert forall|scene: Seq<Instance>| !(#[trigger] scene.filter(survives_pred(planes))).contains(
        inst,
    ) by {
        let filtered = scene.filter(survives_pred(planes));
        if filtered.contains(inst) {
            let i = choose|i: int| 0 <= i < filtered.len() && filtered[i] == inst;
            scene.lemma_filter_pred(survives_pred(planes), i);
        }
    }
}

} // verus!
