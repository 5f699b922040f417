//! Mesh instances and their transforms: the object and camera transforms,
//! perspective projection, the mesh catalog, and the per-instance render
//! entry point.

use vstd::prelude::*;
use crate::fixed::{
    FX_ONE, fx_mul, fx_div, mag, div_trunc, fx_mul_e, div_trunc_i128, lemma_div_trunc_scale,
};
use crate::geometry::{Vec2, Vec3, bounded3, rot_y_x, rot_y_z, rotate_y, lemma_fx_mul_bound};
use crate::consts::{
    DEFAULT_TRANSL_X, DEFAULT_TRANSL_Y, DEFAULT_TRANSL_Z, default_transl, FOCAL_DIST, VIEWPORT_SIZE,
};
use crate::raster::{CANVAS_SIZE, COORD_LIM, FRAME_LEN, DEPTH_LEN, Buffer, draw_triangle, draw_line, line_apply_seq, lemma_fx_trunc_of_int};
use crate::clipping::{BoundingSphere, sphere_bounds};

verus! {

/// Per-object (or camera) affine state: a translation, a uniform scale, and
/// a rotation about the vertical axis. The rotation is carried both as an
/// angle in degrees (`rot`, what input handling accumulates) and as the
/// angle's fixed-point cosine/sine pair, which is what the transform
/// arithmetic uses; the shell recomputes the pair whenever it changes the
/// angle.
#[derive(Clone, Copy, Debug, PartialEq, Eq, Structural)]
pub struct Transform {
    pub translation: Vec3,
    pub scale: i64,
    pub rot: i64,
    pub rot_cos: i64,
    pub rot_sin: i64,
}

/// Magnitude bounds under which a transform cannot overflow the pipeline:
/// translation and scale within two hundred fifty-six units, and a
/// cosine/sine pair of at most two.
pub open spec fn twf(t: Transform) -> bool {
    &&& bounded3(t.translation, 0x100_0000)
    &&& mag(t.scale as int) <= 0x100_0000
    &&& mag(t.rot_cos as int) <= 2 * FX_ONE
    &&& mag(t.rot_sin as int) <= 2 * FX_ONE
}

impl Transform {
    /// A transform with the given translation and scale and no rotation.
    pub fn new(translation: Vec3, scale: i64) -> (r: Self)
        ensures
            r.translation == translation,
            r.scale == scale,
            r.rot == 0,
            r.rot_cos == FX_ONE,
            r.rot_sin == 0,
    {
        Self { translation, scale, rot: 0, rot_cos: FX_ONE, rot_sin: 0 }
    }
}

/// The camera-space position of an object-space vertex: rotate about the
/// vertical axis by the object's angle, scale uniformly, translate by the
/// object, camera and fixed world offsets, then rotate by the negative of
/// the camera's angle.
pub open spec fn apply_spec(v: Vec3, tr: Transform, cam: Transform) -> (int, int, int) {
    let rx = rot_y_x(v.x as int, v.z as int, tr.rot_cos as int, tr.rot_sin as int);
    let rz = rot_y_z(v.x as int, v.z as int, tr.rot_cos as int, tr.rot_sin as int);
    let sx = fx_mul(rx, tr.scale as int);
    let sy = fx_mul(v.y as int, tr.scale as int);
    let sz = fx_mul(rz, tr.scale as int);
    let tx = sx + tr.translation.x + cam.translation.x + DEFAULT_TRANSL_X;
    let ty = sy + tr.translation.y + cam.translation.y + DEFAULT_TRANSL_Y;
    let tz = sz + tr.translation.z + cam.translation.z + DEFAULT_TRANSL_Z;
    (
        rot_y_x(tx, tz, cam.rot_cos as int, -cam.rot_sin as int),
        ty,
        rot_y_z(tx, tz, cam.rot_cos as int, -cam.rot_sin as int),
    )
}

/// [`apply_spec`] as a vector value.
pub open spec fn apply_v3(v: Vec3, tr: Transform, cam: Transform) -> Vec3 {
    Vec3 {
        x: apply_spec(v, tr, cam).0 as i64,
        y: apply_spec(v, tr, cam).1 as i64,
        z: apply_spec(v, tr, cam).2 as i64,
    }
}

impl Transform {
    /// Map `vert` from object space into camera space, in place.
    pub fn apply_transform(&self, vert: &mut Vec3, cam_trans: Transform)
        requires
            twf(*self),
            twf(cam_trans),
            bounded3(*old(vert), 0x100_0000),
        ensures
            final(vert).x == apply_spec(*old(vert), *self, cam_trans).0,
            final(vert).y == apply_spec(*old(vert), *self, cam_trans).1,
            final(vert).z == apply_spec(*old(vert), *self, cam_trans).2,
            *final(vert) == apply_v3(*old(vert), *self, cam_trans),
            bounded3(*final(vert), 0x80_0000_0000),
    {
        let v = *vert;
        let rotated = rotate_y(v, self.rot_cos, self.rot_sin);
        proof {
            lemma_fx_mul_bound(rotated.x as int, self.scale as int, 0x800_0000, 0x100_0000);
            lemma_fx_mul_bound(rotated.y as int, self.scale as int, 0x100_0000, 0x100_0000);
            lemma_fx_mul_bound(rotated.z as int, self.scale as int, 0x800_0000, 0x100_0000);
        }
        let sx = fx_mul_e(rotated.x, self.scale);
        let sy = fx_mul_e(rotated.y, self.scale);
        let sz = fx_mul_e(rotated.z, self.scale);
        let offset = default_transl();
        let tx = sx + self.translation.x + cam_trans.translation.x + offset.x;
        let ty = sy + self.translation.y + cam_trans.translation.y + offset.y;
        let tz = sz + self.translation.z + cam_trans.translation.z + offset.z;
        let moved = Vec3 { x: tx, y: ty, z: tz };
        let result = rotate_y(moved, cam_trans.rot_cos, -cam_trans.rot_sin);
        *vert = result;
    }
}

/// Apply input-driven deltas to a transform in place: the translation,
/// scale and angle move by their deltas, and the angle's cosine/sine pair
/// is replaced by the pair the caller computed for the new angle.
pub fn update_transform(
    t: &mut Transform,
    d_translation: Vec3,
    d_scale: i64,
    d_rot: i64,
    new_cos: i64,
    new_sin: i64,
)
    requires
        i64::MIN <= old(t).translation.x + d_translation.x <= i64::MAX,
        i64::MIN <= old(t).translation.y + d_translation.y <= i64::MAX,
        i64::MIN <= old(t).translation.z + d_translation.z <= i64::MAX,
        i64::MIN <= old(t).scale + d_scale <= i64::MAX,
        i64::MIN <= old(t).rot + d_rot <= i64::MAX,
    ensures
        final(t).translation.x == old(t).translation.x + d_translation.x,
        final(t).translation.y == old(t).translation.y + d_translation.y,
        final(t).translation.z == old(t).translation.z + d_translation.z,
        final(t).scale == old(t).scale + d_scale,
        final(t).rot == old(t).rot + d_rot,
        final(t).rot_cos == new_cos,
        final(t).rot_sin == new_sin,
{
    t.translation = Vec3 {
        x: t.translation.x + d_translation.x,
        y: t.translation.y + d_translation.y,
        z: t.translation.z + d_translation.z,
    };
    t.scale = t.scale + d_scale;
    t.rot = t.rot + d_rot;
    t.rot_cos = new_cos;
    t.rot_sin = new_sin;
}

/// The perspective division: a lateral coordinate scaled by the focal
/// distance and divided by depth.
pub open spec fn persp(a: int, z: int) -> int {
    fx_div(fx_mul(a, FOCAL_DIST as int), z)
}

/// Map a viewport coordinate to the pixel canvas by the single uniform
/// scale factor between the two sizes.
pub open spec fn vp_to_canvas(a: int) -> int {
    a * ((CANVAS_SIZE as int) / (VIEWPORT_SIZE as int))
}

/// Whether a camera-space vertex projects onto a representable canvas
/// point: its depth is nonzero and both canvas coordinates stay within the
/// rasterizer's coordinate range.
pub open spec fn project_ok(v: Vec3) -> bool {
    &&& v.z != 0
    &&& mag(vp_to_canvas(persp(v.x as int, v.z as int))) <= COORD_LIM
    &&& mag(vp_to_canvas(persp(v.y as int, v.z as int))) <= COORD_LIM
}

/// What projecting a camera-space vertex yields: its canvas point, or
/// nothing when the vertex is at zero depth or projects out of range.
pub open spec fn project_spec(v: Vec3) -> Option<Vec2> {
    if project_ok(v) {
        Option::Some(
            Vec2 {
                x: vp_to_canvas(persp(v.x as int, v.z as int)) as i64,
                y: vp_to_canvas(persp(v.y as int, v.z as int)) as i64,
            },
        )
    } else {
        Option::None
    }
}

/// Scale a projected viewport point to canvas coordinates.
pub fn viewport_to_canvas(x: i64, y: i64) -> (r: Vec2)
    requires
        mag(x as int) * ((CANVAS_SIZE as int) / (VIEWPORT_SIZE as int)) <= i64::MAX,
        mag(y as int) * ((CANVAS_SIZE as int) / (VIEWPORT_SIZE as int)) <= i64::MAX,
    ensures
        r.x == vp_to_canvas(x as int),
        r.y == vp_to_canvas(y as int),
{
    let scale = (CANVAS_SIZE / VIEWPORT_SIZE) as i64;
    proof {
        assert(mag(x as int) * 900 == mag(x as int * 900) && mag(y as int) * 900 == mag(
            y as int * 900,
        )) by (nonlinear_arith);
    }
    Vec2 { x: x * scale, y: y * scale }
}

/// Project a camera-space vertex to its canvas point: perspective division
/// followed by the viewport-to-canvas scale. A vertex at zero depth, or one
/// whose projection leaves the representable range, yields nothing and is
/// not rasterized.
pub fn project_vertex(vert: Vec3) -> (r: Option<Vec2>)
    ensures
        r == project_spec(vert),
{
    if vert.z == 0 {
        return Option::None;
    }
    proof {
        lemma_fx_trunc_of_int(vert.x as int);
        lemma_fx_trunc_of_int(vert.y as int);
        assert(fx_mul(vert.x as int, FOCAL_DIST as int) == vert.x as int);
        assert(fx_mul(vert.y as int, FOCAL_DIST as int) == vert.y as int);
    }
    let vx: i128 = div_trunc_i128((vert.x as i128) * 65536, vert.z as i128);
    let vy: i128 = div_trunc_i128((vert.y as i128) * 65536, vert.z as i128);
    let cx: i128 = vx * 900;
    let cy: i128 = vy * 900;
    proof {
        assert(cx == vp_to_canvas(persp(vert.x as int, vert.z as int)));
        assert(cy == vp_to_canvas(persp(vert.y as int, vert.z as int)));
    }
    if cx > COORD_LIM as i128 || cx < -(COORD_LIM as i128) || cy > COORD_LIM as i128 || cy < -(
    COORD_LIM as i128) {
        Option::None
    } else {
        Option::Some(Vec2 { x: cx as i64, y: cy as i64 })
    }
}

/// Projection is invariant along rays through the camera: scaling a
/// vertex's lateral coordinate and depth by the same positive factor leaves
/// its canvas coordinate unchanged.
pub proof fn lemma_projection_scale_invariant(a: int, z: int, c: int)
    requires
        z != 0,
        c > 0,
    ensures
        persp(c * a, c * z) == persp(a, z),
        vp_to_canvas(persp(c * a, c * z)) == vp_to_canvas(persp(a, z)),
{
    let o = FX_ONE as int;
    lemma_fx_trunc_of_int(a);
    lemma_fx_trunc_of_int(c * a);
    assert(fx_mul(a, FOCAL_DIST as int) == a);
    assert(fx_mul(c * a, FOCAL_DIST as int) == c * a);
    assert((c * a) * o == c * (a * o)) by (nonlinear_arith);
    lemma_div_trunc_scale(a * o, z, c);
}

/// The canvas coordinate depends only on the ratio of the focal distance to
/// the viewport size: scaling both by the same positive factor leaves the
/// fused canvas-coordinate formula unchanged.
pub proof fn lemma_focal_viewport_invariant(
    x: int,
    z: int,
    focal: int,
    canvas: int,
    viewport: int,
    s: int,
)
    requires
        z != 0,
        viewport != 0,
        s > 0,
    ensures
        div_trunc(x * (s * focal) * canvas, z * (s * viewport)) == div_trunc(
            x * focal * canvas,
            z * viewport,
        ),
{
    assert(x * (s * focal) * canvas == s * (x * focal * canvas) && z * (s * viewport) == s * (z
        * viewport)) by (nonlinear_arith);
    assert(z * viewport != 0) by (nonlinear_arith)
        requires
            z != 0,
            viewport != 0,
    ;
    lemma_div_trunc_scale(x * focal * canvas, z * viewport, s);
}

/// The mesh catalog: each identifier names a fixed vertex list and triangle
/// index list.
#[derive(Clone, Copy, Debug, PartialEq, Eq, Structural)]
pub enum Model {
    Cube,
}

/// The unit cube's eight corners, one unit from the origin on each axis.
pub open spec fn cube_verts() -> Seq<Vec3> {
    seq![
        Vec3 { x: 65536i64, y: 65536i64, z: 65536i64 },
        Vec3 { x: -65536i64, y: 65536i64, z: 65536i64 },
        Vec3 { x: -65536i64, y: -65536i64, z: 65536i64 },
        Vec3 { x: 65536i64, y: -65536i64, z: 65536i64 },
        Vec3 { x: 65536i64, y: 65536i64, z: -65536i64 },
        Vec3 { x: -65536i64, y: 65536i64, z: -65536i64 },
        Vec3 { x: -65536i64, y: -65536i64, z: -65536i64 },
        Vec3 { x: 65536i64, y: -65536i64, z: -65536i64 },
    ]
}

/// The cube's twelve triangles, two per face.
pub open spec fn cube_indices() -> Seq<(usize, usize, usize)> {
    seq![
        (0usize, 1usize, 2usize),
        (0usize, 2usize, 3usize),
        (4usize, 0usize, 3usize),
        (4usize, 3usize, 7usize),
        (5usize, 4usize, 7usize),
        (5usize, 7usize, 6usize),
        (1usize, 5usize, 6usize),
        (1usize, 6usize, 2usize),
        (4usize, 5usize, 1usize),
        (4usize, 1usize, 0usize),
        (2usize, 6usize, 7usize),
        (2usize, 7usize, 3usize),
    ]
}

impl Model {
    /// The model's vertex list.
    pub fn get_verts(&self) -> (r: Vec<Vec3>)
        ensures
            r@ == cube_verts(),
    {
        match self {
            Model::Cube => {
                let r = vec![
                    Vec3 { x: 65536, y: 65536, z: 65536 },
                    Vec3 { x: -65536, y: 65536, z: 65536 },
                    Vec3 { x: -65536, y: -65536, z: 65536 },
                    Vec3 { x: 65536, y: -65536, z: 65536 },
                    Vec3 { x: 65536, y: 65536, z: -65536 },
                    Vec3 { x: -65536, y: 65536, z: -65536 },
                    Vec3 { x: -65536, y: -65536, z: -65536 },
                    Vec3 { x: 65536, y: -65536, z: -65536 },
                ];
                proof {
                    assert(r@ =~= cube_verts());
                }
                r
            },
        }
    }

    /// The model's triangle index list; every index is a valid offset into
    /// the vertex list.
    pub fn get_indices(&self) -> (r: Vec<(usize, usize, usize)>)
        ensures
            r@ == cube_indices(),
            forall|k: int|
                0 <= k < r@.len() ==> (#[trigger] r@[k]).0 < cube_verts().len() && r@[k].1
                    < cube_verts().len() && r@[k].2 < cube_verts().len(),
    {
        match self {
            Model::Cube => {
                let r = vec![
                    (0usize, 1usize, 2usize),
                    (0usize, 2usize, 3usize),
                    (4usize, 0usize, 3usize),
                    (4usize, 3usize, 7usize),
                    (5usize, 4usize, 7usize),
                    (5usize, 7usize, 6usize),
                    (1usize, 5usize, 6usize),
                    (1usize, 6usize, 2usize),
                    (4usize, 5usize, 1usize),
                    (4usize, 1usize, 0usize),
                    (2usize, 6usize, 7usize),
                    (2usize, 7usize, 3usize),
                ];
                proof {
                    assert(r@ =~= cube_indices());
                }
                r
            },
        }
    }
}

/// One placed mesh: its model, vertex and index data, bounding sphere, and
/// object transform.
#[verifier::ext_equal]
#[derive(Debug)]
pub struct Instance {
    pub model: Model,
    pub verts: Vec<Vec3>,
    pub triangles: Vec<(usize, usize, usize)>,
    pub bounding_sphere: BoundingSphere,
    pub trans: Transform,
}

/// The pure value of an instance: every field taken down to mathematical
/// values, so two instances with equal views are interchangeable.
pub open spec fn inst_view(inst: Instance) -> (
    Model,
    Seq<Vec3>,
    Seq<(usize, usize, usize)>,
    BoundingSphere,
    Transform,
) {
    (inst.model, inst.verts@, inst.triangles@, inst.bounding_sphere, inst.trans)
}

/// The pure value of a whole scene.
pub open spec fn scene_view(s: Seq<Instance>) -> Seq<
    (Model, Seq<Vec3>, Seq<(usize, usize, usize)>, BoundingSphere, Transform),
> {
    s.map_values(|i: Instance| inst_view(i))
}

/// Well-formedness of an instance: a bounded, nonempty vertex list, indices
/// that stay inside it, a transform within the pipeline's bounds, and a
/// sphere with a nonnegative radius and bounded object-space center.
pub open spec fn instance_wf(inst: Instance) -> bool {
    &&& twf(inst.trans)
    &&& 1 <= inst.verts@.len() <= 0x10000
    &&& forall|k: int| 0 <= k < inst.verts@.len() ==> bounded3(#[trigger] inst.verts@[k], 0x100_0000)
    &&& forall|k: int|
        0 <= k < inst.triangles@.len() ==> (#[trigger] inst.triangles@[k]).0 < inst.verts@.len()
            && inst.triangles@[k].1 < inst.verts@.len() && inst.triangles@[k].2
            < inst.verts@.len()
    &&& bounded3(inst.bounding_sphere.orig_center, 0x400_0000)
    &&& inst.bounding_sphere.radius >= 0
}

impl Instance {
    /// Place a model in the scene with the given translation and uniform
    /// scale: fetch its mesh data, derive its bounding sphere, and start
    /// with no rotation. Mesh indices are valid by construction.
    pub fn new(model: Model, translation: Vec3, scale: i64) -> (r: Self)
        requires
            bounded3(translation, 0x100_0000),
            mag(scale as int) <= 0x100_0000,
        ensures
            r.model == model,
            r.verts@ == cube_verts(),
            r.triangles@ == cube_indices(),
            r.trans.translation == translation,
            r.trans.scale == scale,
            r.trans.rot == 0,
            r.trans.rot_cos == FX_ONE,
            r.trans.rot_sin == 0,
            r.bounding_sphere.center == r.bounding_sphere.orig_center,
            sphere_bounds(r.bounding_sphere.orig_center, r.bounding_sphere.radius, r.verts@),
            instance_wf(r),
    {
        let trans = Transform::new(translation, scale);
        let verts = model.get_verts();
        proof {
            assert forall|k: int| 0 <= k < verts@.len() implies bounded3(
                #[trigger] verts@[k],
                0x400_0000,
            ) by {
                assert(cube_verts()[k] == verts@[k]);
            }
        }
        let bounding_sphere = BoundingSphere::new(&verts);
        let triangles = model.get_indices();
        let r = Self { model, verts, triangles, bounding_sphere, trans };
        proof {
            assert forall|k: int| 0 <= k < r.verts@.len() implies bounded3(
                #[trigger] r.verts@[k],
                0x100_0000,
            ) by {
                assert(cube_verts()[k] == r.verts@[k]);
            }
        }
        r
    }
}

} // verus!

verus! {

/// The fixed six-color palette cycled through per triangle, so adjacent
/// faces are visually distinguishable.
pub open spec fn palette_spec(i: int) -> Seq<u8> {
    if i == 0 {
        seq![255u8, 255u8, 255u8]
    } else if i == 1 {
        seq![0u8, 255u8, 0u8]
    } else if i == 2 {
        seq![53u8, 94u8, 59u8]
    } else if i == 3 {
        seq![123u8, 223u8, 23u8]
    } else if i == 4 {
        seq![65u8, 130u8, 231u8]
    } else {
        seq![231u8, 65u8, 12u8]
    }
}

/// The `i`-th palette color.
pub fn palette(i: usize) -> (c: [u8; 3])
    requires
        i < 6,
    ensures
        c@ == palette_spec(i as int),
{
    let c: [u8; 3] = match i {
        0 => [255, 255, 255],
        1 => [0, 255, 0],
        2 => [53, 94, 59],
        3 => [123, 223, 23],
        4 => [65, 130, 231],
        _ => [231, 65, 12],
    };
    proof {
        assert(c@ =~= palette_spec(i as int));
    }
    c
}

/// A projected point is either absent or within the rasterizer's
/// coordinate range.
pub open spec fn proj_bounded(o: Option<Vec2>) -> bool {
    match o {
        Option::Some(p) => mag(p.x as int) <= COORD_LIM && mag(p.y as int) <= COORD_LIM,
        Option::None => true,
    }
}

/// The frame and depth buffers after rasterizing one triangle of a mesh:
/// if all three of its vertices projected, the depth-tested fill runs;
/// otherwise the buffers are unchanged.
pub open spec fn render_tri_step(
    tri: (usize, usize, usize),
    projected: Seq<Option<Vec2>>,
    camz: Seq<i64>,
    f: Seq<u8>,
    dv: Seq<Option<i64>>,
    color: Seq<u8>,
) -> (Seq<u8>, Seq<Option<i64>>) {
    if tri.0 < projected.len() && tri.1 < projected.len() && tri.2 < projected.len() && tri.0
        < camz.len() && tri.1 < camz.len() && tri.2 < camz.len() {
        match (projected[tri.0 as int], projected[tri.1 as int], projected[tri.2 as int]) {
            (Option::Some(pa), Option::Some(pb), Option::Some(pc)) => {
                let t = crate::raster::tri_sort(
                    pa,
                    pb,
                    pc,
                    camz[tri.0 as int],
                    camz[tri.1 as int],
                    camz[tri.2 as int],
                );
                (
                    crate::raster::tri_apply_frame_seq(t, dv, f, color),
                    crate::raster::tri_apply_depth_seq(t, dv),
                )
            },
            _ => (f, dv),
        }
    } else {
        (f, dv)
    }
}

/// The frame and depth buffers after rasterizing the first `k` triangles of
/// a mesh, cycling through the palette.
pub open spec fn render_steps(
    tris: Seq<(usize, usize, usize)>,
    projected: Seq<Option<Vec2>>,
    camz: Seq<i64>,
    f: Seq<u8>,
    dv: Seq<Option<i64>>,
    k: int,
) -> (Seq<u8>, Seq<Option<i64>>)
    decreases k,
{
    if k <= 0 {
        (f, dv)
    } else {
        let prev = render_steps(tris, projected, camz, f, dv, k - 1);
        render_tri_step(tris[k - 1], projected, camz, prev.0, prev.1, palette_spec((k - 1) % 6))
    }
}

/// Rasterize one triangle of a mesh from its projected vertices and
/// camera-space depths, through the depth-tested fill.
pub fn render_filled_triangle(
    tri: (usize, usize, usize),
    projected: &Vec<Option<Vec2>>,
    camz: &Vec<i64>,
    depth_buffer: &mut Buffer,
    frame: &mut Vec<u8>,
    color: [u8; 3],
)
    requires
        old(frame).len() == FRAME_LEN,
        old(depth_buffer).len() == DEPTH_LEN,
        projected.len() == camz.len(),
        tri.0 < projected.len(),
        tri.1 < projected.len(),
        tri.2 < projected.len(),
        forall|j: int| 0 <= j < projected@.len() ==> proj_bounded(#[trigger] projected@[j]),
        forall|j: int| 0 <= j < camz@.len() ==> mag(#[trigger] camz@[j] as int) <= COORD_LIM,
    ensures
        final(frame).len() == FRAME_LEN,
        final(depth_buffer).len() == DEPTH_LEN,
        final(frame)@ == render_tri_step(
            tri,
            projected@,
            camz@,
            old(frame)@,
            old(depth_buffer)@,
            color@,
        ).0,
        final(depth_buffer)@ == render_tri_step(
            tri,
            projected@,
            camz@,
            old(frame)@,
            old(depth_buffer)@,
            color@,
        ).1,
{
    let pa = projected[tri.0];
    let pb = projected[tri.1];
    let pc = projected[tri.2];
    let za = camz[tri.0];
    let zb = camz[tri.1];
    let zc = camz[tri.2];
    proof {
        assert(proj_bounded(projected@[tri.0 as int]));
        assert(proj_bounded(projected@[tri.1 as int]));
        assert(proj_bounded(projected@[tri.2 as int]));
    }
    match (pa, pb, pc) {
        (Option::Some(a), Option::Some(b), Option::Some(c)) => {
            draw_triangle(a, b, c, (za, zb, zc), depth_buffer, frame, color);
        },
        _ => {},
    }
}

/// The projected canvas points of an instance's vertices under its own and
/// the camera's transforms.
pub open spec fn inst_projected(inst: Instance, cam: Transform) -> Seq<Option<Vec2>> {
    Seq::new(
        inst.verts@.len(),
        |j: int| project_spec(apply_v3(inst.verts@[j], inst.trans, cam)),
    )
}

/// The camera-space depths of an instance's vertices.
pub open spec fn inst_camz(inst: Instance, cam: Transform) -> Seq<i64> {
    Seq::new(inst.verts@.len(), |j: int| apply_v3(inst.verts@[j], inst.trans, cam).z)
}

impl Instance {
    /// Render this instance: transform every vertex into camera space,
    /// project it, and rasterize each triangle in mesh-index order through
    /// the depth buffer, cycling the palette per triangle.
    #[allow(non_snake_case)]
    #[verifier::loop_isolation(false)]
    pub fn Render(&self, frame: &mut Vec<u8>, cam_trans: Transform, depth_buffer: &mut Buffer)
        requires
            instance_wf(*self),
            twf(cam_trans),
            old(frame).len() == FRAME_LEN,
            old(depth_buffer).len() == DEPTH_LEN,
        ensures
            final(frame).len() == FRAME_LEN,
            final(depth_buffer).len() == DEPTH_LEN,
            final(frame)@ == render_steps(
                self.triangles@,
                inst_projected(*self, cam_trans),
                inst_camz(*self, cam_trans),
                old(frame)@,
                old(depth_buffer)@,
                self.triangles@.len() as int,
            ).0,
            final(depth_buffer)@ == render_steps(
                self.triangles@,
                inst_projected(*self, cam_trans),
                inst_camz(*self, cam_trans),
                old(frame)@,
                old(depth_buffer)@,
                self.triangles@.len() as int,
            ).1,
    {
        let ghost f0 = old(frame)@;
        let ghost dv0 = old(depth_buffer)@;
        let mut projected: Vec<Option<Vec2>> = Vec::new();
        let mut camz: Vec<i64> = Vec::new();
        let n = self.verts.len();
        let mut j: usize = 0;
        while j < n
            invariant
                0 <= j <= n,
                projected@.len() == j,
                camz@.len() == j,
                forall|jj: int|
                    0 <= jj < j ==> #[trigger] projected@[jj] == inst_projected(
                        *self,
                        cam_trans,
                    )[jj],
                forall|jj: int| 0 <= jj < j ==> #[trigger] camz@[jj] == inst_camz(*self, cam_trans)[jj],
                forall|jj: int| 0 <= jj < j ==> proj_bounded(#[trigger] projected@[jj]),
                forall|jj: int| 0 <= jj < j ==> mag(#[trigger] camz@[jj] as int) <= COORD_LIM,
            decreases n - j,
        {
            let mut vert = self.verts[j];
            self.trans.apply_transform(&mut vert, cam_trans);
            camz.push(vert.z);
            projected.push(project_vertex(vert));
            j = j + 1;
        }
        proof {
            assert(projected@ =~= inst_projected(*self, cam_trans));
            assert(camz@ =~= inst_camz(*self, cam_trans));
        }
        let m = self.triangles.len();
        let mut i: usize = 0;
        let mut ci: usize = 0;
        while i < m
            invariant
                0 <= i <= m,
                ci == i % 6,
                frame.len() == FRAME_LEN,
                depth_buffer.len() == DEPTH_LEN,
                frame@ == render_steps(
                    self.triangles@,
                    inst_projected(*self, cam_trans),
                    inst_camz(*self, cam_trans),
                    f0,
                    dv0,
                    i as int,
                ).0,
                depth_buffer@ == render_steps(
                    self.triangles@,
                    inst_projected(*self, cam_trans),
                    inst_camz(*self, cam_trans),
                    f0,
                    dv0,
                    i as int,
                ).1,
            decreases m - i,
        {
            let tri = self.triangles[i];
            let color = palette(ci);
            render_filled_triangle(tri, &projected, &camz, depth_buffer, frame, color);
            if ci >= 5 {
                ci = 0;
            } else {
                ci = ci + 1;
            }
            proof {
                assert((i + 1) % 6 == (if i % 6 == 5 {
                    0int
                } else {
                    i % 6 + 1
                })) by (nonlinear_arith);
            }
            i = i + 1;
        }
    }
}

/// The frame and depth buffers after rendering the first `k` instances of
/// a scene.
pub open spec fn render_scene_steps(
    instances: Seq<Instance>,
    cam: Transform,
    f: Seq<u8>,
    dv: Seq<Option<i64>>,
    k: int,
) -> (Seq<u8>, Seq<Option<i64>>)
    decreases k,
{
    if k <= 0 {
        (f, dv)
    } else {
        let prev = render_scene_steps(instances, cam, f, dv, k - 1);
        let inst = instances[k - 1];
        render_steps(
            inst.triangles@,
            inst_projected(inst, cam),
            inst_camz(inst, cam),
            prev.0,
            prev.1,
            inst.triangles@.len() as int,
        )
    }
}

/// Render every instance of a scene in order into a pre-cleared frame and
/// depth buffer.
#[verifier::loop_isolation(false)]
pub fn render_frame(
    instances: &Vec<Instance>,
    cam_trans: Transform,
    frame: &mut Vec<u8>,
    depth_buffer: &mut Buffer,
)
    requires
        twf(cam_trans),
        old(frame).len() == FRAME_LEN,
        old(depth_buffer).len() == DEPTH_LEN,
        forall|k: int| 0 <= k < instances@.len() ==> instance_wf(#[trigger] instances@[k]),
    ensures
        final(frame).len() == FRAME_LEN,
        final(depth_buffer).len() == DEPTH_LEN,
        final(frame)@ == render_scene_steps(
            instances@,
            cam_trans,
            old(frame)@,
            old(depth_buffer)@,
            instances@.len() as int,
        ).0,
        final(depth_buffer)@ == render_scene_steps(
            instances@,
            cam_trans,
            old(frame)@,
            old(depth_buffer)@,
            instances@.len() as int,
        ).1,
{
    let ghost f0 = old(frame)@;
    let ghost dv0 = old(depth_buffer)@;
    let n = instances.len();
    let mut k: usize = 0;
    while k < n
        invariant
            0 <= k <= n,
            frame.len() == FRAME_LEN,
            depth_buffer.len() == DEPTH_LEN,
            frame@ == render_scene_steps(instances@, cam_trans, f0, dv0, k as int).0,
            depth_buffer@ == render_scene_steps(instances@, cam_trans, f0, dv0, k as int).1,
        decreases n - k,
    {
        let inst = &instances[k];
        inst.Render(frame, cam_trans, depth_buffer);
        k = k + 1;
    }
}

} // verus!

verus! {

/// Draw the triangle's outline: its three edges as lines.
pub fn draw_wireframe_triangle(p0: Vec2, p1: Vec2, p2: Vec2, frame: &mut Vec<u8>, color: [u8; 3])
    requires
        old(frame).len() == FRAME_LEN,
        mag(p0.x as int) <= COORD_LIM,
        mag(p0.y as int) <= COORD_LIM,
        mag(p1.x as int) <= COORD_LIM,
        mag(p1.y as int) <= COORD_LIM,
        mag(p2.x as int) <= COORD_LIM,
        mag(p2.y as int) <= COORD_LIM,
    ensures
        final(frame).len() == FRAME_LEN,
        final(frame)@ == line_apply_seq(
            p2,
            p0,
            line_apply_seq(p1, p2, line_apply_seq(p0, p1, old(frame)@, color@), color@),
            color@,
        ),
{
    draw_line(p0, p1, frame, color);
    draw_line(p1, p2, frame, color);
    draw_line(p2, p0, frame, color);
}

/// The frame buffer after outlining one triangle of a mesh: if all three
/// of its vertices projected, its three edges are drawn; otherwise the
/// frame is unchanged.
pub open spec fn wire_tri_step(
    tri: (usize, usize, usize),
    projected: Seq<Option<Vec2>>,
    f: Seq<u8>,
    color: Seq<u8>,
) -> Seq<u8> {
    if tri.0 < projected.len() && tri.1 < projected.len() && tri.2 < projected.len() {
        match (projected[tri.0 as int], projected[tri.1 as int], projected[tri.2 as int]) {
            (Option::Some(a), Option::Some(b), Option::Some(c)) => line_apply_seq(
                c,
                a,
                line_apply_seq(b, c, line_apply_seq(a, b, f, color), color),
                color,
            ),
            _ => f,
        }
    } else {
        f
    }
}

/// Outline one triangle of a mesh from its projected vertices.
pub fn render_wireframe_triangle(
    tri: (usize, usize, usize),
    projected: &Vec<Option<Vec2>>,
    frame: &mut Vec<u8>,
    color: [u8; 3],
)
    requires
        old(frame).len() == FRAME_LEN,
        tri.0 < projected.len(),
        tri.1 < projected.len(),
        tri.2 < projected.len(),
        forall|j: int| 0 <= j < projected@.len() ==> proj_bounded(#[trigger] projected@[j]),
    ensures
        final(frame).len() == FRAME_LEN,
        final(frame)@ == wire_tri_step(tri, projected@, old(frame)@, color@),
{
    let pa = projected[tri.0];
    let pb = projected[tri.1];
    let pc = projected[tri.2];
    proof {
        assert(proj_bounded(projected@[tri.0 as int]));
        assert(proj_bounded(projected@[tri.1 as int]));
        assert(proj_bounded(projected@[tri.2 as int]));
    }
    match (pa, pb, pc) {
        (Option::Some(a), Option::Some(b), Option::Some(c)) => {
            draw_wireframe_triangle(a, b, c, frame, color);
        },
        _ => {},
    }
}

/// The fixed translation [`render_object`] applies: a step left and seven
/// units into the screen.
pub open spec fn obj_translated(v: Vec3) -> Vec3 {
    Vec3 { x: (v.x + -98304) as i64, y: v.y, z: (v.z + 458752) as i64 }
}

/// The projected points of a bare vertex list under [`render_object`]'s
/// fixed translation.
pub open spec fn obj_projected(verts: Seq<Vec3>) -> Seq<Option<Vec2>> {
    Seq::new(verts.len(), |j: int| project_spec(obj_translated(verts[j])))
}

/// The frame buffer after outlining the first `k` triangles of a bare
/// mesh in green.
pub open spec fn wire_steps(
    tris: Seq<(usize, usize, usize)>,
    projected: Seq<Option<Vec2>>,
    f: Seq<u8>,
    k: int,
) -> Seq<u8>
    decreases k,
{
    if k <= 0 {
        f
    } else {
        wire_tri_step(tris[k - 1], projected, wire_steps(tris, projected, f, k - 1), palette_spec(1))
    }
}

/// Draw a bare mesh as a green wireframe: translate it by a fixed offset
/// into view, project every vertex, and outline each triangle.
#[verifier::loop_isolation(false)]
pub fn render_object(
    verts: &Vec<Vec3>,
    tri_indices: &Vec<(usize, usize, usize)>,
    frame: &mut Vec<u8>,
)
    requires
        old(frame).len() == FRAME_LEN,
        forall|j: int| 0 <= j < verts@.len() ==> bounded3(#[trigger] verts@[j], 0x100_0000_0000),
        forall|k: int|
            0 <= k < tri_indices@.len() ==> (#[trigger] tri_indices@[k]).0 < verts@.len()
                && tri_indices@[k].1 < verts@.len() && tri_indices@[k].2 < verts@.len(),
    ensures
        final(frame).len() == FRAME_LEN,
        final(frame)@ == wire_steps(
            tri_indices@,
            obj_projected(verts@),
            old(frame)@,
            tri_indices@.len() as int,
        ),
{
    let ghost f0 = old(frame)@;
    let mut projected: Vec<Option<Vec2>> = Vec::new();
    let n = verts.len();
    let mut j: usize = 0;
    while j < n
        invariant
            0 <= j <= n,
            projected@.len() == j,
            forall|jj: int| 0 <= jj < j ==> #[trigger] projected@[jj] == obj_projected(verts@)[jj],
            forall|jj: int| 0 <= jj < j ==> proj_bounded(#[trigger] projected@[jj]),
        decreases n - j,
    {
        let v = verts[j];
        let moved = Vec3 { x: v.x + -98304, y: v.y, z: v.z + 458752 };
        proof {
            assert(moved == obj_translated(verts@[j as int]));
        }
        projected.push(project_vertex(moved));
        j = j + 1;
    }
    proof {
        assert(projected@ =~= obj_projected(verts@));
    }
    let m = tri_indices.len();
    let mut i: usize = 0;
    while i < m
        invariant
            0 <= i <= m,
            frame.len() == FRAME_LEN,
            frame@ == wire_steps(tri_indices@, obj_projected(verts@), f0, i as int),
        decreases m - i,
    {
        let tri = tri_indices[i];
        let color = palette(1);
        render_wireframe_triangle(tri, &projected, frame, color);
        i = i + 1;
    }
}

} // verus!
