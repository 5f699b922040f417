use renderer::clipping::{classify_sphere_plane, clip_instance, clip_scene, BoundingSphere, Plane, PlaneSide};
use renderer::consts::{DEFAULT_TRANSL_X, DEFAULT_TRANSL_Z};
use renderer::fixed::{fx_div_e, fx_mul_e, fx_of_int_e, fx_trunc_e, FX_ONE};
use renderer::geometry::{rotate_y, vec3_add, Vec2, Vec3};
use renderer::instance::{
    draw_wireframe_triangle, palette, project_vertex, render_filled_triangle, render_frame,
    render_object, update_transform, viewport_to_canvas, Instance, Model, Transform,
};
use renderer::raster::{
    check_if_out_of_canvas, clear_screen, draw_line, draw_shaded_triangle, draw_triangle,
    interpolate, put_pixel, show_individual_pixels, swap, x_y_to_i, Buffer, DEPTH_LEN, FRAME_LEN,
};

const O: i64 = FX_ONE;

fn fresh_frame() -> Vec<u8> {
    vec![0u8; FRAME_LEN]
}

fn fresh_depth() -> Buffer {
    vec![None; DEPTH_LEN]
}

fn pixel(frame: &[u8], col: usize, row: usize) -> [u8; 4] {
    let base = 4 * (row * 900 + col);
    [frame[base], frame[base + 1], frame[base + 2], frame[base + 3]]
}

#[test]
fn fixed_point_ops() {
    assert_eq!(fx_of_int_e(3), 3 * O);
    assert_eq!(fx_mul_e(3 * O, 2 * O), 6 * O);
    assert_eq!(fx_mul_e(-3 * O, 2 * O), -6 * O);
    assert_eq!(fx_div_e(O, 2 * O), O / 2);
    assert_eq!(fx_div_e(7 * O, -2 * O), -(7 * O / 2));
    assert_eq!(fx_trunc_e(3 * O + 123), 3);
    assert_eq!(fx_trunc_e(-(3 * O + 123)), -3);
}

#[test]
fn interpolate_whole_span() {
    // interpolate(0, 0, 4, 8) in fixed point: one value per integer step.
    let vals = interpolate(0, 0, 4 * O, 8 * O);
    assert_eq!(vals, vec![0, 2 * O, 4 * O, 6 * O, 8 * O]);
}

#[test]
fn interpolate_degenerate_and_descending() {
    // Endpoints that truncate to the same integer give the single start value.
    let vals = interpolate(O / 2, 7 * O, O / 3, 9 * O);
    assert_eq!(vals, vec![7 * O]);
    // Descending endpoints give nothing.
    let vals = interpolate(5 * O, 7 * O, O, 9 * O);
    assert!(vals.is_empty());
}

#[test]
fn interpolate_fractional_span() {
    // From i0 = 0.5 to i1 = 3.5: four integer steps, slope (7 / 3.5) = 2,
    // carried by the raw fixed-point division.
    let vals = interpolate(O / 2, 0, 3 * O + O / 2, 7 * O);
    assert_eq!(vals.len(), 4);
    assert_eq!(vals[0], 0);
    let slope = ((7i128 * 65536 * 65536) / (3 * 65536)) as i64;
    assert_eq!(vals[1], slope);
    assert_eq!(vals[3], 3 * slope);
    // The last value sits within a couple of slope steps of d1.
    assert!((7 * O - vals[3]).abs() <= 3 + 2 * slope.abs() + 2);
}

#[test]
fn sphere_fully_inside_plane() {
    // A unit sphere five units along a unit plane normal is fully inside.
    let plane = Plane::new(Vec3 { x: 0, y: 0, z: O }, 0);
    let side = classify_sphere_plane(Vec3 { x: 0, y: 0, z: 5 * O }, O, &plane);
    assert_eq!(side, PlaneSide::Inside);
}

#[test]
fn sphere_classification_cases() {
    let plane = Plane::new(Vec3 { x: 0, y: 0, z: O }, 0);
    let out = classify_sphere_plane(Vec3 { x: 0, y: 0, z: -5 * O }, O, &plane);
    assert_eq!(out, PlaneSide::Outside);
    let mid = classify_sphere_plane(Vec3 { x: 0, y: 0, z: O / 2 }, O, &plane);
    assert_eq!(mid, PlaneSide::Straddles);
    // The boundary distance == radius is not conclusive either.
    let edge = classify_sphere_plane(Vec3 { x: 0, y: 0, z: O }, O, &plane);
    assert_eq!(edge, PlaneSide::Straddles);
}

#[test]
fn cube_bounding_sphere() {
    let inst = Instance::new(Model::Cube, Vec3 { x: 0, y: 0, z: 0 }, O);
    // The cube's center is the origin and its corners lie at distance
    // sqrt(3); the radius is a true, tight bound on that distance.
    assert_eq!(inst.bounding_sphere.orig_center, Vec3 { x: 0, y: 0, z: 0 });
    let r = inst.bounding_sphere.radius as i128;
    let d2 = 3i128 * 65536 * 65536;
    assert!(r * r >= d2);
    assert!((r - 1) * (r - 1) < d2);
}

#[test]
fn culling_drops_instance_behind_plane() {
    let plane = Plane::new(Vec3 { x: 0, y: 0, z: O }, 0);
    let planes = vec![plane];
    // Kept: translation zero puts the sphere at the world offset, z = 7.
    let mut kept = Instance::new(Model::Cube, Vec3 { x: 0, y: 0, z: 0 }, O);
    let t = kept.trans.translation;
    kept.bounding_sphere.update(t, O, 0);
    // Dropped: z = -12 + 7 = -5, well behind the plane.
    let mut dropped = Instance::new(Model::Cube, Vec3 { x: 0, y: 0, z: -12 * O }, O);
    let t = dropped.trans.translation;
    dropped.bounding_sphere.update(t, O, 0);
    assert_eq!(kept.bounding_sphere.center.z, DEFAULT_TRANSL_Z);
    assert_eq!(dropped.bounding_sphere.center.z, -5 * O);
    let scene = vec![kept, dropped];
    let visible = clip_scene(&scene, &planes);
    assert_eq!(visible.len(), 1);
    assert_eq!(visible[0].trans.translation.z, 0);
}

#[test]
fn culling_drops_straddling_instance() {
    // An ambiguous intersection drops the whole instance: the sphere center
    // ends at z = 0.5, within one radius of the plane.
    let plane = Plane::new(Vec3 { x: 0, y: 0, z: O }, 0);
    let planes = vec![plane];
    let mut inst = Instance::new(Model::Cube, Vec3 { x: 0, y: 0, z: -(6 * O + O / 2) }, O);
    let t = inst.trans.translation;
    inst.bounding_sphere.update(t, O, 0);
    assert_eq!(inst.bounding_sphere.center.z, O / 2);
    assert!(clip_instance(&inst, &planes).is_none());
}

#[test]
fn projection_values_and_ray_invariance() {
    // A vertex one unit right and up at depth seven.
    let v = Vec3 { x: O, y: O, z: 7 * O };
    let p = project_vertex(v).unwrap();
    let persp = O * O / (7 * O);
    assert_eq!(p.x, persp * 900);
    assert_eq!(p.y, persp * 900);
    // Scaling the whole vertex along its ray leaves the projection alone.
    let doubled = Vec3 { x: 2 * O, y: 2 * O, z: 14 * O };
    assert_eq!(project_vertex(doubled), Some(p));
    // Depth zero does not project.
    assert_eq!(project_vertex(Vec3 { x: O, y: O, z: 0 }), None);
}

#[test]
fn viewport_scaling() {
    let p = viewport_to_canvas(100, -50);
    assert_eq!(p, Vec2 { x: 90000, y: -45000 });
}

#[test]
fn transform_composition() {
    // One unit in front of the origin, scaled by two, no rotation: lands at
    // twice the coordinate plus the world offset.
    let tr = Transform::new(Vec3 { x: 0, y: 0, z: 0 }, 2 * O);
    let cam = Transform::new(Vec3 { x: 0, y: 0, z: 0 }, O);
    let mut v = Vec3 { x: O, y: O, z: O };
    tr.apply_transform(&mut v, cam);
    assert_eq!(v, Vec3 { x: 2 * O + DEFAULT_TRANSL_X, y: 2 * O, z: 2 * O + DEFAULT_TRANSL_Z });
}

#[test]
fn transform_quarter_turn() {
    // A quarter turn about the vertical axis sends +x to -z.
    let mut tr = Transform::new(Vec3 { x: 2 * O, y: 0, z: -7 * O }, O);
    update_transform(&mut tr, Vec3 { x: 0, y: 0, z: 0 }, 0, 90 * O, 0, O);
    assert_eq!(tr.rot, 90 * O);
    let cam = Transform::new(Vec3 { x: 0, y: 0, z: 0 }, O);
    let mut v = Vec3 { x: O, y: 0, z: 0 };
    tr.apply_transform(&mut v, cam);
    // Rotated (1,0,0) -> (0,0,-1); then translated by (2,0,-7) and the
    // world offset (-2,0,7): x = 0 + 2 - 2, z = -1 - 7 + 7.
    assert_eq!(v, Vec3 { x: 0, y: 0, z: -O });
}

#[test]
fn rotate_y_basis() {
    // cos = 0, sin = 1: x' = z, z' = -x.
    let r = rotate_y(Vec3 { x: 3 * O, y: 5 * O, z: 7 * O }, 0, O);
    assert_eq!(r, Vec3 { x: 7 * O, y: 5 * O, z: -3 * O });
    let s = vec3_add(r, Vec3 { x: O, y: O, z: O });
    assert_eq!(s, Vec3 { x: 8 * O, y: 6 * O, z: -2 * O });
}

#[test]
fn helpers() {
    assert_eq!(x_y_to_i(10, 20), 20 * 900 + 10);
    assert!(!check_if_out_of_canvas(0, 0));
    assert!(!check_if_out_of_canvas(899, 899));
    assert!(check_if_out_of_canvas(-1, 10));
    assert!(check_if_out_of_canvas(10, 900));
    let mut a = 3i64;
    let mut b = 9i64;
    swap(&mut a, &mut b);
    assert_eq!((a, b), (9, 3));
}

#[test]
fn palette_cycles() {
    assert_eq!(palette(0), [255, 255, 255]);
    assert_eq!(palette(5), [231, 65, 12]);
}

#[test]
fn mesh_catalog() {
    let verts = Model::Cube.get_verts();
    let tris = Model::Cube.get_indices();
    assert_eq!(verts.len(), 8);
    assert_eq!(tris.len(), 12);
    for v in &verts {
        assert!(v.x.abs() == O && v.y.abs() == O && v.z.abs() == O);
    }
    for t in &tris {
        assert!(t.0 < 8 && t.1 < 8 && t.2 < 8);
    }
}

#[test]
fn clear_screen_zeroes_colors_keeps_alpha() {
    let mut frame = vec![0xaau8; FRAME_LEN];
    clear_screen(&mut frame);
    for i in (0..FRAME_LEN).step_by(997) {
        if i % 4 == 3 {
            assert_eq!(frame[i], 0xaa);
        } else {
            assert_eq!(frame[i], 0x00);
        }
    }
}

#[test]
fn put_pixel_writes_one_pixel() {
    let mut frame = fresh_frame();
    put_pixel(&mut frame, 450, 449, [10, 20, 30]);
    assert_eq!(pixel(&frame, 450, 449), [10, 20, 30, 0xff]);
    assert_eq!(pixel(&frame, 451, 449), [0, 0, 0, 0]);
    assert_eq!(pixel(&frame, 450, 450), [0, 0, 0, 0]);
}

#[test]
fn debug_pattern_matches_reference() {
    let mut frame = fresh_frame();
    show_individual_pixels(&mut frame);
    // Recompute the pattern the straightforward way and compare every byte.
    let mut expected = fresh_frame();
    let mut pog = true;
    for (i, px) in expected.chunks_exact_mut(4).enumerate() {
        if i % 64 == 0 {
            pog = !pog;
        }
        let rgba = if pog {
            [0x48, 0xb2, 0xe8, 0xff]
        } else {
            [0x5e, 0x48, 0xe8, 0xff]
        };
        pog = !pog;
        px.copy_from_slice(&rgba);
    }
    assert_eq!(frame, expected);
}

#[test]
fn horizontal_line_pixels() {
    let mut frame = fresh_frame();
    draw_line(Vec2 { x: 0, y: 0 }, Vec2 { x: 4 * O, y: 0 }, &mut frame, [9, 8, 7]);
    for col in 450..455 {
        assert_eq!(pixel(&frame, col, 450), [9, 8, 7, 0xff]);
    }
    assert_eq!(pixel(&frame, 455, 450), [0, 0, 0, 0]);
    assert_eq!(pixel(&frame, 449, 450), [0, 0, 0, 0]);
}

#[test]
fn vertical_line_pixels() {
    let mut frame = fresh_frame();
    draw_line(Vec2 { x: 0, y: 0 }, Vec2 { x: 0, y: 3 * O }, &mut frame, [1, 2, 3]);
    // Rows flip: y = 0..=3 lands on rows 450 down to 447.
    for row in 447..451 {
        assert_eq!(pixel(&frame, 450, row), [1, 2, 3, 0xff]);
    }
    assert_eq!(pixel(&frame, 450, 446), [0, 0, 0, 0]);
}

#[test]
fn offscreen_line_is_skipped() {
    let mut frame = fresh_frame();
    draw_line(
        Vec2 { x: 2000 * O, y: 0 },
        Vec2 { x: 2004 * O, y: 0 },
        &mut frame,
        [9, 8, 7],
    );
    assert!(frame.iter().all(|&b| b == 0));
}

#[test]
fn triangle_fill_covers_expected_rows() {
    let mut frame = fresh_frame();
    let mut depth = fresh_depth();
    // Right triangle: top vertex at the origin, bottom edge four pixels down.
    let p0 = Vec2 { x: 0, y: 0 };
    let p1 = Vec2 { x: 0, y: 4 * O };
    let p2 = Vec2 { x: 4 * O, y: 4 * O };
    draw_triangle(p0, p1, p2, (6 * O, 6 * O, 6 * O), &mut depth, &mut frame, [50, 60, 70]);
    // Scanline j rows: y = 0..3 map to rows 450..447; row y holds y pixels.
    assert_eq!(pixel(&frame, 450, 450), [0, 0, 0, 0]);
    assert_eq!(pixel(&frame, 450, 449), [50, 60, 70, 0xff]);
    assert_eq!(pixel(&frame, 451, 448), [50, 60, 70, 0xff]);
    assert_eq!(pixel(&frame, 452, 447), [50, 60, 70, 0xff]);
    assert_eq!(pixel(&frame, 453, 447), [0, 0, 0, 0]);
    // Written pixels record the constant depth.
    assert_eq!(depth[449 * 900 + 450], Some(6 * O));
    assert_eq!(depth[450 * 900 + 450], None);
}

#[test]
fn depth_buffer_occlusion_is_order_independent() {
    let p0 = Vec2 { x: -4 * O, y: -4 * O };
    let p1 = Vec2 { x: 0, y: 4 * O };
    let p2 = Vec2 { x: 4 * O, y: -4 * O };
    let near = (2 * O, 2 * O, 2 * O);
    let far = (5 * O, 5 * O, 5 * O);
    let near_color = [200, 0, 0];
    let far_color = [0, 0, 200];

    let mut frame_a = fresh_frame();
    let mut depth_a = fresh_depth();
    draw_triangle(p0, p1, p2, near, &mut depth_a, &mut frame_a, near_color);
    draw_triangle(p0, p1, p2, far, &mut depth_a, &mut frame_a, far_color);

    let mut frame_b = fresh_frame();
    let mut depth_b = fresh_depth();
    draw_triangle(p0, p1, p2, far, &mut depth_b, &mut frame_b, far_color);
    draw_triangle(p0, p1, p2, near, &mut depth_b, &mut frame_b, near_color);

    assert_eq!(frame_a, frame_b);
    // The overlap shows the nearer triangle's color whichever came first.
    assert_eq!(pixel(&frame_a, 450, 451), [200, 0, 0, 0xff]);
    assert_eq!(depth_a[451 * 900 + 450], Some(2 * O));
}

#[test]
fn shaded_triangle_scales_channels() {
    let mut frame = fresh_frame();
    let p0 = Vec2 { x: -4 * O, y: -4 * O };
    let p1 = Vec2 { x: 0, y: 4 * O };
    let p2 = Vec2 { x: 4 * O, y: -4 * O };
    // Constant half intensity: every covered pixel gets half the color.
    draw_shaded_triangle(p0, p1, p2, (O / 2, O / 2, O / 2), &mut frame, [100, 50, 255]);
    assert_eq!(pixel(&frame, 450, 451), [50, 25, 127, 0xff]);
}

#[test]
fn wireframe_triangle_draws_edges() {
    let mut frame = fresh_frame();
    let p0 = Vec2 { x: 0, y: 0 };
    let p1 = Vec2 { x: 8 * O, y: 0 };
    let p2 = Vec2 { x: 0, y: 8 * O };
    draw_wireframe_triangle(p0, p1, p2, &mut frame, [7, 7, 7]);
    // Corners lie on two edges each; edge midpoints on one.
    assert_eq!(pixel(&frame, 450, 450), [7, 7, 7, 0xff]);
    assert_eq!(pixel(&frame, 454, 450), [7, 7, 7, 0xff]);
    assert_eq!(pixel(&frame, 450, 446), [7, 7, 7, 0xff]);
    // Inside stays empty: the fill is not run.
    assert_eq!(pixel(&frame, 452, 448), [0, 0, 0, 0]);
}

#[test]
fn render_object_outlines_mesh() {
    let mut frame = fresh_frame();
    let verts = Model::Cube.get_verts();
    let tris = Model::Cube.get_indices();
    render_object(&verts, &tris, &mut frame);
    let lit = frame.chunks_exact(4).filter(|p| p[3] == 0xff).count();
    assert!(lit > 100);
}

#[test]
fn lone_cube_renders_with_consistent_depths() {
    // A unit cube at the world offset, no rotation, scale one, alone in the
    // scene: it covers some pixels, and every depth the rasterizer recorded
    // stays within the cube's camera-space depth range (6 to 8) up to the
    // interpolation's sub-pixel truncation slack.
    let inst = Instance::new(Model::Cube, Vec3 { x: 0, y: 0, z: 0 }, O);
    let cam = Transform::new(Vec3 { x: 0, y: 0, z: 0 }, O);
    let mut frame = fresh_frame();
    let mut depth = fresh_depth();
    let scene = vec![inst];
    render_frame(&scene, cam, &mut frame, &mut depth);
    let mut covered = 0usize;
    for p in 0..DEPTH_LEN {
        if let Some(z) = depth[p] {
            covered += 1;
            assert!(z >= 6 * O - 2000, "depth {} too near", z);
            assert!(z <= 8 * O + 2000, "depth {} too far", z);
            // A written depth cell means a written pixel: opaque alpha.
            let col = p % 900;
            let row = p / 900;
            assert_eq!(frame[4 * (row * 900 + col) + 3], 0xff);
        }
    }
    assert!(covered > 1000, "only {} pixels covered", covered);
}

#[test]
fn render_filled_triangle_skips_unprojected_vertices() {
    let mut frame = fresh_frame();
    let mut depth = fresh_depth();
    let projected = vec![Some(Vec2 { x: 0, y: 0 }), None, Some(Vec2 { x: 4 * O, y: 4 * O })];
    let camz = vec![6 * O, 6 * O, 6 * O];
    render_filled_triangle((0, 1, 2), &projected, &camz, &mut depth, &mut frame, [1, 1, 1]);
    assert!(frame.iter().all(|&b| b == 0));
    assert!(depth.iter().all(|d| d.is_none()));
}

#[test]
fn sphere_update_follows_camera_rotation() {
    // With the camera turned a quarter turn, the view rotation (the inverse)
    // sends the world center (0,0,5) to (-5,0,0).
    let mut inst = Instance::new(Model::Cube, Vec3 { x: 2 * O, y: 0, z: -2 * O }, O);
    let t = inst.trans.translation;
    inst.bounding_sphere.update(t, 0, O);
    assert_eq!(inst.bounding_sphere.center, Vec3 { x: -5 * O, y: 0, z: 0 });
    // Rebuilding the sphere from the same vertices reproduces it.
    let again = BoundingSphere::new(&inst.verts);
    assert_eq!(again.orig_center, inst.bounding_sphere.orig_center);
    assert_eq!(again.radius, inst.bounding_sphere.radius);
}
