use mini_renderer::graphics::rasterizer::{
    AreaSign, ClipOutcode, LinePixel, LineRasterizer, LineWalk, TriangleRasterizer,
};
use mini_renderer::graphics::{Face, FrontFace};

#[derive(Debug, Clone, Copy)]
struct Vec4 {
    x: f32,
    y: f32,
    z: f32,
    w: f32,
}

impl Vec4 {
    fn new(x: f32, y: f32, z: f32, w: f32) -> Self {
        Self { x, y, z, w }
    }
}

fn outcode(v: Vec4) -> ClipOutcode {
    ClipOutcode {
        left: v.x < -v.w,
        right: v.x > v.w,
        bottom: v.y < -v.w,
        top: v.y > v.w,
        near: v.z < -v.w,
        far: v.z > v.w,
    }
}

fn cull(v0: Vec4, v1: Vec4, v2: Vec4) -> bool {
    TriangleRasterizer::should_cull_triangle(outcode(v0), outcode(v1), outcode(v2))
}

#[test]
fn test_should_cull_triangle_completely_behind() {
    let v0 = Vec4::new(0.0, 0.0, -2.0, 1.0);
    let v1 = Vec4::new(1.0, 0.0, -2.0, 1.0);
    let v2 = Vec4::new(0.0, 1.0, -2.0, 1.0);
    assert!(cull(v0, v1, v2));
}

#[test]
fn test_should_cull_triangle_completely_in_front() {
    let v0 = Vec4::new(0.0, 0.0, 2.0, 1.0);
    let v1 = Vec4::new(1.0, 0.0, 2.0, 1.0);
    let v2 = Vec4::new(0.0, 1.0, 2.0, 1.0);
    assert!(cull(v0, v1, v2));
}

#[test]
fn test_should_cull_triangle_left_of_viewport() {
    let v0 = Vec4::new(-2.0, 0.0, 0.0, 1.0);
    let v1 = Vec4::new(-1.5, 0.5, 0.0, 1.0);
    let v2 = Vec4::new(-1.5, -0.5, 0.0, 1.0);
    assert!(cull(v0, v1, v2));
}

#[test]
fn test_should_cull_triangle_right_of_viewport() {
    let v0 = Vec4::new(2.0, 0.0, 0.0, 1.0);
    let v1 = Vec4::new(1.5, 0.5, 0.0, 1.0);
    let v2 = Vec4::new(1.5, -0.5, 0.0, 1.0);
    assert!(cull(v0, v1, v2));
}

#[test]
fn test_should_not_cull_visible_triangle() {
    let v0 = Vec4::new(-0.5, -0.5, 0.0, 1.0);
    let v1 = Vec4::new(0.5, -0.5, 0.0, 1.0);
    let v2 = Vec4::new(0.0, 0.5, 0.0, 1.0);
    assert!(!cull(v0, v1, v2));
}

#[test]
fn triangle_straddling_two_planes_is_kept() {
    let v0 = Vec4::new(-2.0, 0.0, 0.0, 1.0);
    let v1 = Vec4::new(2.0, 0.0, 0.0, 1.0);
    let v2 = Vec4::new(-2.0, 2.0, 0.0, 1.0);
    assert!(!cull(v0, v1, v2));
}

fn collect(mut walk: LineWalk) -> Vec<(usize, usize, i32, i32)> {
    let mut out = Vec::new();
    while let Some(LinePixel { x, y, step_index, steps }) = walk.next() {
        out.push((x, y, step_index, steps));
    }
    out
}

#[test]
fn line_walk_follows_bresenham() {
    let walk = LineWalk::new(0, 0, 4, 2, [0, 0, 10, 10], 10, 10);
    assert_eq!(
        collect(walk),
        vec![(0, 0, 0, 4), (1, 1, 1, 4), (2, 1, 2, 4), (3, 2, 3, 4), (4, 2, 4, 4)]
    );
}

#[test]
fn line_walk_steep_and_reversed() {
    let walk = LineWalk::new(2, 4, 0, 0, [0, 0, 10, 10], 10, 10);
    assert_eq!(
        collect(walk),
        vec![(2, 4, 0, 4), (1, 3, 1, 4), (1, 2, 2, 4), (0, 1, 3, 4), (0, 0, 4, 4)]
    );
}

#[test]
fn line_walk_keeps_only_tile_pixels() {
    let walk = LineWalk::new(0, 0, 4, 2, [2, 0, 2, 10], 10, 10);
    assert_eq!(collect(walk), vec![(2, 1, 2, 4), (3, 2, 3, 4)]);
}

#[test]
fn line_walk_clamps_endpoints_to_screen() {
    let walk = LineWalk::new(-5, 1, 20, 1, [0, 0, 4, 4], 4, 4);
    assert_eq!(collect(walk), vec![(0, 1, 0, 3), (1, 1, 1, 3), (2, 1, 2, 3), (3, 1, 3, 3)]);
}

#[test]
fn line_walk_single_pixel_and_empty_cases() {
    assert_eq!(collect(LineWalk::new(3, 3, 3, 3, [0, 0, 8, 8], 8, 8)), vec![(3, 3, 0, 0)]);
    assert!(collect(LineWalk::new(0, 0, 3, 3, [0, 0, 8, 8], 0, 8)).is_empty());
    assert!(collect(LineWalk::new(0, 0, 3, 3, [0, 0, 0, 8], 8, 8)).is_empty());
    assert!(collect(LineWalk::new(0, 0, 3, 3, [5, 5, 2, 2], 8, 8)).is_empty());
}

#[test]
fn line_walk_is_exhausted_after_the_end() {
    let mut walk = LineWalk::new(0, 0, 1, 0, [0, 0, 4, 4], 4, 4);
    assert!(walk.next().is_some());
    assert!(walk.next().is_some());
    assert!(walk.next().is_none());
    assert!(walk.next().is_none());
}

#[test]
fn line_walk_steps_are_connected() {
    let pixels = collect(LineWalk::new(1, 7, 13, 2, [0, 0, 16, 16], 16, 16));
    assert_eq!(pixels.len(), 13);
    assert_eq!((pixels[0].0, pixels[0].1), (1, 7));
    assert_eq!((pixels[12].0, pixels[12].1), (13, 2));
    for w in pixels.windows(2) {
        assert_eq!(w[1].0, w[0].0 + 1);
        assert!((w[1].1 as i64 - w[0].1 as i64).abs() <= 1);
    }
}

#[test]
fn front_facing_triangle_survives_back_face_culling() {
    let back = TriangleRasterizer::new(FrontFace::Ccw, Some(Face::Back));
    assert!(!back.should_cull(AreaSign::Positive));
    assert!(back.should_cull(AreaSign::Negative));
    let front = TriangleRasterizer::new(FrontFace::Ccw, Some(Face::Front));
    assert!(front.should_cull(AreaSign::Positive));
    assert!(!front.should_cull(AreaSign::Negative));
    assert!(!front.should_cull(AreaSign::Undefined));
    assert!(back.should_cull(AreaSign::Undefined));
    assert!(front.should_cull(AreaSign::Zero) && back.should_cull(AreaSign::Zero));
}

#[test]
fn without_cull_mode_only_degenerate_triangles_are_dropped() {
    let none = TriangleRasterizer::new(FrontFace::Cw, None);
    assert!(!none.should_cull(AreaSign::Positive));
    assert!(!none.should_cull(AreaSign::Negative));
    assert!(none.should_cull(AreaSign::Zero));
    assert!(!none.should_cull(AreaSign::Undefined));
}

#[test]
fn winding_convention_decides_front_face() {
    let ccw = TriangleRasterizer::new(FrontFace::Ccw, None);
    let cw = TriangleRasterizer::new(FrontFace::Cw, None);
    assert!(ccw.is_front_face(AreaSign::Positive));
    assert!(!cw.is_front_face(AreaSign::Positive));
    assert!(cw.is_front_face(AreaSign::Negative));
    assert!(!ccw.is_front_face(AreaSign::Undefined));
    assert!(!cw.is_front_face(AreaSign::Undefined));
}

#[test]
fn pixel_bounds_are_clipped_to_tile() {
    assert_eq!(TriangleRasterizer::clip_bounds_to_tile([-3, 50, 2, 9], [0, 4, 32, 4]), [0, 32, 4, 8]);
    assert_eq!(TriangleRasterizer::clip_bounds_to_tile([5, 7, 5, 6], [0, 0, 32, 32]), [5, 7, 5, 6]);
}

#[test]
fn line_rasterizer_ignores_face_settings() {
    let _ = LineRasterizer::new(FrontFace::Cw, Some(Face::Front));
}
