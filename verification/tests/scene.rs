use glam::{Mat4, Vec2, Vec3, Vec4};
use resims::scalar::{scalar, Scalar};
use resims::scene::clip::{clip_near, intersect_near, Matrix, Point4, NEAR};
use resims::scene::draw::{
    build_sorted_tris, city_triangles, grass, grid_line, sort_tris, ViewportInput,
};
use resims::scene::shapes::{
    AgentMarker, GroundMarker, PathLine, PathPoly, Point3, PropBox, RawTri, WallSeg, LAYER_SOLID,
};
use resims::scene::{block_by_id, blocks, pick, Rgb};
use resims::sim::agent::Position;
use resims::viewport::{
    aspect_ratio, canvas_size, click_event, hover_event, leave_event, move_pointer, press,
    release_pointer, zoom_factor, Ask, CameraMove, PickEvent, PointerButton,
};

const ASPECT: f32 = 16.0 / 9.0;
const VIEWPORT: Vec2 = Vec2::new(1600.0, 900.0);
const HALF_FOV: f32 = 0.4;

fn s(v: f32) -> Scalar {
    Scalar { bits: v.to_bits() }
}

fn f(v: Scalar) -> f32 {
    f32::from_bits(v.bits)
}

fn pos(x: f32, z: f32) -> Position {
    Position { x: s(x), z: s(z) }
}

fn rgb(c: [f32; 3]) -> Rgb {
    Rgb { r: s(c[0]), g: s(c[1]), b: s(c[2]) }
}

fn column(v: Vec4) -> Point4 {
    Point4 { x: s(v.x), y: s(v.y), z: s(v.z), w: s(v.w) }
}

fn matrix(m: Mat4) -> Matrix {
    Matrix { x: column(m.x_axis), y: column(m.y_axis), z: column(m.z_axis), w: column(m.w_axis) }
}

/// A camera on an orbit around the origin.
struct Camera {
    dist: f32,
    pitch: f32,
    yaw: f32,
}

impl Camera {
    fn eye(&self) -> Vec3 {
        let flat = self.dist * self.pitch.cos();
        Vec3::new(flat * self.yaw.cos(), self.dist * self.pitch.sin(), flat * self.yaw.sin())
    }

    /// The directions right, up and ahead.
    fn axes(&self) -> (Vec3, Vec3, Vec3) {
        let forward = (-self.eye()).normalize();
        let side = forward.cross(Vec3::Y).normalize();
        (side, side.cross(forward), forward)
    }

    fn view(&self) -> Mat4 {
        let eye = self.eye();
        let (side, up, forward) = self.axes();
        Mat4::from_cols(
            Vec4::new(side.x, up.x, -forward.x, 0.0),
            Vec4::new(side.y, up.y, -forward.y, 0.0),
            Vec4::new(side.z, up.z, -forward.z, 0.0),
            Vec4::new(-side.dot(eye), -up.dot(eye), forward.dot(eye), 1.0),
        )
    }

    fn proj(&self) -> Mat4 {
        let (near, far) = (f(scalar(NEAR)), 1000.0);
        let h = 1.0 / HALF_FOV.tan();
        let r = 1.0 / (near - far);
        Mat4::from_cols(
            Vec4::new(h / ASPECT, 0.0, 0.0, 0.0),
            Vec4::new(0.0, h, 0.0, 0.0),
            Vec4::new(0.0, 0.0, (near + far) * r, -1.0),
            Vec4::new(0.0, 0.0, 2.0 * near * far * r, 0.0),
        )
    }

    /// A world point in viewport pixels.
    fn to_screen(&self, p: Vec3) -> Vec2 {
        let clip = self.proj() * self.view() * p.extend(1.0);
        let ndc = Vec2::new(clip.x / clip.w, clip.y / clip.w);
        Vec2::new((ndc.x + 1.0) * 0.5 * VIEWPORT.x, (1.0 - ndc.y) * 0.5 * VIEWPORT.y)
    }

    /// The ground point under a viewport pixel.
    fn ground_point(&self, px: Vec2) -> Option<Position> {
        let h = HALF_FOV.tan();
        let x = (px.x / VIEWPORT.x * 2.0 - 1.0) * h * ASPECT;
        let y = (1.0 - px.y / VIEWPORT.y * 2.0) * h;
        let (side, up, forward) = self.axes();
        let ray = forward + side * x + up * y;
        if ray.y >= -1e-6 {
            return None;
        }
        let hit = self.eye() + ray * (-self.eye().y / ray.y);
        Some(pos(hit.x, hit.z))
    }
}

fn default_camera() -> Camera {
    Camera { dist: 130.0, pitch: 0.85, yaw: 0.7 }
}

fn empty_input() -> ViewportInput {
    ViewportInput {
        inspection: false,
        agents: Vec::new(),
        markers: Vec::new(),
        paths: Vec::new(),
        polys: Vec::new(),
        walls: Vec::new(),
        props: Vec::new(),
    }
}

fn build(cam: &Camera, input: &ViewportInput) -> (Vec<f32>, usize) {
    let (out, n) = build_sorted_tris(input, &matrix(cam.view()), &matrix(cam.proj()));
    (out.into_iter().map(f).collect(), n)
}

#[test]
fn transforms_match_the_matrix_library() {
    let m = default_camera().view();
    for p in [Vec4::new(1.0, 2.0, 3.0, 1.0), Vec4::new(-7.5, 0.1, 40.0, 1.0)] {
        let ours = matrix(m).apply(column(p));
        let theirs = m * p;
        assert_eq!((f(ours.x), f(ours.y)), (theirs.x, theirs.y));
        assert_eq!((f(ours.z), f(ours.w)), (theirs.z, theirs.w));
    }
}

#[test]
fn ground_never_covers_flat_overlays() {
    // Flat overlays must draw after the ground at every angle.
    let mut input = empty_input();
    input.markers.push(GroundMarker {
        x: s(10.0),
        z: s(10.0),
        color: rgb([1.0, 0.0, 1.0]),
        size: s(1.2),
    });
    let flat = |c: Rgb| [f(c.r), f(c.g), f(c.b)];
    for (dist, pitch, yaw) in [
        (25.0, 0.12, 1.0),
        (25.0, 0.12, 2.6),
        (60.0, 0.25, 4.2),
        (110.0, 0.85, 0.7),
    ] {
        let (floats, _) = build(&Camera { dist, pitch, yaw }, &input);
        let mut last_ground = 0usize;
        let mut first_overlay = usize::MAX;
        for (i, t) in floats.chunks_exact(18).enumerate() {
            for v in 0..3 {
                let c = [t[v * 6 + 3], t[v * 6 + 4], t[v * 6 + 5]];
                if c == flat(grass()) || c == flat(grid_line()) {
                    last_ground = last_ground.max(i);
                }
                if c == [1.0, 0.0, 1.0] {
                    first_overlay = first_overlay.min(i);
                }
            }
        }
        assert!(first_overlay != usize::MAX, "marker missing at dist {dist} yaw {yaw}");
        assert!(
            last_ground < first_overlay,
            "ground tri {last_ground} drawn over marker (first at {first_overlay}), dist {dist} yaw {yaw}"
        );
    }
}

#[test]
fn pick_roundtrip_hits_known_block() {
    let cam = default_camera();
    // bld:1 ground center must pick back to bld:1.
    let b = blocks()[0];
    assert_eq!(b.id, "bld:1");
    let px = cam.to_screen(Vec3::new(f(b.cx), 0.0, f(b.cz)));
    let hit = cam.ground_point(px).and_then(pick);
    assert_eq!(hit.map(|b| b.id), Some(b.id));
    for b in blocks() {
        assert_eq!(pick(Position { x: b.cx, z: b.cz }).map(|h| h.id), Some(b.id));
        assert_eq!(block_by_id(b.id).map(|h| h.h), Some(b.h));
    }
}

#[test]
fn pick_empty_ground_returns_none() {
    let cam = default_camera();
    // Far corner of the viewport looks at empty grass.
    let px = Vec2::new(VIEWPORT.x - 4.0, VIEWPORT.y - 4.0);
    assert!(cam.ground_point(px).is_some());
    assert!(cam.ground_point(px).and_then(pick).is_none());
    assert!(pick(pos(100.0, 100.0)).is_none());
    assert!(pick(pos(0.0, 0.0)).is_none());
    assert!(block_by_id("bld:8").is_none());
}

#[test]
fn agents_and_markers_add_tris() {
    let cam = default_camera();
    let (_, base) = build(&cam, &empty_input());
    let mut input = empty_input();
    input.agents.push(AgentMarker { x: s(0.0), z: s(0.0), color: rgb([1.0, 0.0, 0.0]) });
    input.markers.push(GroundMarker {
        x: s(5.0),
        z: s(5.0),
        color: rgb([0.0, 0.0, 1.0]),
        size: s(1.2),
    });
    input.paths.push(PathLine {
        points: vec![pos(-8.0, 0.0), pos(0.0, 0.0), pos(8.0, 8.0)],
        width: s(2.0),
        color: rgb([1.0, 1.0, 1.0]),
    });
    input.polys.push(PathPoly {
        points: vec![pos(20.0, 0.0), pos(28.0, 0.0), pos(28.0, 8.0), pos(20.0, 8.0)],
        color: rgb([1.0, 1.0, 0.0]),
    });
    input.walls.push(WallSeg {
        ax: s(-4.0),
        az: s(-4.0),
        bx: s(4.0),
        bz: s(-4.0),
        height: s(3.0),
        color: rgb([0.9, 0.9, 0.9]),
    });
    input.props.push(PropBox {
        cx: s(0.0),
        cz: s(20.0),
        w: s(1.2),
        h: s(2.2),
        d: s(1.2),
        color: rgb([0.92, 0.92, 0.94]),
    });
    let (floats, n) = build(&cam, &input);
    // octahedron (8) + diamond (2) + ribbon (2 segments x 2) + fan (2) + wall box (6) + prop box (10).
    assert_eq!(n, base + 32);
    assert_eq!(floats.len(), n * 18);
    assert!(floats.iter().all(|v| v.is_finite()));
}

#[test]
fn built_tris_are_sane_and_sorted() {
    let cam = default_camera();
    let (floats, n) = build(&cam, &empty_input());
    assert!(n > 100, "ground + grid + boxes, got {n} tris");
    assert_eq!(floats.len(), n * 18);
    assert!(floats.iter().all(|v| v.is_finite()));
    for t in floats.chunks_exact(18) {
        for v in [0, 1, 2] {
            assert!((0.0..=1.0).contains(&t[v * 6 + 2]), "depth {}", t[v * 6 + 2]);
        }
    }
    // All starter boxes visible at the default camera.
    let vp = cam.proj() * cam.view();
    for b in blocks() {
        let clip = vp * Vec3::new(f(b.cx), f(b.h), f(b.cz)).extend(1.0);
        assert!(clip.w > 0.0, "{} behind camera", b.id);
        let ndc = Vec2::new(clip.x / clip.w, clip.y / clip.w);
        assert!(ndc.x.abs() <= 1.0 && ndc.y.abs() <= 1.0, "{} off screen: {ndc:?}", b.id);
    }
    let raw = city_triangles(&empty_input());
    assert_eq!(raw.len(), 2 + 25 * 4 + 7 * 10);
    let sorted = sort_tris(&raw, &matrix(cam.view()), &matrix(cam.proj()));
    for pair in sorted.windows(2) {
        assert!(
            pair[0].layer < pair[1].layer
                || (pair[0].layer == pair[1].layer && f(pair[0].depth) >= f(pair[1].depth))
        );
    }
}

fn tri(points: [Vec3; 3]) -> RawTri {
    let p = |v: Vec3| Point3 { x: s(v.x), y: s(v.y), z: s(v.z) };
    RawTri {
        a: p(points[0]),
        b: p(points[1]),
        c: p(points[2]),
        color: rgb([1.0, 1.0, 1.0]),
        layer: LAYER_SOLID,
    }
}

#[test]
fn straddling_triangle_clips_instead_of_vanishing() {
    let cam = default_camera();
    let eye = cam.eye();
    let fwd = (-eye).normalize();
    // One vertex behind the camera, two far ahead.
    let behind = eye - fwd * 5.0;
    let ahead_l = Vec3::new(-30.0, 0.0, 0.0);
    let ahead_r = Vec3::new(30.0, 0.0, 0.0);
    let clipped = clip_near(&tri([behind, ahead_l, ahead_r]), &matrix(cam.view()));
    assert!(!clipped.is_empty(), "visible part must survive");
    assert!(clipped.len() <= 2);
    for t in &clipped {
        for v in [t.a, t.b, t.c] {
            let z = f(v.z);
            assert!(z <= -f(scalar(NEAR)), "clipped vert in front of near plane: {z}");
        }
    }
}

#[test]
fn cuts_lie_on_the_near_plane_up_to_rounding() {
    let p = |z: f32| Point4 { x: s(1.0), y: s(-2.0), z: s(z), w: s(1.0) };
    for (a, b) in [(-0.6, -0.4), (3.7, -91.3), (-1000.0, 77.7), (-0.5, 1e-20), (1e9, -3.0)] {
        let z = f(intersect_near(p(a), p(b)).z);
        let depth = (f64::from(a) - f64::from(b)).abs();
        assert!((f64::from(z) + 0.5).abs() * 2097152.0 <= depth + 1.0, "{a} {b} {z}");
    }
}

#[test]
fn fully_behind_triangle_clips_to_nothing() {
    let cam = default_camera();
    let eye = cam.eye();
    let fwd = (-eye).normalize();
    let t = tri([eye - fwd * 5.0, eye - fwd * 10.0, eye - fwd * 8.0 + Vec3::X * 3.0]);
    assert!(clip_near(&t, &matrix(cam.view())).is_empty());
}

#[test]
fn whole_triangle_drop_would_delete_visible_ground() {
    // A ground-half-sized triangle at a close, near-horizontal camera
    // straddles the camera plane; clipping keeps its visible part.
    let cam = Camera { dist: 15.0, pitch: 0.12, yaw: 0.0 };
    let vp = cam.proj() * cam.view();
    let corners = [
        Vec3::new(-120.0, 0.0, -120.0),
        Vec3::new(-120.0, 0.0, 120.0),
        Vec3::new(120.0, 0.0, 120.0),
    ];
    let ws: Vec<f32> = corners.iter().map(|p| (vp * p.extend(1.0)).w).collect();
    assert!(
        ws.iter().any(|w| *w <= 0.05) && ws.iter().any(|w| *w > 0.05),
        "test setup must straddle: {ws:?}"
    );
    // Dropping the whole triangle would lose this one ...
    assert!(ws.iter().any(|w| *w <= 0.05));
    // ... while clipping preserves its visible part.
    let kept = clip_near(&tri(corners), &matrix(cam.view()));
    assert!(!kept.is_empty(), "visible ground must survive, ws={ws:?}");
    assert!(kept.len() <= 2);
}

#[test]
fn low_grazing_camera_keeps_all_ground_tris() {
    // Close, near-horizontal views: ground corners and grid-strip ends swing
    // behind the camera here, and all output must stay finite.
    for (dist, pitch, yaw, pinned) in [
        (15.0, 0.12, 0.0, 172),
        (15.0, 0.12, 2.1, 202),
        (30.0, 0.12, 4.0, 215),
        (25.0, 0.3, 1.0, 214),
    ] {
        let (floats, n) = build(&Camera { dist, pitch, yaw }, &empty_input());
        assert!(floats.iter().all(|v| v.is_finite()), "dist {dist} yaw {yaw}: non-finite NDC");
        assert_eq!(n, pinned, "dist {dist} yaw {yaw}: clipping changed");
    }
}

#[test]
fn far_flung_scenes_stay_finite() {
    let mut input = empty_input();
    for (x, z) in [(2048.0, -2048.0), (-2048.0, 0.0)] {
        input.agents.push(AgentMarker { x: s(x), z: s(z), color: rgb([1.0, 0.5, 0.0]) });
        input.paths.push(PathLine {
            points: vec![pos(x, z), pos(x, z), pos(-x, 1e-30), pos(z, x)],
            width: s(2048.0),
            color: rgb([1.0, 1.0, 1.0]),
        });
        input.walls.push(WallSeg {
            ax: s(x),
            az: s(z),
            bx: s(x),
            bz: s(z + 1e-3),
            height: s(2048.0),
            color: rgb([0.9, 0.9, 0.9]),
        });
    }
    for yaw in [0.0, 1.0, 2.0, 3.0, 4.0, 5.0] {
        let cam = Camera { dist: 4000.0, pitch: 0.1, yaw };
        let (floats, n) = build(&cam, &input);
        let pieces: usize = city_triangles(&input)
            .iter()
            .map(|t| clip_near(t, &matrix(cam.view())).len())
            .sum();
        assert_eq!(n, pieces);
        assert!(floats.iter().all(|v| v.is_finite()), "yaw {yaw}");
    }
}

#[test]
fn drags_orbit_or_pan_and_clicks_pick() {
    let mut drag = Some(press(PointerButton::Primary, false, s(10.0), s(10.0)));
    let (mv, ask) = move_pointer(&mut drag, true, s(13.0), s(9.0));
    assert_eq!(mv, CameraMove::Orbit { dx: s(3.0), dy: s(-1.0) });
    assert_eq!(ask, Ask::Nothing);
    assert_eq!(drag.map(|d| f(d.travel)), Some(4.0));
    assert_eq!(release_pointer(&mut drag, false), Ask::Click);
    assert!(drag.is_none());
    let mut drag = Some(press(PointerButton::Primary, true, s(0.0), s(0.0)));
    let (mv, _) = move_pointer(&mut drag, false, s(5.0), s(0.0));
    assert_eq!(mv, CameraMove::Pan { dx: s(5.0), dy: s(0.0) });
    assert_eq!(move_pointer(&mut drag, false, s(5.0), s(0.0)).0, CameraMove::Stay);
    assert_eq!(release_pointer(&mut drag, false), Ask::Nothing);
    assert_eq!(release_pointer(&mut drag, false), Ask::Nothing);
    assert_eq!(move_pointer(&mut drag, true, s(1.0), s(1.0)), (CameraMove::Stay, Ask::Hover));
    assert_eq!(move_pointer(&mut drag, false, s(1.0), s(1.0)), (CameraMove::Stay, Ask::Nothing));
    let mut drag = Some(press(PointerButton::Secondary, false, s(0.0), s(0.0)));
    assert_eq!(release_pointer(&mut drag, false), Ask::Nothing);
    let mut drag = Some(press(PointerButton::Primary, false, s(0.0), s(0.0)));
    assert_eq!(release_pointer(&mut drag, true), Ask::Nothing);
}

#[test]
fn events_name_the_block_under_the_pointer() {
    let at = pos(-14.0, -8.0);
    let screen = pos(3.0, 4.0);
    assert!(matches!(
        hover_event(Some(at), screen),
        PickEvent::Hover { id: Some(id), .. } if id == "bld:1"
    ));
    assert!(matches!(hover_event(None, screen), PickEvent::Hover { id: None, .. }));
    assert!(matches!(
        click_event(Some(at), true, screen),
        Some(PickEvent::Select { id, .. }) if id == "bld:1"
    ));
    assert!(matches!(click_event(Some(at), false, screen), Some(PickEvent::GroundClick { .. })));
    assert!(matches!(
        click_event(Some(pos(100.0, 0.0)), true, screen),
        Some(PickEvent::GroundClick { x, .. }) if f(x) == 100.0
    ));
    assert!(click_event(None, true, screen).is_none());
    assert!(leave_event(false).is_none());
    assert!(matches!(leave_event(true), Some(PickEvent::Hover { id: None, .. })));
}

#[test]
fn wheel_and_canvas_size() {
    assert_eq!(zoom_factor(s(0.5)), None);
    assert_eq!(zoom_factor(s(-100.0)).map(f), Some(1.0 + 100.0 * 0.002));
    assert_eq!(zoom_factor(s(-1e6)).map(f), Some(2.0));
    assert_eq!(zoom_factor(s(1e6)).map(f), Some(0.5));
    assert_eq!(canvas_size(s(800.0), s(400.0)), (s(800.0), s(400.0)));
    assert_eq!(canvas_size(s(800.0), s(0.0)), (s(1600.0), s(900.0)));
    assert_eq!(f(aspect_ratio(s(800.0), s(400.0))), 2.0);
}
