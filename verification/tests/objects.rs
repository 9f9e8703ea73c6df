use rt::distance::distance_key;
use rt::objects::{box_sides, clip_segment, nearest_root, rect_accepts, Plane, RectBounds};

fn key(x: f64) -> u64 {
    distance_key(x.to_bits())
}

#[test]
fn nearest_root_prefers_the_near_root() {
    assert_eq!(nearest_root(20, 60, 10, 100), Some(20));
    assert_eq!(nearest_root(20, 60, 10, 21), Some(20));
}

#[test]
fn nearest_root_falls_back_to_the_far_root() {
    assert_eq!(nearest_root(5, 60, 10, 100), Some(60));
    assert_eq!(nearest_root(10, 60, 10, 100), Some(60));
}

#[test]
fn nearest_root_reports_nothing_outside_the_interval() {
    assert_eq!(nearest_root(5, 100, 10, 100), None);
    assert_eq!(nearest_root(5, 7, 10, 100), None);
    assert_eq!(nearest_root(200, 300, 10, 100), None);
    assert_eq!(nearest_root(20, 60, 30, 30), None);
}

#[test]
fn nearest_root_on_real_distances() {
    // A ray from the origin towards a sphere of radius 0.5 one unit away.
    assert_eq!(nearest_root(key(0.5), key(1.5), key(0.001), key(f64::INFINITY)), Some(key(0.5)));
    // From inside the sphere the near root lies behind the ray.
    assert_eq!(nearest_root(key(-0.5), key(0.5), key(0.001), key(f64::INFINITY)), Some(key(0.5)));
    // With the sphere behind the ray.
    assert_eq!(nearest_root(key(-1.5), key(-0.5), key(0.001), key(f64::INFINITY)), None);
}

#[test]
fn clip_segment_keeps_a_stretch_inside() {
    assert_eq!(clip_segment(20, 60, 10, 100, 0), Some((20, 60)));
}

#[test]
fn clip_segment_cuts_at_both_ends() {
    assert_eq!(clip_segment(5, 200, 10, 100, 0), Some((10, 100)));
    assert_eq!(clip_segment(5, 60, 10, 100, 0), Some((10, 60)));
    assert_eq!(clip_segment(20, 200, 10, 100, 0), Some((20, 100)));
}

#[test]
fn clip_segment_is_empty_outside_the_interval() {
    assert_eq!(clip_segment(120, 200, 10, 100, 0), None);
    assert_eq!(clip_segment(2, 5, 10, 100, 0), None);
}

#[test]
fn clip_segment_starts_no_earlier_than_the_ray() {
    assert_eq!(clip_segment(20, 60, 10, 100, 30), Some((30, 60)));
    assert_eq!(clip_segment(20, 60, 10, 100, 20), Some((20, 60)));
    assert_eq!(clip_segment(20, 60, 10, 100, 70), Some((70, 60)));
}

#[test]
fn clip_segment_single_point() {
    assert_eq!(clip_segment(40, 40, 10, 100, 0), Some((40, 40)));
    assert_eq!(clip_segment(5, 10, 10, 100, 0), Some((10, 10)));
}

#[test]
fn rect_accepts_a_crossing_inside() {
    assert!(rect_accepts(50, 10, 100, 5, 0, 10, 7, 0, 10));
    assert!(rect_accepts(10, 10, 100, 0, 0, 10, 10, 0, 10));
    assert!(rect_accepts(100, 10, 100, 10, 0, 10, 0, 0, 10));
}

#[test]
fn rect_rejects_a_crossing_outside_the_interval() {
    assert!(!rect_accepts(9, 10, 100, 5, 0, 10, 7, 0, 10));
    assert!(!rect_accepts(101, 10, 100, 5, 0, 10, 7, 0, 10));
}

#[test]
fn rect_rejects_a_point_outside_the_bounds() {
    assert!(!rect_accepts(50, 10, 100, 11, 0, 10, 7, 0, 10));
    assert!(!rect_accepts(50, 10, 100, 5, 6, 10, 7, 0, 10));
    assert!(!rect_accepts(50, 10, 100, 5, 0, 10, 11, 0, 10));
    assert!(!rect_accepts(50, 10, 100, 5, 0, 10, 7, 8, 10));
}

#[test]
fn rect_rejects_a_crossing_that_lies_nowhere() {
    let lo = key(0.001);
    let hi = key(f64::INFINITY);
    let (x0, x1, y0, y1) = (key(0.0), key(555.0), key(0.0), key(555.0));
    // A ray along the plane: the crossing is at infinity or undefined, and so is its point.
    let t = 1.0_f64 / 0.0;
    let x = 278.0 + t * 1.0;
    let y = 278.0 + t * 0.0;
    assert!(x.is_infinite() && y.is_nan());
    assert!(!rect_accepts(key(t), lo, hi, key(x), x0, x1, key(y), y0, y1));
    let t = 0.0_f64 / 0.0;
    assert!(!rect_accepts(key(t), lo, hi, key(278.0 + t), x0, x1, key(278.0 + t), y0, y1));
    let t = -1.0_f64 / 0.0;
    assert!(!rect_accepts(key(t), lo, hi, key(278.0 + t), x0, x1, key(278.0 + t), y0, y1));
    // The same rectangle takes a crossing in its middle.
    assert!(rect_accepts(key(800.0), lo, hi, key(278.0), x0, x1, key(278.0), y0, y1));
}

#[test]
fn box_sides_are_six_rectangles() {
    let sides = box_sides((130.0, 0.0, 65.0), (295.0, 165.0, 230.0));
    assert_eq!(
        sides,
        vec![
            RectBounds { plane: Plane::Xy, a0: 130.0, a1: 295.0, b0: 0.0, b1: 165.0, k: 230.0 },
            RectBounds { plane: Plane::Xy, a0: 130.0, a1: 295.0, b0: 0.0, b1: 165.0, k: 65.0 },
            RectBounds { plane: Plane::Xz, a0: 130.0, a1: 295.0, b0: 65.0, b1: 230.0, k: 165.0 },
            RectBounds { plane: Plane::Xz, a0: 130.0, a1: 295.0, b0: 65.0, b1: 230.0, k: 0.0 },
            RectBounds { plane: Plane::Yz, a0: 0.0, a1: 165.0, b0: 65.0, b1: 230.0, k: 295.0 },
            RectBounds { plane: Plane::Yz, a0: 0.0, a1: 165.0, b0: 65.0, b1: 230.0, k: 130.0 },
        ]
    );
}

#[test]
fn box_sides_of_integer_corners() {
    let sides = box_sides((1u8, 2u8, 3u8), (4u8, 5u8, 6u8));
    assert_eq!(sides.len(), 6);
    assert_eq!(
        sides[4],
        RectBounds { plane: Plane::Yz, a0: 2, a1: 5, b0: 3, b1: 6, k: 4 }
    );
    assert_eq!(
        sides[3],
        RectBounds { plane: Plane::Xz, a0: 1, a1: 4, b0: 3, b1: 6, k: 2 }
    );
}
