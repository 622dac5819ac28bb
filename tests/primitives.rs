use graphics_learn::{IntersectionData, RayIntersection};
use graphics_learn::math::{AxisAlignedBox, Plain};
use graphics_learn::vector::{Dist, Vec3};

fn v(x: i64, y: i64, z: i64) -> Vec3 {
    Vec3::new(x, y, z)
}

fn unit_box() -> AxisAlignedBox {
    AxisAlignedBox::from_position_and_extents(v(0, 0, 0), v(1, 1, 1))
}

#[test]
fn parallel_ray_misses_box() {
    let hit = unit_box().intersect(v(5, 5, 5), v(0, 0, 1));
    assert!(hit.is_none());
}

#[test]
fn ray_along_x_crosses_box() {
    let hit = unit_box().intersect(v(-5, 0, 0), v(1, 0, 0)).unwrap();
    assert_eq!(hit.min, Dist { num: 4, den: 1 });
    assert_eq!(hit.max, Dist { num: 6, den: 1 });
    assert_eq!(hit.in_normal, v(-1, 0, 0));
    assert_eq!(hit.out_normal, v(1, 0, 0));
}

#[test]
fn ray_against_direction_gives_negative_distances() {
    let hit = unit_box().intersect(v(5, 0, 0), v(1, 0, 0)).unwrap();
    assert_eq!(hit.min, Dist { num: -6, den: 1 });
    assert_eq!(hit.max, Dist { num: -4, den: 1 });
    assert_eq!(hit.in_normal, v(-1, 0, 0));
}

#[test]
fn origin_inside_box() {
    let hit = unit_box().intersect(v(0, 0, 0), v(0, 2, 0)).unwrap();
    assert!(hit.min.equals_value(&Dist { num: -1, den: 2 }));
    assert!(hit.max.equals_value(&Dist { num: 1, den: 2 }));
    assert_eq!(hit.in_normal, v(0, -1, 0));
    assert_eq!(hit.out_normal, v(0, 1, 0));
}

#[test]
fn ray_just_outside_face_misses() {
    let b = AxisAlignedBox::from_position_and_extents(v(0, 0, 0), v(100, 100, 100));
    assert!(b.intersect(v(-500, 102, 0), v(1, 0, 0)).is_none());
}

#[test]
fn ray_along_face_is_kept() {
    let b = AxisAlignedBox::from_position_and_extents(v(0, 0, 0), v(100, 100, 100));
    let hit = b.intersect(v(-500, 100, 0), v(1, 0, 0)).unwrap();
    assert_eq!(hit.min, Dist { num: 400, den: 1 });
    assert_eq!(hit.max, Dist { num: 600, den: 1 });
}

#[test]
fn ray_within_shrink_margin_is_kept() {
    // A point counts as inside up to a factor 10000 / 9999 past the face.
    let b = AxisAlignedBox::from_position_and_extents(v(0, 0, 0), v(10000, 10000, 10000));
    assert!(b.intersect(v(-50000, 10001, 0), v(1, 0, 0)).is_some());
    assert!(b.intersect(v(-50000, 10002, 0), v(1, 0, 0)).is_none());
}

#[test]
fn diagonal_ray_distances_are_exact() {
    let b = AxisAlignedBox::from_position_and_extents(v(10, 0, 0), v(2, 2, 2));
    let hit = b.intersect(v(0, 0, 0), v(3, 0, 0)).unwrap();
    assert_eq!(hit.min, Dist { num: 8, den: 3 });
    assert_eq!(hit.max, Dist { num: 12, den: 3 });
}

#[test]
fn plane_parallel_has_no_hit() {
    let p = Plain { normal: v(0, 0, 1), dist: 5 };
    assert!(p.intersect(v(0, 0, 0), v(1, 0, 0)).is_none());
}

#[test]
fn plane_hit_distance_and_normals() {
    let p = Plain { normal: v(0, 0, 1), dist: 5 };
    let hit = p.intersect(v(0, 0, 0), v(0, 0, 2)).unwrap();
    assert_eq!(hit.min, Dist { num: 5, den: 2 });
    assert_eq!(hit.max, hit.min);
    assert_eq!(hit.in_normal, v(0, 0, 1));
    assert_eq!(hit.out_normal, v(0, 0, -1));
}

#[test]
fn plane_negative_denominator_is_normalised() {
    let p = Plain { normal: v(0, 0, 1), dist: 5 };
    let hit = p.intersect(v(0, 0, 9), v(0, 0, -2)).unwrap();
    assert_eq!(hit.min, Dist { num: 4, den: 2 });
}

#[test]
fn plane_invert_flips_normal() {
    let p = Plain { normal: v(0, 1, 0), dist: 3 }.invert();
    assert_eq!(p.normal, v(0, -1, 0));
    assert_eq!(p.dist, 3);
    let hit = p.intersect(v(0, 0, 0), v(0, 1, 0)).unwrap();
    assert_eq!(hit.min, Dist { num: -3, den: 1 });
}

#[test]
fn box_contains_and_moves() {
    let mut b = unit_box();
    assert!(b.contains(v(1, -1, 0)));
    assert!(!b.contains(v(2, 0, 0)));
    b.translate(v(2, 0, 0));
    assert!(b.contains(v(2, 0, 0)));
    assert_eq!(b.pos, v(2, 0, 0));
    b.scale(v(3, 1, 2));
    assert_eq!(b.extents, v(3, 1, 2));
    assert_eq!(b.pos, v(2, 0, 0));
}

#[test]
fn with_meta_keeps_geometry() {
    let d = IntersectionData::new(
        Dist { num: 1, den: 2 },
        Dist { num: 3, den: 2 },
        v(-1, 0, 0),
        v(1, 0, 0),
        21u32,
    );
    let e = d.with_meta(|m| (m as u64) * 2);
    assert_eq!(e.meta, 42u64);
    assert_eq!(e.min, d.min);
    assert_eq!(e.max, d.max);
    assert_eq!(e.in_normal, d.in_normal);
    assert_eq!(e.out_normal, d.out_normal);
}

#[test]
fn dist_ordering() {
    let a = Dist { num: 1, den: 3 };
    let b = Dist { num: 2, den: 5 };
    assert!(b.is_after(&a));
    assert!(!a.is_after(&b));
    assert!(Dist::whole(2).equals_value(&Dist { num: 6, den: 3 }));
}

#[test]
fn vector_helpers() {
    let a = v(1, -2, 3);
    let b = v(4, 5, -6);
    assert_eq!(a.add(&b), v(5, 3, -3));
    assert_eq!(a.sub(&b), v(-3, -7, 9));
    assert_eq!(a.neg(), v(-1, 2, -3));
    assert_eq!(a.component(0), 1);
    assert_eq!(a.component(1), -2);
    assert_eq!(a.component(2), 3);
}

#[test]
fn ray_through_box_edge_enters_at_nearest_face() {
    // Crosses the +x/+y edge at distance 4 and the -x/-y edge at 6.
    let hit = unit_box().intersect(v(5, 5, 0), v(-1, -1, 0)).unwrap();
    assert_eq!(hit.min, Dist { num: 4, den: 1 });
    assert_eq!(hit.max, Dist { num: 6, den: 1 });
    assert_eq!(hit.in_normal, v(1, 0, 0));
    assert_eq!(hit.out_normal, v(0, -1, 0));
}

#[test]
fn ray_through_box_corner_enters_at_nearest_face() {
    let hit = unit_box().intersect(v(-3, -3, -3), v(1, 1, 1)).unwrap();
    assert_eq!(hit.min, Dist { num: 2, den: 1 });
    assert_eq!(hit.max, Dist { num: 4, den: 1 });
    assert_eq!(hit.in_normal, v(-1, 0, 0));
    assert_eq!(hit.out_normal, v(0, 0, 1));
}

#[test]
fn with_meta_identity_and_composition() {
    let d = IntersectionData::new(
        Dist { num: 1, den: 2 },
        Dist { num: 3, den: 2 },
        v(-1, 0, 0),
        v(1, 0, 0),
        5u32,
    );
    assert_eq!(d.with_meta(|m| m), d);
    let twice = d.with_meta(|m| m + 1).with_meta(|m| m * 3);
    let once = d.with_meta(|m| (m + 1) * 3);
    assert_eq!(twice, once);
    assert_eq!(once.meta, 18);
}

#[test]
fn grazing_edge_uses_two_different_faces() {
    // Touches the -x/+y edge only: both faces are hit at distance 1.
    let hit = unit_box().intersect(v(-2, 0, 0), v(1, 1, 0)).unwrap();
    assert_eq!(hit.min, Dist { num: 1, den: 1 });
    assert_eq!(hit.max, Dist { num: 1, den: 1 });
    assert_eq!(hit.in_normal, v(-1, 0, 0));
    assert_eq!(hit.out_normal, v(0, 1, 0));
}

#[test]
fn records_order_by_entry_distance() {
    let a = IntersectionData::new(
        Dist { num: 1, den: 2 },
        Dist { num: 3, den: 1 },
        v(-1, 0, 0),
        v(1, 0, 0),
        1u32,
    );
    let b = IntersectionData::new(
        Dist { num: 2, den: 3 },
        Dist { num: 1, den: 1 },
        v(0, -1, 0),
        v(0, 1, 0),
        2u32,
    );
    let c = IntersectionData::new(
        Dist { num: 2, den: 4 },
        Dist { num: 9, den: 1 },
        v(0, 0, -1),
        v(0, 0, 1),
        3u32,
    );
    assert!(a < b);
    assert!(b > a);
    assert_eq!(a.partial_cmp(&c), Some(std::cmp::Ordering::Equal));
    assert!(a <= c && a >= c);
}
