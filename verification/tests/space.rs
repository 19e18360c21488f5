//! Numbers, boxes, cells and hulls.
use dynakit::fixed::Fixed;
use dynakit::geometry::aabb::Aabb;
use dynakit::geometry::direction_hull::{
    build_direction_hull, kdop_directions, normalize_direction, solve_planes, DirectionHull,
    FdhHull, KdopHull, KdopPreset, Plane, Slab,
};
use dynakit::geometry::user_index::GenericAabbIndex;
use dynakit::math::{Pose, Rotation, Vector};
use dynakit::scalar::Real;
use dynakit::spatial_hash::{cell_of, Cell, CellGrid};

fn n(x: f64) -> Fixed {
    Fixed { raw: (x * 4294967296.0) as i64 }
}

fn v(x: f64, y: f64, z: f64) -> Vector<Fixed> {
    Vector { x: n(x), y: n(y), z: n(z) }
}

#[test]
fn fixed_point_arithmetic_truncates_and_saturates() {
    assert_eq!(n(1.5).add(n(2.25)), n(3.75));
    assert_eq!(n(1.5).mul(n(-2.5)), n(-3.75));
    assert_eq!(n(7.5).div(n(2.5)), n(3.0));
    assert_eq!(Fixed::one().div(n(3.0)), Fixed { raw: 1431655765 });
    assert_eq!(n(-1.0).div(n(3.0)), Fixed { raw: -1431655765 });
    assert_eq!(n(2.25).sqrt(), n(1.5));
    assert_eq!(n(3.0).powi(3), n(27.0));
    assert_eq!(n(-2.5).abs(), n(2.5));
    assert_eq!(n(4.0).inv(), n(0.25));
    assert_eq!(Fixed::zero().inv(), Fixed::zero());
    assert_eq!(n(-2.5).floor(), -3);
    assert_eq!(Fixed::decimal(25, 2), n(0.25));
    assert_eq!(Fixed::decimal(-15, 1), n(-1.5));
    assert_eq!(Fixed::from_usize(12), n(12.0));
    assert_eq!(n(2.0e9).mul(n(2.0e9)), Fixed::infinity());
    assert_eq!(n(2.0e9).mul(n(-2.0e9)), Fixed::neg_infinity());
    assert_eq!(n(2.0e9).add(n(2.0e9)), Fixed::infinity());
    assert!(!Fixed::infinity().is_finite() && n(1.0).is_finite());
    assert_eq!(n(1.0).min(n(2.0)), n(1.0));
    assert_eq!(n(1.0).max(n(2.0)), n(2.0));
}

#[test]
fn vectors_and_poses_follow_their_formulas() {
    let a = v(1.0, 2.0, 3.0);
    let b = v(4.0, -5.0, 6.0);
    assert_eq!(a.dot(b), n(12.0));
    assert_eq!(a.cross(b), v(27.0, 6.0, -13.0));
    assert_eq!(v(3.0, 4.0, 0.0).length(), n(5.0));
    assert_eq!(a.lerp(b, n(0.5)), v(2.5, -1.5, 4.5));
    // A half turn about the second axis.
    let turn = Rotation { v: v(0.0, 1.0, 0.0), w: n(0.0) };
    assert_eq!(turn.rotate(a), v(-1.0, 2.0, -3.0));
    let pose = Pose { rotation: turn, translation: v(10.0, 0.0, 0.0) };
    assert_eq!(pose.transform_point(a), v(9.0, 2.0, -3.0));
    assert_eq!(pose.inverse_transform_point(v(9.0, 2.0, -3.0)), a);
    assert_eq!(Rotation::identity().nlerp(Rotation::identity(), n(0.5)), Rotation::identity());
}

fn unit_box(x: f64) -> Aabb<Fixed> {
    Aabb::new(v(x, 0.0, 0.0), v(x + 1.0, 1.0, 1.0))
}

#[test]
fn boxes_meet_where_they_share_a_point() {
    assert!(unit_box(0.0).intersects(unit_box(1.0)));
    assert!(!unit_box(0.0).intersects(unit_box(1.5)));
    let both = unit_box(0.0).union(unit_box(4.0));
    assert_eq!(both, Aabb::new(v(0.0, 0.0, 0.0), v(5.0, 1.0, 1.0)));
    assert!(both.intersects(unit_box(2.5)));
    assert_eq!(both.longest_axis(), 0);
    assert_eq!(both.center_axis(0), n(2.5));
    assert_eq!(both.extent_axis(0), n(5.0));
}

#[test]
fn an_index_finds_exactly_the_boxes_that_meet() {
    let mut index = GenericAabbIndex::new();
    assert!(index.is_empty());
    for id in 1..=40u64 {
        assert!(index.insert(id, unit_box(2.0 * id as f64)));
    }
    assert!(!index.insert(0, unit_box(0.0)));
    assert_eq!(index.len(), 40);
    let wanted = Aabb::new(v(9.5, 0.0, 0.0), v(14.5, 1.0, 1.0));
    assert_eq!(index.query_count(wanted), 3);
    let mut ids = [0u64; 5];
    assert_eq!(index.query(wanted, &mut ids), 3);
    assert_eq!(ids, [5, 6, 7, 0, 0]);
    // Only as many as fit are written.
    let mut two = [0u64; 2];
    assert_eq!(index.query(wanted, &mut two), 2);
    assert_eq!(two, [5, 6]);
    // A number names one box.
    assert!(index.insert(6, unit_box(500.0)));
    assert_eq!(index.len(), 40);
    assert_eq!(index.query_count(wanted), 2);
    assert_eq!(index.query_count(unit_box(500.0)), 1);
    assert!(index.remove(5));
    assert!(!index.remove(5));
    assert!(!index.contains(5) && index.contains(7));
    assert_eq!(index.query_count(wanted), 1);
    index.clear();
    assert!(index.is_empty());
    assert_eq!(index.query_count(wanted), 0);
}

#[test]
fn the_order_of_insertion_does_not_matter_to_a_search() {
    let mut up = GenericAabbIndex::new();
    let mut down = GenericAabbIndex::new();
    for id in 1..=30u64 {
        up.insert(id, unit_box((id % 5) as f64));
        down.insert(31 - id, unit_box(((31 - id) % 5) as f64));
    }
    let everything = Aabb::new(v(-1.0, -1.0, -1.0), v(9.0, 9.0, 9.0));
    let mut first = [0u64; 30];
    let mut second = [0u64; 30];
    assert_eq!(up.query(everything, &mut first), 30);
    assert_eq!(down.query(everything, &mut second), 30);
    assert_eq!(first, second);
}

#[test]
fn cells_hold_what_lies_in_them() {
    assert_eq!(cell_of(v(2.5, -0.5, 0.0), n(1.0)), Cell { x: 2, y: -1, z: 0 });
    let origin = Cell { x: 0, y: 0, z: 0 };
    assert_eq!(origin.neighbour(0), Cell { x: -1, y: -1, z: -1 });
    assert_eq!(origin.neighbour(13), origin);
    assert_eq!(origin.neighbour(26), Cell { x: 1, y: 1, z: 1 });
    let mut grid = CellGrid::new();
    grid.place(origin, 7);
    grid.place(Cell { x: 1, y: 0, z: 0 }, 8);
    grid.place(origin, 9);
    grid.place(Cell { x: 2, y: 0, z: 0 }, 10);
    assert_eq!(grid.items_in(origin), vec![7, 9]);
    assert!(grid.items_in(Cell { x: 5, y: 5, z: 5 }).is_empty());
    assert_eq!(grid.items_around(origin), vec![7, 9, 8]);
    // At the end of the range the block wraps.
    let end = Cell { x: i64::MAX, y: 0, z: 0 };
    assert!(end.at_limit());
    assert_eq!(end.neighbour(26).x, i64::MIN);
}

#[test]
fn close_points_lie_in_cells_that_touch() {
    let size = n(0.75);
    for (p, q) in [
        (v(-0.001, 0.0, 0.0), v(0.749, 0.75, -0.75)),
        (v(2.25, -3.0, 7.5), v(1.5, -2.25, 7.5)),
        (v(-2.0e9, 2.0e9, 0.0), v(-2.0e9, 2.0e9, 0.5)),
    ] {
        let center = cell_of(p, size);
        assert!((0..27).any(|k| center.neighbour(k) == cell_of(q, size)));
        assert!(!center.at_limit());
        let mut grid = CellGrid::new();
        grid.place(cell_of(q, size), 4);
        assert_eq!(grid.items_around(center), vec![4]);
    }
    // Further apart than a cell is long they may be missed.
    assert_eq!(cell_of(Vector { x: Fixed { raw: -1 }, ..v(0.0, 0.0, 0.0) }, n(1.0)).x, -1);
    assert_eq!(cell_of(v(1.0, 0.0, 0.0), n(1.0)).x, 1);
}

#[test]
fn preset_directions_differ_and_begin_with_the_axes() {
    let axes = vec![v(1.0, 0.0, 0.0), v(0.0, 1.0, 0.0), v(0.0, 0.0, 1.0)];
    for preset in [KdopPreset::K6, KdopPreset::K14, KdopPreset::K18, KdopPreset::K26] {
        assert_eq!(kdop_directions::<Fixed>(preset)[..3], axes);
    }
    let all = kdop_directions::<Fixed>(KdopPreset::K26);
    let times = |a: Fixed, b: Fixed| a.raw as i128 * b.raw as i128;
    for i in 0..13 {
        for j in 0..i {
            let (u, w) = (all[i], all[j]);
            assert!(
                times(u.y, w.z) != times(u.z, w.y)
                    || times(u.z, w.x) != times(u.x, w.z)
                    || times(u.x, w.y) != times(u.y, w.x)
            );
        }
    }
}

#[test]
fn presets_have_half_as_many_directions_as_faces() {
    assert_eq!(kdop_directions::<Fixed>(KdopPreset::K6).len(), 3);
    assert_eq!(kdop_directions::<Fixed>(KdopPreset::K14).len(), 7);
    assert_eq!(kdop_directions::<Fixed>(KdopPreset::K18).len(), 9);
    let all = kdop_directions::<Fixed>(KdopPreset::K26);
    assert_eq!(all.len(), 13);
    assert_eq!(all[1], v(0.0, 1.0, 0.0));
    assert_eq!(normalize_direction(v(0.0, 0.0, 8.0)), Some(v(0.0, 0.0, 1.0)));
    assert_eq!(normalize_direction::<Fixed>(Vector::zero()), None);
}

#[test]
fn presets_nest_and_their_directions_have_length_one() {
    let six = kdop_directions::<Fixed>(KdopPreset::K6);
    let fourteen = kdop_directions::<Fixed>(KdopPreset::K14);
    let eighteen = kdop_directions::<Fixed>(KdopPreset::K18);
    let all = kdop_directions::<Fixed>(KdopPreset::K26);
    assert_eq!(six, fourteen[..3]);
    assert_eq!(fourteen, eighteen[..7]);
    assert_eq!(eighteen, all[..9]);
    for d in &all {
        let off = d.length().raw - Fixed::one().raw;
        assert!((-3..=0).contains(&off), "off by {off}");
    }
    assert_eq!(all[3].x.raw, 2_479_700_524);
    assert_eq!(all[8].y.raw, -3_037_000_500);
}

#[test]
fn three_planes_meet_in_a_point() {
    let plane = |normal: Vector<Fixed>, offset: f64| Plane { normal, offset: n(offset) };
    let x = plane(v(1.0, 0.0, 0.0), 2.0);
    let y = plane(v(0.0, 1.0, 0.0), 3.0);
    let z = plane(v(0.0, 0.0, 1.0), -4.0);
    assert_eq!(solve_planes(x, y, z), Some(v(2.0, 3.0, -4.0)));
    assert_eq!(solve_planes(x, x, z), None);
    let slab = Slab { normal: v(1.0, 0.0, 0.0), min: n(0.0), max: n(1.0) };
    assert!(slab.holds(v(1.0, 7.0, 7.0)));
    assert!(!slab.holds(v(1.5, 0.0, 0.0)));
}

#[test]
fn a_box_hull_has_the_corners_of_the_box() {
    let points = [v(0.0, 0.0, 0.0), v(2.0, 1.0, 0.0), v(1.0, 3.0, 1.0), v(0.5, 0.5, 4.0)];
    let hull = KdopHull { directions: kdop_directions(KdopPreset::K6) };
    let corners = hull.build(&points).unwrap();
    assert_eq!(corners.len(), 8);
    for x in [0.0, 2.0] {
        for y in [0.0, 3.0] {
            for z in [0.0, 4.0] {
                assert!(corners.contains(&v(x, y, z)));
            }
        }
    }
    // The hull holds the points.
    for p in points {
        for (k, d) in kdop_directions(KdopPreset::K6).into_iter().enumerate() {
            let slab = Slab { normal: d, min: n(0.0), max: n([2.0, 3.0, 4.0][k]) };
            assert!(slab.holds(p));
        }
    }
    let kept = kdop_directions(KdopPreset::K6);
    let shared = FdhHull { directions: &kept };
    assert_eq!(shared.directions().len(), 3);
    assert_eq!(shared.build(&points), Some(corners));
    assert_eq!(build_direction_hull(&points[..3], &kept), None);
    assert_eq!(build_direction_hull(&points, &kept[..2]), None);
    assert_eq!(build_direction_hull(&points, &[Vector::zero(); 5]), None);
}
