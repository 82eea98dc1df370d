use isotiles::shapes::{
    bounding_box, centre, combine_shapes, fuse_faces, get_containment, obscures, shifted, trim_shape,
    CircleDirection, Containment, Polygonal, Shape, ShapeComponent, ShapePrimitive,
};
use isotiles::vector::{Vec2, Vec3};

fn v(x: i32, y: i32) -> Vec2 {
    Vec2 { x, y }
}

fn rot90(p: Vec2) -> Vec2 {
    Vec2 { x: -p.y, y: p.x }
}

fn gen_square(size: i32) -> ShapePrimitive {
    ShapePrimitive { points: vec![v(size, size), v(-size, size), v(-size, -size), v(size, -size)] }
}

fn gen_45square(size: i32) -> ShapePrimitive {
    ShapePrimitive { points: vec![v(size, 0), v(0, size), v(-size, 0), v(0, -size)] }
}

fn gen_90square(size: i32) -> ShapePrimitive {
    ShapePrimitive { points: vec![v(size, size), v(size, -size), v(-size, -size), v(-size, size)] }
}

fn moved(p: &ShapePrimitive, dx: i32, dy: i32) -> ShapePrimitive {
    ShapePrimitive { points: p.points.iter().map(|q| v(q.x + dx, q.y + dy)).collect() }
}

fn face(points: Vec<Vec2>) -> ShapeComponent {
    ShapeComponent { normal: Vec3 { x: 0, y: 127, z: 0 }, primitives: vec![ShapePrimitive { points }] }
}

#[test]
fn test_combination() {
    // the coordinates in hundredths
    let points = [
        v(-170, 427),
        v(-356, 254),
        v(-246, -380),
        v(59, -136),
        v(265, -74),
        v(50, 189),
        v(100, 425),
        v(489, 215),
        v(441, -296),
    ];
    let s1 = ShapePrimitive { points: points[0..=6].to_vec() };
    let mut s2 = ShapePrimitive { points: points[2..=8].to_vec() };
    s2.points.reverse();

    let result = ShapePrimitive::combine_common_edges(&s1, &s2).unwrap();
    let expected = ShapePrimitive {
        points: vec![v(-246, -380), v(-356, 254), v(-170, 427), v(100, 425), v(489, 215), v(441, -296)],
    };
    assert!(obscures(&result, &expected));
    assert!(obscures(&expected, &result));
}

#[test]
fn test_contains() {
    let shape = gen_square(1);
    // a square contains its centre
    assert!(get_containment(&shape, v(0, 0)) == Containment::Inside);
    // a square contains its boundary
    assert!(get_containment(&shape, v(1, 0)) == Containment::Edge);
    // check opposite boundary, where there exists the possibility of two intersections
    assert!(get_containment(&shape, v(-1, 0)) == Containment::Edge);
    // check points outside the boundaries of the square
    let mut point = v(2, 0);
    for _ in 0..4 {
        assert!(get_containment(&shape, point) == Containment::Outside);
        point = rot90(point);
    }
}

#[test]
fn test_contains_parallel() {
    let shape = gen_square(1);
    // parallel edge cases
    assert!(get_containment(&shape, v(0, 1)) == Containment::Edge);
    assert!(get_containment(&shape, v(0, -1)) == Containment::Edge);
}

#[test]
fn test_contains_corner() {
    // every length doubled, so that the half units become whole
    let shape = gen_45square(2);
    // sanity check
    assert!(get_containment(&shape, v(0, 1)) == Containment::Inside);
    assert!(get_containment(&shape, v(-2, 1)) == Containment::Outside);
    assert!(get_containment(&shape, v(2, 1)) == Containment::Outside);

    // check line intersecting right corner
    assert!(get_containment(&shape, v(0, 0)) == Containment::Inside);
    assert!(get_containment(&shape, v(2, 0)) == Containment::Edge);
    assert!(get_containment(&shape, v(-2, 0)) == Containment::Edge);
    assert!(get_containment(&shape, v(-4, 0)) == Containment::Outside);

    // check line intersecting top corner
    assert!(get_containment(&shape, v(0, 2)) == Containment::Edge);
    assert!(get_containment(&shape, v(-2, 2)) == Containment::Outside);
}

#[test]
fn test_obscures() {
    let inner = gen_45square(1);
    let outer = gen_45square(2);
    assert!(obscures(&outer, &inner));
    assert!(!obscures(&inner, &outer));
}

#[test]
fn test_obscures_self() {
    let shape = gen_square(1);
    let rotated = gen_90square(1);
    assert!(obscures(&shape, &shape));
    assert!(obscures(&shape, &rotated));
    assert!(obscures(&rotated, &shape));
    let shape = gen_45square(1);
    assert!(obscures(&shape, &shape));
}

#[test]
fn test_not_obscures() {
    let a = moved(&gen_45square(1), 2, 0);
    let b = moved(&gen_45square(1), -2, 0);
    assert!(!obscures(&a, &b));
    assert!(!obscures(&b, &a));
}

#[test]
fn test_partial_obscures() {
    let a = moved(&gen_45square(2), 1, 0);
    let b = moved(&gen_45square(2), -1, 0);
    assert!(!obscures(&a, &b));
    assert!(!obscures(&b, &a));
}

#[test]
fn test_orbit_direction() {
    let sq = gen_45square(2);
    assert!(sq.draw_direction() == CircleDirection::CounterClockwise)
}

#[test]
fn clockwise_polygon_is_clockwise() {
    assert!(gen_90square(2).draw_direction() == CircleDirection::Clockwise);
    let flat = ShapePrimitive { points: vec![v(0, 0), v(1, 1), v(2, 2)] };
    assert!(flat.draw_direction() == CircleDirection::Clockwise);
}

#[test]
fn unit_squares_fuse_into_rectangle() {
    let a = ShapePrimitive { points: vec![v(0, 0), v(1, 0), v(1, 1), v(0, 1)] };
    let b = ShapePrimitive { points: vec![v(1, 0), v(2, 0), v(2, 1), v(1, 1)] };
    let fused = a.combine_common_edges(&b).unwrap();
    assert_eq!(fused.points, vec![v(1, 1), v(0, 1), v(0, 0), v(1, 0), v(2, 0), v(2, 1)]);
    let rect = ShapePrimitive { points: vec![v(0, 0), v(2, 0), v(2, 1), v(0, 1)] };
    assert!(obscures(&fused, &rect));
    assert!(obscures(&rect, &fused));
    assert!(obscures(&fused, &a));
    assert!(obscures(&fused, &b));
}

#[test]
fn fusion_of_disjoint_polygons_is_none() {
    let a = gen_square(1);
    let b = moved(&gen_square(1), 10, 0);
    assert!(a.combine_common_edges(&b).is_none());
}

#[test]
fn fusion_with_a_superset_keeps_polygon() {
    let a = ShapePrimitive { points: vec![v(0, 0), v(1, 0), v(1, 1)] };
    let b = ShapePrimitive { points: vec![v(1, 1), v(0, 0), v(5, 5), v(1, 0)] };
    assert_eq!(a.combine_common_edges(&b).unwrap().points, a.points);
}

#[test]
fn enclosure_is_reflexive() {
    let odd = ShapePrimitive { points: vec![v(0, 0), v(7, 1), v(3, 3), v(5, 9), v(-4, 6)] };
    assert!(obscures(&odd, &odd));
    let comp = ShapeComponent {
        normal: Vec3 { x: 0, y: 0, z: 1 },
        primitives: vec![gen_square(3), moved(&gen_45square(2), 20, 20)],
    };
    assert!(obscures(&comp, &comp));
}

#[test]
fn trimming_removes_covered_polygons() {
    let covered = gen_45square(1);
    let visible = moved(&gen_45square(1), 10, 0);
    let shape = Shape::new(vec![ShapeComponent {
        normal: Vec3 { x: 0, y: 0, z: 1 },
        primitives: vec![covered, visible],
    }]);
    let occ = gen_square(2);
    let trimmed = trim_shape(&shape, &occ.copy_rings()).unwrap();
    assert_eq!(trimmed.components.len(), 1);
    assert_eq!(trimmed.components[0].primitives.len(), 1);
    assert_eq!(trimmed.components[0].primitives[0].points[0], v(11, 0));
    // trimming again by the same occluder changes nothing
    let again = trim_shape(&trimmed, &occ.copy_rings()).unwrap();
    assert_eq!(again.components[0].primitives[0].points, trimmed.components[0].primitives[0].points);
}

#[test]
fn removed_stays_removed() {
    let shape = Shape::new(vec![face(vec![v(0, 0), v(1, 0), v(1, 1)])]);
    let occ = gen_square(5);
    assert!(shape.del_if_obscured_by(&occ).is_none());
    let shape = Shape::new(vec![face(vec![v(0, 0), v(1, 0), v(1, 1)])]);
    assert!(shape.del_if_obscured_by(&occ).is_none());
    let prim = ShapePrimitive { points: vec![v(0, 0), v(1, 0), v(9, 9)] };
    let kept = prim.del_if_obscured_by(&occ).unwrap();
    assert_eq!(kept.points, vec![v(0, 0), v(1, 0), v(9, 9)]);
    let comp = face(vec![v(0, 0), v(1, 0), v(1, 1)]);
    assert!(comp.del_if_obscured_by(&occ).is_none());
}

#[test]
fn bounding_box_and_centre() {
    let shape = Shape::new(vec![face(vec![v(-3, 2), v(5, 2), v(5, 9)])]);
    assert_eq!(bounding_box(&shape), Some((-3, 5, 2, 9)));
    // the midpoints round down
    assert_eq!(centre(&shape), Some(v(1, 5)));
    let empty = Shape::new(vec![]);
    assert_eq!(bounding_box(&empty), None);
    let moved_shape = shifted(&shape, 10, -2);
    assert_eq!(moved_shape.components[0].primitives[0].points, vec![v(7, 0), v(15, 0), v(15, 7)]);
}

#[test]
fn fuse_faces_merges_until_a_polygon_stands_alone() {
    let a = ShapePrimitive { points: vec![v(0, 0), v(1, 0), v(1, 1), v(0, 1)] };
    let b = ShapePrimitive { points: vec![v(1, 0), v(2, 0), v(2, 1), v(1, 1)] };
    let far = ShapePrimitive { points: vec![v(10, 10), v(11, 10), v(11, 11)] };
    let mut faces = vec![a, b, far];
    fuse_faces(&mut faces);
    assert_eq!(faces.len(), 2);
    assert_eq!(faces[0].points, vec![v(10, 10), v(11, 10), v(11, 11)]);
    assert_eq!(faces[1].points, vec![v(1, 1), v(0, 1), v(0, 0), v(1, 0), v(2, 0), v(2, 1)]);
}

#[test]
fn combine_shapes_groups_by_normal() {
    let up = Vec3 { x: 0, y: 127, z: 0 };
    let side = Vec3 { x: 127, y: 0, z: 0 };
    let s1 = Shape::new(vec![
        ShapeComponent { normal: up, primitives: vec![ShapePrimitive { points: vec![v(0, 0), v(1, 0), v(1, 1), v(0, 1)] }] },
        ShapeComponent { normal: side, primitives: vec![ShapePrimitive { points: vec![v(5, 5), v(6, 5), v(6, 6)] }] },
    ]);
    let s2 = Shape::new(vec![ShapeComponent {
        normal: up,
        primitives: vec![ShapePrimitive { points: vec![v(1, 0), v(2, 0), v(2, 1), v(1, 1)] }],
    }]);
    let out = combine_shapes(&vec![s1, s2]);
    assert_eq!(out.len(), 2);
    assert_eq!(out[0].components[0].normal, up);
    assert_eq!(out[0].components[0].primitives.len(), 1);
    assert_eq!(
        out[0].components[0].primitives[0].points,
        vec![v(1, 1), v(0, 1), v(0, 0), v(1, 0), v(2, 0), v(2, 1)]
    );
    assert_eq!(out[1].components[0].normal, side);
    assert_eq!(out[1].components[0].primitives[0].points, vec![v(5, 5), v(6, 5), v(6, 6)]);
}

#[test]
fn vertices_strictly_inside_are_kept() {
    let occ = gen_square(10);
    let p = ShapePrimitive { points: vec![v(0, 0), v(10, 0), v(3, 3), v(20, 20), v(-5, 4)] };
    let kept = p.del_whats_obscured_by(&occ).unwrap();
    assert_eq!(kept.points, vec![v(0, 0), v(3, 3), v(-5, 4)]);
    let q = ShapePrimitive { points: vec![v(0, 0), v(10, 0), v(30, 3)] };
    assert!(q.del_whats_obscured_by(&occ).is_none());
}
