use billiards::billiards::{
    Flavor, InnerBilliardsState, OuterBilliardsState, PolygonalInnerBilliards,
    PolygonalOuterBilliards,
};
use billiards::geometry::{AffinePoint, BilliardsError, Heading, HyperPoint, Line, Ray};
use billiards::polygon::Polygon;
use billiards::rat::Rat;
use billiards::table::PolygonTable;

fn rat(n: i64, d: i64) -> Rat {
    Rat::new(n, d).unwrap()
}

fn pt(xn: i64, xd: i64, yn: i64, yd: i64) -> AffinePoint {
    AffinePoint { x: rat(xn, xd), y: rat(yn, yd) }
}

fn ipt(x: i64, y: i64) -> AffinePoint {
    pt(x, 1, y, 1)
}

fn unit_square() -> PolygonTable {
    PolygonTable::new(vec![ipt(0, 0), ipt(1, 0), ipt(1, 1), ipt(0, 1)]).unwrap()
}

#[test]
fn rat_values_and_reduction() {
    assert!(rat(2, 4).eq_val(&rat(1, 2)));
    assert!(rat(-3, -6).eq_val(&rat(1, 2)));
    assert!(rat(1, 2).lt(&rat(2, 3)));
    assert!(rat(1, 2).le(&rat(1, 2)));
    assert!(Rat::new(1, 0).is_none());
    let sum = rat(1, 6).add(rat(1, 3)).unwrap();
    assert!(sum.eq_val(&rat(1, 2)));
    let prod = rat(2, 3).mul(rat(3, 4)).unwrap();
    assert!(prod.eq_val(&rat(1, 2)));
    let quot = rat(1, 2).div(rat(-1, 4)).unwrap();
    assert!(quot.eq_val(&rat(-2, 1)));
    assert!(rat(1, 2).div(Rat::from_int(0)).is_none());
}

#[test]
fn rat_floor_is_floor() {
    assert_eq!(rat(7, 2).floor(), 3);
    assert_eq!(rat(-3, 2).floor(), -2);
    assert_eq!(rat(-4, 2).floor(), -2);
    assert_eq!(Rat::from_int(5).floor(), 5);
}

#[test]
fn polygon_needs_three_vertices() {
    let p = Polygon::new(vec![ipt(0, 0), ipt(1, 0), ipt(0, 1)]).unwrap();
    assert_eq!(p.vertices.len(), 3);
    let e = Polygon::new(vec![ipt(0, 0), ipt(1, 0)]).unwrap_err();
    assert_eq!(e, BilliardsError::InvalidTableError);
}

#[test]
fn table_rejects_short_and_degenerate_input() {
    let e = PolygonTable::new(vec![ipt(0, 0), ipt(1, 0)]).unwrap_err();
    assert_eq!(e, BilliardsError::InvalidTableError);
    let e2 = PolygonTable::new(vec![ipt(0, 0), ipt(0, 0), ipt(1, 1)]).unwrap_err();
    assert_eq!(e2, BilliardsError::DegenerateGeometryError);
}

#[test]
fn unit_square_edge_lengths_are_exact() {
    let t = unit_square();
    assert!(t.perimeter.eq_val(&rat(4, 1)));
    for l in &t.lengths {
        assert!(l.eq_val(&rat(1, 1)));
    }
}

#[test]
fn perimeter_is_sum_of_edge_lengths() {
    // A 3-4-5 right triangle: every edge length is exactly representable.
    let t = PolygonTable::new(vec![ipt(0, 0), ipt(3, 0), ipt(3, 4)]).unwrap();
    let mut sum = Rat::from_int(0);
    for l in &t.lengths {
        sum = sum.add(*l).unwrap();
    }
    assert!(sum.eq_val(&t.perimeter));
    assert!(t.perimeter.eq_val(&rat(12, 1)));
}

#[test]
fn point_of_time_walks_the_boundary() {
    let t = unit_square();
    assert!(t.point(&rat(0, 1)).unwrap().eq_pt(&ipt(0, 0)));
    assert!(t.point(&rat(1, 8)).unwrap().eq_pt(&pt(1, 2, 0, 1)));
    assert!(t.point(&rat(1, 4)).unwrap().eq_pt(&ipt(1, 0)));
    assert!(t.point(&rat(1, 2)).unwrap().eq_pt(&ipt(1, 1)));
    assert!(t.point(&rat(7, 8)).unwrap().eq_pt(&pt(0, 1, 1, 2)));
}

#[test]
fn point_is_periodic_in_time() {
    let t = unit_square();
    for (n, d) in [(0i64, 1i64), (3, 8), (1, 2), (7, 8)] {
        let a = t.point(&rat(n, d)).unwrap();
        let b = t.point(&rat(n, d).add(Rat::from_int(1)).unwrap()).unwrap();
        let c = t.point(&rat(n, d).sub(Rat::from_int(1)).unwrap()).unwrap();
        assert!(a.eq_pt(&b));
        assert!(a.eq_pt(&c));
    }
}

#[test]
fn tangent_heading_follows_the_edges() {
    let t = unit_square();
    let h0 = t.tangent_heading(&rat(1, 8)).unwrap();
    assert!(h0.dx.eq_val(&rat(1, 1)) && h0.dy.eq_val(&rat(0, 1)));
    let h2 = t.tangent_heading(&rat(1, 2)).unwrap();
    assert!(h2.dx.eq_val(&rat(-1, 1)) && h2.dy.eq_val(&rat(0, 1)));
}

#[test]
fn chord_end_finds_first_forward_hit() {
    let t = unit_square();
    // From the midpoint of the bottom edge straight up: hits the top edge
    // at its midpoint, time 5/8.
    let up = Heading { dx: Rat::from_int(0), dy: Rat::from_int(1) };
    let (t2, h2) = t.chord_end(&rat(1, 8), &up).unwrap();
    assert!(t2.eq_val(&rat(5, 8)));
    assert!(h2.dy.eq_val(&rat(1, 1)));
    assert!(t.point(&t2).unwrap().eq_pt(&pt(1, 2, 1, 1)));
}

#[test]
fn diagonal_orbit_reaches_the_corner() {
    // Inner billiards, Regular flavor, unit square, from the origin along
    // the diagonal: one step ends at the opposite corner.
    let engine = PolygonalInnerBilliards::new(unit_square(), Flavor::Regular);
    let start = InnerBilliardsState {
        start_time: rat(0, 1),
        heading: Heading { dx: Rat::from_int(1), dy: Rat::from_int(1) },
    };
    let pts = engine.iterate(start, 1).unwrap();
    assert_eq!(pts.len(), 2);
    assert!(pts[0].eq_pt(&ipt(0, 0)));
    assert!(pts[1].eq_pt(&ipt(1, 1)));
    // A further reflection from the exact corner sends the orbit out of the
    // table: the chord cast finds no forward intersection and the step
    // fails, which iterate surfaces.
    let e = engine.iterate(start, 2).unwrap_err();
    assert_eq!(e, BilliardsError::NoIntersectionError);
}

#[test]
fn reflection_law_on_a_flat_wall() {
    // Incident (1, -1) against the horizontal tangent (1, 0) reflects to a
    // direction parallel to (1, 1): angle in equals angle out.
    let d = Heading { dx: Rat::from_int(1), dy: Rat::from_int(-1) };
    let u = Heading { dx: Rat::from_int(1), dy: Rat::from_int(0) };
    let r = billiards::geometry::reflect(&d, &u).unwrap();
    // dot(u, u) == 1 here, so the scaled form is the classical one.
    assert!(r.dx.eq_val(&rat(1, 1)));
    assert!(r.dy.eq_val(&rat(1, 1)));
    let zero_u = Heading { dx: Rat::from_int(0), dy: Rat::from_int(0) };
    assert_eq!(
        billiards::geometry::reflect(&d, &zero_u).unwrap_err(),
        BilliardsError::DegenerateGeometryError,
    );
}

#[test]
fn symplectic_step_uses_the_original_start() {
    let engine = PolygonalInnerBilliards { table: unit_square(), flavor: Flavor::Symplectic };
    let start = InnerBilliardsState {
        start_time: rat(0, 1),
        heading: Heading { dx: Rat::from_int(1), dy: Rat::from_int(1) },
    };
    let s2 = engine.next_state(&start).unwrap();
    // The first chord ends at the far corner (time 1/2); the new heading
    // points from the original start to the second chord's end.
    assert!(s2.start_time.eq_val(&rat(1, 2)));
    assert!(s2.heading.dx.eq_val(&s2.heading.dy));
}

#[test]
fn outer_square_orbit_inverts_through_tangent_vertex() {
    // Outer billiards, Regular flavor, unit square, starting at (2, 0):
    // the next point is the reflection of (2, 0) through the right tangent
    // vertex (1, 1), namely (0, 2).
    let engine = PolygonalOuterBilliards::new(unit_square());
    let start = OuterBilliardsState { point: ipt(2, 0) };
    let s2 = engine.next_state(&start).unwrap();
    assert!(s2.point.eq_pt(&ipt(0, 2)));
    let w = engine.table.right_tangent_point(&ipt(2, 0)).unwrap();
    assert!(w.eq_pt(&ipt(1, 1)));
    let mirrored = w.invert(&ipt(2, 0)).unwrap();
    assert!(mirrored.eq_pt(&s2.point));
}

#[test]
fn outer_iterate_zero_steps_returns_start_unmodified() {
    let engine = PolygonalOuterBilliards { table: unit_square() };
    let start = OuterBilliardsState { point: ipt(2, 0) };
    let pts = engine.iterate(start, 0).unwrap();
    assert_eq!(pts.len(), 1);
    assert_eq!(pts[0], ipt(2, 0));
    let engine_in = PolygonalInnerBilliards { table: unit_square(), flavor: Flavor::Regular };
    let start_in = InnerBilliardsState {
        start_time: rat(1, 8),
        heading: Heading { dx: Rat::from_int(0), dy: Rat::from_int(1) },
    };
    let pts_in = engine_in.iterate(start_in, 0).unwrap();
    assert_eq!(pts_in.len(), 1);
    assert!(pts_in[0].eq_pt(&pt(1, 2, 0, 1)));
}

#[test]
fn tangent_query_fails_from_inside() {
    let t = unit_square();
    let e = t.right_tangent_point(&pt(1, 2, 1, 2)).unwrap_err();
    assert_eq!(e, BilliardsError::NoTangentError);
    let e2 = t.left_tangent_point(&pt(1, 2, 1, 2)).unwrap_err();
    assert_eq!(e2, BilliardsError::NoTangentError);
}

#[test]
fn degenerate_line_and_ray_construction_fail() {
    let p = pt(3, 7, -2, 5);
    let e = Line::from_two_points(p, p).unwrap_err();
    assert_eq!(e, BilliardsError::DegenerateGeometryError);
    let e2 = Ray::from_two_points(p, pt(6, 14, -4, 10)).unwrap_err();
    assert_eq!(e2, BilliardsError::DegenerateGeometryError);
    assert!(Line::from_two_points(p, ipt(1, 1)).is_ok());
}

#[test]
fn line_intersection_meets_both_lines() {
    let l1 = Line::from_two_points(ipt(0, 0), ipt(2, 2)).unwrap();
    let l2 = Line::from_two_points(ipt(0, 2), ipt(2, 0)).unwrap();
    let q = l1.intersect(&l2).unwrap();
    assert!(q.eq_pt(&ipt(1, 1)));
    let l3 = Line::from_two_points(ipt(0, 1), ipt(2, 3)).unwrap();
    assert_eq!(l1.intersect(&l3).unwrap_err(), BilliardsError::NoIntersectionError);
}

#[test]
fn ray_point_along_moves_in_direction_units() {
    let r = Ray::from_two_points(ipt(1, 1), ipt(2, 3)).unwrap();
    let q = r.point_along(&rat(1, 2)).unwrap();
    assert!(q.eq_pt(&pt(3, 2, 2, 1)));
}

#[test]
fn poincare_round_trip_and_domain() {
    let p = pt(1, 2, 1, 4);
    let h = HyperPoint::from_poincare(p).unwrap();
    assert_eq!(h.poincare_coordinate(), p);
    // |p|^2 = 5/16, so the Klein chart is p scaled by 2 / (21/16) = 32/21.
    let k = h.klein_coordinate();
    assert!(k.eq_pt(&pt(16, 21, 8, 21)));
    let outside = HyperPoint::from_poincare(ipt(2, 0)).unwrap_err();
    assert_eq!(outside, BilliardsError::DomainError);
    // The unit circle itself is still in the closed disk.
    let rim = HyperPoint::from_poincare(ipt(1, 0)).unwrap();
    assert!(rim.klein_coordinate().eq_pt(&ipt(1, 0)));
}

#[test]
fn origin_has_klein_origin() {
    let h = HyperPoint::from_poincare(ipt(0, 0)).unwrap();
    assert!(h.klein_coordinate().eq_pt(&ipt(0, 0)));
}
