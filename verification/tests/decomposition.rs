use convex_decomp::decompose::hertel_mehlhorn;
use convex_decomp::errors::DecompError;
use convex_decomp::geometry::{cross_product, is_convex, point_in_triangle, Point};
use convex_decomp::merge::{find_shared_edge, merge_polygons, reorder_polygon};
use convex_decomp::polygon::{is_polygon_convex, Polygon};
use convex_decomp::shared_edges::{canon_edge, find_shared_edges, Edge};
use convex_decomp::triangulate::triangulate;

fn p(x: i32, y: i32) -> Point {
    Point { x, y }
}

fn poly(coords: &[(i32, i32)]) -> Polygon {
    let pts: Vec<Point> = coords.iter().map(|&(x, y)| p(x, y)).collect();
    Polygon::new(pts)
}

/// Twice the signed area of a closed ring, by the shoelace formula.
fn ring_area2(ring: &[Point]) -> i64 {
    let n = ring.len();
    if n < 2 {
        return 0;
    }
    let mut sum: i64 = 0;
    for i in 0..n - 1 {
        let a = ring[i];
        let b = ring[i + 1];
        sum += a.x as i64 * b.y as i64 - b.x as i64 * a.y as i64;
    }
    sum
}

#[test]
fn test_simple_square_polygon() {
    let polygon = poly(&[(0, 0), (4, 0), (4, 4), (0, 4), (0, 0)]);
    let result = hertel_mehlhorn(&polygon).unwrap();

    assert_eq!(result.len(), 1); // A square is already convex
}

#[test]
fn test_concave_polygon() {
    let polygon = poly(&[
        (0, 0),
        (4, 0),
        (4, 4),
        (2, 2), // Concave point
        (0, 4),
        (0, 0),
    ]);
    let result = hertel_mehlhorn(&polygon).unwrap();

    assert!(result.len() > 1); // Should split into multiple convex polygons
}

#[test]
fn test_triangle_polygon() {
    let polygon = poly(&[(0, 0), (4, 0), (2, 4), (0, 0)]);
    let result = hertel_mehlhorn(&polygon).unwrap();

    assert_eq!(result.len(), 1); // A triangle is already convex
}

#[test]
fn test_shared_edge_detection() {
    let triangles = vec![
        poly(&[(0, 0), (1, 1), (2, 0)]),
        poly(&[(1, 1), (2, 0), (2, 2)]),
    ];
    let shared_edges = find_shared_edges(&triangles);

    assert_eq!(shared_edges.len(), 1); // One shared edge exists
}

#[test]
fn test_convexity_check() {
    let polygon_convex = poly(&[(0, 0), (4, 0), (4, 4), (0, 4), (0, 0)]);
    assert!(is_polygon_convex(&polygon_convex));

    let polygon_concave = poly(&[
        (0, 0),
        (4, 0),
        (4, 4),
        (2, 2), // Concave point
        (0, 4),
        (0, 0),
    ]);
    assert!(!is_polygon_convex(&polygon_concave));
}

#[test]
fn test_shared_edge_record_indices() {
    let triangles = vec![
        poly(&[(0, 0), (1, 1), (2, 0)]),
        poly(&[(1, 1), (2, 0), (2, 2)]),
    ];
    let shared_edges = find_shared_edges(&triangles);

    assert_eq!(shared_edges.len(), 1);
    let (edge, (t1, t2)) = shared_edges[0];
    assert_eq!(edge, canon_edge(p(1, 1), p(2, 0)));
    assert_eq!((t1, t2), (0, 1));
}

#[test]
fn test_cross_product_values() {
    // Left turn of the square's corner: (4-0)*(4-0) - 0 = 16.
    assert_eq!(cross_product(p(0, 0), p(4, 0), p(4, 4)), 16);
    // The mirrored corner turns right.
    assert_eq!(cross_product(p(0, 0), p(0, 4), p(4, 4)), -16);
    // Collinear points.
    assert_eq!(cross_product(p(0, 0), p(1, 1), p(2, 2)), 0);
    assert!(is_convex(p(0, 0), p(4, 0), p(4, 4)));
    assert!(is_convex(p(0, 0), p(1, 1), p(2, 2)));
    assert!(!is_convex(p(0, 0), p(0, 4), p(4, 4)));
}

#[test]
fn test_point_in_triangle_cases() {
    let (a, b, c) = (p(0, 0), p(4, 0), p(0, 4));
    assert!(point_in_triangle(p(1, 1), a, b, c));
    assert!(!point_in_triangle(p(4, 4), a, b, c));
    // Boundary points count as inside.
    assert!(point_in_triangle(p(2, 0), a, b, c));
    assert!(point_in_triangle(a, a, b, c));
}

#[test]
fn test_reorder_polygon_rotation() {
    let coords = vec![p(1, 1), p(2, 2), p(3, 3), p(4, 4)];
    let rotated = reorder_polygon(&coords, 1);
    assert_eq!(rotated, vec![p(3, 3), p(4, 4), p(1, 1), p(2, 2)]);
    let rotated_end = reorder_polygon(&coords, 3);
    assert_eq!(rotated_end, vec![p(1, 1), p(2, 2), p(3, 3), p(4, 4)]);
}

#[test]
fn test_find_shared_edge_positions() {
    let ring = vec![p(0, 4), p(0, 0), p(4, 0), p(0, 4)];
    // The closing step matches in reverse direction.
    assert_eq!(find_shared_edge(&ring, p(0, 4), p(4, 0)), Some(2));
    assert_eq!(find_shared_edge(&ring, p(0, 0), p(0, 4)), Some(0));
    assert_eq!(find_shared_edge(&ring, p(9, 9), p(0, 0)), None);
}

#[test]
fn test_triangulate_square_exact() {
    let polygon = poly(&[(0, 0), (4, 0), (4, 4), (0, 4), (0, 0)]);
    let triangles = triangulate(&polygon).unwrap();
    assert_eq!(triangles.len(), 2);
    // The first clipped ear is the corner (0, 0).
    assert_eq!(triangles[0].ring, vec![p(0, 4), p(0, 0), p(4, 0), p(0, 4)]);
    assert_eq!(triangles[1].ring, vec![p(4, 0), p(4, 4), p(0, 4), p(4, 0)]);
}

#[test]
fn test_merge_square_triangles_exact() {
    let t0 = poly(&[(0, 4), (0, 0), (4, 0), (0, 4)]);
    let t1 = poly(&[(4, 0), (4, 4), (0, 4), (4, 0)]);
    let edge = canon_edge(p(4, 0), p(0, 4));
    let merged = merge_polygons(&t0, &t1, &edge).unwrap();
    assert_eq!(
        merged.ring,
        vec![p(0, 4), p(0, 0), p(4, 0), p(4, 4), p(0, 4)]
    );
    assert!(is_polygon_convex(&merged));
}

#[test]
fn test_merge_edge_not_found() {
    let t0 = poly(&[(0, 4), (0, 0), (4, 0), (0, 4)]);
    let t1 = poly(&[(4, 0), (4, 4), (0, 4), (4, 0)]);
    let edge = Edge {
        a: p(9, 9),
        b: p(10, 10),
    };
    let result = merge_polygons(&t0, &t1, &edge);
    assert!(matches!(result, Err(DecompError::EdgeNotFound)));
}

#[test]
fn test_fatal_one_point_polygon() {
    let polygon = poly(&[(0, 0)]);
    assert!(matches!(
        triangulate(&polygon),
        Err(DecompError::InsufficientVertices)
    ));
    assert!(matches!(
        hertel_mehlhorn(&polygon),
        Err(DecompError::InsufficientVertices)
    ));
}

#[test]
fn test_fatal_two_point_polygon() {
    let polygon = poly(&[(0, 0), (4, 0)]);
    assert!(matches!(
        triangulate(&polygon),
        Err(DecompError::InsufficientVertices)
    ));
    assert!(matches!(
        hertel_mehlhorn(&polygon),
        Err(DecompError::InsufficientVertices)
    ));
}

#[test]
fn test_no_ear_on_clockwise_polygon() {
    // A clockwise square: every turn is reflex, so no ear is ever found.
    let polygon = poly(&[(0, 0), (0, 4), (4, 4), (4, 0), (0, 0)]);
    assert!(matches!(
        hertel_mehlhorn(&polygon),
        Err(DecompError::NoEarFound)
    ));
}

#[test]
fn test_concave_pieces_convex_and_bounded() {
    // Five working vertices: at most 5 - 2 = 3 pieces, at least one.
    let polygon = poly(&[(0, 0), (4, 0), (4, 4), (2, 2), (0, 4), (0, 0)]);
    let result = hertel_mehlhorn(&polygon).unwrap();
    assert!(result.len() >= 1 && result.len() <= 3);
    for piece in &result {
        assert!(is_polygon_convex(piece));
    }
}

#[test]
fn test_area_is_conserved() {
    let inputs: Vec<Vec<(i32, i32)>> = vec![
        vec![(0, 0), (4, 0), (4, 4), (0, 4), (0, 0)],
        vec![(0, 0), (4, 0), (4, 4), (2, 2), (0, 4), (0, 0)],
        vec![(0, 0), (4, 0), (2, 4), (0, 0)],
        vec![(0, 0), (4, 0), (5, 3), (2, 6), (-1, 3), (0, 0)],
    ];
    for coords in inputs {
        let polygon = poly(&coords);
        let input_area = ring_area2(&polygon.ring);
        let result = hertel_mehlhorn(&polygon).unwrap();
        let output_area: i64 = result.iter().map(|piece| ring_area2(&piece.ring)).sum();
        assert_eq!(output_area, input_area);
    }
}

#[test]
fn test_convex_pentagon_single_pass() {
    // The greedy pass merges the first two triangles into a quadrilateral and
    // then skips the second diagonal, whose triangle is already retired: a
    // convex polygon with five vertices comes back in two pieces, not one.
    let polygon = poly(&[(0, 0), (4, 0), (5, 3), (2, 6), (-1, 3), (0, 0)]);
    let result = hertel_mehlhorn(&polygon).unwrap();
    assert_eq!(result.len(), 2);
    for piece in &result {
        assert!(is_polygon_convex(piece));
    }
}

#[test]
fn test_triangle_returned_unchanged() {
    let polygon = poly(&[(0, 0), (4, 0), (2, 4), (0, 0)]);
    let result = hertel_mehlhorn(&polygon).unwrap();
    assert_eq!(result.len(), 1);
    assert_eq!(result[0].ring, vec![p(0, 0), p(4, 0), p(2, 4), p(0, 0)]);
    assert!(is_polygon_convex(&result[0]));
}

#[test]
fn test_polygon_new_closes_ring() {
    let open = poly(&[(0, 0), (4, 0), (2, 4)]);
    assert_eq!(open.ring, vec![p(0, 0), p(4, 0), p(2, 4), p(0, 0)]);
    let closed = poly(&[(0, 0), (4, 0), (2, 4), (0, 0)]);
    assert_eq!(closed.ring, vec![p(0, 0), p(4, 0), p(2, 4), p(0, 0)]);
}

#[test]
fn test_reflex_at_ring_start_detected() {
    // The stored ring starts at its one reflex vertex: the turn there is
    // taken against the real cyclic neighbours, not the closing duplicate.
    let ring = poly(&[(4, 0), (5, 3), (0, 0), (5, -2), (4, 0)]);
    assert!(!is_polygon_convex(&ring));
}

#[test]
fn test_reflex_at_splice_start_rejected() {
    // Splicing this quadrilateral's two triangles re-creates the input with
    // its reflex vertex at ring position 0; the merge must be rejected, so
    // the decomposition keeps two convex triangles of the original area.
    let quad = poly(&[(5, 3), (0, 0), (5, -2), (4, 0), (5, 3)]);
    let input_area = ring_area2(&quad.ring);
    let result = hertel_mehlhorn(&quad).unwrap();
    assert_eq!(result.len(), 2);
    for piece in &result {
        assert!(is_polygon_convex(piece));
    }
    let output_area: i64 = result.iter().map(|piece| ring_area2(&piece.ring)).sum();
    assert_eq!(output_area, input_area);
}

#[test]
fn test_canon_edge_direction_independent() {
    assert_eq!(canon_edge(p(2, 0), p(1, 1)), canon_edge(p(1, 1), p(2, 0)));
    let e = canon_edge(p(2, 0), p(1, 1));
    assert_eq!((e.a, e.b), (p(1, 1), p(2, 0)));
    // Equal x coordinates fall back to comparing y.
    let f = canon_edge(p(3, 5), p(3, 2));
    assert_eq!((f.a, f.b), (p(3, 2), p(3, 5)));
}
