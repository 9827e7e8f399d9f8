use graph_geo::geometry::tree::GraphGeo;
use graph_geo::geometry::{quantize, EdgeGeo, Envelope, GraphGeoElement, NodeGeo, COORD_LIMIT};

const ONE: i64 = 1 << 32;

fn pt(x: i64, y: i64) -> NodeGeo {
    NodeGeo { x: x * ONE, y: y * ONE }
}

fn seg(x1: i64, y1: i64, x2: i64, y2: i64) -> EdgeGeo {
    EdgeGeo::new(pt(x1, y1), pt(x2, y2))
}

#[test]
fn test_basic() {
    assert_eq!(2 + 2, 4);
}

#[test]
fn quantize_rounds_to_integer_grid() {
    // 2.5 rounds away from zero to 3, -2.5 to -3, 1.25 to 1.
    let p = NodeGeo { x: 5 * ONE / 2, y: -5 * ONE / 2 };
    assert_eq!(quantize(p, 0), (3 * ONE as i128, -3 * ONE as i128));
    let q = NodeGeo { x: 5 * ONE / 4, y: 0 };
    assert_eq!(quantize(q, 0), (ONE as i128, 0));
}

#[test]
fn quantize_keeps_finer_grid() {
    // At grid power 1 the grid step is one half: 1.25 goes to 1.5 (tie away from zero).
    let q = NodeGeo { x: 5 * ONE / 4, y: 3 * ONE / 4 };
    assert_eq!(quantize(q, 1), (3 * ONE as i128 / 2, ONE as i128));
    // At grid power 32 or more, every bit is kept.
    let r = NodeGeo { x: 12345, y: -777 };
    assert_eq!(quantize(r, 32), (12345, -777));
    assert_eq!(quantize(r, 40), (12345, -777));
}

#[test]
fn quantize_is_idempotent() {
    for &(x, y) in &[(5 * ONE / 2, -7), (ONE / 3, -ONE / 3), (123456789, 987654321)] {
        for g in [-40isize, -3, 0, 1, 5, 31, 32] {
            let (qx, qy) = quantize(NodeGeo { x, y }, g);
            let again = quantize(NodeGeo { x: qx as i64, y: qy as i64 }, g);
            assert_eq!(again, (qx, qy));
        }
    }
}

#[test]
fn segment_intersection_cases() {
    let a = seg(3, 2, 7, 6);
    assert!(a.intersects(&seg(3, 4, 8, 4)));
    assert!(!a.intersects(&seg(9, 2, 11, 5)));
    // Crossing at midpoints, a plus sign.
    assert!(seg(-1, 0, 1, 0).intersects(&seg(0, -1, 0, 1)));
    // Parallel, apart.
    assert!(!seg(0, 0, 10, 0).intersects(&seg(0, 1, 10, 1)));
    // Touching at an endpoint.
    assert!(seg(0, 0, 1, 1).intersects(&seg(1, 1, 2, 0)));
    // Collinear and overlapping, collinear and apart.
    assert!(seg(0, 0, 2, 0).intersects(&seg(1, 0, 3, 0)));
    assert!(!seg(0, 0, 1, 0).intersects(&seg(2, 0, 3, 0)));
    // Boxes overlap but the segments miss.
    assert!(!seg(0, 0, 10, 10).intersects(&seg(6, 0, 10, 3)));
}

#[test]
fn edge_equality_is_by_quantized_endpoints_in_order() {
    let a = seg(0, 0, 10, 10);
    let nudged = EdgeGeo::new(NodeGeo { x: 3, y: -2 }, pt(10, 10));
    assert!(a == nudged);
    assert!(a != seg(10, 10, 0, 0));
    let q = a.quantized_coordinates(0);
    assert_eq!(q, ((0, 0), (10 * ONE as i128, 10 * ONE as i128)));
    let snapped = EdgeGeo::new(NodeGeo { x: ONE / 3, y: 2 * ONE / 3 }, pt(1, 1)).to_grid(0);
    assert!(snapped.start == pt(0, 1) && snapped.end == pt(1, 1));
}

#[test]
fn element_equality_is_by_id() {
    let a = GraphGeoElement::Node(1, pt(0, 0));
    let b = GraphGeoElement::Node(1, pt(5, 5));
    let c = GraphGeoElement::Node(2, pt(0, 0));
    let d = GraphGeoElement::Edge(1, seg(0, 0, 1, 1));
    assert!(a == b);
    assert!(a != c);
    assert!(a != d);
    assert_eq!(a.node_index(), Some(1));
    assert_eq!(d.edge_index(), Some(1));
    assert_eq!(d.node_index(), None);
    let env = d.envelope();
    assert!(env.lower == pt(0, 0) && env.upper == pt(1, 1));
}

#[test]
fn envelope_from_corners_orders_them() {
    let e = Envelope::from_corners(pt(3, -1), pt(-2, 4));
    assert!(e.lower == pt(-2, -1));
    assert!(e.upper == pt(3, 4));
}

#[test]
fn index_replaces_rather_than_appends() {
    let mut g = GraphGeo::new();
    assert!(g.insert_node(7, pt(0, 0)).is_none());
    let old = g.insert_node(7, pt(50, 50));
    assert!(matches!(old, Some(GraphGeoElement::Node(7, p)) if p == pt(0, 0)));
    let around_origin = Envelope::from_corners(pt(-1, -1), pt(1, 1));
    assert!(g.nodes_in_envelope(&around_origin).is_empty());
    let around_new = Envelope::from_corners(pt(49, 49), pt(51, 51));
    let found = g.nodes_in_envelope(&around_new);
    assert_eq!(found.len(), 1);
    assert_eq!(found[0].0, 7);
    assert!(found[0].1 == pt(50, 50));
    assert_eq!(g.counts(), (1, 0));
}

#[test]
fn index_keeps_one_entry_per_id() {
    let mut g = GraphGeo::new();
    let everything = Envelope::from_corners(pt(-100, -100), pt(100, 100));
    for round in 0..5 {
        g.insert_node(1, pt(round, round));
        g.insert_node(2, pt(-round, round));
        g.insert_edge(3, seg(round, 0, 0, round));
        assert_eq!(g.nodes_in_envelope(&everything).len(), 2);
        assert_eq!(g.edges_in_envelope(&everything).len(), 1);
    }
    assert!(g.remove_node(1).is_some());
    assert!(g.remove_node(1).is_none());
    assert!(g.remove_edge(3).is_some());
    assert!(g.remove_edge(3).is_none());
    assert_eq!(g.nodes_in_envelope(&everything).len(), 1);
    assert_eq!(g.edges_in_envelope(&everything).len(), 0);
    assert_eq!(g.counts(), (1, 0));
}

#[test]
fn edge_query_uses_bounding_box_overlap() {
    let mut g = GraphGeo::new();
    g.insert_edge(1, seg(0, 0, 10, 10));
    // A rectangle inside the edge's box but away from the segment still meets the box.
    let inside = Envelope::from_corners(pt(8, 1), pt(9, 2));
    assert_eq!(g.edges_in_envelope(&inside).len(), 1);
    // Corners given in either order span the same rectangle.
    let reversed = Envelope::from_corners(pt(9, 2), pt(8, 1));
    let flipped = Envelope { lower: reversed.upper, upper: reversed.lower };
    assert_eq!(g.edges_in_envelope(&flipped).len(), 1);
    let outside = Envelope::from_corners(pt(11, 11), pt(12, 12));
    assert_eq!(g.edges_in_envelope(&outside).len(), 0);
}

#[test]
fn many_spread_entries_in_one_tree() {
    let mut g = GraphGeo::new();
    let far = 1i64 << 27;
    let mut id: u32 = 0;
    for i in -6i64..6 {
        for j in -6i64..6 {
            g.insert_node(id, pt(i * far / 6, j * far / 6));
            id += 1;
        }
    }
    for k in 0..60u32 {
        let s = k as i64 * far / 60;
        g.insert_edge(k, seg(-s, -far, s, far));
    }
    for k in 0..30u32 {
        g.insert_node(k, pt(far - k as i64, -far + k as i64));
        g.remove_edge(2 * k);
    }
    let everything = Envelope::from_corners(pt(-far, -far), pt(far, far));
    assert_eq!(g.nodes_in_envelope(&everything).len(), 144);
    assert_eq!(g.edges_in_envelope(&everything).len(), 30);
    assert_eq!(g.counts(), (144, 30));
    let corner = Envelope::from_corners(pt(far - 40, -far), pt(far, -far + 40));
    assert_eq!(g.nodes_in_envelope(&corner).len(), 30);
}

#[test]
fn coordinate_range() {
    assert!(NodeGeo { x: COORD_LIMIT, y: -COORD_LIMIT }.in_range());
    assert!(!NodeGeo { x: COORD_LIMIT + 1, y: 0 }.in_range());
    assert!(!NodeGeo { x: 0, y: i64::MIN }.in_range());
}

#[test]
fn degenerate_and_collinear_segments() {
    // A point on a segment, a point off it, and two equal points.
    assert!(seg(2, 2, 2, 2).intersects(&seg(0, 0, 4, 4)));
    assert!(seg(0, 0, 4, 4).intersects(&seg(2, 2, 2, 2)));
    assert!(!seg(2, 3, 2, 3).intersects(&seg(0, 0, 4, 4)));
    assert!(seg(1, 1, 1, 1).intersects(&seg(1, 1, 1, 1)));
    // One collinear segment inside another, in both orders.
    assert!(seg(0, 0, 10, 0).intersects(&seg(3, 0, 4, 0)));
    assert!(seg(3, 0, 4, 0).intersects(&seg(0, 0, 10, 0)));
}

#[test]
fn quantize_with_negative_power() {
    // Grid power -1: whole multiples of 2 units; 3 is a tie and goes to 4.
    let p = NodeGeo { x: 3 * ONE, y: -3 * ONE };
    assert_eq!(quantize(p, -1), (4 * ONE as i128, -4 * ONE as i128));
    let q = NodeGeo { x: 5 * ONE, y: 2 * ONE + 1 };
    assert_eq!(quantize(q, -2), (4 * ONE as i128, 4 * ONE as i128));
    // A step far wider than any coordinate snaps everything to zero.
    assert_eq!(quantize(NodeGeo { x: i64::MAX, y: i64::MIN }, -100), (0, 0));
    // At a step of 2^64 raw units, the smallest i64 is a tie and rounds away.
    assert_eq!(quantize(NodeGeo { x: i64::MAX, y: i64::MIN }, -32), (0, -(1i128 << 64)));
}
