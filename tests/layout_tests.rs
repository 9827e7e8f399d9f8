use graph_geo::geometry::{EdgeGeo, Envelope, NodeGeo};
use graph_geo::intersections::edge_intersects_edges;
use graph_geo::layout::GraphLayout;

const ONE: i64 = 1 << 32;

fn pt(x: i64, y: i64) -> NodeGeo {
    NodeGeo { x: x * ONE, y: y * ONE }
}

fn crossing_pair() -> (GraphLayout, [u32; 4], u32, u32) {
    let mut l = GraphLayout::new();
    let a = l.add_node(Some(pt(0, 0))).unwrap();
    let b = l.add_node(Some(pt(10, 10))).unwrap();
    let c = l.add_node(Some(pt(0, 10))).unwrap();
    let d = l.add_node(Some(pt(10, 0))).unwrap();
    let ab = l.add_edge(a, b).unwrap();
    let cd = l.add_edge(c, d).unwrap();
    (l, [a, b, c, d], ab, cd)
}

#[test]
fn crossing_counts_and_move_apart() {
    let (mut l, [_, _, _, d], ab, cd) = crossing_pair();
    assert_eq!(l.count_edge_intersections(ab), 1);
    assert_eq!(l.count_edge_intersections(cd), 1);
    assert_eq!(l.count_edges_intersections(), 2);
    assert_eq!(l.count_graph_intersections(), 1);
    l.set_node_geo(d, pt(10, 20));
    assert_eq!(l.count_edge_intersections(ab), 0);
    assert_eq!(l.count_edges_intersections(), 0);
    assert_eq!(l.count_graph_intersections(), 0);
}

#[test]
fn region_query_finds_only_the_origin_node() {
    let mut l = GraphLayout::new();
    let a = l.add_node(Some(pt(0, 0))).unwrap();
    let b = l.add_node(Some(pt(10, 10))).unwrap();
    let c = l.add_node(Some(pt(20, 10))).unwrap();
    l.add_edge(b, c).unwrap();
    let rect = Envelope::from_corners(pt(-1, -1), pt(1, 1));
    let (nodes, edges) = l.query_region(&rect);
    assert_eq!(nodes.len(), 1);
    assert_eq!(nodes[0].0, a);
    assert!(nodes[0].1 == pt(0, 0));
    assert_eq!(edges.len(), 0);
    assert_eq!(l.inside_box(2 * ONE), vec![1, 0]);
    assert_eq!(l.inside_box(-2 * ONE), vec![1, 0]);
    assert_eq!(l.inside_box(100 * ONE), vec![3, 1]);
}

#[test]
fn moving_a_node_refreshes_its_edges() {
    let mut l = GraphLayout::new();
    let a = l.add_node(Some(pt(0, 0))).unwrap();
    let b = l.add_node(Some(pt(2, 0))).unwrap();
    let c = l.add_node(Some(pt(0, 2))).unwrap();
    let ab = l.add_edge(a, b).unwrap();
    let ca = l.add_edge(c, a).unwrap();
    let far = Envelope::from_corners(pt(49, 49), pt(51, 51));
    assert_eq!(l.query_region(&far).1.len(), 0);
    l.set_node_geo(a, pt(50, 50));
    let (nodes, edges) = l.query_region(&far);
    assert_eq!(nodes.len(), 1);
    let mut ids: Vec<u32> = edges.iter().map(|e| e.0).collect();
    ids.sort();
    let mut want = vec![ab, ca];
    want.sort();
    assert_eq!(ids, want);
    let g = l.edge_geo(ab).unwrap();
    assert!(g.start == pt(50, 50) && g.end == pt(2, 0));
    let h = l.edge_geo(ca).unwrap();
    assert!(h.start == pt(0, 2) && h.end == pt(50, 50));
    let near = Envelope::from_corners(pt(-1, -1), pt(1, 1));
    assert_eq!(l.query_region(&near).1.len(), 0);
}

#[test]
fn plus_sign_and_parallel_segments_agree() {
    let mut l = GraphLayout::new();
    let p: Vec<u32> = [(-1, 0), (1, 0), (0, -1), (0, 1), (5, 0), (9, 0), (5, 1), (9, 1)]
        .iter()
        .map(|&(x, y)| l.add_node(Some(pt(x, y))).unwrap())
        .collect();
    let h = l.add_edge(p[0], p[1]).unwrap();
    let v = l.add_edge(p[2], p[3]).unwrap();
    let low = l.add_edge(p[4], p[5]).unwrap();
    let high = l.add_edge(p[6], p[7]).unwrap();
    assert_eq!(l.count_edge_intersections(h), 1);
    assert_eq!(l.count_edge_intersections(v), 1);
    assert_eq!(l.count_edge_intersections(low), 0);
    assert_eq!(l.count_edge_intersections(high), 0);
    let per_edge: usize = [h, v, low, high].iter().map(|&e| l.count_edge_intersections(e)).sum();
    assert_eq!(per_edge as u64, 2 * l.count_graph_intersections());
    assert_eq!(l.count_edges_intersections(), 2);
}

#[test]
fn an_edge_never_crosses_itself() {
    let (l, _, ab, _) = crossing_pair();
    let g = l.edge_geo(ab).unwrap();
    let found = edge_intersects_edges(g, vec![(ab, g)]);
    assert!(found.is_empty());
    let other = EdgeGeo::new(pt(0, 10), pt(10, 0));
    let found = edge_intersects_edges(g, vec![(ab, g), (9, other)]);
    assert_eq!(found.len(), 1);
    assert_eq!(found[0].0, 9);
}

#[test]
fn unpositioned_nodes_leave_edges_unindexed() {
    let mut l = GraphLayout::new();
    let a = l.add_node(Some(pt(0, 0))).unwrap();
    let b = l.add_node(None).unwrap();
    let e = l.add_edge(a, b).unwrap();
    assert!(l.node_geo(b).is_none());
    assert!(l.edge_geo(e).is_none());
    assert_eq!(l.tree_facts(), (1, 0));
    l.set_node_geo(b, pt(3, 4));
    let g = l.edge_geo(e).unwrap();
    assert!(g.start == pt(0, 0) && g.end == pt(3, 4));
    assert_eq!(l.tree_facts(), (2, 1));
    assert_eq!(l.edges_geo().len(), 1);
}

#[test]
fn removals_take_geometry_out() {
    let (mut l, [a, b, c, d], ab, cd) = crossing_pair();
    assert!(l.remove_node(a));
    assert!(!l.remove_node(a));
    assert!(l.node_geo(a).is_none());
    assert!(l.edge_geo(ab).is_none());
    assert!(!l.edge_ids().contains(&ab));
    assert_eq!(l.tree_facts(), (3, 1));
    assert_eq!(l.count_edge_intersections(cd), 0);
    assert!(l.remove_edge(cd));
    assert!(!l.remove_edge(cd));
    assert_eq!(l.tree_facts(), (3, 0));
    let mut nodes = l.node_ids();
    nodes.sort();
    let mut want = vec![b, c, d];
    want.sort();
    assert_eq!(nodes, want);
}

#[test]
fn edges_need_existing_nodes() {
    let mut l = GraphLayout::new();
    let a = l.add_node(Some(pt(0, 0))).unwrap();
    assert!(l.add_edge(a, a + 100).is_none());
    assert!(l.edge_ids().is_empty());
    assert!(l.set_node_geo(a + 100, pt(1, 1)) == ());
    assert!(l.node_geo(a + 100).is_none());
    let b = l.add_node(None).unwrap();
    assert_ne!(a, b);
}
