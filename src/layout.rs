//! The graph session: petgraph's graph for topology, the geometry index for
//! positions and segments, and the rules that keep the two in step.
use crate::geometry::tree::{GraphGeo, GraphGeoView};
use crate::geometry::{
    corners_envelope, edge_envelope_spec, overlap_spec, point_envelope_spec, EdgeGeo, Envelope,
    NodeGeo,
};
use petgraph::graph::{EdgeIndex, NodeIndex};
use petgraph::stable_graph::StableGraph;
use petgraph::visit::EdgeRef;
use petgraph::Undirected;
use vstd::prelude::*;

verus! {

broadcast use vstd::std_specs::hash::group_hash_axioms;

#[verifier::external_type_specification]
#[verifier::external_body]
#[verifier::reject_recursive_types(N)]
#[verifier::reject_recursive_types(E)]
#[verifier::reject_recursive_types(Ty)]
#[verifier::reject_recursive_types(Ix)]
pub struct ExStableGraph<N, E, Ty, Ix>(StableGraph<N, E, Ty, Ix>);

#[verifier::external_type_specification]
#[verifier::external_body]
pub struct ExUndirected(Undirected);

/// The graph that a session lays out: undirected, with `u32` indices.
pub type Topology = StableGraph<(), (), Undirected, u32>;

/// The nodes of a graph, by index.
pub uninterp spec fn graph_nodes(g: Topology) -> Set<u32>;

/// The edges of a graph, by index, with their two endpoints.
pub uninterp spec fn graph_edges(g: Topology) -> Map<u32, (u32, u32)>;

/// Relies on StableGraph::default: a graph with no node and no edge.
#[verifier::external_body]
fn graph_new() -> (r: Topology)
    ensures
        graph_nodes(r) == Set::<u32>::empty(),
        graph_edges(r).dom() == Set::<u32>::empty(),
{
    StableGraph::default()
}

/// Relies on StableGraph::try_add_node: on success a node index that was not
/// in use joins the graph; on failure the nodes stay as they were. Edges are
/// untouched either way. It fails only when every index below `u32::MAX` is
/// taken by a node (a freed index is always reused first).
#[verifier::external_body]
fn graph_add_node(g: &mut Topology) -> (r: Option<u32>)
    ensures
        graph_nodes(*old(g)).finite() && graph_nodes(*old(g)).len() < u32::MAX ==> r is Some,
        graph_edges(*final(g)) == graph_edges(*old(g)),
        match r {
            Some(n) => !graph_nodes(*old(g)).contains(n) && graph_nodes(*final(g)) == graph_nodes(
                *old(g),
            ).insert(n),
            None => graph_nodes(*final(g)) == graph_nodes(*old(g)),
        },
{
    g.try_add_node(()).ok().map(|n| n.index() as u32)
}

/// Relies on StableGraph::contains_node.
#[verifier::external_body]
fn graph_contains_node(g: &Topology, n: u32) -> (r: bool)
    ensures
        r == graph_nodes(*g).contains(n),
{
    g.contains_node(NodeIndex::new(n as usize))
}

/// Relies on StableGraph::try_add_edge, between two nodes of the graph: on
/// success an edge index that was not in use joins with endpoints `(a, b)`;
/// on failure nothing changes. It fails only when every index below
/// `u32::MAX` is taken by an edge (a freed index is always reused first).
#[verifier::external_body]
fn graph_add_edge(g: &mut Topology, a: u32, b: u32) -> (r: Option<
    u32,
>)
    requires
        graph_nodes(*old(g)).contains(a),
        graph_nodes(*old(g)).contains(b),
    ensures
        graph_edges(*old(g)).dom().finite() && graph_edges(*old(g)).len() < u32::MAX ==> r is Some,
        graph_nodes(*final(g)) == graph_nodes(*old(g)),
        match r {
            Some(e) => !graph_edges(*old(g)).contains_key(e) && graph_edges(*final(g))
                == graph_edges(*old(g)).insert(e, (a, b)),
            None => graph_edges(*final(g)) == graph_edges(*old(g)),
        },
{
    let r = g.try_add_edge(NodeIndex::new(a as usize), NodeIndex::new(b as usize), ());
    r.ok().map(|e| e.index() as u32)
}

/// The edges of `edges` that have `n` as neither endpoint.
pub open spec fn edges_without(edges: Map<u32, (u32, u32)>, n: u32) -> Map<u32, (u32, u32)> {
    edges.restrict(Set::new(|e: u32| edges[e].0 != n && edges[e].1 != n))
}

/// Relies on StableGraph::remove_node: the node leaves together with every
/// edge that has it as an endpoint; an index that is not a node changes
/// nothing.
#[verifier::external_body]
fn graph_remove_node(g: &mut Topology, n: u32) -> (r: bool)
    ensures
        r == graph_nodes(*old(g)).contains(n),
        graph_nodes(*final(g)) == graph_nodes(*old(g)).remove(n),
        graph_edges(*final(g)) == if r {
            edges_without(graph_edges(*old(g)), n)
        } else {
            graph_edges(*old(g))
        },
{
    g.remove_node(NodeIndex::new(n as usize)).is_some()
}

/// Relies on StableGraph::remove_edge: the edge leaves, if it is there.
#[verifier::external_body]
fn graph_remove_edge(g: &mut Topology, e: u32) -> (r: bool)
    ensures
        r == graph_edges(*old(g)).contains_key(e),
        graph_nodes(*final(g)) == graph_nodes(*old(g)),
        graph_edges(*final(g)) == graph_edges(*old(g)).remove(e),
{
    g.remove_edge(EdgeIndex::new(e as usize)).is_some()
}

/// Relies on StableGraph::edge_endpoints: the endpoints of an edge, in the
/// order they were given.
#[verifier::external_body]
fn graph_edge_endpoints(g: &Topology, e: u32) -> (r: Option<(u32, u32)>)
    ensures
        r == (if graph_edges(*g).contains_key(e) {
            Some(graph_edges(*g)[e])
        } else {
            None
        }),
{
    g.edge_endpoints(EdgeIndex::new(e as usize)).map(|(a, b)| (a.index() as u32, b.index() as u32))
}

/// Relies on StableGraph::edges on an undirected graph: the edges that have
/// node `n` as an endpoint (none when `n` is no node).
#[verifier::external_body]
fn graph_incident_edges(g: &Topology, n: u32) -> (r: Vec<u32>)
    ensures
        forall|e: u32| #[trigger]
            r@.contains(e) ==> graph_edges(*g).contains_key(e) && (graph_edges(*g)[e].0 == n
                || graph_edges(*g)[e].1 == n),
        graph_nodes(*g).contains(n) ==> forall|e: u32| #[trigger]
            graph_edges(*g).contains_key(e) && (graph_edges(*g)[e].0 == n || graph_edges(*g)[e].1
                == n) ==> r@.contains(e),
{
    g.edges(NodeIndex::new(n as usize)).map(|r| r.id().index() as u32).collect()
}

/// Relies on StableGraph::edge_indices: every edge index once, in
/// ascending order.
#[verifier::external_body]
fn graph_edge_ids(g: &Topology) -> (r: Vec<u32>)
    ensures
        r@.no_duplicates(),
        forall|i: int, j: int| 0 <= i < j < r.len() ==> r@[i] < r@[j],
        forall|e: u32| #[trigger] r@.contains(e) <==> graph_edges(*g).contains_key(e),
{
    g.edge_indices().map(|e| e.index() as u32).collect()
}

/// Relies on StableGraph::node_indices: every node index once.
#[verifier::external_body]
fn graph_node_ids(g: &Topology) -> (r: Vec<u32>)
    ensures
        r@.no_duplicates(),
        forall|n: u32| #[trigger] r@.contains(n) <==> graph_nodes(*g).contains(n),
{
    g.node_indices().map(|n| n.index() as u32).collect()
}

/// The segment an edge has when its endpoints sit at `positions`, for each
/// edge of `edges` whose two endpoints both have a position.
pub open spec fn segments_of(edges: Map<u32, (u32, u32)>, positions: Map<u32, NodeGeo>) -> Map<
    u32,
    EdgeGeo,
> {
    Map::new(
        |e: u32|
            edges.contains_key(e) && positions.contains_key(edges[e].0) && positions.contains_key(
                edges[e].1,
            ),
        |e: u32| EdgeGeo { start: positions[edges[e].0], end: positions[edges[e].1] },
    )
}

/// Moving a node refreshes every edge at it: in a consistent session, each
/// edge whose endpoints both have positions is indexed with the segment
/// between their current positions, so the edges at node `idx` follow it to
/// `pos`.
pub proof fn lemma_edges_follow_node(
    before: GraphLayoutView,
    after: &GraphLayout,
    idx: u32,
    pos: NodeGeo,
)
    requires
        after.wf(),
        after@.edges == before.edges,
        after@.positions == before.positions.insert(idx, pos),
    ensures
        forall|e: u32| #[trigger]
            after@.edges.contains_key(e) && after@.edges[e].0 == idx && after@.positions.contains_key(
                after@.edges[e].1,
            ) ==> after.geo().edges.contains_key(e) && after.geo().edges[e].start == pos
                && after.geo().edges[e].end == after@.positions[after@.edges[e].1],
        forall|e: u32| #[trigger]
            after@.edges.contains_key(e) && after@.edges[e].1 == idx && after@.positions.contains_key(
                after@.edges[e].0,
            ) ==> after.geo().edges.contains_key(e) && after.geo().edges[e].end == pos
                && after.geo().edges[e].start == after@.positions[after@.edges[e].0],
{
}

/// The nodes positioned within `q`, borders included.
pub open spec fn nodes_within(positions: Map<u32, NodeGeo>, q: Envelope) -> Set<u32> {
    positions.dom().filter(|n: u32| overlap_spec(point_envelope_spec(positions[n]), q))
}

/// The edges whose bounding box meets `q`.
pub open spec fn edges_meeting(segments: Map<u32, EdgeGeo>, q: Envelope) -> Set<u32> {
    segments.dom().filter(|e: u32| overlap_spec(edge_envelope_spec(segments[e]), q))
}

/// Half the side of a square of side `size` (raw fixed-point units), rounded
/// toward zero; a negative side counts as its absolute value.
pub open spec fn half_side(size: i64) -> int {
    (if size < 0 {
        -size
    } else {
        size as int
    }) / 2
}

/// The square of side `size` centred on the origin.
pub open spec fn centred_box(size: i64) -> Envelope {
    let h = half_side(size);
    Envelope {
        lower: NodeGeo { x: (-h) as i64, y: (-h) as i64 },
        upper: NodeGeo { x: h as i64, y: h as i64 },
    }
}

/// `r` lists the segments of `segs` once each, in ascending edge index.
pub open spec fn in_index_order(r: Seq<EdgeGeo>, segs: Map<u32, EdgeGeo>) -> bool {
    exists|ids: Seq<u32>|
        #![trigger ids.to_set()]
        ids.len() == r.len() && (forall|a: int, b: int| 0 <= a < b < ids.len() ==> ids[a] < ids[b])
            && ids.to_set() == segs.dom() && (forall|k: int|
            0 <= k < r.len() ==> r[k] == segs[ids[k]])
}

/// What a session holds: its graph and the positions of its nodes.
pub ghost struct GraphLayoutView {
    pub nodes: Set<u32>,
    pub edges: Map<u32, (u32, u32)>,
    pub positions: Map<u32, NodeGeo>,
}

/// A graph with positions and the geometry index that mirrors it.
pub struct GraphLayout {
    pub(crate) graph: Topology,
    pub(crate) graph_geo: GraphGeo,
}

impl View for GraphLayout {
    type V = GraphLayoutView;

    closed spec fn view(&self) -> GraphLayoutView {
        GraphLayoutView {
            nodes: graph_nodes(self.graph),
            edges: graph_edges(self.graph),
            positions: self.graph_geo@.nodes,
        }
    }
}

impl GraphLayout {
    /// What the geometry index holds.
    pub closed spec fn geo(&self) -> GraphGeoView {
        self.graph_geo@
    }

    /// The session is consistent: the index is, every edge joins two nodes,
    /// only nodes have positions, and the index holds, for exactly the edges
    /// whose endpoints both have positions, the segment between them.
    pub open spec fn wf(&self) -> bool {
        &&& self.geo_wf()
        &&& forall|e: u32| #[trigger]
            self@.edges.contains_key(e) ==> self@.nodes.contains(self@.edges[e].0)
                && self@.nodes.contains(self@.edges[e].1)
        &&& forall|n: u32| #[trigger] self@.positions.contains_key(n) ==> self@.nodes.contains(n)
        &&& forall|n: u32| #[trigger] self@.positions.contains_key(n) ==> self@.positions[n].wf()
        &&& self@.nodes.finite()
        &&& self@.edges.dom().finite()
        &&& self.geo().nodes == self@.positions
        &&& self.geo().edges == segments_of(self@.edges, self@.positions)
    }

    pub closed spec fn geo_wf(&self) -> bool {
        self.graph_geo.wf()
    }

    pub(crate) proof fn lemma_geo_wf(&self)
        requires
            self.geo_wf(),
        ensures
            self.graph_geo.wf(),
            self.graph_geo@ == self.geo(),
    {
    }

    pub fn new() -> (r: GraphLayout)
        ensures
            r.wf(),
            r@.nodes == Set::<u32>::empty(),
            r@.edges == Map::<u32, (u32, u32)>::empty(),
            r@.positions == Map::<u32, NodeGeo>::empty(),
    {
        let r = GraphLayout { graph: graph_new(), graph_geo: GraphGeo::new() };
        assert(r.geo().edges =~= segments_of(r@.edges, r@.positions));
        r
    }

    /// The position of node `idx`, if it has one.
    pub fn node_geo(&self, idx: u32) -> (r: Option<NodeGeo>)
        requires
            self.wf(),
        ensures
            r == (if self@.positions.contains_key(idx) {
                Some(self@.positions[idx])
            } else {
                None
            }),
    {
        self.graph_geo.node_geo(idx)
    }

    /// The segment of edge `idx`: from its first endpoint's position to its
    /// second's, when both have one.
    pub fn edge_geo(&self, idx: u32) -> (r: Option<EdgeGeo>)
        requires
            self.wf(),
        ensures
            r == (if segments_of(self@.edges, self@.positions).contains_key(idx) {
                Some(segments_of(self@.edges, self@.positions)[idx])
            } else {
                None
            }),
    {
        match graph_edge_endpoints(&self.graph, idx) {
            Some((a, b)) => match (self.node_geo(a), self.node_geo(b)) {
                (Some(pa), Some(pb)) => Some(EdgeGeo::new(pa, pb)),
                _ => None,
            },
            None => None,
        }
    }

    /// Adds a node, at `position` when one is given; returns its index, or
    /// `None` when the graph has no index left.
    pub fn add_node(&mut self, position: Option<NodeGeo>) -> (r: Option<u32>)
        requires
            old(self).wf(),
            position matches Some(p) ==> p.wf(),
        ensures
            final(self).wf(),
            old(self)@.nodes.len() < u32::MAX ==> r is Some,
            final(self)@.edges == old(self)@.edges,
            match r {
                Some(n) => {
                    &&& !old(self)@.nodes.contains(n)
                    &&& final(self)@.nodes == old(self)@.nodes.insert(n)
                    &&& final(self)@.positions == match position {
                        Some(p) => old(self)@.positions.insert(n, p),
                        None => old(self)@.positions,
                    }
                },
                None => final(self)@ == old(self)@,
            },
    {
        let r = graph_add_node(&mut self.graph);
        match (r, position) {
            (Some(n), Some(p)) => {
                self.graph_geo.insert_node(n, p);
                proof {
                    assert(self.geo().edges =~= segments_of(self@.edges, self@.positions));
                }
            },
            _ => {},
        }
        r
    }

    /// Moves node `idx` to `position` and refreshes the segment of every edge
    /// at it. An index that is no node changes nothing.
    pub fn set_node_geo(&mut self, idx: u32, position: NodeGeo)
        requires
            old(self).wf(),
            position.wf(),
        ensures
            final(self).wf(),
            final(self)@.nodes == old(self)@.nodes,
            final(self)@.edges == old(self)@.edges,
            final(self)@.positions == if old(self)@.nodes.contains(idx) {
                old(self)@.positions.insert(idx, position)
            } else {
                old(self)@.positions
            },
    {
        if !graph_contains_node(&self.graph, idx) {
            return;
        }
        self.graph_geo.insert_node(idx, position);
        self.update_graph_geo_tree_for_node(idx);
    }

    /// Recomputes the segment of each edge at node `idx` from the current
    /// positions: an edge whose endpoints both have a position gets its new
    /// segment, any other edge leaves the index.
    fn update_graph_geo_tree_for_node(&mut self, idx: u32)
        requires
            old(self).geo_wf(),
            old(self)@.nodes.contains(idx),
            forall|e: u32| #[trigger]
                old(self)@.edges.contains_key(e) ==> old(self)@.nodes.contains(old(self)@.edges[e].0)
                    && old(self)@.nodes.contains(old(self)@.edges[e].1),
            forall|n: u32| #[trigger]
                old(self)@.positions.contains_key(n) ==> old(self)@.nodes.contains(n),
            forall|n: u32| #[trigger]
                old(self)@.positions.contains_key(n) ==> old(self)@.positions[n].wf(),
            old(self)@.nodes.finite(),
            old(self)@.edges.dom().finite(),
            old(self).geo().nodes == old(self)@.positions,
            forall|e: u32|
                segments_of(old(self)@.edges, old(self)@.positions).contains_key(e) && old(
                    self,
                )@.edges[e].0 != idx && old(self)@.edges[e].1 != idx ==> #[trigger] old(
                    self,
                ).geo().edges.contains_key(e) && old(self).geo().edges[e] == segments_of(
                    old(self)@.edges,
                    old(self)@.positions,
                )[e],
            forall|e: u32| #[trigger]
                old(self).geo().edges.contains_key(e) ==> old(self)@.edges.contains_key(e),
            forall|e: u32| #[trigger]
                old(self).geo().edges.contains_key(e) && old(self)@.edges[e].0 != idx && old(
                    self,
                )@.edges[e].1 != idx ==> segments_of(old(self)@.edges, old(self)@.positions).contains_key(e),
        ensures
            final(self).wf(),
            final(self)@ == old(self)@,
    {
        let incident = graph_incident_edges(&self.graph, idx);
        let mut i: usize = 0;
        while i < incident.len()
            invariant
                self.geo_wf(),
                self@ == old(self)@,
                self.geo().nodes == self@.positions,
                0 <= i <= incident.len(),
                forall|e: u32| #[trigger]
                    incident@.contains(e) ==> self@.edges.contains_key(e) && (self@.edges[e].0
                        == idx || self@.edges[e].1 == idx),
                forall|e: u32| #[trigger]
                    self@.edges.contains_key(e) && (self@.edges[e].0 == idx || self@.edges[e].1
                        == idx) ==> incident@.contains(e),
                forall|e: u32|
                    (self@.edges.contains_key(e) && self@.edges[e].0 != idx && self@.edges[e].1
                        != idx) || incident@.subrange(0, i as int).contains(e) ==> (
                    #[trigger] self.geo().edges.contains_key(e) == segments_of(
                        self@.edges,
                        self@.positions,
                    ).contains_key(e) && (self.geo().edges.contains_key(e) ==> self.geo().edges[e]
                        == segments_of(self@.edges, self@.positions)[e])),
                forall|e: u32| #[trigger]
                    self.geo().edges.contains_key(e) ==> self@.edges.contains_key(e),
            decreases incident.len() - i,
        {
            let e = incident[i];
            proof {
                assert(incident@.contains(e));
            }
            match self.edge_geo_of(e) {
                Some(g) => {
                    self.graph_geo.insert_edge(e, g);
                },
                None => {
                    self.graph_geo.remove_edge(e);
                },
            }
            proof {
                assert forall|f: u32|
                    (self@.edges.contains_key(f) && self@.edges[f].0 != idx && self@.edges[f].1
                        != idx) || incident@.subrange(0, i + 1).contains(f) implies (
                    #[trigger] self.geo().edges.contains_key(f) == segments_of(
                        self@.edges,
                        self@.positions,
                    ).contains_key(f) && (self.geo().edges.contains_key(f) ==> self.geo().edges[f]
                        == segments_of(self@.edges, self@.positions)[f])) by {
                    if f != e && incident@.subrange(0, i + 1).contains(f) {
                        let k = choose|k: int|
                            0 <= k < i + 1 && #[trigger] incident@.subrange(0, i + 1)[k] == f;
                        assert(incident@.subrange(0, i as int)[k] == f);
                    }
                }
            }
            i = i + 1;
        }
        proof {
            assert(incident@.subrange(0, incident.len() as int) == incident@);
            assert(self.geo().edges =~= segments_of(self@.edges, self@.positions));
        }
    }

    /// The segment of edge `idx` from the index's own positions.
    fn edge_geo_of(&self, idx: u32) -> (r: Option<EdgeGeo>)
        requires
            self.geo().nodes == self@.positions,
        ensures
            r == (if segments_of(self@.edges, self@.positions).contains_key(idx) {
                Some(segments_of(self@.edges, self@.positions)[idx])
            } else {
                None
            }),
    {
        match graph_edge_endpoints(&self.graph, idx) {
            Some((a, b)) => match (self.graph_geo.node_geo(a), self.graph_geo.node_geo(b)) {
                (Some(pa), Some(pb)) => Some(EdgeGeo::new(pa, pb)),
                _ => None,
            },
            None => None,
        }
    }

    /// Adds an edge between nodes `a` and `b` and indexes its segment when
    /// both have a position. `None` when `a` or `b` is no node, or when the
    /// graph has no edge index left.
    pub fn add_edge(&mut self, a: u32, b: u32) -> (r: Option<u32>)
        requires
            old(self).wf(),
        ensures
            final(self).wf(),
            final(self)@.nodes == old(self)@.nodes,
            final(self)@.positions == old(self)@.positions,
            !(old(self)@.nodes.contains(a) && old(self)@.nodes.contains(b)) ==> r is None,
            old(self)@.nodes.contains(a) && old(self)@.nodes.contains(b) && old(self)@.edges.len()
                < u32::MAX ==> r is Some,
            match r {
                Some(e) => !old(self)@.edges.contains_key(e) && final(self)@.edges == old(
                    self,
                )@.edges.insert(e, (a, b)),
                None => final(self)@ == old(self)@,
            },
    {
        if !graph_contains_node(&self.graph, a) || !graph_contains_node(&self.graph, b) {
            return None;
        }
        let r = graph_add_edge(&mut self.graph, a, b);
        match r {
            Some(e) => {
                match self.edge_geo_of(e) {
                    Some(g) => {
                        self.graph_geo.insert_edge(e, g);
                    },
                    None => {},
                }
                proof {
                    assert(self.geo().edges =~= segments_of(self@.edges, self@.positions));
                }
            },
            None => {},
        }
        r
    }

    /// Removes edge `idx` from the graph and from the index; `false` when it
    /// is no edge.
    pub fn remove_edge(&mut self, idx: u32) -> (r: bool)
        requires
            old(self).wf(),
        ensures
            final(self).wf(),
            r == old(self)@.edges.contains_key(idx),
            final(self)@.nodes == old(self)@.nodes,
            final(self)@.positions == old(self)@.positions,
            final(self)@.edges == old(self)@.edges.remove(idx),
    {
        let r = graph_remove_edge(&mut self.graph, idx);
        self.graph_geo.remove_edge(idx);
        proof {
            assert(self.geo().edges =~= segments_of(self@.edges, self@.positions));
        }
        r
    }

    /// Removes node `idx`, every edge at it, and their geometry; `false` when
    /// it is no node.
    pub fn remove_node(&mut self, idx: u32) -> (r: bool)
        requires
            old(self).wf(),
        ensures
            final(self).wf(),
            r == old(self)@.nodes.contains(idx),
            final(self)@.nodes == old(self)@.nodes.remove(idx),
            final(self)@.edges == edges_without(old(self)@.edges, idx),
            final(self)@.positions == old(self)@.positions.remove(idx),
    {
        let incident = graph_incident_edges(&self.graph, idx);
        let mut i: usize = 0;
        while i < incident.len()
            invariant
                self.geo_wf(),
                self@ == old(self)@,
                self.geo().nodes == self@.positions,
                0 <= i <= incident.len(),
                forall|e: u32| #[trigger]
                    incident@.contains(e) ==> self@.edges.contains_key(e) && (self@.edges[e].0
                        == idx || self@.edges[e].1 == idx),
                forall|e: u32| #[trigger]
                    self.geo().edges.contains_key(e) <==> segments_of(
                        self@.edges,
                        self@.positions,
                    ).contains_key(e) && !incident@.subrange(0, i as int).contains(e),
                forall|e: u32| #[trigger]
                    self.geo().edges.contains_key(e) ==> self.geo().edges[e] == segments_of(
                        self@.edges,
                        self@.positions,
                    )[e],
            decreases incident.len() - i,
        {
            let e = incident[i];
            self.graph_geo.remove_edge(e);
            proof {
                assert forall|f: u32| #[trigger]
                    self.geo().edges.contains_key(f) <==> segments_of(
                        self@.edges,
                        self@.positions,
                    ).contains_key(f) && !incident@.subrange(0, i + 1).contains(f) by {
                    if incident@.subrange(0, i + 1).contains(f) && f != e {
                        let k = choose|k: int|
                            0 <= k < i + 1 && #[trigger] incident@.subrange(0, i + 1)[k] == f;
                        assert(incident@.subrange(0, i as int)[k] == f);
                    }
                    if incident@.subrange(0, i as int).contains(f) {
                        let k = choose|k: int| 0 <= k < i && #[trigger] incident@.subrange(0, i as int)[k] == f;
                        assert(incident@.subrange(0, i + 1)[k] == f);
                    }
                    assert(incident@.subrange(0, i + 1)[i as int] == e);
                }
            }
            i = i + 1;
        }
        self.graph_geo.remove_node(idx);
        let r = graph_remove_node(&mut self.graph, idx);
        proof {
            vstd::set_lib::lemma_len_subset(self@.edges.dom(), old(self)@.edges.dom());
            assert(incident@.subrange(0, incident.len() as int) == incident@);
            if r {
                assert(self.geo().edges =~= segments_of(self@.edges, self@.positions));
            } else {
                assert(old(self)@.positions.remove(idx) =~= old(self)@.positions);
                assert(self.geo().edges =~= segments_of(self@.edges, self@.positions));
            }
        }
        r
    }

    /// Each edge that has a segment, once, with its segment, in ascending
    /// edge index.
    pub(crate) fn indexed_edge_list(&self) -> (r: Vec<(u32, EdgeGeo)>)
        requires
            self.wf(),
        ensures
            forall|a: int, b: int| 0 <= a < b < r.len() ==> r@[a].0 < r@[b].0,
            forall|a: int, b: int|
                0 <= a < r.len() && 0 <= b < r.len() && a != b ==> #[trigger] r@[a].0
                    != #[trigger] r@[b].0,
            forall|k: int|
                0 <= k < r.len() ==> segments_of(self@.edges, self@.positions).contains_key(
                    #[trigger] r@[k].0,
                ) && segments_of(self@.edges, self@.positions)[r@[k].0] == r@[k].1,
            forall|e: u32|
                segments_of(self@.edges, self@.positions).contains_key(e) ==> exists|k: int|
                    0 <= k < r.len() && #[trigger] r@[k].0 == e,
    {
        let ids = self.edge_ids();
        let mut out: Vec<(u32, EdgeGeo)> = Vec::new();
        let ghost mut src: Seq<int> = Seq::empty();
        let mut i: usize = 0;
        while i < ids.len()
            invariant
                self.wf(),
                ids@.no_duplicates(),
                forall|a: int, b: int| 0 <= a < b < ids.len() ==> ids@[a] < ids@[b],
                forall|e: u32| #[trigger] ids@.contains(e) <==> self@.edges.contains_key(e),
                0 <= i <= ids.len(),
                src.len() == out.len(),
                forall|k: int|
                    0 <= k < out.len() ==> 0 <= #[trigger] src[k] < i && ids@[src[k]] == out@[k].0,
                forall|a: int, b: int|
                    0 <= a < out.len() && 0 <= b < out.len() && a < b ==> src[a] < src[b],
                forall|k: int|
                    0 <= k < out.len() ==> segments_of(self@.edges, self@.positions).contains_key(
                        #[trigger] out@[k].0,
                    ) && segments_of(self@.edges, self@.positions)[out@[k].0] == out@[k].1,
                forall|j: int|
                    0 <= j < i && segments_of(self@.edges, self@.positions).contains_key(
                        #[trigger] ids@[j],
                    ) ==> exists|k: int| 0 <= k < out.len() && #[trigger] out@[k].0 == ids@[j],
            decreases ids.len() - i,
        {
            let e = ids[i];
            match self.edge_geo(e) {
                Some(g) => {
                    let ghost before = out@;
                    out.push((e, g));
                    proof {
                        src = src.push(i as int);
                        assert forall|j: int|
                            0 <= j < i + 1 && segments_of(self@.edges, self@.positions).contains_key(
                                #[trigger] ids@[j],
                            ) implies exists|k: int| 0 <= k < out.len() && #[trigger] out@[k].0 == ids@[j] by {
                            if j == i {
                                assert(out@[out.len() - 1].0 == ids@[j]);
                            } else {
                                let k = choose|k: int| 0 <= k < before.len() && #[trigger] before[k].0 == ids@[j];
                                assert(out@[k].0 == ids@[j]);
                            }
                        }
                    }
                },
                None => {},
            }
            i = i + 1;
        }
        proof {
            assert forall|a: int, b: int|
                0 <= a < out.len() && 0 <= b < out.len() && a != b implies #[trigger] out@[a].0
                != #[trigger] out@[b].0 by {
                assert(src[a] != src[b]);
            }
            assert forall|a: int, b: int| 0 <= a < b < out.len() implies out@[a].0 < out@[b].0 by {
                assert(src[a] < src[b]);
            }
            assert forall|e: u32|
                segments_of(self@.edges, self@.positions).contains_key(e) implies exists|k: int|
                0 <= k < out.len() && #[trigger] out@[k].0 == e by {
                assert(ids@.contains(e));
                let j = choose|j: int| 0 <= j < ids.len() && ids@[j] == e;
            }
        }
        out
    }

    /// Where an edge with a segment stands in a list of all of them.
    pub(crate) proof fn lemma_listed(&self, list: Seq<(u32, EdgeGeo)>, e: u32) -> (k: int)
        requires
            segments_of(self@.edges, self@.positions).contains_key(e),
            forall|e: u32|
                segments_of(self@.edges, self@.positions).contains_key(e) ==> exists|k: int|
                    0 <= k < list.len() && #[trigger] list[k].0 == e,
        ensures
            0 <= k < list.len(),
            list[k].0 == e,
    {
        choose|k: int| 0 <= k < list.len() && #[trigger] list[k].0 == e
    }

    /// Every edge of the graph, once, in ascending order.
    pub fn edge_ids(&self) -> (r: Vec<u32>)
        ensures
            r@.no_duplicates(),
            forall|i: int, j: int| 0 <= i < j < r.len() ==> r@[i] < r@[j],
            forall|e: u32| #[trigger] r@.contains(e) <==> self@.edges.contains_key(e),
    {
        graph_edge_ids(&self.graph)
    }

    /// Every node of the graph, once.
    pub fn node_ids(&self) -> (r: Vec<u32>)
        ensures
            r@.no_duplicates(),
            forall|n: u32| #[trigger] r@.contains(n) <==> self@.nodes.contains(n),
    {
        graph_node_ids(&self.graph)
    }

    /// The nodes and the edges found in the rectangle spanned by the two
    /// corners of `rect`: each node positioned inside, with its position, and
    /// each edge whose bounding box meets it, with its segment; each once.
    pub fn query_region(&self, rect: &Envelope) -> (r: (Vec<(u32, NodeGeo)>, Vec<(u32, EdgeGeo)>))
        requires
            self.wf(),
        ensures
            r.0@.no_duplicates(),
            forall|id: u32, p: NodeGeo| #[trigger]
                r.0@.contains((id, p)) <==> (self@.positions.contains_key(id)
                    && self@.positions[id] == p && overlap_spec(
                    point_envelope_spec(p),
                    corners_envelope(rect.lower, rect.upper),
                )),
            forall|k1: int, k2: int|
                0 <= k1 < r.1.len() && 0 <= k2 < r.1.len() && k1 != k2 ==> #[trigger] r.1@[k1].0
                    != #[trigger] r.1@[k2].0,
            forall|k: int|
                0 <= k < r.1.len() ==> segments_of(self@.edges, self@.positions).contains_key(
                    #[trigger] r.1@[k].0,
                ) && segments_of(self@.edges, self@.positions)[r.1@[k].0] == r.1@[k].1,
            forall|id: u32|
                (exists|k: int| 0 <= k < r.1.len() && #[trigger] r.1@[k].0 == id) <==> (
                segments_of(self@.edges, self@.positions).contains_key(id) && overlap_spec(
                    edge_envelope_spec(#[trigger] segments_of(self@.edges, self@.positions)[id]),
                    corners_envelope(rect.lower, rect.upper),
                )),
    {
        let nodes = self.graph_geo.nodes_in_envelope(rect);
        let edges = self.graph_geo.edges_in_envelope(rect);
        let r = (nodes, edges);
        proof {
            let segs = segments_of(self@.edges, self@.positions);
            assert(self.graph_geo@.edges == segs);
            assert forall|id: u32|
                (exists|k: int| 0 <= k < r.1.len() && #[trigger] r.1@[k].0 == id) <==> (
                segs.contains_key(id) && overlap_spec(
                    edge_envelope_spec(#[trigger] segs[id]),
                    corners_envelope(rect.lower, rect.upper),
                )) by {
                if segs.contains_key(id) {
                    assert(self.graph_geo@.edges[id] == segs[id]);
                }
                if exists|k: int| 0 <= k < r.1.len() && #[trigger] r.1@[k].0 == id {
                    let k = choose|k: int| 0 <= k < r.1.len() && #[trigger] r.1@[k].0 == id;
                    assert(self.graph_geo@.edges.contains_key(r.1@[k].0));
                }
            }
        }
        r
    }

    /// How many nodes, then how many edges, the square of side `size`
    /// centred on the origin holds (edges: whose bounding box meets it).
    pub fn inside_box(&self, size: i64) -> (r: Vec<usize>)
        requires
            self.wf(),
        ensures
            r@ == seq![
                nodes_within(self@.positions, centred_box(size)).len() as usize,
                edges_meeting(segments_of(self@.edges, self@.positions), centred_box(size)).len() as usize,
            ],
            r@[0] as int == nodes_within(self@.positions, centred_box(size)).len(),
            r@[1] as int == edges_meeting(segments_of(self@.edges, self@.positions), centred_box(size)).len(),
    {
        let magnitude: i128 = if size < 0 {
            -(size as i128)
        } else {
            size as i128
        };
        let half = (magnitude / 2) as i64;
        let rect = Envelope {
            lower: NodeGeo { x: -half, y: -half },
            upper: NodeGeo { x: half, y: half },
        };
        let (nodes, edges) = self.query_region(&rect);
        proof {
            let q = centred_box(size);
            assert(corners_envelope(rect.lower, rect.upper) == q);
            let nids = nodes@.map_values(|c: (u32, NodeGeo)| c.0);
            assert forall|a: int, b: int| 0 <= a < nids.len() && 0 <= b < nids.len() && a != b implies nids[a]
                != nids[b] by {
                assert(nodes@.contains((nodes@[a].0, nodes@[a].1)));
                assert(nodes@.contains((nodes@[b].0, nodes@[b].1)));
                assert(nodes@[a] != nodes@[b]);
            }
            assert forall|x: u32| #[trigger] nids.contains(x) <==> nodes_within(self@.positions, q).contains(x) by {
                if nids.contains(x) {
                    let k = choose|k: int| 0 <= k < nids.len() && nids[k] == x;
                    assert(nodes@.contains((nodes@[k].0, nodes@[k].1)));
                }
                if nodes_within(self@.positions, q).contains(x) {
                    assert(nodes@.contains((x, self@.positions[x])));
                    let k = choose|k: int| 0 <= k < nodes.len() && nodes@[k] == (x, self@.positions[x]);
                    assert(nids[k] == x);
                }
            }
            nids.unique_seq_to_set();
            assert(nids.to_set() =~= nodes_within(self@.positions, q));
            let eids = edges@.map_values(|c: (u32, EdgeGeo)| c.0);
            let segs = segments_of(self@.edges, self@.positions);
            assert forall|a: int, b: int| 0 <= a < eids.len() && 0 <= b < eids.len() && a != b implies eids[a]
                != eids[b] by {
                assert(edges@[a].0 != edges@[b].0);
            }
            assert forall|x: u32| #[trigger] eids.contains(x) <==> edges_meeting(segs, q).contains(x) by {
                if eids.contains(x) {
                    let k = choose|k: int| 0 <= k < eids.len() && eids[k] == x;
                    assert(edges@[k].0 == x);
                }
                if edges_meeting(segs, q).contains(x) {
                    assert(overlap_spec(edge_envelope_spec(segs[x]), q));
                    let k = choose|k: int| 0 <= k < edges.len() && #[trigger] edges@[k].0 == x;
                    assert(eids[k] == x);
                }
            }
            eids.unique_seq_to_set();
            assert(eids.to_set() =~= edges_meeting(segs, q));
        }
        let mut r: Vec<usize> = Vec::new();
        r.push(nodes.len());
        r.push(edges.len());
        r
    }

    /// The segment of every edge that has one.
    pub fn edges_geo(&self) -> (r: Vec<EdgeGeo>)
        requires
            self.wf(),
        ensures
            in_index_order(r@, segments_of(self@.edges, self@.positions)),
            r.len() == segments_of(self@.edges, self@.positions).len(),
            forall|g: EdgeGeo| #[trigger]
                r@.contains(g) <==> segments_of(self@.edges, self@.positions).values().contains(g),
    {
        let list = self.indexed_edge_list();
        let mut out: Vec<EdgeGeo> = Vec::new();
        let mut i: usize = 0;
        while i < list.len()
            invariant
                0 <= i <= list.len(),
                out.len() == i,
                forall|k: int| 0 <= k < i ==> #[trigger] out@[k] == list@[k].1,
            decreases list.len() - i,
        {
            out.push(list[i].1);
            i = i + 1;
        }
        proof {
            let segs = segments_of(self@.edges, self@.positions);
            assert forall|g: EdgeGeo| #[trigger] out@.contains(g) <==> segs.values().contains(g) by {
                if out@.contains(g) {
                    let k = choose|k: int| 0 <= k < out.len() && out@[k] == g;
                    assert(segs.contains_key(list@[k].0));
                }
                if segs.values().contains(g) {
                    let e = choose|e: u32| segs.contains_key(e) && segs[e] == g;
                    let k = choose|k: int| 0 <= k < list.len() && #[trigger] list@[k].0 == e;
                    assert(out@[k] == g);
                }
            }
            let ids = list@.map_values(|c: (u32, EdgeGeo)| c.0);
            assert forall|a: int, b: int| 0 <= a < ids.len() && 0 <= b < ids.len() && a != b implies ids[a]
                != ids[b] by {
                assert(list@[a].0 != list@[b].0);
            }
            assert forall|x: u32| ids.contains(x) <==> #[trigger] segs.dom().contains(x) by {
                if ids.contains(x) {
                    let k = choose|k: int| 0 <= k < ids.len() && ids[k] == x;
                    assert(segs.contains_key(list@[k].0));
                }
                if segs.dom().contains(x) {
                    let k = choose|k: int| 0 <= k < list.len() && #[trigger] list@[k].0 == x;
                    assert(ids[k] == x);
                }
            }
            ids.unique_seq_to_set();
            assert(ids.to_set() =~= segs.dom());
            assert(forall|a: int, b: int| 0 <= a < b < ids.len() ==> ids[a] < ids[b]);
            assert(forall|k: int| 0 <= k < out.len() ==> out@[k] == segs[ids[k]]);
            assert(in_index_order(out@, segs));
        }
        out
    }

    /// How many nodes and how many edges the geometry index holds.
    pub fn tree_facts(&self) -> (r: (usize, usize))
        requires
            self.wf(),
        ensures
            r.0 == self@.positions.len(),
            r.1 == segments_of(self@.edges, self@.positions).len(),
    {
        self.graph_geo.counts()
    }
}

} // verus!
