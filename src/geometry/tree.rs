//! The spatial index and the composite geometry index kept consistent with it.
use super::{
    corners_envelope, element_envelope_spec, point_envelope_spec, edge_envelope, edge_envelope_spec, overlap_spec, Edge, EdgeGeo, Envelope, COORD_LIMIT,
    GraphGeoElement, Node, NodeGeo,
};
use rstar::primitives::{GeomWithData, Rectangle};
use rstar::{RTree, AABB};
use std::collections::HashMap;
use vstd::multiset::Multiset;
use vstd::prelude::*;

verus! {

broadcast use {
    vstd::std_specs::hash::group_hash_axioms,
    vstd::multiset::group_multiset_axioms,
    vstd::seq_lib::group_to_multiset_ensures,
};

/// One entry of the spatial index: whether it is an edge, the item's id, and
/// its rectangle as lower x, lower y, upper x, upper y.
pub type TreeEntry = (bool, u32, i64, i64, i64, i64);

/// An entry with ordered corners within `COORD_LIMIT`.
pub open spec fn entry_wf(e: TreeEntry) -> bool {
    -COORD_LIMIT <= e.2 <= e.4 <= COORD_LIMIT && -COORD_LIMIT <= e.3 <= e.5 <= COORD_LIMIT
}

/// Every entry of the tree is well formed.
pub open spec fn tree_wf(t: SpatialTree) -> bool {
    forall|x: TreeEntry| #[trigger] tree_contents(t).contains(x) ==> entry_wf(x)
}

pub open spec fn entry_envelope(e: TreeEntry) -> Envelope {
    Envelope { lower: NodeGeo { x: e.2, y: e.3 }, upper: NodeGeo { x: e.4, y: e.5 } }
}

/// The entry that stands for a node at a position.
pub open spec fn node_entry(id: u32, p: NodeGeo) -> TreeEntry {
    (false, id, p.x, p.y, p.x, p.y)
}

/// The entry that stands for an edge with a segment.
pub open spec fn edge_entry(id: u32, g: EdgeGeo) -> TreeEntry {
    let env = edge_envelope_spec(g);
    (true, id, env.lower.x, env.lower.y, env.upper.x, env.upper.y)
}

fn make_node_entry(id: u32, p: NodeGeo) -> (r: TreeEntry)
    ensures
        r == node_entry(id, p),
        p.wf() ==> entry_wf(r),
{
    (false, id, p.x, p.y, p.x, p.y)
}

fn make_edge_entry(id: u32, g: &EdgeGeo) -> (r: TreeEntry)
    ensures
        r == edge_entry(id, *g),
        r.2 <= r.4 && r.3 <= r.5,
        g.wf() ==> entry_wf(r),
{
    let env = edge_envelope(g);
    (true, id, env.lower.x, env.lower.y, env.upper.x, env.upper.y)
}

/// An R-tree of entries.
#[verifier::external_body]
pub struct SpatialTree {
    tree: RTree<GeomWithData<Rectangle<[i128; 2]>, (bool, u32)>>,
}

/// The entries that a spatial tree holds, with their multiplicities.
pub uninterp spec fn tree_contents(t: SpatialTree) -> Multiset<TreeEntry>;

impl SpatialTree {
    /// Relies on rstar::RTree::new: the new tree holds nothing.
    #[verifier::external_body]
    fn new() -> (r: SpatialTree)
        ensures
            tree_contents(r) == Multiset::<TreeEntry>::empty(),
    {
        SpatialTree { tree: RTree::new() }
    }

    /// Relies on rstar::RTree::insert: one more copy of the entry, whatever
    /// the tree held before. `Rectangle::from_corners` keeps corners that are
    /// already ordered. The tree computes centres, squared distances and
    /// areas of rectangles in `i128`; the coordinate bound keeps them there.
    #[verifier::external_body]
    fn insert(&mut self, e: TreeEntry)
        requires
            entry_wf(e),
            tree_wf(*old(self)),
        ensures
            tree_contents(*final(self)) == tree_contents(*old(self)).insert(e),
    {
        let rect = Rectangle::from_corners([e.2 as i128, e.3 as i128], [e.4 as i128, e.5 as i128]);
        self.tree.insert(GeomWithData::new(rect, (e.0, e.1)))
    }

    /// Relies on rstar::RTree::remove: one copy of an equal entry (same
    /// rectangle, same data) is taken out, if there is one. Removal may
    /// reinsert orphaned entries, hence the same bound as for insertion.
    #[verifier::external_body]
    fn remove(&mut self, e: TreeEntry) -> (r: bool)
        requires
            entry_wf(e),
            tree_wf(*old(self)),
        ensures
            r == tree_contents(*old(self)).contains(e),
            tree_contents(*final(self)) == tree_contents(*old(self)).remove(e),
    {
        let rect = Rectangle::from_corners([e.2 as i128, e.3 as i128], [e.4 as i128, e.5 as i128]);
        self.tree.remove(&GeomWithData::new(rect, (e.0, e.1))).is_some()
    }

    /// Relies on rstar::RTree::locate_in_envelope_intersecting: each stored
    /// entry whose rectangle meets `env`, borders included, once per copy.
    #[verifier::external_body]
    fn locate(&self, env: Envelope) -> (r: Vec<TreeEntry>)
        requires
            env.wf(),
        ensures
            forall|e: TreeEntry| #[trigger]
                r@.to_multiset().count(e) == if overlap_spec(entry_envelope(e), env) {
                    tree_contents(*self).count(e)
                } else {
                    0
                },
    {
        let (l, u) = (env.lower, env.upper);
        let aabb = AABB::from_corners([l.x as i128, l.y as i128], [u.x as i128, u.y as i128]);
        let mut r = Vec::new();
        for item in self.tree.locate_in_envelope_intersecting(aabb) {
            let (l, u) = (item.geom().lower(), item.geom().upper());
            r.push((item.data.0, item.data.1, l[0] as i64, l[1] as i64, u[0] as i64, u[1] as i64));
        }
        r
    }
}

/// What the geometry index holds, by id.
pub ghost struct GraphGeoView {
    pub nodes: Map<u32, NodeGeo>,
    pub edges: Map<u32, EdgeGeo>,
}

/// How often a spatial tree consistent with `v` holds `e`: once when `e` is
/// the entry of a node or an edge of `v` with its current geometry, never
/// otherwise.
pub open spec fn expected_count(v: GraphGeoView, e: TreeEntry) -> nat {
    if (!e.0 && v.nodes.contains_key(e.1) && node_entry(e.1, v.nodes[e.1]) == e) || (e.0
        && v.edges.contains_key(e.1) && edge_entry(e.1, v.edges[e.1]) == e) {
        1
    } else {
        0
    }
}


/// `x` is what the index holds for its id.
pub open spec fn element_indexed(v: GraphGeoView, x: GraphGeoElement) -> bool {
    match x {
        Node(id, p) => v.nodes.contains_key(id) && v.nodes[id] == p,
        Edge(id, g) => v.edges.contains_key(id) && v.edges[id] == g,
    }
}

/// The entry that stands for an element.
pub open spec fn element_entry(x: GraphGeoElement) -> TreeEntry {
    match x {
        Node(id, p) => node_entry(id, p),
        Edge(id, g) => edge_entry(id, g),
    }
}

/// The index and the maps are in one-to-one correspondence: an id of the
/// node map has exactly one entry in the spatial index, at its position, and
/// every node entry of the index belongs to an id of the map (likewise for
/// edges).
pub proof fn lemma_one_entry_per_id(g: &GraphGeo, id: u32)
    requires
        g.wf(),
    ensures
        g@.nodes.contains_key(id) ==> g.entries().count(node_entry(id, g@.nodes[id])) == 1,
        forall|e: TreeEntry| #[trigger]
            g.entries().count(e) > 0 && !e.0 && e.1 == id ==> g@.nodes.contains_key(id) && e
                == node_entry(id, g@.nodes[id]) && g.entries().count(e) == 1,
        g@.edges.contains_key(id) ==> g.entries().count(edge_entry(id, g@.edges[id])) == 1,
        forall|e: TreeEntry| #[trigger]
            g.entries().count(e) > 0 && e.0 && e.1 == id ==> g@.edges.contains_key(id) && e
                == edge_entry(id, g@.edges[id]) && g.entries().count(e) == 1,
{
    assert(g.entries().count(node_entry(id, g@.nodes[id])) == expected_count(
        g@,
        node_entry(id, g@.nodes[id]),
    ));
    assert(g.entries().count(edge_entry(id, g@.edges[id])) == expected_count(
        g@,
        edge_entry(id, g@.edges[id]),
    ));
}

/// Indexing a node that already has geometry replaces it: afterwards the
/// index holds exactly one entry for the node, at the new position, and no
/// other node entry under its id.
pub proof fn lemma_insert_replaces(before: GraphGeoView, after: &GraphGeo, id: u32, p: NodeGeo)
    requires
        after.wf(),
        after@.nodes == before.nodes.insert(id, p),
    ensures
        after.entries().count(node_entry(id, p)) == 1,
        forall|e: TreeEntry| #[trigger]
            after.entries().count(e) > 0 && !e.0 && e.1 == id ==> e == node_entry(id, p),
{
    lemma_one_entry_per_id(after, id);
}

/// The spatial index together with the two maps from ids to the geometry
/// that is indexed for them.
pub struct GraphGeo {
    rtree: SpatialTree,
    nodes: HashMap<u32, NodeGeo>,
    edges: HashMap<u32, EdgeGeo>,
}

impl View for GraphGeo {
    type V = GraphGeoView;

    closed spec fn view(&self) -> GraphGeoView {
        GraphGeoView { nodes: self.nodes@, edges: self.edges@ }
    }
}

impl GraphGeo {
    /// The entries of the spatial index.
    pub closed spec fn entries(&self) -> Multiset<TreeEntry> {
        tree_contents(self.rtree)
    }

    /// The maps and the spatial index agree: each id of a map has exactly
    /// one entry in the index, with its current geometry, and the index holds
    /// nothing else.
    pub open spec fn wf(&self) -> bool {
        &&& forall|e: TreeEntry| #[trigger] self.entries().count(e) == expected_count(self@, e)
        &&& forall|id: u32| #[trigger] self@.nodes.contains_key(id) ==> self@.nodes[id].wf()
        &&& forall|id: u32| #[trigger] self@.edges.contains_key(id) ==> self@.edges[id].wf()
    }

    proof fn lemma_removed_tree_wf(&self, before: SpatialTree)
        requires
            tree_wf(before),
            forall|x: TreeEntry| #[trigger]
                tree_contents(self.rtree).count(x) <= tree_contents(before).count(x),
        ensures
            tree_wf(self.rtree),
    {
        assert forall|x: TreeEntry| #[trigger] tree_contents(self.rtree).contains(x) implies entry_wf(x) by {
            assert(tree_contents(before).count(x) > 0);
            assert(tree_contents(before).contains(x));
        }
    }

    proof fn lemma_tree_wf(&self)
        requires
            self.wf(),
        ensures
            tree_wf(self.rtree),
    {
        assert forall|x: TreeEntry| #[trigger] tree_contents(self.rtree).contains(x) implies entry_wf(x) by {
            assert(self.entries().count(x) == expected_count(self@, x));
        }
    }

    pub fn new() -> (r: GraphGeo)
        ensures
            r.wf(),
            r@.nodes == Map::<u32, NodeGeo>::empty(),
            r@.edges == Map::<u32, EdgeGeo>::empty(),
    {
        let r = GraphGeo { rtree: SpatialTree::new(), nodes: HashMap::new(), edges: HashMap::new() };
        assert(r@.nodes =~= Map::<u32, NodeGeo>::empty());
        assert(r@.edges =~= Map::<u32, EdgeGeo>::empty());
        r
    }

    /// The position indexed for node `idx`, if any.
    pub fn node_geo(&self, idx: u32) -> (r: Option<NodeGeo>)
        ensures
            r == (if self@.nodes.contains_key(idx) {
                Some(self@.nodes[idx])
            } else {
                None
            }),
    {
        match self.nodes.get(&idx) {
            Some(p) => Some(*p),
            None => None,
        }
    }

    /// The segment indexed for edge `idx`, if any.
    pub fn edge_geo(&self, idx: u32) -> (r: Option<EdgeGeo>)
        ensures
            r == (if self@.edges.contains_key(idx) {
                Some(self@.edges[idx])
            } else {
                None
            }),
    {
        match self.edges.get(&idx) {
            Some(g) => Some(*g),
            None => None,
        }
    }

    /// How many nodes and how many edges are indexed.
    pub fn counts(&self) -> (r: (usize, usize))
        ensures
            r.0 == self@.nodes.len(),
            r.1 == self@.edges.len(),
    {
        (self.nodes.len(), self.edges.len())
    }

    /// Indexes node `idx` at `geo`, replacing what was indexed for it, and
    /// returns the replaced element.
    pub fn insert_node(&mut self, idx: u32, geo: NodeGeo) -> (r: Option<GraphGeoElement>)
        requires
            old(self).wf(),
            geo.wf(),
        ensures
            final(self).wf(),
            final(self)@.nodes == old(self)@.nodes.insert(idx, geo),
            final(self)@.edges == old(self)@.edges,
            r == (if old(self)@.nodes.contains_key(idx) {
                Some(Node(idx, old(self)@.nodes[idx]))
            } else {
                None
            }),
    {
        proof {
            self.lemma_tree_wf();
        }
        let prev = self.nodes.insert(idx, geo);
        match prev {
            Some(stale) => {
                self.rtree.remove(make_node_entry(idx, stale));
            },
            None => {},
        }
        proof {
            self.lemma_removed_tree_wf(old(self).rtree);
        }
        self.rtree.insert(make_node_entry(idx, geo));
        proof {
            assert forall|e: TreeEntry| #[trigger]
                self.entries().count(e) == expected_count(self@, e) by {
                assert(old(self).entries().count(e) == expected_count(old(self)@, e));
            }
            assert forall|id: u32| #[trigger] self@.nodes.contains_key(id) implies self@.nodes[id].wf() by {
                if id != idx {
                    assert(old(self)@.nodes.contains_key(id));
                }
            }
            assert forall|id: u32| #[trigger] self@.edges.contains_key(id) implies self@.edges[id].wf() by {
                if id != idx {
                    assert(old(self)@.edges.contains_key(id));
                }
            }
        }
        match prev {
            Some(stale) => Some(Node(idx, stale)),
            None => None,
        }
    }

    /// Indexes edge `idx` with segment `geo`, replacing what was indexed for
    /// it, and returns the replaced element.
    pub fn insert_edge(&mut self, idx: u32, geo: EdgeGeo) -> (r: Option<GraphGeoElement>)
        requires
            old(self).wf(),
            geo.wf(),
        ensures
            final(self).wf(),
            final(self)@.edges == old(self)@.edges.insert(idx, geo),
            final(self)@.nodes == old(self)@.nodes,
            r == (if old(self)@.edges.contains_key(idx) {
                Some(Edge(idx, old(self)@.edges[idx]))
            } else {
                None
            }),
    {
        proof {
            self.lemma_tree_wf();
        }
        let prev = self.edges.insert(idx, geo);
        match prev {
            Some(stale) => {
                self.rtree.remove(make_edge_entry(idx, &stale));
            },
            None => {},
        }
        proof {
            self.lemma_removed_tree_wf(old(self).rtree);
        }
        self.rtree.insert(make_edge_entry(idx, &geo));
        proof {
            assert forall|e: TreeEntry| #[trigger]
                self.entries().count(e) == expected_count(self@, e) by {
                assert(old(self).entries().count(e) == expected_count(old(self)@, e));
            }
            assert forall|id: u32| #[trigger] self@.nodes.contains_key(id) implies self@.nodes[id].wf() by {
                if id != idx {
                    assert(old(self)@.nodes.contains_key(id));
                }
            }
            assert forall|id: u32| #[trigger] self@.edges.contains_key(id) implies self@.edges[id].wf() by {
                if id != idx {
                    assert(old(self)@.edges.contains_key(id));
                }
            }
        }
        match prev {
            Some(stale) => Some(Edge(idx, stale)),
            None => None,
        }
    }

    /// Takes node `idx` out of the index; returns what was indexed for it.
    pub fn remove_node(&mut self, idx: u32) -> (r: Option<GraphGeoElement>)
        requires
            old(self).wf(),
        ensures
            final(self).wf(),
            final(self)@.nodes == old(self)@.nodes.remove(idx),
            final(self)@.edges == old(self)@.edges,
            r == (if old(self)@.nodes.contains_key(idx) {
                Some(Node(idx, old(self)@.nodes[idx]))
            } else {
                None
            }),
    {
        proof {
            self.lemma_tree_wf();
        }
        let prev = self.nodes.remove(&idx);
        match prev {
            Some(stale) => {
                self.rtree.remove(make_node_entry(idx, stale));
            },
            None => {},
        }
        proof {
            assert forall|e: TreeEntry| #[trigger]
                self.entries().count(e) == expected_count(self@, e) by {
                assert(old(self).entries().count(e) == expected_count(old(self)@, e));
            }
            assert forall|id: u32| #[trigger] self@.nodes.contains_key(id) implies self@.nodes[id].wf() by {
                if id != idx {
                    assert(old(self)@.nodes.contains_key(id));
                }
            }
            assert forall|id: u32| #[trigger] self@.edges.contains_key(id) implies self@.edges[id].wf() by {
                if id != idx {
                    assert(old(self)@.edges.contains_key(id));
                }
            }
        }
        match prev {
            Some(stale) => Some(Node(idx, stale)),
            None => None,
        }
    }

    /// Takes edge `idx` out of the index; returns what was indexed for it.
    pub fn remove_edge(&mut self, idx: u32) -> (r: Option<GraphGeoElement>)
        requires
            old(self).wf(),
        ensures
            final(self).wf(),
            final(self)@.edges == old(self)@.edges.remove(idx),
            final(self)@.nodes == old(self)@.nodes,
            r == (if old(self)@.edges.contains_key(idx) {
                Some(Edge(idx, old(self)@.edges[idx]))
            } else {
                None
            }),
    {
        proof {
            self.lemma_tree_wf();
        }
        let prev = self.edges.remove(&idx);
        match prev {
            Some(stale) => {
                self.rtree.remove(make_edge_entry(idx, &stale));
            },
            None => {},
        }
        proof {
            assert forall|e: TreeEntry| #[trigger]
                self.entries().count(e) == expected_count(self@, e) by {
                assert(old(self).entries().count(e) == expected_count(old(self)@, e));
            }
            assert forall|id: u32| #[trigger] self@.nodes.contains_key(id) implies self@.nodes[id].wf() by {
                if id != idx {
                    assert(old(self)@.nodes.contains_key(id));
                }
            }
            assert forall|id: u32| #[trigger] self@.edges.contains_key(id) implies self@.edges[id].wf() by {
                if id != idx {
                    assert(old(self)@.edges.contains_key(id));
                }
            }
        }
        match prev {
            Some(stale) => Some(Edge(idx, stale)),
            None => None,
        }
    }

    /// The entries of the index that meet `q`; each occurs once.
    fn entries_meeting(&self, q: Envelope) -> (r: Vec<TreeEntry>)
        requires
            self.wf(),
            q.wf(),
        ensures
            r@.no_duplicates(),
            forall|e: TreeEntry| #[trigger]
                r@.contains(e) <==> (expected_count(self@, e) == 1 && overlap_spec(
                    entry_envelope(e),
                    q,
                )),
    {
        let r = self.rtree.locate(q);
        proof {
            assert forall|e: TreeEntry| r@.to_multiset().contains(e) implies #[trigger]
                r@.to_multiset().count(e) == 1 by {
                assert(self.entries().count(e) == expected_count(self@, e));
            }
            r@.lemma_multiset_has_no_duplicates_conv();
            assert forall|e: TreeEntry| #[trigger]
                r@.contains(e) <==> (expected_count(self@, e) == 1 && overlap_spec(
                    entry_envelope(e),
                    q,
                )) by {
                assert(self.entries().count(e) == expected_count(self@, e));
                assert(r@.to_multiset().count(e) > 0 <==> r@.contains(e));
            }
        }
        r
    }

    /// The nodes indexed within the rectangle spanned by the two corners of
    /// `envelope`, borders included, each with its position, each once.
    pub fn nodes_in_envelope(&self, envelope: &Envelope) -> (r: Vec<(u32, NodeGeo)>)
        requires
            self.wf(),
        ensures
            r@.no_duplicates(),
            forall|id: u32, p: NodeGeo| #[trigger]
                r@.contains((id, p)) <==> (self@.nodes.contains_key(id) && self@.nodes[id] == p
                    && overlap_spec(
                    point_envelope_spec(p),
                    corners_envelope(envelope.lower, envelope.upper),
                )),
    {
        let q = Envelope::from_corners(envelope.lower, envelope.upper);
        let found = self.entries_meeting(q);
        let mut out: Vec<(u32, NodeGeo)> = Vec::new();
        let ghost mut src: Seq<int> = Seq::empty();
        let mut i: usize = 0;
        while i < found.len()
            invariant
                self.wf(),
                q == corners_envelope(envelope.lower, envelope.upper),
                found@.no_duplicates(),
                forall|e: TreeEntry| #[trigger]
                    found@.contains(e) <==> (expected_count(self@, e) == 1 && overlap_spec(
                        entry_envelope(e),
                        q,
                    )),
                i <= found.len(),
                src.len() == out.len(),
                forall|k: int|
                    0 <= k < out.len() ==> 0 <= #[trigger] src[k] < i && found@[src[k]]
                        == node_entry(out@[k].0, out@[k].1),
                forall|k: int|
                    0 <= k < out.len() ==> self@.nodes.contains_key(#[trigger] out@[k].0)
                        && self@.nodes[out@[k].0] == out@[k].1 && overlap_spec(
                        point_envelope_spec(out@[k].1),
                        q,
                    ),
                forall|j: int|
                    0 <= j < i && !(#[trigger] found@[j]).0 ==> out@.contains(
                        (found@[j].1, NodeGeo { x: found@[j].2, y: found@[j].3 }),
                    ),
                out@.no_duplicates(),
            decreases found.len() - i,
        {
            let e = found[i];
            if !e.0 {
                let p = NodeGeo { x: e.2, y: e.3 };
                proof {
                    assert(found@.contains(e));
                    assert(e == node_entry(e.1, p));
                    assert forall|k: int| 0 <= k < out.len() implies out@[k] != (e.1, p) by {
                        if out@[k] == (e.1, p) {
                            assert(found@[src[k]] == found@[i as int]);
                        }
                    }
                    src = src.push(i as int);
                }
                let ghost before = out@;
                out.push((e.1, p));
                proof {
                    assert forall|j: int|
                        0 <= j < i + 1 && !(#[trigger] found@[j]).0 implies out@.contains(
                        (found@[j].1, NodeGeo { x: found@[j].2, y: found@[j].3 }),
                    ) by {
                        if j == i {
                            assert(out@[out.len() - 1] == (e.1, p));
                        } else {
                            let x = (found@[j].1, NodeGeo { x: found@[j].2, y: found@[j].3 });
                            assert(before.contains(x));
                            let k = choose|k: int| 0 <= k < before.len() && before[k] == x;
                            assert(out@[k] == x);
                        }
                    }
                }
            }
            i = i + 1;
        }
        proof {
            assert forall|id: u32, p: NodeGeo| #[trigger]
                out@.contains((id, p)) <==> (self@.nodes.contains_key(id) && self@.nodes[id] == p
                    && overlap_spec(point_envelope_spec(p), q)) by {
                if self@.nodes.contains_key(id) && self@.nodes[id] == p && overlap_spec(
                    point_envelope_spec(p),
                    q,
                ) {
                    let e = node_entry(id, p);
                    assert(expected_count(self@, e) == 1);
                    assert(found@.contains(e));
                    let j = choose|j: int| 0 <= j < found.len() && found@[j] == e;
                    assert(!found@[j].0);
                }
                if out@.contains((id, p)) {
                    let k = choose|k: int| 0 <= k < out.len() && out@[k] == (id, p);
                    assert(self@.nodes.contains_key(out@[k].0));
                }
            }
        }
        out
    }

    /// The edges indexed whose bounding box meets the rectangle spanned by the
    /// two corners of `envelope`, each with its segment, each once.
    pub fn edges_in_envelope(&self, envelope: &Envelope) -> (r: Vec<(u32, EdgeGeo)>)
        requires
            self.wf(),
        ensures
            forall|k1: int, k2: int|
                0 <= k1 < r.len() && 0 <= k2 < r.len() && k1 != k2 ==> #[trigger] r@[k1].0
                    != #[trigger] r@[k2].0,
            forall|k: int|
                0 <= k < r.len() ==> self@.edges.contains_key(#[trigger] r@[k].0)
                    && self@.edges[r@[k].0] == r@[k].1,
            forall|id: u32|
                (exists|k: int| 0 <= k < r.len() && #[trigger] r@[k].0 == id) <==> (
                self@.edges.contains_key(id) && overlap_spec(
                    edge_envelope_spec(#[trigger] self@.edges[id]),
                    corners_envelope(envelope.lower, envelope.upper),
                )),
    {
        let q = Envelope::from_corners(envelope.lower, envelope.upper);
        let found = self.entries_meeting(q);
        let mut out: Vec<(u32, EdgeGeo)> = Vec::new();
        let ghost mut src: Seq<int> = Seq::empty();
        let mut i: usize = 0;
        while i < found.len()
            invariant
                self.wf(),
                q == corners_envelope(envelope.lower, envelope.upper),
                found@.no_duplicates(),
                forall|e: TreeEntry| #[trigger]
                    found@.contains(e) <==> (expected_count(self@, e) == 1 && overlap_spec(
                        entry_envelope(e),
                        q,
                    )),
                i <= found.len(),
                src.len() == out.len(),
                forall|k: int|
                    0 <= k < out.len() ==> 0 <= #[trigger] src[k] < i && found@[src[k]]
                        == edge_entry(out@[k].0, out@[k].1),
                forall|k: int|
                    0 <= k < out.len() ==> self@.edges.contains_key(#[trigger] out@[k].0)
                        && self@.edges[out@[k].0] == out@[k].1 && overlap_spec(
                        edge_envelope_spec(out@[k].1),
                        q,
                    ),
                forall|j: int|
                    0 <= j < i && (#[trigger] found@[j]).0 ==> exists|k: int|
                        0 <= k < out.len() && #[trigger] out@[k].0 == found@[j].1,
                forall|k1: int, k2: int|
                    0 <= k1 < out.len() && 0 <= k2 < out.len() && k1 != k2 ==> #[trigger] out@[k1].0
                        != #[trigger] out@[k2].0,
            decreases found.len() - i,
        {
            let e = found[i];
            if e.0 {
                proof {
                    assert(found@.contains(e));
                }
                let g = *self.edges.get(&e.1).unwrap();
                proof {
                    assert(e == edge_entry(e.1, g));
                    assert forall|k: int| 0 <= k < out.len() implies out@[k].0 != e.1 by {
                        if out@[k].0 == e.1 {
                            assert(found@[src[k]] == found@[i as int]);
                        }
                    }
                    src = src.push(i as int);
                }
                let ghost before = out@;
                out.push((e.1, g));
                proof {
                    assert forall|j: int| 0 <= j < i + 1 && (#[trigger] found@[j]).0 implies exists|
                        k: int,
                    | 0 <= k < out.len() && #[trigger] out@[k].0 == found@[j].1 by {
                        if j == i {
                            assert(out@[out.len() - 1].0 == found@[j].1);
                        } else {
                            let k = choose|k: int|
                                0 <= k < before.len() && #[trigger] before[k].0 == found@[j].1;
                            assert(out@[k].0 == found@[j].1);
                        }
                    }
                }
            }
            i = i + 1;
        }
        proof {
            assert forall|id: u32|
                (exists|k: int| 0 <= k < out.len() && #[trigger] out@[k].0 == id) <==> (
                self@.edges.contains_key(id) && overlap_spec(
                    edge_envelope_spec(#[trigger] self@.edges[id]),
                    q,
                )) by {
                if self@.edges.contains_key(id) && overlap_spec(
                    edge_envelope_spec(self@.edges[id]),
                    q,
                ) {
                    let e = edge_entry(id, self@.edges[id]);
                    assert(expected_count(self@, e) == 1);
                    assert(found@.contains(e));
                    let j = choose|j: int| 0 <= j < found.len() && found@[j] == e;
                    assert(found@[j].0);
                }
            }
        }
        out
    }

    /// Every element indexed whose envelope meets the rectangle spanned by
    /// the two corners of `envelope`, with its current geometry.
    pub fn locate_in_envelope(&self, envelope: &Envelope) -> (r: Vec<GraphGeoElement>)
        requires
            self.wf(),
        ensures
            forall|k: int|
                0 <= k < r.len() ==> element_indexed(self@, #[trigger] r@[k]) && overlap_spec(
                    element_envelope_spec(r@[k]),
                    corners_envelope(envelope.lower, envelope.upper),
                ),
            forall|x: GraphGeoElement|
                element_indexed(self@, x) && overlap_spec(
                    element_envelope_spec(x),
                    corners_envelope(envelope.lower, envelope.upper),
                ) ==> #[trigger] r@.contains(x),
    {
        let q = Envelope::from_corners(envelope.lower, envelope.upper);
        let found = self.entries_meeting(q);
        let mut out: Vec<GraphGeoElement> = Vec::new();
        let mut i: usize = 0;
        while i < found.len()
            invariant
                self.wf(),
                q == corners_envelope(envelope.lower, envelope.upper),
                forall|e: TreeEntry| #[trigger]
                    found@.contains(e) <==> (expected_count(self@, e) == 1 && overlap_spec(
                        entry_envelope(e),
                        q,
                    )),
                0 <= i <= found.len(),
                forall|k: int|
                    0 <= k < out.len() ==> element_indexed(self@, #[trigger] out@[k])
                        && overlap_spec(element_envelope_spec(out@[k]), q),
                forall|x: GraphGeoElement|
                    element_indexed(self@, x) && #[trigger] found@.subrange(0, i as int).contains(
                        element_entry(x),
                    ) ==> out@.contains(x),
            decreases found.len() - i,
        {
            let e = found[i];
            proof {
                assert(found@.contains(e));
            }
            let x = if !e.0 {
                Node(e.1, NodeGeo { x: e.2, y: e.3 })
            } else {
                Edge(e.1, *self.edges.get(&e.1).unwrap())
            };
            let ghost before = out@;
            out.push(x);
            proof {
                assert(element_entry(x) == e);
                assert forall|y: GraphGeoElement|
                    element_indexed(self@, y) && #[trigger] found@.subrange(0, i + 1).contains(
                        element_entry(y),
                    ) implies out@.contains(y) by {
                    if y == x {
                        assert(out@[out.len() - 1] == y);
                    } else {
                        let k = choose|k: int|
                            0 <= k < i + 1 && #[trigger] found@.subrange(0, i + 1)[k] == element_entry(y);
                        if k == i {
                            assert(element_entry(y) == e);
                            match y {
                                Node(id, p) => {
                                    assert(x == Node(id, p));
                                },
                                Edge(id, g) => {
                                    assert(x == Edge(id, g));
                                },
                            }
                        } else {
                            assert(found@.subrange(0, i as int)[k] == element_entry(y));
                            assert(found@.subrange(0, i as int).contains(element_entry(y)));
                        }
                        let m = choose|m: int| 0 <= m < before.len() && before[m] == y;
                        assert(out@[m] == y);
                    }
                }
            }
            i = i + 1;
        }
        proof {
            assert(found@.subrange(0, found.len() as int) == found@);
            assert forall|x: GraphGeoElement|
                element_indexed(self@, x) && overlap_spec(element_envelope_spec(x), q) implies #[trigger] out@.contains(
                x,
            ) by {
                assert(expected_count(self@, element_entry(x)) == 1);
                assert(found@.contains(element_entry(x)));
            }
        }
        out
    }
}

} // verus!
