//! Points, segments, envelopes, quantization and the exact segment test.
use vstd::arithmetic::power2::{lemma2_to64, lemma_pow2_pos, lemma_pow2_strictly_increases, lemma_pow2_unfold, pow2};
use geo::{Coord, Intersects, Line};
use vstd::prelude::*;

pub mod tree;

verus! {

/// Number of fractional bits of the fixed-point coordinate format.
pub const FRACTION_BITS: isize = 32;

/// Grid steps of `2^65` raw units or wider snap every `i64` to zero, so the
/// step is never taken wider than that.
pub const WIDEST_SHIFT: isize = 65;

/// A position: fixed-point raw bits (`value * 2^32`) on each axis.
#[derive(Clone, Copy, Debug, PartialEq, Eq, Structural)]
pub struct NodeGeo {
    pub x: i64,
    pub y: i64,
}

/// The largest magnitude, in raw units, of a coordinate that the index
/// takes (`2^28` whole units): the spatial tree and the segment test
/// multiply coordinate differences in `i128`.
pub const COORD_LIMIT: i64 = 0x1000_0000_0000_0000;

impl NodeGeo {
    /// Both coordinates lie within `COORD_LIMIT`.
    pub open spec fn wf(self) -> bool {
        -COORD_LIMIT <= self.x <= COORD_LIMIT && -COORD_LIMIT <= self.y <= COORD_LIMIT
    }

    pub fn in_range(&self) -> (r: bool)
        ensures
            r == self.wf(),
    {
        -COORD_LIMIT <= self.x && self.x <= COORD_LIMIT && -COORD_LIMIT <= self.y && self.y
            <= COORD_LIMIT
    }
}

/// How many low raw bits the grid of the given power drops: a grid cell is
/// `2^grid_shift` raw units wide. A negative power gives a grid coarser than
/// whole units.
pub open spec fn grid_shift(grid_power: isize) -> nat {
    if grid_power >= FRACTION_BITS {
        0
    } else if grid_power <= FRACTION_BITS - WIDEST_SHIFT {
        WIDEST_SHIFT as nat
    } else {
        (FRACTION_BITS - grid_power) as nat
    }
}

/// `x` rounded to the nearest multiple of `m`, ties away from zero.
pub open spec fn round_to_multiple(x: int, m: int) -> int
    recommends
        m > 0,
{
    if x >= 0 {
        ((x + m / 2) / m) * m
    } else {
        -(((-x + m / 2) / m) * m)
    }
}

/// A raw fixed-point value snapped to the grid of the given power.
pub open spec fn to_grid_spec(x: int, grid_power: isize) -> int {
    round_to_multiple(x, pow2(grid_shift(grid_power)) as int)
}

pub open spec fn quantize_spec(n: NodeGeo, grid_power: isize) -> (int, int) {
    (to_grid_spec(n.x as int, grid_power), to_grid_spec(n.y as int, grid_power))
}

proof fn lemma_pow2_bounds(k: nat)
    requires
        k <= 65,
    ensures
        1 <= pow2(k) <= 0x2_0000_0000_0000_0000,
{
    lemma_pow2_pos(k);
    if k < 65 {
        lemma_pow2_strictly_increases(k, 65);
    }
    lemma_pow2_unfold(65);
    lemma2_to64();
}

fn grid_step(grid_power: isize) -> (m: i128)
    ensures
        m == pow2(grid_shift(grid_power)),
        1 <= m <= 0x2_0000_0000_0000_0000,
{
    let k: isize = if grid_power >= FRACTION_BITS {
        0
    } else if grid_power <= FRACTION_BITS - WIDEST_SHIFT {
        WIDEST_SHIFT
    } else {
        FRACTION_BITS - grid_power
    };
    let mut m: i128 = 1;
    let mut i: isize = 0;
    proof {
        lemma2_to64();
    }
    while i < k
        invariant
            k == grid_shift(grid_power),
            k <= 65,
            0 <= i <= k,
            m == pow2(i as nat),
        decreases k - i,
    {
        proof {
            lemma_pow2_bounds(i as nat);
            lemma_pow2_unfold((i + 1) as nat);
        }
        m = m * 2;
        i = i + 1;
    }
    proof {
        lemma_pow2_bounds(k as nat);
    }
    m
}

fn to_grid(x: i64, grid_power: isize) -> (r: i128)
    ensures
        r == to_grid_spec(x as int, grid_power),
{
    let m = grid_step(grid_power);
    let h = m / 2;
    if x >= 0 {
        let q = (x as i128 + h) / m;
        assert(0 <= q as int <= x as int + h as int) by (nonlinear_arith)
            requires
                q as int == (x as int + h as int) / (m as int),
                m >= 1,
                x >= 0,
                h >= 0,
        ;
        assert(q as int * m as int <= x as int + h as int) by (nonlinear_arith)
            requires
                q as int == (x as int + h as int) / (m as int),
                m >= 1,
                x >= 0,
                h >= 0,
        ;
        q * m
    } else {
        let ax: i128 = -(x as i128);
        let q = (ax + h) / m;
        assert(0 <= q as int * m as int <= ax as int + h as int) by (nonlinear_arith)
            requires
                q as int == (ax as int + h as int) / (m as int),
                m >= 1,
                ax >= 0,
                h >= 0,
        ;
        -(q * m)
    }
}

/// Snaps a position to the grid with `grid_power` bits of fractional
/// precision (any power of at least 32 keeps every bit; 0 snaps to whole
/// units; a negative power to multiples of a power of two), returning the
/// raw fixed-point values.
pub fn quantize(n: NodeGeo, grid_power: isize) -> (r: (i128, i128))
    ensures
        (r.0 as int, r.1 as int) == quantize_spec(n, grid_power),
{
    (to_grid(n.x, grid_power), to_grid(n.y, grid_power))
}

proof fn lemma_round_idempotent(x: int, m: int)
    requires
        m >= 1,
    ensures
        round_to_multiple(round_to_multiple(x, m), m) == round_to_multiple(x, m),
{
    let h = m / 2;
    assert(0 <= h < m);
    if x >= 0 {
        let q = (x + h) / m;
        assert(q >= 0) by (nonlinear_arith)
            requires
                q == (x + h) / m,
                m >= 1,
                x + h >= 0,
        ;
        assert(q * m >= 0) by (nonlinear_arith)
            requires
                q >= 0,
                m >= 1,
        ;
        assert((q * m + h) / m == q) by (nonlinear_arith)
            requires
                0 <= h < m,
                m >= 1,
        ;
    } else {
        let q = (-x + h) / m;
        assert(q >= 0) by (nonlinear_arith)
            requires
                q == (-x + h) / m,
                m >= 1,
                -x + h >= 0,
        ;
        assert(q * m >= 0) by (nonlinear_arith)
            requires
                q >= 0,
                m >= 1,
        ;
        assert((q * m + h) / m == q) by (nonlinear_arith)
            requires
                0 <= h < m,
                m >= 1,
        ;
        if q * m == 0 {
            assert(h / m == 0) by (nonlinear_arith)
                requires
                    0 <= h < m,
            ;
        }
    }
}

/// Quantizing is idempotent: a value already on the grid of a power stays
/// where it is when it is snapped to that grid again.
pub proof fn lemma_quantize_idempotent(n: NodeGeo, grid_power: isize)
    ensures
        to_grid_spec(quantize_spec(n, grid_power).0, grid_power) == quantize_spec(n, grid_power).0,
        to_grid_spec(quantize_spec(n, grid_power).1, grid_power) == quantize_spec(n, grid_power).1,
{
    let k = grid_shift(grid_power);
    lemma_pow2_bounds(k);
    lemma_round_idempotent(n.x as int, pow2(k) as int);
    lemma_round_idempotent(n.y as int, pow2(k) as int);
}


/// An edge's embedding: the segment from `start` to `end`.
#[derive(Clone, Copy, Debug)]
pub struct EdgeGeo {
    pub start: NodeGeo,
    pub end: NodeGeo,
}

impl EdgeGeo {
    /// Both endpoints lie within `COORD_LIMIT`.
    pub open spec fn wf(self) -> bool {
        self.start.wf() && self.end.wf()
    }
}

/// Two segments are the same geometry when their endpoints, in order, snap to
/// the same points of the integer grid.
pub open spec fn same_segment(a: EdgeGeo, b: EdgeGeo) -> bool {
    quantize_spec(a.start, 0) == quantize_spec(b.start, 0) && quantize_spec(a.end, 0)
        == quantize_spec(b.end, 0)
}

impl EdgeGeo {
    pub fn new(a: NodeGeo, b: NodeGeo) -> (r: EdgeGeo)
        ensures
            r.start == a,
            r.end == b,
    {
        EdgeGeo { start: a, end: b }
    }

    /// The grid-snapped `(start, end)` pair at the given grid power.
    pub fn quantized_coordinates(&self, grid_power: isize) -> (r: ((i128, i128), (i128, i128)))
        ensures
            (r.0.0 as int, r.0.1 as int) == quantize_spec(self.start, grid_power),
            (r.1.0 as int, r.1.1 as int) == quantize_spec(self.end, grid_power),
    {
        (quantize(self.start, grid_power), quantize(self.end, grid_power))
    }

    /// The segment with both endpoints snapped to the grid of the given power.
    pub fn to_grid(&self, grid_power: isize) -> (r: EdgeGeo)
        requires
            i64::MIN <= quantize_spec(self.start, grid_power).0 <= i64::MAX,
            i64::MIN <= quantize_spec(self.start, grid_power).1 <= i64::MAX,
            i64::MIN <= quantize_spec(self.end, grid_power).0 <= i64::MAX,
            i64::MIN <= quantize_spec(self.end, grid_power).1 <= i64::MAX,
        ensures
            (r.start.x as int, r.start.y as int) == quantize_spec(self.start, grid_power),
            (r.end.x as int, r.end.y as int) == quantize_spec(self.end, grid_power),
    {
        let ((x1, y1), (x2, y2)) = self.quantized_coordinates(grid_power);
        EdgeGeo { start: NodeGeo { x: x1 as i64, y: y1 as i64 }, end: NodeGeo { x: x2 as i64, y: y2 as i64 } }
    }

    /// Whether the two segments share at least one point. The bounding
    /// boxes are compared first; geo's line test is then asked both ways
    /// round, so the answer does not depend on the order of the segments.
    pub fn intersects(&self, other: &EdgeGeo) -> (r: bool)
        requires
            self.wf(),
            other.wf(),
        ensures
            r == segments_intersect(*self, *other),
    {
        envelopes_overlap(edge_envelope(self), edge_envelope(other)) && (geo_line_intersects(
            self,
            other,
        ) || geo_line_intersects(other, self))
    }
}

impl PartialEq for EdgeGeo {
    fn eq(&self, other: &EdgeGeo) -> (r: bool) {
        let (a, b) = self.quantized_coordinates(0);
        let (c, d) = other.quantized_coordinates(0);
        a.0 == c.0 && a.1 == c.1 && b.0 == d.0 && b.1 == d.1
    }
}

impl vstd::std_specs::cmp::PartialEqSpecImpl for EdgeGeo {
    open spec fn obeys_eq_spec() -> bool {
        true
    }

    open spec fn eq_spec(&self, other: &EdgeGeo) -> bool {
        same_segment(*self, *other)
    }
}

/// An axis-aligned rectangle given by its lower and upper corners.
#[derive(Clone, Copy, Debug, PartialEq, Eq, Structural)]
pub struct Envelope {
    pub lower: NodeGeo,
    pub upper: NodeGeo,
}

impl Envelope {
    pub open spec fn wf(self) -> bool {
        self.lower.x <= self.upper.x && self.lower.y <= self.upper.y
    }

    /// The smallest rectangle holding both corners, in whatever order they
    /// are given.
    pub fn from_corners(a: NodeGeo, b: NodeGeo) -> (r: Envelope)
        ensures
            r == corners_envelope(a, b),
            r.wf(),
    {
        Envelope {
            lower: NodeGeo { x: min_i64(a.x, b.x), y: min_i64(a.y, b.y) },
            upper: NodeGeo { x: max_i64(a.x, b.x), y: max_i64(a.y, b.y) },
        }
    }
}

pub open spec fn min_spec(a: i64, b: i64) -> i64 {
    if a <= b {
        a
    } else {
        b
    }
}

pub open spec fn max_spec(a: i64, b: i64) -> i64 {
    if a >= b {
        a
    } else {
        b
    }
}

fn min_i64(a: i64, b: i64) -> (r: i64)
    ensures
        r == min_spec(a, b),
{
    if a <= b {
        a
    } else {
        b
    }
}

fn max_i64(a: i64, b: i64) -> (r: i64)
    ensures
        r == max_spec(a, b),
{
    if a >= b {
        a
    } else {
        b
    }
}

pub open spec fn corners_envelope(a: NodeGeo, b: NodeGeo) -> Envelope {
    Envelope {
        lower: NodeGeo { x: min_spec(a.x, b.x), y: min_spec(a.y, b.y) },
        upper: NodeGeo { x: max_spec(a.x, b.x), y: max_spec(a.y, b.y) },
    }
}

/// A point's envelope is the degenerate rectangle at the point.
pub open spec fn point_envelope_spec(p: NodeGeo) -> Envelope {
    Envelope { lower: p, upper: p }
}

/// A segment's envelope is the bounding box of its two endpoints.
pub open spec fn edge_envelope_spec(e: EdgeGeo) -> Envelope {
    corners_envelope(e.start, e.end)
}

/// Rectangles overlap when they share a point, borders included.
pub open spec fn overlap_spec(a: Envelope, b: Envelope) -> bool {
    a.lower.x <= b.upper.x && b.lower.x <= a.upper.x && a.lower.y <= b.upper.y && b.lower.y
        <= a.upper.y
}

pub fn edge_envelope(e: &EdgeGeo) -> (r: Envelope)
    ensures
        r == edge_envelope_spec(*e),
        r.wf(),
{
    Envelope::from_corners(e.start, e.end)
}

pub fn point_envelope(p: NodeGeo) -> (r: Envelope)
    ensures
        r == point_envelope_spec(p),
        r.wf(),
{
    Envelope { lower: p, upper: p }
}

pub fn envelopes_overlap(a: Envelope, b: Envelope) -> (r: bool)
    ensures
        r == overlap_spec(a, b),
{
    a.lower.x <= b.upper.x && b.lower.x <= a.upper.x && a.lower.y <= b.upper.y && b.lower.y
        <= a.upper.y
}

/// Twice the signed area of the triangle `p q r`, written as geo's simple
/// kernel writes it.
pub open spec fn cross(p: NodeGeo, q: NodeGeo, r: NodeGeo) -> int {
    (q.x - p.x) * (r.y - q.y) - (q.y - p.y) * (r.x - q.x)
}

pub open spec fn sign(v: int) -> int {
    if v > 0 {
        1
    } else if v < 0 {
        -1
    } else {
        0
    }
}

/// `1` when `r` lies left of the directed line `p q`, `-1` when right, `0`
/// when the three points are collinear.
pub open spec fn orient(p: NodeGeo, q: NodeGeo, r: NodeGeo) -> int {
    sign(cross(p, q, r))
}

/// `v` lies between the two bounds, in whatever order they come.
pub open spec fn between(v: i64, b1: i64, b2: i64) -> bool {
    if b1 < b2 {
        b1 <= v <= b2
    } else {
        b2 <= v <= b1
    }
}

/// `p` lies in the rectangle with corners `b1` and `b2`, borders included.
pub open spec fn point_in_rect(p: NodeGeo, b1: NodeGeo, b2: NodeGeo) -> bool {
    between(p.x, b1.x, b2.x) && between(p.y, b1.y, b2.y)
}

/// The line-on-line test: a degenerate `a` is a point that must lie on
/// `b`; otherwise `b`'s endpoints must not lie strictly on one side of `a`,
/// and if they straddle it `a`'s endpoints must straddle `b`; when all four
/// points are collinear, an endpoint of one must lie within the other.
pub open spec fn line_test(a: EdgeGeo, b: EdgeGeo) -> bool {
    if a.start == a.end {
        orient(b.start, b.end, a.start) == 0 && point_in_rect(a.start, b.start, b.end)
    } else {
        let c11 = orient(a.start, a.end, b.start);
        let c12 = orient(a.start, a.end, b.end);
        if c11 != c12 {
            orient(b.start, b.end, a.start) != orient(b.start, b.end, a.end)
        } else if c11 == 0 {
            point_in_rect(b.start, a.start, a.end) || point_in_rect(b.end, a.start, a.end)
                || point_in_rect(a.end, b.start, b.end)
        } else {
            false
        }
    }
}

/// The two segments share a point: their bounding boxes meet and the line
/// test holds, taken either way round.
pub open spec fn segments_intersect(a: EdgeGeo, b: EdgeGeo) -> bool {
    overlap_spec(edge_envelope_spec(a), edge_envelope_spec(b)) && (line_test(a, b) || line_test(
        b,
        a,
    ))
}

/// Relies on geo's `Intersects<Line<T>> for Line<T>` with `i128`
/// coordinates, which uses the exact simple kernel: it decides `line_test`.
/// The coordinate bound keeps the kernel's products within `i128`.
#[verifier::external_body]
fn geo_line_intersects(a: &EdgeGeo, b: &EdgeGeo) -> (r: bool)
    requires
        a.wf(),
        b.wf(),
    ensures
        r == line_test(*a, *b),
{
    let la = Line::new(Coord { x: a.start.x as i128, y: a.start.y as i128 }, Coord { x: a.end.x as i128, y: a.end.y as i128 });
    let lb = Line::new(Coord { x: b.start.x as i128, y: b.start.y as i128 }, Coord { x: b.end.x as i128, y: b.end.y as i128 });
    la.intersects(&lb)
}

/// What the spatial index holds for one graph item: a node with its
/// position, or an edge with its segment. Two elements are equal when they
/// stand for the same item, whatever geometry they carry.
#[derive(Clone, Copy, Debug)]
pub enum GraphGeoElement {
    Node(u32, NodeGeo),
    Edge(u32, EdgeGeo),
}

pub use GraphGeoElement::Edge;
pub use GraphGeoElement::Node;

pub open spec fn same_item(a: GraphGeoElement, b: GraphGeoElement) -> bool {
    match (a, b) {
        (Node(x, _), Node(y, _)) => x == y,
        (Edge(x, _), Edge(y, _)) => x == y,
        _ => false,
    }
}

pub open spec fn element_envelope_spec(e: GraphGeoElement) -> Envelope {
    match e {
        Node(_, p) => point_envelope_spec(p),
        Edge(_, g) => edge_envelope_spec(g),
    }
}

impl GraphGeoElement {
    pub fn node_index(&self) -> (r: Option<u32>)
        ensures
            r == match *self {
                Node(i, _) => Some(i),
                Edge(..) => None::<u32>,
            },
    {
        match self {
            Node(i, _) => Some(*i),
            Edge(..) => None,
        }
    }

    pub fn edge_index(&self) -> (r: Option<u32>)
        ensures
            r == match *self {
                Edge(i, _) => Some(i),
                Node(..) => None::<u32>,
            },
    {
        match self {
            Edge(i, _) => Some(*i),
            Node(..) => None,
        }
    }

    pub fn node_geo(&self) -> (r: Option<NodeGeo>)
        ensures
            r == match *self {
                Node(_, p) => Some(p),
                Edge(..) => None::<NodeGeo>,
            },
    {
        match self {
            Node(_, p) => Some(*p),
            Edge(..) => None,
        }
    }

    pub fn edge_geo(&self) -> (r: Option<EdgeGeo>)
        ensures
            r == match *self {
                Edge(_, g) => Some(g),
                Node(..) => None::<EdgeGeo>,
            },
    {
        match self {
            Edge(_, g) => Some(*g),
            Node(..) => None,
        }
    }

    /// The degenerate rectangle at a node, the bounding box of an edge.
    pub fn envelope(&self) -> (r: Envelope)
        ensures
            r == element_envelope_spec(*self),
            r.wf(),
    {
        match self {
            Node(_, p) => point_envelope(*p),
            Edge(_, g) => edge_envelope(g),
        }
    }
}

impl PartialEq for GraphGeoElement {
    fn eq(&self, other: &GraphGeoElement) -> (r: bool) {
        match (self, other) {
            (Node(x, _), Node(y, _)) => *x == *y,
            (Edge(x, _), Edge(y, _)) => *x == *y,
            _ => false,
        }
    }
}

impl vstd::std_specs::cmp::PartialEqSpecImpl for GraphGeoElement {
    open spec fn obeys_eq_spec() -> bool {
        true
    }

    open spec fn eq_spec(&self, other: &GraphGeoElement) -> bool {
        same_item(*self, *other)
    }
}

} // verus!
