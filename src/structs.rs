//! Views, their planar graphs, and the candidate 3D vertices and edges.
use vstd::prelude::*;
use crate::geom::{dist_sq, Vec2};
use crate::model::Entity2D;

verus! {

/// Squared snap tolerance: two points closer than `EPSILON` (100 micro-units,
/// that is 1e-4 drawing units) are the same vertex.
pub const EPSILON_SQ: i128 = 10_000;

/// Two points lie within the snap tolerance of each other.
pub open spec fn near(a: Vec2, b: Vec2) -> bool {
    dist_sq(a, b) < EPSILON_SQ
}

/// Why a reconstruction failed.
#[derive(Clone, Copy, Debug, PartialEq, Eq, Structural)]
pub enum ReconstructError {
    /// No geometric entity survives filtering.
    EmptyDrawing,
    /// Fewer than three view groups could be found.
    ViewSeparationFailed,
    /// A view has no vertices after topology construction.
    DegenerateView,
    /// The emitter could not produce its output.
    FormatError,
}

#[derive(Clone, Copy, Debug, PartialEq, Eq, Structural)]
pub enum ViewPlane {
    XY,
    XZ,
    YZ,
}

#[derive(Clone, Copy, Debug, PartialEq, Eq, Structural)]
pub struct Vertex2D {
    pub id: usize,
    pub point: Vec2,
}

#[derive(Clone, Copy, Debug, PartialEq, Eq, Structural)]
pub struct Edge2D {
    pub id: usize,
    pub start: usize,
    pub end: usize,
    pub original_entity_id: Option<u64>,
}

/// The two edges join the same unordered pair of vertices.
pub open spec fn same_pair(a: Edge2D, b: Edge2D) -> bool {
    (a.start == b.start && a.end == b.end) || (a.start == b.end && a.end == b.start)
}

/// The unordered pair `{a, b}` is an edge of `edges`.
pub open spec fn has_edge(edges: Seq<Edge2D>, a: usize, b: usize) -> bool {
    exists|k: int|
        0 <= k < edges.len() && ((#[trigger] edges[k]).start == a && edges[k].end == b || edges[k].start
            == b && edges[k].end == a)
}

/// Dense ids, vertices pairwise at least `EPSILON` apart, edges that join two
/// distinct vertices, and no two edges on the same pair: a simple graph.
pub open spec fn graph_ok(vertices: Seq<Vertex2D>, edges: Seq<Edge2D>) -> bool {
    &&& forall|i: int| 0 <= i < vertices.len() ==> (#[trigger] vertices[i]).id == i
    &&& forall|i: int, j: int|
        0 <= i < vertices.len() && 0 <= j < vertices.len() && i != j ==> !near(
            #[trigger] vertices[i].point,
            #[trigger] vertices[j].point,
        )
    &&& forall|e: int|
        0 <= e < edges.len() ==> {
            &&& (#[trigger] edges[e]).id == e
            &&& edges[e].start < vertices.len()
            &&& edges[e].end < vertices.len()
            &&& edges[e].start != edges[e].end
        }
    &&& forall|e: int, f: int|
        0 <= e < edges.len() && 0 <= f < edges.len() && e != f ==> !same_pair(
            #[trigger] edges[e],
            #[trigger] edges[f],
        )
}

/// One orthographic projection and, once its topology is built, its graph.
pub struct View2D {
    pub plane: ViewPlane,
    pub raw_entities: Vec<Entity2D>,
    pub vertices: Vec<Vertex2D>,
    pub edges: Vec<Edge2D>,
}

impl View2D {
    pub open spec fn well_formed(&self) -> bool {
        graph_ok(self.vertices@, self.edges@)
    }

    pub fn new(plane: ViewPlane) -> (r: View2D)
        ensures
            r.plane == plane,
            r.raw_entities@.len() == 0,
            r.vertices@.len() == 0,
            r.edges@.len() == 0,
            r.well_formed(),
    {
        View2D { plane, raw_entities: Vec::new(), vertices: Vec::new(), edges: Vec::new() }
    }
}

/// A point in space, in micro-units.
#[derive(Clone, Copy, Debug, PartialEq, Eq, Structural)]
pub struct Point3 {
    pub x: i64,
    pub y: i64,
    pub z: i64,
}

/// A candidate 3D vertex and the three view vertices it was lifted from.
#[derive(Clone, Copy, Debug, PartialEq, Eq, Structural)]
pub struct LambdaRow {
    pub p3: Point3,
    pub v_xy_id: usize,
    pub v_xz_id: usize,
    pub v_yz_id: usize,
}

/// A candidate 3D edge: two indices into the candidate vertices, the smaller first.
#[derive(Clone, Copy, Debug, PartialEq, Eq, Hash, Structural)]
pub struct ThetaEdge {
    pub start_lambda_idx: usize,
    pub end_lambda_idx: usize,
}

} // verus!
