//! Reconstruction of a 3D wireframe from a three-view orthographic drawing.
//!
//! The drawing's entities are split into the top (XY), front (XZ) and side
//! (YZ) views; each view becomes a planar graph; coordinate-consistent vertex
//! triples become candidate 3D vertices; pairs of those that all three views
//! support become edges; the result is written as a STEP AP214 wireframe.
//! Coordinates are integer micro-units (see `geom`).
use vstd::prelude::*;

pub mod geom;
pub mod model;
pub mod structs;
pub mod topology;
pub mod reconstruction;
pub mod view_separation;
pub mod step_writer;
pub mod text;
pub mod import_support;
pub mod normalize;
pub mod workspace;
pub mod step;
pub mod analysis;
pub mod report;
pub mod view;

use crate::model::Drawing2D;
use crate::reconstruction::{build_reconstruction, lambda_rows, spec_shift_xy, spec_shift_yz, theta_exact};
use crate::step_writer::{point_ok, step_text, write_step, STEP_COORD_LIMIT};
use crate::structs::{graph_ok, LambdaRow, ReconstructError, ThetaEdge, View2D, ViewPlane};
use crate::topology::{build_topology, entities_ok, topology_edges, topology_vertices};
use crate::view_separation::{
    all_tagged, any_tagged, copies_of, from_drawable, has_drawable, lemma_copies_well_formed, separate_views,
    raws, spatial_groups, tagged, views_by_roles, Cluster,
};

verus! {

/// The text of a STEP document, and the views that came out empty.
pub struct StepModel {
    pub content: String,
    /// One `DegenerateView` warning per view without vertices, in XY, XZ, YZ order.
    pub warnings: Vec<(ViewPlane, ReconstructError)>,
}

/// The three views carry the simple graphs built from their own entities.
pub open spec fn views_built(v: (View2D, View2D, View2D)) -> bool {
    &&& graph_ok(v.0.vertices@, v.0.edges@)
    &&& graph_ok(v.1.vertices@, v.1.edges@)
    &&& graph_ok(v.2.vertices@, v.2.edges@)
    &&& v.0.vertices@ == topology_vertices(v.0.raw_entities@) && v.0.edges@ == topology_edges(v.0.raw_entities@)
    &&& v.1.vertices@ == topology_vertices(v.1.raw_entities@) && v.1.edges@ == topology_edges(v.1.raw_entities@)
    &&& v.2.vertices@ == topology_vertices(v.2.raw_entities@) && v.2.edges@ == topology_edges(v.2.raw_entities@)
}

/// The candidate vertices lifted from the three views.
pub open spec fn lifted_rows(v: (View2D, View2D, View2D)) -> Seq<LambdaRow> {
    lambda_rows(
        v.0.vertices@,
        v.1.vertices@,
        v.2.vertices@,
        spec_shift_xy(v.0.vertices@, v.1.vertices@),
        spec_shift_yz(v.0.vertices@, v.1.vertices@, v.2.vertices@),
    )
}

/// Largest number of candidate vertices, and of candidate edges, that the
/// writer takes.
pub const WRITE_LIMIT: u64 = 0x1_0000_0000;

/// Both counts, and every coordinate of the candidate vertices, fit the writer.
pub open spec fn fits(v: (View2D, View2D, View2D), th: Seq<ThetaEdge>) -> bool {
    &&& lifted_rows(v).len() <= WRITE_LIMIT
    &&& th.len() <= WRITE_LIMIT
    &&& forall|i: int| 0 <= i < lifted_rows(v).len() ==> point_ok(#[trigger] lifted_rows(v)[i].p3)
}

/// Whether every candidate vertex lies within the writer's coordinate bound.
fn rows_printable(rows: &Vec<LambdaRow>) -> (r: bool)
    ensures
        r == forall|i: int| 0 <= i < rows@.len() ==> point_ok(#[trigger] rows@[i].p3),
{
    let mut i: usize = 0;
    while i < rows.len()
        invariant
            i <= rows@.len(),
            forall|k: int| 0 <= k < i ==> point_ok(#[trigger] rows@[k].p3),
        decreases rows@.len() - i,
    {
        let p = rows[i].p3;
        if !(-STEP_COORD_LIMIT <= p.x && p.x <= STEP_COORD_LIMIT && -STEP_COORD_LIMIT <= p.y && p.y <= STEP_COORD_LIMIT
            && -STEP_COORD_LIMIT <= p.z && p.z <= STEP_COORD_LIMIT) {
            assert(!point_ok(rows@[i as int].p3));
            return false;
        }
        i = i + 1;
    }
    true
}

pub open spec fn edges_of(v: (View2D, View2D, View2D), th: Seq<ThetaEdge>) -> bool {
    theta_exact(th, lifted_rows(v), v.0.edges@, v.1.edges@, v.2.edges@)
}

/// The views carry their graphs, `th` holds their candidate edges, and
/// `text` is the STEP document of the candidates.
#[verifier::opaque]
pub open spec fn reconstructed_from(v: (View2D, View2D, View2D), th: Seq<ThetaEdge>, text: Seq<char>, ts: Seq<char>) -> bool {
    &&& views_built(v)
    &&& edges_of(v, th)
    &&& fits(v, th)
    &&& text == step_text(lifted_rows(v), th, ts)
}

/// The views carry their graphs, `th` holds their candidate edges, and a
/// count or a coordinate is over the writer's limit.
#[verifier::opaque]
pub open spec fn overflowed(v: (View2D, View2D, View2D), th: Seq<ThetaEdge>) -> bool {
    views_built(v) && edges_of(v, th) && !fits(v, th)
}

/// A `DegenerateView` warning for each view without vertices.
pub open spec fn degenerate_warnings(v: (View2D, View2D, View2D)) -> Seq<(ViewPlane, ReconstructError)> {
    let w = ReconstructError::DegenerateView;
    (if v.0.vertices@.len() == 0 { seq![(ViewPlane::XY, w)] } else { Seq::empty() }) + (if v.1.vertices@.len() == 0 {
        seq![(ViewPlane::XZ, w)]
    } else {
        Seq::empty()
    }) + (if v.2.vertices@.len() == 0 { seq![(ViewPlane::YZ, w)] } else { Seq::empty() })
}

/// The views hold the entities that layer names assign to them.
pub open spec fn views_by_layer(v: (View2D, View2D, View2D), d: &Drawing2D) -> bool {
    &&& copies_of(v.0.raw_entities@, tagged(d.entities@, ViewPlane::XY))
    &&& copies_of(v.1.raw_entities@, tagged(d.entities@, ViewPlane::XZ))
    &&& copies_of(v.2.raw_entities@, tagged(d.entities@, ViewPlane::YZ))
}

/// The views come from the drawing: non-empty copies of its drawable
/// entities, and where layer names tag all three views, the tagged ones.
#[verifier::opaque]
pub open spec fn views_from(v: (View2D, View2D, View2D), d: &Drawing2D) -> bool {
    &&& from_drawable(v.0.raw_entities@, d.entities@)
    &&& from_drawable(v.1.raw_entities@, d.entities@)
    &&& from_drawable(v.2.raw_entities@, d.entities@)
    &&& v.0.raw_entities@.len() > 0 && v.1.raw_entities@.len() > 0 && v.2.raw_entities@.len() > 0
    &&& all_tagged(d.entities@) ==> views_by_layer(v, d)
    &&& !any_tagged(d.entities@) ==> exists|g: Seq<Cluster>| #[trigger] views_by_roles(raws(v), d.entities@, g)
}

/// Runs the whole pipeline on a drawing; `timestamp` goes into the STEP header.
pub fn reconstruct_solid(drawing: &Drawing2D, timestamp: &str) -> (r: Result<StepModel, ReconstructError>)
    requires
        drawing.well_formed(),
    ensures
        (r == Err::<StepModel, ReconstructError>(ReconstructError::EmptyDrawing)) <==> !has_drawable(drawing.entities@),
        r matches Err(e) ==> e == ReconstructError::EmptyDrawing || e == ReconstructError::ViewSeparationFailed || e
            == ReconstructError::FormatError,
        r is Ok ==> exists|v: (View2D, View2D, View2D), th: Seq<ThetaEdge>|
            #[trigger] reconstructed_from(v, th, r->Ok_0.content@, timestamp@) && views_from(v, drawing)
                && r->Ok_0.warnings@ == degenerate_warnings(v),
        r == Err::<StepModel, ReconstructError>(ReconstructError::FormatError) ==> exists|
            v: (View2D, View2D, View2D),
            th: Seq<ThetaEdge>,
        | #[trigger] overflowed(v, th) && views_from(v, drawing),
        all_tagged(drawing.entities@) ==> r is Ok || r == Err::<StepModel, ReconstructError>(ReconstructError::FormatError),
        any_tagged(drawing.entities@) && !all_tagged(drawing.entities@) ==> r == Err::<StepModel, ReconstructError>(
            ReconstructError::ViewSeparationFailed,
        ),
        !any_tagged(drawing.entities@) && has_drawable(drawing.entities@) && spatial_groups(drawing.entities@).len() >= 3
            ==> r is Ok || r == Err::<StepModel, ReconstructError>(ReconstructError::FormatError),
        r == Err::<StepModel, ReconstructError>(ReconstructError::ViewSeparationFailed) ==> (any_tagged(drawing.entities@)
            && !all_tagged(drawing.entities@)) || (!any_tagged(drawing.entities@) && spatial_groups(drawing.entities@).len()
            < 3),
{
    let (v_xy, v_xz, v_yz) = match separate_views(drawing) {
        Ok(v) => v,
        Err(e) => {
            return Err(e);
        },
    };
    proof {
        lemma_copies_well_formed(v_xy.raw_entities@, drawing.entities@);
        lemma_copies_well_formed(v_xz.raw_entities@, drawing.entities@);
        lemma_copies_well_formed(v_yz.raw_entities@, drawing.entities@);
        reveal(views_from);
    }
    build_and_write(v_xy, v_xz, v_yz, Ghost(drawing), timestamp)
}

/// Builds the graphs of three separated views, lifts and selects the
/// candidates, and writes them.
fn build_and_write(
    v_xy: View2D,
    v_xz: View2D,
    v_yz: View2D,
    drawing: Ghost<&Drawing2D>,
    timestamp: &str,
) -> (r: Result<StepModel, ReconstructError>)
    requires
        views_from((v_xy, v_xz, v_yz), drawing@),
        entities_ok(v_xy.raw_entities@),
        entities_ok(v_xz.raw_entities@),
        entities_ok(v_yz.raw_entities@),
    ensures
        r matches Err(e) ==> e == ReconstructError::FormatError,
        r is Ok ==> exists|v: (View2D, View2D, View2D), th: Seq<ThetaEdge>|
            #[trigger] reconstructed_from(v, th, r->Ok_0.content@, timestamp@) && views_from(v, drawing@)
                && r->Ok_0.warnings@ == degenerate_warnings(v),
        r is Err ==> exists|v: (View2D, View2D, View2D), th: Seq<ThetaEdge>|
            #[trigger] overflowed(v, th) && views_from(v, drawing@),
{
    let mut v_xy = v_xy;
    let mut v_xz = v_xz;
    let mut v_yz = v_yz;
    let ghost v0 = (v_xy, v_xz, v_yz);
    build_topology(&mut v_xy);
    build_topology(&mut v_xz);
    build_topology(&mut v_yz);
    let (lambda, theta) = build_reconstruction(&v_xy, &v_xz, &v_yz);
    let ghost v = (v_xy, v_xz, v_yz);
    assert(views_built(v));
    assert(views_from(v, drawing@)) by {
        reveal(views_from);
        assert(raws(v) == raws(v0));
    }
    assert(lambda@ == lifted_rows(v));
    if lambda.len() as u64 > WRITE_LIMIT || theta.len() as u64 > WRITE_LIMIT || !rows_printable(&lambda) {
        assert(overflowed(v, theta@)) by {
            reveal(overflowed);
        }
        return Err(ReconstructError::FormatError);
    }
    let content = write_step(&lambda, &theta, timestamp);
    let mut warnings: Vec<(ViewPlane, ReconstructError)> = Vec::new();
    if v_xy.vertices.len() == 0 {
        warnings.push((ViewPlane::XY, ReconstructError::DegenerateView));
    }
    if v_xz.vertices.len() == 0 {
        warnings.push((ViewPlane::XZ, ReconstructError::DegenerateView));
    }
    if v_yz.vertices.len() == 0 {
        warnings.push((ViewPlane::YZ, ReconstructError::DegenerateView));
    }
    assert(warnings@ =~= degenerate_warnings(v));
    let m = StepModel { content, warnings };
    assert(reconstructed_from(v, theta@, m.content@, timestamp@)) by {
        reveal(reconstructed_from);
    }
    let r: Result<StepModel, ReconstructError> = Ok(m);
    assert(r->Ok_0.content@ == m.content@);
    r
}

} // verus!
