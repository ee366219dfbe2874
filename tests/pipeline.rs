use cadconvert::geom::Vec2;
use cadconvert::model::{
    Drawing2D, Entity2D, EntityKind, LineSeg2D, Polyline2D, PolylineVertex2D, Primitive2D, Style, Units,
};
use cadconvert::reconstruct_solid;
use cadconvert::reconstruction::{build_lambda, build_reconstruction, MATCH_TOLERANCE};
use cadconvert::step_writer::write_step;
use cadconvert::structs::{LambdaRow, Point3, ReconstructError, ThetaEdge, View2D, ViewPlane};
use cadconvert::topology::build_topology;
use cadconvert::view_separation::separate_views;

const U: i64 = 1_000_000;

fn style(layer: Option<&str>) -> Style {
    Style { layer: layer.map(|s| s.to_string()), linetype: None, color_index: None }
}

fn line(id: u64, a: (i64, i64), b: (i64, i64), layer: Option<&str>) -> Entity2D {
    Entity2D {
        id,
        kind: EntityKind::Object,
        primitive: Primitive2D::Line(LineSeg2D { a: Vec2 { x: a.0, y: a.1 }, b: Vec2 { x: b.0, y: b.1 } }),
        style: style(layer),
    }
}

/// Four segments of an axis-aligned square of side `s` with its lower left corner at `(x, y)`.
fn square(first_id: u64, x: i64, y: i64, s: i64, layer: Option<&str>) -> Vec<Entity2D> {
    vec![
        line(first_id, (x, y), (x + s, y), layer),
        line(first_id + 1, (x + s, y), (x + s, y + s), layer),
        line(first_id + 2, (x + s, y + s), (x, y + s), layer),
        line(first_id + 3, (x, y + s), (x, y), layer),
    ]
}

fn drawing(entities: Vec<Entity2D>) -> Drawing2D {
    Drawing2D { units: Units::Millimeters, entities, dims: Vec::new(), texts: Vec::new() }
}

fn view_with(plane: ViewPlane, entities: Vec<Entity2D>) -> View2D {
    let mut v = View2D::new(plane);
    v.raw_entities = entities;
    v
}

fn count(text: &str, needle: &str) -> usize {
    text.lines().filter(|l| l.contains(needle)).count()
}

fn layered_cube() -> Drawing2D {
    let mut es = square(1, 0, 0, 10 * U, Some("TOP"));
    es.extend(square(5, 0, 0, 10 * U, Some("FRONT")));
    es.extend(square(9, 0, 0, 10 * U, Some("RIGHT")));
    drawing(es)
}

fn assert_simple_graph(v: &View2D) {
    for (i, vx) in v.vertices.iter().enumerate() {
        assert_eq!(vx.id, i);
    }
    for (i, a) in v.vertices.iter().enumerate() {
        for b in v.vertices.iter().skip(i + 1) {
            let dx = (a.point.x - b.point.x) as i128;
            let dy = (a.point.y - b.point.y) as i128;
            assert!(dx * dx + dy * dy >= 100 * 100);
        }
    }
    for (i, e) in v.edges.iter().enumerate() {
        assert_eq!(e.id, i);
        assert_ne!(e.start, e.end);
        for f in v.edges.iter().skip(i + 1) {
            let same = (e.start == f.start && e.end == f.end) || (e.start == f.end && e.end == f.start);
            assert!(!same);
        }
    }
}

#[test]
fn cube_from_layer_names() {
    let d = layered_cube();
    let model = reconstruct_solid(&d, "2024-01-01T00:00:00").expect("cube reconstructs");
    assert!(model.warnings.is_empty());
    assert_eq!(count(&model.content, "VERTEX_POINT"), 8);
    assert_eq!(count(&model.content, "EDGE_CURVE"), 12);
    assert!(model.content.starts_with("ISO-10303-21;\nHEADER;\n"));
    assert!(model.content.contains("2024-01-01T00:00:00"));
    assert!(model.content.contains("FILE_SCHEMA(('AUTOMOTIVE_DESIGN {1 0 10303 214 1 1 1 1}'));"));
    assert!(model.content.ends_with("ENDSEC;\nEND-ISO-10303-21;\n"));
}

#[test]
fn cube_lambda_and_theta_sizes() {
    let d = layered_cube();
    let (mut a, mut b, mut c) = separate_views(&d).expect("views");
    assert_eq!(a.raw_entities.len(), 4);
    assert_eq!(b.raw_entities.len(), 4);
    assert_eq!(c.raw_entities.len(), 4);
    build_topology(&mut a);
    build_topology(&mut b);
    build_topology(&mut c);
    let (lambda, theta) = build_reconstruction(&a, &b, &c);
    assert_eq!(lambda.len(), 8);
    assert_eq!(theta.len(), 12);
    // every candidate edge is supported by all three views
    let supported = |v: &View2D, x: usize, y: usize| {
        x == y || v.edges.iter().any(|e| (e.start == x && e.end == y) || (e.start == y && e.end == x))
    };
    for t in &theta {
        assert!(t.start_lambda_idx < t.end_lambda_idx);
        let p = &lambda[t.start_lambda_idx];
        let q = &lambda[t.end_lambda_idx];
        assert!(supported(&a, p.v_xy_id, q.v_xy_id));
        assert!(supported(&b, p.v_xz_id, q.v_xz_id));
        assert!(supported(&c, p.v_yz_id, q.v_yz_id));
    }
    // pairs come sorted by (i, j)
    for w in theta.windows(2) {
        let k0 = (w[0].start_lambda_idx, w[0].end_lambda_idx);
        let k1 = (w[1].start_lambda_idx, w[1].end_lambda_idx);
        assert!(k0 < k1);
    }
    // lifted coordinates agree with the views (shifts are zero here)
    for r in &lambda {
        let pxz = b.vertices[r.v_xz_id].point;
        let pyz = c.vertices[r.v_yz_id].point;
        assert!((r.p3.x - pxz.x).abs() <= MATCH_TOLERANCE);
        assert!((r.p3.y - pyz.x).abs() <= MATCH_TOLERANCE);
        assert!((r.p3.z - pyz.y).abs() <= MATCH_TOLERANCE);
    }
}

#[test]
fn cube_from_spatial_layout() {
    let mut es = square(1, 0, 30 * U, 10 * U, None);
    es.extend(square(5, 0, 0, 10 * U, None));
    es.extend(square(9, 30 * U, 0, 10 * U, None));
    let d = drawing(es);
    let (mut a, mut b, mut c) = separate_views(&d).expect("views");
    assert_eq!(a.plane, ViewPlane::XY);
    let ids = |v: &View2D| v.raw_entities.iter().map(|e| e.id).collect::<Vec<u64>>();
    assert_eq!(ids(&a), vec![1, 2, 3, 4]);
    assert_eq!(ids(&b), vec![5, 6, 7, 8]);
    assert_eq!(ids(&c), vec![9, 10, 11, 12]);
    build_topology(&mut a);
    build_topology(&mut b);
    build_topology(&mut c);
    let (lambda, theta) = build_reconstruction(&a, &b, &c);
    assert_eq!(lambda.len(), 8);
    assert_eq!(theta.len(), 12);
    let model = reconstruct_solid(&d, "t").expect("cube reconstructs");
    assert_eq!(count(&model.content, "VERTEX_POINT"), 8);
    assert_eq!(count(&model.content, "EDGE_CURVE"), 12);
}

#[test]
fn crossing_lines_split_at_their_intersection() {
    let mut v = view_with(
        ViewPlane::XY,
        vec![line(1, (0, 0), (10 * U, 10 * U), None), line(2, (0, 10 * U), (10 * U, 0), None)],
    );
    build_topology(&mut v);
    assert_eq!(v.vertices.len(), 5);
    assert_eq!(v.edges.len(), 4);
    assert!(v.vertices.iter().any(|p| p.point == Vec2 { x: 5 * U, y: 5 * U }));
    assert_simple_graph(&v);
    for e in &v.edges {
        assert!(e.original_entity_id == Some(1) || e.original_entity_id == Some(2));
    }
}

fn polyline(id: u64, pts: &[(i64, i64)], closed: bool) -> Entity2D {
    Entity2D {
        id,
        kind: EntityKind::Object,
        primitive: Primitive2D::Polyline(Polyline2D {
            vertices: pts.iter().map(|p| PolylineVertex2D { pos: Vec2 { x: p.0, y: p.1 }, bulge: 0 }).collect(),
            closed,
        }),
        style: style(None),
    }
}

#[test]
fn coincident_polyline_vertices_add_no_edge() {
    let mut v = view_with(ViewPlane::XY, vec![polyline(7, &[(0, 0), (10 * U, 0), (10 * U, 0), (10 * U, 10 * U)], false)]);
    build_topology(&mut v);
    assert_eq!(v.vertices.len(), 3);
    assert_eq!(v.edges.len(), 2);
    assert_simple_graph(&v);
}

#[test]
fn nearly_coincident_polyline_vertices_add_no_edge() {
    // the middle piece is 50 micro-units long, below the snap tolerance
    let mut v = view_with(ViewPlane::XY, vec![polyline(7, &[(0, 0), (10 * U, 0), (10 * U, 50), (10 * U, 10 * U)], false)]);
    build_topology(&mut v);
    assert_eq!(v.vertices.len(), 3);
    assert_eq!(v.edges.len(), 2);
    assert_simple_graph(&v);
}

#[test]
fn closed_polyline_adds_the_closing_edge() {
    let mut v = view_with(ViewPlane::XY, vec![polyline(3, &[(0, 0), (4 * U, 0), (4 * U, 3 * U)], true)]);
    build_topology(&mut v);
    assert_eq!(v.vertices.len(), 3);
    assert_eq!(v.edges.len(), 3);
    assert_simple_graph(&v);
}

#[test]
fn duplicate_segments_give_one_edge() {
    let mut v = view_with(ViewPlane::XY, vec![line(1, (0, 0), (5 * U, 0), None), line(2, (5 * U, 0), (0, 0), None)]);
    build_topology(&mut v);
    assert_eq!(v.vertices.len(), 2);
    assert_eq!(v.edges.len(), 1);
    assert_eq!(v.edges[0].original_entity_id, Some(1));
}

#[test]
fn topology_twice_gives_the_same_graph() {
    let raw = vec![
        line(1, (0, 0), (10 * U, 10 * U), None),
        line(2, (0, 10 * U), (10 * U, 0), None),
        polyline(3, &[(0, 0), (10 * U, 0), (10 * U, 10 * U), (0, 10 * U)], true),
    ];
    let mut v1 = view_with(ViewPlane::XZ, raw.clone());
    let mut v2 = view_with(ViewPlane::XZ, raw);
    build_topology(&mut v1);
    build_topology(&mut v2);
    assert_eq!(v1.vertices, v2.vertices);
    assert_eq!(v1.edges, v2.edges);
    assert_simple_graph(&v1);
    // building again on an already built view gives the same graph too
    build_topology(&mut v1);
    assert_eq!(v1.vertices, v2.vertices);
    assert_eq!(v1.edges, v2.edges);
}

fn points_view(plane: ViewPlane, pts: &[(i64, i64)]) -> View2D {
    let mut v = View2D::new(plane);
    v.vertices = pts
        .iter()
        .enumerate()
        .map(|(id, p)| cadconvert::structs::Vertex2D { id, point: Vec2 { x: p.0, y: p.1 } })
        .collect();
    v
}

#[test]
fn lifter_omits_triples_outside_tolerance() {
    let xy = points_view(ViewPlane::XY, &[(10 * U, 5 * U)]);
    let xz = points_view(ViewPlane::XZ, &[(10 * U, 3 * U)]);
    let far = points_view(ViewPlane::YZ, &[(7 * U, 3 * U)]);
    let zero = Vec2 { x: 0, y: 0 };
    assert!(build_lambda(&xy, &xz, &far, zero, zero).is_empty());
    let near = points_view(ViewPlane::YZ, &[(5 * U + U / 2, 3 * U)]);
    let rows = build_lambda(&xy, &xz, &near, zero, zero);
    assert_eq!(rows.len(), 1);
    assert_eq!((rows[0].p3.x, rows[0].p3.y, rows[0].p3.z), (10 * U, 5 * U, 3 * U));
    // exactly one drawing unit off still matches
    let edge = points_view(ViewPlane::YZ, &[(6 * U, 4 * U)]);
    assert_eq!(build_lambda(&xy, &xz, &edge, zero, zero).len(), 1);
    let beyond = points_view(ViewPlane::YZ, &[(6 * U + 1, 3 * U)]);
    assert!(build_lambda(&xy, &xz, &beyond, zero, zero).is_empty());
}

#[test]
fn lifter_orders_rows_by_view_indices() {
    let xy = points_view(ViewPlane::XY, &[(0, 0), (0, 0)]);
    let xz = points_view(ViewPlane::XZ, &[(0, 0), (0, U / 2)]);
    let yz = points_view(ViewPlane::YZ, &[(0, 0)]);
    let zero = Vec2 { x: 0, y: 0 };
    let rows = build_lambda(&xy, &xz, &yz, zero, zero);
    let ids: Vec<(usize, usize, usize)> = rows.iter().map(|r| (r.v_xy_id, r.v_xz_id, r.v_yz_id)).collect();
    assert_eq!(ids, vec![(0, 0, 0), (0, 1, 0), (1, 0, 0), (1, 1, 0)]);
}

#[test]
fn shifts_align_views_by_centroid() {
    let xy = points_view(ViewPlane::XY, &[(100 * U, 0), (110 * U, 10 * U)]);
    let xz = points_view(ViewPlane::XZ, &[(0, 0), (10 * U, 10 * U)]);
    let yz = points_view(ViewPlane::YZ, &[(50 * U, 0), (60 * U, 10 * U)]);
    let (rows, theta) = build_reconstruction(&xy, &xz, &yz);
    // XY moves left by 100 units; YZ's x moves onto XY's y range
    assert_eq!(rows.len(), 2);
    assert_eq!((rows[0].p3.x, rows[0].p3.y, rows[0].p3.z), (0, 0, 0));
    assert_eq!((rows[1].p3.x, rows[1].p3.y, rows[1].p3.z), (10 * U, 10 * U, 10 * U));
    assert!(theta.is_empty());
}

#[test]
fn empty_drawing_is_rejected() {
    let d = drawing(Vec::new());
    assert!(matches!(reconstruct_solid(&d, "t"), Err(ReconstructError::EmptyDrawing)));
    let mut text_only = line(1, (0, 0), (U, 0), Some("TOP"));
    text_only.kind = EntityKind::Text;
    let d2 = drawing(vec![text_only]);
    assert!(matches!(reconstruct_solid(&d2, "t"), Err(ReconstructError::EmptyDrawing)));
}

#[test]
fn two_far_apart_lines_cannot_form_three_views() {
    let d = drawing(vec![line(1, (0, 0), (U, 0), None), line(2, (100 * U, 100 * U), (101 * U, 100 * U), None)]);
    assert!(matches!(separate_views(&d), Err(ReconstructError::ViewSeparationFailed)));
    assert!(matches!(reconstruct_solid(&d, "t"), Err(ReconstructError::ViewSeparationFailed)));
}

#[test]
fn layer_names_match_in_any_case() {
    let mut es = vec![
        line(1, (0, 0), (U, 0), Some("my-top-view")),
        line(2, (0, 0), (U, 0), Some("Front")),
        line(3, (0, 0), (U, 0), Some("side_b")),
        line(4, (0, 0), (U, 0), Some("xz")),
        line(5, (0, 0), (U, 0), Some("notes")),
        line(6, (0, 0), (U, 0), None),
    ];
    let mut dim = line(7, (0, 0), (U, 0), Some("TOP"));
    dim.kind = EntityKind::Dimension;
    es.push(dim);
    let (a, b, c) = separate_views(&drawing(es)).expect("views");
    let ids = |v: &View2D| v.raw_entities.iter().map(|e| e.id).collect::<Vec<u64>>();
    assert_eq!(ids(&a), vec![1]);
    assert_eq!(ids(&b), vec![2, 4]);
    assert_eq!(ids(&c), vec![3]);
}

#[test]
fn step_numbers_have_six_decimals() {
    let mut es = square(1, -U / 2, 0, 2 * U, Some("TOP"));
    es.extend(square(5, -U / 2, 0, 2 * U, Some("FRONT")));
    es.extend(square(9, 0, 0, 2 * U, Some("RIGHT")));
    let model = reconstruct_solid(&drawing(es), "t").expect("reconstructs");
    assert!(model.content.contains("#24=CARTESIAN_POINT('',(-0.500000,0.000000,0.000000));"));
    assert!(model.content.contains("#25=VERTEX_POINT('',#24);"));
    assert!(model.content.contains("=VECTOR('',"));
    assert!(model.content.contains("2.000000);"));
    assert!(model.content.contains("=DIRECTION('',(1.000000,0.000000,0.000000));"));
    assert!(model.content.contains("GEOMETRIC_CURVE_SET('Wireframe',("));
    assert!(model.content.contains("#18=SHAPE_REPRESENTATION('Simple Shape', (#"));
}

#[test]
fn a_view_without_vertices_is_reported() {
    let mut es = square(1, 0, 0, 10 * U, Some("TOP"));
    es.extend(square(5, 0, 0, 10 * U, Some("FRONT")));
    es.push(Entity2D {
        id: 9,
        kind: EntityKind::Object,
        primitive: Primitive2D::Circle(cadconvert::model::Circle2D { center: Vec2 { x: 0, y: 0 }, radius: U }),
        style: style(Some("SIDE")),
    });
    let model = reconstruct_solid(&drawing(es), "t").expect("reconstructs");
    assert_eq!(model.warnings, vec![(ViewPlane::YZ, ReconstructError::DegenerateView)]);
    assert_eq!(count(&model.content, "VERTEX_POINT"), 0);
    assert_eq!(count(&model.content, "EDGE_CURVE"), 0);
    assert!(model.content.contains("#24=GEOMETRIC_CURVE_SET('Wireframe',());"));
}

#[test]
fn close_views_are_split_by_kmeans() {
    // gaps of two units: the grown boxes overlap, so proximity finds one group;
    // members keep the order in which groups were merged
    let mut es = square(1, 0, 12 * U, 10 * U, None);
    es.extend(square(5, 0, 0, 10 * U, None));
    es.extend(square(9, 12 * U, 0, 10 * U, None));
    let (a, b, c) = separate_views(&drawing(es)).expect("views");
    let ids = |v: &View2D| {
        let mut v: Vec<u64> = v.raw_entities.iter().map(|e| e.id).collect();
        v.sort();
        v
    };
    assert_eq!(ids(&a), vec![1, 2, 3, 4]);
    assert_eq!(ids(&b), vec![5, 6, 7, 8]);
    assert_eq!(ids(&c), vec![9, 10, 11, 12]);
}

#[test]
fn two_groups_split_the_larger_one() {
    // the top view stands apart; front and side are close to each other
    let mut es = square(1, 0, 40 * U, 10 * U, None);
    es.extend(square(5, 0, 0, 10 * U, None));
    es.extend(square(9, 12 * U, 0, 10 * U, None));
    let (a, b, c) = separate_views(&drawing(es)).expect("views");
    let ids = |v: &View2D| v.raw_entities.iter().map(|e| e.id).collect::<Vec<u64>>();
    assert_eq!(ids(&a), vec![1, 2, 3, 4]);
    assert_eq!(ids(&b), vec![5, 6, 7, 8]);
    assert_eq!(ids(&c), vec![9, 10, 11, 12]);
}

#[test]
fn layer_tags_that_leave_a_view_empty_fail() {
    let mut es = square(1, 0, 0, 10 * U, Some("TOP"));
    es.extend(square(5, 0, 0, 10 * U, Some("FRONT")));
    let d = drawing(es);
    assert!(matches!(separate_views(&d), Err(ReconstructError::ViewSeparationFailed)));
    assert!(matches!(reconstruct_solid(&d, "t"), Err(ReconstructError::ViewSeparationFailed)));
}

#[test]
fn step_reals_are_rounded_to_six_digits() {
    let row = |x: i64, y: i64, z: i64| LambdaRow { p3: Point3 { x, y, z }, v_xy_id: 0, v_xz_id: 0, v_yz_id: 0 };
    let lambda = vec![row(0, 0, 0), row(U, U, 0), row(0, 0, 3 * U)];
    let theta = vec![
        ThetaEdge { start_lambda_idx: 0, end_lambda_idx: 1 },
        ThetaEdge { start_lambda_idx: 1, end_lambda_idx: 2 },
    ];
    let text = write_step(&lambda, &theta, "t");
    // sqrt(2) = 1.41421356..., 1/sqrt(2) = 0.70710678...
    assert!(text.contains("=DIRECTION('',(0.707107,0.707107,0.000000));"));
    assert!(text.contains(",1.414214);"));
    // (-1, -1, 3) / sqrt(11): -0.30151134..., 0.90453403...
    assert!(text.contains("=DIRECTION('',(-0.301511,-0.301511,0.904534));"));
    // sqrt(11) = 3.31662479...
    assert!(text.contains(",3.316625);"));
}
