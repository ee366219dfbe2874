use cadconvert::analysis::{AnalysisConfig, Analyzer, DisjointSet};
use cadconvert::geom::{isqrt, BBox2, Vec2};
use cadconvert::import_support::{
    alloc_id, classify_linetype, empty_to_none, find_dasharray_in_style, is_byblock_linetype, is_layer_zero,
};
use cadconvert::model::{
    Bezier2D, Circle2D, Drawing2D, Entity2D, EntityKind, LineSeg2D, Polyline2D, Primitive2D, Style, Units,
};
use cadconvert::normalize::{infer_kind_from_style, normalize_in_place, NormalizeConfig};
use cadconvert::report::ViewClusterReport;
use cadconvert::step::{bezier_points, escape_step_string, geometric_curve_set, polyline, units, StepWriter};
use cadconvert::view::{assign_three_view_roles, ProjectionScheme, ViewRole};
use cadconvert::workspace::find_workspace_root;

const U: i64 = 1_000_000;

#[test]
fn drops_degenerate_entities_and_inferrs_kind() {
    let mut drawing = Drawing2D {
        units: Units::Unknown,
        entities: vec![
            Entity2D {
                id: 1,
                kind: EntityKind::Unknown,
                primitive: Primitive2D::Line(LineSeg2D { a: Vec2::new(0, 0), b: Vec2::new(0, 0) }),
                style: Style { layer: None, linetype: Some("HIDDEN".to_string()), color_index: None },
            },
            Entity2D {
                id: 2,
                kind: EntityKind::Unknown,
                primitive: Primitive2D::Line(LineSeg2D { a: Vec2::new(0, 0), b: Vec2::new(U, 0) }),
                style: Style { layer: None, linetype: Some("HIDDEN".to_string()), color_index: None },
            },
        ],
        dims: Vec::new(),
        texts: Vec::new(),
    };

    let stats = normalize_in_place(&mut drawing, &NormalizeConfig::default());
    assert_eq!(1, drawing.entities.len());
    assert_eq!(1, stats.removed_degenerate_entities);
    assert_eq!(1, stats.inferred_kinds);
    assert_eq!(EntityKind::Hidden, drawing.entities[0].kind);
}

#[test]
fn normalize_keeps_known_kinds_and_drops_small_shapes() {
    let tiny_circle = Entity2D {
        id: 3,
        kind: EntityKind::Object,
        primitive: Primitive2D::Circle(Circle2D { center: Vec2::new(0, 0), radius: 1 }),
        style: Style { layer: Some("center".to_string()), linetype: None, color_index: None },
    };
    let lone_vertex = Entity2D {
        id: 4,
        kind: EntityKind::Unknown,
        primitive: Primitive2D::Polyline(Polyline2D { vertices: Vec::new(), closed: false }),
        style: Style { layer: None, linetype: None, color_index: None },
    };
    let curve = Entity2D {
        id: 5,
        kind: EntityKind::Unknown,
        primitive: Primitive2D::CubicBezier(Bezier2D {
            p0: Vec2::new(0, 0),
            p1: Vec2::new(U, 0),
            p2: Vec2::new(U, U),
            p3: Vec2::new(0, U),
        }),
        style: Style { layer: Some("Outline".to_string()), linetype: Some("Continuous".to_string()), color_index: None },
    };
    let mut d = Drawing2D { units: Units::Millimeters, entities: vec![tiny_circle, lone_vertex, curve], dims: Vec::new(), texts: Vec::new() };
    let stats = normalize_in_place(&mut d, &NormalizeConfig::default());
    assert_eq!(d.entities.len(), 1);
    assert_eq!(d.entities[0].id, 5);
    assert_eq!(d.entities[0].kind, EntityKind::Object);
    assert_eq!(stats.removed_degenerate_entities, 2);
    assert_eq!(stats.inferred_kinds, 1);
}

#[test]
fn style_names_imply_kinds() {
    let st = |l: Option<&str>, t: Option<&str>| Style {
        layer: l.map(|s| s.to_string()),
        linetype: t.map(|s| s.to_string()),
        color_index: None,
    };
    assert_eq!(infer_kind_from_style(&st(Some("CenterLines"), None)), EntityKind::Center);
    assert_eq!(infer_kind_from_style(&st(None, Some("CENTRE2"))), EntityKind::Center);
    assert_eq!(infer_kind_from_style(&st(Some("Hid"), None)), EntityKind::Hidden);
    assert_eq!(infer_kind_from_style(&st(Some("OBJECT"), None)), EntityKind::Object);
    assert_eq!(infer_kind_from_style(&st(Some("0"), Some("BYLAYER"))), EntityKind::Unknown);
    assert_eq!(infer_kind_from_style(&st(None, None)), EntityKind::Unknown);
}

fn cluster(id: usize, min: (i64, i64), max: (i64, i64)) -> ViewClusterReport {
    ViewClusterReport {
        id,
        entity_count: 10,
        bbox: BBox2::new(Vec2::new(min.0, min.1), Vec2::new(max.0, max.1)),
        entity_id_sample: Vec::new(),
    }
}

#[test]
fn assigns_third_angle_three_view_layout() {
    let clusters = vec![
        cluster(0, (0, 100 * U), (100 * U, 200 * U)),
        cluster(1, (0, 0), (100 * U, 100 * U)),
        cluster(2, (100 * U, 0), (200 * U, 100 * U)),
    ];

    let assignment = assign_three_view_roles(&clusters).expect("expected an assignment");
    assert_eq!(ProjectionScheme::ThirdAngle, assignment.scheme);
    assert!(assignment.confidence > 90);

    let mut front = None;
    let mut top = None;
    let mut right = None;
    for r in assignment.roles {
        match r.role {
            ViewRole::Front => front = Some(r.cluster_id),
            ViewRole::Top => top = Some(r.cluster_id),
            ViewRole::Right => right = Some(r.cluster_id),
        }
    }

    assert_eq!(Some(1), front);
    assert_eq!(Some(0), top);
    assert_eq!(Some(2), right);
}

#[test]
fn assigns_first_angle_layout_and_rejects_other_counts() {
    // top view below the front view, right view to its left
    let clusters = vec![
        cluster(7, (100 * U, 0), (200 * U, 100 * U)),
        cluster(8, (100 * U, 100 * U), (200 * U, 200 * U)),
        cluster(9, (0, 100 * U), (100 * U, 200 * U)),
    ];
    let a = assign_three_view_roles(&clusters).expect("assignment");
    assert_eq!(a.scheme, ProjectionScheme::FirstAngle);
    assert_eq!(a.confidence, 100);
    assert_eq!(a.roles[0].cluster_id, 8);
    assert_eq!(a.roles[1].cluster_id, 7);
    assert_eq!(a.roles[2].cluster_id, 9);
    let two = vec![cluster(7, (100 * U, 0), (200 * U, 100 * U)), cluster(8, (100 * U, 100 * U), (200 * U, 200 * U))];
    assert!(assign_three_view_roles(&two).is_none());
}

#[test]
fn disjoint_set_joins_sets() {
    let mut d = DisjointSet::new(5);
    assert_ne!(d.find(0), d.find(1));
    d.union(0, 1);
    d.union(3, 4);
    assert_eq!(d.find(0), d.find(1));
    assert_eq!(d.find(3), d.find(4));
    assert_ne!(d.find(1), d.find(3));
    d.union(1, 4);
    let r = d.find(0);
    for x in [1, 3, 4] {
        assert_eq!(d.find(x), r);
    }
    assert_eq!(d.find(2), 2);
}

#[test]
fn layer_and_linetype_tests() {
    assert!(is_layer_zero(&Some("0".to_string())));
    assert!(!is_layer_zero(&Some("00".to_string())));
    assert!(!is_layer_zero(&None));
    assert!(is_byblock_linetype(&Some("ByBlock".to_string())));
    assert!(!is_byblock_linetype(&Some("BYLAYER".to_string())));
    assert_eq!(classify_linetype(&Some("Center2".to_string())), EntityKind::Center);
    assert_eq!(classify_linetype(&Some("HIDDENX2".to_string())), EntityKind::Hidden);
    assert_eq!(classify_linetype(&Some("Continuous".to_string())), EntityKind::Object);
    assert_eq!(classify_linetype(&None), EntityKind::Unknown);
}

#[test]
fn empty_text_becomes_none() {
    assert_eq!(empty_to_none("   "), None);
    assert_eq!(empty_to_none(""), None);
    assert_eq!(empty_to_none("  Layer 1 \t"), Some("Layer 1".to_string()));
    assert_eq!(empty_to_none("\u{3000}x y\u{a0}\n"), Some("x y".to_string()));
}

#[test]
fn ids_are_handed_out_in_order() {
    let mut next = 41u64;
    assert_eq!(alloc_id(&mut next), 41);
    assert_eq!(alloc_id(&mut next), 42);
    assert_eq!(next, 43);
}

#[test]
fn dasharray_is_found_in_style() {
    assert_eq!(find_dasharray_in_style("stroke:#000; stroke-dasharray: 5, 2 ;fill:none"), Some("5, 2"));
    assert_eq!(find_dasharray_in_style("stroke-dasharray:4"), Some("4"));
    assert_eq!(find_dasharray_in_style("stroke:#000;fill:none"), None);
    assert_eq!(find_dasharray_in_style(""), None);
}

#[test]
fn workspace_root_is_the_nearest_with_a_lock_file() {
    assert_eq!(find_workspace_root(&vec![false, true, true]), Some(1));
    assert_eq!(find_workspace_root(&vec![false, false]), None);
    assert_eq!(find_workspace_root(&Vec::new()), None);
}

#[test]
fn step_writer_numbers_entities() {
    let mut w = StepWriter::new();
    assert_eq!(w.next_id(), 1);
    let a = w.push("APPLICATION_CONTEXT('x')".to_string());
    let b = w.push(polyline(&vec![a, 17]));
    assert_eq!((a, b), (1, 2));
    assert_eq!(w.next_id(), 3);
    assert_eq!(w.lines, vec!["#1=APPLICATION_CONTEXT('x');".to_string(), "#2=POLYLINE('',(#1,#17));".to_string()]);
    assert_eq!(geometric_curve_set(&vec![]), "GEOMETRIC_CURVE_SET('',())");
    assert_eq!(geometric_curve_set(&vec![5]), "GEOMETRIC_CURVE_SET('',(#5))");
}

#[test]
fn step_strings_double_quotes() {
    assert_eq!(escape_step_string("it's"), "it''s");
    assert_eq!(escape_step_string("plain"), "plain");
    assert_eq!(escape_step_string("''"), "''''");
}

#[test]
fn unit_entities_follow_drawing_units() {
    let (len, plane, solid) = units(9, Units::Meters);
    assert_eq!(len, "(LENGTH_UNIT()NAMED_UNIT(*)SI_UNIT($,.METRE.))");
    assert_eq!(plane, "(NAMED_UNIT(*)PLANE_ANGLE_UNIT()SI_UNIT($,.RADIAN.))");
    assert_eq!(solid, "(NAMED_UNIT(*)SOLID_ANGLE_UNIT()SI_UNIT($,.STERADIAN.))");
    assert_eq!(units(9, Units::Centimeters).0, "(LENGTH_UNIT()NAMED_UNIT(*)SI_UNIT(.CENTI.,.METRE.))");
    assert_eq!(units(9, Units::Inches).0, "(LENGTH_UNIT()NAMED_UNIT(*)SI_UNIT(.MILLI.,.METRE.))");
}

#[test]
fn bezier_is_sampled_at_even_parameters() {
    let b = Bezier2D { p0: Vec2::new(0, 0), p1: Vec2::new(0, 4 * U), p2: Vec2::new(4 * U, 4 * U), p3: Vec2::new(4 * U, 0) };
    let pts = bezier_points(&b, 2);
    assert_eq!(pts.len(), 3);
    assert_eq!(pts[0], Vec2::new(0, 0));
    assert_eq!(pts[1], Vec2::new(2 * U, 3 * U));
    assert_eq!(pts[2], Vec2::new(4 * U, 0));
    assert!(bezier_points(&b, 1).is_empty());
}

#[test]
fn integer_square_root() {
    assert_eq!(isqrt(0), 0);
    assert_eq!(isqrt(15), 3);
    assert_eq!(isqrt(16), 4);
    assert_eq!(isqrt(1_000_000_000_000), 1_000_000);
}

fn to_micro(v: f64) -> i64 {
    (v * 1_000_000.0).round() as i64
}

#[test]
fn writes_basic_step_wireframe() {
    let drawing = Drawing2D {
        units: Units::Millimeters,
        entities: vec![
            Entity2D {
                id: 1,
                kind: EntityKind::Object,
                primitive: Primitive2D::Line(LineSeg2D { a: Vec2::new(0, 0), b: Vec2::new(10 * U, 0) }),
                style: Style { layer: None, linetype: None, color_index: None },
            },
            Entity2D {
                id: 2,
                kind: EntityKind::Object,
                primitive: Primitive2D::Circle(Circle2D { center: Vec2::new(5 * U, 5 * U), radius: 5 * U / 2 }),
                style: Style { layer: None, linetype: None, color_index: None },
            },
        ],
        dims: Vec::new(),
        texts: Vec::new(),
    };
    // the circle sampled at 64 segments, as the caller supplies curve points
    let circle: Vec<Vec2> = (0..=64)
        .map(|i| {
            let a = i as f64 / 64.0 * std::f64::consts::TAU;
            Vec2::new(to_micro(5.0 + 2.5 * a.cos()), to_micro(5.0 + 2.5 * a.sin()))
        })
        .collect();
    let points = vec![vec![Vec2::new(0, 0), Vec2::new(10 * U, 0)], circle];

    let step = cadconvert::step::wireframe_step(&drawing, "part", &points);
    assert!(step.contains("ISO-10303-21;"));
    assert!(step.contains("FILE_SCHEMA(('AUTOMOTIVE_DESIGN_CC2'));"));
    assert!(step.contains("GEOMETRIC_CURVE_SET"));
    assert!(step.contains("POLYLINE"));
    assert!(step.contains("CARTESIAN_POINT"));
}

#[test]
fn wireframe_skips_annotations_and_single_points() {
    let line = |id: u64, kind: EntityKind| Entity2D {
        id,
        kind,
        primitive: Primitive2D::Line(LineSeg2D { a: Vec2::new(0, 0), b: Vec2::new(U, 0) }),
        style: Style { layer: None, linetype: None, color_index: None },
    };
    let drawing = Drawing2D {
        units: Units::Meters,
        entities: vec![line(1, EntityKind::Object), line(2, EntityKind::Text), line(3, EntityKind::Object)],
        dims: Vec::new(),
        texts: Vec::new(),
    };
    let points = vec![
        vec![Vec2::new(0, 0), Vec2::new(U, -U / 2)],
        vec![Vec2::new(0, 0), Vec2::new(U, 0)],
        vec![Vec2::new(3, 3), Vec2::new(3, 3)],
    ];
    let step = cadconvert::step::wireframe_step(&drawing, "  it's  ", &points);
    assert!(step.contains("FILE_NAME('it''s.step'"));
    assert!(step.contains("#9=(LENGTH_UNIT()NAMED_UNIT(*)SI_UNIT($,.METRE.));"));
    assert!(step.contains("#14=CARTESIAN_POINT('',(0.000000,0.000000,0.000000));"));
    assert!(step.contains("#15=CARTESIAN_POINT('',(1.000000,-0.500000,0.000000));"));
    assert!(step.contains("#16=POLYLINE('',(#14,#15));"));
    assert!(step.contains("#17=GEOMETRIC_CURVE_SET('',(#16));"));
    assert!(step.contains("#18=SHAPE_REPRESENTATION('wireframe',(#17),#13);"));
    assert!(step.contains("#19=SHAPE_DEFINITION_REPRESENTATION(#8,#18);"));
    assert_eq!(step.matches("POLYLINE").count(), 1);
    let unnamed = cadconvert::step::wireframe_step(&drawing, "   ", &points);
    assert!(unnamed.contains("#5=PRODUCT('cadconvert','cadconvert','',(#4));"));
}

#[test]
fn analysis_reports_clusters_and_roles() {
    let mut entities = Vec::new();
    let mut id = 1u64;
    // three groups of ten short lines: top, front and right of a third-angle layout
    for (ox, oy) in [(0i64, 100 * U), (0, 0), (100 * U, 0)] {
        for k in 0..10i64 {
            entities.push(Entity2D {
                id,
                kind: EntityKind::Object,
                primitive: Primitive2D::Line(LineSeg2D {
                    a: Vec2::new(ox + k * U, oy),
                    b: Vec2::new(ox + k * U, oy + 50 * U),
                }),
                style: Style { layer: None, linetype: None, color_index: None },
            });
            id += 1;
        }
    }
    let drawing = Drawing2D { units: Units::Millimeters, entities, dims: Vec::new(), texts: Vec::new() };
    let report = Analyzer::new(AnalysisConfig::default()).analyze("dxf", &drawing);
    assert_eq!(report.input_format, "dxf");
    assert_eq!(report.stats.entities_total, 30);
    assert_eq!(report.stats.entities_normalized, 30);
    assert_eq!(report.view_clusters.len(), 3);
    assert!(report.view_clusters.iter().all(|c| c.entity_count == 10));
    // top to bottom, then left to right
    assert_eq!(report.view_clusters[0].entity_id_sample[0], 1);
    assert_eq!(report.view_clusters[1].entity_id_sample[0], 11);
    assert_eq!(report.view_clusters[2].entity_id_sample[0], 21);
    let a = report.view_assignment.expect("roles");
    assert_eq!(a.scheme, ProjectionScheme::ThirdAngle);
    assert!(report.warnings.is_empty());
    let empty = Drawing2D { units: Units::Unknown, entities: Vec::new(), dims: Vec::new(), texts: Vec::new() };
    let r2 = Analyzer::new(AnalysisConfig::default()).analyze("svg", &empty);
    let codes: Vec<&str> = r2.warnings.iter().map(|w| w.code.as_str()).collect();
    assert_eq!(codes, vec!["no_entities", "views_not_detected"]);
    assert!(r2.extents.is_none());
}
