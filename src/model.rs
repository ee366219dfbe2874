//! The normalized drawing handed to the reconstruction pipeline.
use vstd::prelude::*;
use crate::geom::{BBox2, Vec2, COORD_LIMIT};

verus! {

#[derive(Clone, Copy, Debug, PartialEq, Eq, Structural)]
pub enum Units {
    Unknown,
    Inches,
    Millimeters,
    Centimeters,
    Meters,
}

#[derive(Clone, Copy, Debug, PartialEq, Eq, Structural)]
pub enum EntityKind {
    Unknown,
    Object,
    Hidden,
    Center,
    Dimension,
    Text,
    Hatch,
}

#[derive(Clone, Debug)]
pub struct Style {
    pub layer: Option<String>,
    pub linetype: Option<String>,
    pub color_index: Option<i16>,
}

#[derive(Clone, Copy, Debug, PartialEq, Eq, Structural)]
pub struct LineSeg2D {
    pub a: Vec2,
    pub b: Vec2,
}

/// A circle; the radius is in micro-units.
#[derive(Clone, Copy, Debug, PartialEq, Eq, Structural)]
pub struct Circle2D {
    pub center: Vec2,
    pub radius: i64,
}

/// An arc; the angles are in millionths of a degree.
#[derive(Clone, Copy, Debug, PartialEq, Eq, Structural)]
pub struct Arc2D {
    pub center: Vec2,
    pub radius: i64,
    pub start_angle_deg: i64,
    pub end_angle_deg: i64,
}

/// A polyline vertex; the bulge is in millionths.
#[derive(Clone, Copy, Debug, PartialEq, Eq, Structural)]
pub struct PolylineVertex2D {
    pub pos: Vec2,
    pub bulge: i64,
}

#[derive(Clone, Debug)]
pub struct Polyline2D {
    pub vertices: Vec<PolylineVertex2D>,
    pub closed: bool,
}

#[derive(Clone, Copy, Debug, PartialEq, Eq, Structural)]
pub struct Bezier2D {
    pub p0: Vec2,
    pub p1: Vec2,
    pub p2: Vec2,
    pub p3: Vec2,
}

#[derive(Clone, Debug)]
pub enum Primitive2D {
    Line(LineSeg2D),
    Circle(Circle2D),
    Arc(Arc2D),
    Polyline(Polyline2D),
    CubicBezier(Bezier2D),
}

/// The box of a list of points.
pub open spec fn points_bbox(pts: Seq<Vec2>) -> BBox2
    decreases pts.len(),
{
    if pts.len() == 0 {
        BBox2 { min: Vec2 { x: 1, y: 1 }, max: Vec2 { x: 0, y: 0 } }
    } else {
        points_bbox(pts.drop_last()).spec_include(pts.last())
    }
}

pub open spec fn vertex_positions(vs: Seq<PolylineVertex2D>) -> Seq<Vec2> {
    vs.map_values(|v: PolylineVertex2D| v.pos)
}

pub open spec fn all_in_range(pts: Seq<Vec2>) -> bool {
    forall|i: int| 0 <= i < pts.len() ==> (#[trigger] pts[i]).in_range()
}

pub open spec fn radius_ok(c: Vec2, r: i64) -> bool {
    c.in_range() && 0 <= r <= COORD_LIMIT
}

impl Primitive2D {
    /// Coordinates within `COORD_LIMIT`, radii within `[0, COORD_LIMIT]`.
    pub open spec fn well_formed(&self) -> bool {
        match self {
            Primitive2D::Line(l) => l.a.in_range() && l.b.in_range(),
            Primitive2D::Circle(c) => radius_ok(c.center, c.radius),
            Primitive2D::Arc(a) => radius_ok(a.center, a.radius),
            Primitive2D::Polyline(p) => all_in_range(vertex_positions(p.vertices@)),
            Primitive2D::CubicBezier(b) => b.p0.in_range() && b.p1.in_range() && b.p2.in_range()
                && b.p3.in_range(),
        }
    }

    /// The box over the endpoints or vertices; `center ± radius` for circles and arcs.
    pub open spec fn spec_bbox(&self) -> BBox2 {
        match self {
            Primitive2D::Line(l) => points_bbox(seq![l.a, l.b]),
            Primitive2D::Circle(c) => BBox2 {
                min: Vec2 { x: (c.center.x - c.radius) as i64, y: (c.center.y - c.radius) as i64 },
                max: Vec2 { x: (c.center.x + c.radius) as i64, y: (c.center.y + c.radius) as i64 },
            },
            Primitive2D::Arc(a) => points_bbox(
                seq![
                    Vec2 { x: (a.center.x - a.radius) as i64, y: (a.center.y - a.radius) as i64 },
                    Vec2 { x: (a.center.x + a.radius) as i64, y: (a.center.y + a.radius) as i64 },
                ],
            ),
            Primitive2D::Polyline(p) => points_bbox(vertex_positions(p.vertices@)),
            Primitive2D::CubicBezier(b) => points_bbox(seq![b.p0, b.p1, b.p2, b.p3]),
        }
    }

    pub fn bbox(&self) -> (r: BBox2)
        requires
            self.well_formed(),
        ensures
            r == self.spec_bbox(),
            r.bounded_by(2 * COORD_LIMIT),
    {
        match self {
            Primitive2D::Line(l) => {
                let mut b = BBox2::empty();
                b.include_point(l.a);
                b.include_point(l.b);
                proof {
                    reveal_with_fuel(points_bbox, 3);
                }
                b
            },
            Primitive2D::Circle(c) => BBox2::new(
                Vec2::new(c.center.x - c.radius, c.center.y - c.radius),
                Vec2::new(c.center.x + c.radius, c.center.y + c.radius),
            ),
            Primitive2D::Arc(a) => {
                let mut b = BBox2::empty();
                b.include_point(Vec2::new(a.center.x - a.radius, a.center.y - a.radius));
                b.include_point(Vec2::new(a.center.x + a.radius, a.center.y + a.radius));
                proof {
                    reveal_with_fuel(points_bbox, 3);
                }
                b
            },
            Primitive2D::Polyline(p) => {
                let mut b = BBox2::empty();
                let mut i: usize = 0;
                assert(vertex_positions(p.vertices@).take(0) == Seq::<Vec2>::empty());
                while i < p.vertices.len()
                    invariant
                        i <= p.vertices@.len(),
                        all_in_range(vertex_positions(p.vertices@)),
                        b == points_bbox(vertex_positions(p.vertices@).take(i as int)),
                        b.bounded_by(COORD_LIMIT as int),
                    decreases p.vertices@.len() - i,
                {
                    let ghost ps = vertex_positions(p.vertices@);
                    assert(ps.take(i + 1).drop_last() == ps.take(i as int));
                    assert(ps[i as int].in_range());
                    b.include_point(p.vertices[i].pos);
                    i = i + 1;
                }
                assert(vertex_positions(p.vertices@).take(i as int) == vertex_positions(
                    p.vertices@,
                ));
                b
            },
            Primitive2D::CubicBezier(z) => {
                let mut b = BBox2::empty();
                b.include_point(z.p0);
                b.include_point(z.p1);
                b.include_point(z.p2);
                b.include_point(z.p3);
                proof {
                    reveal_with_fuel(points_bbox, 5);
                    assert(seq![z.p0, z.p1, z.p2, z.p3].drop_last() == seq![z.p0, z.p1, z.p2]);
                    assert(seq![z.p0, z.p1, z.p2].drop_last() == seq![z.p0, z.p1]);
                    assert(seq![z.p0, z.p1].drop_last() == seq![z.p0]);
                    assert(seq![z.p0].drop_last() == Seq::<Vec2>::empty());
                }
                b
            },
        }
    }
}

#[derive(Clone, Debug)]
pub struct Entity2D {
    pub id: u64,
    pub kind: EntityKind,
    pub primitive: Primitive2D,
    pub style: Style,
}

impl Entity2D {
    pub fn bbox(&self) -> (r: BBox2)
        requires
            self.primitive.well_formed(),
        ensures
            r == self.primitive.spec_bbox(),
            r.bounded_by(2 * COORD_LIMIT),
    {
        self.primitive.bbox()
    }

    /// The two entities hold the same values.
    pub open spec fn same(&self, o: &Entity2D) -> bool {
        &&& self.id == o.id
        &&& self.kind == o.kind
        &&& self.style == o.style
        &&& match (self.primitive, o.primitive) {
            (Primitive2D::Polyline(a), Primitive2D::Polyline(b)) => a.vertices@ == b.vertices@ && a.closed
                == b.closed,
            (Primitive2D::Polyline(_), _) => false,
            (_, Primitive2D::Polyline(_)) => false,
            _ => self.primitive == o.primitive,
        }
    }

    /// A copy that holds the same values.
    pub fn duplicate(&self) -> (r: Entity2D)
        ensures
            r.same(self),
    {
        let primitive = match &self.primitive {
            Primitive2D::Line(l) => Primitive2D::Line(*l),
            Primitive2D::Circle(c) => Primitive2D::Circle(*c),
            Primitive2D::Arc(a) => Primitive2D::Arc(*a),
            Primitive2D::CubicBezier(b) => Primitive2D::CubicBezier(*b),
            Primitive2D::Polyline(p) => {
                let mut vs: Vec<PolylineVertex2D> = Vec::new();
                let mut i: usize = 0;
                while i < p.vertices.len()
                    invariant
                        i <= p.vertices@.len(),
                        vs@ == p.vertices@.take(i as int),
                    decreases p.vertices@.len() - i,
                {
                    vs.push(p.vertices[i]);
                    i = i + 1;
                }
                assert(vs@ == p.vertices@);
                Primitive2D::Polyline(Polyline2D { vertices: vs, closed: p.closed })
            },
        };
        Entity2D { id: self.id, kind: self.kind, primitive, style: copy_style(&self.style) }
    }
}

fn copy_text(s: &Option<String>) -> (r: Option<String>)
    ensures
        r == *s,
{
    match s {
        Some(t) => Some(t.clone()),
        None => None,
    }
}

fn copy_style(s: &Style) -> (r: Style)
    ensures
        r == *s,
{
    Style { layer: copy_text(&s.layer), linetype: copy_text(&s.linetype), color_index: s.color_index }
}

/// A text label; positions and height in micro-units.
#[derive(Clone, Debug)]
pub struct TextEntity {
    pub id: u64,
    pub text: String,
    pub at: Vec2,
    pub height: Option<i64>,
    pub style: Style,
}

/// A dimension annotation; the measurement is in micro-units.
#[derive(Clone, Debug)]
pub struct DimensionEntity {
    pub id: u64,
    pub raw_type: Option<i16>,
    pub text: Option<String>,
    pub measurement: Option<i64>,
    pub style: Style,
}

#[derive(Clone, Debug)]
pub struct Drawing2D {
    pub units: Units,
    pub entities: Vec<Entity2D>,
    pub dims: Vec<DimensionEntity>,
    pub texts: Vec<TextEntity>,
}

/// The box around the boxes of the given entities.
pub open spec fn entities_bbox(es: Seq<Entity2D>) -> BBox2
    decreases es.len(),
{
    if es.len() == 0 {
        BBox2 { min: Vec2 { x: 1, y: 1 }, max: Vec2 { x: 0, y: 0 } }
    } else {
        entities_bbox(es.drop_last()).spec_union(es.last().primitive.spec_bbox())
    }
}

impl Drawing2D {
    /// The box around all entities; none for a drawing without entities.
    pub fn extents(&self) -> (r: Option<BBox2>)
        requires
            self.well_formed(),
        ensures
            self.entities@.len() == 0 ==> r is None,
            self.entities@.len() > 0 ==> r == Some(entities_bbox(self.entities@)),
            r matches Some(b) ==> b.bounded_by(2 * COORD_LIMIT),
    {
        let mut b = BBox2::empty();
        let mut k: usize = 0;
        while k < self.entities.len()
            invariant
                k <= self.entities@.len(),
                self.well_formed(),
                b == entities_bbox(self.entities@.take(k as int)),
                b.bounded_by(2 * COORD_LIMIT),
            decreases self.entities@.len() - k,
        {
            assert(self.entities@.take(k + 1).drop_last() == self.entities@.take(k as int));
            assert(self.entities@[k as int].primitive.well_formed());
            let eb = self.entities[k].bbox();
            b = b.union(&eb);
            k = k + 1;
        }
        assert(self.entities@.take(k as int) == self.entities@);
        if k > 0 { Some(b) } else { None }
    }

    /// Every primitive is well formed.
    pub open spec fn well_formed(&self) -> bool {
        forall|i: int| 0 <= i < self.entities@.len() ==> (#[trigger] self.entities@[i]).primitive.well_formed()
    }
}

} // verus!
