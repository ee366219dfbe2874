//! A STEP AP214 wireframe of the drawing itself: one polyline per entity.
use vstd::prelude::*;
use crate::geom::Vec2;
use crate::model::{Bezier2D, Drawing2D, Entity2D, EntityKind, Units};
use crate::step_writer::{dec_digits, fixed, push_fixed, push_ref, ref_text};
use crate::text::{trim_text, trimmed};

verus! {

/// Numbers entities and collects their lines.
pub struct StepWriter {
    pub next_id: u32,
    pub lines: Vec<String>,
}

/// A data line: `#id=entity;`.
pub open spec fn entity_line(id: nat, entity: Seq<char>) -> Seq<char> {
    ref_text(id) + "="@ + entity + ";"@
}

impl StepWriter {
    pub fn new() -> (r: StepWriter)
        ensures
            r.next_id == 1,
            r.lines@.len() == 0,
    {
        StepWriter { next_id: 1, lines: Vec::new() }
    }

    pub fn next_id(&self) -> (r: u32)
        ensures
            r == self.next_id,
    {
        self.next_id
    }

    /// Adds `#id=entity;` under the next id and returns that id.
    pub fn push(&mut self, entity: String) -> (r: u32)
        requires
            old(self).next_id < u32::MAX,
        ensures
            r == old(self).next_id,
            final(self).next_id == old(self).next_id + 1,
            final(self).lines@.len() == old(self).lines@.len() + 1,
            forall|k: int| 0 <= k < old(self).lines@.len() ==> #[trigger] final(self).lines@[k] == old(self).lines@[k],
            final(self).lines@[old(self).lines@.len() as int]@ == entity_line(r as nat, entity@),
    {
        let id = self.next_id;
        self.next_id = id + 1;
        let mut line = String::new();
        line.append("#");
        crate::step_writer::push_dec(&mut line, id as u64);
        line.append("=");
        line.append(entity.as_str());
        line.append(";");
        reveal(ref_text);
        assert(line@ =~= entity_line(id as nat, entity@));
        self.lines.push(line);
        id
    }
}

/// `s` with each single quote doubled.
pub open spec fn escaped(s: Seq<char>) -> Seq<char>
    decreases s.len(),
{
    if s.len() == 0 {
        Seq::empty()
    } else {
        escaped(s.drop_last()) + if s.last() == '\'' { seq!['\'', '\''] } else { seq![s.last()] }
    }
}

/// Escapes a STEP string literal by doubling its single quotes.
pub fn escape_step_string(s: &str) -> (r: String)
    ensures
        r@ == escaped(s@),
{
    let n = s.unicode_len();
    let mut out = String::new();
    let mut i: usize = 0;
    while i < n
        invariant
            n == s@.len(),
            i <= n,
            out@ == escaped(s@.take(i as int)),
        decreases n - i,
    {
        let c = s.get_char(i);
        assert(s@.take(i + 1).drop_last() == s@.take(i as int));
        if c == '\'' {
            out.append("''");
            proof {
                reveal_strlit("''");
            }
        } else {
            let one = s.substring_char(i, i + 1);
            assert(one@ =~= seq![c]);
            out.append(one);
        }
        assert(out@ =~= escaped(s@.take(i + 1)));
        i = i + 1;
    }
    assert(s@.take(n as int) == s@);
    out
}

/// `#a,#b,...` for the given ids.
pub open spec fn id_list(ids: Seq<u32>) -> Seq<char>
    decreases ids.len(),
{
    if ids.len() == 0 {
        Seq::empty()
    } else if ids.len() == 1 {
        ref_text(ids[0] as nat)
    } else {
        id_list(ids.drop_last()) + ","@ + ref_text(ids.last() as nat)
    }
}

fn push_id_list(out: &mut String, ids: &Vec<u32>)
    ensures
        final(out)@ == old(out)@ + id_list(ids@),
{
    let ghost start = out@;
    let mut i: usize = 0;
    while i < ids.len()
        invariant
            i <= ids@.len(),
            out@ == start + id_list(ids@.take(i as int)),
        decreases ids@.len() - i,
    {
        assert(ids@.take(i + 1).drop_last() == ids@.take(i as int));
        if i > 0 {
            out.append(",");
        }
        out.append("#");
        crate::step_writer::push_dec(out, ids[i] as u64);
        reveal(ref_text);
        proof {
            if i == 0 {
                assert(ids@.take(1) == seq![ids@[0]]);
            }
        }
        assert(out@ =~= start + id_list(ids@.take(i + 1)));
        i = i + 1;
    }
    assert(ids@.take(ids@.len() as int) == ids@);
}

/// `POLYLINE('',(#a,#b,...))`.
pub fn polyline(point_ids: &Vec<u32>) -> (r: String)
    ensures
        r@ == "POLYLINE('',("@ + id_list(point_ids@) + "))"@,
{
    let mut s = String::new();
    s.append("POLYLINE('',(");
    push_id_list(&mut s, point_ids);
    s.append("))");
    s
}

/// `GEOMETRIC_CURVE_SET('',(#a,#b,...))`.
pub fn geometric_curve_set(curve_ids: &Vec<u32>) -> (r: String)
    ensures
        r@ == "GEOMETRIC_CURVE_SET('',("@ + id_list(curve_ids@) + "))"@,
{
    let mut s = String::new();
    s.append("GEOMETRIC_CURVE_SET('',(");
    push_id_list(&mut s, curve_ids);
    s.append("))");
    s
}

/// The length unit of the drawing's units: metres, centimetres, or else millimetres.
pub open spec fn length_unit_text(u: Units) -> Seq<char> {
    match u {
        Units::Meters => "(LENGTH_UNIT()NAMED_UNIT(*)SI_UNIT($,.METRE.))"@,
        Units::Centimeters => "(LENGTH_UNIT()NAMED_UNIT(*)SI_UNIT(.CENTI.,.METRE.))"@,
        _ => "(LENGTH_UNIT()NAMED_UNIT(*)SI_UNIT(.MILLI.,.METRE.))"@,
    }
}

/// The length, plane-angle and solid-angle unit entities.
pub fn units(next_id_hint: u32, drawing_units: Units) -> (r: (String, String, String))
    ensures
        r.0@ == length_unit_text(drawing_units),
        r.1@ == "(NAMED_UNIT(*)PLANE_ANGLE_UNIT()SI_UNIT($,.RADIAN.))"@,
        r.2@ == "(NAMED_UNIT(*)SOLID_ANGLE_UNIT()SI_UNIT($,.STERADIAN.))"@,
{
    let len = match drawing_units {
        Units::Meters => "(LENGTH_UNIT()NAMED_UNIT(*)SI_UNIT($,.METRE.))",
        Units::Centimeters => "(LENGTH_UNIT()NAMED_UNIT(*)SI_UNIT(.CENTI.,.METRE.))",
        _ => "(LENGTH_UNIT()NAMED_UNIT(*)SI_UNIT(.MILLI.,.METRE.))",
    };
    (
        String::from_str(len),
        String::from_str("(NAMED_UNIT(*)PLANE_ANGLE_UNIT()SI_UNIT($,.RADIAN.))"),
        String::from_str("(NAMED_UNIT(*)SOLID_ANGLE_UNIT()SI_UNIT($,.STERADIAN.))"),
    )
}

/// One coordinate of the cubic Bézier curve at parameter `i / n`, rounded
/// toward negative infinity.
pub open spec fn bezier_coord(c0: int, c1: int, c2: int, c3: int, i: int, n: int) -> int {
    let u = n - i;
    (u * u * u * c0 + 3 * u * u * i * c1 + 3 * u * i * i * c2 + i * i * i * c3) / (n * n * n)
}

pub open spec fn bezier_at(b: Bezier2D, i: int, n: int) -> Vec2 {
    Vec2 {
        x: bezier_coord(b.p0.x as int, b.p1.x as int, b.p2.x as int, b.p3.x as int, i, n) as i64,
        y: bezier_coord(b.p0.y as int, b.p1.y as int, b.p2.y as int, b.p3.y as int, i, n) as i64,
    }
}

/// Bound on the number of pieces of a sampled curve.
pub const MAX_SEGMENTS: usize = 1_000_000;

proof fn lemma_weighted(w: int, c: int)
    requires
        w >= 0,
        -1_000_000_000_000 <= c <= 1_000_000_000_000,
    ensures
        -1_000_000_000_000 * w <= w * c <= 1_000_000_000_000 * w,
{
    assert(-1_000_000_000_000 * w <= w * c <= 1_000_000_000_000 * w) by (nonlinear_arith)
        requires w >= 0, -1_000_000_000_000 <= c <= 1_000_000_000_000;
}

proof fn lemma_bezier_bounds(c0: int, c1: int, c2: int, c3: int, i: int, n: int)
    requires
        0 <= i <= n,
        1 <= n <= MAX_SEGMENTS,
        -crate::geom::COORD_LIMIT <= c0 <= crate::geom::COORD_LIMIT,
        -crate::geom::COORD_LIMIT <= c1 <= crate::geom::COORD_LIMIT,
        -crate::geom::COORD_LIMIT <= c2 <= crate::geom::COORD_LIMIT,
        -crate::geom::COORD_LIMIT <= c3 <= crate::geom::COORD_LIMIT,
    ensures
        -crate::geom::COORD_LIMIT <= bezier_coord(c0, c1, c2, c3, i, n) <= crate::geom::COORD_LIMIT,
{
    let l = crate::geom::COORD_LIMIT as int;
    let u = n - i;
    let w0 = u * u * u;
    let w1 = 3 * u * u * i;
    let w2 = 3 * u * i * i;
    let w3 = i * i * i;
    let d = n * n * n;
    assert(w0 + w1 + w2 + w3 == d) by (nonlinear_arith)
        requires u == n - i, w0 == u * u * u, w1 == 3 * u * u * i, w2 == 3 * u * i * i, w3 == i * i * i, d == n * n * n;
    assert(w0 >= 0 && w1 >= 0 && w2 >= 0 && w3 >= 0 && d > 0) by (nonlinear_arith)
        requires u >= 0, i >= 0, n >= 1, w0 == u * u * u, w1 == 3 * u * u * i, w2 == 3 * u * i * i, w3 == i * i * i, d == n * n * n;
    let s = w0 * c0 + w1 * c1 + w2 * c2 + w3 * c3;
    lemma_weighted(w0, c0);
    lemma_weighted(w1, c1);
    lemma_weighted(w2, c2);
    lemma_weighted(w3, c3);
    assert(-1_000_000_000_000 * d <= s <= 1_000_000_000_000 * d);
    assert(s == u * u * u * c0 + 3 * u * u * i * c1 + 3 * u * i * i * c2 + i * i * i * c3) by (nonlinear_arith)
        requires w0 == u * u * u, w1 == 3 * u * u * i, w2 == 3 * u * i * i, w3 == i * i * i,
            s == w0 * c0 + w1 * c1 + w2 * c2 + w3 * c3;
    crate::topology::lemma_div_bounds(s, d, l);
}

/// One coordinate of the curve at `i / n`.
fn bezier_coord_exec(c0: i64, c1: i64, c2: i64, c3: i64, i: usize, n: usize) -> (r: i64)
    requires
        0 <= i <= n,
        1 <= n <= MAX_SEGMENTS,
        -crate::geom::COORD_LIMIT <= c0 <= crate::geom::COORD_LIMIT,
        -crate::geom::COORD_LIMIT <= c1 <= crate::geom::COORD_LIMIT,
        -crate::geom::COORD_LIMIT <= c2 <= crate::geom::COORD_LIMIT,
        -crate::geom::COORD_LIMIT <= c3 <= crate::geom::COORD_LIMIT,
    ensures
        r == bezier_coord(c0 as int, c1 as int, c2 as int, c3 as int, i as int, n as int),
{
    let nn = n as i128;
    let ii = i as i128;
    let u = nn - ii;
    assert(0 <= u * u <= 1_000_000_000_000 && 0 <= u * u * u <= 1_000_000_000_000_000_000) by (nonlinear_arith)
        requires 0 <= u <= 1_000_000;
    assert(0 <= ii * ii <= 1_000_000_000_000 && 0 <= ii * ii * ii <= 1_000_000_000_000_000_000) by (nonlinear_arith)
        requires 0 <= ii <= 1_000_000;
    assert(0 <= u * u * ii <= 1_000_000_000_000_000_000 && 0 <= u * ii * ii <= 1_000_000_000_000_000_000)
        by (nonlinear_arith)
        requires 0 <= ii <= 1_000_000, 0 <= u <= 1_000_000;
    assert(0 <= u * ii <= 1_000_000_000_000) by (nonlinear_arith)
        requires 0 <= ii <= 1_000_000, 0 <= u <= 1_000_000;
    assert(0 < nn * nn * nn <= 1_000_000_000_000_000_000 && 0 < nn * nn <= 1_000_000_000_000) by (nonlinear_arith)
        requires 1 <= nn <= 1_000_000;
    let w0: i128 = u * u * u;
    let w1: i128 = 3 * (u * u * ii);
    let w2: i128 = 3 * (u * ii * ii);
    let w3: i128 = ii * ii * ii;
    let a0 = c0 as i128;
    let a1 = c1 as i128;
    let a2 = c2 as i128;
    let a3 = c3 as i128;
    assert(-3_000_000_000_000_000_000_000_000_000_000 <= w0 * a0 <= 3_000_000_000_000_000_000_000_000_000_000) by (nonlinear_arith)
        requires 0 <= w0 <= 3_000_000_000_000_000_000, -1_000_000_000_000 <= a0 <= 1_000_000_000_000;
    assert(-3_000_000_000_000_000_000_000_000_000_000 <= w1 * a1 <= 3_000_000_000_000_000_000_000_000_000_000) by (nonlinear_arith)
        requires 0 <= w1 <= 3_000_000_000_000_000_000, -1_000_000_000_000 <= a1 <= 1_000_000_000_000;
    assert(-3_000_000_000_000_000_000_000_000_000_000 <= w2 * a2 <= 3_000_000_000_000_000_000_000_000_000_000) by (nonlinear_arith)
        requires 0 <= w2 <= 3_000_000_000_000_000_000, -1_000_000_000_000 <= a2 <= 1_000_000_000_000;
    assert(-3_000_000_000_000_000_000_000_000_000_000 <= w3 * a3 <= 3_000_000_000_000_000_000_000_000_000_000) by (nonlinear_arith)
        requires 0 <= w3 <= 3_000_000_000_000_000_000, -1_000_000_000_000 <= a3 <= 1_000_000_000_000;
    let s: i128 = w0 * a0 + w1 * a1 + w2 * a2 + w3 * a3;
    let d: i128 = nn * nn * nn;
    proof {
        lemma_bezier_bounds(c0 as int, c1 as int, c2 as int, c3 as int, i as int, n as int);
        assert(s == u * u * u * a0 + 3 * u * u * ii * a1 + 3 * u * ii * ii * a2 + ii * ii * ii * a3) by (nonlinear_arith)
            requires w0 == u * u * u, w1 == 3 * (u * u * ii), w2 == 3 * (u * ii * ii), w3 == ii * ii * ii,
                s == w0 * a0 + w1 * a1 + w2 * a2 + w3 * a3;
    }
    crate::topology::floor_div(s, d) as i64
}

/// Samples a cubic Bézier curve at `segments + 1` evenly spaced parameters;
/// nothing for fewer than two segments.
pub fn bezier_points(b: &Bezier2D, segments: usize) -> (r: Vec<Vec2>)
    requires
        segments <= MAX_SEGMENTS,
        b.p0.in_range() && b.p1.in_range() && b.p2.in_range() && b.p3.in_range(),
    ensures
        segments < 2 ==> r@.len() == 0,
        segments >= 2 ==> r@.len() == segments + 1 && forall|i: int|
            0 <= i <= segments ==> #[trigger] r@[i] == bezier_at(*b, i, segments as int),
{
    let mut pts: Vec<Vec2> = Vec::new();
    if segments < 2 {
        return pts;
    }
    let mut i: usize = 0;
    while i <= segments
        invariant
            2 <= segments <= MAX_SEGMENTS,
            b.p0.in_range() && b.p1.in_range() && b.p2.in_range() && b.p3.in_range(),
            i <= segments + 1,
            pts@.len() == i,
            forall|q: int| 0 <= q < i ==> #[trigger] pts@[q] == bezier_at(*b, q, segments as int),
        decreases segments + 1 - i,
    {
        let x = bezier_coord_exec(b.p0.x, b.p1.x, b.p2.x, b.p3.x, i, segments);
        let y = bezier_coord_exec(b.p0.y, b.p1.y, b.p2.y, b.p3.y, i, segments);
        pts.push(Vec2 { x, y });
        i = i + 1;
    }
    pts
}


/// The product name: the trimmed name, `cadconvert` where that is empty,
/// with its quotes doubled.
pub open spec fn safe_name(name: Seq<char>) -> Seq<char> {
    let t = trimmed(name);
    escaped(if t.len() == 0 { "cadconvert"@ } else { t })
}

/// The file header and the fixed product and context entities, ids 1 to 13.
pub open spec fn wire_header(name: Seq<char>, u: Units) -> Seq<char> {
    wire_header_named(safe_name(name), u)
}

/// The header for the product name `n`, as written.
#[verifier::opaque]
pub open spec fn wire_header_named(n: Seq<char>, u: Units) -> Seq<char> {
    "ISO-10303-21;\nHEADER;\nFILE_DESCRIPTION(('cadconvert wireframe'),'2;1');\nFILE_NAME('"@ + n
        + ".step','1970-01-01T00:00:00',('cadconvert'),(''),'cadconvert','cadconvert','');\nFILE_SCHEMA(('AUTOMOTIVE_DESIGN_CC2'));\nENDSEC;\nDATA;\n#1=APPLICATION_CONTEXT('core data for automotive mechanical design processes');\n#2=APPLICATION_PROTOCOL_DEFINITION('international standard','automotive_design',2000,#1);\n#3=PRODUCT_DEFINITION_CONTEXT('part definition',#1,'design');\n#4=PRODUCT_CONTEXT('',#1,'mechanical');\n#5=PRODUCT('"@
        + n + "','"@ + n
        + "','',(#4));\n#6=PRODUCT_DEFINITION_FORMATION_WITH_SPECIFIED_SOURCE('','',#5,.MADE.);\n#7=PRODUCT_DEFINITION('','',#6,#3);\n#8=PRODUCT_DEFINITION_SHAPE('','',#7);\n#9="@
        + length_unit_text(u)
        + ";\n#10=(NAMED_UNIT(*)PLANE_ANGLE_UNIT()SI_UNIT($,.RADIAN.));\n#11=(NAMED_UNIT(*)SOLID_ANGLE_UNIT()SI_UNIT($,.STERADIAN.));\n#12=UNCERTAINTY_MEASURE_WITH_UNIT(LENGTH_MEASURE(1.E-6),#9,'distance_accuracy_value','');\n#13=(GEOMETRIC_REPRESENTATION_CONTEXT(3)GLOBAL_UNCERTAINTY_ASSIGNED_CONTEXT((#12))GLOBAL_UNIT_ASSIGNED_CONTEXT((#9,#10,#11))REPRESENTATION_CONTEXT('',''));\n"@
}

/// An entity that the wireframe draws: not an annotation or a hatch, and
/// with at least two distinct points.
pub open spec fn drawn(e: Entity2D, pts: Seq<Vec2>) -> bool {
    &&& e.kind != EntityKind::Dimension && e.kind != EntityKind::Text && e.kind != EntityKind::Hatch
    &&& pts.len() >= 2
    &&& exists|q: int| 0 <= q < pts.len() && #[trigger] pts[q] != pts[0]
}

/// CARTESIAN_POINT lines for `pts`, numbered from `first`.
pub open spec fn point_lines(pts: Seq<Vec2>, first: nat) -> Seq<char>
    decreases pts.len(),
{
    if pts.len() == 0 {
        Seq::empty()
    } else {
        point_lines(pts.drop_last(), first) + point_line((first + pts.len() - 1) as nat, pts.last())
    }
}

/// The ids `first .. first + n`.
pub open spec fn id_range(first: nat, n: nat) -> Seq<u32> {
    Seq::new(n, |i: int| (first + i) as u32)
}

/// The points and the POLYLINE of one drawn entity, numbered from `first`.
pub open spec fn curve_block(pts: Seq<Vec2>, first: nat) -> Seq<char> {
    point_lines(pts, first) + entity_line(
        first + pts.len(),
        "POLYLINE('',("@ + id_list(id_range(first, pts.len())) + "))"@,
    ) + "\n"@
}

/// The text, next id and polyline ids after the first `n` entities.
pub open spec fn curves(es: Seq<Entity2D>, cps: Seq<Seq<Vec2>>, n: int) -> (Seq<char>, nat, Seq<u32>)
    decreases n,
{
    if n <= 0 {
        (Seq::empty(), 14, Seq::empty())
    } else {
        let (t, id, ids) = curves(es, cps, n - 1);
        if drawn(es[n - 1], cps[n - 1]) {
            (t + curve_block(cps[n - 1], id), id + cps[n - 1].len() + 1, ids.push((id + cps[n - 1].len()) as u32))
        } else {
            (t, id, ids)
        }
    }
}

/// The curve set, the shape representation and its link to the product.
pub open spec fn wire_footer(next: nat, ids: Seq<u32>) -> Seq<char> {
    entity_line(next, "GEOMETRIC_CURVE_SET('',("@ + id_list(ids) + "))"@) + "\n"@ + entity_line(
        next + 1,
        "SHAPE_REPRESENTATION('wireframe',("@ + ref_text(next) + "),#13)"@,
    ) + "\n"@ + entity_line(next + 2, "SHAPE_DEFINITION_REPRESENTATION(#8,"@ + ref_text(next + 1) + ")"@) + "\n"@
        + "ENDSEC;\nEND-ISO-10303-21;\n"@
}

pub open spec fn wireframe_text(d: &Drawing2D, name: Seq<char>, cps: Seq<Seq<Vec2>>) -> Seq<char> {
    let (t, next, ids) = curves(d.entities@, cps, d.entities@.len() as int);
    wire_header(name, d.units) + t + wire_footer(next, ids)
}

/// The number of ids that the first `n` point lists may take.
pub open spec fn total_size(cps: Seq<Seq<Vec2>>, n: int) -> nat
    decreases n,
{
    if n <= 0 { 0 } else { total_size(cps, n - 1) + cps[n - 1].len() + 1 }
}

/// Bounded sizes and coordinates, so that ids fit in 32 bits and numbers print.
pub open spec fn points_ok(cps: Seq<Seq<Vec2>>) -> bool {
    &&& total_size(cps, cps.len() as int) <= 0x1000_0000
    &&& forall|k: int| 0 <= k < cps.len() ==> printable(#[trigger] cps[k])
}

/// Every coordinate can be negated.
pub open spec fn printable(pts: Seq<Vec2>) -> bool {
    forall|q: int| 0 <= q < pts.len() ==> (#[trigger] pts[q]).x > i64::MIN && pts[q].y > i64::MIN
}

proof fn lemma_total_mono(cps: Seq<Seq<Vec2>>, a: int, b: int)
    requires
        0 <= a <= b,
    ensures
        total_size(cps, a) <= total_size(cps, b),
    decreases b - a,
{
    if a < b {
        lemma_total_mono(cps, a, b - 1);
    }
}

proof fn lemma_curves_next(es: Seq<Entity2D>, cps: Seq<Seq<Vec2>>, n: int)
    requires
        0 <= n <= cps.len(),
    ensures
        curves(es, cps, n).1 <= 14 + total_size(cps, n),
        curves(es, cps, n).1 >= 14,
        curves(es, cps, n).2.len() <= n,
    decreases n,
{
    if n > 0 {
        lemma_curves_next(es, cps, n - 1);
    }
}

/// The CARTESIAN_POINT line of `p` under `id`.
pub open spec fn point_line(id: nat, p: Vec2) -> Seq<char> {
    entity_line(id, "CARTESIAN_POINT('',("@ + fixed(p.x as int) + ","@ + fixed(p.y as int) + ",0.000000))"@) + "\n"@
}

fn push_point_line(out: &mut String, id: u32, p: Vec2)
    requires
        p.x > i64::MIN && p.y > i64::MIN,
    ensures
        final(out)@ == old(out)@ + point_line(id as nat, p),
{
    let ghost start = out@;
    push_ref(out, id as u64);
    out.append("=");
    out.append("CARTESIAN_POINT('',(");
    push_fixed(out, p.x);
    out.append(",");
    push_fixed(out, p.y);
    out.append(",0.000000))");
    out.append(";");
    out.append("\n");
    assert(out@ =~= start + point_line(id as nat, p));
}

/// Appends the points and the POLYLINE of one entity.
fn push_curve_block(out: &mut String, pts: &Vec<Vec2>, first: u32)
    requires
        first as int + pts@.len() + 1 < 0xffff_ffff,
        forall|q: int| 0 <= q < pts@.len() ==> (#[trigger] pts@[q]).x > i64::MIN && pts@[q].y > i64::MIN,
    ensures
        final(out)@ == old(out)@ + curve_block(pts@, first as nat),
{
    let ghost start = out@;
    let mut ids: Vec<u32> = Vec::new();
    let mut q: usize = 0;
    while q < pts.len()
        invariant
            q <= pts@.len(),
            first as int + pts@.len() + 1 < 0xffff_ffff,
            forall|t: int| 0 <= t < pts@.len() ==> (#[trigger] pts@[t]).x > i64::MIN && pts@[t].y > i64::MIN,
            ids@ == id_range(first as nat, q as nat),
            out@ == start + point_lines(pts@.take(q as int), first as nat),
        decreases pts@.len() - q,
    {
        let id: u32 = first + q as u32;
        let p = pts[q];
        assert(pts@[q as int].x > i64::MIN);
        push_point_line(out, id, p);
        ids.push(id);
        assert(pts@.take(q + 1).drop_last() == pts@.take(q as int));
        assert(pts@.take(q + 1).last() == pts@[q as int]);
        assert(out@ =~= start + point_lines(pts@.take(q + 1), first as nat));
        assert(ids@ =~= id_range(first as nat, (q + 1) as nat));
        q = q + 1;
    }
    assert(pts@.take(q as int) == pts@);
    let poly_id: u32 = first + pts.len() as u32;
    push_ref(out, poly_id as u64);
    out.append("=");
    out.append("POLYLINE('',(");
    push_id_list(out, &ids);
    out.append("))");
    out.append(";");
    out.append("\n");
    assert(out@ =~= start + curve_block(pts@, first as nat));
}

/// Whether the entity is drawn with these points.
fn is_drawn(e: &Entity2D, pts: &Vec<Vec2>) -> (r: bool)
    ensures
        r == drawn(*e, pts@),
{
    if e.kind == EntityKind::Dimension || e.kind == EntityKind::Text || e.kind == EntityKind::Hatch {
        return false;
    }
    if pts.len() < 2 {
        return false;
    }
    let p0 = pts[0];
    let mut q: usize = 1;
    while q < pts.len()
        invariant
            1 <= q <= pts@.len(),
            pts@.len() >= 2,
            e.kind != EntityKind::Dimension && e.kind != EntityKind::Text && e.kind != EntityKind::Hatch,
            p0 == pts@[0],
            forall|t: int| 0 <= t < q ==> #[trigger] pts@[t] == p0,
        decreases pts@.len() - q,
    {
        if pts[q] != p0 {
            assert(pts@[q as int] != pts@[0]);
            return true;
        }
        q = q + 1;
    }
    false
}

/// Appends the file header and the fixed entities, for the product name `n`.
fn push_wire_header(out: &mut String, n: &str, u: Units)
    ensures
        final(out)@ == old(out)@ + wire_header_named(n@, u),
{
    let ghost start = out@;
    let (len_unit, _, _) = units(9, u);
    out.append("ISO-10303-21;\nHEADER;\nFILE_DESCRIPTION(('cadconvert wireframe'),'2;1');\nFILE_NAME('");
    out.append(n);
    out.append(".step','1970-01-01T00:00:00',('cadconvert'),(''),'cadconvert','cadconvert','');\nFILE_SCHEMA(('AUTOMOTIVE_DESIGN_CC2'));\nENDSEC;\nDATA;\n#1=APPLICATION_CONTEXT('core data for automotive mechanical design processes');\n#2=APPLICATION_PROTOCOL_DEFINITION('international standard','automotive_design',2000,#1);\n#3=PRODUCT_DEFINITION_CONTEXT('part definition',#1,'design');\n#4=PRODUCT_CONTEXT('',#1,'mechanical');\n#5=PRODUCT('");
    out.append(n);
    out.append("','");
    out.append(n);
    out.append("','',(#4));\n#6=PRODUCT_DEFINITION_FORMATION_WITH_SPECIFIED_SOURCE('','',#5,.MADE.);\n#7=PRODUCT_DEFINITION('','',#6,#3);\n#8=PRODUCT_DEFINITION_SHAPE('','',#7);\n#9=");
    out.append(len_unit.as_str());
    out.append(";\n#10=(NAMED_UNIT(*)PLANE_ANGLE_UNIT()SI_UNIT($,.RADIAN.));\n#11=(NAMED_UNIT(*)SOLID_ANGLE_UNIT()SI_UNIT($,.STERADIAN.));\n#12=UNCERTAINTY_MEASURE_WITH_UNIT(LENGTH_MEASURE(1.E-6),#9,'distance_accuracy_value','');\n#13=(GEOMETRIC_REPRESENTATION_CONTEXT(3)GLOBAL_UNCERTAINTY_ASSIGNED_CONTEXT((#12))GLOBAL_UNIT_ASSIGNED_CONTEXT((#9,#10,#11))REPRESENTATION_CONTEXT('',''));\n");
    reveal(wire_header_named);
    assert(out@ =~= start + wire_header_named(n@, u));
}

/// Appends the blocks of the drawn entities; returns the next free id and
/// the ids of the polylines.
fn push_curves(out: &mut String, drawing: &Drawing2D, curve_points: &Vec<Vec<Vec2>>) -> (r: (u32, Vec<u32>))
    requires
        curve_points@.len() == drawing.entities@.len(),
        points_ok(curve_points@.map_values(|v: Vec<Vec2>| v@)),
    ensures
        ({
            let c = curves(drawing.entities@, curve_points@.map_values(|v: Vec<Vec2>| v@), drawing.entities@.len() as int);
            &&& final(out)@ == old(out)@ + c.0
            &&& r.0 == c.1
            &&& r.1@ == c.2
            &&& r.0 <= 0x1000_0000 + 14
        }),
{
    let ghost cps = curve_points@.map_values(|v: Vec<Vec2>| v@);
    let ghost head = out@;
    let ghost es = drawing.entities@;
    let mut next: u32 = 14;
    let mut ids: Vec<u32> = Vec::new();
    let mut k: usize = 0;
    while k < curve_points.len()
        invariant
            es == drawing.entities@,
            cps == curve_points@.map_values(|v: Vec<Vec2>| v@),
            curve_points@.len() == es.len(),
            points_ok(cps),
            k <= es.len(),
            out@ == head + curves(es, cps, k as int).0,
            next == curves(es, cps, k as int).1,
            ids@ == curves(es, cps, k as int).2,
        decreases es.len() - k,
    {
        proof {
            lemma_curves_next(es, cps, k as int);
            lemma_total_mono(cps, k + 1, cps.len() as int);
        }
        let pts = &curve_points[k];
        assert(pts@ == cps[k as int]);
        if is_drawn(&drawing.entities[k], pts) {
            assert(printable(cps[k as int]));
            push_curve_block(out, pts, next);
            ids.push(next + pts.len() as u32);
            next = next + pts.len() as u32 + 1;
            assert(out@ =~= head + curves(es, cps, k + 1).0);
        }
        k = k + 1;
    }
    proof {
        lemma_curves_next(es, cps, k as int);
    }
    (next, ids)
}

/// Appends the curve set, the shape representation and the trailer.
fn push_wire_footer(out: &mut String, next: u32, ids: &Vec<u32>)
    requires
        next <= 0x1000_0000 + 14,
    ensures
        final(out)@ == old(out)@ + wire_footer(next as nat, ids@),
{
    let ghost start = out@;
    push_ref(out, next as u64);
    out.append("=");
    out.append("GEOMETRIC_CURVE_SET('',(");
    push_id_list(out, ids);
    out.append("))");
    out.append(";");
    out.append("\n");
    let ghost s1 = out@;
    assert(s1 =~= start + entity_line(next as nat, "GEOMETRIC_CURVE_SET('',("@ + id_list(ids@) + "))"@) + "\n"@);
    push_ref(out, (next + 1) as u64);
    out.append("=");
    out.append("SHAPE_REPRESENTATION('wireframe',(");
    push_ref(out, next as u64);
    out.append("),#13)");
    out.append(";");
    out.append("\n");
    let ghost s2 = out@;
    assert(s2 =~= s1 + entity_line(next as nat + 1, "SHAPE_REPRESENTATION('wireframe',("@ + ref_text(next as nat) + "),#13)"@) + "\n"@);
    push_ref(out, (next + 2) as u64);
    out.append("=");
    out.append("SHAPE_DEFINITION_REPRESENTATION(#8,");
    push_ref(out, (next + 1) as u64);
    out.append(")");
    out.append(";");
    out.append("\n");
    let ghost s3 = out@;
    assert(s3 =~= s2 + entity_line(next as nat + 2, "SHAPE_DEFINITION_REPRESENTATION(#8,"@ + ref_text(next as nat + 1) + ")"@) + "\n"@);
    out.append("ENDSEC;\nEND-ISO-10303-21;\n");
    assert(out@ =~= start + wire_footer(next as nat, ids@));
}

/// A wireframe STEP document of the drawing: one POLYLINE per drawn entity,
/// through the points given for it (`curve_points[k]` for entity `k`).
pub fn wireframe_step(drawing: &Drawing2D, name: &str, curve_points: &Vec<Vec<Vec2>>) -> (r: String)
    requires
        curve_points@.len() == drawing.entities@.len(),
        points_ok(curve_points@.map_values(|v: Vec<Vec2>| v@)),
    ensures
        r@ == wireframe_text(drawing, name@, curve_points@.map_values(|v: Vec<Vec2>| v@)),
{
    let t = trim_text(name);
    let base = if t.unicode_len() == 0 { "cadconvert" } else { t };
    let safe = escape_step_string(base);
    let n = safe.as_str();
    let mut out = String::new();
    push_wire_header(&mut out, n, drawing.units);
    assert(n@ == safe_name(name@));
    let (next, ids) = push_curves(&mut out, drawing, curve_points);
    push_wire_footer(&mut out, next, &ids);
    assert(out@ =~= wireframe_text(drawing, name@, curve_points@.map_values(|v: Vec<Vec2>| v@)));
    out
}

} // verus!
