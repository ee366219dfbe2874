//! Normalization of an imported drawing: entity kinds inferred from style
//! names, degenerate entities dropped.
use vstd::prelude::*;
use crate::geom::{dist_sq, dist_sq_exec, Vec2, COORD_LIMIT};
use crate::model::{Drawing2D, Entity2D, EntityKind, Primitive2D, Style};
use crate::view_separation::{contains_ci, contains_ignore_case};

verus! {

pub struct NormalizeConfig {
    /// Entities shorter than this (in micro-units) are degenerate.
    pub min_entity_length: i64,
    pub infer_kinds_from_style: bool,
    pub drop_degenerate_entities: bool,
}

impl Default for NormalizeConfig {
    fn default() -> (r: NormalizeConfig)
        ensures
            r.min_entity_length == 1,
            r.infer_kinds_from_style,
            r.drop_degenerate_entities,
    {
        NormalizeConfig { min_entity_length: 1, infer_kinds_from_style: true, drop_degenerate_entities: true }
    }
}

#[derive(Clone, Copy, Debug)]
pub struct NormalizeStats {
    pub removed_degenerate_entities: usize,
    pub inferred_kinds: usize,
}

/// The layer name, a space, and the linetype name, each where present.
pub open spec fn style_text(s: Style) -> Seq<char> {
    (match s.layer {
        Some(l) => l@ + " "@,
        None => Seq::empty(),
    }) + (match s.linetype {
        Some(t) => t@,
        None => Seq::empty(),
    })
}

/// The kind that style names imply, matched in any case: centre lines,
/// hidden lines, object (continuous) lines, or unknown.
pub open spec fn style_kind(s: Style) -> EntityKind {
    let t = style_text(s);
    if contains_ci(t, "CENTER"@) || contains_ci(t, "CENTRE"@) {
        EntityKind::Center
    } else if contains_ci(t, "HIDDEN"@) || contains_ci(t, "HID"@) {
        EntityKind::Hidden
    } else if contains_ci(t, "OBJECT"@) || contains_ci(t, "CONT"@) {
        EntityKind::Object
    } else {
        EntityKind::Unknown
    }
}

pub fn infer_kind_from_style(style: &Style) -> (r: EntityKind)
    ensures
        r == style_kind(*style),
{
    let mut s = String::new();
    if let Some(layer) = &style.layer {
        s.append(layer.as_str());
        s.append(" ");
    }
    if let Some(lt) = &style.linetype {
        s.append(lt.as_str());
    }
    assert(s@ =~= style_text(*style));
    let t = s.as_str();
    if contains_ignore_case(t, "CENTER") || contains_ignore_case(t, "CENTRE") {
        EntityKind::Center
    } else if contains_ignore_case(t, "HIDDEN") || contains_ignore_case(t, "HID") {
        EntityKind::Hidden
    } else if contains_ignore_case(t, "OBJECT") || contains_ignore_case(t, "CONT") {
        EntityKind::Object
    } else {
        EntityKind::Unknown
    }
}

pub open spec fn max_pair_sq(a: Vec2, b: Vec2, c: Vec2, d: Vec2) -> int {
    let m1 = if dist_sq(a, b) >= dist_sq(a, c) { dist_sq(a, b) } else { dist_sq(a, c) };
    let m2 = if m1 >= dist_sq(a, d) { m1 } else { dist_sq(a, d) };
    let m3 = if m2 >= dist_sq(b, c) { m2 } else { dist_sq(b, c) };
    let m4 = if m3 >= dist_sq(b, d) { m3 } else { dist_sq(b, d) };
    if m4 >= dist_sq(c, d) { m4 } else { dist_sq(c, d) }
}

/// A primitive too small to draw: a line, circle or arc no longer than the
/// limit, a polyline with fewer than two vertices, a curve whose control
/// points all lie within the limit of each other.
pub open spec fn degenerate(p: Primitive2D, min_len2: int) -> bool {
    match p {
        Primitive2D::Line(l) => dist_sq(l.a, l.b) <= min_len2,
        Primitive2D::Circle(c) => c.radius * c.radius <= min_len2,
        Primitive2D::Arc(a) => a.radius * a.radius <= min_len2,
        Primitive2D::Polyline(pl) => pl.vertices@.len() < 2,
        Primitive2D::CubicBezier(b) => max_pair_sq(b.p0, b.p1, b.p2, b.p3) <= min_len2,
    }
}

fn is_degenerate(p: &Primitive2D, min_len2: i128) -> (r: bool)
    requires
        p.well_formed(),
    ensures
        r == degenerate(*p, min_len2 as int),
{
    match p {
        Primitive2D::Line(l) => dist_sq_exec(l.a, l.b) <= min_len2,
        Primitive2D::Circle(c) => {
            let r: i128 = c.radius as i128;
            assert(r * r <= COORD_LIMIT * COORD_LIMIT) by (nonlinear_arith)
                requires 0 <= r <= COORD_LIMIT;
            r * r <= min_len2
        },
        Primitive2D::Arc(a) => {
            let r: i128 = a.radius as i128;
            assert(r * r <= COORD_LIMIT * COORD_LIMIT) by (nonlinear_arith)
                requires 0 <= r <= COORD_LIMIT;
            r * r <= min_len2
        },
        Primitive2D::Polyline(pl) => pl.vertices.len() < 2,
        Primitive2D::CubicBezier(b) => {
            let d_ab = dist_sq_exec(b.p0, b.p1);
            let d_ac = dist_sq_exec(b.p0, b.p2);
            let d_ad = dist_sq_exec(b.p0, b.p3);
            let d_bc = dist_sq_exec(b.p1, b.p2);
            let d_bd = dist_sq_exec(b.p1, b.p3);
            let d_cd = dist_sq_exec(b.p2, b.p3);
            let m1 = if d_ab >= d_ac { d_ab } else { d_ac };
            let m2 = if m1 >= d_ad { m1 } else { d_ad };
            let m3 = if m2 >= d_bc { m2 } else { d_bc };
            let m4 = if m3 >= d_bd { m3 } else { d_bd };
            let m5 = if m4 >= d_cd { m4 } else { d_cd };
            m5 <= min_len2
        },
    }
}

/// An entity after kind inference: an unknown kind takes the kind its style implies.
pub open spec fn with_inferred_kind(e: Entity2D, infer: bool) -> Entity2D {
    if infer && e.kind == EntityKind::Unknown {
        Entity2D { kind: style_kind(e.style), ..e }
    } else {
        e
    }
}

/// The entities that normalization keeps, with their kinds inferred.
pub open spec fn normalized(es: Seq<Entity2D>, infer: bool, drop: bool, min_len2: int) -> Seq<Entity2D>
    decreases es.len(),
{
    if es.len() == 0 {
        Seq::empty()
    } else {
        let prev = normalized(es.drop_last(), infer, drop, min_len2);
        let e = with_inferred_kind(es.last(), infer);
        if drop && degenerate(e.primitive, min_len2) { prev } else { prev.push(e) }
    }
}

/// How many of the kept entities had an unknown kind that their style settles.
pub open spec fn inferred_count(es: Seq<Entity2D>, infer: bool, drop: bool, min_len2: int) -> nat
    decreases es.len(),
{
    if es.len() == 0 {
        0
    } else {
        let e = es.last();
        let kept = !(drop && degenerate(e.primitive, min_len2));
        inferred_count(es.drop_last(), infer, drop, min_len2) + if kept && infer && e.kind == EntityKind::Unknown
            && style_kind(e.style) != EntityKind::Unknown {
            1nat
        } else {
            0nat
        }
    }
}

/// Infers unknown kinds from style names and drops degenerate entities, as
/// the configuration asks; reports what it did.
pub fn normalize_in_place(drawing: &mut Drawing2D, cfg: &NormalizeConfig) -> (r: NormalizeStats)
    requires
        old(drawing).well_formed(),
        0 <= cfg.min_entity_length <= COORD_LIMIT,
    ensures
        ({
            let want = normalized(
                old(drawing).entities@,
                cfg.infer_kinds_from_style,
                cfg.drop_degenerate_entities,
                cfg.min_entity_length * cfg.min_entity_length,
            );
            &&& final(drawing).entities@.len() == want.len()
            &&& forall|k: int| 0 <= k < want.len() ==> (#[trigger] final(drawing).entities@[k]).same(&want[k])
        }),
        r.inferred_kinds == inferred_count(
            old(drawing).entities@,
            cfg.infer_kinds_from_style,
            cfg.drop_degenerate_entities,
            cfg.min_entity_length * cfg.min_entity_length,
        ),
        r.removed_degenerate_entities == old(drawing).entities@.len() - final(drawing).entities@.len(),
        final(drawing).units == old(drawing).units,
        final(drawing).dims == old(drawing).dims,
        final(drawing).texts == old(drawing).texts,
        final(drawing).well_formed(),
{
    let ghost es = drawing.entities@;
    let ml: i128 = cfg.min_entity_length as i128;
    assert(0 <= ml * ml <= COORD_LIMIT * COORD_LIMIT) by (nonlinear_arith)
        requires 0 <= ml <= COORD_LIMIT;
    let min_len2: i128 = ml * ml;
    let infer = cfg.infer_kinds_from_style;
    let drop = cfg.drop_degenerate_entities;
    let mut kept: Vec<Entity2D> = Vec::new();
    let mut inferred: usize = 0;
    let n = drawing.entities.len();
    let mut k: usize = 0;
    while k < n
        invariant
            n == es.len(),
            es == drawing.entities@,
            k <= n,
            drawing.well_formed(),
            min_len2 == cfg.min_entity_length * cfg.min_entity_length,
            infer == cfg.infer_kinds_from_style,
            drop == cfg.drop_degenerate_entities,
            inferred <= k,
            inferred == inferred_count(es.take(k as int), infer, drop, min_len2 as int),
            kept@.len() == normalized(es.take(k as int), infer, drop, min_len2 as int).len(),
            kept@.len() <= k,
            forall|q: int|
                0 <= q < kept@.len() ==> (#[trigger] kept@[q]).same(&normalized(es.take(k as int), infer, drop, min_len2 as int)[q]),
            forall|q: int| 0 <= q < kept@.len() ==> (#[trigger] kept@[q]).primitive.well_formed(),
        decreases n - k,
    {
        let ghost pre = es.take(k as int);
        assert(es.take(k + 1).drop_last() == pre);
        assert(es.take(k + 1).last() == es[k as int]);
        let mut e = drawing.entities[k].duplicate();
        assert(es[k as int].primitive.well_formed());
        let mut was_inferred = false;
        if infer && e.kind == EntityKind::Unknown {
            e.kind = infer_kind_from_style(&e.style);
            was_inferred = e.kind != EntityKind::Unknown;
        }
        let ghost want = with_inferred_kind(es[k as int], infer);
        assert(e.same(&want));
        if !(drop && is_degenerate(&e.primitive, min_len2)) {
            if was_inferred {
                inferred = inferred + 1;
            }
            let ghost before = kept@;
            kept.push(e);
            assert forall|q: int|
                0 <= q < kept@.len() implies (#[trigger] kept@[q]).same(&normalized(es.take(k + 1), infer, drop, min_len2 as int)[q]) by {
                if q < before.len() {
                    assert(kept@[q] == before[q]);
                }
            }
        }
        k = k + 1;
    }
    assert(es.take(n as int) == es);
    let removed = n - kept.len();
    drawing.entities = kept;
    NormalizeStats { removed_degenerate_entities: removed, inferred_kinds: inferred }
}


/// Normalization sees only what `same` compares, so copies normalize alike.
pub proof fn lemma_normalized_same(a: Seq<Entity2D>, b: Seq<Entity2D>, infer: bool, drop: bool, min_len2: int)
    requires
        a.len() == b.len(),
        forall|q: int| 0 <= q < a.len() ==> (#[trigger] b[q]).same(&a[q]),
    ensures
        normalized(a, infer, drop, min_len2).len() == normalized(b, infer, drop, min_len2).len(),
        forall|q: int|
            0 <= q < normalized(a, infer, drop, min_len2).len() ==> (#[trigger] normalized(b, infer, drop, min_len2)[q]).same(
                &normalized(a, infer, drop, min_len2)[q],
            ),
        inferred_count(a, infer, drop, min_len2) == inferred_count(b, infer, drop, min_len2),
    decreases a.len(),
{
    if a.len() > 0 {
        assert forall|q: int| 0 <= q < a.drop_last().len() implies (#[trigger] b.drop_last()[q]).same(&a.drop_last()[q]) by {
            assert(b[q].same(&a[q]));
        }
        lemma_normalized_same(a.drop_last(), b.drop_last(), infer, drop, min_len2);
        let ea = a.last();
        let eb = b.last();
        assert(eb.same(&ea)) by {
            assert(b[b.len() - 1].same(&a[a.len() - 1]));
        }
        assert(degenerate(with_inferred_kind(ea, infer).primitive, min_len2) == degenerate(with_inferred_kind(eb, infer).primitive, min_len2));
        let na = normalized(a.drop_last(), infer, drop, min_len2);
        let nb = normalized(b.drop_last(), infer, drop, min_len2);
        assert forall|q: int|
            0 <= q < normalized(a, infer, drop, min_len2).len() implies (#[trigger] normalized(b, infer, drop, min_len2)[q]).same(
                &normalized(a, infer, drop, min_len2)[q],
            ) by {
            if q < na.len() {
                assert(nb[q].same(&na[q]));
            }
        }
    }
}

} // verus!
