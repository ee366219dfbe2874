//! Planar topology of one view: segments, their crossings, splitting and snapping.
use vstd::prelude::*;
use crate::geom::{dist_sq, dist_sq_exec, lemma_dist_sym, perp, Vec2, COORD_LIMIT};
use crate::model::{Entity2D, Primitive2D, PolylineVertex2D};
use crate::structs::{graph_ok, has_edge, near, same_pair, Edge2D, Vertex2D, View2D, EPSILON_SQ};

verus! {

/// Below this magnitude (1e-4 square drawing units, in square micro-units) the
/// cross product of two directions counts as zero: the segments are parallel.
pub const PARALLEL_LIMIT: i128 = 100_000_000;

/// Bound on the coordinates of crossing points.
pub const WORK_LIMIT: i64 = 5_000_000_000_001;

/// A straight piece of an entity.
#[derive(Clone, Copy, Debug, PartialEq, Eq, Structural)]
pub struct RawSegment {
    pub p1: Vec2,
    pub p2: Vec2,
    pub original_id: u64,
}

pub open spec fn seg(p1: Vec2, p2: Vec2, id: u64) -> RawSegment {
    RawSegment { p1, p2, original_id: id }
}

/// The segments of a polyline: one per consecutive pair, and the closing one.
pub open spec fn polyline_segments(vs: Seq<PolylineVertex2D>, closed: bool, id: u64) -> Seq<RawSegment> {
    let n = vs.len();
    let open_part = Seq::new(
        if n == 0 { 0nat } else { (n - 1) as nat },
        |i: int| seg(vs[i].pos, vs[i + 1].pos, id),
    );
    if closed && n > 0 {
        open_part.push(seg(vs[n - 1].pos, vs[0].pos, id))
    } else {
        open_part
    }
}

/// The segments that one entity contributes; curves contribute none.
pub open spec fn entity_segments(e: Entity2D) -> Seq<RawSegment> {
    match e.primitive {
        Primitive2D::Line(l) => seq![seg(l.a, l.b, e.id)],
        Primitive2D::Polyline(p) => polyline_segments(p.vertices@, p.closed, e.id),
        _ => Seq::empty(),
    }
}

/// The segments of a list of entities, in order.
pub open spec fn segments_of(es: Seq<Entity2D>) -> Seq<RawSegment>
    decreases es.len(),
{
    if es.len() == 0 {
        Seq::empty()
    } else {
        segments_of(es.drop_last()) + entity_segments(es.last())
    }
}

pub open spec fn seg_in_range(s: RawSegment) -> bool {
    s.p1.in_range() && s.p2.in_range()
}

pub open spec fn all_segs_in_range(s: Seq<RawSegment>) -> bool {
    forall|i: int| 0 <= i < s.len() ==> seg_in_range(#[trigger] s[i])
}

pub open spec fn entities_ok(es: Seq<Entity2D>) -> bool {
    forall|i: int| 0 <= i < es.len() ==> (#[trigger] es[i]).primitive.well_formed()
}

proof fn lemma_segments_in_range(es: Seq<Entity2D>)
    requires
        entities_ok(es),
    ensures
        all_segs_in_range(segments_of(es)),
    decreases es.len(),
{
    if es.len() > 0 {
        assert(entities_ok(es.drop_last()));
        lemma_segments_in_range(es.drop_last());
        let e = es.last();
        assert(e.primitive.well_formed());
        let a = segments_of(es.drop_last());
        let b = entity_segments(e);
        assert(all_segs_in_range(b)) by {
            if let Primitive2D::Polyline(p) = e.primitive {
                let ps = crate::model::vertex_positions(p.vertices@);
                assert forall|i: int| 0 <= i < p.vertices@.len() implies (#[trigger] p.vertices@[i]).pos.in_range() by {
                    assert(ps[i].in_range());
                }
            }
        }
        assert forall|i: int| 0 <= i < (a + b).len() implies seg_in_range(#[trigger] (a + b)[i]) by {
            if i < a.len() {
                assert((a + b)[i] == a[i]);
            } else {
                assert((a + b)[i] == b[i - a.len()]);
            }
        }
    }
}

/// All line and polyline pieces of `entities`, each tagged with its entity id.
pub fn extract_segments(entities: &Vec<Entity2D>) -> (r: Vec<RawSegment>)
    requires
        entities_ok(entities@),
    ensures
        r@ == segments_of(entities@),
        all_segs_in_range(r@),
{
    let mut segs: Vec<RawSegment> = Vec::new();
    let mut k: usize = 0;
    while k < entities.len()
        invariant
            k <= entities@.len(),
            segs@ == segments_of(entities@.take(k as int)),
        decreases entities@.len() - k,
    {
        let ent = &entities[k];
        let ghost before = segs@;
        assert(entities@.take(k + 1).drop_last() == entities@.take(k as int));
        match &ent.primitive {
            Primitive2D::Line(line) => {
                segs.push(RawSegment { p1: line.a, p2: line.b, original_id: ent.id });
                assert(segs@ == before + entity_segments(*ent));
            },
            Primitive2D::Polyline(poly) => {
                let n = poly.vertices.len();
                let ghost want = polyline_segments(poly.vertices@, poly.closed, ent.id);
                let mut i: usize = 0;
                assert(before + want.take(0) == before);
                while i < n
                    invariant
                        n == poly.vertices@.len(),
                        i <= n,
                        want == polyline_segments(poly.vertices@, poly.closed, ent.id),
                        segs@ == before + want.take(if i <= want.len() { i as int } else { want.len() as int }),
                    decreases n - i,
                {
                    let v1 = poly.vertices[i];
                    if i + 1 < n {
                        let v2 = poly.vertices[i + 1];
                        assert(want[i as int] == seg(v1.pos, v2.pos, ent.id));
                        assert(want.take(i + 1) == want.take(i as int).push(want[i as int]));
                        segs.push(RawSegment { p1: v1.pos, p2: v2.pos, original_id: ent.id });
                    } else if poly.closed {
                        let v2 = poly.vertices[0];
                        assert(want.len() == n);
                        assert(want.take(i + 1) == want.take(i as int).push(want[i as int]));
                        segs.push(RawSegment { p1: v1.pos, p2: v2.pos, original_id: ent.id });
                    } else {
                        assert(want.len() == i);
                    }
                    i = i + 1;
                }
                assert(want.take(want.len() as int) == want);
                assert(segs@ == before + entity_segments(*ent));
            },
            _ => {
                assert(segs@ == before + entity_segments(*ent));
            },
        }
        k = k + 1;
    }
    assert(entities@.take(k as int) == entities@);
    proof {
        lemma_segments_in_range(entities@);
    }
    segs
}


/// `n / d` lies in `[-1e-4, 1 + 1e-4]`, for `d > 0`.
pub open spec fn param_ok(n: int, d: int) -> bool {
    -d <= 10000 * n <= 10001 * d
}

/// Where two segments cross, by the cross-product test with tolerance
/// `EPSILON` on both parameters; `None` when they are parallel or miss.
/// The point is `p + t·r` with each coordinate rounded toward negative infinity.
pub open spec fn crossing(s1: RawSegment, s2: RawSegment) -> Option<Vec2> {
    let rx = s1.p2.x - s1.p1.x;
    let ry = s1.p2.y - s1.p1.y;
    let sx = s2.p2.x - s2.p1.x;
    let sy = s2.p2.y - s2.p1.y;
    let qx = s2.p1.x - s1.p1.x;
    let qy = s2.p1.y - s1.p1.y;
    let den = perp(rx, ry, sx, sy);
    let tn = perp(qx, qy, sx, sy);
    let un = perp(qx, qy, rx, ry);
    let d = if den < 0 { -den } else { den };
    let t = if den < 0 { -tn } else { tn };
    let u = if den < 0 { -un } else { un };
    if d < PARALLEL_LIMIT || !param_ok(t, d) || !param_ok(u, d) {
        None
    } else {
        Some(Vec2 { x: (s1.p1.x + (rx * t) / d) as i64, y: (s1.p1.y + (ry * t) / d) as i64 })
    }
}

/// `a / d`, rounded toward negative infinity.
pub fn floor_div(a: i128, d: i128) -> (q: i128)
    requires
        d > 0,
        a > i128::MIN,
    ensures
        q == a / d,
{
    if a >= 0 {
        a / d
    } else {
        let m: i128 = (-a - 1) / d;
        proof {
            let ai = a as int;
            let di = d as int;
            let mi = m as int;
            let na: int = -ai - 1;
            assert(na == di * (na / di) + na % di && 0 <= na % di < di) by (nonlinear_arith)
                requires di > 0, na >= 0;
            assert(ai == di * (ai / di) + ai % di && 0 <= ai % di < di) by (nonlinear_arith)
                requires di > 0;
            assert(mi == na / di);
            assert(ai / di == -mi - 1) by (nonlinear_arith)
                requires
                    na == di * mi + na % di, 0 <= na % di < di, ai == -na - 1,
                    ai == di * (ai / di) + ai % di, 0 <= ai % di < di, di > 0;
        }
        -m - 1
    }
}

pub proof fn lemma_div_bounds(a: int, d: int, k: int)
    requires
        d > 0,
        k >= 0,
        -k * d <= a <= k * d,
    ensures
        -k <= a / d <= k,
{
    assert(a == d * (a / d) + a % d && 0 <= a % d < d) by (nonlinear_arith)
        requires d > 0;
    let q: int = a / d;
    assert(q <= k) by (nonlinear_arith)
        requires d * q <= a, a <= k * d, d > 0;
    assert(q >= -k) by (nonlinear_arith)
        requires d * q + d > a, a >= -k * d, d > 0;
}

proof fn lemma_mul_bound(a: int, b: int, l: int)
    requires
        l > 0,
        -2 * l <= a <= 2 * l,
        -2 * l <= b <= 2 * l,
    ensures
        -4 * l * l <= a * b <= 4 * l * l,
{
    assert(-4 * l * l <= a * b <= 4 * l * l) by (nonlinear_arith)
        requires -2 * l <= a <= 2 * l, -2 * l <= b <= 2 * l, l > 0;
}

/// The crossing point of two segments, if any.
pub fn intersect_segment_segment(s1: &RawSegment, s2: &RawSegment) -> (r: Option<Vec2>)
    requires
        seg_in_range(*s1),
        seg_in_range(*s2),
    ensures
        r == crossing(*s1, *s2),
        r matches Some(p) ==> -WORK_LIMIT <= p.x <= WORK_LIMIT && -WORK_LIMIT <= p.y <= WORK_LIMIT,
{
    let ghost l: int = COORD_LIMIT as int;
    let rx: i128 = s1.p2.x as i128 - s1.p1.x as i128;
    let ry: i128 = s1.p2.y as i128 - s1.p1.y as i128;
    let sx: i128 = s2.p2.x as i128 - s2.p1.x as i128;
    let sy: i128 = s2.p2.y as i128 - s2.p1.y as i128;
    let qx: i128 = s2.p1.x as i128 - s1.p1.x as i128;
    let qy: i128 = s2.p1.y as i128 - s1.p1.y as i128;
    proof {
        lemma_mul_bound(rx as int, sy as int, l);
        lemma_mul_bound(ry as int, sx as int, l);
        lemma_mul_bound(qx as int, sy as int, l);
        lemma_mul_bound(qy as int, sx as int, l);
        lemma_mul_bound(qx as int, ry as int, l);
        lemma_mul_bound(qy as int, rx as int, l);
    }
    let den: i128 = rx * sy - ry * sx;
    let tn: i128 = qx * sy - qy * sx;
    let un: i128 = qx * ry - qy * rx;
    let d: i128 = if den < 0 { -den } else { den };
    let t: i128 = if den < 0 { -tn } else { tn };
    let u: i128 = if den < 0 { -un } else { un };
    if d < PARALLEL_LIMIT {
        return None;
    }
    if !(-d <= 10000 * t && 10000 * t <= 10001 * d) || !(-d <= 10000 * u && 10000 * u <= 10001 * d) {
        return None;
    }
    proof {
        assert(-d <= t <= 2 * d);
        assert(-4 * l * d <= rx * t <= 4 * l * d) by (nonlinear_arith)
            requires -d <= t <= 2 * d, -2 * l <= rx <= 2 * l, d > 0, l > 0;
        assert(-4 * l * d <= ry * t <= 4 * l * d) by (nonlinear_arith)
            requires -d <= t <= 2 * d, -2 * l <= ry <= 2 * l, d > 0, l > 0;
        assert(4 * l * d <= 4 * l * (8 * l * l)) by (nonlinear_arith)
            requires d <= 8 * l * l, l > 0;
        assert(4 * l * (8 * l * l) < 0x7fff_ffff_ffff_ffff_ffff_ffff_ffff_ffff);
        lemma_div_bounds(rx * t, d as int, 4 * l);
        lemma_div_bounds(ry * t, d as int, 4 * l);
    }
    assert(l == 1_000_000_000_000);
    assert(-4_000_000_000_000 * d <= rx * t <= 4_000_000_000_000 * d);
    assert(d <= 8_000_000_000_000_000_000_000_000);
    let ox: i128 = floor_div(rx * t, d);
    let oy: i128 = floor_div(ry * t, d);
    Some(Vec2 { x: (s1.p1.x as i128 + ox) as i64, y: (s1.p1.y as i128 + oy) as i64 })
}


/// Both coordinates lie within `WORK_LIMIT`.
pub open spec fn in_work(p: Vec2) -> bool {
    -WORK_LIMIT <= p.x <= WORK_LIMIT && -WORK_LIMIT <= p.y <= WORK_LIMIT
}

/// The crossing of segments `i` and `j`, computed from the one with the smaller index.
pub open spec fn pair_crossing(segs: Seq<RawSegment>, i: int, j: int) -> Option<Vec2> {
    if j < i {
        crossing(segs[j], segs[i])
    } else {
        crossing(segs[i], segs[j])
    }
}

/// The crossings of segment `i` with segments `0..m` other than itself, in order.
pub open spec fn crossings_upto(segs: Seq<RawSegment>, i: int, m: int) -> Seq<Vec2>
    decreases m,
{
    if m <= 0 {
        Seq::empty()
    } else {
        let prev = crossings_upto(segs, i, m - 1);
        if m - 1 != i && pair_crossing(segs, i, m - 1) is Some {
            prev.push(pair_crossing(segs, i, m - 1).unwrap())
        } else {
            prev
        }
    }
}

/// The points where segment `i` meets the other segments, in the order of their index.
pub fn split_points(segs: &Vec<RawSegment>, i: usize) -> (r: Vec<Vec2>)
    requires
        i < segs@.len(),
        all_segs_in_range(segs@),
    ensures
        r@ == crossings_upto(segs@, i as int, segs@.len() as int),
        forall|k: int| 0 <= k < r@.len() ==> in_work(#[trigger] r@[k]),
{
    let mut pts: Vec<Vec2> = Vec::new();
    let mut j: usize = 0;
    while j < segs.len()
        invariant
            i < segs@.len(),
            j <= segs@.len(),
            all_segs_in_range(segs@),
            pts@ == crossings_upto(segs@, i as int, j as int),
            forall|k: int| 0 <= k < pts@.len() ==> in_work(#[trigger] pts@[k]),
        decreases segs@.len() - j,
    {
        assert(seg_in_range(segs@[i as int]));
        assert(seg_in_range(segs@[j as int]));
        if j != i {
            let c = if j < i {
                intersect_segment_segment(&segs[j], &segs[i])
            } else {
                intersect_segment_segment(&segs[i], &segs[j])
            };
            if let Some(p) = c {
                pts.push(p);
            }
        }
        j = j + 1;
    }
    pts
}

/// Where insertion sort puts a point at squared distance `key` from the
/// origin into `s[..pos]`: after every point that is not farther.
pub open spec fn insert_pos(s: Seq<Vec2>, origin: Vec2, key: int, pos: int) -> int
    decreases pos,
{
    if pos > 0 && dist_sq(origin, s[pos - 1]) > key {
        insert_pos(s, origin, key, pos - 1)
    } else {
        pos
    }
}

/// `pts` sorted by squared distance from `origin` by insertion, ties in order.
pub open spec fn sorted_along(pts: Seq<Vec2>, origin: Vec2) -> Seq<Vec2>
    decreases pts.len(),
{
    if pts.len() == 0 {
        Seq::empty()
    } else {
        let s = sorted_along(pts.drop_last(), origin);
        let p = pts.last();
        s.insert(insert_pos(s, origin, dist_sq(origin, p), s.len() as int), p)
    }
}

/// Sorts `pts` by squared distance from `origin`, keeping the order of ties.
fn sort_along(origin: Vec2, pts: &Vec<Vec2>) -> (r: Vec<Vec2>)
    requires
        in_work(origin),
        forall|k: int| 0 <= k < pts@.len() ==> in_work(#[trigger] pts@[k]),
    ensures
        r@ == sorted_along(pts@, origin),
        r@.len() == pts@.len(),
        forall|k: int| 0 <= k < r@.len() ==> pts@.contains(#[trigger] r@[k]),
        forall|a: int, b: int|
            0 <= a < b < r@.len() ==> dist_sq(origin, #[trigger] r@[a]) <= dist_sq(origin, #[trigger] r@[b]),
{
    let mut out: Vec<Vec2> = Vec::new();
    let mut keys: Vec<i128> = Vec::new();
    let mut k: usize = 0;
    while k < pts.len()
        invariant
            k <= pts@.len(),
            in_work(origin),
            forall|m: int| 0 <= m < pts@.len() ==> in_work(#[trigger] pts@[m]),
            out@.len() == k,
            keys@.len() == k,
            out@ == sorted_along(pts@.take(k as int), origin),
            forall|m: int| 0 <= m < out@.len() ==> pts@.contains(#[trigger] out@[m]),
            forall|m: int| 0 <= m < out@.len() ==> #[trigger] keys@[m] == dist_sq(origin, out@[m]),
            forall|a: int, b: int| 0 <= a < b < out@.len() ==> #[trigger] keys@[a] <= #[trigger] keys@[b],
        decreases pts@.len() - k,
    {
        let p = pts[k];
        assert(in_work(p));
        let key = dist_sq_exec(origin, p);
        let mut pos: usize = out.len();
        while pos > 0 && keys[pos - 1] > key
            invariant
                pos <= out@.len(),
                keys@.len() == out@.len(),
                forall|m: int| 0 <= m < out@.len() ==> #[trigger] keys@[m] == dist_sq(origin, out@[m]),
                key == dist_sq(origin, p),
                forall|m: int| pos <= m < out@.len() ==> #[trigger] keys@[m] > key,
                insert_pos(out@, origin, key as int, out@.len() as int) == insert_pos(out@, origin, key as int, pos as int),
            decreases pos,
        {
            assert(keys@[pos - 1] == dist_sq(origin, out@[pos - 1]));
            pos = pos - 1;
        }
        proof {
            if pos > 0 {
                assert(keys@[pos - 1] == dist_sq(origin, out@[pos - 1]));
            }
            assert(insert_pos(out@, origin, key as int, pos as int) == pos);
            assert(pts@.take(k + 1).drop_last() == pts@.take(k as int));
            assert(pts@.take(k + 1).last() == p);
        }
        let ghost old_out = out@;
        let ghost old_keys = keys@;
        out.insert(pos, p);
        keys.insert(pos, key);
        assert(out@ == sorted_along(pts@.take(k + 1), origin));
        assert(pts@.contains(pts@[k as int]));
        assert forall|m: int| 0 <= m < out@.len() implies pts@.contains(#[trigger] out@[m]) by {
            if m < pos {
                assert(out@[m] == old_out[m]);
            } else if m > pos {
                assert(out@[m] == old_out[m - 1]);
            }
        }
        assert forall|m: int| 0 <= m < out@.len() implies #[trigger] keys@[m] == dist_sq(origin, out@[m]) by {
            if m < pos {
                assert(out@[m] == old_out[m] && keys@[m] == old_keys[m]);
            } else if m > pos {
                assert(out@[m] == old_out[m - 1] && keys@[m] == old_keys[m - 1]);
            }
        }
        assert forall|a: int, b: int| 0 <= a < b < out@.len() implies #[trigger] keys@[a] <= #[trigger] keys@[b] by {
            if pos > 0 {
                assert(old_keys[pos - 1] <= key);
            }
            if b < pos {
                assert(keys@[a] == old_keys[a] && keys@[b] == old_keys[b]);
            } else if a > pos {
                assert(keys@[a] == old_keys[a - 1] && keys@[b] == old_keys[b - 1]);
            } else if a == pos {
                assert(keys@[b] == old_keys[b - 1]);
            } else if b == pos {
                assert(keys@[a] == old_keys[a]);
                assert(old_keys[a] <= old_keys[pos - 1]);
            } else {
                assert(keys@[a] == old_keys[a] && keys@[b] == old_keys[b - 1]);
            }
        }
        k = k + 1;
    }
    assert forall|a: int, b: int|
        0 <= a < b < out@.len() implies dist_sq(origin, #[trigger] out@[a]) <= dist_sq(origin, #[trigger] out@[b]) by {
        assert(keys@[a] <= keys@[b]);
    }
    assert(pts@.take(k as int) == pts@);
    out
}


/// The points kept from `sorted[..k]`: each one at least `EPSILON` away from
/// the last one kept.
pub open spec fn dedup_upto(sorted: Seq<Vec2>, k: int) -> Seq<Vec2>
    decreases k,
{
    if k <= 0 {
        Seq::empty()
    } else {
        let prev = dedup_upto(sorted, k - 1);
        let p = sorted[k - 1];
        if prev.len() == 0 || !near(p, prev.last()) {
            prev.push(p)
        } else {
            prev
        }
    }
}

/// The pieces between consecutive points of `kept[..w]` that lie farther
/// apart than `EPSILON`.
pub open spec fn pieces_upto(kept: Seq<Vec2>, id: u64, w: int) -> Seq<RawSegment>
    decreases w,
{
    if w <= 1 {
        Seq::empty()
    } else {
        let prev = pieces_upto(kept, id, w - 1);
        if dist_sq(kept[w - 2], kept[w - 1]) > EPSILON_SQ {
            prev.push(seg(kept[w - 2], kept[w - 1], id))
        } else {
            prev
        }
    }
}

/// The pieces that cutting `s` at `pts` gives.
pub open spec fn split_pieces(s: RawSegment, pts: Seq<Vec2>) -> Seq<RawSegment> {
    let sorted = sorted_along(pts.push(s.p1).push(s.p2), s.p1);
    let kept = dedup_upto(sorted, sorted.len() as int);
    pieces_upto(kept, s.original_id, kept.len() as int)
}

/// Cuts `s` at `pts`: the points and both ends, sorted along the segment,
/// with each point dropped that lies within `EPSILON` of the last one kept;
/// consecutive points longer apart than `EPSILON` become the pieces.
pub fn split_segment(s: &RawSegment, pts: &Vec<Vec2>) -> (r: Vec<RawSegment>)
    requires
        in_work(s.p1),
        in_work(s.p2),
        forall|k: int| 0 <= k < pts@.len() ==> in_work(#[trigger] pts@[k]),
    ensures
        r@ == split_pieces(*s, pts@),
        forall|k: int|
            0 <= k < r@.len() ==> {
                &&& (#[trigger] r@[k]).original_id == s.original_id
                &&& dist_sq(r@[k].p1, r@[k].p2) > EPSILON_SQ
                &&& (pts@.contains(r@[k].p1) || r@[k].p1 == s.p1 || r@[k].p1 == s.p2)
                &&& (pts@.contains(r@[k].p2) || r@[k].p2 == s.p1 || r@[k].p2 == s.p2)
            },
{
    let mut all: Vec<Vec2> = Vec::new();
    let mut k: usize = 0;
    while k < pts.len()
        invariant
            k <= pts@.len(),
            all@ == pts@.take(k as int),
        decreases pts@.len() - k,
    {
        all.push(pts[k]);
        k = k + 1;
    }
    all.push(s.p1);
    all.push(s.p2);
    assert(pts@.take(pts@.len() as int) == pts@);
    assert(all@ == pts@.push(s.p1).push(s.p2));
    let ghost ok = |p: Vec2| pts@.contains(p) || p == s.p1 || p == s.p2;
    assert forall|m: int| 0 <= m < all@.len() implies ok(#[trigger] all@[m]) && in_work(all@[m]) by {
        if m < pts@.len() {
            assert(all@[m] == pts@[m]);
        }
    }
    let sorted = sort_along(s.p1, &all);
    assert forall|m: int| 0 <= m < sorted@.len() implies ok(#[trigger] sorted@[m]) && in_work(sorted@[m]) by {
        assert(all@.contains(sorted@[m]));
    }
    let mut kept: Vec<Vec2> = Vec::new();
    let mut i: usize = 0;
    while i < sorted.len()
        invariant
            i <= sorted@.len(),
            kept@ == dedup_upto(sorted@, i as int),
            forall|m: int| 0 <= m < sorted@.len() ==> ok(#[trigger] sorted@[m]) && in_work(sorted@[m]),
            forall|m: int| 0 <= m < kept@.len() ==> ok(#[trigger] kept@[m]) && in_work(kept@[m]),
        decreases sorted@.len() - i,
    {
        let p = sorted[i];
        if kept.len() == 0 {
            kept.push(p);
        } else {
            let last = kept[kept.len() - 1];
            assert(in_work(last) && in_work(p));
            if dist_sq_exec(p, last) >= EPSILON_SQ {
                kept.push(p);
            }
        }
        i = i + 1;
    }
    let mut out: Vec<RawSegment> = Vec::new();
    assert(kept@ == dedup_upto(sorted@, sorted@.len() as int));
    let mut w: usize = 1;
    while w < kept.len()
        invariant
            w >= 1,
            kept@.len() == 0 || w <= kept@.len(),
            out@ == pieces_upto(kept@, s.original_id, w as int),
            forall|m: int| 0 <= m < kept@.len() ==> ok(#[trigger] kept@[m]) && in_work(kept@[m]),
            forall|m: int|
                0 <= m < out@.len() ==> {
                    &&& (#[trigger] out@[m]).original_id == s.original_id
                    &&& dist_sq(out@[m].p1, out@[m].p2) > EPSILON_SQ
                    &&& ok(out@[m].p1)
                    &&& ok(out@[m].p2)
                },
        decreases kept@.len() - w,
    {
        let a = kept[w - 1];
        let b = kept[w];
        assert(ok(a) && in_work(a));
        assert(ok(b) && in_work(b));
        if dist_sq_exec(a, b) > EPSILON_SQ {
            out.push(RawSegment { p1: a, p2: b, original_id: s.original_id });
        }
        w = w + 1;
    }
    out
}

/// The index of the first point of `pts` within `EPSILON` of `p`, if any.
pub open spec fn first_near(pts: Seq<Vec2>, p: Vec2) -> Option<int> {
    if exists|k: int| 0 <= k < pts.len() && near(#[trigger] pts[k], p) {
        Some(choose|k: int| 0 <= k < pts.len() && near(#[trigger] pts[k], p) && forall|m: int| 0 <= m < k ==> !near(#[trigger] pts[m], p))
    } else {
        None
    }
}

/// No two points of `pts` lie within `EPSILON` of each other.
pub open spec fn spread(pts: Seq<Vec2>) -> bool {
    forall|i: int, j: int| 0 <= i < pts.len() && 0 <= j < pts.len() && i != j ==> !near(#[trigger] pts[i], #[trigger] pts[j])
}

/// Snaps `p` to the first point within `EPSILON`, or appends it.
fn find_or_add(pts: &mut Vec<Vec2>, p: Vec2) -> (idx: usize)
    requires
        in_work(p),
        forall|k: int| 0 <= k < old(pts)@.len() ==> in_work(#[trigger] old(pts)@[k]),
        spread(old(pts)@),
    ensures
        forall|k: int| 0 <= k < final(pts)@.len() ==> in_work(#[trigger] final(pts)@[k]),
        spread(final(pts)@),
        idx < final(pts)@.len(),
        near(final(pts)@[idx as int], p),
        match first_near(old(pts)@, p) {
            Some(k) => idx == k && final(pts)@ == old(pts)@,
            None => idx == old(pts)@.len() && final(pts)@ == old(pts)@.push(p),
        },
{
    let mut k: usize = 0;
    while k < pts.len()
        invariant
            k <= pts@.len(),
            in_work(p),
            spread(pts@),
            forall|m: int| 0 <= m < pts@.len() ==> in_work(#[trigger] pts@[m]),
            forall|m: int| 0 <= m < k ==> !near(#[trigger] pts@[m], p),
        decreases pts@.len() - k,
    {
        let q = pts[k];
        assert(in_work(q));
        proof {
            lemma_dist_sym(p, q);
        }
        if dist_sq_exec(p, q) < EPSILON_SQ {
            proof {
                assert(near(pts@[k as int], p));
                let c = first_near(pts@, p).unwrap();
                if c < k {
                    assert(!near(pts@[c], p));
                }
                if c > k {
                    assert(!near(pts@[k as int], p));
                }
            }
            return k;
        }
        k = k + 1;
    }
    assert(first_near(pts@, p) is None);
    let ghost before = pts@;
    pts.push(p);
    proof {
        lemma_dist_sym(p, p);
    }
    assert forall|i: int, j: int| 0 <= i < pts@.len() && 0 <= j < pts@.len() && i != j implies !near(#[trigger] pts@[i], #[trigger] pts@[j]) by {
        if i == before.len() {
            assert(!near(before[j], p));
            lemma_dist_sym(before[j], p);
            assert(dist_sq(pts@[i], pts@[j]) == dist_sq(before[j], p));
        } else if j == before.len() {
            assert(!near(before[i], p));
        } else {
            assert(pts@[i] == before[i] && pts@[j] == before[j]);
        }
    }
    (pts.len() - 1)
}


/// The ids of the entities in `es`.
pub open spec fn is_entity_id(es: Seq<Entity2D>, id: u64) -> bool {
    exists|m: int| 0 <= m < es.len() && (#[trigger] es[m]).id == id
}

proof fn lemma_segment_ids(es: Seq<Entity2D>)
    ensures
        forall|k: int| 0 <= k < segments_of(es).len() ==> is_entity_id(es, (#[trigger] segments_of(es)[k]).original_id),
    decreases es.len(),
{
    if es.len() > 0 {
        let init = es.drop_last();
        lemma_segment_ids(init);
        let a = segments_of(init);
        let b = entity_segments(es.last());
        assert forall|k: int| 0 <= k < (a + b).len() implies is_entity_id(es, (#[trigger] (a + b)[k]).original_id) by {
            if k < a.len() {
                assert((a + b)[k] == a[k]);
                let m = choose|m: int| 0 <= m < init.len() && (#[trigger] init[m]).id == a[k].original_id;
                assert(es[m] == init[m]);
            } else {
                assert((a + b)[k] == b[k - a.len()]);
                assert(b[k - a.len()].original_id == es.last().id);
                assert(es[es.len() - 1] == es.last());
            }
        }
    }
}

/// Whether `edges` already joins `a` and `b`, in either direction.
fn contains_pair(edges: &Vec<Edge2D>, a: usize, b: usize) -> (r: bool)
    ensures
        r == has_edge(edges@, a, b),
{
    let mut k: usize = 0;
    while k < edges.len()
        invariant
            k <= edges@.len(),
            forall|m: int| 0 <= m < k ==> !((#[trigger] edges@[m]).start == a && edges@[m].end == b || edges@[m].start == b && edges@[m].end == a),
        decreases edges@.len() - k,
    {
        let e = edges[k];
        if (e.start == a && e.end == b) || (e.start == b && e.end == a) {
            return true;
        }
        k = k + 1;
    }
    false
}

/// What segment `i` becomes: itself where nothing crosses it, else its pieces.
pub open spec fn pieces_of(segs: Seq<RawSegment>, i: int) -> Seq<RawSegment> {
    let pts = crossings_upto(segs, i, segs.len() as int);
    if pts.len() == 0 {
        seq![segs[i]]
    } else {
        split_pieces(segs[i], pts)
    }
}

/// The pieces of segments `0..i`, in order.
pub open spec fn finals_upto(segs: Seq<RawSegment>, i: int) -> Seq<RawSegment>
    decreases i,
{
    if i <= 0 {
        Seq::empty()
    } else {
        finals_upto(segs, i - 1) + pieces_of(segs, i - 1)
    }
}

/// The vertex list after snapping `p`, and the index `p` snapped to.
pub open spec fn add_point(pts: Seq<Vec2>, p: Vec2) -> (Seq<Vec2>, int) {
    match first_near(pts, p) {
        Some(k) => (pts, k),
        None => (pts.push(p), pts.len() as int),
    }
}

/// Snapping one piece: its ends become vertices, and an edge joins them
/// where they differ and no edge joins them yet.
pub open spec fn snap_step(pts: Seq<Vec2>, edges: Seq<Edge2D>, s: RawSegment) -> (Seq<Vec2>, Seq<Edge2D>) {
    let (pts1, a) = add_point(pts, s.p1);
    let (pts2, b) = add_point(pts1, s.p2);
    if a != b && !has_edge(edges, a as usize, b as usize) {
        (
            pts2,
            edges.push(
                Edge2D { id: edges.len() as usize, start: a as usize, end: b as usize, original_entity_id: Some(s.original_id) },
            ),
        )
    } else {
        (pts2, edges)
    }
}

/// The vertices and edges after snapping the ends of pieces `0..f`.
pub open spec fn snap_upto(fs: Seq<RawSegment>, f: int) -> (Seq<Vec2>, Seq<Edge2D>)
    decreases f,
{
    if f <= 0 {
        (Seq::empty(), Seq::empty())
    } else {
        let prev = snap_upto(fs, f - 1);
        snap_step(prev.0, prev.1, fs[f - 1])
    }
}

/// The graph built so far is simple, its vertices spread, and each edge
/// comes from one of the entities.
pub open spec fn snap_ok(points: Seq<Vec2>, edges: Seq<Edge2D>, es: Seq<Entity2D>) -> bool {
    &&& forall|k: int| 0 <= k < points.len() ==> in_work(#[trigger] points[k])
    &&& spread(points)
    &&& forall|e: int|
        0 <= e < edges.len() ==> {
            &&& (#[trigger] edges[e]).id == e
            &&& edges[e].start < points.len()
            &&& edges[e].end < points.len()
            &&& edges[e].start != edges[e].end
            &&& (edges[e].original_entity_id matches Some(id) && is_entity_id(es, id))
        }
    &&& forall|e: int, g: int|
        0 <= e < edges.len() && 0 <= g < edges.len() && e != g ==> !same_pair(#[trigger] edges[e], #[trigger] edges[g])
}

/// Snaps the ends of one piece.
fn snap_one(points: &mut Vec<Vec2>, edges: &mut Vec<Edge2D>, s: RawSegment, es: Ghost<Seq<Entity2D>>)
    requires
        in_work(s.p1) && in_work(s.p2) && is_entity_id(es@, s.original_id),
        snap_ok(old(points)@, old(edges)@, es@),
    ensures
        (final(points)@, final(edges)@) == snap_step(old(points)@, old(edges)@, s),
        snap_ok(final(points)@, final(edges)@, es@),
{
    let id1 = find_or_add(points, s.p1);
    let id2 = find_or_add(points, s.p2);
    if id1 != id2 && !contains_pair(edges, id1, id2) {
        let ghost before = edges@;
        let e = Edge2D { id: edges.len(), start: id1, end: id2, original_entity_id: Some(s.original_id) };
        edges.push(e);
        assert forall|a: int, b: int|
            0 <= a < edges@.len() && 0 <= b < edges@.len() && a != b implies !same_pair(
                #[trigger] edges@[a],
                #[trigger] edges@[b],
            ) by {
            if a == before.len() {
                assert(edges@[b] == before[b]);
                if same_pair(edges@[a], edges@[b]) {
                    assert(has_edge(before, id1, id2));
                }
            } else if b == before.len() {
                assert(edges@[a] == before[a]);
                if same_pair(edges@[a], edges@[b]) {
                    assert(has_edge(before, id1, id2));
                }
            } else {
                assert(edges@[a] == before[a] && edges@[b] == before[b]);
            }
        }
    }
}

/// The pieces of all segments of the entities.
pub open spec fn topology_pieces(raw: Seq<Entity2D>) -> Seq<RawSegment> {
    let segs = segments_of(raw);
    finals_upto(segs, segs.len() as int)
}

/// The vertices of the planar graph of the entities.
pub open spec fn topology_vertices(raw: Seq<Entity2D>) -> Seq<Vertex2D> {
    let fs = topology_pieces(raw);
    let pts = snap_upto(fs, fs.len() as int).0;
    Seq::new(pts.len(), |i: int| Vertex2D { id: i as usize, point: pts[i] })
}

/// The edges of the planar graph of the entities.
pub open spec fn topology_edges(raw: Seq<Entity2D>) -> Seq<Edge2D> {
    let fs = topology_pieces(raw);
    snap_upto(fs, fs.len() as int).1
}

/// The pieces of all segments: each cut at its crossings.
fn cut_segments(segs: &Vec<RawSegment>, es: Ghost<Seq<Entity2D>>) -> (finals: Vec<RawSegment>)
    requires
        all_segs_in_range(segs@),
        forall|k: int| 0 <= k < segs@.len() ==> is_entity_id(es@, (#[trigger] segs@[k]).original_id),
    ensures
        finals@ == finals_upto(segs@, segs@.len() as int),
        forall|k: int|
            0 <= k < finals@.len() ==> in_work((#[trigger] finals@[k]).p1) && in_work(finals@[k].p2)
                && is_entity_id(es@, finals@[k].original_id),
{
    let ghost es = es@;
    let mut finals: Vec<RawSegment> = Vec::new();
    let mut i: usize = 0;
    while i < segs.len()
        invariant
            i <= segs@.len(),
            all_segs_in_range(segs@),
            finals@ == finals_upto(segs@, i as int),
            forall|k: int| 0 <= k < segs@.len() ==> is_entity_id(es, (#[trigger] segs@[k]).original_id),
            forall|k: int|
                0 <= k < finals@.len() ==> in_work((#[trigger] finals@[k]).p1) && in_work(finals@[k].p2)
                    && is_entity_id(es, finals@[k].original_id),
        decreases segs@.len() - i,
    {
        let pts = split_points(&segs, i);
        let s = segs[i];
        assert(seg_in_range(segs@[i as int]));
        assert(is_entity_id(es, segs@[i as int].original_id));
        let ghost before = finals@;
        if pts.len() == 0 {
            finals.push(s);
            assert(finals@ == finals_upto(segs@, i + 1));
        } else {
            let pieces = split_segment(&s, &pts);
            let mut k: usize = 0;
            while k < pieces.len()
                invariant
                    k <= pieces@.len(),
                    finals@ == before + pieces@.take(k as int),
                    is_entity_id(es, s.original_id),
                    seg_in_range(s),
                    forall|m: int| 0 <= m < pts@.len() ==> in_work(#[trigger] pts@[m]),
                    forall|m: int|
                        0 <= m < pieces@.len() ==> {
                            &&& (#[trigger] pieces@[m]).original_id == s.original_id
                            &&& (pts@.contains(pieces@[m].p1) || pieces@[m].p1 == s.p1 || pieces@[m].p1 == s.p2)
                            &&& (pts@.contains(pieces@[m].p2) || pieces@[m].p2 == s.p1 || pieces@[m].p2 == s.p2)
                        },
                    forall|m: int|
                        0 <= m < finals@.len() ==> in_work((#[trigger] finals@[m]).p1) && in_work(finals@[m].p2)
                            && is_entity_id(es, finals@[m].original_id),
                decreases pieces@.len() - k,
            {
                let piece = pieces[k];
                assert(in_work(piece.p1)) by {
                    if pts@.contains(piece.p1) {
                        let m = choose|m: int| 0 <= m < pts@.len() && pts@[m] == piece.p1;
                        assert(in_work(pts@[m]));
                    }
                }
                assert(in_work(piece.p2)) by {
                    if pts@.contains(piece.p2) {
                        let m = choose|m: int| 0 <= m < pts@.len() && pts@[m] == piece.p2;
                        assert(in_work(pts@[m]));
                    }
                }
                finals.push(piece);
                assert(pieces@.take(k + 1) == pieces@.take(k as int).push(piece));
                k = k + 1;
            }
            assert(pieces@.take(k as int) == pieces@);
            assert(finals@ == finals_upto(segs@, i + 1));
        }
        i = i + 1;
    }
    finals
}

/// Snaps the ends of the pieces to vertices and joins them by edges.
fn snap_pieces(finals: &Vec<RawSegment>, es: Ghost<Seq<Entity2D>>) -> (r: (Vec<Vec2>, Vec<Edge2D>))
    requires
        forall|k: int|
            0 <= k < finals@.len() ==> in_work((#[trigger] finals@[k]).p1) && in_work(finals@[k].p2)
                && is_entity_id(es@, finals@[k].original_id),
    ensures
        (r.0@, r.1@) == snap_upto(finals@, finals@.len() as int),
        snap_ok(r.0@, r.1@, es@),
{
    let mut points: Vec<Vec2> = Vec::new();
    let mut edges: Vec<Edge2D> = Vec::new();
    let mut f: usize = 0;
    while f < finals.len()
        invariant
            f <= finals@.len(),
            forall|k: int|
                0 <= k < finals@.len() ==> in_work((#[trigger] finals@[k]).p1) && in_work(finals@[k].p2)
                    && is_entity_id(es@, finals@[k].original_id),
            (points@, edges@) == snap_upto(finals@, f as int),
            snap_ok(points@, edges@, es@),
        decreases finals@.len() - f,
    {
        let s = finals[f];
        assert(in_work(finals@[f as int].p1));
        snap_one(&mut points, &mut edges, s, es);
        f = f + 1;
    }
    (points, edges)
}

/// Builds the planar graph of a view from its raw entities: segments are cut
/// at their crossings, their ends snapped to vertices within `EPSILON`, and
/// each piece whose ends snap apart becomes an edge unless one already joins them.
pub fn build_topology(view: &mut View2D)
    requires
        entities_ok(old(view).raw_entities@),
    ensures
        final(view).plane == old(view).plane,
        final(view).raw_entities == old(view).raw_entities,
        final(view).well_formed(),
        final(view).vertices@ == topology_vertices(old(view).raw_entities@),
        final(view).edges@ == topology_edges(old(view).raw_entities@),
        forall|e: int|
            0 <= e < final(view).edges@.len() ==> ((#[trigger] final(view).edges@[e]).original_entity_id matches Some(id)
                && is_entity_id(old(view).raw_entities@, id)),
        forall|v: int| 0 <= v < final(view).vertices@.len() ==> in_work((#[trigger] final(view).vertices@[v]).point),
{
    let ghost es = view.raw_entities@;
    let segs = extract_segments(&view.raw_entities);
    proof {
        lemma_segment_ids(es);
    }
    let finals = cut_segments(&segs, Ghost(es));
    let (points, edges) = snap_pieces(&finals, Ghost(es));
    assert(finals@ == topology_pieces(es));
    let mut vertices: Vec<Vertex2D> = Vec::new();
    let mut v: usize = 0;
    while v < points.len()
        invariant
            v <= points@.len(),
            vertices@.len() == v,
            forall|k: int| 0 <= k < v ==> (#[trigger] vertices@[k]).id == k && vertices@[k].point == points@[k],
        decreases points@.len() - v,
    {
        vertices.push(Vertex2D { id: v, point: points[v] });
        v = v + 1;
    }
    assert forall|a: int, b: int|
        0 <= a < vertices@.len() && 0 <= b < vertices@.len() && a != b implies !near(
            #[trigger] vertices@[a].point,
            #[trigger] vertices@[b].point,
        ) by {
        assert(!near(points@[a], points@[b]));
    }
    assert(vertices@ =~= topology_vertices(es));
    view.vertices = vertices;
    view.edges = edges;
    assert(graph_ok(view.vertices@, view.edges@));
}


proof fn lemma_segments_same(a: Seq<Entity2D>, b: Seq<Entity2D>)
    requires
        a.len() == b.len(),
        forall|k: int| 0 <= k < a.len() ==> (#[trigger] b[k]).same(&a[k]),
    ensures
        segments_of(a) == segments_of(b),
    decreases a.len(),
{
    if a.len() > 0 {
        assert forall|k: int| 0 <= k < a.drop_last().len() implies (#[trigger] b.drop_last()[k]).same(&a.drop_last()[k]) by {
            assert(b[k].same(&a[k]));
        }
        lemma_segments_same(a.drop_last(), b.drop_last());
        assert(b[b.len() - 1].same(&a[a.len() - 1]));
        assert(entity_segments(a.last()) == entity_segments(b.last()));
    }
}

/// Building the topology twice from the same raw entities, or from copies of
/// them, gives the same vertices, at the same positions and in the same
/// order, and the same edges.
pub proof fn lemma_topology_deterministic(a: Seq<Entity2D>, b: Seq<Entity2D>)
    requires
        a.len() == b.len(),
        forall|k: int| 0 <= k < a.len() ==> (#[trigger] b[k]).same(&a[k]),
    ensures
        topology_vertices(a) == topology_vertices(b),
        topology_edges(a) == topology_edges(b),
{
    lemma_segments_same(a, b);
}

} // verus!
