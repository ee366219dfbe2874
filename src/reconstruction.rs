//! Alignment of the three views, lifting of vertex triples to 3D candidates,
//! and selection of the candidate edges that all three views support.
use vstd::prelude::*;
use crate::geom::Vec2;
use crate::structs::{has_edge, Edge2D, LambdaRow, Point3, ThetaEdge, Vertex2D, View2D};
use crate::topology::{in_work, WORK_LIMIT};

verus! {

/// Cross-view tolerance: one drawing unit, in micro-units.
pub const MATCH_TOLERANCE: i64 = 1_000_000;

/// Sums of the x and of the y coordinates.
pub open spec fn sum_x(vs: Seq<Vertex2D>) -> int
    decreases vs.len(),
{
    if vs.len() == 0 { 0 } else { sum_x(vs.drop_last()) + vs.last().point.x }
}

pub open spec fn sum_y(vs: Seq<Vertex2D>) -> int
    decreases vs.len(),
{
    if vs.len() == 0 { 0 } else { sum_y(vs.drop_last()) + vs.last().point.y }
}

/// The mean of the vertices, each coordinate rounded toward negative
/// infinity; the origin for no vertices.
pub open spec fn centroid(vs: Seq<Vertex2D>) -> Vec2 {
    if vs.len() == 0 {
        Vec2 { x: 0, y: 0 }
    } else {
        Vec2 { x: (sum_x(vs) / vs.len() as int) as i64, y: (sum_y(vs) / vs.len() as int) as i64 }
    }
}

pub open spec fn points_in_work(vs: Seq<Vertex2D>) -> bool {
    forall|k: int| 0 <= k < vs.len() ==> in_work(#[trigger] vs[k].point)
}

proof fn lemma_sum_bounds(vs: Seq<Vertex2D>)
    requires
        points_in_work(vs),
    ensures
        -WORK_LIMIT * vs.len() <= sum_x(vs) <= WORK_LIMIT * vs.len(),
        -WORK_LIMIT * vs.len() <= sum_y(vs) <= WORK_LIMIT * vs.len(),
    decreases vs.len(),
{
    if vs.len() > 0 {
        assert(in_work(vs[vs.len() - 1].point));
        assert(points_in_work(vs.drop_last()));
        lemma_sum_bounds(vs.drop_last());
    }
}

proof fn lemma_mean_bounds(s: int, n: int)
    requires
        n > 0,
        -WORK_LIMIT * n <= s <= WORK_LIMIT * n,
    ensures
        -WORK_LIMIT <= s / n <= WORK_LIMIT,
{
    assert(s == n * (s / n) + s % n && 0 <= s % n < n) by (nonlinear_arith)
        requires n > 0;
    let q: int = s / n;
    assert(q <= WORK_LIMIT) by (nonlinear_arith)
        requires n * q <= s, s <= WORK_LIMIT * n, n > 0;
    assert(q >= -WORK_LIMIT) by (nonlinear_arith)
        requires n * q + n > s, s >= -WORK_LIMIT * n, n > 0;
}

/// The centroid of a view's vertices.
pub fn get_centroid(view: &View2D) -> (r: Vec2)
    requires
        points_in_work(view.vertices@),
    ensures
        r == centroid(view.vertices@),
        in_work(r),
{
    let n = view.vertices.len();
    if n == 0 {
        return Vec2 { x: 0, y: 0 };
    }
    let ghost vs = view.vertices@;
    let mut sx: i128 = 0;
    let mut sy: i128 = 0;
    let mut k: usize = 0;
    while k < n
        invariant
            n == vs.len(),
            vs == view.vertices@,
            k <= n,
            points_in_work(vs),
            sx == sum_x(vs.take(k as int)),
            sy == sum_y(vs.take(k as int)),
            -5_000_000_000_001 * k <= sx <= 5_000_000_000_001 * k,
            -5_000_000_000_001 * k <= sy <= 5_000_000_000_001 * k,
        decreases n - k,
    {
        assert(vs.take(k + 1).drop_last() == vs.take(k as int));
        assert(in_work(vs[k as int].point));
        sx = sx + view.vertices[k].point.x as i128;
        sy = sy + view.vertices[k].point.y as i128;
        k = k + 1;
    }
    assert(vs.take(n as int) == vs);
    proof {
        lemma_mean_bounds(sx as int, n as int);
        lemma_mean_bounds(sy as int, n as int);
    }
    let cx: i128 = crate::topology::floor_div(sx, n as i128);
    let cy: i128 = crate::topology::floor_div(sy, n as i128);
    Vec2 { x: cx as i64, y: cy as i64 }
}


/// `|a| <= MATCH_TOLERANCE`.
pub open spec fn within_tol(a: int) -> bool {
    -MATCH_TOLERANCE <= a <= MATCH_TOLERANCE
}

/// An XY, an XZ and a YZ point agree on their shared axes once shifted:
/// XY gives (x, y), XZ gives (x, z), YZ gives (y, z).
pub open spec fn triple_matches(a: Vec2, b: Vec2, c: Vec2, sxy: Vec2, syz: Vec2) -> bool {
    &&& within_tol(b.x - (a.x + sxy.x))
    &&& within_tol((c.x + syz.x) - (a.y + sxy.y))
    &&& within_tol(b.y - (c.y + syz.y))
}

/// The 3D point lifted from an XY point and an XZ point.
pub open spec fn lifted(a: Vec2, b: Vec2, sxy: Vec2) -> Point3 {
    Point3 { x: (a.x + sxy.x) as i64, y: (a.y + sxy.y) as i64, z: b.y }
}

pub open spec fn row_of(xy: Seq<Vertex2D>, xz: Seq<Vertex2D>, yz: Seq<Vertex2D>, sxy: Vec2, i: int, j: int, k: int) -> LambdaRow {
    LambdaRow { p3: lifted(xy[i].point, xz[j].point, sxy), v_xy_id: xy[i].id, v_xz_id: xz[j].id, v_yz_id: yz[k].id }
}

/// Rows for XY vertex `i` and XZ vertex `j`, over YZ vertices `0..k`.
pub open spec fn rows_inner(xy: Seq<Vertex2D>, xz: Seq<Vertex2D>, yz: Seq<Vertex2D>, sxy: Vec2, syz: Vec2, i: int, j: int, k: int) -> Seq<LambdaRow>
    decreases k,
{
    if k <= 0 {
        Seq::empty()
    } else {
        let prev = rows_inner(xy, xz, yz, sxy, syz, i, j, k - 1);
        if triple_matches(xy[i].point, xz[j].point, yz[k - 1].point, sxy, syz) {
            prev.push(row_of(xy, xz, yz, sxy, i, j, k - 1))
        } else {
            prev
        }
    }
}

/// Rows for XY vertex `i`, over XZ vertices `0..j`.
pub open spec fn rows_mid(xy: Seq<Vertex2D>, xz: Seq<Vertex2D>, yz: Seq<Vertex2D>, sxy: Vec2, syz: Vec2, i: int, j: int) -> Seq<LambdaRow>
    decreases j,
{
    if j <= 0 {
        Seq::empty()
    } else {
        rows_mid(xy, xz, yz, sxy, syz, i, j - 1) + rows_inner(xy, xz, yz, sxy, syz, i, j - 1, yz.len() as int)
    }
}

/// Rows over XY vertices `0..i`.
pub open spec fn rows_outer(xy: Seq<Vertex2D>, xz: Seq<Vertex2D>, yz: Seq<Vertex2D>, sxy: Vec2, syz: Vec2, i: int) -> Seq<LambdaRow>
    decreases i,
{
    if i <= 0 {
        Seq::empty()
    } else {
        rows_outer(xy, xz, yz, sxy, syz, i - 1) + rows_mid(xy, xz, yz, sxy, syz, i - 1, xz.len() as int)
    }
}

/// The candidate 3D vertices: every matching triple, in the order of the XY
/// vertices, then of the XZ vertices, then of the YZ vertices.
pub open spec fn lambda_rows(xy: Seq<Vertex2D>, xz: Seq<Vertex2D>, yz: Seq<Vertex2D>, sxy: Vec2, syz: Vec2) -> Seq<LambdaRow> {
    rows_outer(xy, xz, yz, sxy, syz, xy.len() as int)
}

/// A row names one vertex of each view, those vertices match, and its point
/// is lifted from them.
pub open spec fn row_sound(r: LambdaRow, xy: Seq<Vertex2D>, xz: Seq<Vertex2D>, yz: Seq<Vertex2D>, sxy: Vec2, syz: Vec2) -> bool {
    &&& r.v_xy_id < xy.len()
    &&& r.v_xz_id < xz.len()
    &&& r.v_yz_id < yz.len()
    &&& triple_matches(xy[r.v_xy_id as int].point, xz[r.v_xz_id as int].point, yz[r.v_yz_id as int].point, sxy, syz)
    &&& r.p3 == lifted(xy[r.v_xy_id as int].point, xz[r.v_xz_id as int].point, sxy)
}

/// Each coordinate lies within three times `WORK_LIMIT`.
pub open spec fn p3_bounded(p: Point3) -> bool {
    -3 * WORK_LIMIT <= p.x <= 3 * WORK_LIMIT && -3 * WORK_LIMIT <= p.y <= 3 * WORK_LIMIT && -3 * WORK_LIMIT
        <= p.z <= 3 * WORK_LIMIT
}

pub open spec fn dense_ids(vs: Seq<Vertex2D>) -> bool {
    forall|k: int| 0 <= k < vs.len() ==> (#[trigger] vs[k]).id == k
}

pub open spec fn shift_ok(s: Vec2) -> bool {
    -2 * WORK_LIMIT <= s.x <= 2 * WORK_LIMIT && -2 * WORK_LIMIT <= s.y <= 2 * WORK_LIMIT
}

/// The YZ vertices among `yz[..k]` whose global y lies within tolerance of `py`.
pub open spec fn cand_upto(yz: Seq<Vertex2D>, syz: Vec2, py: int, k: int) -> Seq<usize>
    decreases k,
{
    if k <= 0 {
        Seq::empty()
    } else {
        let prev = cand_upto(yz, syz, py, k - 1);
        if within_tol((yz[k - 1].point.x + syz.x) - py) { prev.push((k - 1) as usize) } else { prev }
    }
}

/// The rows for XY vertex `i`, XZ vertex `j` and the candidates `cand[..m]`
/// whose global z agrees.
pub open spec fn rows_over(
    xy: Seq<Vertex2D>,
    xz: Seq<Vertex2D>,
    yz: Seq<Vertex2D>,
    sxy: Vec2,
    syz: Vec2,
    i: int,
    j: int,
    cand: Seq<usize>,
    m: int,
) -> Seq<LambdaRow>
    decreases m,
{
    if m <= 0 {
        Seq::empty()
    } else {
        let prev = rows_over(xy, xz, yz, sxy, syz, i, j, cand, m - 1);
        let k = cand[m - 1] as int;
        if within_tol(xz[j].point.y - (yz[k].point.y + syz.y)) {
            prev.push(row_of(xy, xz, yz, sxy, i, j, k))
        } else {
            prev
        }
    }
}

proof fn lemma_rows_over_prefix(
    xy: Seq<Vertex2D>,
    xz: Seq<Vertex2D>,
    yz: Seq<Vertex2D>,
    sxy: Vec2,
    syz: Vec2,
    i: int,
    j: int,
    cand: Seq<usize>,
    x: usize,
    m: int,
)
    requires
        0 <= m <= cand.len(),
    ensures
        rows_over(xy, xz, yz, sxy, syz, i, j, cand.push(x), m) == rows_over(xy, xz, yz, sxy, syz, i, j, cand, m),
    decreases m,
{
    if m > 0 {
        lemma_rows_over_prefix(xy, xz, yz, sxy, syz, i, j, cand, x, m - 1);
        assert(cand.push(x)[m - 1] == cand[m - 1]);
    }
}

/// Where the XZ vertex matches in x, the rows over all YZ vertices are the
/// rows over the candidates; where it does not, there are none.
proof fn lemma_rows_by_candidates(
    xy: Seq<Vertex2D>,
    xz: Seq<Vertex2D>,
    yz: Seq<Vertex2D>,
    sxy: Vec2,
    syz: Vec2,
    i: int,
    j: int,
    k: int,
)
    requires
        0 <= i < xy.len(),
        0 <= j < xz.len(),
        0 <= k <= yz.len(),
        yz.len() <= usize::MAX,
    ensures
        within_tol(xz[j].point.x - (xy[i].point.x + sxy.x)) ==> rows_inner(xy, xz, yz, sxy, syz, i, j, k) == rows_over(
            xy,
            xz,
            yz,
            sxy,
            syz,
            i,
            j,
            cand_upto(yz, syz, xy[i].point.y + sxy.y, k),
            cand_upto(yz, syz, xy[i].point.y + sxy.y, k).len() as int,
        ),
        !within_tol(xz[j].point.x - (xy[i].point.x + sxy.x)) ==> rows_inner(xy, xz, yz, sxy, syz, i, j, k)
            == Seq::<LambdaRow>::empty(),
    decreases k,
{
    if k > 0 {
        lemma_rows_by_candidates(xy, xz, yz, sxy, syz, i, j, k - 1);
        let py = xy[i].point.y + sxy.y;
        let prev = cand_upto(yz, syz, py, k - 1);
        let cur = cand_upto(yz, syz, py, k);
        let x_ok = within_tol(xz[j].point.x - (xy[i].point.x + sxy.x));
        let y_ok = within_tol((yz[k - 1].point.x + syz.x) - py);
        let z_ok = within_tol(xz[j].point.y - (yz[k - 1].point.y + syz.y));
        assert(triple_matches(xy[i].point, xz[j].point, yz[k - 1].point, sxy, syz) == (x_ok && y_ok && z_ok));
        if y_ok {
            assert(cur == prev.push((k - 1) as usize));
            lemma_rows_over_prefix(xy, xz, yz, sxy, syz, i, j, prev, (k - 1) as usize, prev.len() as int);
            assert(cur[prev.len() as int] == (k - 1) as usize);
            assert(rows_over(xy, xz, yz, sxy, syz, i, j, cur, cur.len() as int) == {
                let r0 = rows_over(xy, xz, yz, sxy, syz, i, j, cur, prev.len() as int);
                if z_ok { r0.push(row_of(xy, xz, yz, sxy, i, j, k - 1)) } else { r0 }
            });
        } else {
            assert(cur == prev);
        }
    }
}

proof fn lemma_cand_facts(yz: Seq<Vertex2D>, syz: Vec2, py: int, k: int)
    requires
        0 <= k <= yz.len(),
        yz.len() <= usize::MAX,
    ensures
        forall|t: int|
            0 <= t < cand_upto(yz, syz, py, k).len() ==> (#[trigger] cand_upto(yz, syz, py, k)[t]) < k && within_tol(
                (yz[cand_upto(yz, syz, py, k)[t] as int].point.x + syz.x) - py,
            ),
    decreases k,
{
    if k > 0 {
        lemma_cand_facts(yz, syz, py, k - 1);
        let prev = cand_upto(yz, syz, py, k - 1);
        let cur = cand_upto(yz, syz, py, k);
        assert forall|t: int| 0 <= t < cur.len() implies (#[trigger] cur[t]) < k && within_tol(
            (yz[cur[t] as int].point.x + syz.x) - py,
        ) by {
            if t < prev.len() {
                assert(cur[t] == prev[t]);
            } else {
                assert(cur[t] == (k - 1) as usize);
            }
        }
    }
}

/// The YZ vertices whose global y lies within tolerance of `py`, in order.
fn yz_candidates(v_yz: &View2D, py: i64, shift_yz: Vec2) -> (r: Vec<usize>)
    requires
        points_in_work(v_yz.vertices@),
        shift_ok(shift_yz),
        -4 * WORK_LIMIT <= py <= 4 * WORK_LIMIT,
    ensures
        r@ == cand_upto(v_yz.vertices@, shift_yz, py as int, v_yz.vertices@.len() as int),
{
    let ghost yz = v_yz.vertices@;
    let mut cand: Vec<usize> = Vec::new();
    let mut k: usize = 0;
    while k < v_yz.vertices.len()
        invariant
            yz == v_yz.vertices@,
            points_in_work(yz),
            shift_ok(shift_yz),
            -4 * WORK_LIMIT <= py <= 4 * WORK_LIMIT,
            k <= yz.len(),
            cand@ == cand_upto(yz, shift_yz, py as int, k as int),
        decreases yz.len() - k,
    {
        let c = v_yz.vertices[k].point;
        assert(in_work(yz[k as int].point));
        let dy: i64 = (c.x + shift_yz.x) - py;
        if -MATCH_TOLERANCE <= dy && dy <= MATCH_TOLERANCE {
            cand.push(k);
        }
        k = k + 1;
    }
    cand
}

/// Lifts every coordinate-consistent vertex triple of the three views to a
/// candidate 3D vertex.
pub fn build_lambda(v_xy: &View2D, v_xz: &View2D, v_yz: &View2D, shift_xy: Vec2, shift_yz: Vec2) -> (r: Vec<LambdaRow>)
    requires
        points_in_work(v_xy.vertices@),
        points_in_work(v_xz.vertices@),
        points_in_work(v_yz.vertices@),
        dense_ids(v_xy.vertices@),
        dense_ids(v_xz.vertices@),
        dense_ids(v_yz.vertices@),
        shift_ok(shift_xy),
        shift_ok(shift_yz),
    ensures
        r@ == lambda_rows(v_xy.vertices@, v_xz.vertices@, v_yz.vertices@, shift_xy, shift_yz),
        forall|m: int|
            0 <= m < r@.len() ==> row_sound(#[trigger] r@[m], v_xy.vertices@, v_xz.vertices@, v_yz.vertices@, shift_xy, shift_yz),
        forall|m: int| 0 <= m < r@.len() ==> p3_bounded(#[trigger] r@[m].p3),
{
    let ghost xy = v_xy.vertices@;
    let ghost xz = v_xz.vertices@;
    let ghost yz = v_yz.vertices@;
    let ny = v_yz.vertices.len();
    assert(yz.len() == ny && ny <= usize::MAX);
    let mut out: Vec<LambdaRow> = Vec::new();
    let mut i: usize = 0;
    while i < v_xy.vertices.len()
        invariant
            xy == v_xy.vertices@, xz == v_xz.vertices@, yz == v_yz.vertices@, yz.len() <= usize::MAX,
            points_in_work(xy), points_in_work(xz), points_in_work(yz),
            dense_ids(xy), dense_ids(xz), dense_ids(yz),
            shift_ok(shift_xy), shift_ok(shift_yz),
            i <= xy.len(),
            out@ == rows_outer(xy, xz, yz, shift_xy, shift_yz, i as int),
            forall|m: int| 0 <= m < out@.len() ==> row_sound(#[trigger] out@[m], xy, xz, yz, shift_xy, shift_yz),
            forall|m: int| 0 <= m < out@.len() ==> p3_bounded(#[trigger] out@[m].p3),
        decreases xy.len() - i,
    {
        let a = v_xy.vertices[i].point;
        assert(in_work(xy[i as int].point));
        let px: i64 = a.x + shift_xy.x;
        let py: i64 = a.y + shift_xy.y;
        let cand = yz_candidates(v_yz, py, shift_yz);
        proof {
            lemma_cand_facts(yz, shift_yz, py as int, yz.len() as int);
        }
        let mut j: usize = 0;
        while j < v_xz.vertices.len()
            invariant
                xy == v_xy.vertices@, xz == v_xz.vertices@, yz == v_yz.vertices@, yz.len() <= usize::MAX, yz.len() <= usize::MAX,
                points_in_work(xy), points_in_work(xz), points_in_work(yz),
                dense_ids(xy), dense_ids(xz), dense_ids(yz),
                shift_ok(shift_xy), shift_ok(shift_yz),
                i < xy.len(),
                a == xy[i as int].point,
                px == a.x + shift_xy.x,
                py == a.y + shift_xy.y,
                cand@ == cand_upto(yz, shift_yz, py as int, yz.len() as int),
                forall|t: int|
                    0 <= t < cand@.len() ==> (#[trigger] cand@[t]) < yz.len() && within_tol(
                        (yz[cand@[t] as int].point.x + shift_yz.x) - py,
                    ),
                j <= xz.len(),
                out@ == rows_outer(xy, xz, yz, shift_xy, shift_yz, i as int) + rows_mid(xy, xz, yz, shift_xy, shift_yz, i as int, j as int),
                forall|m: int| 0 <= m < out@.len() ==> row_sound(#[trigger] out@[m], xy, xz, yz, shift_xy, shift_yz),
                forall|m: int| 0 <= m < out@.len() ==> p3_bounded(#[trigger] out@[m].p3),
            decreases xz.len() - j,
        {
            let b = v_xz.vertices[j].point;
            assert(in_work(xz[j as int].point));
            let ghost base = out@;
            proof {
                lemma_rows_by_candidates(xy, xz, yz, shift_xy, shift_yz, i as int, j as int, yz.len() as int);
            }
            let dx: i64 = b.x - px;
            if -MATCH_TOLERANCE <= dx && dx <= MATCH_TOLERANCE {
                let mut t: usize = 0;
                while t < cand.len()
                    invariant
                        xy == v_xy.vertices@, xz == v_xz.vertices@, yz == v_yz.vertices@, yz.len() <= usize::MAX, yz.len() <= usize::MAX,
                        points_in_work(xy), points_in_work(xz), points_in_work(yz),
                        dense_ids(xy), dense_ids(xz), dense_ids(yz),
                        shift_ok(shift_xy), shift_ok(shift_yz),
                        i < xy.len(),
                        j < xz.len(),
                        a == xy[i as int].point,
                        b == xz[j as int].point,
                        px == a.x + shift_xy.x,
                        py == a.y + shift_xy.y,
                        within_tol(b.x - px),
                        forall|q: int|
                            0 <= q < cand@.len() ==> (#[trigger] cand@[q]) < yz.len() && within_tol(
                                (yz[cand@[q] as int].point.x + shift_yz.x) - py,
                            ),
                        t <= cand@.len(),
                        out@ == base + rows_over(xy, xz, yz, shift_xy, shift_yz, i as int, j as int, cand@, t as int),
                        forall|m: int| 0 <= m < out@.len() ==> row_sound(#[trigger] out@[m], xy, xz, yz, shift_xy, shift_yz),
                        forall|m: int| 0 <= m < out@.len() ==> p3_bounded(#[trigger] out@[m].p3),
                    decreases cand@.len() - t,
                {
                    let k = cand[t];
                    assert(k < yz.len());
                    let c = v_yz.vertices[k].point;
                    assert(in_work(yz[k as int].point));
                    let dz: i64 = b.y - (c.y + shift_yz.y);
                    if -MATCH_TOLERANCE <= dz && dz <= MATCH_TOLERANCE {
                        let row = LambdaRow {
                            p3: Point3 { x: px, y: py, z: b.y },
                            v_xy_id: v_xy.vertices[i].id,
                            v_xz_id: v_xz.vertices[j].id,
                            v_yz_id: v_yz.vertices[k].id,
                        };
                        assert(row == row_of(xy, xz, yz, shift_xy, i as int, j as int, k as int));
                        assert(xy[i as int].id == i && xz[j as int].id == j && yz[k as int].id == k);
                        out.push(row);
                    }
                    assert(out@ =~= base + rows_over(xy, xz, yz, shift_xy, shift_yz, i as int, j as int, cand@, t + 1));
                    t = t + 1;
                }
            }
            assert(rows_mid(xy, xz, yz, shift_xy, shift_yz, i as int, j + 1) == rows_mid(xy, xz, yz, shift_xy, shift_yz, i as int, j as int) + rows_inner(xy, xz, yz, shift_xy, shift_yz, i as int, j as int, yz.len() as int));
            assert(out@ =~= rows_outer(xy, xz, yz, shift_xy, shift_yz, i as int) + rows_mid(xy, xz, yz, shift_xy, shift_yz, i as int, j + 1));
            j = j + 1;
        }
        assert(out@ == rows_outer(xy, xz, yz, shift_xy, shift_yz, i + 1));
        i = i + 1;
    }
    out
}


/// A view supports the pair of its vertices `a`, `b` when they are one vertex
/// (the 3D edge projects to a point) or an edge joins them.
pub open spec fn view_supports(edges: Seq<Edge2D>, a: usize, b: usize) -> bool {
    a == b || has_edge(edges, a, b)
}

/// All three views support the pair of candidate vertices `i`, `j`.
pub open spec fn pair_supported(lam: Seq<LambdaRow>, exy: Seq<Edge2D>, exz: Seq<Edge2D>, eyz: Seq<Edge2D>, i: int, j: int) -> bool {
    &&& view_supports(exy, lam[i].v_xy_id, lam[j].v_xy_id)
    &&& view_supports(exz, lam[i].v_xz_id, lam[j].v_xz_id)
    &&& view_supports(eyz, lam[i].v_yz_id, lam[j].v_yz_id)
}

pub open spec fn lex_less(a: ThetaEdge, b: ThetaEdge) -> bool {
    a.start_lambda_idx < b.start_lambda_idx || (a.start_lambda_idx == b.start_lambda_idx && a.end_lambda_idx
        < b.end_lambda_idx)
}

/// `t` holds exactly the supported pairs `i < j`, each once, sorted by `(i, j)`.
pub open spec fn theta_exact(t: Seq<ThetaEdge>, lam: Seq<LambdaRow>, exy: Seq<Edge2D>, exz: Seq<Edge2D>, eyz: Seq<Edge2D>) -> bool {
    &&& forall|m: int|
        0 <= m < t.len() ==> {
            &&& (#[trigger] t[m]).start_lambda_idx < t[m].end_lambda_idx < lam.len()
            &&& pair_supported(lam, exy, exz, eyz, t[m].start_lambda_idx as int, t[m].end_lambda_idx as int)
        }
    &&& forall|i: int, j: int|
        0 <= i < j < lam.len() && #[trigger] pair_supported(lam, exy, exz, eyz, i, j) ==> exists|m: int|
            0 <= m < t.len() && (#[trigger] t[m]).start_lambda_idx == i && t[m].end_lambda_idx == j
    &&& forall|m: int, n: int| 0 <= m < n < t.len() ==> lex_less(#[trigger] t[m], #[trigger] t[n])
}

/// Whether a view supports the pair `a`, `b`.
fn supports(edges: &Vec<Edge2D>, a: usize, b: usize) -> (r: bool)
    ensures
        r == view_supports(edges@, a, b),
{
    if a == b {
        return true;
    }
    let mut k: usize = 0;
    while k < edges.len()
        invariant
            k <= edges@.len(),
            forall|m: int| 0 <= m < k ==> !((#[trigger] edges@[m]).start == a && edges@[m].end == b || edges@[m].start == b && edges@[m].end == a),
        decreases edges@.len() - k,
    {
        let e = edges[k];
        if (e.start == a && e.end == b) || (e.start == b && e.end == a) {
            return true;
        }
        k = k + 1;
    }
    false
}

/// Keeps each pair of candidate vertices whose projections all three views
/// support, testing XY, then XZ, then YZ.
pub fn build_theta(lambda: &Vec<LambdaRow>, v_xy: &View2D, v_xz: &View2D, v_yz: &View2D) -> (r: Vec<ThetaEdge>)
    ensures
        theta_exact(r@, lambda@, v_xy.edges@, v_xz.edges@, v_yz.edges@),
{
    let ghost lam = lambda@;
    let ghost exy = v_xy.edges@;
    let ghost exz = v_xz.edges@;
    let ghost eyz = v_yz.edges@;
    let n = lambda.len();
    let mut out: Vec<ThetaEdge> = Vec::new();
    let mut i: usize = 0;
    while i < n
        invariant
            n == lam.len(), lam == lambda@, exy == v_xy.edges@, exz == v_xz.edges@, eyz == v_yz.edges@,
            i <= n,
            forall|m: int|
                0 <= m < out@.len() ==> {
                    &&& (#[trigger] out@[m]).start_lambda_idx < out@[m].end_lambda_idx < lam.len()
                    &&& out@[m].start_lambda_idx < i
                    &&& pair_supported(lam, exy, exz, eyz, out@[m].start_lambda_idx as int, out@[m].end_lambda_idx as int)
                },
            forall|a: int, b: int|
                0 <= a < b < lam.len() && a < i && #[trigger] pair_supported(lam, exy, exz, eyz, a, b) ==> exists|m: int|
                    0 <= m < out@.len() && (#[trigger] out@[m]).start_lambda_idx == a && out@[m].end_lambda_idx == b,
            forall|m: int, q: int| 0 <= m < q < out@.len() ==> lex_less(#[trigger] out@[m], #[trigger] out@[q]),
        decreases n - i,
    {
        let mut j: usize = i + 1;
        while j < n
            invariant
                n == lam.len(), lam == lambda@, exy == v_xy.edges@, exz == v_xz.edges@, eyz == v_yz.edges@,
                i < n,
                i + 1 <= j <= n,
                forall|m: int|
                    0 <= m < out@.len() ==> {
                        &&& (#[trigger] out@[m]).start_lambda_idx < out@[m].end_lambda_idx < lam.len()
                        &&& (out@[m].start_lambda_idx < i || (out@[m].start_lambda_idx == i && out@[m].end_lambda_idx < j))
                        &&& pair_supported(lam, exy, exz, eyz, out@[m].start_lambda_idx as int, out@[m].end_lambda_idx as int)
                    },
                forall|a: int, b: int|
                    0 <= a < b < lam.len() && (a < i || (a == i && b < j)) && #[trigger] pair_supported(lam, exy, exz, eyz, a, b) ==> exists|m: int|
                        0 <= m < out@.len() && (#[trigger] out@[m]).start_lambda_idx == a && out@[m].end_lambda_idx == b,
                forall|m: int, q: int| 0 <= m < q < out@.len() ==> lex_less(#[trigger] out@[m], #[trigger] out@[q]),
            decreases n - j,
        {
            let l1 = lambda[i];
            let l2 = lambda[j];
            let ok = supports(&v_xy.edges, l1.v_xy_id, l2.v_xy_id) && supports(&v_xz.edges, l1.v_xz_id, l2.v_xz_id)
                && supports(&v_yz.edges, l1.v_yz_id, l2.v_yz_id);
            if ok {
                let ghost before = out@;
                out.push(ThetaEdge { start_lambda_idx: i, end_lambda_idx: j });
                assert forall|a: int, b: int|
                    0 <= a < b < lam.len() && (a < i || (a == i && b < j + 1)) && #[trigger] pair_supported(lam, exy, exz, eyz, a, b) implies exists|m: int|
                        0 <= m < out@.len() && (#[trigger] out@[m]).start_lambda_idx == a && out@[m].end_lambda_idx == b by {
                    if a == i && b == j {
                        assert(out@[before.len() as int].start_lambda_idx == a);
                    } else {
                        let m = choose|m: int| 0 <= m < before.len() && (#[trigger] before[m]).start_lambda_idx == a && before[m].end_lambda_idx == b;
                        assert(out@[m] == before[m]);
                    }
                }
                assert forall|m: int, q: int| 0 <= m < q < out@.len() implies lex_less(#[trigger] out@[m], #[trigger] out@[q]) by {
                    if q == before.len() {
                        assert(out@[m] == before[m]);
                    } else {
                        assert(out@[m] == before[m] && out@[q] == before[q]);
                    }
                }
            } else {
                assert(!pair_supported(lam, exy, exz, eyz, i as int, j as int));
            }
            j = j + 1;
        }
        i = i + 1;
    }
    out
}


/// Shift of the XY view: its x moves onto the XZ view's x.
pub open spec fn spec_shift_xy(xy: Seq<Vertex2D>, xz: Seq<Vertex2D>) -> Vec2 {
    Vec2 { x: (centroid(xz).x - centroid(xy).x) as i64, y: 0 }
}

/// Shift of the YZ view: its x (global y) moves onto the XY view's y, its y
/// (global z) onto the XZ view's y.
pub open spec fn spec_shift_yz(xy: Seq<Vertex2D>, xz: Seq<Vertex2D>, yz: Seq<Vertex2D>) -> Vec2 {
    Vec2 { x: (centroid(xy).y - centroid(yz).x) as i64, y: (centroid(xz).y - centroid(yz).y) as i64 }
}

/// The views are ready for lifting: dense vertex ids and bounded coordinates.
pub open spec fn view_ready(v: &View2D) -> bool {
    points_in_work(v.vertices@) && dense_ids(v.vertices@)
}

/// Aligns the views by their centroids, then builds the candidate vertices
/// and the candidate edges.
pub fn build_reconstruction(v_xy: &View2D, v_xz: &View2D, v_yz: &View2D) -> (r: (Vec<LambdaRow>, Vec<ThetaEdge>))
    requires
        view_ready(v_xy),
        view_ready(v_xz),
        view_ready(v_yz),
    ensures
        r.0@ == lambda_rows(
            v_xy.vertices@,
            v_xz.vertices@,
            v_yz.vertices@,
            spec_shift_xy(v_xy.vertices@, v_xz.vertices@),
            spec_shift_yz(v_xy.vertices@, v_xz.vertices@, v_yz.vertices@),
        ),
        theta_exact(r.1@, r.0@, v_xy.edges@, v_xz.edges@, v_yz.edges@),
        forall|m: int| 0 <= m < r.0@.len() ==> p3_bounded(#[trigger] r.0@[m].p3),
{
    let c_xy = get_centroid(v_xy);
    let c_xz = get_centroid(v_xz);
    let c_yz = get_centroid(v_yz);
    let shift_xy = Vec2 { x: c_xz.x - c_xy.x, y: 0 };
    let shift_yz = Vec2 { x: c_xy.y - c_yz.x, y: c_xz.y - c_yz.y };
    let lambda = build_lambda(v_xy, v_xz, v_yz, shift_xy, shift_yz);
    let theta = build_theta(&lambda, v_xy, v_xz, v_yz);
    (lambda, theta)
}

} // verus!
