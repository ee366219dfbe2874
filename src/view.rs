//! Assigning the front, top and right roles to three view clusters.
use vstd::prelude::*;
use crate::geom::{Vec2, COORD_LIMIT};
use crate::report::ViewClusterReport;

verus! {

#[derive(Clone, Copy, Debug, PartialEq, Eq, Structural)]
pub enum ProjectionScheme {
    ThirdAngle,
    FirstAngle,
}

#[derive(Clone, Copy, Debug, PartialEq, Eq, Structural)]
pub enum ViewRole {
    Front,
    Top,
    Right,
}

#[derive(Clone, Copy, Debug, PartialEq, Eq, Structural)]
pub struct ViewRoleAssignment {
    pub cluster_id: usize,
    pub role: ViewRole,
}

/// The chosen layout; the confidence is in percent.
pub struct ViewAssignmentReport {
    pub scheme: ProjectionScheme,
    pub confidence: u32,
    pub roles: Vec<ViewRoleAssignment>,
}

pub open spec fn abs_v(v: int) -> int {
    if v < 0 { -v } else { v }
}

/// How well three centres fit the layout of a scheme: a point each for the
/// top view on the right side of the front view and for the right view on
/// its side (a point off where not), and a point each where the top view
/// lies within 35% of the spread across, and the right view within 35% up
/// and down.
pub open spec fn score(scheme: ProjectionScheme, front: Vec2, top: Vec2, right: Vec2) -> int {
    let place = match scheme {
        ProjectionScheme::ThirdAngle => (if top.y > front.y { 1int } else { -1int }) + (if right.x > front.x { 1int } else { -1int }),
        ProjectionScheme::FirstAngle => (if top.y < front.y { 1int } else { -1int }) + (if right.x < front.x { 1int } else { -1int }),
    };
    let dx_tf = abs_v(top.x - front.x);
    let dy_rf = abs_v(right.y - front.y);
    let span_x = dx_tf + abs_v(right.x - front.x);
    let span_y = dy_rf + abs_v(top.y - front.y);
    place + (if 20 * dx_tf <= 7 * span_x { 1int } else { 0int }) + (if 20 * dy_rf <= 7 * span_y { 1int } else { 0int })
}

/// The six orders of three clusters, as (front, top, right).
pub open spec fn perm(k: int) -> (int, int, int) {
    if k == 0 { (0, 1, 2) } else if k == 1 { (0, 2, 1) } else if k == 2 { (1, 0, 2) } else if k == 3 { (1, 2, 0) }
    else if k == 4 { (2, 0, 1) } else { (2, 1, 0) }
}

pub open spec fn scheme_of(k: int) -> ProjectionScheme {
    if k % 2 == 0 { ProjectionScheme::ThirdAngle } else { ProjectionScheme::FirstAngle }
}

/// The score of candidate `k`: order `k / 2` under scheme `k % 2`.
pub open spec fn candidate_score(c: Seq<Vec2>, k: int) -> int {
    let (f, t, r) = perm(k / 2);
    score(scheme_of(k), c[f], c[t], c[r])
}

/// The first of candidates `0..n` with the highest score.
pub open spec fn best_candidate(c: Seq<Vec2>, n: int) -> int
    decreases n,
{
    if n <= 1 {
        0
    } else {
        let b = best_candidate(c, n - 1);
        if candidate_score(c, n - 1) > candidate_score(c, b) { n - 1 } else { b }
    }
}

pub open spec fn centre_ok(v: Vec2) -> bool {
    -4 * COORD_LIMIT <= v.x <= 4 * COORD_LIMIT && -4 * COORD_LIMIT <= v.y <= 4 * COORD_LIMIT
}

fn abs_diff(a: i64, b: i64) -> (r: i64)
    requires
        -4 * COORD_LIMIT <= a <= 4 * COORD_LIMIT,
        -4 * COORD_LIMIT <= b <= 4 * COORD_LIMIT,
    ensures
        r == abs_v(a - b),
{
    if a >= b { a - b } else { b - a }
}

fn score_assignment(scheme: ProjectionScheme, front: Vec2, top: Vec2, right: Vec2) -> (r: i64)
    requires
        centre_ok(front),
        centre_ok(top),
        centre_ok(right),
    ensures
        r == score(scheme, front, top, right),
{
    let mut s: i64 = 0;
    match scheme {
        ProjectionScheme::ThirdAngle => {
            s = s + if top.y > front.y { 1 } else { -1 };
            s = s + if right.x > front.x { 1 } else { -1 };
        },
        ProjectionScheme::FirstAngle => {
            s = s + if top.y < front.y { 1 } else { -1 };
            s = s + if right.x < front.x { 1 } else { -1 };
        },
    }
    let dx_tf = abs_diff(top.x, front.x);
    let dy_rf = abs_diff(right.y, front.y);
    let span_x = dx_tf + abs_diff(right.x, front.x);
    let span_y = dy_rf + abs_diff(top.y, front.y);
    if 20 * dx_tf <= 7 * span_x {
        s = s + 1;
    }
    if 20 * dy_rf <= 7 * span_y {
        s = s + 1;
    }
    s
}

/// Picks the order and scheme that fit the three cluster centres best, the
/// first one on ties; none unless there are exactly three clusters and the
/// best score reaches 2.
pub fn assign_three_view_roles(clusters: &Vec<ViewClusterReport>) -> (r: Option<ViewAssignmentReport>)
    requires
        forall|k: int| 0 <= k < clusters@.len() ==> (#[trigger] clusters@[k]).bbox.bounded_by(4 * COORD_LIMIT),
    ensures
        clusters@.len() != 3 ==> r is None,
        clusters@.len() == 3 ==> ({
            let c = seq![
                clusters@[0].bbox.spec_center(),
                clusters@[1].bbox.spec_center(),
                clusters@[2].bbox.spec_center(),
            ];
            let k = best_candidate(c, 12);
            let (f, t, rt) = perm(k / 2);
            let s = candidate_score(c, k);
            if s < 2 {
                r is None
            } else {
                r matches Some(rep) && rep.scheme == scheme_of(k) && rep.confidence == (if s >= 4 { 100 } else { s * 25 })
                    && rep.roles@ == seq![
                    ViewRoleAssignment { cluster_id: clusters@[f].id, role: ViewRole::Front },
                    ViewRoleAssignment { cluster_id: clusters@[t].id, role: ViewRole::Top },
                    ViewRoleAssignment { cluster_id: clusters@[rt].id, role: ViewRole::Right },
                ]
            }
        }),
{
    if clusters.len() != 3 {
        return None;
    }
    let c0 = clusters[0].bbox.center();
    let c1 = clusters[1].bbox.center();
    let c2 = clusters[2].bbox.center();
    let ghost c = seq![c0, c1, c2];
    assert(c == seq![clusters@[0].bbox.spec_center(), clusters@[1].bbox.spec_center(), clusters@[2].bbox.spec_center()]);
    let mut best_k: usize = 0;
    let mut best_score: i64 = 0;
    let mut k: usize = 0;
    while k < 12
        invariant
            c == seq![c0, c1, c2],
            centre_ok(c0) && centre_ok(c1) && centre_ok(c2),
            k <= 12,
            k > 0 ==> best_k == best_candidate(c, k as int),
            k > 0 ==> best_score == candidate_score(c, best_k as int),
        decreases 12 - k,
    {
        let p = k / 2;
        let (f, t, rt) = if p == 0 { (c0, c1, c2) } else if p == 1 { (c0, c2, c1) } else if p == 2 { (c1, c0, c2) }
            else if p == 3 { (c1, c2, c0) } else if p == 4 { (c2, c0, c1) } else { (c2, c1, c0) };
        let scheme = if k % 2 == 0 { ProjectionScheme::ThirdAngle } else { ProjectionScheme::FirstAngle };
        let s = score_assignment(scheme, f, t, rt);
        assert(s == candidate_score(c, k as int));
        if k == 0 || s > best_score {
            best_k = k;
            best_score = s;
        }
        k = k + 1;
    }
    if best_score < 2 {
        return None;
    }
    let p = best_k / 2;
    let (fi, ti, ri): (usize, usize, usize) = if p == 0 { (0, 1, 2) } else if p == 1 { (0, 2, 1) } else if p == 2 { (1, 0, 2) }
        else if p == 3 { (1, 2, 0) } else if p == 4 { (2, 0, 1) } else { (2, 1, 0) };
    let scheme = if best_k % 2 == 0 { ProjectionScheme::ThirdAngle } else { ProjectionScheme::FirstAngle };
    let confidence: u32 = if best_score >= 4 { 100 } else { (best_score * 25) as u32 };
    let mut roles: Vec<ViewRoleAssignment> = Vec::new();
    roles.push(ViewRoleAssignment { cluster_id: clusters[fi].id, role: ViewRole::Front });
    roles.push(ViewRoleAssignment { cluster_id: clusters[ti].id, role: ViewRole::Top });
    roles.push(ViewRoleAssignment { cluster_id: clusters[ri].id, role: ViewRole::Right });
    let r = Some(ViewAssignmentReport { scheme, confidence, roles });
    assert(r matches Some(rep) && rep.roles@ =~= seq![
        ViewRoleAssignment { cluster_id: clusters@[fi as int].id, role: ViewRole::Front },
        ViewRoleAssignment { cluster_id: clusters@[ti as int].id, role: ViewRole::Top },
        ViewRoleAssignment { cluster_id: clusters@[ri as int].id, role: ViewRole::Right },
    ]);
    r
}

} // verus!
