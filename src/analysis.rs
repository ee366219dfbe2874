//! Drawing analysis: grouping entities into view clusters.
use vstd::prelude::*;
use vstd::multiset::Multiset;
use crate::geom::{BBox2, Vec2, COORD_LIMIT, UNIT};
use crate::model::{Drawing2D, Entity2D, EntityKind};
use crate::normalize::{inferred_count, normalize_in_place, normalized, NormalizeConfig};
use crate::report::{AnalysisReport, StatsReport, ViewClusterReport, Warning};
use crate::view::assign_three_view_roles;

verus! {

/// Disjoint sets over `0..n`, with union by rank and iterative path halving.
pub struct DisjointSet {
    pub parent: Vec<usize>,
    pub rank: Vec<u8>,
    /// The representative of each element's set.
    pub rep: Ghost<Seq<usize>>,
    /// Grows strictly along every parent link; bounds the walk to a root.
    pub level: Ghost<Seq<nat>>,
    pub max_level: Ghost<nat>,
}

impl DisjointSet {
    pub open spec fn len(&self) -> nat {
        self.parent@.len()
    }

    /// `x` and `y` are in the same set.
    pub open spec fn same_set(&self, x: int, y: int) -> bool {
        self.rep@[x] == self.rep@[y]
    }

    pub open spec fn wf(&self) -> bool {
        let n = self.parent@.len();
        &&& self.rank@.len() == n
        &&& self.rep@.len() == n
        &&& self.level@.len() == n
        &&& forall|x: int| 0 <= x < n ==> (#[trigger] self.parent@[x]) < n
        &&& forall|x: int| 0 <= x < n ==> (#[trigger] self.level@[x]) <= self.max_level@
        &&& forall|x: int|
            0 <= x < n && #[trigger] self.parent@[x] != x ==> self.level@[self.parent@[x] as int] > self.level@[x]
        &&& forall|x: int| 0 <= x < n ==> (#[trigger] self.rep@[x]) < n
        &&& forall|x: int| 0 <= x < n ==> self.parent@[#[trigger] self.rep@[x] as int] == self.rep@[x]
        &&& forall|x: int| 0 <= x < n ==> self.rep@[#[trigger] self.parent@[x] as int] == self.rep@[x]
        &&& forall|x: int| 0 <= x < n && #[trigger] self.parent@[x] == x ==> self.rep@[x] == x
    }

    /// `n` singleton sets.
    pub fn new(n: usize) -> (r: DisjointSet)
        ensures
            r.wf(),
            r.len() == n,
            forall|x: int| 0 <= x < n ==> #[trigger] r.rep@[x] == x,
    {
        let mut parent: Vec<usize> = Vec::new();
        let mut rank: Vec<u8> = Vec::new();
        let mut i: usize = 0;
        while i < n
            invariant
                i <= n,
                parent@.len() == i,
                rank@.len() == i,
                forall|x: int| 0 <= x < i ==> #[trigger] parent@[x] == x,
            decreases n - i,
        {
            parent.push(i);
            rank.push(0);
            i = i + 1;
        }
        let ghost rep = Seq::new(n as nat, |x: int| x as usize);
        let ghost level = Seq::new(n as nat, |x: int| 0nat);
        DisjointSet { parent, rank, rep: Ghost(rep), level: Ghost(level), max_level: Ghost(0) }
    }

    /// The representative of `x`'s set; halves the path on the way.
    pub fn find(&mut self, x: usize) -> (r: usize)
        requires
            old(self).wf(),
            x < old(self).len(),
        ensures
            final(self).wf(),
            final(self).len() == old(self).len(),
            final(self).rep@ == old(self).rep@,
            final(self).rank@ == old(self).rank@,
            r == old(self).rep@[x as int],
    {
        let ghost x0 = x;
        let mut x = x;
        while self.parent[x] != x
            invariant
                self.wf(),
                self.len() == old(self).len(),
                self.rep@ == old(self).rep@,
                x < self.len(),
                self.rep@[x as int] == old(self).rep@[x0 as int],
                self.max_level == old(self).max_level,
                self.level == old(self).level,
                self.rank@ == old(self).rank@,
            decreases self.max_level@ - self.level@[x as int],
        {
            let p = self.parent[x];
            let gp = self.parent[p];
            let ghost before = self.parent@;
            self.parent.set(x, gp);
            assert forall|y: int| 0 <= y < self.len() && #[trigger] self.parent@[y] != y implies self.level@[self.parent@[y] as int] > self.level@[y] by {
                if y == x {
                    if gp != p {
                        assert(before[p as int] != p);
                    }
                } else {
                    assert(self.parent@[y] == before[y]);
                }
            }
            assert forall|y: int| 0 <= y < self.len() implies self.parent@[#[trigger] self.rep@[y] as int] == self.rep@[y] by {
                let r = self.rep@[y];
                assert(before[r as int] == r);
                if r == x {
                    assert(before[x as int] == x);
                }
            }
            assert forall|y: int| 0 <= y < self.len() && #[trigger] self.parent@[y] == y implies self.rep@[y] == y by {
                if y == x {
                    assert(before[p as int] == gp);
                    assert(self.rep@[gp as int] == self.rep@[p as int]);
                    assert(self.rep@[p as int] == self.rep@[x as int]);
                    assert(before[gp as int] == gp || self.rep@[gp as int] == self.rep@[before[gp as int] as int]);
                    assert(self.parent@[self.rep@[x as int] as int] == self.rep@[x as int]);
                }
            }
            assert(self.level@[x as int] <= self.max_level@);
            assert(self.level@[gp as int] > self.level@[x as int]) by {
                assert(self.level@[p as int] > self.level@[x as int]);
                if before[p as int] != p {
                    assert(self.level@[before[p as int] as int] > self.level@[p as int]);
                }
            }
            x = gp;
        }
        assert(self.rep@[x as int] == x);
        x
    }

    /// Joins the sets of `a` and `b`.
    pub fn union(&mut self, a: usize, b: usize)
        requires
            old(self).wf(),
            a < old(self).len(),
            b < old(self).len(),
        ensures
            final(self).wf(),
            final(self).len() == old(self).len(),
            final(self).rep@[a as int] == old(self).rep@[a as int] || final(self).rep@[a as int] == old(self).rep@[b as int],
            forall|y: int|
                0 <= y < old(self).len() ==> #[trigger] final(self).rep@[y] == if old(self).rep@[y] == old(self).rep@[a as int]
                    || old(self).rep@[y] == old(self).rep@[b as int] {
                    final(self).rep@[a as int]
                } else {
                    old(self).rep@[y]
                },
    {
        let mut ra = self.find(a);
        let mut rb = self.find(b);
        if ra == rb {
            return;
        }
        let rank_a = self.rank[ra];
        let rank_b = self.rank[rb];
        if rank_a < rank_b {
            let t = ra;
            ra = rb;
            rb = t;
        }
        let ghost n = self.len();
        let ghost old_rep = self.rep@;
        let ghost old_level = self.level@;
        let ghost old_parent = self.parent@;
        let ghost old_max = self.max_level@;
        assert(old_parent[ra as int] == ra && old_parent[rb as int] == rb);
        self.parent.set(rb, ra);
        if rank_a == rank_b {
            let bumped: u8 = if self.rank[ra] < 255 { self.rank[ra] + 1 } else { 255 };
            self.rank.set(ra, bumped);
        }
        let ghost new_level_ra: nat = if old_level[ra as int] > old_level[rb as int] { old_level[ra as int] } else { old_level[rb as int] + 1 };
        self.level = Ghost(old_level.update(ra as int, new_level_ra));
        self.max_level = Ghost(self.max_level@ + 1);
        self.rep = Ghost(Seq::new(n, |y: int| if old_rep[y] == rb { ra } else { old_rep[y] }));
        assert forall|x: int| 0 <= x < n && #[trigger] self.parent@[x] != x implies self.level@[self.parent@[x] as int] > self.level@[x] by {
            if x == rb {
            } else {
                assert(self.parent@[x] == old_parent[x]);
                if x == ra {
                    assert(old_parent[x] == x);
                } else if old_parent[x] == ra {
                    assert(old_level[ra as int] > old_level[x]);
                }
            }
        }
        assert forall|x: int| 0 <= x < n implies self.rep@[#[trigger] self.parent@[x] as int] == self.rep@[x] by {
            if x != rb {
                assert(self.parent@[x] == old_parent[x]);
                assert(old_rep[old_parent[x] as int] == old_rep[x]);
            } else {
                assert(old_rep[ra as int] == ra);
            }
        }
        assert forall|x: int| 0 <= x < n implies self.parent@[#[trigger] self.rep@[x] as int] == self.rep@[x] by {
            let r = old_rep[x];
            assert(old_parent[r as int] == r);
        }
        assert forall|x: int| 0 <= x < n && #[trigger] self.parent@[x] == x implies self.rep@[x] == x by {
            assert(x != rb);
            assert(old_parent[x] == x);
        }
        assert forall|x: int| 0 <= x < n implies (#[trigger] self.level@[x]) <= self.max_level@ by {
            assert(old_level[x] <= old_max);
            assert(old_level[rb as int] <= old_max);
        }
    }
}


pub struct AnalysisConfig {
    /// The gap that separates views, in millionths of the drawing's diagonal.
    pub view_gap_factor: i64,
    /// Clusters with fewer entities are not reported.
    pub min_cluster_entities: usize,
    pub normalize: NormalizeConfig,
}

impl Default for AnalysisConfig {
    fn default() -> (r: AnalysisConfig)
        ensures
            r.view_gap_factor == 20_000,
            r.min_cluster_entities == 10,
            r.normalize.min_entity_length == 1,
            r.normalize.infer_kinds_from_style,
            r.normalize.drop_degenerate_entities,
    {
        AnalysisConfig { view_gap_factor: 20_000, min_cluster_entities: 10, normalize: NormalizeConfig::default() }
    }
}

pub struct Analyzer {
    pub cfg: AnalysisConfig,
}

/// Entities that take part in view clustering.
pub open spec fn clusterable(k: EntityKind) -> bool {
    k != EntityKind::Dimension && k != EntityKind::Text && k != EntityKind::Hatch
}

/// Reports come top to bottom, then left to right, by box centre.
pub open spec fn report_order(a: &ViewClusterReport, b: &ViewClusterReport) -> bool {
    let ac = a.bbox.spec_center();
    let bc = b.bbox.spec_center();
    ac.y > bc.y || (ac.y == bc.y && ac.x <= bc.x)
}

pub open spec fn config_ok(cfg: &AnalysisConfig) -> bool {
    0 <= cfg.view_gap_factor <= 1_000_000 && 0 <= cfg.normalize.min_entity_length <= COORD_LIMIT
}

/// Most entity ids kept as a sample of each cluster.
pub const SAMPLE_SIZE: usize = 20;

/// Two clusterable entities lie within the gap of each other (compared in
/// index order, as the grouping tests them).
pub open spec fn linked(bx: Seq<BBox2>, gsq: int, a: int, b: int) -> bool {
    (a < b && bx[a].spec_gap_sq(bx[b]) <= gsq) || (b < a && bx[b].spec_gap_sq(bx[a]) <= gsq)
}

/// A chain of entities, each linked to the next.
pub open spec fn is_walk(bx: Seq<BBox2>, gsq: int, p: Seq<int>) -> bool {
    &&& p.len() >= 1
    &&& forall|k: int| 0 <= k < p.len() ==> 0 <= #[trigger] p[k] < bx.len()
    &&& forall|k: int| 0 <= k < p.len() - 1 ==> linked(bx, gsq, #[trigger] p[k], p[k + 1])
}

/// A chain of links joins `a` and `b`.
pub open spec fn connected(bx: Seq<BBox2>, gsq: int, a: int, b: int) -> bool {
    exists|p: Seq<int>| #[trigger] is_walk(bx, gsq, p) && p[0] == a && p.last() == b
}

/// Two entities share a representative exactly when a chain of links joins them.
pub open spec fn is_component_rep(rep: Seq<usize>, bx: Seq<BBox2>, gsq: int) -> bool {
    &&& rep.len() == bx.len()
    &&& forall|x: int, y: int|
        0 <= x < bx.len() && 0 <= y < bx.len() ==> (#[trigger] rep[x] == #[trigger] rep[y] <==> connected(
            bx,
            gsq,
            x,
            y,
        ))
}

/// How many of the first `m` entities have representative `r`.
pub open spec fn class_size(rep: Seq<usize>, r: usize, m: int) -> nat
    decreases m,
{
    if m <= 0 {
        0
    } else {
        class_size(rep, r, m - 1) + if rep[m - 1] == r { 1nat } else { 0nat }
    }
}

/// The union of the boxes of the first `m` entities with representative `r`.
pub open spec fn class_box(bx: Seq<BBox2>, rep: Seq<usize>, r: usize, m: int) -> BBox2
    decreases m,
{
    if m <= 0 {
        BBox2 { min: Vec2 { x: 1, y: 1 }, max: Vec2 { x: 0, y: 0 } }
    } else {
        let prev = class_box(bx, rep, r, m - 1);
        if rep[m - 1] == r { prev.spec_union(bx[m - 1]) } else { prev }
    }
}

/// The report describes the group of entity `x`: its size and its box.
pub open spec fn report_of(rpt: ViewClusterReport, rep: Seq<usize>, bx: Seq<BBox2>, x: int) -> bool {
    rpt.entity_count == class_size(rep, rep[x], bx.len() as int) && rpt.bbox == class_box(bx, rep, rep[x], bx.len() as int)
}

/// The report describes a group of at least `min` entities.
pub open spec fn is_group_report(rpt: ViewClusterReport, rep: Seq<usize>, bx: Seq<BBox2>, min: int) -> bool {
    exists|x: int| 0 <= x < bx.len() && #[trigger] report_of(rpt, rep, bx, x) && class_size(rep, rep[x], bx.len() as int) >= min
}

/// Some report describes the group of entity `x`.
pub open spec fn has_report(rs: Seq<ViewClusterReport>, rep: Seq<usize>, bx: Seq<BBox2>, x: int) -> bool {
    exists|k: int| 0 <= k < rs.len() && report_of(#[trigger] rs[k], rep, bx, x)
}

/// The reports are exactly the groups of linked entities that have at least
/// `min` members.
pub open spec fn reports_are_groups(rs: Seq<ViewClusterReport>, bx: Seq<BBox2>, gsq: int, min: int) -> bool {
    exists|rep: Seq<usize>|
        #[trigger] is_component_rep(rep, bx, gsq) && (forall|k: int| 0 <= k < rs.len() ==> is_group_report(#[trigger] rs[k], rep, bx, min))
            && (forall|x: int| 0 <= x < bx.len() && class_size(rep, rep[x], bx.len() as int) >= min ==> #[trigger] has_report(rs, rep, bx, x))
}

/// The boxes of the entities that take part in clustering, in order.
pub open spec fn cluster_boxes(es: Seq<Entity2D>, k: int) -> Seq<BBox2>
    decreases k,
{
    if k <= 0 {
        Seq::empty()
    } else {
        let prev = cluster_boxes(es, k - 1);
        if clusterable(es[k - 1].kind) { prev.push(es[k - 1].primitive.spec_bbox()) } else { prev }
    }
}

/// `r` is the square root of `v`, rounded down.
pub open spec fn is_floor_sqrt(v: int, r: int) -> bool {
    r >= 0 && r * r <= v < (r + 1) * (r + 1)
}

pub open spec fn floor_sqrt(v: int) -> int {
    choose|r: int| is_floor_sqrt(v, r)
}

proof fn lemma_cluster_boxes_same(a: Seq<Entity2D>, b: Seq<Entity2D>, k: int)
    requires
        a.len() == b.len(),
        0 <= k <= a.len(),
        forall|q: int| 0 <= q < a.len() ==> (#[trigger] a[q]).same(&b[q]),
    ensures
        cluster_boxes(a, k) == cluster_boxes(b, k),
    decreases k,
{
    if k > 0 {
        lemma_cluster_boxes_same(a, b, k - 1);
        assert(a[k - 1].same(&b[k - 1]));
    }
}

/// The diagonal of the extents rounded down, or one unit without extents.
pub open spec fn diag_of(extents: Option<BBox2>) -> int {
    match extents {
        Some(b) => {
            let w = if b.max.x - b.min.x > 0 { b.max.x - b.min.x } else { 0 };
            let h = if b.max.y - b.min.y > 0 { b.max.y - b.min.y } else { 0 };
            floor_sqrt(w * w + h * h)
        },
        None => UNIT as int,
    }
}

/// The squared gap: the diagonal times the factor (in millionths), at least
/// one micro-unit.
pub open spec fn gap_sq_of(extents: Option<BBox2>, factor: int) -> int {
    let scaled = diag_of(extents) * factor / 1_000_000;
    let gap = if scaled > 1 { scaled } else { 1 };
    gap * gap
}

proof fn lemma_walk_rep(rep: Seq<usize>, bx: Seq<BBox2>, gsq: int, p: Seq<int>)
    requires
        is_walk(bx, gsq, p),
        rep.len() == bx.len(),
        forall|a: int, b: int| 0 <= a < bx.len() && 0 <= b < bx.len() && linked(bx, gsq, a, b) ==> #[trigger] rep[a] == #[trigger] rep[b],
    ensures
        rep[p[0]] == rep[p.last()],
    decreases p.len(),
{
    if p.len() > 1 {
        let q = p.drop_last();
        assert(is_walk(bx, gsq, q)) by {
            assert forall|k: int| 0 <= k < q.len() - 1 implies linked(bx, gsq, #[trigger] q[k], q[k + 1]) by {
                assert(q[k] == p[k] && q[k + 1] == p[k + 1]);
            }
        }
        lemma_walk_rep(rep, bx, gsq, q);
        assert(linked(bx, gsq, p[p.len() - 2], p[p.len() - 1]));
        assert(rep[p[p.len() - 2]] == rep[p[p.len() - 1]]);
    }
}

proof fn lemma_conn_refl(bx: Seq<BBox2>, gsq: int, a: int)
    requires
        0 <= a < bx.len(),
    ensures
        connected(bx, gsq, a, a),
{
    let p = seq![a];
    assert(is_walk(bx, gsq, p));
}

proof fn lemma_conn_link(bx: Seq<BBox2>, gsq: int, a: int, b: int)
    requires
        0 <= a < bx.len(),
        0 <= b < bx.len(),
        linked(bx, gsq, a, b),
    ensures
        connected(bx, gsq, a, b),
{
    let p = seq![a, b];
    assert(is_walk(bx, gsq, p));
}

proof fn lemma_conn_sym(bx: Seq<BBox2>, gsq: int, a: int, b: int)
    requires
        connected(bx, gsq, a, b),
    ensures
        connected(bx, gsq, b, a),
{
    let p = choose|p: Seq<int>| #[trigger] is_walk(bx, gsq, p) && p[0] == a && p.last() == b;
    let q = Seq::new(p.len(), |k: int| p[p.len() - 1 - k]);
    assert(is_walk(bx, gsq, q)) by {
        assert forall|k: int| 0 <= k < q.len() - 1 implies linked(bx, gsq, #[trigger] q[k], q[k + 1]) by {
            let i = p.len() - 2 - k;
            assert(linked(bx, gsq, p[i], p[i + 1]));
        }
        assert forall|k: int| 0 <= k < q.len() implies 0 <= #[trigger] q[k] < bx.len() by {
            assert(0 <= p[p.len() - 1 - k] < bx.len());
        }
    }
}

proof fn lemma_conn_trans(bx: Seq<BBox2>, gsq: int, a: int, b: int, c: int)
    requires
        connected(bx, gsq, a, b),
        connected(bx, gsq, b, c),
    ensures
        connected(bx, gsq, a, c),
{
    let p = choose|p: Seq<int>| #[trigger] is_walk(bx, gsq, p) && p[0] == a && p.last() == b;
    let q = choose|q: Seq<int>| #[trigger] is_walk(bx, gsq, q) && q[0] == b && q.last() == c;
    let w = p + q.subrange(1, q.len() as int);
    assert(is_walk(bx, gsq, w)) by {
        assert forall|k: int| 0 <= k < w.len() - 1 implies linked(bx, gsq, #[trigger] w[k], w[k + 1]) by {
            if k < p.len() - 1 {
                assert(w[k] == p[k] && w[k + 1] == p[k + 1]);
            } else if k == p.len() - 1 {
                assert(w[k] == b && w[k + 1] == q[1]);
                assert(q[0] == b);
            } else {
                assert(w[k] == q[k - p.len() + 1] && w[k + 1] == q[k - p.len() + 2]);
            }
        }
        assert forall|k: int| 0 <= k < w.len() implies 0 <= #[trigger] w[k] < bx.len() by {
            if k < p.len() {
                assert(w[k] == p[k]);
            } else {
                assert(w[k] == q[k - p.len() + 1]);
            }
        }
    }
    if q.len() == 1 {
        assert(w.last() == p.last());
    } else {
        assert(w.last() == q.last());
    }
}

/// Joins every pair of clusterable entities within the gap.
fn link_all(boxes: &Vec<BBox2>, gap_sq: i128) -> (dsu: DisjointSet)
    requires
        forall|q: int| 0 <= q < boxes@.len() ==> (#[trigger] boxes@[q]).bounded_by(2 * COORD_LIMIT),
    ensures
        dsu.wf(),
        dsu.len() == boxes@.len(),
        is_component_rep(dsu.rep@, boxes@, gap_sq as int),
{
    let ghost bx = boxes@;
    let ghost gsq = gap_sq as int;
    let n = boxes.len();
    let mut dsu = DisjointSet::new(n);
    proof {
        assert forall|x: int, y: int| 0 <= x < n && 0 <= y < n && #[trigger] dsu.rep@[x] == #[trigger] dsu.rep@[y] implies connected(bx, gsq, x, y) by {
            lemma_conn_refl(bx, gsq, x);
        }
    }
    let mut i: usize = 0;
    while i < n
        invariant
            n == boxes@.len(),
            bx == boxes@,
            gsq == gap_sq,
            i <= n,
            dsu.wf(),
            dsu.len() == n,
            forall|q: int| 0 <= q < boxes@.len() ==> (#[trigger] boxes@[q]).bounded_by(2 * COORD_LIMIT),
            forall|x: int, y: int| 0 <= x < n && 0 <= y < n && #[trigger] dsu.rep@[x] == #[trigger] dsu.rep@[y] ==> connected(bx, gsq, x, y),
            forall|a: int, b: int|
                0 <= a < b < n && a < i && linked(bx, gsq, a, b) ==> #[trigger] dsu.rep@[a] == #[trigger] dsu.rep@[b],
        decreases n - i,
    {
        let mut j: usize = i + 1;
        while j < n
            invariant
                n == boxes@.len(),
                bx == boxes@,
                gsq == gap_sq,
                i < n,
                i < j <= n || j == i + 1,
                dsu.wf(),
                dsu.len() == n,
                forall|q: int| 0 <= q < boxes@.len() ==> (#[trigger] boxes@[q]).bounded_by(2 * COORD_LIMIT),
                forall|x: int, y: int| 0 <= x < n && 0 <= y < n && #[trigger] dsu.rep@[x] == #[trigger] dsu.rep@[y] ==> connected(bx, gsq, x, y),
                forall|a: int, b: int|
                    0 <= a < b < n && (a < i || (a == i && b < j)) && linked(bx, gsq, a, b) ==> #[trigger] dsu.rep@[a]
                        == #[trigger] dsu.rep@[b],
            decreases n - j,
        {
            assert(boxes@[i as int].bounded_by(2 * COORD_LIMIT));
            assert(boxes@[j as int].bounded_by(2 * COORD_LIMIT));
            if boxes[i].distance_sq_to(&boxes[j]) <= gap_sq {
                let ghost old_rep = dsu.rep@;
                dsu.union(i, j);
                proof {
                    let ra = old_rep[i as int];
                    let rb = old_rep[j as int];
                    assert(linked(bx, gsq, i as int, j as int));
                    lemma_conn_link(bx, gsq, i as int, j as int);
                    assert forall|x: int, y: int| 0 <= x < n && 0 <= y < n && #[trigger] dsu.rep@[x] == #[trigger] dsu.rep@[y] implies connected(bx, gsq, x, y) by {
                        let cx = old_rep[x] == ra || old_rep[x] == rb;
                        let cy = old_rep[y] == ra || old_rep[y] == rb;
                        if cx && cy {
                            // both joined the merged set
                            if old_rep[x] == ra {
                                assert(old_rep[x] == old_rep[i as int]);
                                if old_rep[y] == ra {
                                    assert(old_rep[y] == old_rep[i as int]);
                                    lemma_conn_sym(bx, gsq, y, i as int);
                                    lemma_conn_trans(bx, gsq, x, i as int, y);
                                } else {
                                    assert(old_rep[y] == old_rep[j as int]);
                                    lemma_conn_sym(bx, gsq, y, j as int);
                                    lemma_conn_trans(bx, gsq, x, i as int, j as int);
                                    lemma_conn_trans(bx, gsq, x, j as int, y);
                                }
                            } else {
                                assert(old_rep[x] == old_rep[j as int]);
                                lemma_conn_sym(bx, gsq, i as int, j as int);
                                if old_rep[y] == ra {
                                    assert(old_rep[y] == old_rep[i as int]);
                                    lemma_conn_sym(bx, gsq, y, i as int);
                                    lemma_conn_trans(bx, gsq, x, j as int, i as int);
                                    lemma_conn_trans(bx, gsq, x, i as int, y);
                                } else {
                                    assert(old_rep[y] == old_rep[j as int]);
                                    lemma_conn_sym(bx, gsq, y, j as int);
                                    lemma_conn_trans(bx, gsq, x, j as int, y);
                                }
                            }
                        } else if !cx && !cy {
                            assert(old_rep[x] == old_rep[y]);
                        } else {
                            assert(false);
                        }
                    }
                    assert forall|a: int, b: int|
                        0 <= a < b < n && (a < i || (a == i && b < j + 1)) && linked(bx, gsq, a, b) implies #[trigger] dsu.rep@[a]
                            == #[trigger] dsu.rep@[b] by {
                        if a == i && b == j {
                        } else {
                            assert(old_rep[a] == old_rep[b]);
                        }
                    }
                }
            } else {
                proof {
                    assert(!linked(bx, gsq, i as int, j as int));
                }
            }
            j = j + 1;
        }
        i = i + 1;
    }
    proof {
        assert forall|x: int, y: int| 0 <= x < n && 0 <= y < n && connected(bx, gsq, x, y) implies #[trigger] dsu.rep@[x]
            == #[trigger] dsu.rep@[y] by {
            let p = choose|p: Seq<int>| #[trigger] is_walk(bx, gsq, p) && p[0] == x && p.last() == y;
            lemma_walk_rep(dsu.rep@, bx, gsq, p);
        }
    }
    dsu
}

/// The squared view gap: the extents' diagonal times the factor, at least
/// one micro-unit.
fn cluster_gap(extents: Option<BBox2>, factor: i64) -> (r: i128)
    requires
        0 <= factor <= 1_000_000,
        extents matches Some(b) ==> b.bounded_by(4 * COORD_LIMIT),
    ensures
        r == gap_sq_of(extents, factor as int),
        0 < r <= 0x10_0000_0000_0000 * 0x10_0000_0000_0000,
{
    let diag: i128 = match extents {
        Some(b) => b.diag() as i128,
        None => UNIT as i128,
    };
    proof {
        if let Some(b) = extents {
            let w = if b.max.x - b.min.x > 0 { b.max.x - b.min.x } else { 0 };
            let h = if b.max.y - b.min.y > 0 { b.max.y - b.min.y } else { 0 };
            let c = floor_sqrt(w * w + h * h);
            assert(is_floor_sqrt(w * w + h * h, diag as int));
            assert(is_floor_sqrt(w * w + h * h, c));
            lemma_floor_sqrt_unique(w * w + h * h, diag as int, c);
        }
    }
    assert(diag <= 0x10_0000_0000_0000);
    assert(0 <= diag * factor <= 0x10_0000_0000_0000 * 1_000_000) by (nonlinear_arith)
        requires 0 <= diag <= 0x10_0000_0000_0000, 0 <= factor <= 1_000_000;
    let scaled: i128 = crate::topology::floor_div(diag * factor as i128, 1_000_000);
    proof {
        crate::topology::lemma_div_bounds(diag * factor, 1_000_000, 0x10_0000_0000_0000);
    }
    let gap: i128 = if scaled > 1 { scaled } else { 1 };
    assert(0 < gap * gap <= 0x10_0000_0000_0000 * 0x10_0000_0000_0000) by (nonlinear_arith)
        requires 0 < gap <= 0x10_0000_0000_0000;
    gap * gap
}

proof fn lemma_floor_sqrt_unique(v: int, r: int, q: int)
    requires
        is_floor_sqrt(v, r),
        is_floor_sqrt(v, q),
    ensures
        r == q,
{
    if r < q {
        assert((r + 1) * (r + 1) <= q * q) by (nonlinear_arith)
            requires 0 <= r < q;
    } else if q < r {
        assert((q + 1) * (q + 1) <= r * r) by (nonlinear_arith)
            requires 0 <= q < r;
    }
}

/// The clusterable entities, by place in the drawing, and their boxes.
fn clusterable_boxes(drawing: &Drawing2D) -> (r: (Vec<usize>, Vec<BBox2>))
    requires
        drawing.well_formed(),
    ensures
        r.0@.len() == r.1@.len(),
        r.1@ == cluster_boxes(drawing.entities@, drawing.entities@.len() as int),
        forall|q: int| 0 <= q < r.0@.len() ==> #[trigger] r.0@[q] < drawing.entities@.len(),
        forall|q: int| 0 <= q < r.1@.len() ==> (#[trigger] r.1@[q]).bounded_by(2 * COORD_LIMIT),
{
    let mut drawable: Vec<usize> = Vec::new();
    let mut boxes: Vec<BBox2> = Vec::new();
    let mut k: usize = 0;
    while k < drawing.entities.len()
        invariant
            k <= drawing.entities@.len(),
            drawing.well_formed(),
            drawable@.len() == boxes@.len(),
            boxes@ == cluster_boxes(drawing.entities@, k as int),
            forall|q: int| 0 <= q < drawable@.len() ==> #[trigger] drawable@[q] < drawing.entities@.len(),
            forall|q: int| 0 <= q < boxes@.len() ==> (#[trigger] boxes@[q]).bounded_by(2 * COORD_LIMIT),
        decreases drawing.entities@.len() - k,
    {
        let e = &drawing.entities[k];
        if e.kind != EntityKind::Dimension && e.kind != EntityKind::Text && e.kind != EntityKind::Hatch {
            assert(drawing.entities@[k as int].primitive.well_formed());
            drawable.push(k);
            boxes.push(e.bbox());
        }
        k = k + 1;
    }
    (drawable, boxes)
}

/// Some of the first `m` entities has representative `r`.
pub open spec fn rep_of_some(rep: Seq<usize>, m: int, r: usize) -> bool {
    exists|q: int| 0 <= q < m && rep[q] == r
}

proof fn lemma_class_absent(rep: Seq<usize>, bx: Seq<BBox2>, r: usize, m: int)
    requires
        0 <= m <= rep.len(),
        forall|q: int| 0 <= q < m ==> rep[q] != r,
    ensures
        class_size(rep, r, m) == 0,
        class_box(bx, rep, r, m) == (BBox2 { min: Vec2 { x: 1, y: 1 }, max: Vec2 { x: 0, y: 0 } }),
    decreases m,
{
    if m > 0 {
        lemma_class_absent(rep, bx, r, m - 1);
    }
}

/// One entry per group, in the order of first appearance: its
/// representative, its size and the union of its members' boxes.
fn tally(dsu: &mut DisjointSet, boxes: &Vec<BBox2>) -> (r: (Vec<usize>, Vec<usize>, Vec<BBox2>))
    requires
        old(dsu).wf(),
        old(dsu).len() == boxes@.len(),
        forall|q: int| 0 <= q < boxes@.len() ==> (#[trigger] boxes@[q]).bounded_by(2 * COORD_LIMIT),
    ensures
        final(dsu).wf(),
        final(dsu).len() == old(dsu).len(),
        final(dsu).rep@ == old(dsu).rep@,
        r.0@.len() == r.1@.len() && r.1@.len() == r.2@.len(),
        forall|p: int| 0 <= p < r.0@.len() ==> (#[trigger] r.2@[p]).bounded_by(2 * COORD_LIMIT),
        forall|p: int|
            0 <= p < r.0@.len() ==> #[trigger] r.1@[p] == class_size(old(dsu).rep@, r.0@[p], boxes@.len() as int) && r.2@[p]
                == class_box(boxes@, old(dsu).rep@, r.0@[p], boxes@.len() as int),
        forall|p: int| 0 <= p < r.0@.len() ==> 0 < #[trigger] r.1@[p],
        forall|p: int| 0 <= p < r.0@.len() ==> rep_of_some(old(dsu).rep@, boxes@.len() as int, #[trigger] r.0@[p]),
        forall|q: int| 0 <= q < boxes@.len() ==> r.0@.contains(#[trigger] old(dsu).rep@[q]),
{
    let ghost rep = dsu.rep@;
    let ghost bx = boxes@;
    let n = boxes.len();
    let mut roots: Vec<usize> = Vec::new();
    let mut counts: Vec<usize> = Vec::new();
    let mut cboxes: Vec<BBox2> = Vec::new();
    let mut m: usize = 0;
    while m < n
        invariant
            n == boxes@.len(),
            bx == boxes@,
            m <= n,
            dsu.wf(),
            dsu.len() == n,
            dsu.rep@ == rep,
            roots@.len() == counts@.len() && counts@.len() == cboxes@.len(),
            forall|q: int| 0 <= q < boxes@.len() ==> (#[trigger] boxes@[q]).bounded_by(2 * COORD_LIMIT),
            forall|p: int| 0 <= p < roots@.len() ==> (#[trigger] cboxes@[p]).bounded_by(2 * COORD_LIMIT),
            forall|p: int|
                0 <= p < roots@.len() ==> #[trigger] counts@[p] == class_size(rep, roots@[p], m as int) && cboxes@[p]
                    == class_box(bx, rep, roots@[p], m as int),
            forall|p: int| 0 <= p < roots@.len() ==> 0 < #[trigger] counts@[p] <= m,
            forall|p: int| 0 <= p < roots@.len() ==> rep_of_some(rep, m as int, #[trigger] roots@[p]),
            forall|q: int| 0 <= q < m ==> roots@.contains(#[trigger] rep[q]),
            forall|a: int, b: int| 0 <= a < b < roots@.len() ==> #[trigger] roots@[a] != #[trigger] roots@[b],
        decreases n - m,
    {
        let r = dsu.find(m);
        let mut pos: usize = 0;
        while pos < roots.len() && roots[pos] != r
            invariant
                pos <= roots@.len(),
                forall|p: int| 0 <= p < pos ==> #[trigger] roots@[p] != r,
            decreases roots@.len() - pos,
        {
            pos = pos + 1;
        }
        assert(boxes@[m as int].bounded_by(2 * COORD_LIMIT));
        let ghost r0 = roots@;
        let ghost c0 = counts@;
        let ghost b0 = cboxes@;
        if pos == roots.len() {
            proof {
                assert forall|q: int| 0 <= q < m implies rep[q] != r by {
                    assert(r0.contains(rep[q]));
                }
                lemma_class_absent(rep, bx, r, m as int);
            }
            roots.push(r);
            counts.push(1);
            cboxes.push(boxes[m]);
            proof {
                assert forall|p: int| 0 <= p < roots@.len() implies rep_of_some(rep, m + 1, #[trigger] roots@[p]) by {
                    if p < r0.len() {
                        assert(roots@[p] == r0[p]);
                        assert(rep_of_some(rep, m as int, r0[p]));
                        let q = choose|q: int| 0 <= q < m && rep[q] == r0[p];
                        assert(0 <= q < m + 1 && rep[q] == roots@[p]);
                    } else {
                        assert(rep[m as int] == roots@[p]);
                    }
                }
                assert forall|q: int| 0 <= q < m + 1 implies roots@.contains(#[trigger] rep[q]) by {
                    if q < m {
                        assert(r0.contains(rep[q]));
                        let p = choose|p: int| 0 <= p < r0.len() && r0[p] == rep[q];
                        assert(roots@[p] == r0[p]);
                    } else {
                        assert(roots@[r0.len() as int] == rep[q]);
                    }
                }
                assert forall|p: int| 0 <= p < roots@.len() implies #[trigger] counts@[p] == class_size(rep, roots@[p], m + 1) && cboxes@[p]
                    == class_box(bx, rep, roots@[p], m + 1) by {
                    if p < r0.len() {
                        assert(roots@[p] == r0[p] && counts@[p] == c0[p] && cboxes@[p] == b0[p]);
                    }
                }
            }
        } else {
            assert(cboxes@[pos as int].bounded_by(2 * COORD_LIMIT));
            let c = counts[pos] + 1;
            counts.set(pos, c);
            let u = cboxes[pos].union(&boxes[m]);
            cboxes.set(pos, u);
            proof {
                assert forall|p: int| 0 <= p < roots@.len() implies #[trigger] counts@[p] == class_size(rep, roots@[p], m + 1)
                    && cboxes@[p] == class_box(bx, rep, roots@[p], m + 1) by {
                    assert(roots@[p] == r0[p]);
                    if p == pos {
                        assert(r0[p] == r);
                    } else {
                        assert(r0[p] != r0[pos as int]);
                        assert(counts@[p] == c0[p] && cboxes@[p] == b0[p]);
                    }
                }
                assert forall|p: int| 0 <= p < roots@.len() implies rep_of_some(rep, m + 1, #[trigger] roots@[p]) by {
                    assert(roots@[p] == r0[p]);
                    assert(rep_of_some(rep, m as int, r0[p]));
                    let q = choose|q: int| 0 <= q < m && rep[q] == r0[p];
                    assert(0 <= q < m + 1 && rep[q] == roots@[p]);
                }
                assert forall|q: int| 0 <= q < m + 1 implies roots@.contains(#[trigger] rep[q]) by {
                    if q < m {
                        assert(r0.contains(rep[q]));
                    } else {
                        assert(roots@[pos as int] == rep[q]);
                    }
                }
            }
        }
        m = m + 1;
    }
    assert(m == boxes@.len());
    assert forall|p: int| 0 <= p < roots@.len() implies #[trigger] counts@[p] == class_size(rep, roots@[p], boxes@.len() as int)
        && cboxes@[p] == class_box(boxes@, rep, roots@[p], boxes@.len() as int) by {
        assert(counts@[p] == class_size(rep, roots@[p], m as int));
    }
    (roots, counts, cboxes)
}

impl Analyzer {
    pub fn new(cfg: AnalysisConfig) -> (r: Analyzer)
        ensures
            r.cfg == cfg,
    {
        Analyzer { cfg }
    }

    /// Groups the drawable entities whose boxes lie within the view gap of
    /// each other (transitively), keeps the groups of at least
    /// `min_cluster_entities`, and sorts them top to bottom, left to right.
    pub fn cluster_views(&self, drawing: &Drawing2D, extents: Option<BBox2>) -> (r: Vec<ViewClusterReport>)
        requires
            drawing.well_formed(),
            config_ok(&self.cfg),
            extents matches Some(b) ==> b.bounded_by(4 * COORD_LIMIT),
        ensures
            reports_are_groups(
                r@,
                cluster_boxes(drawing.entities@, drawing.entities@.len() as int),
                gap_sq_of(extents, self.cfg.view_gap_factor as int),
                self.cfg.min_cluster_entities as int,
            ),
            forall|k: int|
                0 <= k < r@.len() ==> {
                    &&& (#[trigger] r@[k]).entity_count >= self.cfg.min_cluster_entities
                    &&& r@[k].entity_count > 0
                    &&& r@[k].entity_id_sample@.len() <= SAMPLE_SIZE
                    &&& r@[k].bbox.bounded_by(2 * COORD_LIMIT)
                    &&& r@[k].id < r@.len()
                },
            forall|a: int, b: int| 0 <= a < b < r@.len() ==> report_order(&#[trigger] r@[a], &#[trigger] r@[b]),
    {
        let gap_sq = cluster_gap(extents, self.cfg.view_gap_factor);
        let (drawable, boxes) = clusterable_boxes(drawing);
        let ghost bx = boxes@;
        let ghost gsq = gap_sq as int;
        let ghost min = self.cfg.min_cluster_entities as int;
        let n = boxes.len();
        let mut dsu = link_all(&boxes, gap_sq);
        let ghost rep = dsu.rep@;
        let (roots, counts, cboxes) = tally(&mut dsu, &boxes);
        let mut reports: Vec<ViewClusterReport> = Vec::new();
        let mut g: usize = 0;
        while g < roots.len()
            invariant
                n == boxes@.len(),
                bx == boxes@,
                roots@.len() == counts@.len() && counts@.len() == cboxes@.len(),
                g <= roots@.len(),
                dsu.wf(),
                dsu.len() == n,
                dsu.rep@ == rep,
                rep.len() == n,
                min == self.cfg.min_cluster_entities,
                drawable@.len() == n,
                forall|q: int| 0 <= q < drawable@.len() ==> #[trigger] drawable@[q] < drawing.entities@.len(),
                forall|p: int| 0 <= p < roots@.len() ==> (#[trigger] cboxes@[p]).bounded_by(2 * COORD_LIMIT),
                forall|p: int|
                    0 <= p < roots@.len() ==> #[trigger] counts@[p] == class_size(rep, roots@[p], n as int) && cboxes@[p]
                        == class_box(bx, rep, roots@[p], n as int),
                forall|p: int| 0 <= p < roots@.len() ==> 0 < #[trigger] counts@[p],
                forall|p: int| 0 <= p < roots@.len() ==> rep_of_some(rep, n as int, #[trigger] roots@[p]),
                forall|q: int| 0 <= q < n ==> roots@.contains(#[trigger] rep[q]),
                reports@.len() <= g,
                forall|k: int|
                    0 <= k < reports@.len() ==> {
                        &&& (#[trigger] reports@[k]).entity_count >= self.cfg.min_cluster_entities
                        &&& reports@[k].entity_count > 0
                        &&& reports@[k].entity_id_sample@.len() <= SAMPLE_SIZE
                        &&& reports@[k].bbox.bounded_by(2 * COORD_LIMIT)
                        &&& reports@[k].id == k
                        &&& is_group_report(reports@[k], rep, bx, min)
                    },
                forall|x: int|
                    0 <= x < n && (exists|p: int| 0 <= p < g && roots@[p] == rep[x]) && class_size(rep, rep[x], n as int)
                        >= min ==> #[trigger] has_report(reports@, rep, bx, x),
            decreases roots@.len() - g,
        {
            if counts[g] >= self.cfg.min_cluster_entities {
                let mut sample: Vec<u64> = Vec::new();
                let mut q: usize = 0;
                while q < n && sample.len() < SAMPLE_SIZE
                    invariant
                        g < roots@.len(),
                        n == boxes@.len(),
                        dsu.wf(),
                        dsu.len() == n,
                        dsu.rep@ == rep,
                        drawable@.len() == n,
                        forall|t: int| 0 <= t < drawable@.len() ==> #[trigger] drawable@[t] < drawing.entities@.len(),
                        sample@.len() <= SAMPLE_SIZE,
                    decreases n - q,
                {
                    if dsu.find(q) == roots[g] {
                        sample.push(drawing.entities[drawable[q]].id);
                    }
                    q = q + 1;
                }
                let id = reports.len();
                let ghost before = reports@;
                let rpt = ViewClusterReport { id, entity_count: counts[g], bbox: cboxes[g], entity_id_sample: sample };
                proof {
                    assert(rep_of_some(rep, n as int, roots@[g as int]));
                    let w = choose|q: int| 0 <= q < n && rep[q] == roots@[g as int];
                    assert(report_of(rpt, rep, bx, w));
                    assert(is_group_report(rpt, rep, bx, min));
                }
                reports.push(rpt);
                proof {
                    assert forall|k: int| 0 <= k < reports@.len() implies {
                        &&& (#[trigger] reports@[k]).entity_count >= self.cfg.min_cluster_entities
                        &&& reports@[k].entity_count > 0
                        &&& reports@[k].entity_id_sample@.len() <= SAMPLE_SIZE
                        &&& reports@[k].bbox.bounded_by(2 * COORD_LIMIT)
                        &&& reports@[k].id == k
                        &&& is_group_report(reports@[k], rep, bx, min)
                    } by {
                        if k < before.len() {
                            assert(reports@[k] == before[k]);
                        }
                    }
                    assert forall|x: int|
                        0 <= x < n && (exists|p: int| 0 <= p < g + 1 && roots@[p] == rep[x]) && class_size(rep, rep[x], n as int)
                            >= min implies #[trigger] has_report(reports@, rep, bx, x) by {
                        if roots@[g as int] == rep[x] {
                            assert(report_of(reports@[before.len() as int], rep, bx, x));
                        } else {
                            assert(has_report(before, rep, bx, x));
                            let k = choose|k: int| 0 <= k < before.len() && report_of(#[trigger] before[k], rep, bx, x);
                            assert(reports@[k] == before[k]);
                        }
                    }
                }
            } else {
                proof {
                    assert forall|x: int|
                        0 <= x < n && (exists|p: int| 0 <= p < g + 1 && roots@[p] == rep[x]) && class_size(rep, rep[x], n as int)
                            >= min implies #[trigger] has_report(reports@, rep, bx, x) by {
                        if roots@[g as int] == rep[x] {
                            assert(counts@[g as int] == class_size(rep, rep[x], n as int));
                        }
                    }
                }
            }
            g = g + 1;
        }
        proof {
            assert forall|x: int| 0 <= x < n && class_size(rep, rep[x], n as int) >= min implies #[trigger] has_report(
                reports@,
                rep,
                bx,
                x,
            ) by {
                assert(roots@.contains(rep[x]));
                let p = choose|p: int| 0 <= p < roots@.len() && roots@[p] == rep[x];
            }
        }
        let sorted = sort_reports(reports);
        proof {
            broadcast use vstd::seq_lib::group_to_multiset_ensures;
            assert forall|k: int| 0 <= k < sorted@.len() implies is_group_report(#[trigger] sorted@[k], rep, bx, min) by {
                assert(sorted@.contains(sorted@[k]));
                assert(reports@.contains(sorted@[k]));
                let j = choose|j: int| 0 <= j < reports@.len() && reports@[j] == sorted@[k];
            }
            assert forall|x: int| 0 <= x < n && class_size(rep, rep[x], n as int) >= min implies #[trigger] has_report(
                sorted@,
                rep,
                bx,
                x,
            ) by {
                assert(has_report(reports@, rep, bx, x));
                let k = choose|k: int| 0 <= k < reports@.len() && report_of(#[trigger] reports@[k], rep, bx, x);
                assert(reports@.contains(reports@[k]));
                assert(reports@.to_multiset().count(reports@[k]) > 0);
                assert(sorted@.to_multiset().count(reports@[k]) > 0);
                assert(sorted@.contains(reports@[k]));
                let j = choose|j: int| 0 <= j < sorted@.len() && sorted@[j] == reports@[k];
                assert(report_of(sorted@[j], rep, bx, x));
            }
            assert(is_component_rep(rep, bx, gsq));
            assert(reports_are_groups(sorted@, bx, gsq, min));
        }
        sorted
    }

    /// Normalizes a copy of the drawing, clusters its views, assigns roles,
    /// and reports what it found with warnings for what it could not.
    pub fn analyze(&self, input_format: &str, drawing: &Drawing2D) -> (r: AnalysisReport)
        requires
            drawing.well_formed(),
            config_ok(&self.cfg),
        ensures
            r.input_format@ == input_format@,
            r.stats.entities_total == drawing.entities@.len(),
            r.stats.entities_normalized == normalized(
                drawing.entities@,
                self.cfg.normalize.infer_kinds_from_style,
                self.cfg.normalize.drop_degenerate_entities,
                self.cfg.normalize.min_entity_length * self.cfg.normalize.min_entity_length,
            ).len(),
            r.stats.removed_degenerate_entities == r.stats.entities_total - r.stats.entities_normalized,
            r.stats.inferred_kinds == inferred_count(
                drawing.entities@,
                self.cfg.normalize.infer_kinds_from_style,
                self.cfg.normalize.drop_degenerate_entities,
                self.cfg.normalize.min_entity_length * self.cfg.normalize.min_entity_length,
            ),
            r.stats.dims_total == drawing.dims@.len(),
            r.stats.texts_total == drawing.texts@.len(),
            r.extents is None <==> r.stats.entities_normalized == 0,
            r.view_clusters@.len() != 3 ==> r.view_assignment is None,
            ({
                let kept = normalized(
                    drawing.entities@,
                    self.cfg.normalize.infer_kinds_from_style,
                    self.cfg.normalize.drop_degenerate_entities,
                    self.cfg.normalize.min_entity_length * self.cfg.normalize.min_entity_length,
                );
                reports_are_groups(
                    r.view_clusters@,
                    cluster_boxes(kept, kept.len() as int),
                    gap_sq_of(r.extents, self.cfg.view_gap_factor as int),
                    self.cfg.min_cluster_entities as int,
                )
            }),
            r.warnings@.len() == (if r.stats.entities_normalized == 0 { 1int } else { 0int }) + (if r.view_clusters@.len()
                < 2 { 1int } else { 0int }) + (if r.view_clusters@.len() == 3 && r.view_assignment is None {
                1int
            } else {
                0int
            }),
    {
        let mut entities: Vec<crate::model::Entity2D> = Vec::new();
        let mut k: usize = 0;
        while k < drawing.entities.len()
            invariant
                k <= drawing.entities@.len(),
                entities@.len() == k,
                forall|q: int| 0 <= q < k ==> (#[trigger] entities@[q]).same(&drawing.entities@[q]),
            decreases drawing.entities@.len() - k,
        {
            entities.push(drawing.entities[k].duplicate());
            k = k + 1;
        }
        let mut copy = Drawing2D { units: drawing.units, entities, dims: Vec::new(), texts: Vec::new() };
        proof {
            assert forall|q: int| 0 <= q < copy.entities@.len() implies (#[trigger] copy.entities@[q]).primitive.well_formed() by {
                assert(drawing.entities@[q].primitive.well_formed());
            }
            crate::normalize::lemma_normalized_same(drawing.entities@, copy.entities@, self.cfg.normalize.infer_kinds_from_style,
                self.cfg.normalize.drop_degenerate_entities,
                self.cfg.normalize.min_entity_length * self.cfg.normalize.min_entity_length);
        }
        let ns = normalize_in_place(&mut copy, &self.cfg.normalize);
        proof {
            let kept = normalized(
                drawing.entities@,
                self.cfg.normalize.infer_kinds_from_style,
                self.cfg.normalize.drop_degenerate_entities,
                self.cfg.normalize.min_entity_length * self.cfg.normalize.min_entity_length,
            );
            lemma_cluster_boxes_same(copy.entities@, kept, kept.len() as int);
        }
        let extents = copy.extents();
        let mut warnings: Vec<Warning> = Vec::new();
        if copy.entities.len() == 0 {
            warnings.push(Warning {
                code: String::from_str("no_entities"),
                message: String::from_str("No drawable entities found."),
            });
        }
        let clusters = self.cluster_views(&copy, extents);
        let view_assignment = assign_three_view_roles(&clusters);
        if clusters.len() < 2 {
            warnings.push(Warning {
                code: String::from_str("views_not_detected"),
                message: String::from_str(
                    "Detected fewer than 2 view clusters; check layers/scale or clustering config.",
                ),
            });
        }
        if clusters.len() == 3 && view_assignment.is_none() {
            warnings.push(Warning {
                code: String::from_str("view_assignment_ambiguous"),
                message: String::from_str(
                    "Detected 3 clusters but could not confidently assign front/top/right; will require user confirmation.",
                ),
            });
        }
        let stats = StatsReport {
            entities_total: drawing.entities.len(),
            entities_normalized: copy.entities.len(),
            removed_degenerate_entities: ns.removed_degenerate_entities,
            inferred_kinds: ns.inferred_kinds,
            dims_total: drawing.dims.len(),
            texts_total: drawing.texts.len(),
        };
        AnalysisReport {
            input_format: String::from_str(input_format),
            stats,
            extents,
            view_clusters: clusters,
            view_assignment,
            warnings,
        }
    }
}

/// Sorts reports top to bottom, then left to right, keeping the order of ties.
fn sort_reports(reports: Vec<ViewClusterReport>) -> (r: Vec<ViewClusterReport>)
    requires
        forall|k: int| 0 <= k < reports@.len() ==> (#[trigger] reports@[k]).bbox.bounded_by(2 * COORD_LIMIT),
    ensures
        r@.len() == reports@.len(),
        r@.to_multiset() =~= reports@.to_multiset(),
        forall|k: int| 0 <= k < r@.len() ==> reports@.contains(#[trigger] r@[k]),
        forall|a: int, b: int| 0 <= a < b < r@.len() ==> report_order(&#[trigger] r@[a], &#[trigger] r@[b]),
{
    let ghost orig = reports@;
    let mut rest = reports;
    let mut out: Vec<ViewClusterReport> = Vec::new();
    proof {
        broadcast use vstd::seq_lib::group_to_multiset_ensures;
        broadcast use vstd::multiset::group_multiset_axioms;
        assert(out@.to_multiset().len() == 0);
        assert(out@.to_multiset() =~= Multiset::<ViewClusterReport>::empty());
    }
    while rest.len() > 0
        invariant
            out@.len() + rest@.len() == orig.len(),
            forall|k: int| 0 <= k < rest@.len() ==> orig.contains(#[trigger] rest@[k]),
            forall|k: int| 0 <= k < out@.len() ==> orig.contains(#[trigger] out@[k]),
            forall|k: int| 0 <= k < orig.len() ==> (#[trigger] orig[k]).bbox.bounded_by(2 * COORD_LIMIT),
            forall|a: int, b: int| 0 <= a < b < out@.len() ==> report_order(&#[trigger] out@[a], &#[trigger] out@[b]),
            out@.to_multiset().add(rest@.to_multiset()) =~= orig.to_multiset(),
        decreases rest@.len(),
    {
        let ghost before_rest = rest@;
        let c = rest.remove(0);
        proof {
            broadcast use vstd::seq_lib::group_to_multiset_ensures;
            broadcast use vstd::multiset::group_multiset_axioms;
            assert(rest@ == before_rest.remove(0));
        }
        assert(before_rest[0] == c);
        assert(orig.contains(c));
        assert forall|k: int| 0 <= k < rest@.len() implies orig.contains(#[trigger] rest@[k]) by {
            assert(rest@[k] == before_rest[k + 1]);
        }
        let cc = c.bbox.center();
        let mut pos: usize = out.len();
        loop
            invariant
                pos <= out@.len(),
                cc == c.bbox.spec_center(),
                forall|k: int| 0 <= k < orig.len() ==> (#[trigger] orig[k]).bbox.bounded_by(2 * COORD_LIMIT),
                forall|k: int| 0 <= k < out@.len() ==> orig.contains(#[trigger] out@[k]),
                forall|k: int| pos <= k < out@.len() ==> !report_order(&#[trigger] out@[k], &c),
            ensures
                pos <= out@.len(),
                pos > 0 ==> report_order(&out@[pos - 1], &c),
                forall|k: int| pos <= k < out@.len() ==> !report_order(&#[trigger] out@[k], &c),
            decreases pos,
        {
            if pos == 0 {
                break;
            }
            if report_before(&out[pos - 1], cc) {
                break;
            }
            pos = pos - 1;
        }
        let ghost before_out = out@;
        out.insert(pos, c);
        proof {
            broadcast use vstd::seq_lib::group_to_multiset_ensures;
            broadcast use vstd::multiset::group_multiset_axioms;
            vstd::seq_lib::to_multiset_insert(before_out, pos as int, c);
            assert(out@ == before_out.insert(pos as int, c));
        }
        assert forall|k: int| 0 <= k < out@.len() implies orig.contains(#[trigger] out@[k]) by {
            if k < pos {
                assert(out@[k] == before_out[k]);
            } else if k > pos {
                assert(out@[k] == before_out[k - 1]);
            }
        }
        assert forall|a: int, b: int| 0 <= a < b < out@.len() implies report_order(&#[trigger] out@[a], &#[trigger] out@[b]) by {
            if b < pos {
                assert(out@[a] == before_out[a] && out@[b] == before_out[b]);
            } else if a > pos {
                assert(out@[a] == before_out[a - 1] && out@[b] == before_out[b - 1]);
            } else if a == pos {
                assert(out@[b] == before_out[b - 1]);
                assert(!report_order(&before_out[b - 1], &c));
            } else if b == pos {
                assert(out@[a] == before_out[a]);
                if pos > 0 {
                    assert(report_order(&before_out[pos - 1], &c));
                    if a < pos - 1 {
                        assert(report_order(&before_out[a], &before_out[pos - 1]));
                    }
                }
            } else {
                assert(out@[a] == before_out[a] && out@[b] == before_out[b - 1]);
            }
        }
    }
    proof {
        broadcast use vstd::seq_lib::group_to_multiset_ensures;
        broadcast use vstd::multiset::group_multiset_axioms;
        assert(rest@.len() == 0);
        assert(rest@.to_multiset().len() == 0);
        assert(rest@.to_multiset() =~= Multiset::<ViewClusterReport>::empty());
    }
    out
}

/// Whether a report with centre `c` may follow `a`.
fn report_before(a: &ViewClusterReport, c: crate::geom::Vec2) -> (r: bool)
    ensures
        r == (a.bbox.spec_center().y > c.y || (a.bbox.spec_center().y == c.y && a.bbox.spec_center().x <= c.x)),
{
    let ac = a.bbox.center();
    ac.y > c.y || (ac.y == c.y && ac.x <= c.x)
}

} // verus!
