//! Splitting a drawing into its top, front and side views.
use vstd::prelude::*;
use vstd::multiset::Multiset;
use crate::geom::{dist_sq, dist_sq_exec, isqrt, BBox2, Vec2, COORD_LIMIT, UNIT};
use crate::model::{Drawing2D, Entity2D, EntityKind};
use crate::structs::{ReconstructError, View2D, ViewPlane};
use crate::topology::{floor_div, lemma_div_bounds};

verus! {

/// `c` in upper case, for ASCII letters; its code point otherwise.
pub open spec fn upper_code(c: char) -> u32 {
    if 97 <= (c as u32) <= 122 {
        (c as u32 - 32) as u32
    } else {
        c as u32
    }
}

/// `pat` occurs in `s` at position `k`, ignoring ASCII case in `s`.
pub open spec fn occurs_at(s: Seq<char>, pat: Seq<char>, k: int) -> bool {
    0 <= k && k + pat.len() <= s.len() && forall|m: int| 0 <= m < pat.len() ==> upper_code(#[trigger] s[k + m])
        == pat[m] as u32
}

pub open spec fn contains_ci(s: Seq<char>, pat: Seq<char>) -> bool {
    exists|k: int| occurs_at(s, pat, k)
}

/// The view a layer name selects: `XY` or `TOP`, then `XZ` or `FRONT`, then
/// `YZ`, `RIGHT` or `SIDE`, matched in any case.
pub open spec fn layer_plane(layer: Seq<char>) -> Option<ViewPlane> {
    if contains_ci(layer, "XY"@) || contains_ci(layer, "TOP"@) {
        Some(ViewPlane::XY)
    } else if contains_ci(layer, "XZ"@) || contains_ci(layer, "FRONT"@) {
        Some(ViewPlane::XZ)
    } else if contains_ci(layer, "YZ"@) || contains_ci(layer, "RIGHT"@) || contains_ci(layer, "SIDE"@) {
        Some(ViewPlane::YZ)
    } else {
        None
    }
}

/// Dimensions and text carry no geometry for the views.
pub open spec fn is_drawable(e: Entity2D) -> bool {
    e.kind != EntityKind::Dimension && e.kind != EntityKind::Text
}

/// The view an entity's layer tags it for; a missing layer reads as `0`.
pub open spec fn entity_plane(e: Entity2D) -> Option<ViewPlane> {
    if !is_drawable(e) {
        None
    } else {
        match e.style.layer {
            Some(l) => layer_plane(l@),
            None => layer_plane("0"@),
        }
    }
}

/// The entities that layer tagging puts in view `p`, in drawing order.
pub open spec fn tagged(es: Seq<Entity2D>, p: ViewPlane) -> Seq<Entity2D> {
    es.filter(|e: Entity2D| entity_plane(e) == Some(p))
}

/// Whether `pat` occurs in `s`, ignoring ASCII case in `s`.
pub fn contains_ignore_case(s: &str, pat: &str) -> (r: bool)
    ensures
        r == contains_ci(s@, pat@),
{
    let n = s.unicode_len();
    let m = pat.unicode_len();
    if m > n {
        assert forall|k: int| !occurs_at(s@, pat@, k) by {}
        return false;
    }
    let mut k: usize = 0;
    while k <= n - m
        invariant
            n == s@.len(),
            m == pat@.len(),
            m <= n,
            k <= n - m + 1,
            forall|q: int| 0 <= q < k ==> !occurs_at(s@, pat@, q),
        decreases n - m + 1 - k,
    {
        let mut i: usize = 0;
        let mut ok = true;
        while i < m
            invariant
                n == s@.len(),
                m == pat@.len(),
                k + m <= n,
                i <= m,
                ok ==> forall|q: int| 0 <= q < i ==> upper_code(#[trigger] s@[k + q]) == pat@[q] as u32,
                !ok ==> !occurs_at(s@, pat@, k as int),
            decreases m - i,
        {
            if ok {
                let c = s.get_char(k + i);
                let want = pat.get_char(i);
                let cu: u32 = if 97 <= (c as u32) && (c as u32) <= 122 {
                    c as u32 - 32
                } else {
                    c as u32
                };
                if cu != want as u32 {
                    ok = false;
                    assert(upper_code(s@[k + i]) != pat@[i as int] as u32);
                }
            }
            i = i + 1;
        }
        if ok {
            assert(occurs_at(s@, pat@, k as int));
            return true;
        }
        k = k + 1;
    }
    assert forall|q: int| !occurs_at(s@, pat@, q) by {
        if 0 <= q < k {
        }
    }
    false
}

/// The view a layer name selects.
pub fn plane_of_layer(layer: &str) -> (r: Option<ViewPlane>)
    ensures
        r == layer_plane(layer@),
{
    if contains_ignore_case(layer, "XY") || contains_ignore_case(layer, "TOP") {
        Some(ViewPlane::XY)
    } else if contains_ignore_case(layer, "XZ") || contains_ignore_case(layer, "FRONT") {
        Some(ViewPlane::XZ)
    } else if contains_ignore_case(layer, "YZ") || contains_ignore_case(layer, "RIGHT") || contains_ignore_case(
        layer,
        "SIDE",
    ) {
        Some(ViewPlane::YZ)
    } else {
        None
    }
}

/// The view an entity is tagged for.
pub fn plane_of_entity(e: &Entity2D) -> (r: Option<ViewPlane>)
    ensures
        r == entity_plane(*e),
{
    if e.kind == EntityKind::Dimension || e.kind == EntityKind::Text {
        return None;
    }
    match &e.style.layer {
        Some(l) => plane_of_layer(l.as_str()),
        None => plane_of_layer("0"),
    }
}

/// Entry by entry, the views hold copies of `want`.
pub open spec fn copies_of(got: Seq<Entity2D>, want: Seq<Entity2D>) -> bool {
    got.len() == want.len() && forall|k: int| 0 <= k < got.len() ==> (#[trigger] got[k]).same(&want[k])
}

/// Distributes the entities over the three views by layer name.
pub fn separate_by_layer(drawing: &Drawing2D) -> (r: (View2D, View2D, View2D))
    ensures
        r.0.plane == ViewPlane::XY,
        r.1.plane == ViewPlane::XZ,
        r.2.plane == ViewPlane::YZ,
        copies_of(r.0.raw_entities@, tagged(drawing.entities@, ViewPlane::XY)),
        copies_of(r.1.raw_entities@, tagged(drawing.entities@, ViewPlane::XZ)),
        copies_of(r.2.raw_entities@, tagged(drawing.entities@, ViewPlane::YZ)),
        r.0.vertices@.len() == 0 && r.0.edges@.len() == 0,
        r.1.vertices@.len() == 0 && r.1.edges@.len() == 0,
        r.2.vertices@.len() == 0 && r.2.edges@.len() == 0,
{
    let ghost es = drawing.entities@;
    let mut v_xy = View2D::new(ViewPlane::XY);
    let mut v_xz = View2D::new(ViewPlane::XZ);
    let mut v_yz = View2D::new(ViewPlane::YZ);
    let mut k: usize = 0;
    while k < drawing.entities.len()
        invariant
            es == drawing.entities@,
            k <= es.len(),
            v_xy.plane == ViewPlane::XY && v_xz.plane == ViewPlane::XZ && v_yz.plane == ViewPlane::YZ,
            copies_of(v_xy.raw_entities@, tagged(es.take(k as int), ViewPlane::XY)),
            copies_of(v_xz.raw_entities@, tagged(es.take(k as int), ViewPlane::XZ)),
            copies_of(v_yz.raw_entities@, tagged(es.take(k as int), ViewPlane::YZ)),
            v_xy.vertices@.len() == 0 && v_xy.edges@.len() == 0,
            v_xz.vertices@.len() == 0 && v_xz.edges@.len() == 0,
            v_yz.vertices@.len() == 0 && v_yz.edges@.len() == 0,
        decreases es.len() - k,
    {
        let e = &drawing.entities[k];
        let ghost pre = es.take(k as int);
        assert(es.take(k + 1) == pre.push(*e));
        let ghost f = |x: Entity2D| entity_plane(x) == Some(ViewPlane::XY);
        let ghost g = |x: Entity2D| entity_plane(x) == Some(ViewPlane::XZ);
        let ghost h = |x: Entity2D| entity_plane(x) == Some(ViewPlane::YZ);
        proof {
            pre.lemma_filter_push(*e, f);
            pre.lemma_filter_push(*e, g);
            pre.lemma_filter_push(*e, h);
        }
        assert(pre.push(*e).filter(f) == if f(*e) { pre.filter(f).push(*e) } else { pre.filter(f) });
        assert(pre.push(*e).filter(g) == if g(*e) { pre.filter(g).push(*e) } else { pre.filter(g) });
        assert(pre.push(*e).filter(h) == if h(*e) { pre.filter(h).push(*e) } else { pre.filter(h) });
        match plane_of_entity(e) {
            Some(ViewPlane::XY) => {
                v_xy.raw_entities.push(e.duplicate());
            },
            Some(ViewPlane::XZ) => {
                v_xz.raw_entities.push(e.duplicate());
            },
            Some(ViewPlane::YZ) => {
                v_yz.raw_entities.push(e.duplicate());
            },
            None => {},
        }
        k = k + 1;
    }
    assert(es.take(es.len() as int) == es);
    assert(tagged(es, ViewPlane::XY) == es.filter(|x: Entity2D| entity_plane(x) == Some(ViewPlane::XY)));
    (v_xy, v_xz, v_yz)
}


/// Each entity's box is grown by five drawing units before grouping.
pub const BOX_EXPANSION: i64 = 5_000_000;

/// Grown boxes closer than one drawing unit merge (squared, in micro-units).
pub const MERGE_DISTANCE_SQ: i128 = 1_000_000_000_000;

/// Upper bound on k-means rounds.
pub const KMEANS_ITERATIONS: usize = 10;

/// k-means stops once the centres moved less than 0.1 drawing units in total.
pub const KMEANS_CONVERGENCE: u64 = 100_000;

/// A group of entities, by index into the list of drawable entities, and its box.
pub struct Cluster {
    pub bbox: BBox2,
    pub members: Vec<usize>,
}

/// Every entity of `idx` is a member of some group.
pub open spec fn covers(cs: Seq<Cluster>, idx: Seq<usize>) -> bool {
    forall|e: int| 0 <= e < idx.len() ==> in_some(cs, #[trigger] idx[e])
}

/// Entity `x` is a member of some group.
pub open spec fn in_some(cs: Seq<Cluster>, x: usize) -> bool {
    exists|g: int| 0 <= g < cs.len() && (#[trigger] cs[g]).members@.contains(x)
}

/// Non-empty groups of valid entity indices with bounded boxes.
pub open spec fn clusters_ok(cs: Seq<Cluster>, n: int) -> bool {
    forall|g: int|
        0 <= g < cs.len() ==> {
            &&& (#[trigger] cs[g]).bbox.bounded_by(4 * COORD_LIMIT)
            &&& cs[g].members@.len() > 0
            &&& forall|m: int| 0 <= m < cs[g].members@.len() ==> #[trigger] cs[g].members@[m] < n
        }
}

pub open spec fn boxes_ok(boxes: Seq<BBox2>) -> bool {
    forall|k: int| 0 <= k < boxes.len() ==> (#[trigger] boxes[k]).bounded_by(2 * COORD_LIMIT)
}

pub open spec fn indices_ok(idx: Seq<usize>, n: int) -> bool {
    forall|m: int| 0 <= m < idx.len() ==> #[trigger] idx[m] < n
}

/// `a` followed by `b`.
fn concat_indices(a: &Vec<usize>, b: &Vec<usize>) -> (r: Vec<usize>)
    ensures
        r@ == a@ + b@,
{
    let mut out: Vec<usize> = Vec::new();
    let mut k: usize = 0;
    while k < a.len()
        invariant
            k <= a@.len(),
            out@ == a@.take(k as int),
        decreases a@.len() - k,
    {
        out.push(a[k]);
        k = k + 1;
    }
    let mut m: usize = 0;
    while m < b.len()
        invariant
            m <= b@.len(),
            out@ == a@ + b@.take(m as int),
        decreases b@.len() - m,
    {
        out.push(b[m]);
        m = m + 1;
    }
    assert(a@.take(a@.len() as int) == a@);
    assert(b@.take(b@.len() as int) == b@);
    out
}

/// Two group boxes merge: they are closer than one drawing unit.
pub open spec fn mergeable(a: BBox2, b: BBox2) -> bool {
    !a.spec_union(b).spec_is_empty() && a.spec_gap_sq(b) < MERGE_DISTANCE_SQ
}

/// A group as a value: its box and its members.
pub open spec fn gview(cs: Seq<Cluster>) -> Seq<(BBox2, Seq<usize>)> {
    cs.map_values(|c: Cluster| (c.bbox, c.members@))
}

/// The first pair `(i, j)`, `i < j`, from `(i, j)` on in lexicographic
/// order, whose boxes merge.
pub open spec fn pair_search(gs: Seq<(BBox2, Seq<usize>)>, i: int, j: int) -> Option<(int, int)>
    decreases gs.len() - i, gs.len() - j,
{
    if i < 0 || i >= gs.len() {
        None
    } else if j >= gs.len() {
        pair_search(gs, i + 1, i + 2)
    } else if j <= i {
        pair_search(gs, i, i + 1)
    } else if mergeable(gs[i].0, gs[j].0) {
        Some((i, j))
    } else {
        pair_search(gs, i, j + 1)
    }
}

/// Groups `i` and `j` replaced by one at `i`: the union of their boxes and
/// the members of `i` followed by those of `j`.
pub open spec fn merge_at(gs: Seq<(BBox2, Seq<usize>)>, i: int, j: int) -> Seq<(BBox2, Seq<usize>)> {
    gs.remove(j).remove(i).insert(i, (gs[i].0.spec_union(gs[j].0), gs[i].1 + gs[j].1))
}

/// Merging the first mergeable pair, again and again, at most `fuel` times.
pub open spec fn merge_fix(gs: Seq<(BBox2, Seq<usize>)>, fuel: nat) -> Seq<(BBox2, Seq<usize>)>
    decreases fuel,
{
    match pair_search(gs, 0, 1) {
        None => gs,
        Some((i, j)) => if fuel == 0 {
            gs
        } else {
            merge_fix(merge_at(gs, i, j), (fuel - 1) as nat)
        },
    }
}

/// `b` grown by `BOX_EXPANSION` on every side.
pub open spec fn grown(b: BBox2) -> BBox2 {
    BBox2 {
        min: Vec2 { x: (b.min.x - BOX_EXPANSION) as i64, y: (b.min.y - BOX_EXPANSION) as i64 },
        max: Vec2 { x: (b.max.x + BOX_EXPANSION) as i64, y: (b.max.y + BOX_EXPANSION) as i64 },
    }
}

/// All members of the groups, counted with repetition.
pub open spec fn gms(gs: Seq<(BBox2, Seq<usize>)>) -> Multiset<usize>
    decreases gs.len(),
{
    if gs.len() == 0 {
        Multiset::empty()
    } else {
        gms(gs.drop_last()).add(gs.last().1.to_multiset())
    }
}

/// The entities `0..n`, each once.
pub open spec fn index_range(n: int) -> Multiset<usize> {
    Seq::new(n as nat, |k: int| k as usize).to_multiset()
}

proof fn lemma_gms_remove(gs: Seq<(BBox2, Seq<usize>)>, j: int)
    requires
        0 <= j < gs.len(),
    ensures
        gms(gs) =~= gms(gs.remove(j)).add(gs[j].1.to_multiset()),
    decreases gs.len(),
{
    broadcast use vstd::multiset::group_multiset_axioms;
    if j < gs.len() - 1 {
        lemma_gms_remove(gs.drop_last(), j);
        assert(gs.remove(j).drop_last() =~= gs.drop_last().remove(j));
        assert(gs.remove(j).last() == gs.last());
    } else {
        assert(gs.remove(j) =~= gs.drop_last());
    }
}

proof fn lemma_gms_insert(gs: Seq<(BBox2, Seq<usize>)>, i: int, g: (BBox2, Seq<usize>))
    requires
        0 <= i <= gs.len(),
    ensures
        gms(gs.insert(i, g)) =~= gms(gs).add(g.1.to_multiset()),
{
    let t = gs.insert(i, g);
    lemma_gms_remove(t, i);
    assert(t.remove(i) =~= gs);
}

proof fn lemma_merge_at_gms(gs: Seq<(BBox2, Seq<usize>)>, i: int, j: int)
    requires
        0 <= i < j < gs.len(),
    ensures
        gms(merge_at(gs, i, j)) =~= gms(gs),
{
    broadcast use vstd::multiset::group_multiset_axioms;
    broadcast use vstd::seq_lib::lemma_multiset_commutative;
    lemma_gms_remove(gs, j);
    let g1 = gs.remove(j);
    assert(g1[i] == gs[i]);
    lemma_gms_remove(g1, i);
    lemma_gms_insert(g1.remove(i), i, (gs[i].0.spec_union(gs[j].0), gs[i].1 + gs[j].1));
    assert((gs[i].1 + gs[j].1).to_multiset() =~= gs[i].1.to_multiset().add(gs[j].1.to_multiset()));
}

proof fn lemma_merge_fix_gms(gs: Seq<(BBox2, Seq<usize>)>, fuel: nat)
    ensures
        gms(merge_fix(gs, fuel)) =~= gms(gs),
    decreases fuel,
{
    match pair_search(gs, 0, 1) {
        None => {},
        Some((i, j)) => {
            if fuel > 0 {
                lemma_pair_search_range(gs, 0, 1);
                lemma_merge_at_gms(gs, i, j);
                lemma_merge_fix_gms(merge_at(gs, i, j), (fuel - 1) as nat);
            }
        },
    }
}

proof fn lemma_pair_search_range(gs: Seq<(BBox2, Seq<usize>)>, i: int, j: int)
    ensures
        pair_search(gs, i, j) matches Some((a, b)) ==> 0 <= a < b < gs.len(),
    decreases gs.len() - i, gs.len() - j,
{
    if 0 <= i < gs.len() {
        if j >= gs.len() {
            lemma_pair_search_range(gs, i + 1, i + 2);
        } else if j <= i {
            lemma_pair_search_range(gs, i, i + 1);
        } else if !mergeable(gs[i].0, gs[j].0) {
            lemma_pair_search_range(gs, i, j + 1);
        }
    }
}

proof fn lemma_initial_gms(boxes: Seq<BBox2>, k: int)
    requires
        0 <= k <= boxes.len(),
    ensures
        gms(initial_groups(boxes).take(k)) =~= index_range(k),
    decreases k,
{
    broadcast use vstd::multiset::group_multiset_axioms;
    broadcast use vstd::seq_lib::group_to_multiset_ensures;
    if k == 0 {
        assert(Seq::new(0nat, |q: int| q as usize) =~= Seq::<usize>::empty());
        assert forall|x: usize| index_range(0).count(x) == 0 by {
            assert(!Seq::new(0nat, |q: int| q as usize).contains(x));
        }
    } else {
        lemma_initial_gms(boxes, k - 1);
        assert(initial_groups(boxes).take(k).drop_last() =~= initial_groups(boxes).take(k - 1));
        assert(Seq::new(k as nat, |q: int| q as usize) =~= Seq::new((k - 1) as nat, |q: int| q as usize).push((k - 1) as usize));
        assert(seq![(k - 1) as usize].to_multiset() =~= Seq::<usize>::empty().push((k - 1) as usize).to_multiset());
        assert(Seq::<usize>::empty().to_multiset() =~= Multiset::<usize>::empty()) by {
            assert forall|x: usize| Seq::<usize>::empty().to_multiset().count(x) == 0 by {
                assert(!Seq::<usize>::empty().contains(x));
            }
        }
    }
}

/// The proximity groups hold each entity exactly once.
proof fn lemma_proximity_gms(boxes: Seq<BBox2>)
    ensures
        gms(proximity_groups(boxes)) =~= index_range(boxes.len() as int),
{
    lemma_merge_fix_gms(initial_groups(boxes), boxes.len());
    lemma_initial_gms(boxes, boxes.len() as int);
    assert(initial_groups(boxes).take(boxes.len() as int) =~= initial_groups(boxes));
}

/// One group per entity: its grown box.
pub open spec fn initial_groups(boxes: Seq<BBox2>) -> Seq<(BBox2, Seq<usize>)> {
    Seq::new(boxes.len(), |k: int| (grown(boxes[k]), seq![k as usize]))
}

/// The groups that proximity finds.
pub open spec fn proximity_groups(boxes: Seq<BBox2>) -> Seq<(BBox2, Seq<usize>)> {
    merge_fix(initial_groups(boxes), boxes.len())
}

proof fn lemma_no_pair(gs: Seq<(BBox2, Seq<usize>)>, i: int, j: int)
    requires
        0 <= i,
        pair_search(gs, i, j) is None,
    ensures
        forall|a: int, b: int|
            0 <= a < b < gs.len() && (a > i || (a == i && b >= j)) ==> !mergeable(#[trigger] gs[a].0, #[trigger] gs[b].0),
    decreases gs.len() - i, gs.len() - j,
{
    if i < gs.len() {
        if j >= gs.len() {
            lemma_no_pair(gs, i + 1, i + 2);
        } else if j <= i {
            lemma_no_pair(gs, i, i + 1);
        } else {
            lemma_no_pair(gs, i, j + 1);
        }
    }
}

/// The first pair of groups whose boxes merge.
fn find_pair(groups: &Vec<Cluster>, n: Ghost<int>) -> (r: Option<(usize, usize)>)
    requires
        clusters_ok(groups@, n@),
    ensures
        match r {
            Some((i, j)) => pair_search(gview(groups@), 0, 1) == Some((i as int, j as int)) && i < j < groups@.len(),
            None => pair_search(gview(groups@), 0, 1) is None,
        },
{
    let ghost gs = gview(groups@);
    let len = groups.len();
    let mut i: usize = 0;
    while i < len
        invariant
            len == groups@.len(),
            gs == gview(groups@),
            clusters_ok(groups@, n@),
            i <= len,
            pair_search(gs, i as int, i + 1) == pair_search(gs, 0, 1),
        decreases len - i,
    {
        let mut j: usize = i + 1;
        while j < len
            invariant
                len == groups@.len(),
                gs == gview(groups@),
                clusters_ok(groups@, n@),
                i < len,
                i < j <= len,
                pair_search(gs, i as int, j as int) == pair_search(gs, 0, 1),
            decreases len - j,
        {
            let bi = groups[i].bbox;
            let bj = groups[j].bbox;
            assert(groups@[i as int].bbox.bounded_by(4 * COORD_LIMIT));
            assert(groups@[j as int].bbox.bounded_by(4 * COORD_LIMIT));
            assert(gs[i as int].0 == bi && gs[j as int].0 == bj);
            let u = bi.union(&bj);
            if !u.is_empty() && bi.distance_sq_to(&bj) < MERGE_DISTANCE_SQ {
                return Some((i, j));
            }
            j = j + 1;
        }
        i = i + 1;
    }
    None
}

/// Merges groups `i` and `j` into one at `i`.
fn merge_pair(groups: &mut Vec<Cluster>, i: usize, j: usize, n: Ghost<int>)
    requires
        i < j < old(groups)@.len(),
        clusters_ok(old(groups)@, n@),
        forall|q: usize| q < n@ ==> #[trigger] in_some(old(groups)@, q),
    ensures
        gview(final(groups)@) == merge_at(gview(old(groups)@), i as int, j as int),
        final(groups)@.len() == old(groups)@.len() - 1,
        clusters_ok(final(groups)@, n@),
        forall|q: usize| q < n@ ==> #[trigger] in_some(final(groups)@, q),
{
    let ghost n = n@;
    let bi = groups[i].bbox;
    let bj = groups[j].bbox;
    assert(groups@[i as int].bbox.bounded_by(4 * COORD_LIMIT));
    assert(groups@[j as int].bbox.bounded_by(4 * COORD_LIMIT));
    let u = bi.union(&bj);
        let ghost before = groups@;
        let other = groups.remove(j);
        let ghost after_j = groups@;
        let mine = groups.remove(i);
        assert(other == before[j as int]);
        assert(mine == after_j[i as int]);
        assert(after_j[i as int] == before[i as int]);
        let members = concat_indices(&mine.members, &other.members);
        assert(other.members@.len() > 0);
        assert(indices_ok(mine.members@, n as int));
        assert(indices_ok(other.members@, n as int));
        assert forall|m: int| 0 <= m < members@.len() implies #[trigger] members@[m] < n by {
            if m < mine.members@.len() {
                assert(members@[m] == mine.members@[m]);
            } else {
                assert(members@[m] == other.members@[m - mine.members@.len()]);
            }
        }
        let ghost mid = groups@;
        let ghost mm = members@;
        assert(mm == before[i as int].members@ + before[j as int].members@);
        groups.insert(i, Cluster { bbox: u, members });
        assert(groups@[i as int].members@ == mm);
        assert forall|g: int| 0 <= g < groups@.len() implies {
            &&& (#[trigger] groups@[g]).bbox.bounded_by(4 * COORD_LIMIT)
            &&& groups@[g].members@.len() > 0
            &&& forall|m: int| 0 <= m < groups@[g].members@.len() ==> #[trigger] groups@[g].members@[m] < n
        } by {
            if g < i {
                assert(groups@[g] == mid[g]);
                assert(mid[g] == before[g]);
            } else if g > i {
                assert(groups@[g] == mid[g - 1]);
                if g - 1 < j - 1 {
                    assert(mid[g - 1] == before[g]);
                } else {
                    assert(mid[g - 1] == before[g + 1]);
                }
            }
        }
        assert forall|q: usize| q < n implies #[trigger] in_some(groups@, q) by {
            assert(in_some(before, q));
            let g = choose|g: int| 0 <= g < before.len() && (#[trigger] before[g]).members@.contains(q);
            let w = choose|w: int| 0 <= w < before[g].members@.len() && before[g].members@[w] == q;
            if g == i {
                assert(mm[w] == q);
            } else if g == j {
                assert(mm[before[i as int].members@.len() + w] == q);
            } else if g < i {
                assert(groups@[g] == before[g]);
            } else if g < j {
                assert(groups@[g] == before[g]);
            } else {
                assert(groups@[g - 1] == before[g]);
            }
        }
    let ghost gb = gview(before);
    assert(gview(groups@) =~= merge_at(gb, i as int, j as int)) by {
        assert(gb.remove(j as int) =~= gview(after_j));
        assert(gb.remove(j as int).remove(i as int) =~= gview(mid));
    }
}

/// Merges grown boxes closer than one drawing unit, first pair first,
/// until no pair merges any more.
pub fn merge_nearby(boxes: &Vec<BBox2>) -> (r: Vec<Cluster>)
    requires
        boxes_ok(boxes@),
    ensures
        gview(r@) == proximity_groups(boxes@),
        clusters_ok(r@, boxes@.len() as int),
        boxes@.len() > 0 ==> r@.len() > 0,
        forall|g: int, h: int| 0 <= g < h < r@.len() ==> !mergeable(#[trigger] r@[g].bbox, #[trigger] r@[h].bbox),
        forall|q: usize| q < boxes@.len() ==> #[trigger] in_some(r@, q),
{
    let n = boxes.len();
    let mut groups: Vec<Cluster> = Vec::new();
    let mut k: usize = 0;
    while k < n
        invariant
            n == boxes@.len(),
            k <= n,
            boxes_ok(boxes@),
            groups@.len() == k,
            clusters_ok(groups@, n as int),
            forall|g: int| 0 <= g < k ==> (#[trigger] groups@[g]).members@ == seq![g as usize],
            gview(groups@) =~= initial_groups(boxes@).take(k as int),
        decreases n - k,
    {
        assert(boxes@[k as int].bounded_by(2 * COORD_LIMIT));
        let b = boxes[k].expand(BOX_EXPANSION);
        let mut members: Vec<usize> = Vec::new();
        members.push(k);
        assert(members@ =~= seq![k]);
        groups.push(Cluster { bbox: b, members });
        k = k + 1;
    }
    assert(initial_groups(boxes@).take(n as int) =~= initial_groups(boxes@));
    assert forall|q: usize| q < n implies #[trigger] in_some(groups@, q) by {
        assert(groups@[q as int].members@[0] == q);
    }
    let mut fuel: usize = n;
    loop
        invariant
            clusters_ok(groups@, n as int),
            n == boxes@.len(),
            n > 0 ==> groups@.len() > 0,
            groups@.len() <= fuel + 1,
            forall|q: usize| q < n ==> #[trigger] in_some(groups@, q),
            merge_fix(gview(groups@), fuel as nat) == proximity_groups(boxes@),
        ensures
            clusters_ok(groups@, n as int),
            n > 0 ==> groups@.len() > 0,
            forall|q: usize| q < n ==> #[trigger] in_some(groups@, q),
            gview(groups@) == proximity_groups(boxes@),
            forall|g: int, h: int| 0 <= g < h < groups@.len() ==> !mergeable(#[trigger] groups@[g].bbox, #[trigger] groups@[h].bbox),
        decreases groups@.len(),
    {
        match find_pair(&groups, Ghost(n as int)) {
            None => {
                proof {
                    assert(merge_fix(gview(groups@), fuel as nat) == gview(groups@));
                    lemma_no_pair(gview(groups@), 0, 1);
                    assert forall|g: int, h: int| 0 <= g < h < groups@.len() implies !mergeable(
                        #[trigger] groups@[g].bbox,
                        #[trigger] groups@[h].bbox,
                    ) by {
                        assert(gview(groups@)[g].0 == groups@[g].bbox);
                        assert(gview(groups@)[h].0 == groups@[h].bbox);
                    }
                }
                break;
            },
            Some((i, j)) => {
                let ghost g0 = gview(groups@);
                assert(fuel > 0);
                assert(merge_fix(g0, fuel as nat) == merge_fix(merge_at(g0, i as int, j as int), (fuel - 1) as nat));
                merge_pair(&mut groups, i, j, Ghost(n as int));
                fuel = fuel - 1;
            },
        }
    }
    groups
}

/// The box around the boxes of the given entities.
fn members_bbox(boxes: &Vec<BBox2>, idx: &Vec<usize>) -> (r: BBox2)
    requires
        boxes_ok(boxes@),
        indices_ok(idx@, boxes@.len() as int),
    ensures
        r.bounded_by(2 * COORD_LIMIT),
        r == boxes_union(boxes@, idx@),
{
    let mut b = BBox2::empty();
    let mut k: usize = 0;
    while k < idx.len()
        invariant
            k <= idx@.len(),
            boxes_ok(boxes@),
            indices_ok(idx@, boxes@.len() as int),
            b.bounded_by(2 * COORD_LIMIT),
            b == boxes_union(boxes@, idx@.take(k as int)),
        decreases idx@.len() - k,
    {
        let e = idx[k];
        assert(boxes@[e as int].bounded_by(2 * COORD_LIMIT));
        assert(idx@.take(k + 1).drop_last() == idx@.take(k as int));
        b = b.union(&boxes[e]);
        k = k + 1;
    }
    assert(idx@.take(k as int) == idx@);
    b
}

/// The union of the boxes of the given entities, in order, from the empty box.
pub open spec fn boxes_union(boxes: Seq<BBox2>, idx: Seq<usize>) -> BBox2
    decreases idx.len(),
{
    if idx.len() == 0 {
        BBox2 { min: Vec2 { x: 1, y: 1 }, max: Vec2 { x: 0, y: 0 } }
    } else {
        boxes_union(boxes, idx.drop_last()).spec_union(boxes[idx.last() as int])
    }
}

/// All members of all groups, counted with repetition.
pub open spec fn all_members(cs: Seq<Cluster>) -> Multiset<usize>
    decreases cs.len(),
{
    if cs.len() == 0 {
        Multiset::empty()
    } else {
        all_members(cs.drop_last()).add(cs.last().members@.to_multiset())
    }
}

proof fn lemma_all_members_remove(cs: Seq<Cluster>, j: int)
    requires
        0 <= j < cs.len(),
    ensures
        all_members(cs) =~= all_members(cs.remove(j)).add(cs[j].members@.to_multiset()),
    decreases cs.len(),
{
    broadcast use vstd::multiset::group_multiset_axioms;
    if j < cs.len() - 1 {
        lemma_all_members_remove(cs.drop_last(), j);
        assert(cs.remove(j).drop_last() =~= cs.drop_last().remove(j));
        assert(cs.remove(j).last() == cs.last());
    } else {
        assert(cs.remove(j) =~= cs.drop_last());
    }
}

proof fn lemma_all_members_insert(cs: Seq<Cluster>, i: int, c: Cluster)
    requires
        0 <= i <= cs.len(),
    ensures
        all_members(cs.insert(i, c)) =~= all_members(cs).add(c.members@.to_multiset()),
{
    let t = cs.insert(i, c);
    lemma_all_members_remove(t, i);
    assert(t.remove(i) =~= cs);
}

proof fn lemma_all_members_gview(cs: Seq<Cluster>)
    ensures
        all_members(cs) =~= gms(gview(cs)),
    decreases cs.len(),
{
    if cs.len() > 0 {
        lemma_all_members_gview(cs.drop_last());
        assert(gview(cs).drop_last() =~= gview(cs.drop_last()));
    }
}

proof fn lemma_all_members_take(cs: Seq<Cluster>, k: int)
    requires
        0 <= k <= cs.len(),
    ensures
        all_members(cs.take(k)).subset_of(all_members(cs)),
    decreases cs.len(),
{
    broadcast use vstd::multiset::group_multiset_axioms;
    if k < cs.len() {
        lemma_all_members_take(cs.drop_last(), k);
        assert(cs.drop_last().take(k) =~= cs.take(k));
    } else {
        assert(cs.take(k) =~= cs);
    }
}

proof fn lemma_all_members_same(a: Seq<Cluster>, b: Seq<Cluster>)
    requires
        a.len() == b.len(),
        forall|g: int| 0 <= g < a.len() ==> (#[trigger] a[g]).members@ == b[g].members@,
    ensures
        all_members(a) =~= all_members(b),
    decreases a.len(),
{
    if a.len() > 0 {
        lemma_all_members_same(a.drop_last(), b.drop_last());
        assert(a[a.len() - 1].members@ == b[b.len() - 1].members@);
    }
}

/// Each group's box is the union of its members' boxes.
pub open spec fn boxes_exact(cs: Seq<Cluster>, boxes: Seq<BBox2>) -> bool {
    forall|g: int| 0 <= g < cs.len() ==> (#[trigger] cs[g]).bbox == boxes_union(boxes, cs[g].members@)
}

/// The entities of `idx[..e]` assigned to group `c`, in order.
pub open spec fn assigned_to(idx: Seq<usize>, assign: Seq<usize>, c: int, e: int) -> Seq<usize>
    decreases e,
{
    if e <= 0 {
        Seq::empty()
    } else {
        let prev = assigned_to(idx, assign, c, e - 1);
        if assign[e - 1] == c { prev.push(idx[e - 1]) } else { prev }
    }
}

/// The members of groups `0..c`, over `idx[..e]`.
pub open spec fn assigned_sum(idx: Seq<usize>, assign: Seq<usize>, c: int, e: int) -> Multiset<usize>
    decreases c,
{
    if c <= 0 {
        Multiset::empty()
    } else {
        assigned_sum(idx, assign, c - 1, e).add(assigned_to(idx, assign, c - 1, e).to_multiset())
    }
}

proof fn lemma_assigned_step(idx: Seq<usize>, assign: Seq<usize>, c: int, e: int)
    requires
        0 <= e < idx.len(),
        e < assign.len(),
        c >= 0,
    ensures
        assigned_sum(idx, assign, c, e + 1) =~= if assign[e] < c {
            assigned_sum(idx, assign, c, e).insert(idx[e])
        } else {
            assigned_sum(idx, assign, c, e)
        },
    decreases c,
{
    broadcast use vstd::seq_lib::group_to_multiset_ensures;
    broadcast use vstd::multiset::group_multiset_axioms;
    if c > 0 {
        lemma_assigned_step(idx, assign, c - 1, e);
        let prev = assigned_to(idx, assign, c - 1, e);
        if assign[e] == c - 1 {
            assert(assigned_to(idx, assign, c - 1, e + 1) == prev.push(idx[e]));
            assert(prev.push(idx[e]).to_multiset() =~= prev.to_multiset().insert(idx[e]));
        }
    }
}

proof fn lemma_assigned_total(idx: Seq<usize>, assign: Seq<usize>, kk: int, e: int)
    requires
        0 <= e <= idx.len(),
        assign.len() == idx.len(),
        forall|m: int| 0 <= m < assign.len() ==> #[trigger] assign[m] < kk,
    ensures
        assigned_sum(idx, assign, kk, e) =~= idx.take(e).to_multiset(),
    decreases e,
{
    broadcast use vstd::seq_lib::group_to_multiset_ensures;
    broadcast use vstd::multiset::group_multiset_axioms;
    if e == 0 {
        lemma_assigned_empty(idx, assign, kk);
        assert(idx.take(0) =~= Seq::<usize>::empty());
    } else {
        lemma_assigned_total(idx, assign, kk, e - 1);
        if kk >= 0 {
            lemma_assigned_step(idx, assign, kk, e - 1);
        }
        assert(idx.take(e) == idx.take(e - 1).push(idx[e - 1]));
        assert(assign[e - 1] < kk);
    }
}

proof fn lemma_assigned_empty(idx: Seq<usize>, assign: Seq<usize>, c: int)
    ensures
        assigned_sum(idx, assign, c, 0) =~= Multiset::<usize>::empty(),
    decreases c,
{
    broadcast use vstd::seq_lib::group_to_multiset_ensures;
    broadcast use vstd::multiset::group_multiset_axioms;
    if c > 0 {
        lemma_assigned_empty(idx, assign, c - 1);
        assert(assigned_to(idx, assign, c - 1, 0).len() == 0);
        assert(assigned_to(idx, assign, c - 1, 0).to_multiset() =~= Multiset::<usize>::empty());
    }
}

pub open spec fn centers_ok(cs: Seq<Vec2>) -> bool {
    forall|k: int| 0 <= k < cs.len() ==> -3 * COORD_LIMIT <= (#[trigger] cs[k]).x <= 3 * COORD_LIMIT && -3
        * COORD_LIMIT <= cs[k].y <= 3 * COORD_LIMIT
}

/// The index of the centre nearest to `p`; the first one on ties.
fn nearest_center(centers: &Vec<Vec2>, p: Vec2) -> (r: usize)
    requires
        centers@.len() > 0,
        centers_ok(centers@),
        -2 * COORD_LIMIT <= p.x <= 2 * COORD_LIMIT && -2 * COORD_LIMIT <= p.y <= 2 * COORD_LIMIT,
    ensures
        r < centers@.len(),
        forall|k: int| 0 <= k < centers@.len() ==> dist_sq(p, centers@[r as int]) <= dist_sq(p, #[trigger] centers@[k]),
        forall|k: int| 0 <= k < r ==> dist_sq(p, centers@[r as int]) < dist_sq(p, #[trigger] centers@[k]),
{
    let c0 = centers[0];
    let mut best: usize = 0;
    let mut best_d: i128 = dist_sq_exec(p, c0);
    let mut k: usize = 1;
    while k < centers.len()
        invariant
            1 <= k <= centers@.len(),
            best < k,
            centers_ok(centers@),
            -2 * COORD_LIMIT <= p.x <= 2 * COORD_LIMIT && -2 * COORD_LIMIT <= p.y <= 2 * COORD_LIMIT,
            best_d == dist_sq(p, centers@[best as int]),
            forall|m: int| 0 <= m < k ==> best_d <= dist_sq(p, #[trigger] centers@[m]),
            forall|m: int| 0 <= m < best ==> best_d < dist_sq(p, #[trigger] centers@[m]),
        decreases centers@.len() - k,
    {
        let c = centers[k];
        assert(-3 * COORD_LIMIT <= centers@[k as int].x <= 3 * COORD_LIMIT);
        let d = dist_sq_exec(p, c);
        if d < best_d {
            best = k;
            best_d = d;
        }
        k = k + 1;
    }
    best
}

/// k-means over the centres of the given entities' boxes, from the seeds,
/// for at most `KMEANS_ITERATIONS` rounds; the non-empty groups, in seed order.
fn kmeans(boxes: &Vec<BBox2>, idx: &Vec<usize>, seeds: Vec<Vec2>) -> (r: Vec<Cluster>)
    requires
        boxes_ok(boxes@),
        indices_ok(idx@, boxes@.len() as int),
        0 < seeds@.len() <= 3,
        centers_ok(seeds@),
    ensures
        clusters_ok(r@, boxes@.len() as int),
        r@.len() <= seeds@.len(),
        covers(r@, idx@),
        all_members(r@) == idx@.to_multiset(),
        boxes_exact(r@, boxes@),
{
    let kk = seeds.len();
    let mut centers = seeds;
    let n = idx.len();
    let mut assign: Vec<usize> = Vec::new();
    let mut t: usize = 0;
    while t < n
        invariant
            kk > 0,
            t <= n,
            assign@.len() == t,
            forall|m: int| 0 <= m < assign@.len() ==> #[trigger] assign@[m] < kk,
        decreases n - t,
    {
        assign.push(0);
        t = t + 1;
    }
    let mut iter: usize = 0;
    while iter < KMEANS_ITERATIONS
        invariant
            n == idx@.len(),
            kk == centers@.len(),
            0 < kk <= 3,
            centers_ok(centers@),
            boxes_ok(boxes@),
            indices_ok(idx@, boxes@.len() as int),
            assign@.len() == n,
            forall|m: int| 0 <= m < assign@.len() ==> #[trigger] assign@[m] < kk,
        decreases KMEANS_ITERATIONS - iter,
    {
        let mut sx: Vec<i128> = Vec::new();
        let mut sy: Vec<i128> = Vec::new();
        let mut counts: Vec<usize> = Vec::new();
        let mut c: usize = 0;
        while c < kk
            invariant
                c <= kk,
                sx@.len() == c && sy@.len() == c && counts@.len() == c,
                forall|m: int| 0 <= m < c ==> #[trigger] sx@[m] == 0,
                forall|m: int| 0 <= m < c ==> #[trigger] sy@[m] == 0,
                forall|m: int| 0 <= m < c ==> #[trigger] counts@[m] == 0,
            decreases kk - c,
        {
            sx.push(0);
            sy.push(0);
            counts.push(0);
            c = c + 1;
        }
        let mut e: usize = 0;
        while e < n
            invariant
                n == idx@.len(),
                kk == centers@.len(),
                kk > 0,
                e <= n,
                centers_ok(centers@),
                boxes_ok(boxes@),
                indices_ok(idx@, boxes@.len() as int),
                assign@.len() == n,
                forall|m: int| 0 <= m < assign@.len() ==> #[trigger] assign@[m] < kk,
                sx@.len() == kk && sy@.len() == kk && counts@.len() == kk,
                forall|m: int| 0 <= m < kk ==> #[trigger] counts@[m] <= e,
                forall|m: int|
                    0 <= m < kk ==> -2_000_000_000_000 * counts@[m] <= #[trigger] sx@[m] <= 2_000_000_000_000
                        * counts@[m],
                forall|m: int|
                    0 <= m < kk ==> -2_000_000_000_000 * counts@[m] <= #[trigger] sy@[m] <= 2_000_000_000_000
                        * counts@[m],
            decreases n - e,
        {
            let ent = idx[e];
            assert(boxes@[ent as int].bounded_by(2 * COORD_LIMIT));
            let p = boxes[ent].center();
            let best = nearest_center(&centers, p);
            assign.set(e, best);
            let nx = sx[best] + p.x as i128;
            let ny = sy[best] + p.y as i128;
            let nc = counts[best] + 1;
            sx.set(best, nx);
            sy.set(best, ny);
            counts.set(best, nc);
            e = e + 1;
        }
        let mut moved: u64 = 0;
        let mut c2: usize = 0;
        while c2 < kk
            invariant
                kk == centers@.len(),
                kk <= 3,
                assign@.len() == n,
                forall|m: int| 0 <= m < assign@.len() ==> #[trigger] assign@[m] < kk,
                c2 <= kk,
                centers_ok(centers@),
                sx@.len() == kk && sy@.len() == kk && counts@.len() == kk,
                forall|m: int|
                    0 <= m < kk ==> -2_000_000_000_000 * counts@[m] <= #[trigger] sx@[m] <= 2_000_000_000_000
                        * counts@[m],
                forall|m: int|
                    0 <= m < kk ==> -2_000_000_000_000 * counts@[m] <= #[trigger] sy@[m] <= 2_000_000_000_000
                        * counts@[m],
                moved <= c2 * 0x10_0000_0000_0000,
            decreases kk - c2,
        {
            if counts[c2] > 0 {
                let (nc, step) = moved_center(sx[c2], sy[c2], counts[c2], centers[c2]);
                moved = moved + step;
                centers.set(c2, nc);
            }
            c2 = c2 + 1;
        }
        if moved < KMEANS_CONVERGENCE {
            break;
        }
        iter = iter + 1;
    }
    let mut out: Vec<Cluster> = Vec::new();
    let mut c3: usize = 0;
    while c3 < kk
        invariant
            c3 <= kk,
            out@.len() <= c3,
            n == idx@.len(),
            boxes_ok(boxes@),
            indices_ok(idx@, boxes@.len() as int),
            assign@.len() == n,
            forall|m: int| 0 <= m < assign@.len() ==> #[trigger] assign@[m] < kk,
            clusters_ok(out@, boxes@.len() as int),
            forall|e: int| 0 <= e < n && #[trigger] assign@[e] < c3 ==> in_some(out@, idx@[e]),
            all_members(out@) =~= assigned_sum(idx@, assign@, c3 as int, n as int),
            boxes_exact(out@, boxes@),
        decreases kk - c3,
    {
        let mut members: Vec<usize> = Vec::new();
        let mut e: usize = 0;
        while e < n
            invariant
                e <= n,
                n == idx@.len(),
                assign@.len() == n,
                indices_ok(idx@, boxes@.len() as int),
                indices_ok(members@, boxes@.len() as int),
                forall|q: int| 0 <= q < e && #[trigger] assign@[q] == c3 ==> members@.contains(idx@[q]),
                members@ == assigned_to(idx@, assign@, c3 as int, e as int),
            decreases n - e,
        {
            if assign[e] == c3 {
                let ghost before = members@;
                members.push(idx[e]);
                assert forall|q: int| 0 <= q < e + 1 && #[trigger] assign@[q] == c3 implies members@.contains(idx@[q]) by {
                    if q < e {
                        assert(before.contains(idx@[q]));
                        let w = choose|w: int| 0 <= w < before.len() && before[w] == idx@[q];
                        assert(members@[w] == idx@[q]);
                    } else {
                        assert(members@[before.len() as int] == idx@[q]);
                    }
                }
            }
            e = e + 1;
        }
        let ghost before_out = out@;
        let ghost mm = members@;
        proof {
            broadcast use vstd::seq_lib::group_to_multiset_ensures;
            broadcast use vstd::multiset::group_multiset_axioms;
            if mm.len() == 0 {
                assert(mm.to_multiset() =~= Multiset::<usize>::empty());
            }
        }
        if members.len() > 0 {
            let b = members_bbox(boxes, &members);
            out.push(Cluster { bbox: b, members });
            assert(out@.drop_last() == before_out);
            assert forall|g: int| 0 <= g < out@.len() implies (#[trigger] out@[g]).bbox == boxes_union(boxes@, out@[g].members@) by {
                if g < before_out.len() {
                    assert(out@[g] == before_out[g]);
                }
            }
        }
        assert(all_members(out@) =~= assigned_sum(idx@, assign@, c3 + 1, n as int));
        assert forall|e: int| 0 <= e < n && #[trigger] assign@[e] < c3 + 1 implies in_some(out@, idx@[e]) by {
            if assign@[e] < c3 {
                let g = choose|g: int| 0 <= g < before_out.len() && (#[trigger] before_out[g]).members@.contains(idx@[e]);
                assert(out@[g] == before_out[g]);
            } else {
                assert(out@[before_out.len() as int].members@.contains(idx@[e]));
            }
        }
        c3 = c3 + 1;
    }
    assert forall|e: int| 0 <= e < idx@.len() implies in_some(out@, #[trigger] idx@[e]) by {
        assert(assign@[e] < kk);
    }
    proof {
        lemma_assigned_total(idx@, assign@, kk as int, n as int);
        assert(idx@.take(n as int) == idx@);
    }
    out
}

/// The mean of a group's centres and how far it lies from the old centre
/// (the integer square root of the squared distance).
fn moved_center(sx: i128, sy: i128, cnt: usize, old_c: Vec2) -> (r: (Vec2, u64))
    requires
        cnt > 0,
        -2_000_000_000_000 * cnt <= sx <= 2_000_000_000_000 * cnt,
        -2_000_000_000_000 * cnt <= sy <= 2_000_000_000_000 * cnt,
        -3 * COORD_LIMIT <= old_c.x <= 3 * COORD_LIMIT && -3 * COORD_LIMIT <= old_c.y <= 3 * COORD_LIMIT,
    ensures
        -2 * COORD_LIMIT <= r.0.x <= 2 * COORD_LIMIT && -2 * COORD_LIMIT <= r.0.y <= 2 * COORD_LIMIT,
        r.1 < 0x10_0000_0000_0000,
{
    proof {
        lemma_mean_within(sx as int, cnt as int);
        lemma_mean_within(sy as int, cnt as int);
    }
    let qx = floor_div(sx, cnt as i128);
    let qy = floor_div(sy, cnt as i128);
    let nc = Vec2 { x: qx as i64, y: qy as i64 };
    let d = dist_sq_exec(nc, old_c);
    let ex: i128 = nc.x as i128 - old_c.x as i128;
    let ey: i128 = nc.y as i128 - old_c.y as i128;
    assert(d == ex * ex + ey * ey);
    assert(0 <= ex * ex <= 25_000_000_000_000_000_000_000_000) by (nonlinear_arith)
        requires -5_000_000_000_000 <= ex <= 5_000_000_000_000;
    assert(0 <= ey * ey <= 25_000_000_000_000_000_000_000_000) by (nonlinear_arith)
        requires -5_000_000_000_000 <= ey <= 5_000_000_000_000;
    assert(0 <= d <= 50_000_000_000_000_000_000_000_000);
    let step = isqrt(d as u128);
    assert(step < 0x10_0000_0000_0000) by (nonlinear_arith)
        requires step * step <= d, d <= 50_000_000_000_000_000_000_000_000;
    (nc, step)
}

proof fn lemma_mean_within(s: int, n: int)
    requires
        n > 0,
        -2_000_000_000_000 * n <= s <= 2_000_000_000_000 * n,
    ensures
        -2 * COORD_LIMIT <= s / n <= 2 * COORD_LIMIT,
{
    assert(s == n * (s / n) + s % n && 0 <= s % n < n) by (nonlinear_arith)
        requires n > 0;
    let q: int = s / n;
    assert(q <= 2_000_000_000_000) by (nonlinear_arith)
        requires n * q <= s, s <= 2_000_000_000_000 * n, n > 0;
    assert(q >= -2_000_000_000_000) by (nonlinear_arith)
        requires n * q + n > s, s >= -2_000_000_000_000 * n, n > 0;
}


/// `v / 4` rounded toward negative infinity, for `|v| <= 4 * COORD_LIMIT`.
fn quarter(v: i64) -> (r: i64)
    requires
        -4 * COORD_LIMIT <= v <= 4 * COORD_LIMIT,
    ensures
        r == v / 4,
        -COORD_LIMIT <= r <= COORD_LIMIT,
{
    proof {
        lemma_div_bounds(v as int, 4, COORD_LIMIT as int);
    }
    floor_div(v as i128, 4) as i64
}

/// `v / 2` rounded toward negative infinity, for `|v| <= 4 * COORD_LIMIT`.
fn half(v: i64) -> (r: i64)
    requires
        -4 * COORD_LIMIT <= v <= 4 * COORD_LIMIT,
    ensures
        r == v / 2,
        v - 1 <= 2 * r <= v,
{
    crate::geom::floor_half(v as i128)
}

/// Splits the given entities into three groups by k-means, seeded at the
/// top-left, bottom-left and bottom-right of their joint box, each a quarter
/// of its width and height inward.
pub fn run_kmeans_k3(boxes: &Vec<BBox2>, idx: &Vec<usize>) -> (r: Vec<Cluster>)
    requires
        boxes_ok(boxes@),
        indices_ok(idx@, boxes@.len() as int),
    ensures
        clusters_ok(r@, boxes@.len() as int),
        r@.len() <= 3,
        covers(r@, idx@),
        all_members(r@) == idx@.to_multiset(),
        boxes_exact(r@, boxes@),
        idx@.len() == 0 ==> r@.len() == 0,
{
    if idx.len() == 0 {
        proof {
            broadcast use vstd::seq_lib::group_to_multiset_ensures;
            broadcast use vstd::multiset::group_multiset_axioms;
            assert(idx@ =~= Seq::<usize>::empty());
            assert forall|x: usize| idx@.to_multiset().count(x) == 0 by {
                assert(!idx@.contains(x));
            }
            assert(idx@.to_multiset() =~= Multiset::<usize>::empty());
        }
        return Vec::new();
    }
    let g = members_bbox(boxes, idx);
    let qw = quarter(g.max.x - g.min.x);
    let qh = quarter(g.max.y - g.min.y);
    let mut seeds: Vec<Vec2> = Vec::new();
    seeds.push(Vec2 { x: g.min.x + qw, y: g.max.y - qh });
    seeds.push(Vec2 { x: g.min.x + qw, y: g.min.y + qh });
    seeds.push(Vec2 { x: g.max.x - qw, y: g.min.y + qh });
    kmeans(boxes, idx, seeds)
}

/// Splits the given entities into two groups by k-means, seeded a quarter
/// inward from both ends of the major axis of their joint box.
pub fn run_kmeans_k2(boxes: &Vec<BBox2>, idx: &Vec<usize>) -> (r: Vec<Cluster>)
    requires
        boxes_ok(boxes@),
        indices_ok(idx@, boxes@.len() as int),
    ensures
        clusters_ok(r@, boxes@.len() as int),
        r@.len() <= 2,
        covers(r@, idx@),
        all_members(r@) == idx@.to_multiset(),
        boxes_exact(r@, boxes@),
        idx@.len() == 0 ==> r@.len() == 0,
{
    if idx.len() == 0 {
        proof {
            broadcast use vstd::seq_lib::group_to_multiset_ensures;
            broadcast use vstd::multiset::group_multiset_axioms;
            assert(idx@ =~= Seq::<usize>::empty());
            assert forall|x: usize| idx@.to_multiset().count(x) == 0 by {
                assert(!idx@.contains(x));
            }
            assert(idx@.to_multiset() =~= Multiset::<usize>::empty());
        }
        return Vec::new();
    }
    let g = members_bbox(boxes, idx);
    let w = g.max.x - g.min.x;
    let h = g.max.y - g.min.y;
    let qw = quarter(w);
    let qh = quarter(h);
    let hw = half(w);
    let hh = half(h);
    let mut seeds: Vec<Vec2> = Vec::new();
    if w > h {
        seeds.push(Vec2 { x: g.min.x + qw, y: g.min.y + hh });
        seeds.push(Vec2 { x: g.max.x - qw, y: g.min.y + hh });
    } else {
        seeds.push(Vec2 { x: g.min.x + hw, y: g.max.y - qh });
        seeds.push(Vec2 { x: g.min.x + hw, y: g.min.y + qh });
    }
    kmeans(boxes, idx, seeds)
}

/// The top group: the greatest y, the later one on ties.
pub open spec fn top_of(c: Seq<Vec2>) -> int {
    if c[2].y >= c[0].y && c[2].y >= c[1].y {
        2
    } else if c[1].y >= c[0].y {
        1
    } else {
        0
    }
}

/// The other two groups, lower y first (index order on ties).
pub open spec fn bottom_of(c: Seq<Vec2>) -> (int, int) {
    let t = top_of(c);
    let a = if t == 0 { 1int } else { 0int };
    let b = if t == 2 { 1int } else { 2int };
    if c[b].y < c[a].y { (b, a) } else { (a, b) }
}

/// Third-angle roles by centre: `(top, front, side)`; of the two lower groups
/// the one with the smaller x (the first on ties) is the front.
pub open spec fn roles_of(c: Seq<Vec2>) -> (int, int, int) {
    let (p, q) = bottom_of(c);
    if c[q].x < c[p].x { (top_of(c), q, p) } else { (top_of(c), p, q) }
}

/// Picks the top, front and side group from three group centres.
pub fn assign_roles(c0: Vec2, c1: Vec2, c2: Vec2) -> (r: (usize, usize, usize))
    ensures
        r.0 == roles_of(seq![c0, c1, c2]).0,
        r.1 == roles_of(seq![c0, c1, c2]).1,
        r.2 == roles_of(seq![c0, c1, c2]).2,
        r.0 < 3 && r.1 < 3 && r.2 < 3,
        r.0 != r.1 && r.1 != r.2 && r.0 != r.2,
{
    let ghost c = seq![c0, c1, c2];
    let top: usize = if c2.y >= c0.y && c2.y >= c1.y {
        2
    } else if c1.y >= c0.y {
        1
    } else {
        0
    };
    let a: usize = if top == 0 { 1 } else { 0 };
    let b: usize = if top == 2 { 1 } else { 2 };
    let ya = if a == 0 { c0.y } else { c1.y };
    let yb = if b == 1 { c1.y } else { c2.y };
    let xa = if a == 0 { c0.x } else { c1.x };
    let xb = if b == 1 { c1.x } else { c2.x };
    assert(c[a as int].y == ya && c[b as int].y == yb && c[a as int].x == xa && c[b as int].x == xb);
    let (p, q, xp, xq) = if yb < ya { (b, a, xb, xa) } else { (a, b, xa, xb) };
    if xq < xp { (top, q, p) } else { (top, p, q) }
}

/// The clusters sorted by member count, largest first, ties in their order.
/// Where a group of `sz` members goes among `out[pos..]`: after every group
/// that is not smaller.
pub open spec fn size_pos(out: Seq<(BBox2, Seq<usize>)>, sz: int, pos: int) -> int
    decreases out.len() - pos,
{
    if 0 <= pos < out.len() && out[pos].1.len() >= sz {
        size_pos(out, sz, pos + 1)
    } else {
        pos
    }
}

/// `rest` inserted, front first, into `out` by member count.
pub open spec fn by_size_from(out: Seq<(BBox2, Seq<usize>)>, rest: Seq<(BBox2, Seq<usize>)>) -> Seq<(BBox2, Seq<usize>)>
    decreases rest.len(),
{
    if rest.len() == 0 {
        out
    } else {
        by_size_from(out.insert(size_pos(out, rest[0].1.len() as int, 0), rest[0]), rest.subrange(1, rest.len() as int))
    }
}

/// The groups sorted by member count, largest first, ties in their order.
pub open spec fn sorted_by_size(gs: Seq<(BBox2, Seq<usize>)>) -> Seq<(BBox2, Seq<usize>)> {
    by_size_from(Seq::empty(), gs)
}

fn sort_by_size(defs: Vec<Cluster>, n: Ghost<int>) -> (r: Vec<Cluster>)
    requires
        clusters_ok(defs@, n@),
    ensures
        clusters_ok(r@, n@),
        r@.len() == defs@.len(),
        all_members(r@) =~= all_members(defs@),
        gview(r@) == sorted_by_size(gview(defs@)),
        forall|a: int, b: int| 0 <= a < b < r@.len() ==> (#[trigger] r@[a]).members@.len() >= (#[trigger] r@[b]).members@.len(),
{
    let mut rest = defs;
    let mut out: Vec<Cluster> = Vec::new();
    proof {
        broadcast use vstd::multiset::group_multiset_axioms;
        assert(gview(out@) =~= Seq::<(BBox2, Seq<usize>)>::empty());
    }
    while rest.len() > 0
        invariant
            clusters_ok(rest@, n@),
            clusters_ok(out@, n@),
            out@.len() + rest@.len() == defs@.len(),
            all_members(out@).add(all_members(rest@)) =~= all_members(defs@),
            by_size_from(gview(out@), gview(rest@)) == sorted_by_size(gview(defs@)),
            forall|a: int, b: int| 0 <= a < b < out@.len() ==> (#[trigger] out@[a]).members@.len() >= (#[trigger] out@[b]).members@.len(),
        decreases rest@.len(),
    {
        let ghost before_rest = rest@;
        let c = rest.remove(0);
        assert(before_rest[0] == c);
        assert forall|g: int| 0 <= g < rest@.len() implies #[trigger] rest@[g] == before_rest[g + 1] by {}
        proof {
            lemma_all_members_remove(before_rest, 0);
        }
        let size = c.members.len();
        let mut pos: usize = 0;
        while pos < out.len() && out[pos].members.len() >= size
            invariant
                pos <= out@.len(),
                size == c.members@.len(),
                size_pos(gview(out@), size as int, pos as int) == size_pos(gview(out@), size as int, 0),
                forall|g: int| 0 <= g < pos ==> (#[trigger] out@[g]).members@.len() >= size,
            decreases out@.len() - pos,
        {
            assert(gview(out@)[pos as int].1 == out@[pos as int].members@);
            pos = pos + 1;
        }
        proof {
            if pos < out@.len() {
                assert(gview(out@)[pos as int].1 == out@[pos as int].members@);
            }
            assert(size_pos(gview(out@), size as int, pos as int) == pos);
            assert(gview(before_rest)[0] == (c.bbox, c.members@));
            assert(gview(rest@) =~= gview(before_rest).subrange(1, before_rest.len() as int));
        }
        let ghost before_out = out@;
        proof {
            lemma_all_members_insert(out@, pos as int, c);
            broadcast use vstd::multiset::group_multiset_axioms;
        }
        out.insert(pos, c);
        assert(gview(out@) =~= gview(before_out).insert(pos as int, (c.bbox, c.members@)));
        assert forall|a: int, b: int| 0 <= a < b < out@.len() implies (#[trigger] out@[a]).members@.len() >= (#[trigger] out@[b]).members@.len() by {
            if b < pos {
                assert(out@[a] == before_out[a] && out@[b] == before_out[b]);
            } else if a > pos {
                assert(out@[a] == before_out[a - 1] && out@[b] == before_out[b - 1]);
            } else if a == pos {
                assert(out@[b] == before_out[b - 1]);
                if pos < before_out.len() {
                    assert(before_out[pos as int].members@.len() < size);
                    assert(before_out[pos as int].members@.len() >= before_out[b - 1].members@.len() || b - 1 == pos);
                }
            } else if b == pos {
                assert(out@[a] == before_out[a]);
            } else {
                assert(out@[a] == before_out[a] && out@[b] == before_out[b - 1]);
            }
        }
        assert forall|g: int| 0 <= g < out@.len() implies {
            &&& (#[trigger] out@[g]).bbox.bounded_by(4 * COORD_LIMIT)
            &&& out@[g].members@.len() > 0
            &&& forall|m: int| 0 <= m < out@[g].members@.len() ==> #[trigger] out@[g].members@[m] < n@
        } by {
            if g < pos {
                assert(out@[g] == before_out[g]);
            } else if g > pos {
                assert(out@[g] == before_out[g - 1]);
            }
        }
        assert forall|g: int| 0 <= g < rest@.len() implies {
            &&& (#[trigger] rest@[g]).bbox.bounded_by(4 * COORD_LIMIT)
            &&& rest@[g].members@.len() > 0
            &&& forall|m: int| 0 <= m < rest@[g].members@.len() ==> #[trigger] rest@[g].members@[m] < n@
        } by {
            assert(rest@[g] == before_rest[g + 1]);
        }
    }
    proof {
        broadcast use vstd::multiset::group_multiset_axioms;
        assert(all_members(rest@) =~= Multiset::<usize>::empty());
        assert(gview(rest@) =~= Seq::<(BBox2, Seq<usize>)>::empty());
    }
    out
}

/// The view entities of the drawable entities named by `members`.
fn gather(drawing: &Drawing2D, drawable: &Vec<usize>, members: &Vec<usize>, plane: ViewPlane) -> (r: View2D)
    requires
        indices_ok(drawable@, drawing.entities@.len() as int),
        forall|k: int| 0 <= k < drawable@.len() ==> is_drawable(drawing.entities@[#[trigger] drawable@[k] as int]),
        indices_ok(members@, drawable@.len() as int),
    ensures
        r.plane == plane,
        r.vertices@.len() == 0 && r.edges@.len() == 0,
        from_drawable(r.raw_entities@, drawing.entities@),
        r.raw_entities@.len() == members@.len(),
        holds_members(r.raw_entities@, drawing.entities@, drawable@, members@),
{
    let mut v = View2D::new(plane);
    let mut k: usize = 0;
    while k < members.len()
        invariant
            k <= members@.len(),
            v.plane == plane,
            v.vertices@.len() == 0 && v.edges@.len() == 0,
            v.raw_entities@.len() == k,
            indices_ok(drawable@, drawing.entities@.len() as int),
            forall|q: int| 0 <= q < drawable@.len() ==> is_drawable(drawing.entities@[#[trigger] drawable@[q] as int]),
            indices_ok(members@, drawable@.len() as int),
            from_drawable(v.raw_entities@, drawing.entities@),
            holds_members(v.raw_entities@, drawing.entities@, drawable@, members@.take(k as int)),
        decreases members@.len() - k,
    {
        let m = members[k];
        assert(members@[k as int] < drawable@.len());
        let d = drawable[m];
        assert(drawable@[m as int] < drawing.entities@.len());
        assert(is_drawable(drawing.entities@[drawable@[m as int] as int]));
        let e = drawing.entities[d].duplicate();
        let ghost before = v.raw_entities@;
        v.raw_entities.push(e);
        assert forall|q: int| 0 <= q < v.raw_entities@.len() implies copy_of_drawable(#[trigger] v.raw_entities@[q], drawing.entities@) by {
            if q < before.len() {
                assert(v.raw_entities@[q] == before[q]);
            } else {
                assert(v.raw_entities@[q].same(&drawing.entities@[d as int]));
            }
        }
        assert(holds_members(v.raw_entities@, drawing.entities@, drawable@, members@.take(k + 1))) by {
            assert forall|q: int| 0 <= q < v.raw_entities@.len() implies (#[trigger] v.raw_entities@[q]).same(
                &drawing.entities@[drawable@[members@.take(k + 1)[q] as int] as int],
            ) by {
                if q < before.len() {
                    assert(v.raw_entities@[q] == before[q]);
                }
            }
        }
        k = k + 1;
    }
    assert(members@.take(k as int) == members@);
    v
}

/// The view holds, in order, copies of the drawable entities that `members`
/// names (by their place among the drawable ones).
pub open spec fn holds_members(got: Seq<Entity2D>, es: Seq<Entity2D>, drawable: Seq<usize>, members: Seq<usize>) -> bool {
    got.len() == members.len() && forall|q: int|
        0 <= q < got.len() ==> (#[trigger] got[q]).same(&es[drawable[members[q] as int] as int])
}

/// The places in `es[..k]` of its drawable entities.
pub open spec fn drawable_upto(es: Seq<Entity2D>, k: int) -> Seq<usize>
    decreases k,
{
    if k <= 0 {
        Seq::empty()
    } else {
        let prev = drawable_upto(es, k - 1);
        if is_drawable(es[k - 1]) { prev.push((k - 1) as usize) } else { prev }
    }
}

/// The boxes of the drawable entities of `es[..k]`.
pub open spec fn drawable_boxes(es: Seq<Entity2D>, k: int) -> Seq<BBox2>
    decreases k,
{
    if k <= 0 {
        Seq::empty()
    } else {
        let prev = drawable_boxes(es, k - 1);
        if is_drawable(es[k - 1]) { prev.push(es[k - 1].primitive.spec_bbox()) } else { prev }
    }
}

/// The groups that proximity finds among the drawable entities.
pub open spec fn spatial_groups(es: Seq<Entity2D>) -> Seq<(BBox2, Seq<usize>)> {
    proximity_groups(drawable_boxes(es, es.len() as int))
}

/// Three groups of drawable entities, no entity in two of them or twice in
/// one, each with the union of its members' boxes (the proximity groups
/// where there are three, the three largest where there are more), and the
/// views holding the groups that the roles pick: top has the greatest centre
/// y, and of the other two the front has the smaller x.
#[verifier::opaque]
pub open spec fn views_by_roles(
    v: (Seq<Entity2D>, Seq<Entity2D>, Seq<Entity2D>),
    es: Seq<Entity2D>,
    d: Seq<Cluster>,
) -> bool {
    let dr = drawable_upto(es, es.len() as int);
    let roles = roles_of(seq![d[0].bbox.spec_center(), d[1].bbox.spec_center(), d[2].bbox.spec_center()]);
    &&& d.len() == 3
    &&& boxes_exact(d, drawable_boxes(es, es.len() as int))
    &&& all_members(d).subset_of(index_range(drawable_boxes(es, es.len() as int).len() as int))
    &&& spatial_groups(es).len() == 3 ==> forall|g: int| 0 <= g < 3 ==> (#[trigger] d[g]).members@ == spatial_groups(es)[g].1
    &&& spatial_groups(es).len() > 3 ==> forall|g: int|
        0 <= g < 3 ==> (#[trigger] d[g]).members@ == sorted_by_size(spatial_groups(es))[g].1
    &&& holds_members(v.0, es, dr, d[roles.0].members@)
    &&& holds_members(v.1, es, dr, d[roles.1].members@)
    &&& holds_members(v.2, es, dr, d[roles.2].members@)
}

/// The entities of the three views.
pub open spec fn raws(v: (View2D, View2D, View2D)) -> (Seq<Entity2D>, Seq<Entity2D>, Seq<Entity2D>) {
    (v.0.raw_entities@, v.1.raw_entities@, v.2.raw_entities@)
}

/// Each entity is a copy of a drawable entity of the drawing.
pub open spec fn from_drawable(got: Seq<Entity2D>, es: Seq<Entity2D>) -> bool {
    forall|q: int| 0 <= q < got.len() ==> copy_of_drawable(#[trigger] got[q], es)
}

/// `e` is a copy of a drawable entity of `es`.
pub open spec fn copy_of_drawable(e: Entity2D, es: Seq<Entity2D>) -> bool {
    exists|w: int| 0 <= w < es.len() && is_drawable(es[w]) && e.same(&es[w])
}

pub open spec fn has_drawable(es: Seq<Entity2D>) -> bool {
    exists|k: int| 0 <= k < es.len() && is_drawable(#[trigger] es[k])
}

/// Groups the boxes by proximity, then corrects the count toward three: one
/// group is split three ways by k-means, the larger of two is split in two,
/// and of more than three the three largest are kept.
fn three_groups(boxes: &Vec<BBox2>) -> (r: Option<Vec<Cluster>>)
    requires
        boxes_ok(boxes@),
    ensures
        r matches Some(d) ==> d@.len() == 3 && clusters_ok(d@, boxes@.len() as int) && boxes_exact(d@, boxes@),
        r matches Some(d) ==> all_members(d@).subset_of(index_range(boxes@.len() as int)),
        proximity_groups(boxes@).len() >= 3 ==> r is Some,
        r is None ==> proximity_groups(boxes@).len() < 3,
        proximity_groups(boxes@).len() == 3 ==> (r matches Some(d) && forall|g: int|
            0 <= g < 3 ==> (#[trigger] d@[g]).members@ == proximity_groups(boxes@)[g].1),
        proximity_groups(boxes@).len() > 3 ==> (r matches Some(d) && forall|g: int|
            0 <= g < 3 ==> (#[trigger] d@[g]).members@ == sorted_by_size(proximity_groups(boxes@))[g].1),
{
    let mut defs = merge_nearby(&boxes);
    let ghost pg = proximity_groups(boxes@);
    let ghost full = index_range(boxes@.len() as int);
    assert(gview(defs@).len() == defs@.len());
    proof {
        broadcast use vstd::multiset::group_multiset_axioms;
        lemma_all_members_gview(defs@);
        lemma_proximity_gms(boxes@);
    }
    if defs.len() == 1 {
        let ghost one = defs@;
        assert(all_members(one) =~= one[0].members@.to_multiset()) by {
            broadcast use vstd::multiset::group_multiset_axioms;
            reveal_with_fuel(all_members, 2);
            assert(one.drop_last().len() == 0);
            assert(one.last() == one[0]);
        }
        let all = &defs[0].members;
        defs = run_kmeans_k3(&boxes, all);
    } else if defs.len() == 2 {
        let max_idx: usize = if defs[1].members.len() >= defs[0].members.len() { 1 } else { 0 };
        let ghost before = defs@;
        let large = defs.remove(max_idx);
        proof {
            lemma_all_members_remove(before, max_idx as int);
        }
        assert(clusters_ok(defs@, boxes@.len() as int)) by {
            assert forall|g: int| 0 <= g < defs@.len() implies #[trigger] defs@[g] == before[if g < max_idx { g } else { g + 1 }] by {}
        }
        let split = run_kmeans_k2(&boxes, &large.members);
        if split.len() == 2 {
            let mut split = split;
            let ghost d0 = defs@;
            let ghost sp = split@;
            let s1 = split.remove(1);
            let s0 = split.remove(0);
            proof {
                broadcast use vstd::multiset::group_multiset_axioms;
                reveal_with_fuel(all_members, 3);
                assert(sp.drop_last().drop_last().len() == 0);
                assert(sp.drop_last().last() == s0 && sp.last() == s1);
                assert(all_members(sp) =~= s0.members@.to_multiset().add(s1.members@.to_multiset()));
            }
            let ghost d1 = defs@;
            defs.push(s0);
            assert(defs@.drop_last() == d1);
            let ghost d2 = defs@;
            defs.push(s1);
            assert(defs@.drop_last() == d2);
            assert(clusters_ok(defs@, boxes@.len() as int)) by {
                assert forall|g: int| 0 <= g < defs@.len() implies {
                    &&& (#[trigger] defs@[g]).bbox.bounded_by(4 * COORD_LIMIT)
                    &&& defs@[g].members@.len() > 0
                    &&& forall|m: int| 0 <= m < defs@[g].members@.len() ==> #[trigger] defs@[g].members@[m] < boxes@.len()
                } by {
                    if g < d0.len() {
                        assert(defs@[g] == d0[g]);
                    }
                }
            }
        } else {
            let ghost d1 = defs@;
            defs.push(large);
            assert(defs@.drop_last() == d1);
        }
    }
    if defs.len() != 3 {
        let ghost unsorted = defs@;
        defs = sort_by_size(defs, Ghost(boxes@.len() as int));
        if defs.len() > 3 {
            let ghost sorted = defs@;
            defs.truncate(3);
            proof {
                lemma_all_members_take(sorted, 3);
                assert(defs@ == sorted.take(3));
                if pg.len() > 3 {
                    assert(unsorted.len() == pg.len());
                    assert(gview(unsorted) == pg);
                    assert forall|g: int| 0 <= g < 3 implies (#[trigger] defs@[g]).members@ == sorted_by_size(pg)[g].1 by {
                        assert(defs@[g] == sorted[g]);
                        assert(gview(sorted)[g] == (sorted[g].bbox, sorted[g].members@));
                    }
                }
            }
        } else if defs.len() < 3 {
            return None;
        }
    }
    proof {
        if pg.len() == 3 {
            assert forall|g: int| 0 <= g < 3 implies (#[trigger] defs@[g]).members@ == pg[g].1 by {
                assert(gview(defs@)[g] == (defs@[g].bbox, defs@[g].members@));
            }
        }
    }
    assert(all_members(defs@).subset_of(full)) by {
        broadcast use vstd::multiset::group_multiset_axioms;
    }
    let d = exact_boxes(defs, boxes);
    proof {
        lemma_all_members_same(d@, defs@);
    }
    Some(d)
}

/// The same groups, each with the union of its members' boxes.
fn exact_boxes(defs: Vec<Cluster>, boxes: &Vec<BBox2>) -> (r: Vec<Cluster>)
    requires
        boxes_ok(boxes@),
        clusters_ok(defs@, boxes@.len() as int),
    ensures
        r@.len() == defs@.len(),
        forall|g: int| 0 <= g < r@.len() ==> (#[trigger] r@[g]).members@ == defs@[g].members@,
        clusters_ok(r@, boxes@.len() as int),
        boxes_exact(r@, boxes@),
{
    let ghost orig = defs@;
    let mut rest = defs;
    let mut out: Vec<Cluster> = Vec::new();
    while rest.len() > 0
        invariant
            boxes_ok(boxes@),
            out@.len() + rest@.len() == orig.len(),
            forall|g: int| 0 <= g < rest@.len() ==> #[trigger] rest@[g] == orig[out@.len() + g],
            forall|g: int| 0 <= g < out@.len() ==> (#[trigger] out@[g]).members@ == orig[g].members@,
            clusters_ok(orig, boxes@.len() as int),
            clusters_ok(out@, boxes@.len() as int),
            boxes_exact(out@, boxes@),
        decreases rest@.len(),
    {
        let ghost before = rest@;
        let c = rest.remove(0);
        assert(c == orig[out@.len() as int]);
        assert forall|g: int| 0 <= g < rest@.len() implies #[trigger] rest@[g] == orig[out@.len() + 1 + g] by {
            assert(rest@[g] == before[g + 1]);
        }
        assert(indices_ok(c.members@, boxes@.len() as int));
        let b = members_bbox(boxes, &c.members);
        let ghost prev = out@;
        out.push(Cluster { bbox: b, members: c.members });
        assert forall|g: int| 0 <= g < out@.len() implies (#[trigger] out@[g]).bbox == boxes_union(boxes@, out@[g].members@) by {
            if g < prev.len() {
                assert(out@[g] == prev[g]);
            }
        }
        assert forall|g: int| 0 <= g < out@.len() implies (#[trigger] out@[g]).members@ == orig[g].members@ by {
            if g < prev.len() {
                assert(out@[g] == prev[g]);
            }
        }
        assert forall|g: int| 0 <= g < out@.len() implies {
            &&& (#[trigger] out@[g]).bbox.bounded_by(4 * COORD_LIMIT)
            &&& out@[g].members@.len() > 0
            &&& forall|m: int| 0 <= m < out@[g].members@.len() ==> #[trigger] out@[g].members@[m] < boxes@.len()
        } by {
            if g < prev.len() {
                assert(out@[g] == prev[g]);
            } else {
                assert(orig[g].members@.len() > 0);
            }
        }
    }
    out
}

/// The views found by grouping the drawable entities by proximity, corrected
/// by k-means to three groups, with roles from the group centres.
pub fn separate_spatially(drawing: &Drawing2D) -> (r: Result<(View2D, View2D, View2D), ReconstructError>)
    requires
        drawing.well_formed(),
    ensures
        (r == Err::<(View2D, View2D, View2D), ReconstructError>(ReconstructError::EmptyDrawing)) <==> !has_drawable(drawing.entities@),
        r matches Err(e) ==> e == ReconstructError::EmptyDrawing || e == ReconstructError::ViewSeparationFailed,
        r matches Ok(v) ==> {
            &&& v.0.plane == ViewPlane::XY && v.1.plane == ViewPlane::XZ && v.2.plane == ViewPlane::YZ
            &&& v.0.vertices@.len() == 0 && v.0.edges@.len() == 0
            &&& v.1.vertices@.len() == 0 && v.1.edges@.len() == 0
            &&& v.2.vertices@.len() == 0 && v.2.edges@.len() == 0
            &&& from_drawable(v.0.raw_entities@, drawing.entities@)
            &&& from_drawable(v.1.raw_entities@, drawing.entities@)
            &&& from_drawable(v.2.raw_entities@, drawing.entities@)
            &&& v.0.raw_entities@.len() > 0 && v.1.raw_entities@.len() > 0 && v.2.raw_entities@.len() > 0
            &&& exists|d: Seq<Cluster>| #[trigger] views_by_roles(raws(v), drawing.entities@, d)
        },
        has_drawable(drawing.entities@) && spatial_groups(drawing.entities@).len() >= 3 ==> r is Ok,
        r == Err::<(View2D, View2D, View2D), ReconstructError>(ReconstructError::ViewSeparationFailed) ==> spatial_groups(
            drawing.entities@,
        ).len() < 3,
{
    let ghost es = drawing.entities@;
    let mut drawable: Vec<usize> = Vec::new();
    let mut boxes: Vec<BBox2> = Vec::new();
    let mut k: usize = 0;
    while k < drawing.entities.len()
        invariant
            es == drawing.entities@,
            k <= es.len(),
            drawing.well_formed(),
            drawable@.len() == boxes@.len(),
            indices_ok(drawable@, es.len() as int),
            forall|q: int| 0 <= q < drawable@.len() ==> is_drawable(es[#[trigger] drawable@[q] as int]),
            boxes_ok(boxes@),
            drawable@ == drawable_upto(es, k as int),
            boxes@ == drawable_boxes(es, k as int),
            drawable@.len() == 0 <==> forall|q: int| 0 <= q < k ==> !is_drawable(#[trigger] es[q]),
        decreases es.len() - k,
    {
        let e = &drawing.entities[k];
        if e.kind != EntityKind::Dimension && e.kind != EntityKind::Text {
            assert(es[k as int].primitive.well_formed());
            let b = e.bbox();
            drawable.push(k);
            boxes.push(b);
        }
        k = k + 1;
    }
    if drawable.len() == 0 {
        return Err(ReconstructError::EmptyDrawing);
    }
    assert(has_drawable(es)) by {
        let q = drawable@[0];
        assert(is_drawable(es[q as int]));
    }
    let defs = match three_groups(&boxes) {
        Some(d) => d,
        None => {
            return Err(ReconstructError::ViewSeparationFailed);
        },
    };
    assert(defs@[0].bbox.bounded_by(4 * COORD_LIMIT));
    assert(defs@[1].bbox.bounded_by(4 * COORD_LIMIT));
    assert(defs@[2].bbox.bounded_by(4 * COORD_LIMIT));
    let c0 = defs[0].bbox.center();
    let c1 = defs[1].bbox.center();
    let c2 = defs[2].bbox.center();
    let (top, front, side) = assign_roles(c0, c1, c2);
    assert(indices_ok(defs@[top as int].members@, drawable@.len() as int));
    assert(indices_ok(defs@[front as int].members@, drawable@.len() as int));
    assert(indices_ok(defs@[side as int].members@, drawable@.len() as int));
    assert(defs@[top as int].members@.len() > 0 && defs@[front as int].members@.len() > 0 && defs@[side as int].members@.len() > 0);
    let v_xy = gather(drawing, &drawable, &defs[top].members, ViewPlane::XY);
    let v_xz = gather(drawing, &drawable, &defs[front].members, ViewPlane::XZ);
    let v_yz = gather(drawing, &drawable, &defs[side].members, ViewPlane::YZ);
    assert(views_by_roles(raws((v_xy, v_xz, v_yz)), es, defs@)) by {
        reveal(views_by_roles);
    }
    Ok((v_xy, v_xz, v_yz))
}

/// Some entity's layer names a view.
pub open spec fn any_tagged(es: Seq<Entity2D>) -> bool {
    tagged(es, ViewPlane::XY).len() > 0 || tagged(es, ViewPlane::XZ).len() > 0 || tagged(es, ViewPlane::YZ).len() > 0
}

/// Each of the three views has an entity whose layer names it.
pub open spec fn all_tagged(es: Seq<Entity2D>) -> bool {
    tagged(es, ViewPlane::XY).len() > 0 && tagged(es, ViewPlane::XZ).len() > 0 && tagged(es, ViewPlane::YZ).len() > 0
}

/// Splits a drawing into its three views: by layer name, or, where no entity
/// is tagged, by spatial grouping. Layer names that leave a view empty find
/// fewer than three groups, and separation fails.
pub fn separate_views(drawing: &Drawing2D) -> (r: Result<(View2D, View2D, View2D), ReconstructError>)
    requires
        drawing.well_formed(),
    ensures
        all_tagged(drawing.entities@) ==> (r matches Ok(v) && {
            &&& v.0.plane == ViewPlane::XY && v.1.plane == ViewPlane::XZ && v.2.plane == ViewPlane::YZ
            &&& copies_of(v.0.raw_entities@, tagged(drawing.entities@, ViewPlane::XY))
            &&& copies_of(v.1.raw_entities@, tagged(drawing.entities@, ViewPlane::XZ))
            &&& copies_of(v.2.raw_entities@, tagged(drawing.entities@, ViewPlane::YZ))
        }),
        any_tagged(drawing.entities@) && !all_tagged(drawing.entities@) ==> r == Err::<
            (View2D, View2D, View2D),
            ReconstructError,
        >(ReconstructError::ViewSeparationFailed),
        (r == Err::<(View2D, View2D, View2D), ReconstructError>(ReconstructError::EmptyDrawing)) <==> !has_drawable(drawing.entities@),
        r matches Err(e) ==> e == ReconstructError::EmptyDrawing || e == ReconstructError::ViewSeparationFailed,
        r matches Ok(v) ==> {
            &&& v.0.plane == ViewPlane::XY && v.1.plane == ViewPlane::XZ && v.2.plane == ViewPlane::YZ
            &&& v.0.vertices@.len() == 0 && v.0.edges@.len() == 0
            &&& v.1.vertices@.len() == 0 && v.1.edges@.len() == 0
            &&& v.2.vertices@.len() == 0 && v.2.edges@.len() == 0
            &&& from_drawable(v.0.raw_entities@, drawing.entities@)
            &&& from_drawable(v.1.raw_entities@, drawing.entities@)
            &&& from_drawable(v.2.raw_entities@, drawing.entities@)
            &&& v.0.raw_entities@.len() > 0 && v.1.raw_entities@.len() > 0 && v.2.raw_entities@.len() > 0
            &&& !any_tagged(drawing.entities@) ==> exists|d: Seq<Cluster>| #[trigger] views_by_roles(raws(v), drawing.entities@, d)
        },
        !any_tagged(drawing.entities@) && has_drawable(drawing.entities@) && spatial_groups(drawing.entities@).len()
            >= 3 ==> r is Ok,
        r == Err::<(View2D, View2D, View2D), ReconstructError>(ReconstructError::ViewSeparationFailed) ==> (any_tagged(
            drawing.entities@,
        ) && !all_tagged(drawing.entities@)) || (!any_tagged(drawing.entities@) && spatial_groups(drawing.entities@).len()
            < 3),
{
    let (v_xy, v_xz, v_yz) = separate_by_layer(drawing);
    if v_xy.raw_entities.len() == 0 && v_xz.raw_entities.len() == 0 && v_yz.raw_entities.len() == 0 {
        return separate_spatially(drawing);
    }
    proof {
        lemma_tagged_has_drawable(drawing.entities@, ViewPlane::XY);
        lemma_tagged_has_drawable(drawing.entities@, ViewPlane::XZ);
        lemma_tagged_has_drawable(drawing.entities@, ViewPlane::YZ);
    }
    if v_xy.raw_entities.len() == 0 || v_xz.raw_entities.len() == 0 || v_yz.raw_entities.len() == 0 {
        return Err(ReconstructError::ViewSeparationFailed);
    }
    proof {
        lemma_tagged_from_drawable(drawing.entities@, ViewPlane::XY, v_xy.raw_entities@);
        lemma_tagged_from_drawable(drawing.entities@, ViewPlane::XZ, v_xz.raw_entities@);
        lemma_tagged_from_drawable(drawing.entities@, ViewPlane::YZ, v_yz.raw_entities@);
    }
    Ok((v_xy, v_xz, v_yz))
}

proof fn lemma_tagged_from_drawable(es: Seq<Entity2D>, p: ViewPlane, got: Seq<Entity2D>)
    requires
        copies_of(got, tagged(es, p)),
    ensures
        from_drawable(got, es),
{
    let f = |e: Entity2D| entity_plane(e) == Some(p);
    broadcast use vstd::seq_lib::group_filter_ensures;
    let t = tagged(es, p);
    assert(t == es.filter(f));
    assert forall|q: int| 0 <= q < got.len() implies copy_of_drawable(#[trigger] got[q], es) by {
        assert(f(t[q]));
        assert(t.contains(t[q]));
        es.lemma_filter_contains_rev(f, t[q]);
        assert(es.contains(t[q]));
        let w = choose|w: int| 0 <= w < es.len() && es[w] == t[q];
        assert(got[q].same(&t[q]));
        assert(is_drawable(es[w]));
        assert(got[q].same(&es[w]));
    }
}

proof fn lemma_tagged_has_drawable(es: Seq<Entity2D>, p: ViewPlane)
    ensures
        tagged(es, p).len() > 0 ==> has_drawable(es),
{
    let f = |e: Entity2D| entity_plane(e) == Some(p);
    broadcast use vstd::seq_lib::group_filter_ensures;
    let t = tagged(es, p);
    if t.len() > 0 {
        assert(f(t[0]));
        assert(t.contains(t[0]));
        es.lemma_filter_contains_rev(f, t[0]);
        let w = choose|w: int| 0 <= w < es.len() && es[w] == t[0];
        assert(is_drawable(es[w]));
    }
}


/// Copies of well-formed drawable entities are well formed.
pub proof fn lemma_copies_well_formed(got: Seq<Entity2D>, es: Seq<Entity2D>)
    requires
        from_drawable(got, es),
        forall|k: int| 0 <= k < es.len() ==> (#[trigger] es[k]).primitive.well_formed(),
    ensures
        forall|k: int| 0 <= k < got.len() ==> (#[trigger] got[k]).primitive.well_formed(),
{
    assert forall|k: int| 0 <= k < got.len() implies (#[trigger] got[k]).primitive.well_formed() by {
        assert(copy_of_drawable(got[k], es));
        let w = choose|w: int| 0 <= w < es.len() && is_drawable(es[w]) && got[k].same(&es[w]);
        assert(es[w].primitive.well_formed());
    }
}

} // verus!
