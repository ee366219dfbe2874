//! The STEP AP214 wireframe text of the candidate vertices and edges.
use vstd::prelude::*;
use crate::geom::isqrt;
use crate::structs::{LambdaRow, Point3, ThetaEdge};
use crate::topology::floor_div;
use crate::reconstruction::lex_less;

verus! {

/// The text of one decimal digit.
pub open spec fn digit_char(d: nat) -> char {
    if d == 0 { '0' } else if d == 1 { '1' } else if d == 2 { '2' } else if d == 3 { '3' } else if d == 4 { '4' }
    else if d == 5 { '5' } else if d == 6 { '6' } else if d == 7 { '7' } else if d == 8 { '8' } else { '9' }
}

/// Decimal digits of `n`, without leading zeros.
pub open spec fn dec_digits(n: nat) -> Seq<char>
    decreases n,
{
    if n < 10 {
        seq![digit_char(n)]
    } else {
        dec_digits(n / 10).push(digit_char(n % 10))
    }
}

/// The text of digit `d`.
fn digit_text(d: u64) -> (r: &'static str)
    requires
        d < 10,
    ensures
        r@ == seq![digit_char(d as nat)],
{
    proof {
        reveal_strlit("0");
        reveal_strlit("1");
        reveal_strlit("2");
        reveal_strlit("3");
        reveal_strlit("4");
        reveal_strlit("5");
        reveal_strlit("6");
        reveal_strlit("7");
        reveal_strlit("8");
        reveal_strlit("9");
    }
    let r = if d == 0 { "0" } else if d == 1 { "1" } else if d == 2 { "2" } else if d == 3 { "3" } else if d == 4 {
        "4"
    } else if d == 5 { "5" } else if d == 6 { "6" } else if d == 7 { "7" } else if d == 8 { "8" } else { "9" };
    assert(r@ =~= seq![digit_char(d as nat)]);
    r
}

/// The number of decimal digits of `n`.
fn dec_len(n: u64) -> (r: usize)
    ensures
        r == dec_digits(n as nat).len(),
{
    let mut t: u64 = n;
    let mut k: usize = 1;
    assert(pow10(0) == 1);
    assert(t as nat * pow10(0) <= n) by (nonlinear_arith)
        requires pow10(0) == 1, t == n;
    while t >= 10
        invariant
            1 <= k <= 20,
            dec_digits(n as nat).len() == k - 1 + dec_digits(t as nat).len(),
            t <= n,
            t as nat * pow10((k - 1) as nat) <= n,
        decreases t,
    {
        proof {
            lemma_pow10_step((k - 1) as nat);
            assert(t as nat * pow10((k - 1) as nat) <= n);
            assert((t / 10) as nat * 10 <= t) by (nonlinear_arith);
            assert((t / 10) as nat * pow10(k as nat) <= t as nat * pow10((k - 1) as nat)) by (nonlinear_arith)
                requires (t / 10) as nat * 10 <= t, pow10(k as nat) == pow10((k - 1) as nat) * 10;
            if k >= 20 {
                lemma_pow10_big((k - 1) as int);
                assert(t as nat * pow10((k - 1) as nat) >= 10 * pow10(19)) by (nonlinear_arith)
                    requires t >= 10, pow10((k - 1) as nat) >= pow10(19);
                assert(false);
            }
        }
        t = t / 10;
        k = k + 1;
    }
    k
}

pub open spec fn pow10(k: nat) -> nat
    decreases k,
{
    if k == 0 { 1 } else { 10 * pow10((k - 1) as nat) }
}

proof fn lemma_pow10_step(k: nat)
    ensures
        pow10(k + 1) == pow10(k) * 10,
{
}

proof fn lemma_pow10_big(k: int)
    requires
        k >= 19,
    ensures
        pow10(k as nat) >= pow10(19),
        pow10(19) == 10_000_000_000_000_000_000,
    decreases k,
{
    reveal_with_fuel(pow10, 20);
    if k > 19 {
        lemma_pow10_big(k - 1);
        assert(pow10(k as nat) == 10 * pow10((k - 1) as nat));
    }
}

pub open spec fn zeros(k: nat) -> Seq<char> {
    Seq::new(k, |i: int| '0')
}

/// `n` in at least six digits, padded with leading zeros.
pub open spec fn six_digits(n: nat) -> Seq<char> {
    let d = dec_digits(n);
    zeros(if d.len() < 6 { (6 - d.len()) as nat } else { 0 }) + d
}

pub open spec fn abs_i(v: int) -> nat {
    if v < 0 { (-v) as nat } else { v as nat }
}

/// A micro-unit count written in drawing units with six decimals.
#[verifier::opaque]
pub open spec fn fixed(v: int) -> Seq<char> {
    let a = abs_i(v);
    (if v < 0 { "-"@ } else { ""@ }) + dec_digits(a / 1_000_000) + "."@ + six_digits(a % 1_000_000)
}

/// `#` and an entity id.
#[verifier::opaque]
pub open spec fn ref_text(id: nat) -> Seq<char> {
    "#"@ + dec_digits(id)
}

/// Appends the decimal digits of `n`.
pub(crate) fn push_dec(out: &mut String, n: u64)
    ensures
        final(out)@ == old(out)@ + dec_digits(n as nat),
    decreases n,
{
    let ghost start = out@;
    if n >= 10 {
        push_dec(out, n / 10);
    }
    out.append(digit_text(n % 10));
    assert(out@ =~= start + dec_digits(n as nat));
}

/// Appends `#` and an id.
pub(crate) fn push_ref(out: &mut String, id: u64)
    ensures
        final(out)@ == old(out)@ + ref_text(id as nat),
{
    let ghost start = out@;
    out.append("#");
    push_dec(out, id);
    reveal(ref_text);
    assert(out@ == start + ref_text(id as nat));
}

/// Appends a micro-unit count in drawing units with six decimals.
pub(crate) fn push_fixed(out: &mut String, v: i64)
    requires
        v > i64::MIN,
    ensures
        final(out)@ == old(out)@ + fixed(v as int),
{
    let ghost start = out@;
    let a: u64 = if v < 0 { (-v) as u64 } else { v as u64 };
    if v < 0 {
        out.append("-");
    } else {
        out.append("");
    }
    let ghost sign = if v < 0 { "-"@ } else { ""@ };
    assert(out@ == start + sign);
    push_dec(out, a / 1_000_000);
    out.append(".");
    let frac: u64 = a % 1_000_000;
    let len = dec_len(frac);
    let ghost d = dec_digits((a % 1_000_000) as nat);
    let ghost mid = out@;
    let mut k: usize = len;
    proof {
        reveal_strlit("0");
    }
    while k < 6
        invariant
            len == d.len(),
            len <= k <= 6 || (k == len && len >= 6),
            out@ == mid + zeros((k - len) as nat),
        decreases 6 - k,
    {
        let ghost before = out@;
        out.append("0");
        proof {
            reveal_strlit("0");
        }
        assert("0"@ =~= seq!['0']);
        assert(out@ =~= before + seq!['0']);
        assert(zeros((k + 1 - len) as nat) =~= zeros((k - len) as nat).push('0'));
        assert(out@ =~= mid + zeros((k + 1 - len) as nat));
        k = k + 1;
    }
    push_dec(out, frac);
    assert(zeros(if d.len() < 6 { (6 - d.len()) as nat } else { 0 }) =~= zeros((k - len) as nat));
    reveal(fixed);
    assert(out@ =~= start + fixed(v as int));
}


/// Ids of the per-vertex and per-edge entities start after the fixed context
/// block, which takes ids 10 to 23.
pub const FIRST_ID: u64 = 24;

/// Bound on the coordinates that the writer accepts (about 1.1e6 drawing
/// units), so that rounding the direction stays within 128-bit arithmetic.
pub const STEP_COORD_LIMIT: i64 = 0x100_0000_0000;

/// The file header and the fixed product and context entities.
pub open spec fn header_text(ts: Seq<char>) -> Seq<char> {
    "ISO-10303-21;\nHEADER;\nFILE_DESCRIPTION(('Reconstructed 3D Wireframe'), '2;1');\nFILE_NAME('reconstruction.stp', '"@ + ts + "', ('Aditya'), ('CadConvert'), 'Preprocessor v1', 'CadConvert Algo', '');\nFILE_SCHEMA(('AUTOMOTIVE_DESIGN {1 0 10303 214 1 1 1 1}'));\nENDSEC;\nDATA;\n#10=APPLICATION_CONTEXT('automotive design');\n#11=APPLICATION_PROTOCOL_DEFINITION('international standard', 'automotive_design', 2000, #10);\n#12=PRODUCT_DEFINITION_CONTEXT('part definition', #10, 'design');\n#13=PRODUCT('Product1', 'Part1', '', (#12));\n#14=PRODUCT_DEFINITION_FORMATION('1', 'First Version', #13);\n#15=PRODUCT_DEFINITION('design', '', #14, #12);\n#16=PRODUCT_DEFINITION_SHAPE('Shape1', 'Shape', #15);\n#17=SHAPE_DEFINITION_REPRESENTATION(#16, #18);\n#19=GEOMETRIC_REPRESENTATION_CONTEXT('3D Context', 'World', 3);\n#20=GLOBAL_UNIT_ASSIGNED_CONTEXT((#21, #22, #23), #19);\n#21=(LENGTH_UNIT()NAMED_UNIT(*)SI_UNIT(.MILLI.,.METRE.));\n#22=(NAMED_UNIT(*)PLANE_ANGLE_UNIT()SI_UNIT($,.RADIAN.));\n#23=(NAMED_UNIT(*)SI_UNIT($,.STERADIAN.));\n"@
}

/// `m` is the integer nearest the square root of `s`, halves rounded up:
/// `(2m - 1)^2 <= 4s < (2m + 1)^2`, and `m = 0` where `s = 0`.
pub open spec fn is_round_sqrt(s: int, m: int) -> bool {
    m >= 0 && 4 * s < (2 * m + 1) * (2 * m + 1) && (m == 0 || (2 * m - 1) * (2 * m - 1) <= 4 * s)
}

pub open spec fn round_sqrt(s: int) -> int {
    choose|m: int| is_round_sqrt(s, m)
}

/// `w` is the integer nearest `a * 10^6 / sqrt(s)`, halves rounded up.
pub open spec fn is_round_ratio(a: int, s: int, w: int) -> bool {
    &&& w >= 0
    &&& 4 * a * a * 1_000_000_000_000 < (2 * w + 1) * (2 * w + 1) * s
    &&& (w == 0 || (2 * w - 1) * (2 * w - 1) * s <= 4 * a * a * 1_000_000_000_000)
}

/// One component `d` of a chord of squared length `s`, divided by the
/// length, in millionths rounded to nearest (halves away from zero).
pub open spec fn unit_round(d: int, s: int) -> int {
    if d >= 0 {
        round_ratio_of(d, s)
    } else {
        -round_ratio_of(-d, s)
    }
}

pub open spec fn round_ratio_of(a: int, s: int) -> int {
    choose|w: int| is_round_ratio(a, s, w)
}

proof fn lemma_round_sqrt_unique(s: int, m: int, q: int)
    requires
        is_round_sqrt(s, m),
        is_round_sqrt(s, q),
    ensures
        m == q,
{
    if m < q {
        assert((2 * m + 1) * (2 * m + 1) <= (2 * q - 1) * (2 * q - 1)) by (nonlinear_arith)
            requires 0 <= m < q;
    } else if q < m {
        assert((2 * q + 1) * (2 * q + 1) <= (2 * m - 1) * (2 * m - 1)) by (nonlinear_arith)
            requires 0 <= q < m;
    }
}

proof fn lemma_round_ratio_unique(a: int, s: int, w: int, q: int)
    requires
        s > 0,
        is_round_ratio(a, s, w),
        is_round_ratio(a, s, q),
    ensures
        w == q,
{
    if w < q {
        assert((2 * w + 1) * (2 * w + 1) * s <= (2 * q - 1) * (2 * q - 1) * s) by (nonlinear_arith)
            requires 0 <= w < q, s > 0;
    } else if q < w {
        assert((2 * q + 1) * (2 * q + 1) * s <= (2 * w - 1) * (2 * w - 1) * s) by (nonlinear_arith)
            requires 0 <= q < w, s > 0;
    }
}

pub open spec fn chord_sq(a: Point3, b: Point3) -> int {
    (b.x - a.x) * (b.x - a.x) + (b.y - a.y) * (b.y - a.y) + (b.z - a.z) * (b.z - a.z)
}

/// The chord from `a` to `b` as a unit direction in millionths; `(1, 0, 0)`
/// for a chord of zero length.
pub open spec fn direction(a: Point3, b: Point3) -> (int, int, int) {
    let s = chord_sq(a, b);
    if s == 0 {
        (1_000_000, 0, 0)
    } else {
        (unit_round(b.x - a.x, s), unit_round(b.y - a.y, s), unit_round(b.z - a.z, s))
    }
}

pub open spec fn point_id(i: int) -> nat {
    (FIRST_ID + 2 * i) as nat
}

/// The CARTESIAN_POINT and VERTEX_POINT of candidate vertex `i`.
pub open spec fn point_text(i: int, p: Point3) -> Seq<char> {
    ref_text(point_id(i)) + "=CARTESIAN_POINT('',("@ + fixed(p.x as int) + ","@ + fixed(p.y as int) + ","@ + fixed(
        p.z as int,
    ) + "));\n"@ + ref_text(point_id(i) + 1) + "=VERTEX_POINT('',"@ + ref_text(point_id(i)) + ");\n"@
}

pub open spec fn points_text(lam: Seq<LambdaRow>, n: int) -> Seq<char>
    decreases n,
{
    if n <= 0 {
        Seq::empty()
    } else {
        points_text(lam, n - 1) + point_text(n - 1, lam[n - 1].p3)
    }
}

/// The first id of the entities of edge `e`, after `nl` candidate vertices.
pub open spec fn edge_id(nl: int, e: int) -> nat {
    (FIRST_ID + 2 * nl + 4 * e) as nat
}

/// The DIRECTION and VECTOR of an edge whose entities start at `base`.
pub open spec fn vector_text(base: nat, a: Point3, b: Point3) -> Seq<char> {
    let (ux, uy, uz) = direction(a, b);
    ref_text(base) + "=DIRECTION('',("@ + fixed(ux) + ","@ + fixed(uy) + ","@ + fixed(uz) + "));\n"@ + ref_text(
        base + 1,
    ) + "=VECTOR('',"@ + ref_text(base) + ","@ + fixed(round_sqrt(chord_sq(a, b))) + ");\n"@
}

/// The LINE and EDGE_CURVE of an edge from vertex `i` to vertex `j`.
pub open spec fn curve_text(base: nat, i: int, j: int) -> Seq<char> {
    ref_text(base + 2) + "=LINE('',"@ + ref_text(point_id(i)) + ","@ + ref_text(base + 1) + ");\n"@ + ref_text(
        base + 3,
    ) + "=EDGE_CURVE('',"@ + ref_text(point_id(i) + 1) + ","@ + ref_text(point_id(j) + 1) + ","@ + ref_text(base + 2)
        + ",.T.);\n"@
}

/// The DIRECTION, VECTOR, LINE and EDGE_CURVE of edge `e`.
pub open spec fn edge_text(lam: Seq<LambdaRow>, t: ThetaEdge, e: int) -> Seq<char> {
    let base = edge_id(lam.len() as int, e);
    vector_text(base, lam[t.start_lambda_idx as int].p3, lam[t.end_lambda_idx as int].p3) + curve_text(
        base,
        t.start_lambda_idx as int,
        t.end_lambda_idx as int,
    )
}

pub open spec fn edges_text(lam: Seq<LambdaRow>, th: Seq<ThetaEdge>, n: int) -> Seq<char>
    decreases n,
{
    if n <= 0 {
        Seq::empty()
    } else {
        edges_text(lam, th, n - 1) + edge_text(lam, th[n - 1], n - 1)
    }
}

/// The EDGE_CURVE references of the first `n` edges, comma-separated.
pub open spec fn curve_list(nl: int, n: int) -> Seq<char>
    decreases n,
{
    if n <= 0 {
        Seq::empty()
    } else if n == 1 {
        ref_text(edge_id(nl, 0) + 3)
    } else {
        curve_list(nl, n - 1) + ","@ + ref_text(edge_id(nl, n - 1) + 3)
    }
}

/// The curve set, the shape representation that holds it, and the trailer.
pub open spec fn footer_text(nl: int, ne: int) -> Seq<char> {
    let set = edge_id(nl, ne);
    ref_text(set) + "=GEOMETRIC_CURVE_SET('Wireframe',("@ + curve_list(nl, ne) + "));\n"@
        + "#18=SHAPE_REPRESENTATION('Simple Shape', ("@ + ref_text(set) + "), #20);\nENDSEC;\nEND-ISO-10303-21;\n"@
}

/// The whole STEP document.
pub open spec fn step_text(lam: Seq<LambdaRow>, th: Seq<ThetaEdge>, ts: Seq<char>) -> Seq<char> {
    header_text(ts) + points_text(lam, lam.len() as int) + edges_text(lam, th, th.len() as int) + footer_text(
        lam.len() as int,
        th.len() as int,
    )
}

pub open spec fn point_ok(p: Point3) -> bool {
    -STEP_COORD_LIMIT <= p.x <= STEP_COORD_LIMIT && -STEP_COORD_LIMIT <= p.y <= STEP_COORD_LIMIT
        && -STEP_COORD_LIMIT <= p.z <= STEP_COORD_LIMIT
}

/// What the writer accepts: bounded coordinates and counts, edges between
/// existing candidate vertices, sorted by `(i, j)` without repeats.
pub open spec fn writable(lam: Seq<LambdaRow>, th: Seq<ThetaEdge>) -> bool {
    &&& lam.len() <= 0x1_0000_0000
    &&& th.len() <= 0x1_0000_0000
    &&& forall|i: int| 0 <= i < lam.len() ==> point_ok(#[trigger] lam[i].p3)
    &&& forall|e: int|
        0 <= e < th.len() ==> (#[trigger] th[e]).start_lambda_idx < lam.len() && th[e].end_lambda_idx < lam.len()
    &&& forall|m: int, n: int| 0 <= m < n < th.len() ==> lex_less(#[trigger] th[m], #[trigger] th[n])
}

/// Appends the CARTESIAN_POINT and VERTEX_POINT of candidate vertex `i`.
fn push_point(out: &mut String, i: u64, p: Point3)
    requires
        i <= 0x1_0000_0000,
        point_ok(p),
    ensures
        final(out)@ == old(out)@ + point_text(i as int, p),
{
    let ghost start = out@;
    let pid: u64 = FIRST_ID + 2 * i;
    push_ref(out, pid);
    out.append("=CARTESIAN_POINT('',(");
    push_fixed(out, p.x);
    out.append(",");
    push_fixed(out, p.y);
    out.append(",");
    push_fixed(out, p.z);
    out.append("));\n");
    push_ref(out, pid + 1);
    out.append("=VERTEX_POINT('',");
    push_ref(out, pid);
    out.append(");\n");
    assert(out@ =~= start + point_text(i as int, p));
}

/// The squared length of the chord from `a` to `b`.
fn chord_sq_exec(a: Point3, b: Point3) -> (r: i128)
    requires
        point_ok(a),
        point_ok(b),
    ensures
        r == chord_sq(a, b),
        0 <= r <= 3 * 0x4_0000_0000_0000_0000_0000,
{
    let dx: i128 = b.x as i128 - a.x as i128;
    let dy: i128 = b.y as i128 - a.y as i128;
    let dz: i128 = b.z as i128 - a.z as i128;
    assert(0 <= dx * dx <= 0x4_0000_0000_0000_0000_0000) by (nonlinear_arith)
        requires -0x200_0000_0000 <= dx <= 0x200_0000_0000;
    assert(0 <= dy * dy <= 0x4_0000_0000_0000_0000_0000) by (nonlinear_arith)
        requires -0x200_0000_0000 <= dy <= 0x200_0000_0000;
    assert(0 <= dz * dz <= 0x4_0000_0000_0000_0000_0000) by (nonlinear_arith)
        requires -0x200_0000_0000 <= dz <= 0x200_0000_0000;
    dx * dx + dy * dy + dz * dz
}

/// The integer nearest the square root of `s`.
fn round_sqrt_exec(s: i128) -> (m: u64)
    requires
        0 <= s <= 3 * 0x4_0000_0000_0000_0000_0000,
    ensures
        m == round_sqrt(s as int),
        is_round_sqrt(s as int, m as int),
        m <= 0x10_0000_0000_0000,
{
    let r = isqrt(s as u128);
    let ri = r as i128;
    proof {
        assert(r <= 0x8_0000_0000_0000) by (nonlinear_arith)
            requires r * r <= s, s <= 3 * 0x4_0000_0000_0000_0000_0000, r >= 0;
    }
    let m: u64 = if s > ri * ri + ri { r + 1 } else { r };
    proof {
        let si = s as int;
        let rr = r as int;
        if si > rr * rr + rr {
            assert(is_round_sqrt(si, rr + 1)) by (nonlinear_arith)
                requires rr * rr <= si, si < (rr + 1) * (rr + 1), si > rr * rr + rr, rr >= 0;
        } else {
            assert(is_round_sqrt(si, rr)) by (nonlinear_arith)
                requires rr * rr <= si, si < (rr + 1) * (rr + 1), si <= rr * rr + rr, rr >= 0;
        }
        let c = round_sqrt(si);
        assert(is_round_sqrt(si, m as int));
        lemma_round_sqrt_unique(si, m as int, c);
    }
    m
}

/// The integer nearest `a * 10^6 / sqrt(s)`, for `a^2 <= s`.
fn round_ratio(a: i128, s: i128) -> (w: i64)
    requires
        0 <= a <= 0x200_0000_0000,
        0 < s <= 3 * 0x4_0000_0000_0000_0000_0000,
        a * a <= s,
    ensures
        is_round_ratio(a as int, s as int, w as int),
        0 <= w <= 1_000_000,
{
    assert(0 <= a * a <= 0x4_0000_0000_0000_0000_0000) by (nonlinear_arith)
        requires 0 <= a <= 0x200_0000_0000;
    let t: i128 = 4 * (a * a) * 1_000_000_000_000;
    assert((2 * 1_000_000 + 1) * (2 * 1_000_000 + 1) * s > t) by (nonlinear_arith)
        requires t == 4 * (a * a) * 1_000_000_000_000, a * a <= s, s > 0;
    let mut lo: i64 = -1;
    let mut hi: i64 = 1_000_000;
    while hi - lo > 1
        invariant
            -1 <= lo < hi <= 1_000_000,
            0 < s <= 3 * 0x4_0000_0000_0000_0000_0000,
            t == 4 * (a * a) * 1_000_000_000_000,
            t < (2 * hi + 1) * (2 * hi + 1) * s,
            lo >= 0 ==> (2 * lo + 1) * (2 * lo + 1) * s <= t,
        decreases hi - lo,
    {
        let mid: i64 = lo + (hi - lo) / 2;
        let k: i128 = 2 * mid as i128 + 1;
        assert(0 < k * k <= 4_000_004_000_001) by (nonlinear_arith)
            requires 1 <= k <= 2_000_001;
        assert(k * k * s <= 4_000_004_000_001 * (3 * 0x4_0000_0000_0000_0000_0000)) by (nonlinear_arith)
            requires 0 < k * k <= 4_000_004_000_001, 0 < s <= 3 * 0x4_0000_0000_0000_0000_0000;
        if t < k * k * s {
            hi = mid;
        } else {
            lo = mid;
        }
    }
    proof {
        assert(4 * (a * a) * 1_000_000_000_000 == 4 * a * a * 1_000_000_000_000) by (nonlinear_arith);
        if hi > 0 {
            assert(lo == hi - 1);
        }
    }
    hi
}

/// One component of the unit chord, for a chord of squared length `s`.
fn unit_component(d: i64, s: i128) -> (r: i64)
    requires
        -0x200_0000_0000 <= d <= 0x200_0000_0000,
        0 < s <= 3 * 0x4_0000_0000_0000_0000_0000,
        d * d <= s,
    ensures
        r == unit_round(d as int, s as int),
        -1_000_000 <= r <= 1_000_000,
{
    let a: i128 = if d >= 0 { d as i128 } else { -(d as i128) };
    assert(a * a == d * d) by (nonlinear_arith)
        requires a == d || a == -d;
    let w = round_ratio(a, s);
    proof {
        let c = round_ratio_of(a as int, s as int);
        assert(is_round_ratio(a as int, s as int, w as int));
        lemma_round_ratio_unique(a as int, s as int, w as int, c);
    }
    if d >= 0 { w } else { -w }
}

/// The unit direction of the chord from `a` to `b`, and its length rounded
/// to nearest.
fn chord_direction(a: Point3, b: Point3) -> (r: (i64, i64, i64, u64))
    requires
        point_ok(a),
        point_ok(b),
    ensures
        (r.0 as int, r.1 as int, r.2 as int) == direction(a, b),
        r.3 == round_sqrt(chord_sq(a, b)),
        -1_000_000 <= r.0 <= 1_000_000,
        -1_000_000 <= r.1 <= 1_000_000,
        -1_000_000 <= r.2 <= 1_000_000,
        r.3 <= 0x10_0000_0000_0000,
{
    let s = chord_sq_exec(a, b);
    let mag = round_sqrt_exec(s);
    let dx: i64 = b.x - a.x;
    let dy: i64 = b.y - a.y;
    let dz: i64 = b.z - a.z;
    let (ux, uy, uz) = if s == 0 {
        (1_000_000i64, 0i64, 0i64)
    } else {
        proof {
            assert(dx * dx <= s && dy * dy <= s && dz * dz <= s) by (nonlinear_arith)
                requires s == dx * dx + dy * dy + dz * dz;
        }
        (unit_component(dx, s), unit_component(dy, s), unit_component(dz, s))
    };
    (ux, uy, uz, mag)
}

/// Appends the DIRECTION and VECTOR of the chord from `a` to `b`.
fn push_vector(out: &mut String, base: u64, a: Point3, b: Point3)
    requires
        base < 0x10_0000_0000,
        point_ok(a),
        point_ok(b),
    ensures
        final(out)@ == old(out)@ + vector_text(base as nat, a, b),
{
    let ghost start = out@;
    let (ux, uy, uz, mag) = chord_direction(a, b);
    push_ref(out, base);
    out.append("=DIRECTION('',(");
    push_fixed(out, ux);
    out.append(",");
    push_fixed(out, uy);
    out.append(",");
    push_fixed(out, uz);
    out.append("));\n");
    push_ref(out, base + 1);
    out.append("=VECTOR('',");
    push_ref(out, base);
    out.append(",");
    push_fixed(out, mag as i64);
    out.append(");\n");
    assert(out@ =~= start + vector_text(base as nat, a, b));
}

/// Appends the LINE and EDGE_CURVE of an edge from vertex `i` to vertex `j`.
fn push_curve(out: &mut String, base: u64, i: u64, j: u64)
    requires
        base < 0x10_0000_0000,
        i <= 0x1_0000_0000,
        j <= 0x1_0000_0000,
    ensures
        final(out)@ == old(out)@ + curve_text(base as nat, i as int, j as int),
{
    let ghost start = out@;
    push_ref(out, base + 2);
    out.append("=LINE('',");
    push_ref(out, FIRST_ID + 2 * i);
    out.append(",");
    push_ref(out, base + 1);
    out.append(");\n");
    push_ref(out, base + 3);
    out.append("=EDGE_CURVE('',");
    push_ref(out, FIRST_ID + 2 * i + 1);
    out.append(",");
    push_ref(out, FIRST_ID + 2 * j + 1);
    out.append(",");
    push_ref(out, base + 2);
    out.append(",.T.);\n");
    assert(out@ =~= start + curve_text(base as nat, i as int, j as int));
}

/// Appends the DIRECTION, VECTOR, LINE and EDGE_CURVE of edge `e`.
fn push_edge(out: &mut String, lam: &Vec<LambdaRow>, t: ThetaEdge, e: u64)
    requires
        writable(lam@, seq![t]),
        e < 0x1_0000_0000,
    ensures
        final(out)@ == old(out)@ + edge_text(lam@, t, e as int),
{
    let ghost start = out@;
    assert(seq![t][0] == t);
    let a = lam[t.start_lambda_idx].p3;
    let b = lam[t.end_lambda_idx].p3;
    assert(point_ok(lam@[t.start_lambda_idx as int].p3));
    assert(point_ok(lam@[t.end_lambda_idx as int].p3));
    let base: u64 = FIRST_ID + 2 * (lam.len() as u64) + 4 * e;
    push_vector(out, base, a, b);
    push_curve(out, base, t.start_lambda_idx as u64, t.end_lambda_idx as u64);
    assert(out@ =~= start + edge_text(lam@, t, e as int));
}

/// Writes the candidate vertices and edges as a STEP AP214 wireframe; the
/// timestamp goes into the header.
pub fn write_step(lambda: &Vec<LambdaRow>, theta: &Vec<ThetaEdge>, timestamp: &str) -> (r: String)
    requires
        writable(lambda@, theta@),
    ensures
        r@ == step_text(lambda@, theta@, timestamp@),
{
    let mut out = String::new();
    out.append("ISO-10303-21;\nHEADER;\nFILE_DESCRIPTION(('Reconstructed 3D Wireframe'), '2;1');\nFILE_NAME('reconstruction.stp', '");
    out.append(timestamp);
    out.append("', ('Aditya'), ('CadConvert'), 'Preprocessor v1', 'CadConvert Algo', '');\nFILE_SCHEMA(('AUTOMOTIVE_DESIGN {1 0 10303 214 1 1 1 1}'));\nENDSEC;\nDATA;\n#10=APPLICATION_CONTEXT('automotive design');\n#11=APPLICATION_PROTOCOL_DEFINITION('international standard', 'automotive_design', 2000, #10);\n#12=PRODUCT_DEFINITION_CONTEXT('part definition', #10, 'design');\n#13=PRODUCT('Product1', 'Part1', '', (#12));\n#14=PRODUCT_DEFINITION_FORMATION('1', 'First Version', #13);\n#15=PRODUCT_DEFINITION('design', '', #14, #12);\n#16=PRODUCT_DEFINITION_SHAPE('Shape1', 'Shape', #15);\n#17=SHAPE_DEFINITION_REPRESENTATION(#16, #18);\n#19=GEOMETRIC_REPRESENTATION_CONTEXT('3D Context', 'World', 3);\n#20=GLOBAL_UNIT_ASSIGNED_CONTEXT((#21, #22, #23), #19);\n#21=(LENGTH_UNIT()NAMED_UNIT(*)SI_UNIT(.MILLI.,.METRE.));\n#22=(NAMED_UNIT(*)PLANE_ANGLE_UNIT()SI_UNIT($,.RADIAN.));\n#23=(NAMED_UNIT(*)SI_UNIT($,.STERADIAN.));\n");
    assert(out@ =~= header_text(timestamp@));
    let nl = lambda.len();
    let mut i: usize = 0;
    while i < nl
        invariant
            nl == lambda@.len(),
            writable(lambda@, theta@),
            i <= nl,
            out@ == header_text(timestamp@) + points_text(lambda@, i as int),
        decreases nl - i,
    {
        push_point(&mut out, i as u64, lambda[i].p3);
        assert(out@ =~= header_text(timestamp@) + points_text(lambda@, i + 1));
        i = i + 1;
    }
    let ghost mid = out@;
    let ne = theta.len();
    let mut e: usize = 0;
    while e < ne
        invariant
            ne == theta@.len(),
            nl == lambda@.len(),
            writable(lambda@, theta@),
            e <= ne,
            out@ == mid + edges_text(lambda@, theta@, e as int),
        decreases ne - e,
    {
        let t = theta[e];
        assert(theta@[e as int] == t);
        assert(writable(lambda@, seq![t])) by {
            assert forall|q: int| 0 <= q < seq![t].len() implies (#[trigger] seq![t][q]).start_lambda_idx < lambda@.len() && seq![t][q].end_lambda_idx < lambda@.len() by {
                assert(seq![t][q] == theta@[e as int]);
            }
        }
        push_edge(&mut out, lambda, t, e as u64);
        assert(out@ =~= mid + edges_text(lambda@, theta@, e + 1));
        e = e + 1;
    }
    let ghost before_footer = out@;
    let set: u64 = FIRST_ID + 2 * (nl as u64) + 4 * (ne as u64);
    push_ref(&mut out, set);
    out.append("=GEOMETRIC_CURVE_SET('Wireframe',(");
    let ghost list_start = out@;
    let mut c: usize = 0;
    while c < ne
        invariant
            ne == theta@.len(),
            nl == lambda@.len(),
            nl <= 0x1_0000_0000,
            ne <= 0x1_0000_0000,
            c <= ne,
            out@ == list_start + curve_list(nl as int, c as int),
        decreases ne - c,
    {
        if c > 0 {
            out.append(",");
        }
        push_ref(&mut out, FIRST_ID + 2 * (nl as u64) + 4 * (c as u64) + 3);
        assert(out@ =~= list_start + curve_list(nl as int, c + 1));
        c = c + 1;
    }
    out.append("));\n");
    out.append("#18=SHAPE_REPRESENTATION('Simple Shape', (");
    push_ref(&mut out, set);
    out.append("), #20);\nENDSEC;\nEND-ISO-10303-21;\n");
    assert(out@ =~= before_footer + footer_text(nl as int, ne as int));
    assert(out@ =~= step_text(lambda@, theta@, timestamp@));
    out
}

} // verus!
