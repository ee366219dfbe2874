//! Small text utilities: case-insensitive matching and trimming.
use vstd::prelude::*;
use crate::view_separation::upper_code;

verus! {

/// Where a slice that the text holds begins in it.
pub open spec fn slice_start(s: Seq<char>, t: Seq<char>) -> int {
    choose|a: int| 0 <= a <= a + t.len() <= s.len() && t == #[trigger] s.subrange(a, a + t.len())
}

/// A character with the Unicode White_Space property.
pub open spec fn is_white_space(c: char) -> bool {
    let u = c as u32;
    (9 <= u <= 13) || u == 32 || u == 0x85 || u == 0xA0 || u == 0x1680 || (0x2000 <= u <= 0x200A) || u == 0x2028
        || u == 0x2029 || u == 0x202F || u == 0x205F || u == 0x3000
}

/// How many white space characters the text starts with.
pub open spec fn leading_white(s: Seq<char>) -> int
    decreases s.len(),
{
    if s.len() == 0 || !is_white_space(s[0]) {
        0
    } else {
        1 + leading_white(s.subrange(1, s.len() as int))
    }
}

/// How many white space characters the text ends with.
pub open spec fn trailing_white(s: Seq<char>) -> int
    decreases s.len(),
{
    if s.len() == 0 || !is_white_space(s.last()) {
        0
    } else {
        1 + trailing_white(s.drop_last())
    }
}

/// The text without its leading and trailing white space.
pub open spec fn trimmed(s: Seq<char>) -> Seq<char> {
    let t = s.subrange(leading_white(s), s.len() as int);
    t.subrange(0, t.len() - trailing_white(t))
}

/// Relies on `str::trim`: the text without its leading and trailing white
/// space (Unicode White_Space), a slice of the text.
#[verifier::external_body]
pub(crate) fn trim_text<'a>(s: &'a str) -> (r: &'a str)
    ensures
        r@ == trimmed(s@),
        r@ == s@.subrange(slice_start(s@, r@), slice_start(s@, r@) + r@.len()),
        0 <= slice_start(s@, r@) <= slice_start(s@, r@) + r@.len() <= s@.len(),
{
    s.trim()
}

/// `s` equals `pat`, ignoring ASCII case in `s`; `pat` is in upper case.
pub open spec fn eq_ci(s: Seq<char>, pat: Seq<char>) -> bool {
    s.len() == pat.len() && forall|m: int| 0 <= m < pat.len() ==> upper_code(#[trigger] s[m]) == pat[m] as u32
}

/// Whether `s` equals `pat`, ignoring ASCII case in `s`.
pub fn equals_ignore_case(s: &str, pat: &str) -> (r: bool)
    ensures
        r == eq_ci(s@, pat@),
{
    let n = s.unicode_len();
    let m = pat.unicode_len();
    if n != m {
        return false;
    }
    let mut i: usize = 0;
    while i < m
        invariant
            n == s@.len(),
            m == pat@.len(),
            n == m,
            i <= m,
            forall|q: int| 0 <= q < i ==> upper_code(#[trigger] s@[q]) == pat@[q] as u32,
        decreases m - i,
    {
        let c = s.get_char(i);
        let want = pat.get_char(i);
        let cu: u32 = if 97 <= (c as u32) && (c as u32) <= 122 {
            c as u32 - 32
        } else {
            c as u32
        };
        if cu != want as u32 {
            assert(upper_code(s@[i as int]) != pat@[i as int] as u32);
            return false;
        }
        i = i + 1;
    }
    true
}

/// `s` begins with `pat`, exactly.
pub open spec fn starts_with(s: Seq<char>, pat: Seq<char>) -> bool {
    pat.len() <= s.len() && s.subrange(0, pat.len() as int) == pat
}

/// Whether `s` begins with `pat`.
pub fn has_prefix(s: &str, pat: &str) -> (r: bool)
    ensures
        r == starts_with(s@, pat@),
{
    let n = s.unicode_len();
    let m = pat.unicode_len();
    if m > n {
        return false;
    }
    let mut i: usize = 0;
    while i < m
        invariant
            n == s@.len(),
            m == pat@.len(),
            m <= n,
            i <= m,
            forall|q: int| 0 <= q < i ==> #[trigger] s@[q] == pat@[q],
        decreases m - i,
    {
        if s.get_char(i) != pat.get_char(i) {
            assert(s@.subrange(0, m as int)[i as int] != pat@[i as int]);
            return false;
        }
        i = i + 1;
    }
    assert(s@.subrange(0, m as int) =~= pat@);
    true
}

} // verus!
