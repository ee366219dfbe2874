//! Decisions that the DXF and SVG importers make on style attributes.
use vstd::prelude::*;
use crate::model::EntityKind;
use crate::text::{eq_ci, equals_ignore_case, has_prefix, slice_start, starts_with, trim_text, trimmed};
use crate::view_separation::{contains_ci, contains_ignore_case};

verus! {

/// The layer is `0`, the default layer.
pub fn is_layer_zero(layer: &Option<String>) -> (r: bool)
    ensures
        r == (layer matches Some(l) && eq_ci(l@, "0"@)),
{
    match layer {
        Some(l) => equals_ignore_case(l.as_str(), "0"),
        None => false,
    }
}

/// The linetype is `BYBLOCK`, in any case.
pub fn is_byblock_linetype(linetype: &Option<String>) -> (r: bool)
    ensures
        r == (linetype matches Some(l) && eq_ci(l@, "BYBLOCK"@)),
{
    match linetype {
        Some(l) => equals_ignore_case(l.as_str(), "BYBLOCK"),
        None => false,
    }
}

/// The kind a linetype name implies, matched in any case: centre lines,
/// hidden lines, else object lines; unknown without a linetype.
pub open spec fn linetype_kind(linetype: Option<String>) -> EntityKind {
    match linetype {
        None => EntityKind::Unknown,
        Some(l) => if contains_ci(l@, "CENTER"@) || contains_ci(l@, "CENTRE"@) {
            EntityKind::Center
        } else if contains_ci(l@, "HIDDEN"@) || contains_ci(l@, "HID"@) {
            EntityKind::Hidden
        } else {
            EntityKind::Object
        },
    }
}

pub fn classify_linetype(linetype: &Option<String>) -> (r: EntityKind)
    ensures
        r == linetype_kind(*linetype),
{
    match linetype {
        None => EntityKind::Unknown,
        Some(l) => {
            let s = l.as_str();
            if contains_ignore_case(s, "CENTER") || contains_ignore_case(s, "CENTRE") {
                EntityKind::Center
            } else if contains_ignore_case(s, "HIDDEN") || contains_ignore_case(s, "HID") {
                EntityKind::Hidden
            } else {
                EntityKind::Object
            }
        },
    }
}

/// The trimmed text, or `None` where nothing is left.
pub fn empty_to_none(s: &str) -> (r: Option<String>)
    ensures
        trimmed(s@).len() == 0 ==> r is None,
        trimmed(s@).len() > 0 ==> (r matches Some(t) && t@ == trimmed(s@)),
{
    let t = trim_text(s);
    if t.unicode_len() == 0 {
        None
    } else {
        Some(String::from_str(t))
    }
}

/// Hands out the next id and advances the counter.
pub fn alloc_id(next_id: &mut u64) -> (r: u64)
    requires
        *old(next_id) < u64::MAX,
    ensures
        r == *old(next_id),
        *final(next_id) == *old(next_id) + 1,
{
    let id = *next_id;
    *next_id = id + 1;
    id
}

/// The index of the first `;` in `s`, or its length.
pub open spec fn semi_index(s: Seq<char>) -> int
    decreases s.len(),
{
    if s.len() == 0 {
        0
    } else if s[0] == ';' {
        0
    } else {
        1 + semi_index(s.subrange(1, s.len() as int))
    }
}

proof fn lemma_semi_index(s: Seq<char>)
    ensures
        0 <= semi_index(s) <= s.len(),
        semi_index(s) < s.len() ==> s[semi_index(s)] == ';',
        forall|q: int| 0 <= q < semi_index(s) ==> s[q] != ';',
    decreases s.len(),
{
    if s.len() > 0 && s[0] != ';' {
        let t = s.subrange(1, s.len() as int);
        lemma_semi_index(t);
        assert forall|q: int| 0 <= q < semi_index(s) implies s[q] != ';' by {
            if q > 0 {
                assert(s[q] == t[q - 1]);
            }
        }
    }
}

/// The value of the first `stroke-dasharray:` declaration among the
/// `;`-separated parts of a style attribute, each part trimmed.
pub open spec fn dasharray_in(s: Seq<char>) -> Option<Seq<char>>
    decreases s.len(),
{
    let k = semi_index(s);
    let part = trimmed(s.subrange(0, k));
    let key = "stroke-dasharray:"@;
    if 0 <= k <= s.len() && starts_with(part, key) {
        Some(trimmed(part.subrange(key.len() as int, part.len() as int)))
    } else if 0 <= k < s.len() {
        dasharray_in(s.subrange(k + 1, s.len() as int))
    } else {
        None
    }
}

pub fn find_dasharray_in_style<'a>(style: &'a str) -> (r: Option<&'a str>)
    ensures
        r matches Some(v) ==> dasharray_in(style@) == Some(v@),
        r matches Some(v) ==> 0 <= slice_start(style@, v@) && slice_start(style@, v@) + v@.len() <= style@.len() && v@
            == style@.subrange(slice_start(style@, v@), slice_start(style@, v@) + v@.len()),
        r is None ==> dasharray_in(style@) is None,
{
    let n = style.unicode_len();
    let mut start: usize = 0;
    let klen = "stroke-dasharray:".unicode_len();
    assert(style@.subrange(0, n as int) =~= style@);
    while start <= n
        invariant
            n == style@.len(),
            start <= n + 1,
            klen == "stroke-dasharray:"@.len(),
            start <= n ==> dasharray_in(style@) == dasharray_in(style@.subrange(start as int, n as int)),
            start > n ==> dasharray_in(style@) is None,
        decreases n + 1 - start,
    {
        let ghost rest = style@.subrange(start as int, n as int);
        proof {
            lemma_semi_index(rest);
        }
        let mut end: usize = start;
        while end < n && style.get_char(end) != ';'
            invariant
                n == style@.len(),
                start <= end <= n,
                rest == style@.subrange(start as int, n as int),
                forall|q: int| start <= q < end ==> style@[q] != ';',
            decreases n - end,
        {
            end = end + 1;
        }
        proof {
            assert(forall|q: int| 0 <= q < end - start ==> rest[q] == style@[start + q]);
            if semi_index(rest) < end - start {
                assert(rest[semi_index(rest)] == ';');
            }
            if end < n {
                assert(rest[end - start] == ';');
            }
            assert(semi_index(rest) == end - start);
        }
        let part_raw = style.substring_char(start, end);
        assert(part_raw@ =~= rest.subrange(0, end - start));
        let part = trim_text(part_raw);
        assert(part@ == trimmed(rest.subrange(0, semi_index(rest))));
        if has_prefix(part, "stroke-dasharray:") {
            let plen = part.unicode_len();
            let tail = part.substring_char(klen, plen);
            let v = trim_text(tail);
            assert(dasharray_in(rest) == Some(v@));
            proof {
                let a1 = slice_start(part_raw@, part@);
                let a2 = slice_start(tail@, v@);
                let lo = start + a1 + klen + a2;
                let hi = lo + v@.len();
                assert(v@ =~= style@.subrange(lo, hi));
                assert(0 <= lo <= lo + v@.len() <= style@.len() && v@ == style@.subrange(lo, lo + v@.len()));
            }
            return Some(v);
        }
        assert(!starts_with(trimmed(rest.subrange(0, semi_index(rest))), "stroke-dasharray:"@));
        if end == n {
            assert(!(0 <= semi_index(rest) < rest.len()));
            assert(dasharray_in(rest) is None);
            return None;
        } else {
            assert(rest.subrange(end - start + 1, rest.len() as int) =~= style@.subrange(end + 1, n as int));
            assert(dasharray_in(rest) == dasharray_in(rest.subrange(semi_index(rest) + 1, rest.len() as int)));
            start = end + 1;
        }
    }
    None
}

} // verus!
