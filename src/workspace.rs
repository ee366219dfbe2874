//! Locating the directory that holds a project's lock file.
use vstd::prelude::*;

verus! {

/// Of a directory and its ancestors, nearest first, the index of the first
/// one that holds a lock file, if any.
pub fn find_workspace_root(has_lockfile: &Vec<bool>) -> (r: Option<usize>)
    ensures
        r matches Some(i) ==> i < has_lockfile@.len() && has_lockfile@[i as int] && forall|q: int|
            0 <= q < i ==> !#[trigger] has_lockfile@[q],
        r is None ==> forall|q: int| 0 <= q < has_lockfile@.len() ==> !#[trigger] has_lockfile@[q],
{
    let mut i: usize = 0;
    while i < has_lockfile.len()
        invariant
            i <= has_lockfile@.len(),
            forall|q: int| 0 <= q < i ==> !#[trigger] has_lockfile@[q],
        decreases has_lockfile@.len() - i,
    {
        if has_lockfile[i] {
            return Some(i);
        }
        i = i + 1;
    }
    None
}

} // verus!
