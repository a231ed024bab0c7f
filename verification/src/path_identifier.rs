//! Which suite owns a path.
//!
//! Only a suite whose root is the path or a directory above it can own the
//! path. Among those the deepest root decides, the earlier suite where two
//! roots are equally deep. That one suite owns the path if one of its
//! patterns matches; no other suite is asked.

use crate::config::{any_matches, Suite};
use crate::path::{is_ancestor, is_normal, law_ancestors_nest, render, Path, PathView};
use vstd::prelude::*;

verus! {

/// The roots of a list of suites.
pub open spec fn roots(suites: Seq<Suite>) -> Seq<PathView> {
    suites.map_values(|suite: Suite| suite.root@)
}

/// Whether root `i` is the one that decides for `candidate`: it is above the
/// candidate, no root above the candidate is deeper, and none that is equally
/// deep comes earlier.
pub open spec fn is_deepest(candidate: PathView, roots: Seq<PathView>, i: int) -> bool {
    &&& 0 <= i < roots.len()
    &&& is_ancestor(roots[i], candidate)
    &&& forall|j: int|
        0 <= j < roots.len() && is_ancestor(#[trigger] roots[j], candidate) ==> {
            ||| roots[j].parts.len() < roots[i].parts.len()
            ||| roots[j].parts.len() == roots[i].parts.len() && i <= j
        }
}

/// The index of the root that decides for `candidate`, if any root is above it.
pub open spec fn deepest(candidate: PathView, roots: Seq<PathView>) -> Option<int> {
    if exists|i: int| is_deepest(candidate, roots, i) {
        Some(choose|i: int| is_deepest(candidate, roots, i))
    } else {
        None
    }
}

/// The index of the suite that owns `candidate`: the one whose root decides,
/// if one of its own patterns matches the candidate's text.
pub open spec fn owner(candidate: PathView, suites: Seq<Suite>) -> Option<int> {
    match deepest(candidate, roots(suites)) {
        Some(i) => if any_matches(suites[i]@.paths, render(candidate)) {
            Some(i)
        } else {
            None
        },
        None => None,
    }
}

/// At most one root decides.
pub proof fn lemma_deepest_unique(candidate: PathView, roots: Seq<PathView>, i: int, j: int)
    requires
        is_deepest(candidate, roots, i),
        is_deepest(candidate, roots, j),
    ensures
        i == j,
{
    assert(is_ancestor(roots[i], candidate));
    assert(is_ancestor(roots[j], candidate));
}

/// A root that decides is the one that `deepest` names.
pub proof fn lemma_deepest_is(candidate: PathView, roots: Seq<PathView>, i: int)
    requires
        is_deepest(candidate, roots, i),
    ensures
        deepest(candidate, roots) == Some(i),
{
    let chosen = choose|k: int| is_deepest(candidate, roots, k);
    lemma_deepest_unique(candidate, roots, i, chosen);
}

/// Where any root is above the candidate, one of them decides.
pub proof fn law_some_root_decides(candidate: PathView, roots: Seq<PathView>, j: int)
    requires
        0 <= j < roots.len(),
        is_ancestor(roots[j], candidate),
    ensures
        deepest(candidate, roots) is Some,
    decreases roots.len(),
{
    let n = roots.len() - 1;
    let front = roots.drop_last();
    if exists|k: int| 0 <= k < n && is_ancestor(#[trigger] roots[k], candidate) {
        let k = choose|k: int| 0 <= k < n && is_ancestor(#[trigger] roots[k], candidate);
        assert(front[k] == roots[k]);
        law_some_root_decides(candidate, front, k);
        let d = choose|d: int| is_deepest(candidate, front, d);
        assert(front[d] == roots[d]);
        let chosen = if is_ancestor(roots[n], candidate) && roots[n].parts.len()
            > roots[d].parts.len() {
            n
        } else {
            d
        };
        assert forall|i: int|
            0 <= i < roots.len() && is_ancestor(#[trigger] roots[i], candidate) implies {
            ||| roots[i].parts.len() < roots[chosen].parts.len()
            ||| roots[i].parts.len() == roots[chosen].parts.len() && chosen <= i
        } by {
            if i < n {
                assert(front[i] == roots[i]);
            }
        }
        assert(is_deepest(candidate, roots, chosen));
    } else {
        assert(j == n);
        assert(is_deepest(candidate, roots, n));
    }
}

/// No suite owns a path that no root is above.
pub proof fn law_no_root_no_owner(candidate: PathView, suites: Seq<Suite>)
    requires
        forall|j: int| 0 <= j < suites.len() ==> !is_ancestor(#[trigger] suites[j].root@, candidate),
    ensures
        owner(candidate, suites) is None,
{
    let all = roots(suites);
    assert forall|k: int| !is_deepest(candidate, all, k) by {
        if 0 <= k < all.len() {
            assert(all[k] == suites[k].root@);
        }
    }
}

/// The root that decides is inside every other root above the candidate:
/// among absolute roots, each root above the candidate is above the deciding
/// root too, and one as deep as it is the same directory.
pub proof fn law_deepest_is_innermost(
    candidate: PathView,
    roots: Seq<PathView>,
    i: int,
    j: int,
)
    requires
        is_deepest(candidate, roots, i),
        0 <= j < roots.len(),
        is_ancestor(roots[j], candidate),
        is_normal(roots[i]),
        is_normal(roots[j]),
        roots[i].absolute,
        roots[j].absolute,
    ensures
        is_ancestor(roots[j], roots[i]),
        roots[j].parts.len() == roots[i].parts.len() ==> roots[j] == roots[i],
{
    law_ancestors_nest(roots[j], roots[i], candidate);
}

/// Only the deciding suite is asked: where its patterns do not match the
/// candidate no suite owns it, whatever the patterns of the other suites say;
/// where they match, it is the owner.
pub proof fn law_no_fallback(candidate: PathView, suites: Seq<Suite>, i: int)
    requires
        is_deepest(candidate, roots(suites), i),
    ensures
        owner(candidate, suites) == if any_matches(suites[i]@.paths, render(candidate)) {
            Some(i)
        } else {
            None
        },
{
    lemma_deepest_is(candidate, roots(suites), i);
}

/// The index of the suite whose root decides for `path`: the deepest of the
/// roots that are `path` or a directory above it, the first one of those that
/// are equally deep. `None` where no root is above `path`.
pub fn deepest_root(path: &Path, suites: &Vec<Suite>) -> (best: Option<usize>)
    ensures
        match best {
            Some(d) => deepest(path@, roots(suites@)) == Some(d as int) && d < suites.len(),
            None => deepest(path@, roots(suites@)) is None,
        },
        best is None <==> forall|j: int|
            0 <= j < suites.len() ==> !is_ancestor(#[trigger] suites@[j].root@, path@),
{
    let ghost all = roots(suites@);
    let mut best: Option<usize> = None;
    let mut i: usize = 0;
    while i < suites.len()
        invariant
            i <= suites.len(),
            all == roots(suites@),
            match best {
                Some(d) => d < i && is_deepest(path@, all.take(i as int), d as int),
                None => forall|j: int| 0 <= j < i ==> !is_ancestor(#[trigger] all[j], path@),
            },
        decreases suites.len() - i,
    {
        let root = suites[i].root.get();
        let ghost shorter = all.take(i as int);
        let ghost longer = all.take(i + 1);
        assert(longer[i as int] == root@);
        assert(forall|j: int| 0 <= j < i ==> longer[j] == shorter[j]);
        let ghost kept = best;
        if root.is_ancestor_of(path) {
            match best {
                None => {
                    best = Some(i);
                },
                Some(d) => {
                    if root.depth() > suites[d].root.get().depth() {
                        best = Some(i);
                    }
                },
            }
        }
        proof {
            if let Some(d) = best {
                assert forall|j: int|
                    0 <= j < longer.len() && is_ancestor(#[trigger] longer[j], path@) implies {
                    ||| longer[j].parts.len() < longer[d as int].parts.len()
                    ||| longer[j].parts.len() == longer[d as int].parts.len() && d <= j
                } by {
                    if j < i {
                        assert(longer[j] == all[j]);
                        if kept is Some {
                            assert(is_ancestor(shorter[j], path@));
                        }
                    }
                }
            }
        }
        i += 1;
    }
    assert(all.take(suites.len() as int) =~= all);
    match best {
        None => {
            assert forall|k: int| !is_deepest(path@, all, k) by {
                if 0 <= k < all.len() {
                    assert(!is_ancestor(all[k], path@));
                }
            }
            assert forall|j: int| 0 <= j < suites.len() implies !is_ancestor(
                #[trigger] suites@[j].root@,
                path@,
            ) by {
                assert(all[j] == suites@[j].root@);
            }
        },
        Some(d) => {
            proof {
                lemma_deepest_is(path@, all, d as int);
                assert(is_ancestor(suites@[d as int].root@, path@));
            }
        },
    }
    best
}

/// The suite that owns `path`, if any.
///
/// The suite returned is the deepest of the suites whose root is above
/// `path`, and it is returned only if one of its own patterns matches. A
/// shallower suite is never returned in its place. Where no root is above
/// `path` there is no owner.
pub fn identify<'a>(path: &Path, suites: &'a Vec<Suite>) -> (found: Option<&'a Suite>)
    ensures
        match owner(path@, suites@) {
            Some(i) => 0 <= i < suites.len() && found == Some(&suites@[i]),
            None => found is None,
        },
        (forall|j: int| 0 <= j < suites.len() ==> !is_ancestor(#[trigger] suites@[j].root@, path@))
            ==> found is None,
{
    // No suite was even a close match based on roots.
    let d = match deepest_root(path, suites) {
        Some(d) => d,
        None => {
            return None;
        },
    };
    // We have the closest suite by root; check if any of its paths match.
    let suite = &suites[d];
    if suite.contains_path(path) {
        Some(suite)
    } else {
        None
    }
}

} // verus!
