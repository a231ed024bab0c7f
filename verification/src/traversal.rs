//! What loading a tree of manifests gives, stated over what is on disk.
//!
//! The files are a finite map from a path to what reading the manifest there
//! gives. From a root the manifests are read depth first; the order in which
//! they are read, and the suites gathered along it, are defined here, and the
//! laws of that order are proved.

use crate::config::SuiteView;
use crate::config_loader::{imports, own_suites, skip_seen, FailureView};
use crate::interchange::ManifestView;
use crate::path::PathView;
use vstd::prelude::*;

verus! {

/// What reading a manifest gives.
pub type Outcome = Result<ManifestView, FailureView>;

/// The manifests that can be asked for, each with what reading it gives.
pub type Files = Map<PathView, Outcome>;

/// The reason given for a manifest that is not among the files.
pub open spec fn missing() -> Seq<char> {
    "no such file"@
}

/// What reading the manifest at `path` gives. A path that is not among the
/// files is unreadable.
pub open spec fn outcome_at(files: Files, path: PathView) -> Outcome {
    if files.dom().contains(path) {
        files[path]
    } else {
        Err(FailureView::Unreadable(missing()))
    }
}

/// The paths among the files that were not read yet.
pub open spec fn unread(files: Files, seen: Seq<PathView>) -> Set<PathView> {
    files.dom().difference(seen.to_set())
}

/// The manifests that are read, in order, when those on `stack` are visited
/// from its front and those in `seen` were read before. A manifest that was
/// read is not read again. One that is read puts the manifests it refers to
/// in front of the rest of the stack. One that cannot be had is the last one
/// read.
pub open spec fn visits(files: Files, stack: Seq<PathView>, seen: Seq<PathView>) -> Seq<PathView>
    decreases unread(files, seen).len(), stack.len(),
    when files.dom().finite()
    via visits_decreases
{
    if stack.len() == 0 {
        Seq::empty()
    } else if seen.contains(stack[0]) {
        visits(files, stack.drop_first(), seen)
    } else {
        match outcome_at(files, stack[0]) {
            Err(_) => seq![stack[0]],
            Ok(manifest) => seq![stack[0]] + visits(
                files,
                imports(stack[0], manifest) + stack.drop_first(),
                seen.push(stack[0]),
            ),
        }
    }
}

/// Reading one more manifest of the files leaves fewer unread.
pub proof fn lemma_unread_shrinks(files: Files, seen: Seq<PathView>, path: PathView)
    requires
        files.dom().finite(),
        files.dom().contains(path),
        !seen.contains(path),
    ensures
        unread(files, seen.push(path)).len() < unread(files, seen).len(),
{
    let before = unread(files, seen);
    let after = unread(files, seen.push(path));
    assert(before.contains(path));
    assert forall|p: PathView| after.contains(p) <==> before.remove(path).contains(p) by {
        if seen.push(path).contains(p) && p != path {
            let i = choose|i: int| 0 <= i < seen.push(path).len() && seen.push(path)[i] == p;
            assert(seen[i] == p);
        }
        if seen.contains(p) {
            let i = choose|i: int| 0 <= i < seen.len() && seen[i] == p;
            assert(seen.push(path)[i] == p);
        }
        if p == path {
            assert(seen.push(path)[seen.len() as int] == path);
        }
    }
    assert(after =~= before.remove(path));
}

#[via_fn]
proof fn visits_decreases(files: Files, stack: Seq<PathView>, seen: Seq<PathView>) {
    if stack.len() > 0 && !seen.contains(stack[0]) {
        if outcome_at(files, stack[0]) is Ok {
            lemma_unread_shrinks(files, seen, stack[0]);
        }
    }
}

/// The suites gathered when the manifests in `order` are read one after the
/// other: the suites of each, in the order in which it declares them, behind
/// those of the manifests before it. The first manifest that cannot be had
/// ends the gathering with its path and the failure.
pub open spec fn gathered(files: Files, order: Seq<PathView>) -> Result<
    Seq<SuiteView>,
    (PathView, FailureView),
>
    decreases order.len(),
{
    if order.len() == 0 {
        Ok(Seq::empty())
    } else {
        match gathered(files, order.drop_last()) {
            Err(failed) => Err(failed),
            Ok(before) => match outcome_at(files, order.last()) {
                Err(failure) => Err((order.last(), failure)),
                Ok(manifest) => Ok(before + own_suites(order.last(), manifest)),
            },
        }
    }
}

/// The manifests read when the tree is loaded from `root`, in order.
pub open spec fn load_order(files: Files, root: PathView) -> Seq<PathView> {
    visits(files, seq![root], Seq::empty())
}

/// What loading the tree from `root` gives: the suites of every manifest
/// read, in the order of reading, or the first failure met.
pub open spec fn loaded(files: Files, root: PathView) -> Result<
    Seq<SuiteView>,
    (PathView, FailureView),
> {
    gathered(files, load_order(files, root))
}

/// Manifests that were read before do not count: visiting the stack gives
/// what visiting it without the read manifests at its front gives.
pub proof fn lemma_visits_skip(files: Files, stack: Seq<PathView>, seen: Seq<PathView>)
    requires
        files.dom().finite(),
    ensures
        visits(files, stack, seen) == visits(files, skip_seen(stack, seen), seen),
    decreases stack.len(),
{
    if stack.len() > 0 && seen.contains(stack[0]) {
        lemma_visits_skip(files, stack.drop_first(), seen);
    }
}

/// Gathering along an order that ends in `path`: what was gathered before,
/// then the suites of the manifest at `path`, or the failure there.
pub proof fn lemma_gathered_push(files: Files, order: Seq<PathView>, path: PathView)
    ensures
        gathered(files, order.push(path)) == match gathered(files, order) {
            Err(failed) => Err(failed),
            Ok(before) => match outcome_at(files, path) {
                Err(failure) => Err((path, failure)),
                Ok(manifest) => Ok(before + own_suites(path, manifest)),
            },
        },
{
    assert(order.push(path).drop_last() =~= order);
}

/// What is left of a stack after the read manifests at its front are
/// dropped starts with a manifest that was not read.
pub proof fn lemma_skip_seen_front(stack: Seq<PathView>, seen: Seq<PathView>)
    ensures
        skip_seen(stack, seen).len() > 0 ==> !seen.contains(skip_seen(stack, seen)[0]),
    decreases stack.len(),
{
    if stack.len() > 0 && seen.contains(stack[0]) {
        lemma_skip_seen_front(stack.drop_first(), seen);
    }
}

/// Every manifest in `order` can be had.
pub open spec fn all_readable(files: Files, order: Seq<PathView>) -> bool {
    forall|i: int| 0 <= i < order.len() ==> outcome_at(files, #[trigger] order[i]) is Ok
}

/// Gathering along one order and then another: the suites of the first, then
/// those of the second, or the first failure met.
pub proof fn lemma_gathered_concat(files: Files, first: Seq<PathView>, second: Seq<PathView>)
    ensures
        gathered(files, first + second) == match gathered(files, first) {
            Err(failed) => Err(failed),
            Ok(before) => match gathered(files, second) {
                Err(failed) => Err(failed),
                Ok(after) => Ok(before + after),
            },
        },
    decreases second.len(),
{
    if second.len() == 0 {
        assert(first + second =~= first);
        if let Ok(before) = gathered(files, first) {
            assert(before + Seq::<SuiteView>::empty() =~= before);
        }
    } else {
        let front = second.drop_last();
        assert((first + second).drop_last() =~= first + front);
        assert((first + second).last() == second.last());
        lemma_gathered_concat(files, first, front);
        if let Ok(before) = gathered(files, first) {
            if let Ok(middle) = gathered(files, front) {
                if let Ok(manifest) = outcome_at(files, second.last()) {
                    let own = own_suites(second.last(), manifest);
                    assert((before + middle) + own =~= before + (middle + own));
                }
            }
        }
    }
}

/// Gathering succeeds exactly when every manifest in the order can be had.
pub proof fn lemma_gathered_ok(files: Files, order: Seq<PathView>)
    ensures
        gathered(files, order) is Ok <==> all_readable(files, order),
    decreases order.len(),
{
    if order.len() > 0 {
        let front = order.drop_last();
        lemma_gathered_ok(files, front);
        if all_readable(files, order) {
            assert forall|i: int| 0 <= i < front.len() implies outcome_at(
                files,
                #[trigger] front[i],
            ) is Ok by {
                assert(front[i] == order[i]);
            }
            assert(order[order.len() - 1] == order.last());
        }
        if gathered(files, order) is Ok {
            assert forall|i: int| 0 <= i < order.len() implies outcome_at(
                files,
                #[trigger] order[i],
            ) is Ok by {
                if i < front.len() {
                    assert(front[i] == order[i]);
                }
            }
        }
    }
}

/// A manifest's own suites come first: loading from a root that can be had
/// reads the root, then what the manifests it refers to lead to, and the
/// suites that the root declares stand at the front of what is loaded.
pub proof fn law_own_suites_first(files: Files, root: PathView, manifest: ManifestView)
    requires
        files.dom().finite(),
        outcome_at(files, root) == Ok::<ManifestView, FailureView>(manifest),
    ensures
        load_order(files, root) == seq![root] + visits(
            files,
            imports(root, manifest),
            seq![root],
        ),
        loaded(files, root) matches Ok(suites) ==> {
            let own = own_suites(root, manifest);
            own.len() <= suites.len() && suites.take(own.len() as int) == own
        },
{
    let own = own_suites(root, manifest);
    let stack = seq![root];
    let none = Seq::<PathView>::empty();
    assert(imports(root, manifest) + stack.drop_first() =~= imports(root, manifest));
    assert(none.push(root) =~= seq![root]);
    let later = visits(files, imports(root, manifest), seq![root]);
    assert(load_order(files, root) == seq![root] + later);
    lemma_gathered_concat(files, seq![root], later);
    lemma_gathered_push(files, none, root);
    assert(gathered(files, seq![root]) == Ok::<Seq<SuiteView>, (PathView, FailureView)>(
        Seq::<SuiteView>::empty() + own,
    ));
    assert(Seq::<SuiteView>::empty() + own =~= own);
    if let Ok(suites) = loaded(files, root) {
        let after = gathered(files, later)->Ok_0;
        assert(suites == own + after);
        assert(suites.take(own.len() as int) =~= own);
    }
}

/// Manifests are taken in the order in which they stand: visiting one list
/// of manifests and then another reads what the first list leads to, to its
/// end, and then what the second list leads to once all of that was read.
/// This holds where every manifest that the first list leads to can be had.
pub proof fn law_visits_in_order(
    files: Files,
    first: Seq<PathView>,
    second: Seq<PathView>,
    seen: Seq<PathView>,
)
    requires
        files.dom().finite(),
        all_readable(files, visits(files, first, seen)),
    ensures
        visits(files, first + second, seen) == visits(files, first, seen) + visits(
            files,
            second,
            seen + visits(files, first, seen),
        ),
    decreases unread(files, seen).len(), first.len(),
{
    let none = Seq::<PathView>::empty();
    if first.len() == 0 {
        assert(first + second =~= second);
        assert(seen + none =~= seen);
        assert(none + visits(files, second, seen) =~= visits(files, second, seen));
    } else {
        let path = first[0];
        let rest = first.drop_first();
        assert((first + second)[0] == path);
        assert((first + second).drop_first() =~= rest + second);
        if seen.contains(path) {
            law_visits_in_order(files, rest, second, seen);
        } else {
            let whole = visits(files, first, seen);
            assert(whole[0] == path);
            let manifest = outcome_at(files, path)->Ok_0;
            let subs = imports(path, manifest);
            let inner = visits(files, subs + rest, seen.push(path));
            assert(whole == seq![path] + inner);
            assert forall|i: int| 0 <= i < inner.len() implies outcome_at(
                files,
                #[trigger] inner[i],
            ) is Ok by {
                assert(whole[i + 1] == inner[i]);
            }
            lemma_unread_shrinks(files, seen, path);
            law_visits_in_order(files, subs + rest, second, seen.push(path));
            assert(subs + (rest + second) =~= (subs + rest) + second);
            assert(seen.push(path) + inner =~= seen + whole);
            assert(seq![path] + (inner + visits(files, second, seen + whole)) =~= whole + visits(
                files,
                second,
                seen + whole,
            ));
        }
    }
}

/// No manifest is read twice, and none that was read before is read again.
pub proof fn law_read_once(files: Files, stack: Seq<PathView>, seen: Seq<PathView>)
    requires
        files.dom().finite(),
    ensures
        visits(files, stack, seen).no_duplicates(),
        forall|i: int|
            0 <= i < visits(files, stack, seen).len() ==> !seen.contains(
                #[trigger] visits(files, stack, seen)[i],
            ),
    decreases unread(files, seen).len(), stack.len(),
{
    if stack.len() > 0 {
        let path = stack[0];
        if seen.contains(path) {
            law_read_once(files, stack.drop_first(), seen);
        } else if let Ok(manifest) = outcome_at(files, path) {
            let longer = seen.push(path);
            let inner = visits(files, imports(path, manifest) + stack.drop_first(), longer);
            let whole = visits(files, stack, seen);
            lemma_unread_shrinks(files, seen, path);
            law_read_once(files, imports(path, manifest) + stack.drop_first(), longer);
            assert(whole == seq![path] + inner);
            assert(longer[seen.len() as int] == path);
            assert forall|i: int| 0 <= i < inner.len() implies inner[i] != path && !seen.contains(
                #[trigger] inner[i],
            ) by {
                assert(!longer.contains(inner[i]));
                if seen.contains(inner[i]) {
                    let k = choose|k: int| 0 <= k < seen.len() && seen[k] == inner[i];
                    assert(longer[k] == inner[i]);
                }
            }
            assert forall|i: int| 0 <= i < whole.len() implies !seen.contains(
                #[trigger] whole[i],
            ) by {
                if i > 0 {
                    assert(whole[i] == inner[i - 1]);
                }
            }
            assert forall|i: int, j: int|
                0 <= i < whole.len() && 0 <= j < whole.len() && i != j implies whole[i]
                != whole[j] by {
                if i > 0 {
                    assert(whole[i] == inner[i - 1]);
                }
                if j > 0 {
                    assert(whole[j] == inner[j - 1]);
                }
            }
        } else {
            let whole = visits(files, stack, seen);
            assert(whole == seq![path]);
        }
    }
}

/// A manifest that was read before adds nothing: a reference back to it ends
/// the branch, and the traversal goes on with what is left.
pub proof fn law_seen_is_skipped(
    files: Files,
    path: PathView,
    rest: Seq<PathView>,
    seen: Seq<PathView>,
)
    requires
        files.dom().finite(),
        seen.contains(path),
    ensures
        visits(files, seq![path] + rest, seen) == visits(files, rest, seen),
{
    assert((seq![path] + rest).drop_first() =~= rest);
}

/// Loading succeeds exactly when every manifest that is read can be had, and
/// then gives, for each manifest read, the suites it declares, once, in the
/// order of reading. A cycle among the manifests is no failure.
pub proof fn law_loaded(files: Files, root: PathView)
    requires
        files.dom().finite(),
    ensures
        loaded(files, root) is Ok <==> all_readable(files, load_order(files, root)),
        load_order(files, root).no_duplicates(),
{
    lemma_gathered_ok(files, load_order(files, root));
    law_read_once(files, seq![root], Seq::empty());
}

/// Every path in the list is absolute.
pub open spec fn all_absolute(paths: Seq<PathView>) -> bool {
    forall|i: int| 0 <= i < paths.len() ==> (#[trigger] paths[i]).absolute
}

/// Every suite in the list has an absolute root.
pub open spec fn roots_absolute(suites: Seq<SuiteView>) -> bool {
    forall|i: int| 0 <= i < suites.len() ==> (#[trigger] suites[i]).root.absolute
}

/// Dropping the read manifests at the front of a stack of absolute paths
/// leaves absolute paths.
pub proof fn lemma_skip_seen_absolute(stack: Seq<PathView>, seen: Seq<PathView>)
    requires
        all_absolute(stack),
    ensures
        all_absolute(skip_seen(stack, seen)),
    decreases stack.len(),
{
    if stack.len() > 0 && seen.contains(stack[0]) {
        let rest = stack.drop_first();
        assert forall|i: int| 0 <= i < rest.len() implies (#[trigger] rest[i]).absolute by {
            assert(rest[i] == stack[i + 1]);
        }
        lemma_skip_seen_absolute(rest, seen);
    }
}

/// What a manifest at an absolute path adds is absolute: the manifests it
/// refers to, and the roots of the suites it declares.
pub proof fn lemma_absolute_manifest(path: PathView, manifest: ManifestView)
    requires
        path.absolute,
    ensures
        all_absolute(imports(path, manifest)),
        roots_absolute(own_suites(path, manifest)),
{
}

} // verus!
