//! Loading a tree of manifests into one flat list of suites.
//!
//! A manifest declares suites and may refer to other manifests. Loading walks
//! that graph depth first from a root manifest: the suites of a manifest come
//! first, then what each of the manifests it refers to yields, in the order
//! in which they are declared. A manifest that was already read is skipped,
//! so a cycle ends the branch instead of failing; a manifest that cannot be
//! had ends the whole load.
//!
//! Reading and decoding a file is not done here. The traversal hands out the
//! path of the next manifest and takes back what reading it gave.

use crate::config::{anchored, Suite, SuitePath, SuiteView};
use crate::error::OverlordError;
use crate::interchange::{Manifest, ManifestSuite, ManifestSuiteView, ManifestView};
use crate::path::{is_normal, join, parent, render, Path, PathView};
use crate::util::PathWrapper;
use crate::traversal::{
    all_absolute, gathered, lemma_absolute_manifest, lemma_gathered_push,
    lemma_skip_seen_absolute, lemma_skip_seen_front, lemma_unread_shrinks, lemma_visits_skip,
    load_order, loaded, missing, outcome_at, roots_absolute, unread, visits, Files, Outcome,
};
use vstd::prelude::*;
use vstd::string::StringExecFns;

verus! {

/// Why a manifest could not be had.
#[derive(Debug)]
pub enum LoadFailure {
    /// The file is missing, cannot be read or is not text; with the reason.
    Unreadable(String),
    /// The file does not hold a manifest; with what the decoder said.
    Malformed(String),
}

/// What a failure is.
pub enum FailureView {
    Unreadable(Seq<char>),
    Malformed(Seq<char>),
}

impl View for LoadFailure {
    type V = FailureView;

    open spec fn view(&self) -> FailureView {
        match self {
            LoadFailure::Unreadable(reason) => FailureView::Unreadable(reason@),
            LoadFailure::Malformed(reason) => FailureView::Malformed(reason@),
        }
    }
}

/// The text that reports a failure at `path`: what went wrong, the path in
/// quotes, and the reason.
pub open spec fn failure_message(path: PathView, failure: FailureView) -> Seq<char> {
    match failure {
        FailureView::Unreadable(reason) => "Failed to read file: '"@ + render(path) + "' "@
            + reason,
        FailureView::Malformed(reason) => "Error decoding message for '"@ + render(path) + "' "@
            + reason,
    }
}

/// The error that reports `failure` at the manifest `path`.
pub fn load_error(path: &Path, failure: &LoadFailure) -> (error: OverlordError)
    ensures
        error.message@ == failure_message(path@, failure@),
{
    let shown = path.display();
    let mut message = match failure {
        LoadFailure::Unreadable(_) => String::from_str("Failed to read file: '"),
        LoadFailure::Malformed(_) => String::from_str("Error decoding message for '"),
    };
    message.append(shown.as_str());
    message.append("' ");
    match failure {
        LoadFailure::Unreadable(reason) => message.append(reason.as_str()),
        LoadFailure::Malformed(reason) => message.append(reason.as_str()),
    }
    OverlordError::new(message)
}

/// The suite that `declared` stands for in a manifest whose directory is
/// `root`: the same group and executable, each pattern anchored at `root`.
pub open spec fn resolved_suite(root: PathView, declared: ManifestSuiteView) -> SuiteView {
    SuiteView {
        group: declared.group,
        root,
        paths: declared.paths.map_values(|raw: Seq<char>| anchored(root, raw)),
        executable: declared.executable,
    }
}

/// The suites that the manifest at `path` declares, in the order in which it
/// declares them, each rooted at the directory of `path`.
pub open spec fn own_suites(path: PathView, manifest: ManifestView) -> Seq<SuiteView> {
    manifest.suites.map_values(
        |declared: ManifestSuiteView| resolved_suite(parent(path), declared),
    )
}

/// The manifests that the manifest at `path` refers to, in the order in which
/// it declares them, each resolved against the directory of `path`.
pub open spec fn imports(path: PathView, manifest: ManifestView) -> Seq<PathView> {
    match manifest.manifests {
        Some(list) => list.map_values(|sub: PathView| join(parent(path), sub)),
        None => Seq::empty(),
    }
}

/// What a list of suites is.
pub open spec fn suite_views(suites: Seq<Suite>) -> Seq<SuiteView> {
    suites.map_values(|suite: Suite| suite@)
}

/// What a list of paths is.
pub open spec fn path_views(paths: Seq<Path>) -> Seq<PathView> {
    paths.map_values(|path: Path| path@)
}

/// The suite that `suite` stands for in the manifest at `path`.
pub fn convert_manifest_suite(path: &Path, suite: &ManifestSuite) -> (converted: Suite)
    ensures
        converted@ == resolved_suite(parent(path@), suite@),
{
    let root = PathWrapper::new(path.dir_path());
    let mut paths: Vec<SuitePath> = Vec::new();
    let ghost expected = resolved_suite(parent(path@), suite@).paths;
    let mut i: usize = 0;
    while i < suite.paths.len()
        invariant
            i <= suite.paths.len(),
            root@ == parent(path@),
            expected == suite@.paths.map_values(|raw: Seq<char>| anchored(parent(path@), raw)),
            crate::config::pattern_texts(paths@) == expected.take(i as int),
        decreases suite.paths.len() - i,
    {
        let anchored_path = SuitePath::new(&root, suite.paths[i].clone());
        paths.push(anchored_path);
        assert(crate::config::pattern_texts(paths@) =~= expected.take(i as int).push(
            anchored_path.path@,
        ));
        assert(expected.take(i + 1) =~= expected.take(i as int).push(expected[i as int]));
        i += 1;
    }
    assert(expected.take(suite.paths.len() as int) =~= expected);
    Suite {
        group: suite.group.clone(),
        root,
        paths,
        executable: suite.executable.clone(),
    }
}

/// What the state of a traversal is.
pub struct ImportView {
    /// The manifests still to visit, the next one first.
    pub stack: Seq<PathView>,
    /// The manifests read so far, in the order in which they were read.
    pub order: Seq<PathView>,
    /// The suites gathered so far.
    pub suites: Seq<SuiteView>,
}

/// What a traversal that waits for a manifest is.
pub struct PendingView {
    /// The state, in which `path` already counts as read.
    pub state: ImportView,
    /// The manifest that is waited for.
    pub path: PathView,
}

/// `stack` without the entries at its front that were already read.
pub open spec fn skip_seen(stack: Seq<PathView>, order: Seq<PathView>) -> Seq<PathView>
    decreases stack.len(),
{
    if stack.len() > 0 && order.contains(stack[0]) {
        skip_seen(stack.drop_first(), order)
    } else {
        stack
    }
}

/// A sequence from its last entry to its first.
pub open spec fn backwards<T>(items: Seq<T>) -> Seq<T> {
    Seq::new(items.len(), |i: int| items[items.len() - 1 - i])
}

/// A traversal of the manifest graph, between two manifests.
pub struct Import {
    /// The manifests still to visit; the next one is the last entry.
    pending: Vec<Path>,
    /// The manifests read so far, without repeats.
    seen: Vec<Path>,
    /// The suites gathered so far.
    suites: Vec<Suite>,
}

/// A traversal that has handed out the path of a manifest and waits for what
/// reading it gives.
pub struct Pending {
    state: Import,
    path: Path,
}

/// What a traversal does next.
pub enum Progress {
    /// The manifest at the path of the pending traversal is to be read.
    Read(Pending),
    /// Every manifest was visited; these are the suites.
    Done(Vec<Suite>),
}

impl View for Import {
    type V = ImportView;

    closed spec fn view(&self) -> ImportView {
        ImportView {
            stack: backwards(path_views(self.pending@)),
            order: path_views(self.seen@),
            suites: suite_views(self.suites@),
        }
    }
}

impl View for Pending {
    type V = PendingView;

    closed spec fn view(&self) -> PendingView {
        PendingView { state: self.state@, path: self.path@ }
    }
}

/// Whether `path` is among `seen`.
fn was_seen(seen: &Vec<Path>, path: &Path) -> (yes: bool)
    ensures
        yes == path_views(seen@).contains(path@),
{
    let ghost views = path_views(seen@);
    let mut i: usize = 0;
    while i < seen.len()
        invariant
            i <= seen.len(),
            views == path_views(seen@),
            forall|j: int| 0 <= j < i ==> views[j] != path@,
        decreases seen.len() - i,
    {
        if seen[i] == *path {
            assert(views[i as int] == path@);
            return true;
        }
        i += 1;
    }
    false
}

impl Import {
    /// A traversal that has `root` to visit and has read nothing yet.
    pub fn new(root: Path) -> (state: Import)
        ensures
            state@ == (ImportView {
                stack: seq![root@],
                order: Seq::empty(),
                suites: Seq::empty(),
            }),
    {
        let mut pending: Vec<Path> = Vec::new();
        pending.push(root);
        let state = Import { pending, seen: Vec::new(), suites: Vec::new() };
        assert(state@.stack =~= seq![root@]);
        assert(state@.order =~= Seq::empty());
        assert(state@.suites =~= Seq::empty());
        state
    }

    /// What to do next. Manifests that were already read are dropped from the
    /// front of what is left to visit. If nothing is left the traversal is
    /// done and gives its suites; else the first manifest left counts as read
    /// from now on and is to be read.
    pub fn next(self) -> (progress: Progress)
        ensures
            ({
                let rest = skip_seen(self@.stack, self@.order);
                if rest.len() == 0 {
                    progress matches Progress::Done(suites) && suite_views(suites@)
                        == self@.suites
                } else {
                    progress matches Progress::Read(pending) && pending@ == (PendingView {
                        state: ImportView {
                            stack: rest.drop_first(),
                            order: self@.order.push(rest[0]),
                            suites: self@.suites,
                        },
                        path: rest[0],
                    })
                }
            }),
    {
        let ghost before = self@;
        let mut state = self;
        loop
            invariant
                before == self@,
                state@.order == before.order,
                state@.suites == before.suites,
                skip_seen(state@.stack, before.order) == skip_seen(before.stack, before.order),
            decreases state.pending.len(),
        {
            let ghost stack = state@.stack;
            let ghost held = path_views(state.pending@);
            match state.pending.pop() {
                None => {
                    assert(stack.len() == 0);
                    assert(skip_seen(stack, before.order) == stack);
                    return Progress::Done(state.suites);
                },
                Some(path) => {
                    assert(stack[0] == path@) by {
                        assert(held[held.len() - 1] == path@);
                    }
                    assert(state@.stack =~= stack.drop_first()) by {
                        assert(path_views(state.pending@) =~= held.drop_last());
                    }
                    if !was_seen(&state.seen, &path) {
                        let ghost seen_before = path_views(state.seen@);
                        state.seen.push(path.clone());
                        assert(path_views(state.seen@) =~= seen_before.push(path@));
                        assert(skip_seen(stack, before.order) == stack);
                        assert(state@.stack == stack.drop_first());
                        assert(state@.order == before.order.push(path@));
                        let pending = Pending { state, path };
                        assert(pending@.state == state@);
                        return Progress::Read(pending);
                    }
                    assert(skip_seen(stack, before.order) == skip_seen(
                        stack.drop_first(),
                        before.order,
                    ));
                },
            }
        }
    }
}

impl Pending {
    /// The manifest that is to be read.
    pub fn path(&self) -> (path: &Path)
        ensures
            path@ == self@.path,
    {
        &self.path
    }

    /// Takes what reading the manifest gave. A failure ends the load with the
    /// error that reports it. A manifest adds its suites behind those
    /// gathered so far and puts the manifests it refers to, in the order in
    /// which it declares them, in front of what is left to visit.
    pub fn supply(self, outcome: &Result<Manifest, LoadFailure>) -> (next: Result<
        Import,
        OverlordError,
    >)
        ensures
            match outcome {
                Ok(manifest) => next matches Ok(state) && state@ == (ImportView {
                    stack: imports(self@.path, manifest@) + self@.state.stack,
                    order: self@.state.order,
                    suites: self@.state.suites + own_suites(self@.path, manifest@),
                }),
                Err(failure) => next matches Err(error) && error.message@ == failure_message(
                    self@.path,
                    failure@,
                ),
            },
    {
        let Pending { state, path } = self;
        match outcome {
            Err(failure) => Err(load_error(&path, failure)),
            Ok(manifest) => {
                let Import { pending, seen, suites } = state;
                let mut pending = pending;
                let mut suites = suites;
                let ghost stack_before = backwards(path_views(pending@));
                let ghost suites_before = suite_views(suites@);
                let ghost own = own_suites(path@, manifest@);
                let ghost subs = imports(path@, manifest@);
                let mut i: usize = 0;
                assert(suite_views(suites@) =~= suites_before + own.take(0));
                while i < manifest.suites.len()
                    invariant
                        i <= manifest.suites.len(),
                        own == own_suites(path@, manifest@),
                        suite_views(suites@) == suites_before + own.take(i as int),
                    decreases manifest.suites.len() - i,
                {
                    let ghost gathered = suite_views(suites@);
                    let converted = convert_manifest_suite(&path, &manifest.suites[i]);
                    suites.push(converted);
                    assert(suite_views(suites@) =~= gathered.push(converted@));
                    assert(own.take(i + 1) =~= own.take(i as int).push(own[i as int]));
                    assert(suite_views(suites@) =~= suites_before + own.take(i + 1));
                    i += 1;
                }
                assert(own.take(manifest.suites.len() as int) =~= own);
                match &manifest.manifests {
                    None => {
                        assert(subs + stack_before =~= stack_before);
                    },
                    Some(list) => {
                        let dir = path.dir_path();
                        let mut k: usize = list.len();
                        assert(subs.skip(k as int) + stack_before =~= stack_before);
                        while k > 0
                            invariant
                                k <= list.len(),
                                dir@ == parent(path@),
                                manifest.manifests == Some(*list),
                                subs == imports(path@, manifest@),
                                subs.len() == list.len(),
                                backwards(path_views(pending@)) == subs.skip(k as int)
                                    + stack_before,
                            decreases k,
                        {
                            let ghost held = path_views(pending@);
                            k -= 1;
                            let sub = dir.join(&list[k]);
                            assert(sub@ == subs[k as int]);
                            pending.push(sub);
                            assert(path_views(pending@) =~= held.push(sub@));
                            assert(backwards(path_views(pending@)) =~= subs.skip(k as int)
                                + stack_before) by {
                                let now = backwards(path_views(pending@));
                                let was = backwards(held);
                                assert(now.len() == was.len() + 1);
                                assert(now[0] == sub@);
                                assert forall|j: int| 1 <= j < now.len() implies now[j] == was[j
                                    - 1] by {}
                                assert(subs.skip(k as int) =~= seq![subs[k as int]] + subs.skip(
                                    k + 1,
                                ));
                            }
                        }
                        assert(subs.skip(0) =~= subs);
                    },
                }
                Ok(Import { pending, seen, suites })
            },
        }
    }
}

/// A manifest file held in memory: its path and what reading it gives.
#[derive(Debug)]
pub struct ManifestFile {
    pub path: Path,
    pub content: Result<Manifest, LoadFailure>,
}

/// What reading a manifest gave.
pub open spec fn outcome_view(content: Result<Manifest, LoadFailure>) -> Outcome {
    match content {
        Ok(manifest) => Ok(manifest@),
        Err(failure) => Err(failure@),
    }
}

/// The files that a table stands for. Of two entries with the same path the
/// earlier one counts.
pub open spec fn files_of(table: Seq<ManifestFile>) -> Files
    decreases table.len(),
{
    if table.len() == 0 {
        Map::empty()
    } else {
        files_of(table.drop_first()).insert(table[0].path@, outcome_view(table[0].content))
    }
}

/// A table stands for finitely many files.
pub proof fn lemma_files_finite(table: Seq<ManifestFile>)
    ensures
        files_of(table).dom().finite(),
    decreases table.len(),
{
    if table.len() > 0 {
        lemma_files_finite(table.drop_first());
    }
}

/// The first entry of a table with a given path is what the files hold there.
pub proof fn lemma_files_first(table: Seq<ManifestFile>, path: PathView, i: int)
    requires
        0 <= i < table.len(),
        table[i].path@ == path,
        forall|j: int| 0 <= j < i ==> (#[trigger] table[j]).path@ != path,
    ensures
        files_of(table).dom().contains(path),
        files_of(table)[path] == outcome_view(table[i].content),
    decreases table.len(),
{
    if i > 0 {
        let rest = table.drop_first();
        assert(rest[i - 1] == table[i]);
        assert forall|j: int| 0 <= j < i - 1 implies (#[trigger] rest[j]).path@ != path by {
            assert(rest[j] == table[j + 1]);
        }
        lemma_files_first(rest, path, i - 1);
        assert(table[0].path@ != path);
    }
}

/// A path that no entry of a table has is not among the files.
pub proof fn lemma_files_absent(table: Seq<ManifestFile>, path: PathView)
    requires
        forall|j: int| 0 <= j < table.len() ==> (#[trigger] table[j]).path@ != path,
    ensures
        !files_of(table).dom().contains(path),
    decreases table.len(),
{
    if table.len() > 0 {
        let rest = table.drop_first();
        assert forall|j: int| 0 <= j < rest.len() implies (#[trigger] rest[j]).path@ != path by {
            assert(rest[j] == table[j + 1]);
        }
        lemma_files_absent(rest, path);
        assert(table[0].path@ != path);
    }
}

/// The first entry of `table` with the path `path`.
fn find_file<'a>(table: &'a Vec<ManifestFile>, path: &Path) -> (found: Option<&'a ManifestFile>)
    ensures
        match found {
            Some(file) => files_of(table@).dom().contains(path@) && files_of(table@)[path@]
                == outcome_view(file.content),
            None => !files_of(table@).dom().contains(path@),
        },
{
    let mut i: usize = 0;
    while i < table.len()
        invariant
            i <= table.len(),
            forall|j: int| 0 <= j < i ==> (#[trigger] table@[j]).path@ != path@,
        decreases table.len() - i,
    {
        if table[i].path == *path {
            proof {
                lemma_files_first(table@, path@, i as int);
            }
            return Some(&table[i]);
        }
        i += 1;
    }
    proof {
        lemma_files_absent(table@, path@);
    }
    None
}

/// Loads the tree of manifests whose root manifest is `path`, seen from the
/// working directory `cwd`, out of the files in `table`.
///
/// The result is the suites of every manifest read, in the order of reading:
/// depth first, the suites of a manifest before those of the manifests it
/// refers to, and those in the order in which they are declared. A manifest
/// is read once, so a cycle does not fail the load. The first manifest that
/// cannot be had fails it, with the error that reports the failure; a
/// manifest that `table` does not hold is unreadable.
pub fn import(path: Path, cwd: &Path, table: &Vec<ManifestFile>) -> (result: Result<
    Vec<Suite>,
    OverlordError,
>)
    ensures
        match loaded(files_of(table@), join(cwd@, path@)) {
            Ok(suites) => result matches Ok(list) && suite_views(list@) == suites,
            Err((at, failure)) => result matches Err(error) && error.message@
                == failure_message(at, failure),
        },
        cwd@.absolute ==> (result matches Ok(list) ==> roots_absolute(suite_views(list@))),
{
    let root = cwd.join(&path);
    let ghost files = files_of(table@);
    let ghost total = load_order(files, root@);
    let absent: Result<Manifest, LoadFailure> = Err(
        LoadFailure::Unreadable(String::from_str("no such file")),
    );
    let mut state = Import::new(root);
    proof {
        lemma_files_finite(table@);
        assert(state@.order + visits(files, state@.stack, state@.order) =~= total);
    }
    loop
        invariant
            cwd@.absolute ==> all_absolute(state@.stack) && roots_absolute(state@.suites),
            files == files_of(table@),
            files.dom().finite(),
            total == load_order(files, join(cwd@, path@)),
            total == state@.order + visits(files, state@.stack, state@.order),
            gathered(files, state@.order) == Ok::<Seq<SuiteView>, (PathView, FailureView)>(
                state@.suites,
            ),
            outcome_view(absent) == Err::<ManifestView, FailureView>(
                FailureView::Unreadable(missing()),
            ),
        decreases unread(files, state@.order).len(),
    {
        let ghost before = state@;
        let ghost rest = skip_seen(before.stack, before.order);
        proof {
            lemma_visits_skip(files, before.stack, before.order);
            if cwd@.absolute {
                lemma_skip_seen_absolute(before.stack, before.order);
            }
        }
        match state.next() {
            Progress::Done(suites) => {
                assert(total =~= before.order);
                return Ok(suites);
            },
            Progress::Read(pending) => {
                let ghost at = pending@.path;
                let ghost order = before.order.push(at);
                proof {
                    lemma_skip_seen_front(before.stack, before.order);
                    lemma_gathered_push(files, before.order, at);
                }
                let outcome = match find_file(table, pending.path()) {
                    Some(file) => &file.content,
                    None => &absent,
                };
                assert(outcome_view(*outcome) == outcome_at(files, at));
                match pending.supply(outcome) {
                    Ok(next) => {
                        proof {
                            if cwd@.absolute {
                                let manifest = outcome_at(files, at)->Ok_0;
                                assert(at == rest[0]);
                                lemma_absolute_manifest(at, manifest);
                                assert(all_absolute(rest.drop_first())) by {
                                    assert forall|i: int|
                                        0 <= i < rest.drop_first().len() implies (
                                    #[trigger] rest.drop_first()[i]).absolute by {
                                        assert(rest.drop_first()[i] == rest[i + 1]);
                                    }
                                }
                            }
                            lemma_unread_shrinks(files, before.order, at);
                            assert(total =~= next@.order + visits(
                                files,
                                next@.stack,
                                next@.order,
                            ));
                        }
                        state = next;
                    },
                    Err(error) => {
                        assert(total =~= order);
                        return Err(error);
                    },
                }
            },
        }
    }
}

} // verus!
