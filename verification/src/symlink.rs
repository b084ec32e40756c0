//! The link engine: home expansion, turning a configured entry into link tasks,
//! choosing dead links to prune, and planning the filesystem changes that make
//! one link.
use vstd::prelude::*;
use crate::error::{ErrorView, RsmError};
use crate::ignore::{collect_ignores, ignored_by, is_ignored};
use crate::path::{
    chars_of, components, components_of, file_name, file_name_of, has_root, join, join_path,
    lemma_join_injective, lemma_join_under, lemma_starts_with_self, lemma_tilde_component,
    lemma_tilde_rest_nonempty, lemma_trimmed_not_rooted, path_starts_with, starts_with_path,
    trim_bounds, trim_ends, views,
};

verus! {

/// One link to make: `target` becomes a symlink to `source`.
#[derive(Debug, Clone, PartialEq, Eq)]
pub struct SyncTask {
    /// The absolute path the link points to.
    pub source: String,
    /// Where the link is made.
    pub target: String,
}

impl View for SyncTask {
    type V = (Seq<char>, Seq<char>);

    open spec fn view(&self) -> (Seq<char>, Seq<char>) {
        (self.source@, self.target@)
    }
}

/// The views of a sequence of tasks.
pub open spec fn task_views(v: Seq<SyncTask>) -> Seq<(Seq<char>, Seq<char>)> {
    v.map_values(|t: SyncTask| t@)
}

proof fn lemma_task_views_push(v: Seq<SyncTask>, t: SyncTask)
    ensures
        task_views(v.push(t)) == task_views(v).push(t@),
{
    assert(task_views(v.push(t)) =~= task_views(v).push(t@));
}

// ---------------------------------------------------------------------------
// Home expansion
// ---------------------------------------------------------------------------
/// The path's first component is `~`.
pub open spec fn is_tilde_path(p: Seq<char>) -> bool {
    p.len() > 0 && p[0] == '~' && (p.len() == 1 || p[1] == '/')
}

/// What follows `~` in a tilde path, without separators or `.` pieces at its
/// ends.
pub open spec fn tilde_rest(p: Seq<char>) -> Seq<char> {
    trim_ends(p.drop_first())
}

/// `p` with a leading `~` replaced by `home`; other paths are unchanged.
pub open spec fn expand_with_home(p: Seq<char>, home: Seq<char>) -> Seq<char> {
    if !is_tilde_path(p) {
        p
    } else if tilde_rest(p).len() == 0 {
        home
    } else {
        join(home, tilde_rest(p))
    }
}

/// The user's home directory from `directories::BaseDirs::new` and its
/// `home_dir`, converted lossily to a string. It depends on the environment
/// (`$HOME`, the password database), so the contract claims only what the
/// crate's source shows of every outcome: a home directory is never empty.
#[verifier::external_body]
pub(crate) fn user_home_dir() -> (r: Option<String>)
    ensures
        r matches Some(h) ==> h@.len() > 0,
{
    directories::BaseDirs::new().map(|dirs| dirs.home_dir().to_string_lossy().into_owned())
}

/// `path` with a leading `~` replaced by `home` (empty when no home is known).
pub fn expand_tilde_with(path: &str, home: &str) -> (r: String)
    ensures
        r@ == expand_with_home(path@, home@),
{
    let cs = chars_of(path);
    let n = cs.len();
    if !(n > 0 && cs[0] == '~' && (n == 1 || cs[1] == '/')) {
        return path.to_owned();
    }
    let (a, b) = trim_bounds(&cs, 1, n);
    assert(cs@.subrange(1, n as int) =~= path@.drop_first());
    if a == b {
        return home.to_owned();
    }
    let rest = path.substring_char(a, b);
    join_path(home, rest)
}

/// `path` with a leading `~` replaced by the user's home directory (or by
/// nothing when the system has none); other paths are returned unchanged.
pub fn expand_tilde(path: &str) -> (r: String)
    ensures
        !is_tilde_path(path@) ==> r@ == path@,
        is_tilde_path(path@) ==> exists|home: Seq<char>|
            r@ == #[trigger] expand_with_home(path@, home),
{
    let cs = chars_of(path);
    let n = cs.len();
    if !(n > 0 && cs[0] == '~' && (n == 1 || cs[1] == '/')) {
        return path.to_owned();
    }
    let home = match user_home_dir() {
        Some(h) => h,
        None => String::new(),
    };
    let r = expand_tilde_with(path, home.as_str());
    assert(r@ == expand_with_home(path@, home@));
    r
}

/// Home expansion in terms of components: a path whose first component is
/// `~` becomes the home directory, followed by what comes after the `~` when
/// the path has more than one component; any other path is unchanged.
pub proof fn lemma_expand_follows_components(p: Seq<char>, home: Seq<char>)
    ensures
        expand_with_home(p, home) == (if !path_starts_with(p, seq!['~']) {
            p
        } else if components(p).len() <= 1 {
            home
        } else {
            join(home, tilde_rest(p))
        }),
{
    lemma_tilde_component(p);
    if is_tilde_path(p) {
        lemma_tilde_rest_nonempty(p);
    }
}

/// With a home directory that is not empty and does not itself start with a
/// `~` component, expansion leaves no `~` behind: expanding twice is
/// expanding once.
pub proof fn lemma_expand_idempotent(p: Seq<char>, home: Seq<char>)
    requires
        home.len() > 0,
        !is_tilde_path(home),
    ensures
        expand_with_home(expand_with_home(p, home), home) == expand_with_home(p, home),
        !is_tilde_path(expand_with_home(p, home)),
{
    if is_tilde_path(p) && tilde_rest(p).len() > 0 {
        let rest = tilde_rest(p);
        if !has_root(rest) {
            if home.last() == '/' {
                let r = home + rest;
                assert(r[0] == home[0]);
                if home.len() >= 2 {
                    assert(r[1] == home[1]);
                }
            } else {
                let r = home + seq!['/'] + rest;
                assert(r[0] == home[0]);
                if home.len() >= 2 {
                    assert(r[1] == home[1]);
                }
            }
        }
    }
}

// ---------------------------------------------------------------------------
// Resolving an entry into tasks
// ---------------------------------------------------------------------------
/// A file met while walking a source directory, with its canonical path when
/// that could be resolved.
#[derive(Debug, Clone)]
pub struct ScannedFile {
    pub path: String,
    pub canonical: Option<String>,
}

/// What the filesystem showed of an entry's source.
#[derive(Debug, Clone)]
pub enum SourceScan {
    /// The source does not exist.
    Missing,
    /// The source is a directory linked recursively: the files met while
    /// walking it, in walk order.
    Tree(Vec<ScannedFile>),
    /// The source is linked itself: its canonical path when that could be
    /// resolved, and whether it is a directory.
    Single { canonical: Option<String>, is_dir: bool },
}

/// How an entry's source is to be looked at.
#[derive(Debug, Clone, Copy, PartialEq, Eq, Structural)]
pub enum ScanMode {
    Missing,
    Tree,
    Single,
}

/// A source is walked when it exists, is a directory and the entry is
/// recursive; any other existing source is linked itself.
pub fn scan_mode(exists: bool, recursive: bool, is_dir: bool) -> (r: ScanMode)
    ensures
        !exists ==> r == ScanMode::Missing,
        exists && recursive && is_dir ==> r == ScanMode::Tree,
        exists && !(recursive && is_dir) ==> r == ScanMode::Single,
{
    if !exists {
        ScanMode::Missing
    } else if recursive && is_dir {
        ScanMode::Tree
    } else {
        ScanMode::Single
    }
}

/// The name a directory walk gives its root: its file name, or the whole path
/// when it has none.
pub open spec fn walk_name(root: Seq<char>) -> Seq<char> {
    match file_name(root) {
        Some(n) => n,
        None => root,
    }
}

/// `path` lies under `root` as a walk builds paths: `root` followed by nothing
/// or by a separator.
pub open spec fn under_root(root: Seq<char>, path: Seq<char>) -> bool {
    &&& root.len() <= path.len()
    &&& path.take(root.len() as int) == root
    &&& (path.len() == root.len() || (root.len() > 0 && root.last() == '/') || path[root.len() as int]
        == '/')
}

/// Whether `path` lies under `root` as a walk builds paths.
pub fn walked_under(root: &str, path: &str) -> (r: bool)
    ensures
        r == under_root(root@, path@),
{
    let rc = chars_of(root);
    let pc = chars_of(path);
    if rc.len() > pc.len() {
        return false;
    }
    let mut i: usize = 0;
    while i < rc.len()
        invariant
            rc@ == root@,
            pc@ == path@,
            rc@.len() <= pc@.len(),
            i <= rc@.len(),
            forall|j: int| 0 <= j < i ==> rc@[j] == pc@[j],
        decreases rc@.len() - i,
    {
        if rc[i] != pc[i] {
            assert(path@.take(root@.len() as int)[i as int] != root@[i as int]);
            return false;
        }
        i = i + 1;
    }
    assert(path@.take(root@.len() as int) =~= root@);
    let n = rc.len();
    n == pc.len() || (n > 0 && rc[n - 1] == '/') || pc[n] == '/'
}

/// `path` relative to `root`.
pub open spec fn rel_path(root: Seq<char>, path: Seq<char>) -> Seq<char> {
    trim_ends(path.skip(root.len() as int))
}

/// The walk reaches `path`: neither the root's name nor any name on the way
/// from the root to `path` is ignored. The root and every name before the
/// last are directories; the last name is the file itself.
pub open spec fn visible(root: Seq<char>, path: Seq<char>, ignores: Seq<Seq<char>>) -> bool {
    let names = components(rel_path(root, path));
    &&& !ignored_by(walk_name(root), true, ignores)
    &&& forall|i: int|
        0 <= i < names.len() ==> !ignored_by(#[trigger] names[i], i < names.len() - 1, ignores)
}

/// The tasks of a walked directory: each visible file, in walk order, links
/// `target/rel` to its canonical path; the first visible file without one is
/// an error.
pub open spec fn tree_result(
    root: Seq<char>,
    target: Seq<char>,
    ignores: Seq<Seq<char>>,
    files: Seq<ScannedFile>,
) -> Result<Seq<(Seq<char>, Seq<char>)>, ErrorView>
    decreases files.len(),
{
    if files.len() == 0 {
        Ok(Seq::empty())
    } else {
        let f = files.last();
        match tree_result(root, target, ignores, files.drop_last()) {
            Err(e) => Err(e),
            Ok(ts) => if !visible(root, f.path@, ignores) {
                Ok(ts)
            } else {
                match f.canonical {
                    None => Err(ErrorView::PathResolution(f.path@)),
                    Some(c) => Ok(ts.push((c@, join(target, rel_path(root, f.path@))))),
                }
            },
        }
    }
}

/// The task of a source linked itself: none when its name is ignored, else
/// `target` to its canonical path, an error when there is none.
pub open spec fn single_result(
    root: Seq<char>,
    target: Seq<char>,
    ignores: Seq<Seq<char>>,
    canonical: Option<String>,
    is_dir: bool,
) -> Result<Seq<(Seq<char>, Seq<char>)>, ErrorView> {
    if ignored_by(file_name(root)->0, is_dir, ignores) {
        Ok(Seq::empty())
    } else {
        match canonical {
            None => Err(ErrorView::PathResolution(root)),
            Some(c) => Ok(seq![(c@, target)]),
        }
    }
}

/// The tasks of an entry, given what the filesystem showed of its source.
pub open spec fn resolve_result(
    root: Seq<char>,
    target: Seq<char>,
    ignores: Seq<Seq<char>>,
    scan: SourceScan,
) -> Result<Seq<(Seq<char>, Seq<char>)>, ErrorView> {
    match scan {
        SourceScan::Missing => Err(ErrorView::SourceMissing(root)),
        SourceScan::Tree(files) => tree_result(root, target, ignores, files@),
        SourceScan::Single { canonical, is_dir } => single_result(
            root,
            target,
            ignores,
            canonical,
            is_dir,
        ),
    }
}

/// A result of tasks as plain values.
pub open spec fn tasks_result_view(r: Result<Vec<SyncTask>, RsmError>) -> Result<
    Seq<(Seq<char>, Seq<char>)>,
    ErrorView,
> {
    match r {
        Ok(v) => Ok(task_views(v@)),
        Err(e) => Err(e@),
    }
}

/// The scan is one that the source path allows: a walked file lies under the
/// source, and a source linked itself has a file name.
pub open spec fn scan_fits(root: Seq<char>, scan: SourceScan) -> bool {
    match scan {
        SourceScan::Missing => true,
        SourceScan::Tree(files) => forall|i: int|
            0 <= i < files@.len() ==> under_root(root, #[trigger] files@[i].path@),
        SourceScan::Single { .. } => file_name(root) is Some,
    }
}

/// An error, once met, is the outcome of the whole walk.
proof fn lemma_tree_error_stays(
    root: Seq<char>,
    target: Seq<char>,
    ignores: Seq<Seq<char>>,
    files: Seq<ScannedFile>,
    k: int,
)
    requires
        0 <= k <= files.len(),
        tree_result(root, target, ignores, files.take(k)) is Err,
    ensures
        tree_result(root, target, ignores, files) == tree_result(root, target, ignores, files.take(k)),
    decreases files.len() - k,
{
    if k < files.len() {
        assert(files.take(k + 1).drop_last() =~= files.take(k));
        lemma_tree_error_stays(root, target, ignores, files, k + 1);
    } else {
        assert(files.take(k) =~= files);
    }
}

/// The name a walk gives its root.
fn walk_name_of(root: &str) -> (r: String)
    ensures
        r@ == walk_name(root@),
{
    match file_name_of(root) {
        Some(n) => n,
        None => root.to_owned(),
    }
}

/// `path` relative to `root`.
fn relative_to(root: &str, path: &str) -> (r: String)
    requires
        root@.len() <= path@.len(),
    ensures
        r@ == rel_path(root@, path@),
{
    let cs = chars_of(path);
    let start = root.unicode_len();
    let (a, b) = trim_bounds(&cs, start, cs.len());
    assert(cs@.subrange(start as int, cs@.len() as int) =~= path@.skip(start as int));
    path.substring_char(a, b).to_owned()
}

/// Whether the walk reaches `path`.
fn is_visible(root: &str, root_name: &String, path: &str, ignores: &Vec<String>) -> (r: bool)
    requires
        root_name@ == walk_name(root@),
        root@.len() <= path@.len(),
    ensures
        r == visible(root@, path@, views(ignores@)),
{
    if is_ignored(root_name.as_str(), true, ignores) {
        return false;
    }
    let rel = relative_to(root, path);
    let comps = components_of(rel.as_str());
    let mut i: usize = 0;
    while i < comps.len()
        invariant
            i <= comps@.len(),
            views(comps@) == components(rel_path(root@, path@)),
            forall|j: int|
                0 <= j < i ==> !ignored_by(
                    #[trigger] components(rel_path(root@, path@))[j],
                    j < comps@.len() - 1,
                    views(ignores@),
                ),
        decreases comps@.len() - i,
    {
        assert(views(comps@)[i as int] == comps@[i as int]@);
        if is_ignored(comps[i].as_str(), i + 1 < comps.len(), ignores) {
            return false;
        }
        i = i + 1;
    }
    true
}

/// The tasks of a walked directory.
fn tree_tasks(root: &str, target: &str, ignores: &Vec<String>, files: &Vec<ScannedFile>) -> (r:
    Result<Vec<SyncTask>, RsmError>)
    requires
        forall|i: int| 0 <= i < files@.len() ==> under_root(root@, #[trigger] files@[i].path@),
    ensures
        tasks_result_view(r) == tree_result(root@, target@, views(ignores@), files@),
{
    let root_name = walk_name_of(root);
    let mut out: Vec<SyncTask> = Vec::new();
    let mut i: usize = 0;
    assert(files@.take(0) =~= Seq::<ScannedFile>::empty());
    assert(task_views(out@) =~= Seq::<(Seq<char>, Seq<char>)>::empty());
    while i < files.len()
        invariant
            i <= files@.len(),
            root_name@ == walk_name(root@),
            forall|j: int| 0 <= j < files@.len() ==> under_root(root@, #[trigger] files@[j].path@),
            tree_result(root@, target@, views(ignores@), files@.take(i as int)) == Ok::<
                Seq<(Seq<char>, Seq<char>)>,
                ErrorView,
            >(task_views(out@)),
        decreases files@.len() - i,
    {
        let f = &files[i];
        assert(under_root(root@, files@[i as int].path@));
        assert(files@.take(i + 1).drop_last() =~= files@.take(i as int));
        assert(files@.take(i + 1).last() == files@[i as int]);
        if is_visible(root, &root_name, f.path.as_str(), ignores) {
            match &f.canonical {
                None => {
                    proof {
                        lemma_tree_error_stays(
                            root@,
                            target@,
                            views(ignores@),
                            files@,
                            i + 1,
                        );
                    }
                    return Err(RsmError::PathResolution(f.path.clone()));
                },
                Some(c) => {
                    let rel = relative_to(root, f.path.as_str());
                    let t = SyncTask { source: c.clone(), target: join_path(target, rel.as_str()) };
                    proof {
                        lemma_task_views_push(out@, t);
                    }
                    out.push(t);
                },
            }
        }
        i = i + 1;
    }
    assert(files@.take(files@.len() as int) =~= files@);
    Ok(out)
}

/// The tasks of one configured entry, given its expanded source and target
/// paths, the global and the entry's own ignore lists, and what the
/// filesystem showed of the source.
///
/// A missing source is an error. A walked directory gives a task for each
/// file that the walk reaches without passing an ignored name, linking the
/// same relative path under the target to the file's canonical path. A source
/// linked itself gives one task unless its name is ignored. A file whose
/// canonical path could not be resolved is an error.
///
/// Every task's target lies under `target`, and when the walked files have
/// distinct paths relative to the source, no two tasks share a target.
pub fn resolve_tasks(
    source: &str,
    target: &str,
    global_ignores: &Vec<String>,
    local_ignores: &Vec<String>,
    scan: &SourceScan,
) -> (r: Result<Vec<SyncTask>, RsmError>)
    requires
        scan_fits(source@, *scan),
    ensures
        tasks_result_view(r) == resolve_result(
            source@,
            target@,
            views(global_ignores@) + views(local_ignores@),
            *scan,
        ),
        r is Ok ==> forall|k: int|
            0 <= k < r->Ok_0@.len() ==> path_starts_with(
                #[trigger] r->Ok_0@[k].target@,
                target@,
            ),
        r is Ok && scan_rels_distinct(source@, *scan) ==> forall|i: int, j: int|
            0 <= i < j < r->Ok_0@.len() ==> #[trigger] r->Ok_0@[i].target@
                != #[trigger] r->Ok_0@[j].target@,
{
    let r = resolve_scan(source, target, global_ignores, local_ignores, scan);
    proof {
        if r is Ok {
            let ts = r->Ok_0@;
            let tv = task_views(ts);
            lemma_resolve_targets(
                source@,
                target@,
                views(global_ignores@) + views(local_ignores@),
                *scan,
                tv,
            );
            assert forall|k: int| 0 <= k < ts.len() implies path_starts_with(
                #[trigger] ts[k].target@,
                target@,
            ) by {
                assert(tv[k] == ts[k]@);
                assert(path_starts_with(tv[k].1, target@));
            }
            if scan_rels_distinct(source@, *scan) {
                assert forall|i: int, j: int| 0 <= i < j < ts.len() implies #[trigger] ts[i].target@
                    != #[trigger] ts[j].target@ by {
                    assert(tv[i] == ts[i]@);
                    assert(tv[j] == ts[j]@);
                    assert(tv[i].1 != tv[j].1);
                }
            }
        }
    }
    r
}

/// The tasks of one entry, as `resolve_result` describes them.
fn resolve_scan(
    source: &str,
    target: &str,
    global_ignores: &Vec<String>,
    local_ignores: &Vec<String>,
    scan: &SourceScan,
) -> (r: Result<Vec<SyncTask>, RsmError>)
    requires
        scan_fits(source@, *scan),
    ensures
        tasks_result_view(r) == resolve_result(
            source@,
            target@,
            views(global_ignores@) + views(local_ignores@),
            *scan,
        ),
{
    let ignores = collect_ignores(global_ignores, local_ignores);
    match scan {
        SourceScan::Missing => Err(RsmError::SourceMissing(source.to_owned())),
        SourceScan::Tree(files) => tree_tasks(source, target, &ignores, files),
        SourceScan::Single { canonical, is_dir } => {
            let name = match file_name_of(source) {
                Some(n) => n,
                None => {
                    assert(false);
                    String::new()
                },
            };
            if is_ignored(name.as_str(), *is_dir, &ignores) {
                let none: Vec<SyncTask> = Vec::new();
                assert(task_views(none@) =~= Seq::<(Seq<char>, Seq<char>)>::empty());
                return Ok(none);
            }
            match canonical {
                None => Err(RsmError::PathResolution(source.to_owned())),
                Some(c) => {
                    let mut out: Vec<SyncTask> = Vec::new();
                    let t = SyncTask { source: c.clone(), target: target.to_owned() };
                    out.push(t);
                    assert(task_views(out@) =~= seq![(c@, target@)]);
                    Ok(out)
                },
            }
        },
    }
}

/// `task` is the task of walked file `f`: the walk reaches it, and the task
/// links the same relative path under `target` to its canonical path.
pub open spec fn mirrors(
    root: Seq<char>,
    target: Seq<char>,
    ignores: Seq<Seq<char>>,
    f: ScannedFile,
    task: (Seq<char>, Seq<char>),
) -> bool {
    &&& visible(root, f.path@, ignores)
    &&& f.canonical is Some
    &&& task == (f.canonical->0@, join(target, rel_path(root, f.path@)))
}

/// Some walked file has `task` as its task.
pub open spec fn mirrors_some_file(
    root: Seq<char>,
    target: Seq<char>,
    ignores: Seq<Seq<char>>,
    files: Seq<ScannedFile>,
    task: (Seq<char>, Seq<char>),
) -> bool {
    exists|i: int| 0 <= i < files.len() && #[trigger] mirrors(root, target, ignores, files[i], task)
}

/// The task at index `k` of a walked directory's tasks mirrors a visible file.
proof fn lemma_tree_task_mirrors(
    root: Seq<char>,
    target: Seq<char>,
    ignores: Seq<Seq<char>>,
    files: Seq<ScannedFile>,
    tasks: Seq<(Seq<char>, Seq<char>)>,
    k: int,
) -> (i: int)
    requires
        tree_result(root, target, ignores, files) == Ok::<Seq<(Seq<char>, Seq<char>)>, ErrorView>(
            tasks,
        ),
        0 <= k < tasks.len(),
    ensures
        0 <= i < files.len(),
        mirrors(root, target, ignores, files[i], tasks[k]),
    decreases files.len(),
{
    let init = files.drop_last();
    let tsi = tree_result(root, target, ignores, init)->Ok_0;
    if k < tsi.len() {
        let i = lemma_tree_task_mirrors(root, target, ignores, init, tsi, k);
        assert(files[i] == init[i]);
        i
    } else {
        assert(files[files.len() - 1] == files.last());
        files.len() - 1
    }
}

/// Every task of a walked directory mirrors one visible file: its source is
/// that file's canonical path and its target is the same relative path under
/// the target directory.
pub proof fn lemma_tree_tasks_mirror_files(
    root: Seq<char>,
    target: Seq<char>,
    ignores: Seq<Seq<char>>,
    files: Seq<ScannedFile>,
    tasks: Seq<(Seq<char>, Seq<char>)>,
)
    requires
        tree_result(root, target, ignores, files) == Ok::<Seq<(Seq<char>, Seq<char>)>, ErrorView>(
            tasks,
        ),
    ensures
        forall|k: int|
            0 <= k < tasks.len() ==> #[trigger] mirrors_some_file(
                root,
                target,
                ignores,
                files,
                tasks[k],
            ),
{
    assert forall|k: int| 0 <= k < tasks.len() implies #[trigger] mirrors_some_file(
        root,
        target,
        ignores,
        files,
        tasks[k],
    ) by {
        let i = lemma_tree_task_mirrors(root, target, ignores, files, tasks, k);
    }
}

/// The walked files have distinct paths relative to the source.
pub open spec fn scan_rels_distinct(root: Seq<char>, scan: SourceScan) -> bool {
    match scan {
        SourceScan::Tree(files) => forall|i: int, j: int|
            0 <= i < j < files@.len() ==> rel_path(root, #[trigger] files@[i].path@) != rel_path(
                root,
                #[trigger] files@[j].path@,
            ),
        _ => true,
    }
}

/// Every task of a walked directory targets a path under the target
/// directory, and distinct relative paths give distinct targets.
proof fn lemma_tree_targets(
    root: Seq<char>,
    target: Seq<char>,
    ignores: Seq<Seq<char>>,
    files: Seq<ScannedFile>,
    tasks: Seq<(Seq<char>, Seq<char>)>,
)
    requires
        tree_result(root, target, ignores, files) == Ok::<Seq<(Seq<char>, Seq<char>)>, ErrorView>(
            tasks,
        ),
    ensures
        forall|k: int| 0 <= k < tasks.len() ==> path_starts_with(#[trigger] tasks[k].1, target),
        (forall|i: int, j: int|
            0 <= i < j < files.len() ==> rel_path(root, #[trigger] files[i].path@) != rel_path(
                root,
                #[trigger] files[j].path@,
            )) ==> forall|i: int, j: int|
            0 <= i < j < tasks.len() ==> #[trigger] tasks[i].1 != #[trigger] tasks[j].1,
    decreases files.len(),
{
    lemma_tree_tasks_mirror_files(root, target, ignores, files, tasks);
    assert forall|k: int| 0 <= k < tasks.len() implies path_starts_with(
        #[trigger] tasks[k].1,
        target,
    ) by {
        assert(mirrors_some_file(root, target, ignores, files, tasks[k]));
        let m = choose|m: int|
            0 <= m < files.len() && #[trigger] mirrors(root, target, ignores, files[m], tasks[k]);
        lemma_trimmed_not_rooted(files[m].path@.skip(root.len() as int));
        lemma_join_under(target, rel_path(root, files[m].path@));
    }
    if files.len() > 0 {
        let init = files.drop_last();
        let tsi = tree_result(root, target, ignores, init)->Ok_0;
        lemma_tree_targets(root, target, ignores, init, tsi);
        if forall|i: int, j: int|
            0 <= i < j < files.len() ==> rel_path(root, #[trigger] files[i].path@) != rel_path(
                root,
                #[trigger] files[j].path@,
            ) {
            assert forall|i: int, j: int|
                0 <= i < j < init.len() implies rel_path(root, #[trigger] init[i].path@)
                != rel_path(root, #[trigger] init[j].path@) by {
                assert(init[i] == files[i] && init[j] == files[j]);
            }
            if tasks.len() > tsi.len() {
                let f = files.last();
                let rl = rel_path(root, f.path@);
                assert(tasks[tasks.len() - 1].1 == join(target, rl));
                lemma_tree_tasks_mirror_files(root, target, ignores, init, tsi);
                assert forall|i: int, j: int| 0 <= i < j < tasks.len() implies #[trigger] tasks[i].1
                    != #[trigger] tasks[j].1 by {
                    if j < tsi.len() {
                        assert(tasks[i] == tsi[i] && tasks[j] == tsi[j]);
                    } else {
                        assert(tasks[i] == tsi[i]);
                        assert(mirrors_some_file(root, target, ignores, init, tsi[i]));
                        let m = choose|m: int|
                            0 <= m < init.len() && #[trigger] mirrors(
                                root,
                                target,
                                ignores,
                                init[m],
                                tsi[i],
                            );
                        assert(init[m] == files[m]);
                        assert(files[files.len() - 1] == f);
                        assert(rel_path(root, files[m].path@) != rel_path(
                            root,
                            files[files.len() - 1].path@,
                        ));
                        lemma_trimmed_not_rooted(files[m].path@.skip(root.len() as int));
                        lemma_trimmed_not_rooted(f.path@.skip(root.len() as int));
                        if tsi[i].1 == tasks[j].1 {
                            lemma_join_injective(target, rel_path(root, files[m].path@), rl);
                        }
                    }
                }
            } else {
                assert(tasks == tsi);
            }
        }
    }
}

/// Every task of an entry targets a path under the target, and when the
/// walked files have distinct relative paths, no two tasks share a target.
pub proof fn lemma_resolve_targets(
    root: Seq<char>,
    target: Seq<char>,
    ignores: Seq<Seq<char>>,
    scan: SourceScan,
    tasks: Seq<(Seq<char>, Seq<char>)>,
)
    requires
        resolve_result(root, target, ignores, scan) == Ok::<
            Seq<(Seq<char>, Seq<char>)>,
            ErrorView,
        >(tasks),
    ensures
        forall|k: int| 0 <= k < tasks.len() ==> path_starts_with(#[trigger] tasks[k].1, target),
        scan_rels_distinct(root, scan) ==> forall|i: int, j: int|
            0 <= i < j < tasks.len() ==> #[trigger] tasks[i].1 != #[trigger] tasks[j].1,
{
    match scan {
        SourceScan::Tree(files) => {
            lemma_tree_targets(root, target, ignores, files@, tasks);
        },
        _ => {
            lemma_starts_with_self(target);
        },
    }
}

/// Adding entries to an ignore list keeps everything it ignored ignored.
proof fn lemma_ignored_by_more(
    name: Seq<char>,
    is_dir: bool,
    ignores: Seq<Seq<char>>,
    extra: Seq<Seq<char>>,
)
    ensures
        ignored_by(name, is_dir, ignores) ==> ignored_by(name, is_dir, ignores + extra),
{
    if ignored_by(name, is_dir, ignores) {
        let i = choose|i: int|
            0 <= i < ignores.len() && #[trigger] crate::ignore::entry_hits(
                ignores[i],
                name,
                is_dir,
            );
        assert((ignores + extra)[i] == ignores[i]);
    }
}

/// A file the walk reaches under a longer ignore list, it reaches under the
/// shorter one too.
proof fn lemma_visible_with_fewer(
    root: Seq<char>,
    path: Seq<char>,
    ignores: Seq<Seq<char>>,
    extra: Seq<Seq<char>>,
)
    ensures
        visible(root, path, ignores + extra) ==> visible(root, path, ignores),
{
    if visible(root, path, ignores + extra) {
        lemma_ignored_by_more(walk_name(root), true, ignores, extra);
        let names = components(rel_path(root, path));
        assert forall|i: int| 0 <= i < names.len() implies !ignored_by(
            #[trigger] names[i],
            i < names.len() - 1,
            ignores,
        ) by {
            lemma_ignored_by_more(names[i], i < names.len() - 1, ignores, extra);
        }
    }
}

/// A walk with more ignore entries succeeds whenever the walk with fewer
/// does, and each of its tasks is one of the other's.
proof fn lemma_tree_more_ignores(
    root: Seq<char>,
    target: Seq<char>,
    ignores: Seq<Seq<char>>,
    extra: Seq<Seq<char>>,
    files: Seq<ScannedFile>,
    tasks: Seq<(Seq<char>, Seq<char>)>,
)
    requires
        tree_result(root, target, ignores, files) == Ok::<Seq<(Seq<char>, Seq<char>)>, ErrorView>(
            tasks,
        ),
    ensures
        tree_result(root, target, ignores + extra, files) is Ok,
        forall|k: int|
            0 <= k < tree_result(root, target, ignores + extra, files)->Ok_0.len() ==> tasks.contains(
                #[trigger] tree_result(root, target, ignores + extra, files)->Ok_0[k],
            ),
    decreases files.len(),
{
    let more = ignores + extra;
    if files.len() > 0 {
        let init = files.drop_last();
        let f = files.last();
        let t1 = tree_result(root, target, ignores, init)->Ok_0;
        lemma_tree_more_ignores(root, target, ignores, extra, init, t1);
        let t2 = tree_result(root, target, more, init)->Ok_0;
        lemma_visible_with_fewer(root, f.path@, ignores, extra);
        let r2 = tree_result(root, target, more, files)->Ok_0;
        assert forall|k: int| 0 <= k < r2.len() implies tasks.contains(#[trigger] r2[k]) by {
            if k < t2.len() {
                assert(r2[k] == t2[k]);
                assert(t1.contains(t2[k]));
                let m = choose|m: int| 0 <= m < t1.len() && t1[m] == t2[k];
                assert(tasks[m] == t1[m]);
            } else {
                assert(tasks[tasks.len() - 1] == r2[k]);
            }
        }
    }
}

/// Adding ignore entries only removes tasks: when an entry resolves, it still
/// resolves with more ignore entries, and every task it then gives was one of
/// the tasks before.
pub proof fn lemma_more_ignores_only_remove_tasks(
    root: Seq<char>,
    target: Seq<char>,
    ignores: Seq<Seq<char>>,
    extra: Seq<Seq<char>>,
    scan: SourceScan,
    tasks: Seq<(Seq<char>, Seq<char>)>,
)
    requires
        resolve_result(root, target, ignores, scan) == Ok::<
            Seq<(Seq<char>, Seq<char>)>,
            ErrorView,
        >(tasks),
    ensures
        resolve_result(root, target, ignores + extra, scan) is Ok,
        forall|k: int|
            0 <= k < resolve_result(root, target, ignores + extra, scan)->Ok_0.len()
                ==> tasks.contains(
                #[trigger] resolve_result(root, target, ignores + extra, scan)->Ok_0[k],
            ),
{
    match scan {
        SourceScan::Tree(files) => {
            lemma_tree_more_ignores(root, target, ignores, extra, files@, tasks);
        },
        SourceScan::Single { canonical, is_dir } => {
            lemma_ignored_by_more(file_name(root)->0, is_dir, ignores, extra);
            let r2 = resolve_result(root, target, ignores + extra, scan)->Ok_0;
            assert forall|k: int| 0 <= k < r2.len() implies tasks.contains(#[trigger] r2[k]) by {
                assert(tasks[0] == r2[k]);
            }
        },
        SourceScan::Missing => {},
    }
}

/// In a walked directory, every file whose canonical path is known and on
/// whose way from the root no name is hit by an ignore entry (the root's own
/// name and the directories are matched as directories, the file's name as a
/// file) gets its task: its canonical path linked at the same relative path
/// under the target.
pub proof fn lemma_unignored_files_get_tasks(
    root: Seq<char>,
    target: Seq<char>,
    ignores: Seq<Seq<char>>,
    files: Seq<ScannedFile>,
    tasks: Seq<(Seq<char>, Seq<char>)>,
    i: int,
)
    requires
        tree_result(root, target, ignores, files) == Ok::<Seq<(Seq<char>, Seq<char>)>, ErrorView>(
            tasks,
        ),
        0 <= i < files.len(),
        files[i].canonical is Some,
        !ignored_by(walk_name(root), true, ignores),
        forall|j: int|
            0 <= j < components(rel_path(root, files[i].path@)).len() ==> !ignored_by(
                #[trigger] components(rel_path(root, files[i].path@))[j],
                j < components(rel_path(root, files[i].path@)).len() - 1,
                ignores,
            ),
    ensures
        tasks.contains(
            (files[i].canonical->0@, join(target, rel_path(root, files[i].path@))),
        ),
    decreases files.len(),
{
    let init = files.drop_last();
    let ti = tree_result(root, target, ignores, init)->Ok_0;
    let t = (files[i].canonical->0@, join(target, rel_path(root, files[i].path@)));
    if i == files.len() - 1 {
        assert(files.last() == files[i]);
        assert(visible(root, files[i].path@, ignores));
        assert(tasks == ti.push(t));
        assert(tasks[tasks.len() - 1] == t);
    } else {
        assert(init[i] == files[i]);
        lemma_unignored_files_get_tasks(root, target, ignores, init, ti, i);
        let m = choose|m: int| 0 <= m < ti.len() && ti[m] == t;
        assert(tasks[m] == ti[m]);
    }
}

/// A source linked itself gives exactly one task, its canonical path linked at
/// the target, when its name is not ignored (as a directory when it is one)
/// and the canonical path is known; a missing source is an error naming it.
pub proof fn lemma_single_and_missing_sources(
    root: Seq<char>,
    target: Seq<char>,
    ignores: Seq<Seq<char>>,
    canonical: String,
    is_dir: bool,
)
    requires
        file_name(root) is Some,
    ensures
        !ignored_by(file_name(root)->0, is_dir, ignores) ==> resolve_result(
            root,
            target,
            ignores,
            SourceScan::Single { canonical: Some(canonical), is_dir },
        ) == Ok::<Seq<(Seq<char>, Seq<char>)>, ErrorView>(seq![(canonical@, target)]),
        ignored_by(file_name(root)->0, is_dir, ignores) ==> resolve_result(
            root,
            target,
            ignores,
            SourceScan::Single { canonical: Some(canonical), is_dir },
        ) == Ok::<Seq<(Seq<char>, Seq<char>)>, ErrorView>(Seq::empty()),
        resolve_result(root, target, ignores, SourceScan::Missing) == Err::<
            Seq<(Seq<char>, Seq<char>)>,
            ErrorView,
        >(ErrorView::SourceMissing(root)),
{
}

/// When the source directory's own name is ignored, the walk yields nothing.
pub proof fn lemma_ignored_root_gives_no_tasks(
    root: Seq<char>,
    target: Seq<char>,
    ignores: Seq<Seq<char>>,
    files: Seq<ScannedFile>,
)
    requires
        ignored_by(walk_name(root), true, ignores),
    ensures
        tree_result(root, target, ignores, files) == Ok::<Seq<(Seq<char>, Seq<char>)>, ErrorView>(
            Seq::empty(),
        ),
    decreases files.len(),
{
    if files.len() > 0 {
        lemma_ignored_root_gives_no_tasks(root, target, ignores, files.drop_last());
    }
}

// ---------------------------------------------------------------------------
// Pruning dead links
// ---------------------------------------------------------------------------
/// A symlink met while walking a target directory: its path, what it points
/// to, and whether that exists.
#[derive(Debug, Clone)]
pub struct LinkProbe {
    pub path: String,
    pub points_to: String,
    pub points_to_exists: bool,
}

/// One step of pruning.
#[derive(Debug, Clone, PartialEq, Eq)]
pub enum PruneAction {
    /// Report that the link at this path is dead.
    Report(String),
    /// Remove the link at this path.
    Remove(String),
}

/// A pruning step as plain values.
pub enum PruneView {
    Report(Seq<char>),
    Remove(Seq<char>),
}

impl View for PruneAction {
    type V = PruneView;

    open spec fn view(&self) -> PruneView {
        match self {
            PruneAction::Report(p) => PruneView::Report(p@),
            PruneAction::Remove(p) => PruneView::Remove(p@),
        }
    }
}

/// The views of a sequence of pruning steps.
pub open spec fn prune_views(v: Seq<PruneAction>) -> Seq<PruneView> {
    v.map_values(|a: PruneAction| a@)
}

/// A target directory is walked for dead links only when it exists and is a
/// directory.
pub fn prune_walks_target(exists: bool, is_dir: bool) -> (r: bool)
    ensures
        r == (exists && is_dir),
{
    exists && is_dir
}

/// `points_to` lies in the source tree: under the source root as written, or
/// under the root's canonical path (where links made to canonical paths point).
pub open spec fn in_source_tree(
    points_to: Seq<char>,
    source_root: Seq<char>,
    canonical_root: Option<Seq<char>>,
) -> bool {
    ||| path_starts_with(points_to, source_root)
    ||| (canonical_root is Some && path_starts_with(points_to, canonical_root->0))
}

/// A link is dead when it points into the source tree at something that no
/// longer exists.
pub open spec fn is_dead_link(
    source_root: Seq<char>,
    canonical_root: Option<Seq<char>>,
    probe: LinkProbe,
) -> bool {
    in_source_tree(probe.points_to@, source_root, canonical_root) && !probe.points_to_exists
}

/// The paths of the dead links, in walk order.
pub open spec fn dead_links(
    source_root: Seq<char>,
    canonical_root: Option<Seq<char>>,
    probes: Seq<LinkProbe>,
) -> Seq<Seq<char>>
    decreases probes.len(),
{
    if probes.len() == 0 {
        Seq::empty()
    } else if is_dead_link(source_root, canonical_root, probes.last()) {
        dead_links(source_root, canonical_root, probes.drop_last()).push(probes.last().path@)
    } else {
        dead_links(source_root, canonical_root, probes.drop_last())
    }
}

/// The links that are not dead, in walk order.
pub open spec fn live_links(
    source_root: Seq<char>,
    canonical_root: Option<Seq<char>>,
    probes: Seq<LinkProbe>,
) -> Seq<LinkProbe>
    decreases probes.len(),
{
    if probes.len() == 0 {
        Seq::empty()
    } else if is_dead_link(source_root, canonical_root, probes.last()) {
        live_links(source_root, canonical_root, probes.drop_last())
    } else {
        live_links(source_root, canonical_root, probes.drop_last()).push(probes.last())
    }
}

/// The steps for a list of dead links: each is reported, then removed unless
/// this is a dry run.
pub open spec fn prune_steps(dead: Seq<Seq<char>>, dry_run: bool) -> Seq<PruneView>
    decreases dead.len(),
{
    if dead.len() == 0 {
        Seq::empty()
    } else if dry_run {
        prune_steps(dead.drop_last(), dry_run).push(PruneView::Report(dead.last()))
    } else {
        prune_steps(dead.drop_last(), dry_run).push(PruneView::Report(dead.last())).push(
            PruneView::Remove(dead.last()),
        )
    }
}

/// Pruning under a target directory: the symlinks met while walking it that
/// point into the source tree (the root as written, or its canonical path when
/// known), component by component, at something that no longer exists are
/// reported in walk order, and each is removed right after its report unless
/// this is a dry run.
pub fn prune_dead_links(
    source_root: &str,
    canonical_root: Option<&String>,
    links: &Vec<LinkProbe>,
    dry_run: bool,
) -> (r: Vec<PruneAction>)
    ensures
        prune_views(r@) == prune_steps(
            dead_links(source_root@, root_view(canonical_root), links@),
            dry_run,
        ),
{
    let ghost canon = root_view(canonical_root);
    let mut out: Vec<PruneAction> = Vec::new();
    let mut i: usize = 0;
    assert(links@.take(0) =~= Seq::<LinkProbe>::empty());
    assert(prune_views(out@) =~= Seq::<PruneView>::empty());
    while i < links.len()
        invariant
            i <= links@.len(),
            canon == root_view(canonical_root),
            prune_views(out@) == prune_steps(
                dead_links(source_root@, canon, links@.take(i as int)),
                dry_run,
            ),
        decreases links@.len() - i,
    {
        let probe = &links[i];
        assert(links@.take(i + 1).drop_last() =~= links@.take(i as int));
        assert(links@.take(i + 1).last() == links@[i as int]);
        let in_tree = starts_with_path(probe.points_to.as_str(), source_root) || match canonical_root {
            Some(c) => starts_with_path(probe.points_to.as_str(), c.as_str()),
            None => false,
        };
        if in_tree && !probe.points_to_exists {
            let ghost d = dead_links(source_root@, canon, links@.take(i as int));
            assert(d.push(probe.path@).drop_last() =~= d);
            let r = PruneAction::Report(probe.path.clone());
            assert(prune_views(out@.push(r)) =~= prune_views(out@).push(r@));
            out.push(r);
            if !dry_run {
                let m = PruneAction::Remove(probe.path.clone());
                assert(prune_views(out@.push(m)) =~= prune_views(out@).push(m@));
                out.push(m);
            }
        }
        i = i + 1;
    }
    assert(links@.take(links@.len() as int) =~= links@);
    out
}

/// The canonical source root, as plain characters.
pub open spec fn root_view(canonical_root: Option<&String>) -> Option<Seq<char>> {
    match canonical_root {
        Some(c) => Some(c@),
        None => None,
    }
}

/// Pruning names only dead links, and names every dead link: a link whose
/// target still exists, or that points outside the source tree, is never
/// pruned.
pub proof fn lemma_prune_only_dead(
    source_root: Seq<char>,
    canonical_root: Option<Seq<char>>,
    probes: Seq<LinkProbe>,
)
    ensures
        forall|k: int|
            #![trigger dead_links(source_root, canonical_root, probes)[k]]
            0 <= k < dead_links(source_root, canonical_root, probes).len() ==> exists|i: int|
                0 <= i < probes.len() && #[trigger] is_dead_link(
                    source_root,
                    canonical_root,
                    probes[i],
                ) && probes[i].path@ == dead_links(source_root, canonical_root, probes)[k],
        forall|i: int|
            0 <= i < probes.len() && #[trigger] is_dead_link(
                source_root,
                canonical_root,
                probes[i],
            ) ==> dead_links(source_root, canonical_root, probes).contains(probes[i].path@),
    decreases probes.len(),
{
    if probes.len() > 0 {
        let init = probes.drop_last();
        lemma_prune_only_dead(source_root, canonical_root, init);
        let d = dead_links(source_root, canonical_root, probes);
        let di = dead_links(source_root, canonical_root, init);
        assert forall|k: int| #![trigger d[k]] 0 <= k < d.len() implies exists|i: int|
            0 <= i < probes.len() && #[trigger] is_dead_link(source_root, canonical_root, probes[i])
                && probes[i].path@ == d[k] by {
            if k < di.len() {
                assert(d[k] == di[k]);
                let i = choose|i: int|
                    0 <= i < init.len() && #[trigger] is_dead_link(
                        source_root,
                        canonical_root,
                        init[i],
                    ) && init[i].path@ == di[k];
                assert(probes[i] == init[i]);
            } else {
                assert(probes[probes.len() - 1] == probes.last());
            }
        }
        assert forall|i: int|
            0 <= i < probes.len() && #[trigger] is_dead_link(
                source_root,
                canonical_root,
                probes[i],
            ) implies d.contains(probes[i].path@) by {
            if i < probes.len() - 1 {
                assert(init[i] == probes[i]);
                let j = choose|j: int| 0 <= j < di.len() && di[j] == init[i].path@;
                assert(d[j] == di[j]);
            } else {
                assert(d[d.len() - 1] == probes.last().path@);
            }
        }
    }
}

/// A second prune finds nothing: once the dead links are gone, the links that
/// remain hold no dead one, and pruning them takes no step.
pub proof fn lemma_second_prune_finds_nothing(
    source_root: Seq<char>,
    canonical_root: Option<Seq<char>>,
    probes: Seq<LinkProbe>,
    dry_run: bool,
)
    ensures
        dead_links(source_root, canonical_root, live_links(source_root, canonical_root, probes))
            == Seq::<Seq<char>>::empty(),
        prune_steps(
            dead_links(source_root, canonical_root, live_links(source_root, canonical_root, probes)),
            dry_run,
        ) == Seq::<PruneView>::empty(),
    decreases probes.len(),
{
    if probes.len() > 0 {
        let init = probes.drop_last();
        lemma_second_prune_finds_nothing(source_root, canonical_root, init, dry_run);
        let li = live_links(source_root, canonical_root, init);
        if !is_dead_link(source_root, canonical_root, probes.last()) {
            assert(li.push(probes.last()).drop_last() =~= li);
        }
    }
}

/// A link that points under the source root's canonical path at something
/// missing is removed, even when the root as written is a symlink to
/// elsewhere.
pub proof fn lemma_links_into_canonical_root_are_pruned(
    source_root: Seq<char>,
    canonical_root: Seq<char>,
    probes: Seq<LinkProbe>,
    i: int,
)
    requires
        0 <= i < probes.len(),
        path_starts_with(probes[i].points_to@, canonical_root),
        !probes[i].points_to_exists,
    ensures
        dead_links(source_root, Some(canonical_root), probes).contains(probes[i].path@),
        prune_steps(dead_links(source_root, Some(canonical_root), probes), false).contains(
            PruneView::Remove(probes[i].path@),
        ),
{
    let d = dead_links(source_root, Some(canonical_root), probes);
    assert(is_dead_link(source_root, Some(canonical_root), probes[i]));
    lemma_prune_only_dead(source_root, Some(canonical_root), probes);
    let k = choose|k: int| 0 <= k < d.len() && d[k] == probes[i].path@;
    lemma_prune_steps(d);
    assert(prune_steps(d, false)[2 * k] == PruneView::Report(d[k]));
    assert(prune_steps(d, false)[2 * k + 1] == PruneView::Remove(d[k]));
    assert(2 * k + 1 < prune_steps(d, false).len());
}

/// A dry run only reports; a real run reports each dead link and removes it
/// right after.
pub proof fn lemma_prune_steps(dead: Seq<Seq<char>>)
    ensures
        prune_steps(dead, true).len() == dead.len(),
        forall|k: int|
            0 <= k < dead.len() ==> #[trigger] prune_steps(dead, true)[k] == PruneView::Report(
                dead[k],
            ),
        prune_steps(dead, false).len() == 2 * dead.len(),
        forall|k: int|
            0 <= k < dead.len() ==> #[trigger] prune_steps(dead, false)[2 * k] == PruneView::Report(
                dead[k],
            ) && prune_steps(dead, false)[2 * k + 1] == PruneView::Remove(dead[k]),
    decreases dead.len(),
{
    if dead.len() > 0 {
        let init = dead.drop_last();
        lemma_prune_steps(init);
        assert forall|k: int| 0 <= k < dead.len() implies #[trigger] prune_steps(dead, true)[k]
            == PruneView::Report(dead[k]) by {
            if k < init.len() {
                assert(prune_steps(dead, true)[k] == prune_steps(init, true)[k]);
                assert(init[k] == dead[k]);
            }
        }
        assert forall|k: int| 0 <= k < dead.len() implies #[trigger] prune_steps(dead, false)[2
            * k] == PruneView::Report(dead[k]) && prune_steps(dead, false)[2 * k + 1]
            == PruneView::Remove(dead[k]) by {
            if k < init.len() {
                assert(prune_steps(dead, false)[2 * k] == prune_steps(init, false)[2 * k]);
                assert(prune_steps(dead, false)[2 * k + 1] == prune_steps(init, false)[2 * k + 1]);
                assert(init[k] == dead[k]);
            }
        }
    }
}

// ---------------------------------------------------------------------------
// Making one link
// ---------------------------------------------------------------------------
/// What already occupies a link target (as the entry itself, not followed).
#[derive(Debug, Clone, Copy, PartialEq, Eq, Structural)]
pub enum ExistingEntry {
    Directory,
    Other,
}

/// One filesystem change.
#[derive(Debug, Clone, PartialEq, Eq)]
pub enum LinkAction {
    /// Remove a directory and everything in it.
    RemoveDirAll(String),
    /// Remove a file or symlink.
    RemoveFile(String),
    /// Make `target` a symlink to `source`.
    Symlink { source: String, target: String },
}

/// A filesystem change as plain values.
pub enum ActionView {
    RemoveDirAll(Seq<char>),
    RemoveFile(Seq<char>),
    Symlink(Seq<char>, Seq<char>),
}

impl View for LinkAction {
    type V = ActionView;

    open spec fn view(&self) -> ActionView {
        match self {
            LinkAction::RemoveDirAll(p) => ActionView::RemoveDirAll(p@),
            LinkAction::RemoveFile(p) => ActionView::RemoveFile(p@),
            LinkAction::Symlink { source, target } => ActionView::Symlink(source@, target@),
        }
    }
}

/// The views of a sequence of actions.
pub open spec fn action_views(v: Seq<LinkAction>) -> Seq<ActionView> {
    v.map_values(|a: LinkAction| a@)
}

/// The changes that make `task`'s link: an occupied target is refused without
/// `force` and removed with it; then the link is made. A dry run changes
/// nothing but refuses what a real run would.
pub open spec fn link_plan(
    task: (Seq<char>, Seq<char>),
    force: bool,
    dry_run: bool,
    existing: Option<ExistingEntry>,
) -> Result<Seq<ActionView>, ErrorView> {
    let (source, target) = task;
    match existing {
        Some(kind) => if !force {
            Err(ErrorView::TargetExists(target))
        } else if dry_run {
            Ok(Seq::empty())
        } else {
            let removal = match kind {
                ExistingEntry::Directory => ActionView::RemoveDirAll(target),
                ExistingEntry::Other => ActionView::RemoveFile(target),
            };
            Ok(seq![removal, ActionView::Symlink(source, target)])
        },
        None => if dry_run {
            Ok(Seq::empty())
        } else {
            Ok(seq![ActionView::Symlink(source, target)])
        },
    }
}

/// A plan as plain values.
pub open spec fn plan_view(r: Result<Vec<LinkAction>, RsmError>) -> Result<Seq<ActionView>, ErrorView> {
    match r {
        Ok(v) => Ok(action_views(v@)),
        Err(e) => Err(e@),
    }
}

/// The changes that make one link, given what occupies its target; they are
/// to be carried out in order, stopping at the first that fails.
pub fn create_link(task: &SyncTask, force: bool, dry_run: bool, existing: Option<ExistingEntry>) -> (r:
    Result<Vec<LinkAction>, RsmError>)
    ensures
        plan_view(r) == link_plan(task@, force, dry_run, existing),
{
    let mut out: Vec<LinkAction> = Vec::new();
    match existing {
        Some(kind) => {
            if !force {
                return Err(RsmError::TargetExists(task.target.clone()));
            }
            if !dry_run {
                let removal = match kind {
                    ExistingEntry::Directory => LinkAction::RemoveDirAll(task.target.clone()),
                    ExistingEntry::Other => LinkAction::RemoveFile(task.target.clone()),
                };
                out.push(removal);
            }
        },
        None => {},
    }
    if !dry_run {
        out.push(
            LinkAction::Symlink { source: task.source.clone(), target: task.target.clone() },
        );
    }
    assert(action_views(out@) =~= link_plan(task@, force, dry_run, existing)->Ok_0);
    Ok(out)
}

/// A dry run changes nothing, and refuses exactly what a real run refuses.
pub proof fn lemma_dry_run_changes_nothing(
    task: (Seq<char>, Seq<char>),
    force: bool,
    existing: Option<ExistingEntry>,
)
    ensures
        link_plan(task, force, true, existing) matches Ok(acts) ==> acts.len() == 0,
        link_plan(task, force, true, existing) is Err <==> link_plan(
            task,
            force,
            false,
            existing,
        ) is Err,
        link_plan(task, force, true, existing) is Err ==> link_plan(task, force, true, existing)
            == link_plan(task, force, false, existing),
{
}

/// Without `force` an occupied target is refused and left alone; with `force`
/// nothing is refused. A real run that succeeds always ends by making the
/// link, and removes nothing but the link's own target.
pub proof fn lemma_force_decides_overwrite(
    task: (Seq<char>, Seq<char>),
    force: bool,
    dry_run: bool,
    existing: Option<ExistingEntry>,
)
    ensures
        existing is Some && !force ==> link_plan(task, force, dry_run, existing) == Err::<
            Seq<ActionView>,
            ErrorView,
        >(ErrorView::TargetExists(task.1)),
        force ==> link_plan(task, force, dry_run, existing) is Ok,
        existing is None ==> link_plan(task, force, dry_run, existing) is Ok,
        !dry_run ==> (link_plan(task, force, dry_run, existing) matches Ok(acts) ==> {
            &&& acts.len() >= 1
            &&& acts.last() == ActionView::Symlink(task.0, task.1)
            &&& forall|i: int|
                0 <= i < acts.len() - 1 ==> (#[trigger] acts[i] == ActionView::RemoveDirAll(task.1)
                    || acts[i] == ActionView::RemoveFile(task.1))
        }),
{
}

// ---------------------------------------------------------------------------
// The effect of a plan on a filesystem
// ---------------------------------------------------------------------------
/// What a path holds in a model of the filesystem.
pub enum FsEntry {
    Dir,
    File,
    Link(Seq<char>),
}

/// A filesystem as a map from paths to what they hold.
pub type FsModel = Map<Seq<char>, FsEntry>;

/// What occupies `p`, as `create_link` is told it.
pub open spec fn existing_of(fs: FsModel, p: Seq<char>) -> Option<ExistingEntry> {
    if fs.contains_key(p) {
        match fs[p] {
            FsEntry::Dir => Some(ExistingEntry::Directory),
            _ => Some(ExistingEntry::Other),
        }
    } else {
        None
    }
}

/// The filesystem after one change: removing a directory removes everything
/// under it, removing a file removes that path, and linking puts a link there.
pub open spec fn apply_action(fs: FsModel, a: ActionView) -> FsModel {
    match a {
        ActionView::RemoveDirAll(p) => Map::new(
            |k: Seq<char>| fs.contains_key(k) && !path_starts_with(k, p),
            |k: Seq<char>| fs[k],
        ),
        ActionView::RemoveFile(p) => fs.remove(p),
        ActionView::Symlink(source, target) => fs.insert(target, FsEntry::Link(source)),
    }
}

/// The filesystem after a sequence of changes, in order.
pub open spec fn apply_plan(fs: FsModel, acts: Seq<ActionView>) -> FsModel
    decreases acts.len(),
{
    if acts.len() == 0 {
        fs
    } else {
        apply_plan(apply_action(fs, acts[0]), acts.drop_first())
    }
}

/// The filesystem after syncing one task (a refused task changes nothing).
pub open spec fn sync_once(fs: FsModel, task: (Seq<char>, Seq<char>), force: bool) -> FsModel {
    match link_plan(task, force, false, existing_of(fs, task.1)) {
        Ok(acts) => apply_plan(fs, acts),
        Err(_) => fs,
    }
}

proof fn lemma_apply_two(fs: FsModel, a: ActionView, b: ActionView)
    ensures
        apply_plan(fs, seq![a, b]) == apply_action(apply_action(fs, a), b),
{
    let s = seq![a, b];
    let fa = apply_action(fs, a);
    assert(s.drop_first() =~= seq![b]);
    assert(seq![b].drop_first() =~= Seq::<ActionView>::empty());
    assert(apply_plan(fs, s) == apply_plan(fa, seq![b]));
    assert(apply_plan(fa, seq![b]) == apply_plan(apply_action(fa, b), Seq::<ActionView>::empty()));
}

proof fn lemma_apply_one(fs: FsModel, a: ActionView)
    ensures
        apply_plan(fs, seq![a]) == apply_action(fs, a),
{
    assert(seq![a].drop_first() =~= Seq::<ActionView>::empty());
    assert(apply_plan(fs, seq![a]) == apply_plan(apply_action(fs, a), Seq::<ActionView>::empty()));
}

/// Linking a task puts the link in place when the target was free or
/// `force` was given; paths outside the target are left as they were; and an
/// occupied target without `force` is left alone.
pub proof fn lemma_sync_effect(fs: FsModel, task: (Seq<char>, Seq<char>), force: bool)
    ensures
        (force || !fs.contains_key(task.1)) ==> sync_once(fs, task, force).contains_key(task.1)
            && sync_once(fs, task, force)[task.1] == FsEntry::Link(task.0),
        !force && fs.contains_key(task.1) ==> sync_once(fs, task, force) == fs,
        forall|k: Seq<char>|
            !path_starts_with(k, task.1) ==> (#[trigger] sync_once(fs, task, force).contains_key(k)
                == fs.contains_key(k) && (fs.contains_key(k) ==> sync_once(fs, task, force)[k]
                == fs[k])),
{
    let (source, target) = task;
    let link = ActionView::Symlink(source, target);
    assert(path_starts_with(target, target));
    match existing_of(fs, target) {
        None => {
            lemma_apply_one(fs, link);
        },
        Some(ExistingEntry::Directory) => {
            if force {
                lemma_apply_two(fs, ActionView::RemoveDirAll(target), link);
            }
        },
        Some(ExistingEntry::Other) => {
            if force {
                lemma_apply_two(fs, ActionView::RemoveFile(target), link);
            }
        },
    }
}

/// Syncing is idempotent: a second run over the same task changes nothing
/// more, with or without `force`.
pub proof fn lemma_sync_idempotent(fs: FsModel, task: (Seq<char>, Seq<char>), force: bool)
    ensures
        sync_once(sync_once(fs, task, force), task, force) == sync_once(fs, task, force),
{
    let (source, target) = task;
    let fs1 = sync_once(fs, task, force);
    lemma_sync_effect(fs, task, force);
    if force || !fs.contains_key(target) {
        assert(fs1.contains_key(target) && fs1[target] == FsEntry::Link(source));
        assert(existing_of(fs1, target) == Some(ExistingEntry::Other));
        if force {
            lemma_apply_two(fs1, ActionView::RemoveFile(target), ActionView::Symlink(source, target));
            assert(fs1.remove(target).insert(target, FsEntry::Link(source)) =~= fs1);
        }
    }
}

} // verus!
