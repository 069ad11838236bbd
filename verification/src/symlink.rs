//! What linking and unlinking a directory tree come to: for a walk of the
//! source tree, the steps to take under the link root, in order.

use vstd::prelude::*;
use crate::error::{text_result, LinkError, LinkErrorView};
use crate::run::{link_run, unlink_run, Run};
use crate::path::{absolute, absolute_path, descends, is_descending, join, joined, parent, parent_of};

verus! {

/// What a walked path turned out to be, symbolic links followed.
#[derive(Debug, Clone, Copy, PartialEq, Eq, Structural)]
pub enum EntryKind {
    Directory,
    File,
    /// Neither a directory nor a regular file, or a link that leads nowhere.
    Other,
    /// The walk could not read the entry.
    Unreadable,
}

/// One entry of a walk through the source tree.
#[derive(Debug)]
pub struct WalkEntry {
    /// The path as the walk gave it: the walked root and what lies below it.
    pub path: String,
    pub kind: EntryKind,
    /// The path with every symbolic link resolved, where that was possible.
    pub canonical: Option<String>,
}

/// A `WalkEntry` as a mathematical value.
pub struct WalkEntryView {
    pub path: Seq<char>,
    pub kind: EntryKind,
    pub canonical: Option<Seq<char>>,
}

impl View for WalkEntry {
    type V = WalkEntryView;

    open spec fn view(&self) -> WalkEntryView {
        WalkEntryView { path: self.path@, kind: self.kind, canonical: self.canonical.deep_view() }
    }
}

impl DeepView for WalkEntry {
    type V = WalkEntryView;

    open spec fn deep_view(&self) -> WalkEntryView {
        self@
    }
}

/// What a host found when it walked a source tree, the root first.
#[derive(Debug)]
pub struct SourceWalk {
    /// The walked root with every symbolic link resolved, where it exists.
    pub root: Option<String>,
    pub entries: Vec<WalkEntry>,
}

/// A `SourceWalk` as a mathematical value.
pub struct SourceWalkView {
    pub root: Option<Seq<char>>,
    pub entries: Seq<WalkEntryView>,
}

impl View for SourceWalk {
    type V = SourceWalkView;

    open spec fn view(&self) -> SourceWalkView {
        SourceWalkView { root: self.root.deep_view(), entries: self.entries.deep_view() }
    }
}

/// One thing to bring about under the link root.
#[derive(Debug)]
pub enum Step {
    /// Have a directory at `path`: where nothing is there, create it and
    /// every directory missing above it.
    EnsureDirectory { path: String },
    /// Make a symbolic link at `link` that points at `target`. `resolved`
    /// is what `target` leads to once every link is followed.
    Link { target: String, link: String, resolved: String },
    /// Where a symbolic link stands at `path`, remove it. Anything else
    /// that stands there is left alone.
    Unlink { path: String },
    /// Go on only where nothing is found at `path`.
    RequireVacant { path: String },
    /// Remove the symbolic link at `path`, and nothing that is no link.
    RemoveLink { path: String },
}

/// A `Step` as a mathematical value.
pub enum StepView {
    EnsureDirectory { path: Seq<char> },
    Link { target: Seq<char>, link: Seq<char>, resolved: Seq<char> },
    Unlink { path: Seq<char> },
    RequireVacant { path: Seq<char> },
    RemoveLink { path: Seq<char> },
}

impl View for Step {
    type V = StepView;

    open spec fn view(&self) -> StepView {
        match *self {
            Step::EnsureDirectory { path } => StepView::EnsureDirectory { path: path@ },
            Step::Link { target, link, resolved } => StepView::Link {
                target: target@,
                link: link@,
                resolved: resolved@,
            },
            Step::Unlink { path } => StepView::Unlink { path: path@ },
            Step::RequireVacant { path } => StepView::RequireVacant { path: path@ },
            Step::RemoveLink { path } => StepView::RemoveLink { path: path@ },
        }
    }
}

impl DeepView for Step {
    type V = StepView;

    open spec fn deep_view(&self) -> StepView {
        self@
    }
}

/// The steps of an operation in the order in which they are taken. Where
/// `failure` is set the operation ends with it once the steps are done.
#[derive(Debug)]
pub struct Plan {
    pub steps: Vec<Step>,
    pub failure: Option<LinkError>,
}

/// A `Plan` as a mathematical value.
pub struct PlanView {
    pub steps: Seq<StepView>,
    pub failure: Option<LinkErrorView>,
}

impl View for Plan {
    type V = PlanView;

    open spec fn view(&self) -> PlanView {
        PlanView { steps: self.steps.deep_view(), failure: self.failure.deep_view() }
    }
}

/// The relative path that leads from `base` to `path`, as the crate
/// `pathdiff` computes it from the text of the two, in the path syntax of
/// Unix. `None` where it finds no such path.
pub uninterp spec fn path_difference(path: Seq<char>, base: Seq<char>) -> Option<Seq<char>>;

/// Calls `pathdiff::diff_paths`. That function reads nothing but its two
/// arguments, so its result is the same whenever they are: the contract gives
/// that result its name, and says no more of it. A result is put together
/// from pieces of the two arguments and from `..`, so it is text again.
#[verifier::external_body]
fn diff_paths(path: &str, base: &str) -> (difference: Option<String>)
    ensures
        difference.deep_view() == path_difference(path@, base@),
{
    match pathdiff::diff_paths(path, base) {
        Some(relative) => Some(relative.to_string_lossy().into_owned()),
        None => None,
    }
}

/// The place below a root that a computed difference stands for: the
/// difference itself where there is one and it never steps upwards. Anything
/// else is no place below `base`.
pub open spec fn checked(difference: Option<Seq<char>>, path: Seq<char>, base: Seq<char>) -> Result<
    Seq<char>,
    LinkErrorView,
> {
    match difference {
        Some(relative) => if descends(relative) {
            Ok(relative)
        } else {
            Err(LinkErrorView::InvalidPathDifference { path, base })
        },
        None => Err(LinkErrorView::InvalidPathDifference { path, base }),
    }
}

/// Accepts `difference`, computed from `base` to `path`, as a place below
/// `base`, or rejects it.
pub fn checked_position(difference: Option<String>, path: &str, base: &str) -> (position: Result<
    String,
    LinkError,
>)
    ensures
        text_result(position) == checked(difference.deep_view(), path@, base@),
{
    match difference {
        Some(relative) => {
            if is_descending(relative.as_str()) {
                Ok(relative)
            } else {
                Err(
                    LinkError::InvalidPathDifference {
                        path: String::from_str(path),
                        base: String::from_str(base),
                    },
                )
            }
        },
        None => Err(
            LinkError::InvalidPathDifference {
                path: String::from_str(path),
                base: String::from_str(base),
            },
        ),
    }
}

/// The place of `path` below `base`.
pub open spec fn position(path: Seq<char>, base: Seq<char>) -> Result<Seq<char>, LinkErrorView> {
    checked(path_difference(path, base), path, base)
}

/// Computes the place of `path` below `base`.
pub fn relative_position(path: &str, base: &str) -> (place: Result<String, LinkError>)
    ensures
        text_result(place) == position(path@, base@),
{
    checked_position(diff_paths(path, base), path, base)
}

/// Where one file of the source tree is linked, and to what.
#[derive(Debug)]
pub struct LinkPaths {
    /// The path at which the symbolic link is made.
    pub link: String,
    /// What the symbolic link points at.
    pub target: String,
    /// The file with every symbolic link resolved.
    pub resolved: String,
}

/// `LinkPaths` as a mathematical value.
pub struct LinkPathsView {
    pub link: Seq<char>,
    pub target: Seq<char>,
    pub resolved: Seq<char>,
}

impl View for LinkPaths {
    type V = LinkPathsView;

    open spec fn view(&self) -> LinkPathsView {
        LinkPathsView { link: self.link@, target: self.target@, resolved: self.resolved@ }
    }
}

/// The paths of a result, or its failure, as a mathematical value.
pub open spec fn paths_result(result: Result<LinkPaths, LinkError>) -> Result<
    LinkPathsView,
    LinkErrorView,
> {
    match result {
        Ok(paths) => Ok(paths@),
        Err(error) => Err(error@),
    }
}

/// The paths for the file `entry` of a tree that was walked from `root`.
///
/// The link stands under `link_root` at the place that the file, by the path
/// it was walked by, has below `root`: every file of the tree gets a link
/// under its own name. The link points at the absolute form of the walked
/// path, so a file that is itself a symbolic link is followed and not
/// replaced by what it leads to; the resolved path is kept to be shown.
///
/// The entry must have a resolved path, an absolute form, and a place below
/// `root`; these are asked for in this order.
pub open spec fn file_paths(
    root: Seq<char>,
    entry: WalkEntryView,
    link_root: Seq<char>,
    cwd: Option<Seq<char>>,
) -> Result<LinkPathsView, LinkErrorView> {
    match entry.canonical {
        None => Err(LinkErrorView::PathResolution { path: entry.path }),
        Some(resolved) => match absolute(entry.path, cwd) {
            None => Err(LinkErrorView::PathResolution { path: entry.path }),
            Some(apparent) => match position(entry.path, root) {
                Err(error) => Err(error),
                Ok(place) => Ok(
                    LinkPathsView { link: joined(link_root, place), target: apparent, resolved },
                ),
            },
        },
    }
}

/// Works out where the file `entry` is linked, and to what.
pub fn get_paths(root: &str, entry: &WalkEntry, link_root: &str, cwd: Option<&str>) -> (paths:
    Result<LinkPaths, LinkError>)
    ensures
        paths_result(paths) == file_paths(root@, entry@, link_root@, cwd.deep_view()),
{
    let resolved = match &entry.canonical {
        Some(resolved) => resolved,
        None => {
            return Err(LinkError::PathResolution { path: entry.path.clone() });
        },
    };
    let apparent = match absolute_path(entry.path.as_str(), cwd) {
        Ok(apparent) => apparent,
        Err(error) => {
            return Err(error);
        },
    };
    let place = match relative_position(entry.path.as_str(), root) {
        Ok(place) => place,
        Err(error) => {
            return Err(error);
        },
    };
    Ok(
        LinkPaths {
            link: join(link_root, place.as_str()),
            target: apparent,
            resolved: resolved.clone(),
        },
    )
}

/// The steps that one entry of a tree walked from `root` asks for.
///
/// A directory is mirrored as a directory at the place that its walked path
/// has below `root`. A file gets the directory above its link, then the
/// link. An entry that is neither asks for nothing, and one that could not be
/// read ends the operation.
pub open spec fn entry_steps(
    root: Seq<char>,
    entry: WalkEntryView,
    link_root: Seq<char>,
    cwd: Option<Seq<char>>,
) -> Result<Seq<StepView>, LinkErrorView> {
    match entry.kind {
        EntryKind::Directory => match position(entry.path, root) {
            Err(error) => Err(error),
            Ok(place) => Ok(seq![StepView::EnsureDirectory { path: joined(link_root, place) }]),
        },
        EntryKind::File => match file_paths(root, entry, link_root, cwd) {
            Err(error) => Err(error),
            Ok(paths) => {
                let link = StepView::Link {
                    target: paths.target,
                    link: paths.link,
                    resolved: paths.resolved,
                };
                match parent(paths.link) {
                    Some(dir) => Ok(seq![StepView::EnsureDirectory { path: dir }, link]),
                    None => Ok(seq![link]),
                }
            },
        },
        EntryKind::Other => Ok(Seq::empty()),
        EntryKind::Unreadable => Err(LinkErrorView::PathResolution { path: entry.path }),
    }
}

/// The steps of a result, or its failure, as a mathematical value.
pub open spec fn steps_result(result: Result<Vec<Step>, LinkError>) -> Result<
    Seq<StepView>,
    LinkErrorView,
> {
    match result {
        Ok(steps) => Ok(steps.deep_view()),
        Err(error) => Err(error@),
    }
}

/// Works out the steps for one entry of the source tree.
pub fn plan_entry(root: &str, entry: &WalkEntry, link_root: &str, cwd: Option<&str>) -> (steps:
    Result<Vec<Step>, LinkError>)
    ensures
        steps_result(steps) == entry_steps(root@, entry@, link_root@, cwd.deep_view()),
{
    let mut steps: Vec<Step> = Vec::new();
    match entry.kind {
        EntryKind::Directory => {
            match relative_position(entry.path.as_str(), root) {
                Ok(place) => {
                    steps.push(Step::EnsureDirectory { path: join(link_root, place.as_str()) });
                    assert(steps.deep_view() =~= seq![
                        StepView::EnsureDirectory { path: joined(link_root@, place@) },
                    ]);
                    Ok(steps)
                },
                Err(error) => Err(error),
            }
        },
        EntryKind::File => {
            match get_paths(root, entry, link_root, cwd) {
                Ok(paths) => {
                    let dir = parent_of(paths.link.as_str());
                    let ghost link = StepView::Link {
                        target: paths.target@,
                        link: paths.link@,
                        resolved: paths.resolved@,
                    };
                    match dir {
                        Some(dir) => {
                            let ghost above = StepView::EnsureDirectory { path: dir@ };
                            steps.push(Step::EnsureDirectory { path: dir });
                            steps.push(
                                Step::Link {
                                    target: paths.target,
                                    link: paths.link,
                                    resolved: paths.resolved,
                                },
                            );
                            assert(steps.deep_view() =~= seq![above, link]);
                        },
                        None => {
                            steps.push(
                                Step::Link {
                                    target: paths.target,
                                    link: paths.link,
                                    resolved: paths.resolved,
                                },
                            );
                            assert(steps.deep_view() =~= seq![link]);
                        },
                    }
                    Ok(steps)
                },
                Err(error) => Err(error),
            }
        },
        EntryKind::Other => {
            assert(steps.deep_view() =~= Seq::empty());
            Ok(steps)
        },
        EntryKind::Unreadable => Err(LinkError::PathResolution { path: entry.path.clone() }),
    }
}

/// The steps for the first entries of a walk, taken in order up to the first
/// entry that fails.
pub open spec fn link_steps(
    root: Seq<char>,
    entries: Seq<WalkEntryView>,
    link_root: Seq<char>,
    cwd: Option<Seq<char>>,
) -> PlanView
    decreases entries.len(),
{
    if entries.len() == 0 {
        PlanView { steps: Seq::empty(), failure: None }
    } else {
        let before = link_steps(root, entries.drop_last(), link_root, cwd);
        if before.failure is Some {
            before
        } else {
            match entry_steps(root, entries.last(), link_root, cwd) {
                Ok(steps) => PlanView { steps: before.steps + steps, failure: None },
                Err(error) => PlanView { steps: before.steps, failure: Some(error) },
            }
        }
    }
}

/// What mirroring a walked source tree under `link_root` comes to.
///
/// The root of the tree must have been there to be resolved; then every
/// entry adds its steps, at its place below `source_root`, in the order of
/// the walk. The first entry that fails ends the plan: the steps before it
/// stand, and nothing after it is looked at.
pub open spec fn link_plan(
    link_root: Seq<char>,
    source_root: Seq<char>,
    cwd: Option<Seq<char>>,
    walk: SourceWalkView,
) -> PlanView {
    match walk.root {
        None => PlanView {
            steps: Seq::empty(),
            failure: Some(LinkErrorView::PathResolution { path: source_root }),
        },
        Some(_) => link_steps(source_root, walk.entries, link_root, cwd),
    }
}

/// A plan that has failed stays as it is, whatever entries follow.
pub proof fn lemma_failure_ends_plan(
    root: Seq<char>,
    entries: Seq<WalkEntryView>,
    link_root: Seq<char>,
    cwd: Option<Seq<char>>,
    done: int,
)
    requires
        0 <= done <= entries.len(),
        link_steps(root, entries.take(done), link_root, cwd).failure is Some,
    ensures
        link_steps(root, entries, link_root, cwd) == link_steps(
            root,
            entries.take(done),
            link_root,
            cwd,
        ),
    decreases entries.len() - done,
{
    if done == entries.len() {
        assert(entries.take(done) == entries);
    } else {
        assert(entries.take(done + 1).drop_last() == entries.take(done));
        lemma_failure_ends_plan(root, entries, link_root, cwd, done + 1);
    }
}

/// Plans the mirroring of a walked source tree under `link_root`.
pub fn plan_links(link_root: &str, source_root: &str, cwd: Option<&str>, walk: &SourceWalk) -> (plan:
    Plan)
    ensures
        plan@ == link_plan(link_root@, source_root@, cwd.deep_view(), walk@),
{
    if walk.root.is_none() {
        let steps: Vec<Step> = Vec::new();
        assert(steps.deep_view() =~= Seq::empty());
        return Plan {
            steps,
            failure: Some(LinkError::PathResolution { path: String::from_str(source_root) }),
        };
    }
    let mut steps: Vec<Step> = Vec::new();
    let mut failure: Option<LinkError> = None;
    let mut i: usize = 0;
    assert(steps.deep_view() =~= Seq::empty());
    while i < walk.entries.len() && failure.is_none()
        invariant
            i <= walk.entries.len(),
            (PlanView { steps: steps.deep_view(), failure: failure.deep_view() }) == link_steps(
                source_root@,
                walk.entries.deep_view().take(i as int),
                link_root@,
                cwd.deep_view(),
            ),
        decreases walk.entries.len() - i, failure.is_none() as int,
    {
        proof {
            let now = walk.entries.deep_view().take(i + 1);
            assert(now.drop_last() == walk.entries.deep_view().take(i as int));
            assert(now.last() == walk.entries[i as int]@);
        }
        match plan_entry(source_root, &walk.entries[i], link_root, cwd) {
            Ok(mut more) => {
                let ghost before = steps.deep_view();
                let ghost added = more.deep_view();
                steps.append(&mut more);
                assert(steps.deep_view() =~= before + added);
            },
            Err(error) => {
                failure = Some(error);
            },
        }
        i += 1;
    }
    proof {
        if failure.is_some() {
            lemma_failure_ends_plan(
                source_root@,
                walk.entries.deep_view(),
                link_root@,
                cwd.deep_view(),
                i as int,
            );
        } else {
            assert(walk.entries.deep_view().take(i as int) == walk.entries.deep_view());
        }
    }
    Plan { steps, failure }
}

/// The files of a result, or its failure, as a mathematical value.
pub open spec fn files_result(result: Result<Vec<String>, LinkError>) -> Result<
    Seq<Seq<char>>,
    LinkErrorView,
> {
    match result {
        Ok(files) => Ok(files.deep_view()),
        Err(error) => Err(error@),
    }
}

/// The regular files among `entries`, each as its place below `folder`, in
/// the order of the walk and each place once. There is no such list where
/// one of the files has no place below `folder`.
pub open spec fn relative_files(folder: Seq<char>, entries: Seq<WalkEntryView>) -> Result<
    Seq<Seq<char>>,
    LinkErrorView,
>
    decreases entries.len(),
{
    if entries.len() == 0 {
        Ok(Seq::empty())
    } else {
        match relative_files(folder, entries.drop_last()) {
            Err(error) => Err(error),
            Ok(before) => {
                let entry = entries.last();
                if entry.kind == EntryKind::File {
                    match position(entry.path, folder) {
                        Err(error) => Err(error),
                        Ok(place) => if before.contains(place) {
                            Ok(before)
                        } else {
                            Ok(before.push(place))
                        },
                    }
                } else {
                    Ok(before)
                }
            },
        }
    }
}

/// Once a file has no place below `folder`, no longer walk has a list.
pub proof fn lemma_failure_ends_files(folder: Seq<char>, entries: Seq<WalkEntryView>, done: int)
    requires
        0 <= done <= entries.len(),
        relative_files(folder, entries.take(done)) is Err,
    ensures
        relative_files(folder, entries) == relative_files(folder, entries.take(done)),
    decreases entries.len() - done,
{
    if done == entries.len() {
        assert(entries.take(done) == entries);
    } else {
        assert(entries.take(done + 1).drop_last() == entries.take(done));
        lemma_failure_ends_files(folder, entries, done + 1);
    }
}

fn holds(list: &Vec<String>, text: &String) -> (yes: bool)
    ensures
        yes == list.deep_view().contains(text@),
{
    let mut i: usize = 0;
    while i < list.len()
        invariant
            i <= list.len(),
            forall|k: int| 0 <= k < i ==> list.deep_view()[k] != text@,
        decreases list.len() - i,
    {
        if list[i] == *text {
            assert(list.deep_view()[i as int] == text@);
            return true;
        }
        i += 1;
    }
    false
}

/// Lists the regular files of a walked tree by their places below `folder`.
pub fn get_relative_files(folder: &str, entries: &Vec<WalkEntry>) -> (files: Result<
    Vec<String>,
    LinkError,
>)
    ensures
        files_result(files) == relative_files(folder@, entries.deep_view()),
{
    let mut files: Vec<String> = Vec::new();
    let mut i: usize = 0;
    assert(files.deep_view() =~= Seq::empty());
    while i < entries.len()
        invariant
            i <= entries.len(),
            relative_files(folder@, entries.deep_view().take(i as int)) == Ok::<
                Seq<Seq<char>>,
                LinkErrorView,
            >(files.deep_view()),
        decreases entries.len() - i,
    {
        proof {
            let now = entries.deep_view().take(i + 1);
            assert(now.drop_last() == entries.deep_view().take(i as int));
            assert(now.last() == entries[i as int]@);
        }
        match entries[i].kind {
            EntryKind::File => {
                match relative_position(entries[i].path.as_str(), folder) {
                    Ok(place) => {
                        if !holds(&files, &place) {
                            let ghost before = files.deep_view();
                            files.push(place);
                            assert(files.deep_view() =~= before.push(place@));
                        }
                    },
                    Err(error) => {
                        proof {
                            lemma_failure_ends_files(folder@, entries.deep_view(), i + 1);
                        }
                        return Err(error);
                    },
                }
            },
            _ => {},
        }
        i += 1;
    }
    assert(entries.deep_view().take(i as int) == entries.deep_view());
    Ok(files)
}

/// One removal under `link_root` for each of `files`.
pub open spec fn unlink_steps(link_root: Seq<char>, files: Seq<Seq<char>>) -> Seq<StepView> {
    Seq::new(files.len(), |i: int| StepView::Unlink { path: joined(link_root, files[i]) })
}

/// What removing the links of a walked source tree comes to: for every
/// regular file of the tree, the symbolic link at the same place under
/// `link_root` is removed where there is one. Nothing is removed where a
/// file of the tree has no place below `source_root`.
pub open spec fn unlink_plan(link_root: Seq<char>, source_root: Seq<char>, walk: SourceWalkView) -> PlanView {
    match relative_files(source_root, walk.entries) {
        Ok(files) => PlanView { steps: unlink_steps(link_root, files), failure: None },
        Err(error) => PlanView { steps: Seq::empty(), failure: Some(error) },
    }
}

/// Plans the removal of the links of a walked source tree.
pub fn plan_unlinks(link_root: &str, source_root: &str, walk: &SourceWalk) -> (plan: Plan)
    ensures
        plan@ == unlink_plan(link_root@, source_root@, walk@),
{
    let mut steps: Vec<Step> = Vec::new();
    match get_relative_files(source_root, &walk.entries) {
        Ok(files) => {
            let mut i: usize = 0;
            while i < files.len()
                invariant
                    i <= files.len(),
                    steps.deep_view() =~= unlink_steps(link_root@, files.deep_view().take(i as int)),
                decreases files.len() - i,
            {
                let ghost before = steps.deep_view();
                let path = join(link_root, files[i].as_str());
                steps.push(Step::Unlink { path });
                i += 1;
                assert(steps.deep_view() =~= before.push(
                    StepView::Unlink { path: joined(link_root@, files[i - 1]@) },
                ));
            }
            assert(files.deep_view().take(i as int) == files.deep_view());
            Plan { steps, failure: None }
        },
        Err(error) => {
            assert(steps.deep_view() =~= Seq::empty());
            Plan { steps, failure: Some(error) }
        },
    }
}

/// Linking a whole directory at once: the link root must be vacant, then
/// it becomes a symbolic link to the source directory.
pub open spec fn direct_link_plan(link_root: Seq<char>, source_root: Seq<char>) -> PlanView {
    PlanView {
        steps: seq![
            StepView::RequireVacant { path: link_root },
            StepView::Link { target: source_root, link: link_root, resolved: source_root },
        ],
        failure: None,
    }
}

/// Plans the linking of a whole directory at once.
pub fn plan_direct_link(link_root: &str, source_root: &str) -> (plan: Plan)
    ensures
        plan@ == direct_link_plan(link_root@, source_root@),
{
    let mut steps: Vec<Step> = Vec::new();
    steps.push(Step::RequireVacant { path: String::from_str(link_root) });
    steps.push(
        Step::Link {
            target: String::from_str(source_root),
            link: String::from_str(link_root),
            resolved: String::from_str(source_root),
        },
    );
    assert(steps.deep_view() =~= direct_link_plan(link_root@, source_root@).steps);
    Plan { steps, failure: None }
}

/// Unlinking a directory that was linked at once: the link root is removed
/// if it is a symbolic link.
pub open spec fn direct_unlink_plan(link_root: Seq<char>) -> PlanView {
    PlanView { steps: seq![StepView::RemoveLink { path: link_root }], failure: None }
}

/// Plans the unlinking of a directory that was linked at once.
pub fn plan_direct_unlink(link_root: &str) -> (plan: Plan)
    ensures
        plan@ == direct_unlink_plan(link_root@),
{
    let mut steps: Vec<Step> = Vec::new();
    steps.push(Step::RemoveLink { path: String::from_str(link_root) });
    assert(steps.deep_view() =~= direct_unlink_plan(link_root@).steps);
    Plan { steps, failure: None }
}

/// Begins linking the directory `source_root` at `link_root`.
///
/// With `recursive` the tree is mirrored: directories become directories,
/// files become symbolic links. Without it the link root itself becomes one
/// symbolic link to the source directory, unless something is there already.
/// Relative paths met on the way are read from `cwd`.
pub fn link_folder(link_root: &str, source_root: &str, recursive: bool, cwd: Option<&str>) -> (run:
    Run)
    ensures
        run@ == link_run(link_root@, source_root@, recursive, cwd.deep_view()),
{
    Run::link(link_root, source_root, recursive, cwd)
}

/// Begins removing the links to `source_root` from `link_root`.
///
/// With `recursive` the symbolic links that stand under the link root at the
/// places of the source tree's files are removed. Without it the link root
/// itself is removed if it is a symbolic link. Where nothing is at the link
/// root, nothing is done.
pub fn unlink_folder(link_root: &str, source_root: &str, recursive: bool) -> (run: Run)
    ensures
        run@ == unlink_run(link_root@, source_root@, recursive),
{
    Run::unlink(link_root, source_root, recursive)
}

} // verus!
