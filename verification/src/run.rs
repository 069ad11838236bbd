//! Carrying out an operation, one command at a time.
//!
//! A `Run` knows what has to happen next and never does it itself. Its
//! `pending` command is carried out by a host, which hands the `Reply` to
//! `advance`; this goes on until the pending command is `Finish`.

use vstd::prelude::*;
use crate::error::{LinkError, LinkErrorView};
use crate::symlink::{
    direct_link_plan,
    direct_unlink_plan,
    link_plan,
    plan_direct_link,
    plan_direct_unlink,
    plan_links,
    plan_unlinks,
    unlink_plan,
    Plan,
    PlanView,
    SourceWalk,
    SourceWalkView,
    Step,
    StepView,
};

verus! {

/// Which way an operation goes.
#[derive(Debug, Clone, Copy, PartialEq, Eq, Structural)]
pub enum Task {
    Link,
    Unlink,
}

/// How an operation ended when it did not fail.
#[derive(Debug, Clone, Copy, PartialEq, Eq, Structural)]
pub enum Outcome {
    /// Every step of linking was taken.
    Linked,
    /// Every step of unlinking was taken.
    Unlinked,
    /// There was nothing at the link root, so nothing was unlinked. This
    /// deserves a warning and is no failure.
    DestinationAbsent,
    /// The source tree holds no file, so nothing was unlinked. This
    /// deserves a warning and is no failure.
    NothingToUnlink,
    /// No module was asked for.
    NothingRequested,
}

/// What a host is asked to do.
#[derive(Debug)]
pub enum Command {
    /// Walk the tree below `root`, the root itself included, and answer
    /// with what was found.
    Walk { root: String },
    /// Answer whether anything is found at `path`, symbolic links followed.
    Probe { path: String },
    /// Answer whether `path` itself is a symbolic link.
    ProbeLink { path: String },
    /// Create the directory `path` and every directory missing above it, and
    /// answer whether that succeeded.
    CreateDirs { path: String },
    /// Make a symbolic link at `link` that points at `target`, and answer
    /// whether that succeeded. `resolved` is what `target` leads to; it is
    /// there to be shown.
    Symlink { target: String, link: String, resolved: String },
    /// Remove the file or symbolic link at `path`, never a directory, and
    /// answer whether that succeeded.
    Remove { path: String },
    /// Nothing is left to do: the operation ended with `result`.
    Finish { result: Result<Outcome, LinkError> },
}

/// A `Command` as a mathematical value.
pub enum CommandView {
    Walk { root: Seq<char> },
    Probe { path: Seq<char> },
    ProbeLink { path: Seq<char> },
    CreateDirs { path: Seq<char> },
    Symlink { target: Seq<char>, link: Seq<char>, resolved: Seq<char> },
    Remove { path: Seq<char> },
    Finish { result: Result<Outcome, LinkErrorView> },
}

/// The end of an operation as a mathematical value.
pub open spec fn result_view(result: Result<Outcome, LinkError>) -> Result<Outcome, LinkErrorView> {
    match result {
        Ok(outcome) => Ok(outcome),
        Err(error) => Err(error@),
    }
}

impl View for Command {
    type V = CommandView;

    open spec fn view(&self) -> CommandView {
        match *self {
            Command::Walk { root } => CommandView::Walk { root: root@ },
            Command::Probe { path } => CommandView::Probe { path: path@ },
            Command::ProbeLink { path } => CommandView::ProbeLink { path: path@ },
            Command::CreateDirs { path } => CommandView::CreateDirs { path: path@ },
            Command::Symlink { target, link, resolved } => CommandView::Symlink {
                target: target@,
                link: link@,
                resolved: resolved@,
            },
            Command::Remove { path } => CommandView::Remove { path: path@ },
            Command::Finish { result } => CommandView::Finish { result: result_view(result) },
        }
    }
}

impl CommandView {
    /// Whether carrying the command out may change what is on disk.
    pub open spec fn changes_disk(self) -> bool {
        self is CreateDirs || self is Symlink || self is Remove
    }
}

/// What a host found or did.
#[derive(Debug)]
pub enum Reply {
    /// The answer to `Walk`.
    Walked(SourceWalk),
    /// The answer to every other command: yes or no.
    Answer(bool),
}

/// A `Reply` as a mathematical value.
pub enum ReplyView {
    Walked(SourceWalkView),
    Answer(bool),
}

impl View for Reply {
    type V = ReplyView;

    open spec fn view(&self) -> ReplyView {
        match *self {
            Reply::Walked(walk) => ReplyView::Walked(walk@),
            Reply::Answer(yes) => ReplyView::Answer(yes),
        }
    }
}

impl ReplyView {
    /// The reply read as yes or no. A walk is no answer, and counts as no.
    pub open spec fn yes(self) -> bool {
        match self {
            ReplyView::Answer(yes) => yes,
            ReplyView::Walked(_) => false,
        }
    }

    /// The reply read as a walk. An answer is no walk, and counts as a walk
    /// that found nothing, not even the root.
    pub open spec fn walk(self) -> SourceWalkView {
        match self {
            ReplyView::Walked(walk) => walk,
            ReplyView::Answer(_) => SourceWalkView { root: None, entries: Seq::empty() },
        }
    }
}

impl Reply {
    fn yes(&self) -> (yes: bool)
        ensures
            yes == self@.yes(),
    {
        match self {
            Reply::Answer(yes) => *yes,
            Reply::Walked(_) => false,
        }
    }

    fn walk(self) -> (walk: SourceWalk)
        ensures
            walk@ == self@.walk(),
    {
        match self {
            Reply::Walked(walk) => walk,
            Reply::Answer(_) => {
                let walk = SourceWalk { root: None, entries: Vec::new() };
                assert(walk.entries.deep_view() =~= Seq::empty());
                walk
            },
        }
    }
}

/// Where a run stands.
#[derive(Debug)]
enum Stage {
    ProbingRoot,
    Walking,
    Checking { at: usize },
    Acting { at: usize },
    Finished { result: Result<Outcome, LinkError> },
}

/// Where a run stands, as a mathematical value.
pub enum StageView {
    /// Unlinking has asked whether anything is at the link root.
    ProbingRoot,
    /// The source tree is being walked.
    Walking,
    /// Step `at` of the plan has asked its question.
    Checking { at: int },
    /// Step `at` of the plan is changing the disk.
    Acting { at: int },
    /// The run is over.
    Finished { result: Result<Outcome, LinkErrorView> },
}

impl View for Stage {
    type V = StageView;

    closed spec fn view(&self) -> StageView {
        match *self {
            Stage::ProbingRoot => StageView::ProbingRoot,
            Stage::Walking => StageView::Walking,
            Stage::Checking { at } => StageView::Checking { at: at as int },
            Stage::Acting { at } => StageView::Acting { at: at as int },
            Stage::Finished { result } => StageView::Finished { result: result_view(result) },
        }
    }
}

/// An operation on one module that is under way.
#[derive(Debug)]
pub struct Run {
    task: Task,
    recursive: bool,
    link_root: String,
    source_root: String,
    cwd: Option<String>,
    plan: Plan,
    stage: Stage,
}

/// A `Run` as a mathematical value.
pub struct RunView {
    pub task: Task,
    /// Whether the tree is mirrored entry by entry, or linked as a whole.
    pub recursive: bool,
    pub link_root: Seq<char>,
    pub source_root: Seq<char>,
    /// The working directory, from which linking reads relative paths.
    pub cwd: Option<Seq<char>>,
    /// The steps that are being taken; empty until they are known.
    pub plan: PlanView,
    pub stage: StageView,
}

/// How a run ends that has taken the last of its steps.
pub open spec fn concluded(plan: PlanView, task: Task) -> Result<Outcome, LinkErrorView> {
    match plan.failure {
        Some(error) => Err(error),
        None => Ok(
            match task {
                Task::Link => Outcome::Linked,
                Task::Unlink => Outcome::Unlinked,
            },
        ),
    }
}

/// The stage in which step `at` of `plan` begins. A link has no question
/// to ask; beyond the last step the run is over.
pub open spec fn entered(plan: PlanView, at: int, task: Task) -> StageView {
    if at >= plan.steps.len() {
        StageView::Finished { result: concluded(plan, task) }
    } else if plan.steps[at] is Link {
        StageView::Acting { at }
    } else {
        StageView::Checking { at }
    }
}

/// The question that a step asks before anything is changed. A link asks
/// none: it goes straight to its change.
pub open spec fn question(step: StepView) -> CommandView {
    match step {
        StepView::EnsureDirectory { path } => CommandView::Probe { path },
        StepView::Unlink { path } => CommandView::ProbeLink { path },
        StepView::RequireVacant { path } => CommandView::Probe { path },
        StepView::RemoveLink { path } => CommandView::ProbeLink { path },
        StepView::Link { target, link, resolved } => CommandView::Symlink { target, link, resolved },
    }
}

/// The change that a step makes to the disk. A link root that must be
/// vacant is asked about and never changed.
pub open spec fn change(step: StepView) -> CommandView {
    match step {
        StepView::EnsureDirectory { path } => CommandView::CreateDirs { path },
        StepView::Link { target, link, resolved } => CommandView::Symlink { target, link, resolved },
        StepView::Unlink { path } => CommandView::Remove { path },
        StepView::RemoveLink { path } => CommandView::Remove { path },
        StepView::RequireVacant { path } => CommandView::Probe { path },
    }
}

/// The failure that a step ends in when its change cannot be made; for a
/// link root that must be vacant, when it is not.
pub open spec fn change_failure(step: StepView) -> LinkErrorView {
    match step {
        StepView::EnsureDirectory { path } => LinkErrorView::DirectoryCreation { path },
        StepView::Link { target, link, resolved } => LinkErrorView::SymlinkCreation { target, link },
        StepView::Unlink { path } => LinkErrorView::SymlinkRemoval { path },
        StepView::RemoveLink { path } => LinkErrorView::SymlinkRemoval { path },
        StepView::RequireVacant { path } => LinkErrorView::AlreadyLinked { path },
    }
}

/// What follows the answer to the question of step `at`.
///
/// A directory that is found is left alone, one that is missing is created.
/// An entry to unlink is removed where it is a symbolic link; where it is
/// none, or nothing is there, it is passed over. A link root that must be
/// vacant and is not ends the run, and so does one that must be a symbolic
/// link and is none.
pub open spec fn answered(plan: PlanView, at: int, task: Task, yes: bool) -> StageView {
    match plan.steps[at] {
        StepView::EnsureDirectory { path } => if yes {
            entered(plan, at + 1, task)
        } else {
            StageView::Acting { at }
        },
        StepView::Unlink { path } => if yes {
            StageView::Acting { at }
        } else {
            entered(plan, at + 1, task)
        },
        StepView::RequireVacant { path } => if yes {
            StageView::Finished { result: Err(LinkErrorView::AlreadyLinked { path }) }
        } else {
            entered(plan, at + 1, task)
        },
        StepView::RemoveLink { path } => if yes {
            StageView::Acting { at }
        } else {
            StageView::Finished { result: Err(LinkErrorView::NotSymlinked { path }) }
        },
        StepView::Link { target, link, resolved } => StageView::Acting { at },
    }
}

impl RunView {
    /// What holds of every run: a step that is under way is a step of the
    /// plan, a link is never asked about, and only unlinking asks about the
    /// link root.
    pub open spec fn wf(self) -> bool {
        match self.stage {
            StageView::ProbingRoot => self.task == Task::Unlink,
            StageView::Walking => self.recursive,
            StageView::Checking { at } => 0 <= at < self.plan.steps.len() && !(
            self.plan.steps[at] is Link),
            StageView::Acting { at } => 0 <= at < self.plan.steps.len() && !(
            self.plan.steps[at] is RequireVacant),
            StageView::Finished { result } => true,
        }
    }

    /// The command that the run waits for.
    pub open spec fn pending(self) -> CommandView {
        match self.stage {
            StageView::ProbingRoot => CommandView::Probe { path: self.link_root },
            StageView::Walking => CommandView::Walk { root: self.source_root },
            StageView::Checking { at } => question(self.plan.steps[at]),
            StageView::Acting { at } => change(self.plan.steps[at]),
            StageView::Finished { result } => CommandView::Finish { result },
        }
    }

    /// The plan that a walk of the source tree leads to.
    pub open spec fn planned(self, walk: SourceWalkView) -> PlanView {
        match self.task {
            Task::Link => link_plan(self.link_root, self.source_root, self.cwd, walk),
            Task::Unlink => unlink_plan(self.link_root, self.source_root, walk),
        }
    }

    /// The run with another plan and stage.
    pub open spec fn moved(self, plan: PlanView, stage: StageView) -> RunView {
        RunView { plan, stage, ..self }
    }

    /// The run after the host has replied to the pending command.
    ///
    /// Unlinking first asks about the link root: where nothing is there it
    /// ends at once, else a tree is walked and a directory linked as a whole
    /// is checked and removed. A walk gives the plan; unlinking ends at once
    /// where the plan is empty. A step that is checked goes on as `answered`
    /// says. A change that succeeded leads to the next step, one that did
    /// not ends the run. A run that is over stays as it is.
    pub open spec fn after(self, reply: ReplyView) -> RunView {
        match self.stage {
            StageView::ProbingRoot => if !reply.yes() {
                self.moved(
                    self.plan,
                    StageView::Finished { result: Ok(Outcome::DestinationAbsent) },
                )
            } else if self.recursive {
                self.moved(self.plan, StageView::Walking)
            } else {
                let plan = direct_unlink_plan(self.link_root);
                self.moved(plan, entered(plan, 0, self.task))
            },
            StageView::Walking => {
                let plan = self.planned(reply.walk());
                if self.task == Task::Unlink && plan.steps.len() == 0 && plan.failure is None {
                    self.moved(plan, StageView::Finished { result: Ok(Outcome::NothingToUnlink) })
                } else {
                    self.moved(plan, entered(plan, 0, self.task))
                }
            },
            StageView::Checking { at } => self.moved(
                self.plan,
                answered(self.plan, at, self.task, reply.yes()),
            ),
            StageView::Acting { at } => if reply.yes() {
                self.moved(self.plan, entered(self.plan, at + 1, self.task))
            } else {
                self.moved(
                    self.plan,
                    StageView::Finished { result: Err(change_failure(self.plan.steps[at])) },
                )
            },
            StageView::Finished { result } => self,
        }
    }

    /// The run after the host has replied to one command after another.
    pub open spec fn after_all(self, replies: Seq<ReplyView>) -> RunView
        decreases replies.len(),
    {
        if replies.len() == 0 {
            self
        } else {
            self.after_all(replies.drop_last()).after(replies.last())
        }
    }
}

/// The run that links `source_root` at `link_root`.
///
/// Entry by entry, it begins with the walk of the source tree. As a whole,
/// it asks that the link root be vacant and then links it.
pub open spec fn link_run(
    link_root: Seq<char>,
    source_root: Seq<char>,
    recursive: bool,
    cwd: Option<Seq<char>>,
) -> RunView {
    let plan = if recursive {
        PlanView { steps: Seq::empty(), failure: None }
    } else {
        direct_link_plan(link_root, source_root)
    };
    RunView {
        task: Task::Link,
        recursive,
        link_root,
        source_root,
        cwd,
        plan,
        stage: if recursive {
            StageView::Walking
        } else {
            entered(plan, 0, Task::Link)
        },
    }
}

/// The run that removes the links to `source_root` from `link_root`. It
/// begins by asking whether anything is at the link root.
pub open spec fn unlink_run(link_root: Seq<char>, source_root: Seq<char>, recursive: bool) -> RunView {
    RunView {
        task: Task::Unlink,
        recursive,
        link_root,
        source_root,
        cwd: None,
        plan: PlanView { steps: Seq::empty(), failure: None },
        stage: StageView::ProbingRoot,
    }
}

impl View for Run {
    type V = RunView;

    closed spec fn view(&self) -> RunView {
        RunView {
            task: self.task,
            recursive: self.recursive,
            link_root: self.link_root@,
            source_root: self.source_root@,
            cwd: self.cwd.deep_view(),
            plan: self.plan@,
            stage: self.stage@,
        }
    }
}

fn conclude(plan: &Plan, task: Task) -> (result: Result<Outcome, LinkError>)
    ensures
        result_view(result) == concluded(plan@, task),
{
    match &plan.failure {
        Some(error) => Err(error.clone()),
        None => Ok(
            match task {
                Task::Link => Outcome::Linked,
                Task::Unlink => Outcome::Unlinked,
            },
        ),
    }
}

fn enter(plan: &Plan, at: usize, task: Task) -> (stage: Stage)
    ensures
        stage@ == entered(plan@, at as int, task),
{
    if at >= plan.steps.len() {
        Stage::Finished { result: conclude(plan, task) }
    } else {
        assert(plan@.steps[at as int] == plan.steps[at as int]@);
        match &plan.steps[at] {
            Step::Link { .. } => Stage::Acting { at },
            _ => Stage::Checking { at },
        }
    }
}

fn ask(step: &Step) -> (command: Command)
    ensures
        command@ == question(step@),
{
    match step {
        Step::EnsureDirectory { path } => Command::Probe { path: path.clone() },
        Step::Unlink { path } => Command::ProbeLink { path: path.clone() },
        Step::RequireVacant { path } => Command::Probe { path: path.clone() },
        Step::RemoveLink { path } => Command::ProbeLink { path: path.clone() },
        Step::Link { target, link, resolved } => Command::Symlink {
            target: target.clone(),
            link: link.clone(),
            resolved: resolved.clone(),
        },
    }
}

fn act(step: &Step) -> (command: Command)
    ensures
        command@ == change(step@),
{
    match step {
        Step::EnsureDirectory { path } => Command::CreateDirs { path: path.clone() },
        Step::Link { target, link, resolved } => Command::Symlink {
            target: target.clone(),
            link: link.clone(),
            resolved: resolved.clone(),
        },
        Step::Unlink { path } => Command::Remove { path: path.clone() },
        Step::RemoveLink { path } => Command::Remove { path: path.clone() },
        Step::RequireVacant { path } => Command::Probe { path: path.clone() },
    }
}

fn fail(step: &Step) -> (error: LinkError)
    ensures
        error@ == change_failure(step@),
{
    match step {
        Step::EnsureDirectory { path } => LinkError::DirectoryCreation { path: path.clone() },
        Step::Link { target, link, resolved } => LinkError::SymlinkCreation {
            target: target.clone(),
            link: link.clone(),
        },
        Step::Unlink { path } => LinkError::SymlinkRemoval { path: path.clone() },
        Step::RemoveLink { path } => LinkError::SymlinkRemoval { path: path.clone() },
        Step::RequireVacant { path } => LinkError::AlreadyLinked { path: path.clone() },
    }
}

fn answer(plan: &Plan, at: usize, task: Task, yes: bool) -> (stage: Stage)
    requires
        at < plan.steps.len(),
    ensures
        stage@ == answered(plan@, at as int, task, yes),
{
    assert(plan@.steps[at as int] == plan.steps[at as int]@);
    match &plan.steps[at] {
        Step::EnsureDirectory { path } => if yes {
            enter(plan, at + 1, task)
        } else {
            Stage::Acting { at }
        },
        Step::Unlink { path } => if yes {
            Stage::Acting { at }
        } else {
            enter(plan, at + 1, task)
        },
        Step::RequireVacant { path } => if yes {
            Stage::Finished { result: Err(LinkError::AlreadyLinked { path: path.clone() }) }
        } else {
            enter(plan, at + 1, task)
        },
        Step::RemoveLink { path } => if yes {
            Stage::Acting { at }
        } else {
            Stage::Finished { result: Err(LinkError::NotSymlinked { path: path.clone() }) }
        },
        Step::Link { .. } => Stage::Acting { at },
    }
}

fn as_text(text: &Option<String>) -> (borrowed: Option<&str>)
    ensures
        borrowed.deep_view() == text.deep_view(),
{
    match text {
        Some(text) => Some(text.as_str()),
        None => None,
    }
}

fn keep(text: Option<&str>) -> (owned: Option<String>)
    ensures
        owned.deep_view() == text.deep_view(),
{
    match text {
        Some(text) => Some(String::from_str(text)),
        None => None,
    }
}

fn no_plan() -> (plan: Plan)
    ensures
        plan@ == (PlanView { steps: Seq::empty(), failure: None }),
{
    let plan = Plan { steps: Vec::new(), failure: None };
    assert(plan.steps.deep_view() =~= Seq::empty());
    plan
}

impl Run {
    #[verifier::type_invariant]
    spec fn valid(self) -> bool {
        self@.wf()
    }

    /// Begins linking `source_root` at `link_root`.
    pub(crate) fn link(link_root: &str, source_root: &str, recursive: bool, cwd: Option<&str>) -> (run:
        Run)
        ensures
            run@ == link_run(link_root@, source_root@, recursive, cwd.deep_view()),
    {
        if recursive {
            Run {
                task: Task::Link,
                recursive,
                link_root: String::from_str(link_root),
                source_root: String::from_str(source_root),
                cwd: keep(cwd),
                plan: no_plan(),
                stage: Stage::Walking,
            }
        } else {
            let plan = plan_direct_link(link_root, source_root);
            let stage = enter(&plan, 0, Task::Link);
            Run {
                task: Task::Link,
                recursive,
                link_root: String::from_str(link_root),
                source_root: String::from_str(source_root),
                cwd: keep(cwd),
                plan,
                stage,
            }
        }
    }

    /// Begins removing the links to `source_root` from `link_root`.
    pub(crate) fn unlink(link_root: &str, source_root: &str, recursive: bool) -> (run: Run)
        ensures
            run@ == unlink_run(link_root@, source_root@, recursive),
    {
        Run {
            task: Task::Unlink,
            recursive,
            link_root: String::from_str(link_root),
            source_root: String::from_str(source_root),
            cwd: None,
            plan: no_plan(),
            stage: Stage::ProbingRoot,
        }
    }

    /// The command that the host is to carry out now.
    pub fn pending(&self) -> (command: Command)
        ensures
            self@.wf(),
            command@ == self@.pending(),
    {
        proof {
            use_type_invariant(self);
        }
        match &self.stage {
            Stage::ProbingRoot => Command::Probe { path: self.link_root.clone() },
            Stage::Walking => Command::Walk { root: self.source_root.clone() },
            Stage::Checking { at } => {
                assert(self.plan@.steps[*at as int] == self.plan.steps[*at as int]@);
                ask(&self.plan.steps[*at])
            },
            Stage::Acting { at } => {
                assert(self.plan@.steps[*at as int] == self.plan.steps[*at as int]@);
                act(&self.plan.steps[*at])
            },
            Stage::Finished { result } => Command::Finish {
                result: match result {
                    Ok(outcome) => Ok(*outcome),
                    Err(error) => Err(error.clone()),
                },
            },
        }
    }

    /// How the run ended, once it is over.
    pub fn result(&self) -> (result: Option<Result<Outcome, LinkError>>)
        ensures
            match result {
                Some(result) => self@.stage == (StageView::Finished { result: result_view(result) }),
                None => !(self@.stage is Finished),
            },
    {
        match &self.stage {
            Stage::Finished { result } => Some(
                match result {
                    Ok(outcome) => Ok(*outcome),
                    Err(error) => Err(error.clone()),
                },
            ),
            _ => None,
        }
    }

    /// Whether the run is over.
    pub fn is_finished(&self) -> (over: bool)
        ensures
            over == (self@.stage is Finished),
    {
        match &self.stage {
            Stage::Finished { .. } => true,
            _ => false,
        }
    }

    /// Takes the host's reply to the pending command and moves on.
    pub fn advance(self, reply: Reply) -> (next: Run)
        ensures
            next@ == self@.after(reply@),
    {
        proof {
            use_type_invariant(&self);
        }
        let ghost before = self@;
        let Run { task, recursive, link_root, source_root, cwd, plan, stage } = self;
        assert(before.plan == plan@ && before.stage == stage@);
        match stage {
            Stage::ProbingRoot => {
                if !reply.yes() {
                    let stage = Stage::Finished { result: Ok(Outcome::DestinationAbsent) };
                    Run { task, recursive, link_root, source_root, cwd, plan, stage }
                } else if recursive {
                    Run { task, recursive, link_root, source_root, cwd, plan, stage: Stage::Walking }
                } else {
                    let plan = plan_direct_unlink(link_root.as_str());
                    let stage = enter(&plan, 0, task);
                    Run { task, recursive, link_root, source_root, cwd, plan, stage }
                }
            },
            Stage::Walking => {
                let walk = reply.walk();
                let plan = match task {
                    Task::Link => plan_links(
                        link_root.as_str(),
                        source_root.as_str(),
                        as_text(&cwd),
                        &walk,
                    ),
                    Task::Unlink => plan_unlinks(link_root.as_str(), source_root.as_str(), &walk),
                };
                let nothing = match task {
                    Task::Link => false,
                    Task::Unlink => plan.steps.len() == 0 && plan.failure.is_none(),
                };
                let stage = if nothing {
                    Stage::Finished { result: Ok(Outcome::NothingToUnlink) }
                } else {
                    enter(&plan, 0, task)
                };
                Run { task, recursive, link_root, source_root, cwd, plan, stage }
            },
            Stage::Checking { at } => {
                let stage = answer(&plan, at, task, reply.yes());
                Run { task, recursive, link_root, source_root, cwd, plan, stage }
            },
            Stage::Acting { at } => {
                assert(at < plan.steps.len());
                assert(plan@.steps[at as int] == plan.steps[at as int]@);
                let stage = if reply.yes() {
                    enter(&plan, at + 1, task)
                } else {
                    Stage::Finished { result: Err(fail(&plan.steps[at])) }
                };
                Run { task, recursive, link_root, source_root, cwd, plan, stage }
            },
            Stage::Finished { result } => {
                Run {
                    task,
                    recursive,
                    link_root,
                    source_root,
                    cwd,
                    plan,
                    stage: Stage::Finished { result },
                }
            },
        }
    }
}

} // verus!
