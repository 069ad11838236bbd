//! One request over several modules: what is done for each module asked
//! for, in which order, and when it all stops.

use vstd::prelude::*;
use vstd::pervasive::unreached;
use crate::config::{ModuleConfig, PackageConfig};
use crate::error::{LinkError, LinkErrorView};
use crate::module::{
    get_matching_modules,
    get_module_map,
    lemma_matching_intersects,
    lemma_module_map_holds_modules,
    lemma_module_map_names,
    link_module,
    matching,
    module_map,
    module_run,
    names_of,
    unlink_module,
};
use crate::run::{result_view, Command, CommandView, Outcome, Reply, ReplyView, Run, RunView, StageView, Task};

verus! {

/// What a request asks for.
#[derive(Debug, Clone, Copy, PartialEq, Eq, Structural)]
pub enum Operation {
    /// Link each module.
    Link,
    /// Unlink each module.
    Unlink,
    /// Unlink each module, then link it again.
    Sync,
}

/// One task on one module.
#[derive(Debug)]
pub struct Job<'a> {
    pub task: Task,
    pub module: &'a ModuleConfig,
}

/// A `Job` as a mathematical value.
pub struct JobView {
    pub task: Task,
    pub module: ModuleConfig,
}

impl<'a> View for Job<'a> {
    type V = JobView;

    open spec fn view(&self) -> JobView {
        JobView { task: self.task, module: *self.module }
    }
}

impl<'a> DeepView for Job<'a> {
    type V = JobView;

    open spec fn deep_view(&self) -> JobView {
        self@
    }
}

/// What `operation` comes to for one module.
pub open spec fn jobs_for(operation: Operation, module: ModuleConfig) -> Seq<JobView> {
    match operation {
        Operation::Link => seq![JobView { task: Task::Link, module }],
        Operation::Unlink => seq![JobView { task: Task::Unlink, module }],
        Operation::Sync => seq![
            JobView { task: Task::Unlink, module },
            JobView { task: Task::Link, module },
        ],
    }
}

/// What `operation` comes to for the modules that `names` lead to, one
/// name after the other.
pub open spec fn jobs_for_names(
    operation: Operation,
    modules: Seq<ModuleConfig>,
    names: Seq<Seq<char>>,
) -> Seq<JobView>
    decreases names.len(),
{
    if names.len() == 0 {
        Seq::empty()
    } else {
        jobs_for_names(operation, modules, names.drop_last()) + jobs_for(
            operation,
            *module_map(modules)[names.last()],
        )
    }
}

/// The jobs of a request: `operation` on every module of the manifest that
/// `requested` names. A name that the manifest does not have is passed over.
pub open spec fn scheduled(
    operation: Operation,
    modules: Seq<ModuleConfig>,
    requested: Seq<Seq<char>>,
) -> Seq<JobView> {
    jobs_for_names(operation, modules, matching(requested, names_of(modules).to_set()))
}

/// Lays out the jobs of a request: for every requested name that the
/// manifest declares, in the order of the request, what `operation` comes to
/// for the module of that name.
pub fn schedule<'a>(
    kdot_config: &'a PackageConfig,
    operation: Operation,
    modules_names: &[String],
) -> (jobs: Vec<Job<'a>>)
    ensures
        jobs.deep_view() == scheduled(operation, kdot_config.modules@, modules_names.deep_view()),
{
    let map = get_module_map(kdot_config);
    let names = get_matching_modules(kdot_config, modules_names);
    let ghost modules = kdot_config.modules@;
    let mut jobs: Vec<Job<'a>> = Vec::new();
    let mut i: usize = 0;
    assert(jobs.deep_view() =~= Seq::empty());
    while i < names.len()
        invariant
            i <= names.len(),
            modules == kdot_config.modules@,
            map@ == module_map(modules),
            names.deep_view() == matching(modules_names.deep_view(), names_of(modules).to_set()),
            jobs.deep_view() == jobs_for_names(operation, modules, names.deep_view().take(i as int)),
        decreases names.len() - i,
    {
        proof {
            let now = names.deep_view().take(i + 1);
            assert(now.drop_last() == names.deep_view().take(i as int));
            assert(now.last() == names[i as int]@);
        }
        let ghost before = jobs.deep_view();
        match map.get(names[i].as_str()) {
            Some(module) => {
                let module: &'a ModuleConfig = *module;
                match operation {
                    Operation::Link => {
                        jobs.push(Job { task: Task::Link, module });
                    },
                    Operation::Unlink => {
                        jobs.push(Job { task: Task::Unlink, module });
                    },
                    Operation::Sync => {
                        jobs.push(Job { task: Task::Unlink, module });
                        jobs.push(Job { task: Task::Link, module });
                    },
                }
                assert(jobs.deep_view() =~= before + jobs_for(operation, *module));
            },
            None => {
                // Every matching name is declared, so the index holds it.
                proof {
                    lemma_matching_intersects(
                        modules_names.deep_view(),
                        names_of(modules).to_set(),
                    );
                    lemma_module_map_names(modules);
                    assert(names.deep_view().contains(names.deep_view()[i as int]));
                }
                unreached::<()>();
            },
        }
        i += 1;
    }
    assert(names.deep_view().take(i as int) == names.deep_view());
    jobs
}

/// Every job is about a module that was asked for and that the manifest
/// declares.
pub proof fn lemma_scheduled_only_requested(
    operation: Operation,
    modules: Seq<ModuleConfig>,
    requested: Seq<Seq<char>>,
    i: int,
)
    requires
        0 <= i < scheduled(operation, modules, requested).len(),
    ensures
        requested.contains(scheduled(operation, modules, requested)[i].module.name@),
        modules.contains(scheduled(operation, modules, requested)[i].module),
{
    let known = names_of(modules).to_set();
    let names = matching(requested, known);
    lemma_matching_intersects(requested, known);
    assert forall|k: int| 0 <= k < names.len() implies known.contains(#[trigger] names[k]) by {
        assert(names.contains(names[k]));
    }
    lemma_jobs_for_names(operation, modules, names, i);
    assert(names.contains(scheduled(operation, modules, requested)[i].module.name@));
}

/// Every job for a list of declared names is about one of those names.
pub proof fn lemma_jobs_for_names(
    operation: Operation,
    modules: Seq<ModuleConfig>,
    names: Seq<Seq<char>>,
    i: int,
)
    requires
        forall|k: int| 0 <= k < names.len() ==> names_of(modules).to_set().contains(#[trigger] names[k]),
        0 <= i < jobs_for_names(operation, modules, names).len(),
    ensures
        names.contains(jobs_for_names(operation, modules, names)[i].module.name@),
        modules.contains(jobs_for_names(operation, modules, names)[i].module),
    decreases names.len(),
{
    if names.len() > 0 {
        let earlier = names.drop_last();
        let before = jobs_for_names(operation, modules, earlier);
        if i < before.len() {
            assert forall|k: int| 0 <= k < earlier.len() implies names_of(modules).to_set().contains(
                #[trigger] earlier[k],
            ) by {
                assert(earlier[k] == names[k]);
            }
            lemma_jobs_for_names(operation, modules, earlier, i);
            let name = before[i].module.name@;
            let k = choose|k: int| 0 <= k < earlier.len() && earlier[k] == name;
            assert(names[k] == name);
        } else {
            lemma_module_map_names(modules);
            assert(names[names.len() - 1] == names.last());
            lemma_module_map_holds_modules(modules, names.last());
        }
    }
}

/// A session begins well formed and stays so, whatever the host replies.
pub proof fn lemma_sessions_are_well_formed(
    jobs: Seq<JobView>,
    cwd: Option<Seq<char>>,
    replies: Seq<ReplyView>,
)
    ensures
        session_of(jobs, cwd).after_all(replies).wf(),
    decreases replies.len(),
{
    if replies.len() > 0 {
        lemma_sessions_are_well_formed(jobs, cwd, replies.drop_last());
        lemma_reply_keeps_session_well_formed(
            session_of(jobs, cwd).after_all(replies.drop_last()),
            replies.last(),
        );
    }
}

/// A well-formed session is well formed after the next reply.
pub proof fn lemma_reply_keeps_session_well_formed(session: SessionView, reply: ReplyView)
    requires
        session.wf(),
    ensures
        session.after(reply).wf(),
{
}

/// The first failure ends the request: when the job at hand fails, the
/// session is over with that failure, it stays so whatever the host replies
/// afterwards, and no later job is ever begun.
pub proof fn lemma_failure_ends_session(
    session: SessionView,
    reply: ReplyView,
    later: Seq<ReplyView>,
)
    requires
        session.wf(),
        session.progress matches ProgressView::Running(run) && !(run.stage is Finished)
            && run.after(reply).stage matches StageView::Finished { result: Err(_) },
    ensures
        ({
            let failed = session.progress->Running_0.after(reply).stage->Finished_result;
            &&& session.after(reply).pending() == (CommandView::Finish { result: failed })
            &&& session.after(reply).is_over()
            &&& session.after(reply).after_all(later) == session.after(reply)
            &&& session.after(reply).after_all(later).at == session.at
        }),
{
    lemma_session_over_stays(session.after(reply), later);
}

/// A session that is over stays as it is, whatever the host replies.
pub proof fn lemma_session_over_stays(session: SessionView, replies: Seq<ReplyView>)
    requires
        session.is_over(),
    ensures
        session.after_all(replies) == session,
    decreases replies.len(),
{
    if replies.len() > 0 {
        lemma_session_over_stays(session, replies.drop_last());
    }
}

/// While a job is under way, the session asks for what the run of that job
/// asks for, and hands every reply on to it.
pub proof fn lemma_session_follows_its_run(session: SessionView, reply: ReplyView)
    requires
        session.wf(),
        session.progress matches ProgressView::Running(run) && !(run.stage is Finished),
    ensures
        session.pending() == session.progress->Running_0.pending(),
        session.after(reply).at == session.at,
        session.after(reply).pending() == session.progress->Running_0.after(reply).pending(),
{
}

/// Where a session stands.
#[derive(Debug)]
enum Progress {
    Running(Run),
    Over(Result<Outcome, LinkError>),
}

/// Where a session stands, as a mathematical value.
pub enum ProgressView {
    /// The job at hand is under way.
    Running(RunView),
    /// The session has ended.
    Over(Result<Outcome, LinkErrorView>),
}

impl View for Progress {
    type V = ProgressView;

    closed spec fn view(&self) -> ProgressView {
        match *self {
            Progress::Running(run) => ProgressView::Running(run@),
            Progress::Over(result) => ProgressView::Over(result_view(result)),
        }
    }
}

/// A request that is under way: its jobs are taken one after the other,
/// and the first that fails ends it.
#[derive(Debug)]
pub struct Session<'a> {
    jobs: Vec<Job<'a>>,
    cwd: Option<String>,
    at: usize,
    progress: Progress,
}

/// A `Session` as a mathematical value.
pub struct SessionView {
    pub jobs: Seq<JobView>,
    pub cwd: Option<Seq<char>>,
    /// The job at hand, or the one with which the session ended.
    pub at: int,
    pub progress: ProgressView,
}

/// How job `at` begins: with the run of its module, or with the end of the
/// session where that run cannot begin.
pub open spec fn begun(jobs: Seq<JobView>, cwd: Option<Seq<char>>, at: int) -> ProgressView {
    match module_run(jobs[at].task, jobs[at].module, cwd) {
        Ok(run) => ProgressView::Running(run),
        Err(error) => ProgressView::Over(Err(error)),
    }
}

/// The session that takes `jobs` one after the other. Without a job it is
/// over before it began.
pub open spec fn session_of(jobs: Seq<JobView>, cwd: Option<Seq<char>>) -> SessionView {
    SessionView {
        jobs,
        cwd,
        at: 0,
        progress: if jobs.len() == 0 {
            ProgressView::Over(Ok(Outcome::NothingRequested))
        } else {
            begun(jobs, cwd, 0)
        },
    }
}

impl SessionView {
    /// What holds of every session: a job that is under way is one of the
    /// jobs, and its run is shown as finished only where it succeeded and
    /// another job follows.
    pub open spec fn wf(self) -> bool {
        &&& 0 <= self.at
        &&& self.jobs.len() > 0 ==> self.at < self.jobs.len()
        &&& match self.progress {
            ProgressView::Running(run) => {
                &&& self.at < self.jobs.len()
                &&& run.wf()
                &&& run.stage matches StageView::Finished { result } ==> result is Ok && self.at + 1
                    < self.jobs.len()
            },
            ProgressView::Over(_) => true,
        }
    }

    /// The command that the session waits for: that of the job at hand. A
    /// job that succeeded shows its end before the next one begins; the
    /// session's own end is the end of its last job, or the first failure.
    pub open spec fn pending(self) -> CommandView {
        match self.progress {
            ProgressView::Running(run) => run.pending(),
            ProgressView::Over(result) => CommandView::Finish { result },
        }
    }

    /// Whether the session has ended.
    pub open spec fn is_over(self) -> bool {
        self.progress is Over
    }

    /// The session after the host has replied to the pending command.
    ///
    /// The reply goes to the job at hand. When that job fails, the session
    /// is over and no later job begins. When it succeeds, its end is shown,
    /// and the reply to that begins the next job; after the last job the
    /// session is over. A session that is over stays as it is.
    pub open spec fn after(self, reply: ReplyView) -> SessionView {
        match self.progress {
            ProgressView::Over(_) => self,
            ProgressView::Running(run) => if run.stage is Finished {
                SessionView {
                    at: self.at + 1,
                    progress: begun(self.jobs, self.cwd, self.at + 1),
                    ..self
                }
            } else {
                let next = run.after(reply);
                match next.stage {
                    StageView::Finished { result } => if result is Err || self.at + 1
                        >= self.jobs.len() {
                        SessionView { progress: ProgressView::Over(result), ..self }
                    } else {
                        SessionView { progress: ProgressView::Running(next), ..self }
                    },
                    _ => SessionView { progress: ProgressView::Running(next), ..self },
                }
            },
        }
    }

    /// The session after the host has replied to one command after another.
    pub open spec fn after_all(self, replies: Seq<ReplyView>) -> SessionView
        decreases replies.len(),
    {
        if replies.len() == 0 {
            self
        } else {
            self.after_all(replies.drop_last()).after(replies.last())
        }
    }
}

impl<'a> View for Session<'a> {
    type V = SessionView;

    closed spec fn view(&self) -> SessionView {
        SessionView {
            jobs: self.jobs.deep_view(),
            cwd: self.cwd.deep_view(),
            at: self.at as int,
            progress: self.progress@,
        }
    }
}

fn begin(jobs: &Vec<Job>, cwd: &Option<String>, at: usize) -> (progress: Progress)
    requires
        at < jobs.len(),
    ensures
        progress@ == begun(jobs.deep_view(), cwd.deep_view(), at as int),
        progress@ matches ProgressView::Running(run) ==> run.wf() && !(run.stage is Finished),
{
    let job = &jobs[at];
    assert(jobs.deep_view()[at as int] == job@);
    let dir = match cwd {
        Some(dir) => Some(dir.as_str()),
        None => None,
    };
    let begun = match job.task {
        Task::Link => link_module(job.module, dir),
        Task::Unlink => unlink_module(job.module, dir),
    };
    match begun {
        Ok(run) => Progress::Running(run),
        Err(error) => Progress::Over(Err(error)),
    }
}

impl<'a> Session<'a> {
    #[verifier::type_invariant]
    spec fn valid(self) -> bool {
        self@.wf()
    }

    /// Begins a session that takes `jobs` one after the other. Relative
    /// paths are read from `cwd`.
    pub fn new(jobs: Vec<Job<'a>>, cwd: Option<&str>) -> (session: Session<'a>)
        ensures
            session@ == session_of(jobs.deep_view(), cwd.deep_view()),
    {
        let cwd = match cwd {
            Some(dir) => Some(String::from_str(dir)),
            None => None,
        };
        let progress = if jobs.len() == 0 {
            Progress::Over(Ok(Outcome::NothingRequested))
        } else {
            begin(&jobs, &cwd, 0)
        };
        Session { jobs, cwd, at: 0, progress }
    }

    /// The command that the host is to carry out now.
    pub fn pending(&self) -> (command: Command)
        ensures
            self@.wf(),
            command@ == self@.pending(),
    {
        proof {
            use_type_invariant(self);
        }
        match &self.progress {
            Progress::Running(run) => run.pending(),
            Progress::Over(result) => Command::Finish {
                result: match result {
                    Ok(outcome) => Ok(*outcome),
                    Err(error) => Err(error.clone()),
                },
            },
        }
    }

    /// Whether the session has ended.
    pub fn is_over(&self) -> (over: bool)
        ensures
            over == self@.is_over(),
    {
        match &self.progress {
            Progress::Over(_) => true,
            Progress::Running(_) => false,
        }
    }

    /// The job at hand, or the job with which the session ended. A session
    /// without jobs has none.
    pub fn current(&self) -> (job: Option<&Job<'a>>)
        ensures
            match job {
                Some(job) => 0 <= self@.at < self@.jobs.len() && job@ == self@.jobs[self@.at],
                None => self@.jobs.len() == 0,
            },
    {
        proof {
            use_type_invariant(self);
        }
        if self.jobs.len() == 0 {
            None
        } else {
            assert(self.jobs.deep_view()[self.at as int] == self.jobs[self.at as int]@);
            Some(&self.jobs[self.at])
        }
    }

    /// Takes the host's reply to the pending command and moves on.
    pub fn advance(self, reply: Reply) -> (next: Session<'a>)
        ensures
            next@ == self@.after(reply@),
    {
        proof {
            use_type_invariant(&self);
        }
        let ghost before = self@;
        let Session { jobs, cwd, at, progress } = self;
        assert(before.progress == progress@ && before.at == at && before.jobs == jobs.deep_view());
        match progress {
            Progress::Over(result) => Session { jobs, cwd, at, progress: Progress::Over(result) },
            Progress::Running(run) => {
                assert(at < jobs.len());
                if run.is_finished() {
                    assert(at + 1 < jobs.len());
                    let progress = begin(&jobs, &cwd, at + 1);
                    Session { jobs, cwd, at: at + 1, progress }
                } else {
                    let next = run.advance(reply);
                    match next.result() {
                        Some(result) => {
                            let last = at + 1 >= jobs.len();
                            if result.is_err() || last {
                                Session { jobs, cwd, at, progress: Progress::Over(result) }
                            } else {
                                Session { jobs, cwd, at, progress: Progress::Running(next) }
                            }
                        },
                        None => Session { jobs, cwd, at, progress: Progress::Running(next) },
                    }
                }
            },
        }
    }
}

} // verus!
