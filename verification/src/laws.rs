//! What holds of every run, whatever a host replies.

use vstd::prelude::*;
use crate::error::LinkErrorView;
use crate::path::{descends, joined, parent};
use crate::run::{
    entered,
    link_run,
    unlink_run,
    CommandView,
    Outcome,
    ReplyView,
    RunView,
    StageView,
    Task,
};
use crate::symlink::{
    direct_link_plan,
    direct_unlink_plan,
    entry_steps,
    file_paths,
    link_plan,
    link_steps,
    position,
    relative_files,
    unlink_plan,
    unlink_steps,
    EntryKind,
    PlanView,
    SourceWalkView,
    StepView,
    WalkEntryView,
};

verus! {

/// Every run begins well formed and stays so, whatever the host replies.
pub proof fn lemma_runs_are_well_formed(
    link_root: Seq<char>,
    source_root: Seq<char>,
    recursive: bool,
    cwd: Option<Seq<char>>,
    replies: Seq<ReplyView>,
)
    ensures
        link_run(link_root, source_root, recursive, cwd).after_all(replies).wf(),
        unlink_run(link_root, source_root, recursive).after_all(replies).wf(),
    decreases replies.len(),
{
    if replies.len() > 0 {
        lemma_runs_are_well_formed(link_root, source_root, recursive, cwd, replies.drop_last());
        lemma_reply_keeps_run_well_formed(
            link_run(link_root, source_root, recursive, cwd).after_all(replies.drop_last()),
            replies.last(),
        );
        lemma_reply_keeps_run_well_formed(
            unlink_run(link_root, source_root, recursive).after_all(replies.drop_last()),
            replies.last(),
        );
    }
}

/// A well-formed run is well formed after the next reply.
pub proof fn lemma_reply_keeps_run_well_formed(run: RunView, reply: ReplyView)
    requires
        run.wf(),
    ensures
        run.after(reply).wf(),
{
}

/// How many replies a run that has its plan needs at most until it is over:
/// two for every step that is still to be checked, one for a change that is
/// under way.
pub open spec fn replies_left(run: RunView) -> int {
    match run.stage {
        StageView::Checking { at } => 2 * (run.plan.steps.len() - at),
        StageView::Acting { at } => 2 * (run.plan.steps.len() - at) - 1,
        _ => 0,
    }
}

/// Every reply brings a run that has its plan closer to its end.
pub proof fn lemma_reply_brings_the_end_closer(run: RunView, reply: ReplyView)
    requires
        run.wf(),
        run.stage is Checking || run.stage is Acting,
    ensures
        !(run.after(reply).stage is ProbingRoot),
        !(run.after(reply).stage is Walking),
        0 <= replies_left(run.after(reply)) < replies_left(run),
{
}

/// Every run ends. Once the plan is there, the run is over after at most
/// two replies for each of its steps; before that, unlinking asks one
/// question and both ways ask for one walk.
pub proof fn lemma_run_ends(run: RunView, replies: Seq<ReplyView>)
    requires
        run.wf(),
        !(run.stage is ProbingRoot),
        !(run.stage is Walking),
        replies.len() >= replies_left(run),
    ensures
        run.after_all(replies).stage is Finished,
    decreases replies.len(),
{
    if run.stage is Finished {
        lemma_finished_run_stays(run, replies);
    } else {
        let first = replies[0];
        let rest = replies.subrange(1, replies.len() as int);
        lemma_reply_brings_the_end_closer(run, first);
        lemma_reply_keeps_run_well_formed(run, first);
        lemma_run_ends(run.after(first), rest);
        lemma_replies_one_by_one(run, first, rest);
        assert(seq![first] + rest == replies);
    }
}

/// Replying to one command and then to the others is replying to all.
pub proof fn lemma_replies_one_by_one(run: RunView, first: ReplyView, rest: Seq<ReplyView>)
    ensures
        run.after_all(seq![first] + rest) == run.after(first).after_all(rest),
    decreases rest.len(),
{
    let all = seq![first] + rest;
    if rest.len() == 0 {
        assert(all.drop_last() =~= Seq::<ReplyView>::empty());
        assert(all.last() == first);
        assert(run.after_all(all.drop_last()) == run);
    } else {
        lemma_replies_one_by_one(run, first, rest.drop_last());
        assert(all.drop_last() == seq![first] + rest.drop_last());
        assert(all.last() == rest.last());
    }
}

/// A run that is over stays as it is, whatever the host replies.
pub proof fn lemma_finished_run_stays(run: RunView, replies: Seq<ReplyView>)
    requires
        run.stage is Finished,
    ensures
        run.after_all(replies) == run,
    decreases replies.len(),
{
    if replies.len() > 0 {
        lemma_finished_run_stays(run, replies.drop_last());
    }
}

/// A plan for mirroring a tree makes directories and links and nothing
/// else, and fails only over a path.
pub open spec fn mirrors(plan: PlanView) -> bool {
    &&& forall|i: int|
        0 <= i < plan.steps.len() ==> (#[trigger] plan.steps[i] is EnsureDirectory
            || plan.steps[i] is Link)
    &&& plan.failure matches Some(error) ==> error is PathResolution
        || error is InvalidPathDifference
}

/// The steps for any entries of a walk make directories and links and
/// nothing else.
pub proof fn lemma_link_steps_mirror(
    root: Seq<char>,
    entries: Seq<WalkEntryView>,
    link_root: Seq<char>,
    cwd: Option<Seq<char>>,
)
    ensures
        mirrors(link_steps(root, entries, link_root, cwd)),
    decreases entries.len(),
{
    if entries.len() > 0 {
        lemma_link_steps_mirror(root, entries.drop_last(), link_root, cwd);
    }
}

/// Every plan for mirroring a tree makes directories and links and nothing
/// else.
pub proof fn lemma_link_plan_mirrors(
    link_root: Seq<char>,
    source_root: Seq<char>,
    cwd: Option<Seq<char>>,
    walk: SourceWalkView,
)
    ensures
        mirrors(link_plan(link_root, source_root, cwd, walk)),
{
    if walk.root is Some {
        lemma_link_steps_mirror(source_root, walk.entries, link_root, cwd);
    }
}

/// What holds of a run that mirrors a tree, after `replies`.
pub open spec fn mirroring(
    run: RunView,
    link_root: Seq<char>,
    source_root: Seq<char>,
    cwd: Option<Seq<char>>,
    replies: Seq<ReplyView>,
) -> bool {
    &&& run.wf()
    &&& run.task == Task::Link
    &&& run.recursive
    &&& run.link_root == link_root
    &&& run.source_root == source_root
    &&& run.cwd == cwd
    &&& match run.stage {
        StageView::ProbingRoot => false,
        StageView::Walking => replies.len() == 0,
        StageView::Checking { at } => replies.len() >= 1 && run.plan == link_plan(
            link_root,
            source_root,
            cwd,
            replies[0].walk(),
        ),
        StageView::Acting { at } => replies.len() >= 1 && run.plan == link_plan(
            link_root,
            source_root,
            cwd,
            replies[0].walk(),
        ),
        StageView::Finished { result } => replies.len() >= 1 && run.plan == link_plan(
            link_root,
            source_root,
            cwd,
            replies[0].walk(),
        ) && match result {
            Ok(outcome) => outcome == Outcome::Linked && run.plan.failure is None,
            Err(error) => error is DirectoryCreation || error is SymlinkCreation
                || run.plan.failure == Some(error),
        },
    }
}

/// A run that mirrors a tree stays one, whatever the host replies.
pub proof fn lemma_mirroring(
    link_root: Seq<char>,
    source_root: Seq<char>,
    cwd: Option<Seq<char>>,
    replies: Seq<ReplyView>,
)
    ensures
        mirroring(
            link_run(link_root, source_root, true, cwd).after_all(replies),
            link_root,
            source_root,
            cwd,
            replies,
        ),
    decreases replies.len(),
{
    if replies.len() > 0 {
        let earlier = replies.drop_last();
        lemma_mirroring(link_root, source_root, cwd, earlier);
        if earlier.len() > 0 {
            assert(earlier[0] == replies[0]);
        }
        lemma_link_plan_mirrors(link_root, source_root, cwd, replies[0].walk());
    }
}

/// Linking a tree entry by entry does not fail over what is there already:
/// it fails only where a path has no absolute form or no place below the
/// source root, or where the host could not create a directory or a link.
pub proof fn lemma_link_fails_only_over_paths_and_changes(
    link_root: Seq<char>,
    source_root: Seq<char>,
    cwd: Option<Seq<char>>,
    replies: Seq<ReplyView>,
)
    ensures
        link_run(link_root, source_root, true, cwd).after_all(replies).stage matches StageView::Finished {
            result: Err(error),
        } ==> error is PathResolution || error is InvalidPathDifference || error is DirectoryCreation
            || error is SymlinkCreation,
{
    lemma_mirroring(link_root, source_root, cwd, replies);
    if replies.len() > 0 {
        lemma_link_plan_mirrors(link_root, source_root, cwd, replies[0].walk());
    }
}

/// A directory that is already there is left alone: when the host has
/// found something at the place of a directory, the run goes on to its next
/// step, and asks for nothing to be created there.
pub proof fn lemma_found_directory_is_kept(
    link_root: Seq<char>,
    source_root: Seq<char>,
    cwd: Option<Seq<char>>,
    replies: Seq<ReplyView>,
)
    requires
        link_run(link_root, source_root, true, cwd).after_all(replies).pending() is Probe,
    ensures
        ({
            let run = link_run(link_root, source_root, true, cwd).after_all(replies);
            &&& run.stage is Checking
            &&& run.plan.steps[run.stage->Checking_at] is EnsureDirectory
            &&& run.after(ReplyView::Answer(true)).stage == entered(
                run.plan,
                run.stage->Checking_at + 1,
                Task::Link,
            )
            &&& run.after(ReplyView::Answer(true)).plan == run.plan
        }),
{
    lemma_mirroring(link_root, source_root, cwd, replies);
    if replies.len() > 0 {
        lemma_link_plan_mirrors(link_root, source_root, cwd, replies[0].walk());
    }
}

/// Linking never removes anything: no run that links asks for a removal.
pub proof fn lemma_link_removes_nothing(
    link_root: Seq<char>,
    source_root: Seq<char>,
    recursive: bool,
    cwd: Option<Seq<char>>,
    replies: Seq<ReplyView>,
)
    ensures
        !(link_run(link_root, source_root, recursive, cwd).after_all(replies).pending() is Remove),
{
    if recursive {
        lemma_mirroring(link_root, source_root, cwd, replies);
        if replies.len() > 0 {
            lemma_link_plan_mirrors(link_root, source_root, cwd, replies[0].walk());
        }
    } else {
        lemma_linking_whole(link_root, source_root, cwd, replies);
    }
}

/// What holds of a run that links a directory as a whole.
pub open spec fn linking_whole(run: RunView, link_root: Seq<char>, source_root: Seq<char>) -> bool {
    &&& run.wf()
    &&& run.task == Task::Link
    &&& !run.recursive
    &&& run.plan == direct_link_plan(link_root, source_root)
    &&& match run.stage {
        StageView::Checking { at } => at == 0,
        StageView::Acting { at } => at == 1,
        StageView::Finished { result } => match result {
            Ok(outcome) => outcome == Outcome::Linked,
            Err(error) => error == (LinkErrorView::AlreadyLinked { path: link_root }) || error == (
            LinkErrorView::SymlinkCreation { target: source_root, link: link_root }),
        },
        _ => false,
    }
}

/// A run that links a directory as a whole stays one, whatever the host
/// replies.
pub proof fn lemma_linking_whole(
    link_root: Seq<char>,
    source_root: Seq<char>,
    cwd: Option<Seq<char>>,
    replies: Seq<ReplyView>,
)
    ensures
        linking_whole(
            link_run(link_root, source_root, false, cwd).after_all(replies),
            link_root,
            source_root,
        ),
    decreases replies.len(),
{
    if replies.len() > 0 {
        lemma_linking_whole(link_root, source_root, cwd, replies.drop_last());
    }
}

/// Linking a directory as a whole refuses a link root that is taken: the
/// first thing asked is whether anything is there, and where something is,
/// the run ends at once and nothing on disk has been touched.
pub proof fn lemma_taken_link_root_is_refused(
    link_root: Seq<char>,
    source_root: Seq<char>,
    cwd: Option<Seq<char>>,
)
    ensures
        ({
            let run = link_run(link_root, source_root, false, cwd);
            &&& run.pending() == (CommandView::Probe { path: link_root })
            &&& run.after(ReplyView::Answer(true)).pending() == (CommandView::Finish {
                result: Err(LinkErrorView::AlreadyLinked { path: link_root }),
            })
            &&& run.after(ReplyView::Answer(false)).pending() == (CommandView::Symlink {
                target: source_root,
                link: link_root,
                resolved: source_root,
            })
        }),
{
}

/// Whether `path` stands under `link_root` where the file `entry` stands
/// below `source_root`.
pub open spec fn mirrors_file(
    link_root: Seq<char>,
    source_root: Seq<char>,
    entry: WalkEntryView,
    path: Seq<char>,
) -> bool {
    &&& entry.kind == EntryKind::File
    &&& position(entry.path, source_root) matches Ok(place)
    &&& path == joined(link_root, place)
}

/// Whether `path` stands under `link_root` where some file that `walk`
/// found stands below `source_root`.
pub open spec fn mirrors_some_file(
    link_root: Seq<char>,
    source_root: Seq<char>,
    walk: SourceWalkView,
    path: Seq<char>,
) -> bool {
    exists|k: int|
        0 <= k < walk.entries.len() && #[trigger] mirrors_file(
            link_root,
            source_root,
            walk.entries[k],
            path,
        )
}

/// Every place in the list of relative files is the place of a file of the
/// walk.
pub proof fn lemma_relative_files_are_files(
    folder: Seq<char>,
    entries: Seq<WalkEntryView>,
    i: int,
)
    requires
        relative_files(folder, entries) is Ok,
        0 <= i < relative_files(folder, entries)->Ok_0.len(),
    ensures
        exists|k: int|
            0 <= k < entries.len() && (#[trigger] entries[k]).kind == EntryKind::File && position(
                entries[k].path,
                folder,
            ) == Ok::<Seq<char>, LinkErrorView>(relative_files(folder, entries)->Ok_0[i]),
    decreases entries.len(),
{
    let files = relative_files(folder, entries)->Ok_0;
    if entries.len() > 0 {
        let earlier = entries.drop_last();
        let before = relative_files(folder, earlier)->Ok_0;
        if i < before.len() {
            assert(files[i] == before[i]);
            lemma_relative_files_are_files(folder, earlier, i);
            let k = choose|k: int|
                0 <= k < earlier.len() && (#[trigger] earlier[k]).kind == EntryKind::File
                    && position(earlier[k].path, folder) == Ok::<Seq<char>, LinkErrorView>(
                    before[i],
                );
            assert(entries[k] == earlier[k]);
        } else {
            assert(entries[entries.len() - 1] == entries.last());
        }
    }
}

/// Every step of a plan for unlinking a tree removes, if anything, what
/// stands at the place of a file of the source tree.
pub proof fn lemma_unlink_plan_mirrors_files(
    link_root: Seq<char>,
    source_root: Seq<char>,
    walk: SourceWalkView,
    i: int,
)
    requires
        0 <= i < unlink_plan(link_root, source_root, walk).steps.len(),
    ensures
        unlink_plan(link_root, source_root, walk).steps[i] matches StepView::Unlink { path }
            && mirrors_some_file(link_root, source_root, walk, path),
{
    lemma_relative_files_are_files(source_root, walk.entries, i);
    let place = relative_files(source_root, walk.entries)->Ok_0[i];
    let k = choose|k: int|
        0 <= k < walk.entries.len() && (#[trigger] walk.entries[k]).kind == EntryKind::File
            && position(walk.entries[k].path, source_root) == Ok::<Seq<char>, LinkErrorView>(place);
    assert(mirrors_file(link_root, source_root, walk.entries[k], joined(link_root, place)));
}

/// What holds of a run that unlinks a tree, after `replies`.
pub open spec fn unlinking(
    run: RunView,
    link_root: Seq<char>,
    source_root: Seq<char>,
    replies: Seq<ReplyView>,
) -> bool {
    &&& run.wf()
    &&& run.task == Task::Unlink
    &&& run.recursive
    &&& run.link_root == link_root
    &&& run.source_root == source_root
    &&& match run.stage {
        StageView::ProbingRoot => replies.len() == 0,
        StageView::Walking => replies.len() == 1 && replies[0].yes(),
        StageView::Checking { at } => {
            &&& replies.len() >= 2
            &&& replies[0].yes()
            &&& run.plan == unlink_plan(link_root, source_root, replies[1].walk())
        },
        StageView::Acting { at } => {
            &&& replies.len() >= 3
            &&& replies[0].yes()
            &&& run.plan == unlink_plan(link_root, source_root, replies[1].walk())
            &&& replies.last().yes()
            &&& unlink_run(link_root, source_root, true).after_all(
                replies.drop_last(),
            ).pending() == (CommandView::ProbeLink { path: run.plan.steps[at]->Unlink_path })
        },
        StageView::Finished { result } => replies.len() >= 1 && (result == Ok::<
            Outcome,
            LinkErrorView,
        >(Outcome::DestinationAbsent) <==> !replies[0].yes()),
    }
}

/// A run that unlinks a tree stays one, whatever the host replies.
pub proof fn lemma_unlinking(
    link_root: Seq<char>,
    source_root: Seq<char>,
    replies: Seq<ReplyView>,
)
    ensures
        unlinking(
            unlink_run(link_root, source_root, true).after_all(replies),
            link_root,
            source_root,
            replies,
        ),
    decreases replies.len(),
{
    if replies.len() > 0 {
        let earlier = replies.drop_last();
        lemma_unlinking(link_root, source_root, earlier);
        if earlier.len() > 0 {
            assert(earlier[0] == replies[0]);
        }
        if earlier.len() > 1 {
            assert(earlier[1] == replies[1]);
        }
        if replies.len() >= 2 {
            // Once the tree is walked the plan stays, and all it holds are
            // steps that unlink.
            let plan = unlink_plan(link_root, source_root, replies[1].walk());
            assert forall|i: int| 0 <= i < plan.steps.len() implies #[trigger] plan.steps[i]
                is Unlink by {
                lemma_unlink_plan_mirrors_files(link_root, source_root, replies[1].walk(), i);
            }
        }
    }
}

/// Unlinking a tree removes nothing but links that mirror the source tree:
/// what the run asks to remove stands under the link root at the place of a
/// file that the walk found in the source tree, and the host has just said
/// that it is a symbolic link.
pub proof fn lemma_unlink_removes_only_mirrored_files(
    link_root: Seq<char>,
    source_root: Seq<char>,
    replies: Seq<ReplyView>,
)
    requires
        unlink_run(link_root, source_root, true).after_all(replies).pending() is Remove,
    ensures
        ({
            let start = unlink_run(link_root, source_root, true);
            let path = start.after_all(replies).pending()->Remove_path;
            &&& replies.len() >= 3
            &&& mirrors_some_file(link_root, source_root, replies[1].walk(), path)
            &&& start.after_all(replies.drop_last()).pending() == (CommandView::ProbeLink { path })
            &&& replies.last().yes()
        }),
{
    lemma_unlinking(link_root, source_root, replies);
    let run = unlink_run(link_root, source_root, true).after_all(replies);
    lemma_unlink_plan_mirrors_files(
        link_root,
        source_root,
        replies[1].walk(),
        run.stage->Acting_at,
    );
}

/// Unlinking removes nothing that is no symbolic link. Whichever way a
/// directory was linked: what a run asks to remove, it has asked about just
/// before, and the host has said that it is a symbolic link.
pub proof fn lemma_unlink_removes_only_links(
    link_root: Seq<char>,
    source_root: Seq<char>,
    recursive: bool,
    replies: Seq<ReplyView>,
)
    requires
        unlink_run(link_root, source_root, recursive).after_all(replies).pending() is Remove,
    ensures
        ({
            let start = unlink_run(link_root, source_root, recursive);
            let path = start.after_all(replies).pending()->Remove_path;
            &&& replies.len() >= 2
            &&& start.after_all(replies.drop_last()).pending() == (CommandView::ProbeLink { path })
            &&& replies.last().yes()
        }),
{
    if recursive {
        lemma_unlink_removes_only_mirrored_files(link_root, source_root, replies);
    } else {
        lemma_unlink_removes_only_a_link(link_root, source_root, replies);
    }
}

/// A plain file or a directory under the link root is left alone: when the
/// host says of the place of a source file that no symbolic link stands
/// there, the run goes on to its next step and asks for no removal there.
pub proof fn lemma_what_is_no_link_is_kept(
    link_root: Seq<char>,
    source_root: Seq<char>,
    replies: Seq<ReplyView>,
)
    requires
        unlink_run(link_root, source_root, true).after_all(replies).pending() is ProbeLink,
    ensures
        ({
            let run = unlink_run(link_root, source_root, true).after_all(replies);
            &&& run.stage is Checking
            &&& run.after(ReplyView::Answer(false)).stage == entered(
                run.plan,
                run.stage->Checking_at + 1,
                Task::Unlink,
            )
            &&& run.after(ReplyView::Answer(false)).plan == run.plan
        }),
{
    lemma_unlinking(link_root, source_root, replies);
    let run = unlink_run(link_root, source_root, true).after_all(replies);
    if run.stage is Checking {
        lemma_unlink_plan_mirrors_files(
            link_root,
            source_root,
            replies[1].walk(),
            run.stage->Checking_at,
        );
    }
}

/// What holds of a run that unlinks a directory linked as a whole.
pub open spec fn unlinking_whole(run: RunView, link_root: Seq<char>, replies: Seq<ReplyView>) -> bool {
    &&& run.wf()
    &&& run.task == Task::Unlink
    &&& !run.recursive
    &&& run.link_root == link_root
    &&& match run.stage {
        StageView::ProbingRoot => replies.len() == 0,
        StageView::Walking => false,
        StageView::Checking { at } => {
            &&& at == 0
            &&& replies.len() == 1
            &&& replies[0].yes()
            &&& run.plan == direct_unlink_plan(link_root)
        },
        StageView::Acting { at } => {
            &&& at == 0
            &&& replies.len() == 2
            &&& replies[0].yes()
            &&& replies[1].yes()
            &&& run.plan == direct_unlink_plan(link_root)
        },
        StageView::Finished { result } => replies.len() >= 1 && (result == Ok::<
            Outcome,
            LinkErrorView,
        >(Outcome::DestinationAbsent) <==> !replies[0].yes()),
    }
}

/// A run that unlinks a directory linked as a whole stays one, whatever the
/// host replies.
pub proof fn lemma_unlinking_whole(
    link_root: Seq<char>,
    source_root: Seq<char>,
    replies: Seq<ReplyView>,
)
    ensures
        unlinking_whole(
            unlink_run(link_root, source_root, false).after_all(replies),
            link_root,
            replies,
        ),
    decreases replies.len(),
{
    if replies.len() > 0 {
        let earlier = replies.drop_last();
        lemma_unlinking_whole(link_root, source_root, earlier);
        if earlier.len() > 0 {
            assert(earlier[0] == replies[0]);
        }
        if earlier.len() > 1 {
            assert(earlier[1] == replies[1]);
        }
    }
}

/// Unlinking a directory that was linked as a whole removes nothing that
/// is no symbolic link: the only thing it asks to remove is the link root,
/// and only when the host has just said that it is a symbolic link.
pub proof fn lemma_unlink_removes_only_a_link(
    link_root: Seq<char>,
    source_root: Seq<char>,
    replies: Seq<ReplyView>,
)
    requires
        unlink_run(link_root, source_root, false).after_all(replies).pending() is Remove,
    ensures
        ({
            let start = unlink_run(link_root, source_root, false);
            &&& start.after_all(replies).pending() == (CommandView::Remove { path: link_root })
            &&& replies.len() == 2
            &&& start.after_all(replies.drop_last()).pending() == (CommandView::ProbeLink {
                path: link_root,
            })
            &&& replies.last().yes()
        }),
{
    lemma_unlinking_whole(link_root, source_root, replies);
    lemma_unlinking_whole(link_root, source_root, replies.drop_last());
}

/// Unlinking never creates anything: no run that unlinks asks for a
/// directory or a link to be made.
pub proof fn lemma_unlink_creates_nothing(
    link_root: Seq<char>,
    source_root: Seq<char>,
    recursive: bool,
    replies: Seq<ReplyView>,
)
    ensures
        ({
            let pending = unlink_run(link_root, source_root, recursive).after_all(
                replies,
            ).pending();
            !(pending is CreateDirs) && !(pending is Symlink)
        }),
{
    if recursive {
        lemma_unlinking(link_root, source_root, replies);
        let run = unlink_run(link_root, source_root, true).after_all(replies);
        if run.stage is Checking || run.stage is Acting {
            let at = if run.stage is Checking {
                run.stage->Checking_at
            } else {
                run.stage->Acting_at
            };
            lemma_unlink_plan_mirrors_files(link_root, source_root, replies[1].walk(), at);
        }
    } else {
        lemma_unlinking_whole(link_root, source_root, replies);
    }
}

/// Unlinking what was never linked is a success that touches nothing:
/// where the host finds nothing at the link root, the run is over at once,
/// it has succeeded, and it never asks for a change to the disk.
pub proof fn lemma_absent_destination_is_left_alone(
    link_root: Seq<char>,
    source_root: Seq<char>,
    recursive: bool,
    replies: Seq<ReplyView>,
)
    requires
        replies.len() >= 1,
        !replies[0].yes(),
    ensures
        unlink_run(link_root, source_root, recursive).pending() == (CommandView::Probe {
            path: link_root,
        }),
        unlink_run(link_root, source_root, recursive).after_all(replies).pending() == (
        CommandView::Finish { result: Ok(Outcome::DestinationAbsent) }),
        forall|done: int|
            0 <= done <= replies.len() ==> !(#[trigger] unlink_run(link_root, source_root, recursive).after_all(replies.take(done))).pending().changes_disk(),
{
    let start = unlink_run(link_root, source_root, recursive);
    assert(replies.take(replies.len() as int) == replies);
    assert forall|done: int| 0 <= done <= replies.len() implies {
        let run = #[trigger] start.after_all(replies.take(done));
        &&& !run.pending().changes_disk()
        &&& done >= 1 ==> run.pending() == (CommandView::Finish {
            result: Ok(Outcome::DestinationAbsent),
        })
    } by {
        let run = start.after_all(replies.take(done));
        if done >= 1 {
            assert(replies.take(done)[0] == replies[0]);
        }
        if recursive {
            lemma_unlinking(link_root, source_root, replies.take(done));
        } else {
            lemma_unlinking_whole(link_root, source_root, replies.take(done));
        }
    }
}

/// A walk without files has an empty list of relative files.
pub proof fn lemma_no_files_no_relative_files(folder: Seq<char>, entries: Seq<WalkEntryView>)
    requires
        forall|k: int| 0 <= k < entries.len() ==> (#[trigger] entries[k]).kind != EntryKind::File,
    ensures
        relative_files(folder, entries) == Ok::<Seq<Seq<char>>, LinkErrorView>(Seq::empty()),
    decreases entries.len(),
{
    if entries.len() > 0 {
        let earlier = entries.drop_last();
        assert forall|k: int| 0 <= k < earlier.len() implies (#[trigger] earlier[k]).kind
            != EntryKind::File by {
            assert(earlier[k] == entries[k]);
        }
        lemma_no_files_no_relative_files(folder, earlier);
        assert(entries.last() == entries[entries.len() - 1]);
    }
}

/// Unlinking a tree without files is a success that touches nothing:
/// where something is at the link root and the walk of the source tree
/// finds no file, the run is over after the walk, it has succeeded, and it
/// has asked for no change to the disk.
pub proof fn lemma_empty_tree_is_left_alone(
    link_root: Seq<char>,
    source_root: Seq<char>,
    found: ReplyView,
    walked: ReplyView,
)
    requires
        found.yes(),
        forall|k: int|
            0 <= k < walked.walk().entries.len() ==> (#[trigger] walked.walk().entries[k]).kind
                != EntryKind::File,
    ensures
        ({
            let start = unlink_run(link_root, source_root, true);
            &&& start.pending() == (CommandView::Probe { path: link_root })
            &&& start.after(found).pending() == (CommandView::Walk { root: source_root })
            &&& start.after(found).after(walked).pending() == (CommandView::Finish {
                result: Ok(Outcome::NothingToUnlink),
            })
        }),
{
    lemma_no_files_no_relative_files(source_root, walked.walk().entries);
    assert(unlink_steps(link_root, Seq::<Seq<char>>::empty()) =~= Seq::<StepView>::empty());
}

/// Whether `plan` makes a link at `path`.
pub open spec fn links_at(plan: PlanView, path: Seq<char>) -> bool {
    exists|i: int|
        0 <= i < plan.steps.len() && (#[trigger] plan.steps[i]) is Link && plan.steps[i]->link
            == path
}

/// Whether `plan` removes the symbolic link at `path`, where there is one.
pub open spec fn unlinks_at(plan: PlanView, path: Seq<char>) -> bool {
    exists|j: int|
        0 <= j < plan.steps.len() && #[trigger] plan.steps[j] == (StepView::Unlink { path })
}

/// Whether `entry` is a file that is linked at `path`.
pub open spec fn entry_linked_at(
    root: Seq<char>,
    entry: WalkEntryView,
    link_root: Seq<char>,
    cwd: Option<Seq<char>>,
    path: Seq<char>,
) -> bool {
    &&& entry.kind == EntryKind::File
    &&& file_paths(root, entry, link_root, cwd) matches Ok(paths)
    &&& paths.link == path
}

/// Whether some file among `entries` is linked at `path`.
pub open spec fn file_linked_at(
    root: Seq<char>,
    entries: Seq<WalkEntryView>,
    link_root: Seq<char>,
    cwd: Option<Seq<char>>,
    path: Seq<char>,
) -> bool {
    exists|k: int|
        0 <= k < entries.len() && #[trigger] entry_linked_at(
            root,
            entries[k],
            link_root,
            cwd,
            path,
        )
}

/// A plan for mirroring that has not failed makes a link for every file of
/// the walk, and no other link.
pub proof fn lemma_links_are_the_files(
    root: Seq<char>,
    entries: Seq<WalkEntryView>,
    link_root: Seq<char>,
    cwd: Option<Seq<char>>,
)
    requires
        link_steps(root, entries, link_root, cwd).failure is None,
    ensures
        forall|k: int|
            0 <= k < entries.len() && (#[trigger] entries[k]).kind == EntryKind::File
                ==> file_paths(root, entries[k], link_root, cwd) is Ok,
        forall|path: Seq<char>| #[trigger]
            links_at(link_steps(root, entries, link_root, cwd), path) <==> file_linked_at(
                root,
                entries,
                link_root,
                cwd,
                path,
            ),
    decreases entries.len(),
{
    let plan = link_steps(root, entries, link_root, cwd);
    if entries.len() > 0 {
        let earlier = entries.drop_last();
        let entry = entries.last();
        let before = link_steps(root, earlier, link_root, cwd);
        lemma_links_are_the_files(root, earlier, link_root, cwd);
        let added = entry_steps(root, entry, link_root, cwd)->Ok_0;
        assert(plan.steps == before.steps + added);
        assert(entry == entries[entries.len() - 1]);
        assert forall|k: int|
            0 <= k < entries.len() && (#[trigger] entries[k]).kind
                == EntryKind::File implies file_paths(root, entries[k], link_root, cwd) is Ok by {
            if k < earlier.len() {
                assert(earlier[k] == entries[k]);
            }
        }
        assert forall|path: Seq<char>| #[trigger]
            links_at(plan, path) <==> file_linked_at(root, entries, link_root, cwd, path) by {
            if links_at(plan, path) {
                let i = choose|i: int|
                    0 <= i < plan.steps.len() && (#[trigger] plan.steps[i]) is Link
                        && plan.steps[i]->link == path;
                if i < before.steps.len() {
                    assert(before.steps[i] == plan.steps[i]);
                    assert(links_at(before, path));
                    assert(file_linked_at(root, earlier, link_root, cwd, path));
                    let k = choose|k: int|
                        0 <= k < earlier.len() && #[trigger] entry_linked_at(
                            root,
                            earlier[k],
                            link_root,
                            cwd,
                            path,
                        );
                    assert(entries[k] == earlier[k]);
                    assert(entry_linked_at(root, entries[k], link_root, cwd, path));
                } else {
                    assert(plan.steps[i] == added[i - before.steps.len()]);
                    assert(entry_linked_at(
                        root,
                        entries[entries.len() - 1],
                        link_root,
                        cwd,
                        path,
                    ));
                }
            }
            if file_linked_at(root, entries, link_root, cwd, path) {
                let k = choose|k: int|
                    0 <= k < entries.len() && #[trigger] entry_linked_at(
                        root,
                        entries[k],
                        link_root,
                        cwd,
                        path,
                    );
                if k < earlier.len() {
                    assert(earlier[k] == entries[k]);
                    assert(entry_linked_at(root, earlier[k], link_root, cwd, path));
                    assert(file_linked_at(root, earlier, link_root, cwd, path));
                    assert(links_at(before, path));
                    let i = choose|i: int|
                        0 <= i < before.steps.len() && (#[trigger] before.steps[i]) is Link
                            && before.steps[i]->link == path;
                    assert(plan.steps[i] == before.steps[i]);
                } else {
                    let at = before.steps.len() + added.len() - 1;
                    assert(plan.steps[at] == added[added.len() - 1]);
                    assert(plan.steps[at] is Link && plan.steps[at]->link == path);
                }
            }
        }
    }
}

/// The list of relative files holds the place of every file of the walk,
/// and there is such a list where every file has a place.
pub proof fn lemma_relative_files_hold_every_file(folder: Seq<char>, entries: Seq<WalkEntryView>)
    requires
        forall|k: int|
            0 <= k < entries.len() && (#[trigger] entries[k]).kind == EntryKind::File ==> position(
                entries[k].path,
                folder,
            ) is Ok,
    ensures
        relative_files(folder, entries) is Ok,
        forall|k: int|
            0 <= k < entries.len() && (#[trigger] entries[k]).kind == EntryKind::File
                ==> relative_files(folder, entries)->Ok_0.contains(
                position(entries[k].path, folder)->Ok_0,
            ),
    decreases entries.len(),
{
    if entries.len() > 0 {
        let earlier = entries.drop_last();
        assert forall|k: int|
            0 <= k < earlier.len() && (#[trigger] earlier[k]).kind
                == EntryKind::File implies position(earlier[k].path, folder) is Ok by {
            assert(earlier[k] == entries[k]);
        }
        lemma_relative_files_hold_every_file(folder, earlier);
        let before = relative_files(folder, earlier)->Ok_0;
        let files = relative_files(folder, entries)->Ok_0;
        assert(entries.last() == entries[entries.len() - 1]);
        assert forall|k: int|
            0 <= k < entries.len() && (#[trigger] entries[k]).kind
                == EntryKind::File implies files.contains(
            position(entries[k].path, folder)->Ok_0,
        ) by {
            let place = position(entries[k].path, folder)->Ok_0;
            if k < earlier.len() {
                assert(earlier[k] == entries[k]);
                assert(before.contains(place));
                let i = choose|i: int| 0 <= i < before.len() && before[i] == place;
                assert(files[i] == place);
            } else if before.contains(place) {
            } else {
                assert(files[before.len() as int] == place);
            }
        }
    }
}

/// Unlinking undoes linking. Where the plan for mirroring a tree has not
/// failed, the plan for unlinking the same tree does not fail either, and
/// the places at which it removes links are exactly the places at which
/// mirroring makes them. The directories that mirroring creates are not
/// among them: they stay.
pub proof fn lemma_unlink_undoes_link(
    link_root: Seq<char>,
    source_root: Seq<char>,
    cwd: Option<Seq<char>>,
    walk: SourceWalkView,
)
    requires
        link_plan(link_root, source_root, cwd, walk).failure is None,
    ensures
        unlink_plan(link_root, source_root, walk).failure is None,
        forall|path: Seq<char>|
            links_at(link_plan(link_root, source_root, cwd, walk), path) <==> unlinks_at(
                unlink_plan(link_root, source_root, walk),
                path,
            ),
        forall|j: int|
            0 <= j < unlink_plan(link_root, source_root, walk).steps.len() ==> (
            #[trigger] unlink_plan(link_root, source_root, walk).steps[j]) is Unlink,
{
    let entries = walk.entries;
    let made = link_plan(link_root, source_root, cwd, walk);
    lemma_links_are_the_files(source_root, entries, link_root, cwd);
    assert forall|k: int|
        0 <= k < entries.len() && (#[trigger] entries[k]).kind == EntryKind::File implies position(
        entries[k].path,
        source_root,
    ) is Ok by {
        assert(file_paths(source_root, entries[k], link_root, cwd) is Ok);
    }
    lemma_relative_files_hold_every_file(source_root, entries);
    let files = relative_files(source_root, entries)->Ok_0;
    let undone = unlink_plan(link_root, source_root, walk);
    assert(undone.steps == unlink_steps(link_root, files));
    assert forall|path: Seq<char>| links_at(made, path) <==> unlinks_at(undone, path) by {
        if links_at(made, path) {
            assert(file_linked_at(source_root, entries, link_root, cwd, path));
            let k = choose|k: int|
                0 <= k < entries.len() && #[trigger] entry_linked_at(
                    source_root,
                    entries[k],
                    link_root,
                    cwd,
                    path,
                );
            let place = position(entries[k].path, source_root)->Ok_0;
            assert(files.contains(place));
            let j = choose|j: int| 0 <= j < files.len() && files[j] == place;
            assert(undone.steps[j] == (StepView::Unlink { path }));
        }
        if unlinks_at(undone, path) {
            let j = choose|j: int|
                0 <= j < undone.steps.len() && #[trigger] undone.steps[j] == (StepView::Unlink {
                    path,
                });
            lemma_relative_files_are_files(source_root, entries, j);
            let k = choose|k: int|
                0 <= k < entries.len() && (#[trigger] entries[k]).kind == EntryKind::File
                    && position(entries[k].path, source_root) == Ok::<Seq<char>, LinkErrorView>(
                    files[j],
                );
            assert(file_paths(source_root, entries[k], link_root, cwd) is Ok);
            assert(entry_linked_at(source_root, entries[k], link_root, cwd, path));
        }
    }
}

/// Whether `path` lies below `root`: it is `root` with a path appended
/// that never steps upwards.
pub open spec fn below(root: Seq<char>, path: Seq<char>) -> bool {
    exists|place: Seq<char>| descends(place) && path == #[trigger] joined(root, place)
}

/// Whether a step of mirroring keeps to `link_root`: a link lies below it,
/// and a directory lies below it or is the one that holds such a link.
pub open spec fn keeps_to(link_root: Seq<char>, step: StepView) -> bool {
    match step {
        StepView::Link { target, link, resolved } => below(link_root, link),
        StepView::EnsureDirectory { path } => below(link_root, path) || exists|link: Seq<char>|
            below(link_root, link) && #[trigger] parent(link) == Some(path),
        _ => false,
    }
}

/// Mirroring keeps to the link root: every link that a plan for mirroring
/// makes lies below the link root, and so does every directory it asks for,
/// but for the directory that holds such a link.
pub proof fn lemma_mirroring_keeps_to_link_root(
    root: Seq<char>,
    entries: Seq<WalkEntryView>,
    link_root: Seq<char>,
    cwd: Option<Seq<char>>,
    i: int,
)
    requires
        0 <= i < link_steps(root, entries, link_root, cwd).steps.len(),
    ensures
        keeps_to(link_root, link_steps(root, entries, link_root, cwd).steps[i]),
    decreases entries.len(),
{
    let plan = link_steps(root, entries, link_root, cwd);
    if entries.len() > 0 {
        let earlier = entries.drop_last();
        let entry = entries.last();
        let before = link_steps(root, earlier, link_root, cwd);
        if i < before.steps.len() {
            lemma_mirroring_keeps_to_link_root(root, earlier, link_root, cwd, i);
            assert(plan.steps[i] == before.steps[i]);
        } else {
            let added = entry_steps(root, entry, link_root, cwd)->Ok_0;
            assert(plan.steps[i] == added[i - before.steps.len()]);
            if entry.kind == EntryKind::Directory {
                let place = position(entry.path, root)->Ok_0;
                assert(descends(place));
                assert(plan.steps[i]->EnsureDirectory_path == joined(link_root, place));
            } else {
                let paths = file_paths(root, entry, link_root, cwd)->Ok_0;
                let place = position(entry.path, root)->Ok_0;
                assert(descends(place));
                assert(paths.link == joined(link_root, place));
                assert(below(link_root, paths.link));
                if plan.steps[i] is EnsureDirectory {
                    assert(parent(paths.link) == Some(plan.steps[i]->EnsureDirectory_path));
                }
            }
        }
    }
}

/// Unlinking keeps to the link root: whatever a plan for unlinking a tree
/// removes lies below the link root.
pub proof fn lemma_unlinking_keeps_to_link_root(
    link_root: Seq<char>,
    source_root: Seq<char>,
    walk: SourceWalkView,
    i: int,
)
    requires
        0 <= i < unlink_plan(link_root, source_root, walk).steps.len(),
    ensures
        unlink_plan(link_root, source_root, walk).steps[i] matches StepView::Unlink { path }
            && below(link_root, path),
{
    lemma_relative_files_are_files(source_root, walk.entries, i);
    let place = relative_files(source_root, walk.entries)->Ok_0[i];
    assert(descends(place));
    assert(unlink_plan(link_root, source_root, walk).steps[i]->Unlink_path == joined(
        link_root,
        place,
    ));
}

/// Linking a tree changes nothing outside the link root: every link that
/// a run asks for lies below the link root, and so does every directory
/// that it asks for, but for the directory that holds such a link.
pub proof fn lemma_link_changes_keep_to_link_root(
    link_root: Seq<char>,
    source_root: Seq<char>,
    cwd: Option<Seq<char>>,
    replies: Seq<ReplyView>,
)
    ensures
        ({
            let pending = link_run(link_root, source_root, true, cwd).after_all(replies).pending();
            &&& pending matches CommandView::Symlink { target, link, resolved } ==> below(
                link_root,
                link,
            )
            &&& pending matches CommandView::CreateDirs { path } ==> below(link_root, path)
                || exists|link: Seq<char>|
                below(link_root, link) && #[trigger] parent(link) == Some(path)
        }),
{
    lemma_mirroring(link_root, source_root, cwd, replies);
    let run = link_run(link_root, source_root, true, cwd).after_all(replies);
    if run.stage is Checking || run.stage is Acting {
        let at = if run.stage is Checking {
            run.stage->Checking_at
        } else {
            run.stage->Acting_at
        };
        let walk = replies[0].walk();
        lemma_mirroring_keeps_to_link_root(source_root, walk.entries, link_root, cwd, at);
    }
}

/// Unlinking a tree changes nothing outside the link root: whatever a run
/// asks to remove lies below the link root.
pub proof fn lemma_unlink_changes_keep_to_link_root(
    link_root: Seq<char>,
    source_root: Seq<char>,
    replies: Seq<ReplyView>,
)
    requires
        unlink_run(link_root, source_root, true).after_all(replies).pending() is Remove,
    ensures
        below(
            link_root,
            unlink_run(link_root, source_root, true).after_all(replies).pending()->Remove_path,
        ),
{
    lemma_unlinking(link_root, source_root, replies);
    let run = unlink_run(link_root, source_root, true).after_all(replies);
    lemma_unlinking_keeps_to_link_root(
        link_root,
        source_root,
        replies[1].walk(),
        run.stage->Acting_at,
    );
}

} // verus!
