//! A model of the file system, and what executing and undoing do to it.
//!
//! Paths are taken by their components, without links and without `..`. What a
//! directory's modification time is stays open: it changes with its entries.

use vstd::prelude::*;
use vstd::utf8::encode_utf8;
use crate::actions::{action_steps, fold_target, folders_stand_beside_the_first_file};
use crate::actions::{leading_steps, move_step, numbered, undo_fits};
use crate::actions::{CauseModel, EntryModel, ExecutionModel, PhaseModel, ReplyModel, ReportModel};
use crate::actions::{RequestModel, SkipModel, StepModel, UndoModel, UndoPhase};
use crate::paths::{components, components_hold_no_slash, file_name_of, is_piece, joined};
use crate::paths::{joining_adds_a_component, leading, lemma_components, lemma_leading, parent_of};
use crate::paths::the_name_is_the_last_component;
use crate::plan::{ActionModel, PlanModel};

verus! {

/// What stands at a path: a file with its contents and its modification time, if
/// that can be had, or a directory.
pub enum Node {
    File { bytes: Seq<u8>, mtime: Option<i64> },
    Dir,
}

/// What stands where, by the components of the paths.
pub type Tree = Map<Seq<Seq<u8>>, Node>;

/// Whether the path `p` is `base` or lies below it.
pub open spec fn is_at_or_below(p: Seq<Seq<u8>>, base: Seq<Seq<u8>>) -> bool {
    base.len() <= p.len() && p.take(base.len() as int) == base
}

/// Whether a directory holds the place `p`. One component stands in a directory
/// that is always there.
pub open spec fn is_held(t: Tree, p: Seq<Seq<u8>>) -> bool {
    p.len() > 0 && (p.len() > 1 ==> t.contains_key(p.drop_last()) && t[p.drop_last()] is Dir)
}

/// Whether everything stands in a directory.
pub open spec fn is_tree(t: Tree) -> bool {
    forall|p: Seq<Seq<u8>>| #[trigger] t.contains_key(p) ==> is_held(t, p)
}

/// The tree without what stands at `p` and below.
pub open spec fn without(t: Tree, p: Seq<Seq<u8>>) -> Tree {
    Map::new(|k: Seq<Seq<u8>>| t.contains_key(k) && !is_at_or_below(k, p), |k: Seq<Seq<u8>>| t[k])
}

/// The tree with what stands at `from` and below moved to `to`, in place of what
/// was there.
pub open spec fn moved(t: Tree, from: Seq<Seq<u8>>, to: Seq<Seq<u8>>) -> Tree {
    Map::new(
        |k: Seq<Seq<u8>>|
            if is_at_or_below(k, to) {
                t.contains_key(from + k.skip(to.len() as int))
            } else {
                t.contains_key(k) && !is_at_or_below(k, from)
            },
        |k: Seq<Seq<u8>>|
            if is_at_or_below(k, to) {
                t[from + k.skip(to.len() as int)]
            } else {
                t[k]
            },
    )
}

/// The tree with the directory `p` and those above it.
pub open spec fn with_dirs(t: Tree, p: Seq<Seq<u8>>) -> Tree {
    Map::new(
        |k: Seq<Seq<u8>>| t.contains_key(k) || k.len() > 0 && is_at_or_below(p, k),
        |k: Seq<Seq<u8>>|
            if t.contains_key(k) {
                t[k]
            } else {
                Node::Dir
            },
    )
}

/// Whether nothing stands in the directory `p`.
pub open spec fn is_empty_dir(t: Tree, p: Seq<Seq<u8>>) -> bool {
    forall|k: Seq<Seq<u8>>| #[trigger]
        t.contains_key(k) ==> !(k.len() == p.len() + 1 && is_at_or_below(k, p))
}

/// Whether a reply tells the truth about a tree, and leaves it as `after`.
pub open spec fn happens(
    before: Tree,
    request: RequestModel,
    reply: ReplyModel,
    after: Tree,
) -> bool {
    match request {
        RequestModel::Mtime(path) => {
            let p = components(path);
            &&& after == before
            &&& !before.contains_key(p) ==> reply == ReplyModel::Time(None)
            &&& before.contains_key(p) && before[p] is File ==> reply == ReplyModel::Time(
                before[p]->mtime,
            )
        },
        RequestModel::Exists(path) => {
            after == before && reply == ReplyModel::Found(before.contains_key(components(path)))
        },
        RequestModel::Trash(path) => {
            let p = components(path);
            if reply is Failed {
                after == before
            } else {
                before.contains_key(p) && after == without(before, p)
            }
        },
        RequestModel::CreateDirs(path) => {
            let p = components(path);
            if reply is Failed {
                exists|n: int| 0 <= n <= p.len() && after == with_dirs(before, #[trigger] p.take(n))
            } else {
                after == with_dirs(before, p) && is_tree(after)
            }
        },
        RequestModel::Rename(path, other) => {
            let p = components(path);
            let q = components(other);
            if reply is Failed {
                after == before
            } else if p == q {
                before.contains_key(p) && after == before
            } else {
                before.contains_key(p) && is_held(before, q) && !is_at_or_below(q, p)
                    && !is_at_or_below(p, q) && after == moved(before, p, q)
            }
        },
        RequestModel::ReadDir(path) => {
            let p = components(path);
            &&& after == before
            &&& reply is Empty ==> before.contains_key(p) && before[p] is Dir && reply
                == ReplyModel::Empty(is_empty_dir(before, p))
        },
        RequestModel::RemoveDir(path) => {
            let p = components(path);
            if reply is Failed {
                after == before
            } else {
                before.contains_key(p) && before[p] is Dir && is_empty_dir(before, p) && after
                    == before.remove(p)
            }
        },
    }
}

/// What a change made of a tree.
pub open spec fn changed(t: Tree, entry: EntryModel) -> Tree {
    match entry {
        EntryModel::Trashed { original, .. } => without(t, components(original)),
        EntryModel::Moved { from, to, .. } => moved(t, components(from), components(to)),
        EntryModel::CreatedDir { path } => with_dirs(t, components(path)),
    }
}

/// What the changes of a log made of a tree.
pub open spec fn applied(t: Tree, log: Seq<EntryModel>) -> Tree
    decreases log.len(),
{
    if log.len() == 0 {
        t
    } else {
        changed(applied(t, log.drop_last()), log.last())
    }
}

/// An execution and the file system that it met, from one reply to the next.
pub struct ExecutionRun {
    pub states: Seq<ExecutionModel>,
    pub trees: Seq<Tree>,
    pub replies: Seq<ReplyModel>,
}

impl ExecutionRun {
    /// Whether the run starts with `plan`, and every state and tree follow from
    /// a true reply to what was asked.
    pub open spec fn is_run(self, plan: PlanModel) -> bool {
        &&& self.states.len() == self.replies.len() + 1
        &&& self.trees.len() == self.replies.len() + 1
        &&& self.states[0] == ExecutionModel::start(plan)
        &&& is_tree(self.trees[0])
        &&& forall|i: int| 0 <= i < self.replies.len() ==> #[trigger] self.is_step(i)
    }

    /// Whether moment `i + 1` follows from reply `i`.
    pub open spec fn is_step(self, i: int) -> bool {
        &&& self.states[i].accepts(self.replies[i])
        &&& happens(
            self.trees[i],
            self.states[i].request()->0,
            self.replies[i],
            self.trees[i + 1],
        )
        &&& self.states[i + 1] == self.states[i].answered(self.replies[i])
    }

    /// Whether none of the first `n` replies is a failure.
    pub open spec fn succeeds_until(self, n: int) -> bool {
        forall|i: int| 0 <= i < n ==> !((#[trigger] self.replies[i]) is Failed)
    }
}

/// Whether something stands at the first `n` numbered names for `desired`.
pub open spec fn are_taken(t: Tree, desired: Seq<u8>, n: int) -> bool {
    forall|k: int| 1 <= k <= n ==> t.contains_key(components(#[trigger] numbered(desired, k)))
}

/// Whether `to` is the first free name for `desired`: `desired` itself, or where
/// that is taken, the first numbered one.
pub open spec fn is_first_free(t: Tree, desired: Seq<u8>, to: Seq<u8>) -> bool {
    &&& !t.contains_key(components(to))
    &&& to == desired || t.contains_key(components(desired)) && exists|n: int|
        1 <= n && to == #[trigger] numbered(desired, n) && are_taken(t, desired, n - 1)
}

/// Whether `mtime` is the time of the file at `path`, or 0 if it has none or nothing
/// stands there.
pub open spec fn is_time_at(t: Tree, path: Seq<u8>, mtime: i64) -> bool {
    let p = components(path);
    &&& !t.contains_key(p) ==> mtime == 0
    &&& t.contains_key(p) && t[p] is File && t[p]->mtime is None ==> mtime == 0
    &&& t.contains_key(p) && t[p] is File && t[p]->mtime is Some ==> mtime == t[p]->mtime->0
}

/// What stays true of an execution: what it is about to move to is the first free
/// name, and the time that it will record is the one that was found.
spec fn keeps_promise(state: ExecutionModel, tree: Tree) -> bool {
    &&& state.is_valid()
    &&& state.aborted is None && state.at < state.steps.len() ==> match (
        state.steps[state.at],
        state.phase,
    ) {
        (StepModel::Move { to: desired, .. }, PhaseModel::TryName { n }) => tree.contains_key(
            components(desired),
        ) && are_taken(tree, desired, n - 1),
        (StepModel::Move { to: desired, .. }, PhaseModel::AskTime { to }) => is_first_free(
            tree,
            desired,
            to,
        ),
        (StepModel::Move { from, to: desired, .. }, PhaseModel::MoveIt { to, mtime }) => {
            is_first_free(tree, desired, to) && is_time_at(tree, from, mtime)
        },
        (StepModel::Trash { path, .. }, PhaseModel::TrashIt { mtime }) => is_time_at(
            tree,
            path,
            mtime,
        ),
        (StepModel::EnsureDir { path, .. }, PhaseModel::MakeDir) => !tree.contains_key(
            components(path),
        ),
        _ => true,
    }
}

/// What holds at each moment of a run that has not failed yet.
proof fn lemma_run(run: ExecutionRun, plan: PlanModel, i: int)
    requires
        run.is_run(plan),
        0 <= i <= run.replies.len(),
    ensures
        keeps_promise(run.states[i], run.trees[i]),
        run.succeeds_until(i) ==> run.states[i].aborted is None && is_tree(run.trees[i])
            && run.trees[i] == applied(run.trees[0], run.states[i].log),
        run.states[i].steps == run.states[0].steps,
    decreases i,
{
    if i == 0 {
    } else {
        lemma_run(run, plan, i - 1);
        assert(run.is_step(i - 1));
        let state = run.states[i - 1];
        let reply = run.replies[i - 1];
        let before = run.trees[i - 1];
        let after = run.trees[i];
        let next = run.states[i];
        assert(next == state.answered(reply));
        if run.succeeds_until(i) {
            assert(run.succeeds_until(i - 1));
            assert(!(run.replies[i - 1] is Failed));
            if next.log.len() > state.log.len() {
                assert(next.log.drop_last() =~= state.log);
            }
            lemma_stays_tree(before, state.request()->0, reply, after);
        }
    }
}

/// A request that is not about an undo and does not fail keeps the tree a tree.
proof fn lemma_stays_tree(before: Tree, request: RequestModel, reply: ReplyModel, after: Tree)
    requires
        is_tree(before),
        happens(before, request, reply, after),
        !(reply is Failed),
    ensures
        is_tree(after),
{
    match request {
        RequestModel::Trash(path) => {
            lemma_without(before, components(path));
        },
        RequestModel::Rename(path, other) => {
            if components(path) != components(other) {
                lemma_moved(before, components(path), components(other));
            }
        },
        RequestModel::RemoveDir(path) => {
            let p = components(path);
            assert forall|k: Seq<Seq<u8>>| #[trigger] after.contains_key(k) implies is_held(
                after,
                k,
            ) by {
                assert(before.contains_key(k));
                if k.len() > 1 && k.drop_last() == p {
                    assert(k.take(p.len() as int) =~= p);
                    assert(false);
                }
            }
        },
        _ => {},
    }
}

/// Removing a subtree leaves a tree.
proof fn lemma_without(t: Tree, p: Seq<Seq<u8>>)
    requires
        is_tree(t),
    ensures
        is_tree(without(t, p)),
{
    let r = without(t, p);
    assert forall|k: Seq<Seq<u8>>| #[trigger] r.contains_key(k) implies is_held(r, k) by {
        assert(t.contains_key(k));
        if k.len() > 1 {
            let up = k.drop_last();
            assert(t.contains_key(up));
            if is_at_or_below(up, p) {
                assert(k.take(p.len() as int) =~= up.take(p.len() as int));
                assert(false);
            }
            assert(r.contains_key(up));
        }
    }
}

/// Moving a subtree to a place that a directory holds leaves a tree.
proof fn lemma_moved(t: Tree, from: Seq<Seq<u8>>, to: Seq<Seq<u8>>)
    requires
        is_tree(t),
        is_held(t, to),
        !is_at_or_below(to, from),
    ensures
        is_tree(moved(t, from, to)),
{
    let r = moved(t, from, to);
    assert(from.len() > 0) by {
        if from.len() == 0 {
            assert(to.take(0) =~= from);
        }
    }
    assert forall|k: Seq<Seq<u8>>| #[trigger] r.contains_key(k) implies is_held(r, k) by {
        if is_at_or_below(k, to) {
            let source = from + k.skip(to.len() as int);
            assert(t.contains_key(source));
            if k.len() == to.len() {
                assert(k =~= to);
                if k.len() > 1 {
                    let up = k.drop_last();
                    assert(t.contains_key(up) && t[up] is Dir);
                    if is_at_or_below(up, from) {
                        assert(to.take(from.len() as int) =~= up.take(from.len() as int));
                        assert(false);
                    }
                    assert(r.contains_key(up));
                    assert(!is_at_or_below(up, to));
                }
            } else {
                let up = k.drop_last();
                assert(up.take(to.len() as int) =~= to);
                let source_up = from + up.skip(to.len() as int);
                assert(source.drop_last() =~= source_up);
                assert(is_held(t, source));
                assert(t.contains_key(source_up));
                assert(r.contains_key(up));
            }
        } else {
            assert(t.contains_key(k));
            if k.len() > 1 {
                let up = k.drop_last();
                assert(t.contains_key(up));
                if is_at_or_below(up, to) {
                    assert(k.take(to.len() as int) =~= up.take(to.len() as int));
                    assert(false);
                }
                if is_at_or_below(up, from) {
                    assert(k.take(from.len() as int) =~= up.take(from.len() as int));
                    assert(false);
                }
                assert(r.contains_key(up));
            }
        }
    }
}

/// As long as nothing fails, the tree is what the log's changes made of the first
/// tree: the log holds all the changes, and only changes that were made.
pub proof fn the_log_tells_what_changed(run: ExecutionRun, plan: PlanModel, i: int)
    requires
        run.is_run(plan),
        0 <= i <= run.replies.len(),
        run.succeeds_until(i),
    ensures
        run.trees[i] == applied(run.trees[0], run.states[i].log),
{
    lemma_run(run, plan, i);
}

/// Nothing is moved to a place where something stands.
pub proof fn moves_never_overwrite(run: ExecutionRun, plan: PlanModel, i: int)
    requires
        run.is_run(plan),
        0 <= i <= run.replies.len(),
        run.states[i].request() is Some,
        run.states[i].request()->0 is Rename,
    ensures
        !run.trees[i].contains_key(components(run.states[i].request()->0->Rename_1)),
{
    lemma_run(run, plan, i);
}

/// A file is moved to the first free name in its folder: its own, or where that is
/// taken, the first one with a number that is free.
pub proof fn the_first_free_name_is_taken(run: ExecutionRun, plan: PlanModel, i: int)
    requires
        run.is_run(plan),
        0 <= i <= run.replies.len(),
        run.states[i].request() is Some,
        run.states[i].request()->0 is Rename,
    ensures
        run.states[i].steps[run.states[i].at] is Move,
        is_first_free(
            run.trees[i],
            run.states[i].steps[run.states[i].at]->to,
            run.states[i].request()->0->Rename_1,
        ),
{
    lemma_run(run, plan, i);
}

/// After a failure nothing more is asked, and the execution says why.
pub proof fn a_failure_ends_the_execution(run: ExecutionRun, plan: PlanModel, i: int)
    requires
        run.is_run(plan),
        0 <= i < run.replies.len(),
        run.replies[i] is Failed,
    ensures
        i == run.replies.len() - 1,
        run.states[i + 1].request() is None,
        run.states[i + 1].failure() is Some,
        run.states[i + 1].log == run.states[i].log,
{
    lemma_run(run, plan, i);
    assert(run.is_step(i));
    assert(run.states[i].is_valid());
    if i + 1 < run.replies.len() {
        assert(run.is_step(i + 1));
    }
}

/// A plan that is only to be shown asks nothing and logs nothing.
pub proof fn a_dry_run_changes_nothing(plan: PlanModel)
    requires
        plan.dry_run,
    ensures
        ExecutionModel::start(plan).request() is None,
        ExecutionModel::start(plan).failure() is None,
        ExecutionModel::start(plan).log == Seq::<EntryModel>::empty(),
{
}

/// Whether action `a` says to trash `path`.
pub open spec fn says_to_trash(a: ActionModel, path: Seq<u8>) -> bool {
    match a {
        ActionModel::KeepOne { trash, .. } | ActionModel::DeleteAll { trash } => trash.contains(
            path,
        ),
        _ => false,
    }
}

/// Whether action `a` says to fold `path`.
pub open spec fn says_to_fold(a: ActionModel, path: Seq<u8>) -> bool {
    match a {
        ActionModel::FoldIntoFolder { files, .. } => files.contains(path),
        _ => false,
    }
}

/// Every step comes from an action of the plan.
proof fn lemma_steps(actions: Seq<ActionModel>, n: int, i: int)
    requires
        0 <= n <= actions.len(),
        0 <= i < leading_steps(actions, n).len(),
    ensures
        match leading_steps(actions, n)[i] {
            StepModel::Trash { action, path } => 0 <= action < n && says_to_trash(
                actions[action],
                path,
            ),
            StepModel::Move { action, from, .. } => 0 <= action < n && says_to_fold(
                actions[action],
                from,
            ),
            _ => true,
        },
    decreases n,
{
    if n > 0 {
        let before = leading_steps(actions, n - 1);
        let own = action_steps(n - 1, actions[n - 1]);
        if i < before.len() {
            lemma_steps(actions, n - 1, i);
        } else {
            let k = i - before.len();
            assert(leading_steps(actions, n)[i] == own[k]);
            match actions[n - 1] {
                ActionModel::KeepOne { trash, .. } | ActionModel::DeleteAll { trash } => {
                    assert(trash[k] == own[k]->Trash_path);
                },
                ActionModel::FoldIntoFolder { folder_name, files } => {
                    if own[k] is Move {
                        assert(files[k - 1] == own[k]->from);
                    }
                },
                _ => {},
            }
        }
    }
}

/// Only what an action of the plan lists is trashed or moved.
pub proof fn only_what_the_plan_lists_is_touched(run: ExecutionRun, plan: PlanModel, i: int)
    requires
        run.is_run(plan),
        0 <= i <= run.replies.len(),
        run.states[i].request() is Some,
    ensures
        match run.states[i].request()->0 {
            RequestModel::Trash(path) => !plan.dry_run && exists|a: int|
                0 <= a < plan.actions.len() && says_to_trash(#[trigger] plan.actions[a], path),
            RequestModel::Rename(from, _) => !plan.dry_run && exists|a: int|
                0 <= a < plan.actions.len() && says_to_fold(#[trigger] plan.actions[a], from),
            RequestModel::ReadDir(_) | RequestModel::RemoveDir(_) => false,
            _ => true,
        },
{
    lemma_run(run, plan, i);
    let state = run.states[i];
    assert(!plan.dry_run);
    lemma_steps(plan.actions, plan.actions.len() as int, state.at);
}

/// Whether a change can be undone in the tree that it made: a dated file was
/// moved to a free place, or a directory was made in another.
pub open spec fn is_reversible(t: Tree, entry: EntryModel) -> bool {
    match entry {
        EntryModel::Trashed { .. } => false,
        EntryModel::Moved { from, to, mtime } => {
            let p = components(from);
            let q = components(to);
            &&& t.contains_key(p)
            &&& t[p] is File
            &&& t[p]->mtime == Some(mtime)
            &&& !t.contains_key(q)
            &&& is_held(t, q)
            &&& !is_at_or_below(q, p)
            &&& !is_at_or_below(p, q)
        },
        EntryModel::CreatedDir { path } => {
            let p = components(path);
            &&& !t.contains_key(p)
            &&& is_held(t, p)
        },
    }
}

/// Whether every change of a log that did not go to the trash can be undone, each
/// in the tree that it made.
pub open spec fn is_reversible_log(t: Tree, log: Seq<EntryModel>) -> bool {
    forall|k: int|
        0 <= k < log.len() && !((#[trigger] log[k]) is Trashed) ==> is_reversible(
            applied(t, log.take(k)),
            log[k],
        )
}

/// Whether neither of two paths holds the other.
pub open spec fn are_apart(p: Seq<Seq<u8>>, q: Seq<Seq<u8>>) -> bool {
    !is_at_or_below(p, q) && !is_at_or_below(q, p)
}

/// Whether what a change moved or made stands apart from `p`.
pub open spec fn stands_apart(entry: EntryModel, p: Seq<Seq<u8>>) -> bool {
    match entry {
        EntryModel::Moved { from, to, .. } => are_apart(components(from), p) && are_apart(
            components(to),
            p,
        ),
        EntryModel::CreatedDir { path } => are_apart(components(path), p),
        EntryModel::Trashed { .. } => true,
    }
}

/// Whether what went to the trash stands apart from what was moved or made
/// before.
pub open spec fn trash_stands_apart(log: Seq<EntryModel>) -> bool {
    forall|k: int, j: int|
        0 <= k < j < log.len() && (#[trigger] log[j]) is Trashed ==> stands_apart(
            #[trigger] log[k],
            components(log[j]->original),
        )
}

/// Whether `p` is at or below what one of the changes from the `l`th on put into
/// the trash.
pub open spec fn is_trashed(log: Seq<EntryModel>, l: int, p: Seq<Seq<u8>>) -> bool {
    exists|j: int|
        l <= j < log.len() && (#[trigger] log[j]) is Trashed && is_at_or_below(
            p,
            components(log[j]->original),
        )
}

/// The tree without what the changes from the `l`th on put into the trash.
pub open spec fn cleared(t: Tree, log: Seq<EntryModel>, l: int) -> Tree {
    Map::new(
        |k: Seq<Seq<u8>>| t.contains_key(k) && !is_trashed(log, l, k),
        |k: Seq<Seq<u8>>| t[k],
    )
}

/// Nothing stands below a free place or a file.
proof fn lemma_bare(t: Tree, p: Seq<Seq<u8>>, k: Seq<Seq<u8>>)
    requires
        is_tree(t),
        t.contains_key(k),
        is_at_or_below(k, p),
        p.len() > 0,
        !t.contains_key(p) || t[p] is File,
    ensures
        k == p,
        t.contains_key(p),
    decreases k.len(),
{
    if k.len() > p.len() {
        let up = k.drop_last();
        assert(is_held(t, k));
        assert(up.take(p.len() as int) =~= p);
        lemma_bare(t, p, up);
        assert(t[up] is Dir);
    } else {
        assert(k =~= p);
    }
}

/// Moving a file to a free place and back changes nothing.
proof fn lemma_there_and_back(t: Tree, p: Seq<Seq<u8>>, q: Seq<Seq<u8>>)
    requires
        is_tree(t),
        t.contains_key(p),
        t[p] is File,
        !t.contains_key(q),
        is_held(t, q),
        !is_at_or_below(q, p),
        !is_at_or_below(p, q),
    ensures
        moved(moved(t, p, q), q, p) == t,
        moved(t, p, q).contains_key(q),
        moved(t, p, q)[q] == t[p],
{
    let there = moved(t, p, q);
    let back = moved(there, q, p);
    assert(is_held(t, p));
    assert(q.take(q.len() as int) =~= q);
    assert(p + q.skip(q.len() as int) =~= p);
    assert forall|k: Seq<Seq<u8>>|
        #![trigger back.contains_key(k)]
        #![trigger back[k]]
        back.contains_key(k) == t.contains_key(k) && (back.contains_key(k) ==> back[k] == t[k]) by {
        if is_at_or_below(k, p) {
            let via = q + k.skip(p.len() as int);
            assert(via.take(q.len() as int) =~= q);
            assert(via.skip(q.len() as int) =~= k.skip(p.len() as int));
            assert(p + k.skip(p.len() as int) =~= k);
        } else {
            if is_at_or_below(k, q) {
                if t.contains_key(k) {
                    lemma_bare(t, q, k);
                }
            }
        }
    }
    assert(back.dom() =~= t.dom());
    assert(back =~= t);
}

/// A directory that was made in another has nothing in it, and removing it
/// undoes it.
proof fn lemma_made_and_removed(t: Tree, p: Seq<Seq<u8>>)
    requires
        is_tree(t),
        !t.contains_key(p),
        is_held(t, p),
    ensures
        with_dirs(t, p).remove(p) == t,
        with_dirs(t, p).contains_key(p),
        with_dirs(t, p)[p] is Dir,
        is_empty_dir(with_dirs(t, p), p),
{
    let made = with_dirs(t, p);
    assert(p.take(p.len() as int) =~= p);
    assert forall|k: Seq<Seq<u8>>| k.len() > 0 && is_at_or_below(p, k) && k
        != p implies t.contains_key(k) by {
        if k.len() == p.len() {
            assert(p.take(k.len() as int) =~= p);
        }
        let up = p.drop_last();
        assert(up.take(k.len() as int) =~= p.take(k.len() as int));
        lemma_above(t, up, k.len() as int);
    }
    assert(made.remove(p) =~= t);
    assert forall|k: Seq<Seq<u8>>| #[trigger] made.contains_key(k) implies !(k.len() == p.len() + 1
        && is_at_or_below(k, p)) by {
        if k.len() == p.len() + 1 && is_at_or_below(k, p) {
            assert(t.contains_key(k));
            lemma_bare(t, p, k);
        }
    }
}

/// What is above something in a tree is a directory.
proof fn lemma_above(t: Tree, k: Seq<Seq<u8>>, n: int)
    requires
        is_tree(t),
        t.contains_key(k),
        0 < n <= k.len(),
    ensures
        t.contains_key(k.take(n)),
        n < k.len() ==> t[k.take(n)] is Dir,
    decreases k.len(),
{
    if n < k.len() {
        let up = k.drop_last();
        assert(is_held(t, k));
        assert(up.take(n) =~= k.take(n));
        if n == up.len() {
            assert(up.take(n) =~= up);
        }
        lemma_above(t, up, n);
    } else {
        assert(k.take(n) =~= k);
    }
}

/// The directories above something in a tree need not be made.
proof fn lemma_parent_is_there(t: Tree, path: Seq<u8>, after: Tree)
    requires
        is_tree(t),
        parent_of(path) is Some,
        is_held(t, components(path)),
        after == with_dirs(t, components(parent_of(path)->0)),
    ensures
        after == t,
{
    let p = components(path);
    lemma_leading(path, p.len() - 1);
    let up = components(parent_of(path)->0);
    assert(up == p.take(p.len() - 1));
    assert(up =~= p.drop_last());
    assert forall|k: Seq<Seq<u8>>| k.len() > 0 && is_at_or_below(up, k) implies t.contains_key(
        k,
    ) by {
        lemma_above(t, up, k.len() as int);
    }
    assert(after =~= t);
}

/// An undo and the file system that it met, from one reply to the next.
pub struct UndoRun {
    pub states: Seq<UndoModel>,
    pub trees: Seq<Tree>,
    pub replies: Seq<ReplyModel>,
}

impl UndoRun {
    /// Whether the run starts with `log`, and every state and tree follow from a
    /// true reply to what was asked.
    pub open spec fn is_run(self, log: Seq<EntryModel>) -> bool {
        &&& self.states.len() == self.replies.len() + 1
        &&& self.trees.len() == self.replies.len() + 1
        &&& self.states[0] == UndoModel::start(log)
        &&& forall|i: int| 0 <= i < self.replies.len() ==> #[trigger] self.is_step(i)
    }

    /// Whether moment `i + 1` follows from reply `i`.
    pub open spec fn is_step(self, i: int) -> bool {
        &&& self.states[i].accepts(self.replies[i])
        &&& happens(
            self.trees[i],
            self.states[i].request()->0,
            self.replies[i],
            self.trees[i + 1],
        )
        &&& self.states[i + 1] == self.states[i].answered(self.replies[i])
    }

    /// Whether no reply is a failure.
    pub open spec fn succeeds(self) -> bool {
        forall|i: int| 0 <= i < self.replies.len() ==> !((#[trigger] self.replies[i]) is Failed)
    }
}

/// What an undo reports of the changes from the `l`th on that went to the trash:
/// they are not restored. The last comes first.
pub open spec fn trash_skips(log: Seq<EntryModel>, l: int) -> Seq<SkipModel>
    decreases log.len() - l,
{
    if l < 0 || l >= log.len() {
        seq![]
    } else if log[l] is Trashed {
        trash_skips(log, l + 1).push(
            SkipModel { path: log[l]->original, reason: "trash restore not implemented"@ },
        )
    } else {
        trash_skips(log, l + 1)
    }
}

/// How many of the changes from the `l`th on did not go to the trash.
pub open spec fn reversible_count(log: Seq<EntryModel>, l: int) -> int
    decreases log.len() - l,
{
    if l < 0 || l >= log.len() {
        0
    } else if log[l] is Trashed {
        reversible_count(log, l + 1)
    } else {
        reversible_count(log, l + 1) + 1
    }
}

/// Where an undo stands that has met no failure.
spec fn undo_stands(t: Tree, log: Seq<EntryModel>, state: UndoModel, tree: Tree) -> bool {
    &&& state.entries == log
    &&& state.error is None
    &&& 0 <= state.left <= log.len()
    &&& tree == cleared(applied(t, log.take(state.left)), log, state.left)
    &&& state.report == (ReportModel {
        reversed: reversible_count(log, state.left),
        modified: seq![],
        other: trash_skips(log, state.left),
    })
    &&& state.left > 0 && state.phase != UndoPhase::First ==> undo_fits(
        log[state.left - 1],
        state.phase,
    )
}

/// Two places that hold a third are one above the other.
proof fn lemma_one_line(k: Seq<Seq<u8>>, p: Seq<Seq<u8>>, q: Seq<Seq<u8>>)
    requires
        is_at_or_below(k, p),
        is_at_or_below(k, q),
    ensures
        !are_apart(p, q),
{
    if p.len() <= q.len() {
        assert(q.take(p.len() as int) =~= k.take(p.len() as int));
    } else {
        assert(p.take(q.len() as int) =~= k.take(q.len() as int));
    }
}

/// Whether every later piece of trash stands apart from a change.
spec fn keeps_clear(log: Seq<EntryModel>, l: int, entry: EntryModel) -> bool {
    forall|j: int|
        l <= j < log.len() && (#[trigger] log[j]) is Trashed ==> stands_apart(
            entry,
            components(log[j]->original),
        )
}

/// Clearing the trash leaves a tree.
proof fn lemma_cleared_tree(t: Tree, log: Seq<EntryModel>, l: int)
    requires
        is_tree(t),
    ensures
        is_tree(cleared(t, log, l)),
{
    let r = cleared(t, log, l);
    assert forall|k: Seq<Seq<u8>>| #[trigger] r.contains_key(k) implies is_held(r, k) by {
        assert(t.contains_key(k));
        if k.len() > 1 {
            let up = k.drop_last();
            assert(t.contains_key(up));
            if is_trashed(log, l, up) {
                let j = choose|j: int|
                    l <= j < log.len() && (#[trigger] log[j]) is Trashed && is_at_or_below(
                        up,
                        components(log[j]->original),
                    );
                let p = components(log[j]->original);
                assert(k.take(p.len() as int) =~= up.take(p.len() as int));
                assert(is_trashed(log, l, k));
            }
            assert(r.contains_key(up));
        }
    }
}

/// A place that stands apart from the trash is not trashed, nor is what holds it
/// or what stands below.
proof fn lemma_not_trashed(
    log: Seq<EntryModel>,
    l: int,
    entry: EntryModel,
    p: Seq<Seq<u8>>,
    k: Seq<Seq<u8>>,
)
    requires
        keeps_clear(log, l, entry),
        match entry {
            EntryModel::Moved { from, to, .. } => p == components(from) || p == components(to),
            EntryModel::CreatedDir { path } => p == components(path),
            EntryModel::Trashed { .. } => false,
        },
        is_at_or_below(k, p) || is_at_or_below(p, k),
    ensures
        !is_trashed(log, l, k),
{
    if is_trashed(log, l, k) {
        let j = choose|j: int|
            l <= j < log.len() && (#[trigger] log[j]) is Trashed && is_at_or_below(
                k,
                components(log[j]->original),
            );
        let r = components(log[j]->original);
        assert(stands_apart(entry, components(log[j]->original)));
        if is_at_or_below(k, p) {
            lemma_one_line(k, p, r);
        } else {
            assert(p.take(r.len() as int) =~= k.take(r.len() as int));
        }
    }
}

/// A change that can be undone can still be undone once later trash is cleared,
/// and clearing the trash before or after the change is the same.
proof fn lemma_cleared_change(t: Tree, log: Seq<EntryModel>, l: int, entry: EntryModel)
    requires
        is_tree(t),
        is_reversible(t, entry),
        keeps_clear(log, l, entry),
    ensures
        is_reversible(cleared(t, log, l), entry),
        changed(cleared(t, log, l), entry) == cleared(changed(t, entry), log, l),
{
    let c = cleared(t, log, l);
    match entry {
        EntryModel::Moved { from, to, .. } => {
            let p = components(from);
            let q = components(to);
            assert(p.take(p.len() as int) =~= p);
            assert(q.take(q.len() as int) =~= q);
            lemma_not_trashed(log, l, entry, p, p);
            if q.len() > 1 {
                let up = q.drop_last();
                assert(q.take(up.len() as int) =~= up);
                lemma_not_trashed(log, l, entry, q, up);
                assert(c.contains_key(up));
            }
            let a = moved(c, p, q);
            let b = cleared(moved(t, p, q), log, l);
            assert forall|k: Seq<Seq<u8>>|
                #![trigger a.contains_key(k)]
                #![trigger a[k]]
                a.contains_key(k) == b.contains_key(k) && (a.contains_key(k) ==> a[k] == b[k]) by {
                if is_at_or_below(k, q) {
                    let source = p + k.skip(q.len() as int);
                    assert(source.take(p.len() as int) =~= p);
                    lemma_not_trashed(log, l, entry, q, k);
                    lemma_not_trashed(log, l, entry, p, source);
                }
            }
            assert(a.dom() =~= b.dom());
            assert(a =~= b);
        },
        EntryModel::CreatedDir { path } => {
            let p = components(path);
            if p.len() > 1 {
                let up = p.drop_last();
                assert(p.take(up.len() as int) =~= up);
                lemma_not_trashed(log, l, entry, p, up);
                assert(c.contains_key(up));
            }
            let a = with_dirs(c, p);
            let b = cleared(with_dirs(t, p), log, l);
            assert forall|k: Seq<Seq<u8>>|
                #![trigger a.contains_key(k)]
                #![trigger a[k]]
                a.contains_key(k) == b.contains_key(k) && (a.contains_key(k) ==> a[k] == b[k]) by {
                if is_at_or_below(p, k) {
                    lemma_not_trashed(log, l, entry, p, k);
                }
            }
            assert(a.dom() =~= b.dom());
            assert(a =~= b);
        },
        EntryModel::Trashed { .. } => {},
    }
}

/// The trees that a log makes of a tree are trees.
proof fn lemma_applied_tree(t: Tree, log: Seq<EntryModel>, k: int)
    requires
        is_tree(t),
        is_reversible_log(t, log),
        0 <= k <= log.len(),
    ensures
        is_tree(applied(t, log.take(k))),
        k > 0 ==> applied(t, log.take(k)) == changed(applied(t, log.take(k - 1)), log[k - 1]),
    decreases k,
{
    if k > 0 {
        lemma_applied_tree(t, log, k - 1);
        assert(log.take(k).drop_last() =~= log.take(k - 1));
        let before = applied(t, log.take(k - 1));
        match log[k - 1] {
            EntryModel::Trashed { original, .. } => {
                lemma_without(before, components(original));
            },
            EntryModel::Moved { from, to, .. } => {
                lemma_moved(before, components(from), components(to));
            },
            EntryModel::CreatedDir { path } => {
                let p = components(path);
                let made = with_dirs(before, p);
                lemma_made_and_removed(before, p);
                assert forall|x: Seq<Seq<u8>>| #[trigger] made.contains_key(x) implies is_held(
                    made,
                    x,
                ) by {
                    if x != p {
                        assert(made.remove(p).contains_key(x));
                        assert(before.contains_key(x));
                        assert(is_held(before, x));
                    }
                }
            },
        }
    }
}

/// Passing over the trash keeps an undo where it should stand.
proof fn lemma_settles(t: Tree, log: Seq<EntryModel>, state: UndoModel, tree: Tree)
    requires
        is_tree(t),
        is_reversible_log(t, log),
        undo_stands(t, log, state, tree),
        state.phase == UndoPhase::First,
    ensures
        undo_stands(t, log, state.settled(), tree),
        state.settled().phase == UndoPhase::First,
        state.settled().left > 0 ==> !(log[state.settled().left - 1] is Trashed),
    decreases state.left,
{
    if state.left > 0 && log[state.left - 1] is Trashed {
        let n = state.left;
        let original = log[n - 1]->original;
        let p = components(original);
        let next = state.skipped(original, "trash restore not implemented"@);
        lemma_applied_tree(t, log, n);
        let before = applied(t, log.take(n - 1));
        let a = cleared(without(before, p), log, n);
        let b = cleared(before, log, n - 1);
        assert forall|k: Seq<Seq<u8>>| a.contains_key(k) == #[trigger] b.contains_key(k) by {
            if is_trashed(log, n - 1, k) {
                let j = choose|j: int|
                    n - 1 <= j < log.len() && (#[trigger] log[j]) is Trashed && is_at_or_below(
                        k,
                        components(log[j]->original),
                    );
                assert(j == n - 1 || is_trashed(log, n, k));
            }
            if is_trashed(log, n, k) {
                let j = choose|j: int|
                    n <= j < log.len() && (#[trigger] log[j]) is Trashed && is_at_or_below(
                        k,
                        components(log[j]->original),
                    );
                assert(is_trashed(log, n - 1, k));
            }
            if is_at_or_below(k, p) {
                assert(log[n - 1] is Trashed);
                assert(is_trashed(log, n - 1, k));
            }
        }
        assert(a.dom() =~= b.dom());
        assert(a =~= b);
        lemma_settles(t, log, next, tree);
    }
}

/// One reply keeps an undo where it should stand.
proof fn lemma_undo_step(
    t: Tree,
    log: Seq<EntryModel>,
    state: UndoModel,
    tree: Tree,
    reply: ReplyModel,
    after: Tree,
)
    requires
        is_tree(t),
        is_reversible_log(t, log),
        trash_stands_apart(log),
        undo_stands(t, log, state, tree),
        state.accepts(reply),
        !(reply is Failed),
        happens(tree, state.request()->0, reply, after),
    ensures
        undo_stands(t, log, state.answered(reply), after),
{
    let n = state.left;
    let entry = log[n - 1];
    lemma_applied_tree(t, log, n);
    lemma_applied_tree(t, log, n - 1);
    let made = applied(t, log.take(n - 1));
    assert(is_reversible(made, log[n - 1]));
    assert(keeps_clear(log, n, entry)) by {
        assert forall|j: int| n <= j < log.len() && (#[trigger] log[j]) is Trashed implies
            stands_apart(entry, components(log[j]->original)) by {
            assert(stands_apart(log[n - 1], components(log[j]->original)));
        }
    }
    lemma_cleared_change(made, log, n, entry);
    lemma_cleared_tree(made, log, n);
    let before = cleared(made, log, n);
    assert(tree == changed(before, entry));
    assert(before == cleared(made, log, n - 1)) by {
        let b = cleared(made, log, n - 1);
        assert forall|k: Seq<Seq<u8>>| before.contains_key(k) == #[trigger] b.contains_key(k) by {
            if is_trashed(log, n - 1, k) {
                let j = choose|j: int|
                    n - 1 <= j < log.len() && (#[trigger] log[j]) is Trashed && is_at_or_below(
                        k,
                        components(log[j]->original),
                    );
                assert(j != n - 1);
                assert(is_trashed(log, n, k));
            }
            if is_trashed(log, n, k) {
                let j = choose|j: int|
                    n <= j < log.len() && (#[trigger] log[j]) is Trashed && is_at_or_below(
                        k,
                        components(log[j]->original),
                    );
                assert(is_trashed(log, n - 1, k));
            }
        }
        assert(before.dom() =~= b.dom());
        assert(before =~= b);
    }
    match entry {
        EntryModel::Moved { from, to, mtime } => {
            let p = components(from);
            let q = components(to);
            lemma_there_and_back(before, p, q);
            lemma_moved(before, p, q);
            match state.phase {
                UndoPhase::MakeParent => {
                    assert(is_held(before, p));
                    let up = p.drop_last();
                    if p.len() > 1 {
                        assert(before.contains_key(up));
                        if is_at_or_below(up, q) {
                            assert(p.take(q.len() as int) =~= up.take(q.len() as int));
                        }
                        assert(!is_at_or_below(up, p));
                        assert(tree.contains_key(up));
                    }
                    assert(is_held(tree, p));
                    lemma_parent_is_there(tree, from, after);
                },
                UndoPhase::MoveBack => {
                    assert(p != q) by {
                        if p == q {
                            assert(p.take(q.len() as int) =~= q);
                        }
                    }
                    assert(after == before);
                    assert(undo_stands(t, log, state.reversed(), after));
                    lemma_settles(t, log, state.reversed(), after);
                },
                _ => {},
            }
        },
        EntryModel::CreatedDir { path } => {
            lemma_made_and_removed(before, components(path));
            if state.phase == UndoPhase::Remove {
                assert(after == before);
                assert(undo_stands(t, log, state.reversed(), after));
                lemma_settles(t, log, state.reversed(), after);
            }
        },
        EntryModel::Trashed { .. } => {},
    }
}

/// An undo that meets no failure stands where it should at each moment.
proof fn lemma_undo_run(t: Tree, log: Seq<EntryModel>, run: UndoRun, i: int)
    requires
        is_tree(t),
        is_reversible_log(t, log),
        trash_stands_apart(log),
        run.is_run(log),
        run.succeeds(),
        run.trees[0] == applied(t, log),
        0 <= i <= run.replies.len(),
    ensures
        undo_stands(t, log, run.states[i], run.trees[i]),
        run.states[i].left > 0 ==> !(log[run.states[i].left - 1] is Trashed),
    decreases i,
{
    if i == 0 {
        let fresh = UndoModel {
            entries: log,
            left: log.len() as int,
            phase: UndoPhase::First,
            report: ReportModel { reversed: 0, modified: seq![], other: seq![] },
            error: None,
        };
        assert(log.take(log.len() as int) =~= log);
        assert(cleared(applied(t, log), log, log.len() as int) =~= applied(t, log));
        lemma_settles(t, log, fresh, run.trees[0]);
    } else {
        lemma_undo_run(t, log, run, i - 1);
        assert(run.is_step(i - 1));
        assert(!(run.replies[i - 1] is Failed));
        let state = run.states[i - 1];
        let reply = run.replies[i - 1];
        lemma_undo_step(t, log, state, run.trees[i - 1], reply, run.trees[i]);
        lemma_settled(state.replied(reply));
    }
}

/// Passing over the trash adds to what was left as it was, and to nothing else. It
/// ends at a change that did not go there.
proof fn lemma_settled(m: UndoModel)
    ensures
        m.settled().entries == m.entries,
        m.settled().report.modified == m.report.modified,
        m.settled().report.reversed == m.report.reversed,
        m.settled().left <= m.left,
        m.settled().left > 0 ==> !(m.entries[m.settled().left - 1] is Trashed),
    decreases m.left,
{
    if m.left > 0 {
        match m.entries[m.left - 1] {
            EntryModel::Trashed { original, .. } => {
                lemma_settled(m.skipped(original, "trash restore not implemented"@));
            },
            _ => {},
        }
    }
}

/// Undoing a log whose changes can be undone restores the tree, but for what went
/// to the trash: that is reported, and every other change as reversed.
pub proof fn undoing_restores_the_tree(t: Tree, log: Seq<EntryModel>, run: UndoRun)
    requires
        is_tree(t),
        is_reversible_log(t, log),
        trash_stands_apart(log),
        run.is_run(log),
        run.succeeds(),
        run.trees[0] == applied(t, log),
        run.states.last().request() is None,
    ensures
        run.trees.last() == cleared(t, log, 0),
        run.states.last().error is None,
        run.states.last().report == (ReportModel {
            reversed: reversible_count(log, 0),
            modified: seq![],
            other: trash_skips(log, 0),
        }),
{
    let n = run.replies.len() as int;
    lemma_undo_run(t, log, run, n);
    let last = run.states.last();
    assert(last.left == 0);
    assert(log.take(0) =~= Seq::<EntryModel>::empty());
}

impl ExecutionRun {
    /// Whether what is moved at moment `i` is a file with a time, and a folder
    /// that is made has a directory to stand in.
    pub open spec fn is_plain(self, i: int) -> bool {
        match self.states[i].request() {
            Some(RequestModel::Rename(from, _)) => {
                let p = components(from);
                self.trees[i].contains_key(p) && self.trees[i][p] is File
                    && self.trees[i][p]->mtime is Some
            },
            Some(RequestModel::CreateDirs(path)) => is_held(self.trees[i], components(path)),
            _ => true,
        }
    }

    /// Whether the run came to its end without a failure.
    pub open spec fn is_complete(self) -> bool {
        &&& self.succeeds_until(self.replies.len() as int)
        &&& self.states.last().request() is None
        &&& self.states.last().failure() is None
    }
}

/// What an execution that has met no failure has logged can be undone.
proof fn lemma_log_is_reversible(run: ExecutionRun, plan: PlanModel, i: int)
    requires
        run.is_run(plan),
        run.succeeds_until(i),
        0 <= i <= run.replies.len(),
        forall|k: int| 0 <= k < run.replies.len() ==> #[trigger] run.is_plain(k),
    ensures
        is_reversible_log(run.trees[0], run.states[i].log),
    decreases i,
{
    if i > 0 {
        assert(run.succeeds_until(i - 1));
        lemma_log_is_reversible(run, plan, i - 1);
        lemma_run(run, plan, i - 1);
        assert(run.is_step(i - 1));
        assert(run.is_plain(i - 1));
        assert(!(run.replies[i - 1] is Failed));
        let t = run.trees[0];
        let state = run.states[i - 1];
        let next = run.states[i];
        let tree = run.trees[i - 1];
        if next.log.len() > state.log.len() {
            let n = state.log.len() as int;
            assert(next.log.take(n) =~= state.log);
            assert forall|k: int|
                0 <= k < next.log.len() && !((#[trigger] next.log[k]) is Trashed) implies
                is_reversible(applied(t, next.log.take(k)), next.log[k]) by {
                if k < n {
                    assert(next.log.take(k) =~= state.log.take(k));
                    assert(next.log[k] == state.log[k]);
                } else {
                    match state.steps[state.at] {
                        StepModel::Move { from, .. } => {
                            assert(tree.contains_key(components(from)));
                        },
                        _ => {},
                    }
                }
            }
        }
    }
}

/// Undoing what a plan did restores the file system, but for the trash: where
/// files with times are folded into folders that stand in a directory, and what
/// is trashed stands apart from what was folded before, the undo of a complete
/// execution brings back the tree of the start without what was trashed.
pub proof fn undo_reverses_an_execution(run: ExecutionRun, plan: PlanModel, back: UndoRun)
    requires
        run.is_run(plan),
        run.is_complete(),
        forall|k: int| 0 <= k < run.replies.len() ==> #[trigger] run.is_plain(k),
        trash_stands_apart(run.states.last().log),
        back.is_run(run.states.last().log),
        back.trees[0] == run.trees.last(),
        back.succeeds(),
        back.states.last().request() is None,
    ensures
        back.trees.last() == cleared(run.trees[0], run.states.last().log, 0),
        back.states.last().error is None,
        back.states.last().report == (ReportModel {
            reversed: reversible_count(run.states.last().log, 0),
            modified: seq![],
            other: trash_skips(run.states.last().log, 0),
        }),
{
    let n = run.replies.len() as int;
    lemma_run(run, plan, n);
    lemma_log_is_reversible(run, plan, n);
    undoing_restores_the_tree(run.trees[0], run.states.last().log, back);
}

/// Where nothing was trashed, the whole tree is restored and every change
/// reversed.
pub proof fn nothing_is_lost_without_trash(t: Tree, log: Seq<EntryModel>)
    requires
        forall|k: int| 0 <= k < log.len() ==> !((#[trigger] log[k]) is Trashed),
    ensures
        trash_stands_apart(log),
        cleared(t, log, 0) == t,
        reversible_count(log, 0) == log.len(),
        trash_skips(log, 0) == Seq::<SkipModel>::empty(),
{
    lemma_no_trash(log, 0);
    assert(cleared(t, log, 0) =~= t);
}

/// Without trash all the changes count.
proof fn lemma_no_trash(log: Seq<EntryModel>, l: int)
    requires
        0 <= l <= log.len(),
        forall|k: int| 0 <= k < log.len() ==> !((#[trigger] log[k]) is Trashed),
    ensures
        reversible_count(log, l) == log.len() - l,
        trash_skips(log, l) == Seq::<SkipModel>::empty(),
    decreases log.len() - l,
{
    if l < log.len() {
        assert(!(log[l] is Trashed));
        lemma_no_trash(log, l + 1);
    }
}

/// Whether an action trashes nothing.
pub open spec fn trashes_nothing(a: ActionModel) -> bool {
    a is FoldIntoFolder || a is Ignore
}

/// What a plan that trashes nothing logs was not trashed.
proof fn lemma_log_without_trash(run: ExecutionRun, plan: PlanModel, i: int)
    requires
        run.is_run(plan),
        0 <= i <= run.replies.len(),
        forall|a: int| 0 <= a < plan.actions.len() ==> trashes_nothing(#[trigger] plan.actions[a]),
    ensures
        forall|k: int|
            0 <= k < run.states[i].log.len() ==> !((#[trigger] run.states[i].log[k]) is Trashed),
    decreases i,
{
    if i > 0 {
        lemma_log_without_trash(run, plan, i - 1);
        lemma_run(run, plan, i - 1);
        assert(run.is_step(i - 1));
        let state = run.states[i - 1];
        assert(!plan.dry_run);
        lemma_steps(plan.actions, plan.actions.len() as int, state.at);
        assert(!(state.steps[state.at] is Trash)) by {
            if state.steps[state.at] is Trash {
                let a = choose|a: int|
                    0 <= a < plan.actions.len() && says_to_trash(
                        #[trigger] plan.actions[a],
                        state.steps[state.at]->Trash_path,
                    );
                assert(trashes_nothing(plan.actions[a]));
            }
        }
    }
}

/// Folding is undone: where a plan only folds files with times into folders that
/// stand in a directory, the undo of a complete execution brings every file back
/// to its path with its contents and its time, and removes every folder that was
/// made. All changes are reported as reversed, and nothing as skipped.
pub proof fn folding_is_undone(run: ExecutionRun, plan: PlanModel, back: UndoRun)
    requires
        run.is_run(plan),
        run.is_complete(),
        forall|a: int| 0 <= a < plan.actions.len() ==> trashes_nothing(#[trigger] plan.actions[a]),
        forall|k: int| 0 <= k < run.replies.len() ==> #[trigger] run.is_plain(k),
        back.is_run(run.states.last().log),
        back.trees[0] == run.trees.last(),
        back.succeeds(),
        back.states.last().request() is None,
    ensures
        back.trees.last() == run.trees[0],
        back.states.last().error is None,
        back.states.last().report == (ReportModel {
            reversed: run.states.last().log.len() as int,
            modified: seq![],
            other: seq![],
        }),
{
    let log = run.states.last().log;
    lemma_log_without_trash(run, plan, run.replies.len() as int);
    nothing_is_lost_without_trash(run.trees[0], log);
    undo_reverses_an_execution(run, plan, back);
}

/// A file that was modified after it was moved is left where it is, and reported.
pub proof fn a_modified_file_is_not_moved_back(run: UndoRun, log: Seq<EntryModel>, i: int)
    requires
        run.is_run(log),
        0 <= i < run.replies.len(),
        run.states[i].phase == UndoPhase::First,
        run.states[i].left > 0,
        run.states[i].entries[run.states[i].left - 1] is Moved,
        ({
            let entry = run.states[i].entries[run.states[i].left - 1];
            let q = components(entry->to);
            &&& run.trees[i].contains_key(q)
            &&& run.trees[i][q] is File
            &&& run.trees[i][q]->mtime is Some
            &&& run.trees[i][q]->mtime->0 != entry->Moved_mtime
        }),
    ensures
        run.trees[i + 1] == run.trees[i],
        run.states[i + 1].left < run.states[i].left,
        run.states[i + 1].report.reversed == run.states[i].report.reversed,
        run.states[i + 1].report.modified == run.states[i].report.modified.push(
            run.states[i].entries[run.states[i].left - 1]->to,
        ),
{
    assert(run.is_step(i));
    lemma_settled(run.states[i].replied(run.replies[i]));
}

/// A path that a plan is to trash, or to move.
pub struct Wish {
    pub path: Seq<u8>,
    pub trash: bool,
}

/// What an action is to do, path by path.
pub open spec fn wishes_of(a: ActionModel) -> Seq<Wish> {
    match a {
        ActionModel::KeepOne { trash, .. } => trash.map_values(
            |path: Seq<u8>| Wish { path, trash: true },
        ),
        ActionModel::DeleteAll { trash } => trash.map_values(
            |path: Seq<u8>| Wish { path, trash: true },
        ),
        ActionModel::FoldIntoFolder { files, .. } => files.map_values(
            |path: Seq<u8>| Wish { path, trash: false },
        ),
        ActionModel::Ignore => seq![],
    }
}

/// What the first `n` actions are to do.
pub open spec fn wishes(actions: Seq<ActionModel>, n: int) -> Seq<Wish>
    decreases n,
{
    if n <= 0 {
        seq![]
    } else {
        wishes(actions, n - 1) + wishes_of(actions[n - 1])
    }
}

/// What a log says was trashed and moved, in order.
pub open spec fn deeds(log: Seq<EntryModel>) -> Seq<Wish>
    decreases log.len(),
{
    if log.len() == 0 {
        seq![]
    } else {
        match log.last() {
            EntryModel::Trashed { original, .. } => deeds(log.drop_last()).push(
                Wish { path: original, trash: true },
            ),
            EntryModel::Moved { from, .. } => deeds(log.drop_last()).push(
                Wish { path: from, trash: false },
            ),
            EntryModel::CreatedDir { .. } => deeds(log.drop_last()),
        }
    }
}

/// What steps are to do.
spec fn step_wishes(steps: Seq<StepModel>) -> Seq<Wish>
    decreases steps.len(),
{
    if steps.len() == 0 {
        seq![]
    } else {
        match steps.last() {
            StepModel::Trash { path, .. } => step_wishes(steps.drop_last()).push(
                Wish { path, trash: true },
            ),
            StepModel::Move { from, .. } => step_wishes(steps.drop_last()).push(
                Wish { path: from, trash: false },
            ),
            _ => step_wishes(steps.drop_last()),
        }
    }
}

/// Whether a step gives up.
spec fn gives_up(s: StepModel) -> bool {
    s is NoParent || s is NoFileName
}

/// What steps that follow each other are to do.
proof fn lemma_step_wishes(a: Seq<StepModel>, b: Seq<StepModel>)
    ensures
        step_wishes(a + b) == step_wishes(a) + step_wishes(b),
    decreases b.len(),
{
    if b.len() == 0 {
        assert(a + b =~= a);
        assert(step_wishes(a) + step_wishes(b) =~= step_wishes(a));
    } else {
        assert((a + b).drop_last() =~= a + b.drop_last());
        lemma_step_wishes(a, b.drop_last());
        assert(step_wishes(a + b) =~= step_wishes(a) + step_wishes(b));
    }
}

/// What steps that only trash are to do.
proof fn lemma_trash_wishes(action: int, trash: Seq<Seq<u8>>)
    ensures
        step_wishes(
            Seq::new(trash.len(), |i: int| StepModel::Trash { action, path: trash[i] }),
        ) == trash.map_values(|path: Seq<u8>| Wish { path, trash: true }),
    decreases trash.len(),
{
    let steps = Seq::new(trash.len(), |i: int| StepModel::Trash { action, path: trash[i] });
    let all = trash.map_values(|path: Seq<u8>| Wish { path, trash: true });
    if trash.len() > 0 {
        let rest = trash.drop_last();
        lemma_trash_wishes(action, rest);
        assert(steps.drop_last() =~= Seq::new(
            rest.len(),
            |i: int| StepModel::Trash { action, path: rest[i] },
        ));
        assert(all =~= rest.map_values(|path: Seq<u8>| Wish { path, trash: true }).push(
            Wish { path: trash.last(), trash: true },
        ));
    } else {
        assert(all =~= seq![]);
    }
}

/// What steps that move files are to do.
proof fn lemma_move_wishes(action: int, files: Seq<Seq<u8>>, target: Seq<u8>)
    requires
        forall|i: int|
            0 <= i < files.len() ==> !gives_up(move_step(action, #[trigger] files[i], target)),
    ensures
        step_wishes(Seq::new(files.len(), |i: int| move_step(action, files[i], target)))
            == files.map_values(|path: Seq<u8>| Wish { path, trash: false }),
    decreases files.len(),
{
    let steps = Seq::new(files.len(), |i: int| move_step(action, files[i], target));
    let all = files.map_values(|path: Seq<u8>| Wish { path, trash: false });
    if files.len() > 0 {
        let rest = files.drop_last();
        assert forall|i: int| 0 <= i < rest.len() implies !gives_up(
            move_step(action, #[trigger] rest[i], target),
        ) by {
            assert(rest[i] == files[i]);
        }
        lemma_move_wishes(action, rest, target);
        assert(steps.drop_last() =~= Seq::new(
            rest.len(),
            |i: int| move_step(action, rest[i], target),
        ));
        assert(all =~= rest.map_values(|path: Seq<u8>| Wish { path, trash: false }).push(
            Wish { path: files.last(), trash: false },
        ));
        assert(!gives_up(move_step(action, files[files.len() - 1], target)));
    } else {
        assert(all =~= seq![]);
    }
}

/// Steps that do not give up do what their action is to do.
proof fn lemma_action_wishes(action: int, a: ActionModel)
    requires
        forall|i: int|
            0 <= i < action_steps(action, a).len() ==> !gives_up(
                #[trigger] action_steps(action, a)[i],
            ),
    ensures
        step_wishes(action_steps(action, a)) == wishes_of(a),
{
    let steps = action_steps(action, a);
    match a {
        ActionModel::KeepOne { trash, .. } | ActionModel::DeleteAll { trash } => {
            lemma_trash_wishes(action, trash);
        },
        ActionModel::FoldIntoFolder { folder_name, files } => {
            match fold_target(files, folder_name) {
                Some(target) => {
                    let first = seq![StepModel::EnsureDir { action, path: target }];
                    let moves = Seq::new(files.len(), |i: int| move_step(action, files[i], target));
                    assert(steps =~= first + moves);
                    assert forall|i: int| 0 <= i < files.len() implies !gives_up(
                        move_step(action, #[trigger] files[i], target),
                    ) by {
                        assert(steps[i + 1] == move_step(action, files[i], target));
                    }
                    lemma_move_wishes(action, files, target);
                    lemma_step_wishes(first, moves);
                    assert(first.drop_last() =~= seq![]);
                    assert(step_wishes(first.drop_last()) == Seq::<Wish>::empty());
                    assert(step_wishes(first) =~= seq![]);
                    assert(step_wishes(steps) =~= wishes_of(a));
                },
                None => {
                    assert(gives_up(steps[0]));
                },
            }
        },
        ActionModel::Ignore => {},
    }
}

/// Steps that do not give up do what their plan is to do.
proof fn lemma_plan_wishes(actions: Seq<ActionModel>, n: int)
    requires
        0 <= n <= actions.len(),
        forall|i: int|
            0 <= i < leading_steps(actions, n).len() ==> !gives_up(
                #[trigger] leading_steps(actions, n)[i],
            ),
    ensures
        step_wishes(leading_steps(actions, n)) == wishes(actions, n),
    decreases n,
{
    if n > 0 {
        let before = leading_steps(actions, n - 1);
        let own = action_steps(n - 1, actions[n - 1]);
        let all = leading_steps(actions, n);
        assert forall|i: int| 0 <= i < before.len() implies !gives_up(#[trigger] before[i]) by {
            assert(all[i] == before[i]);
        }
        assert forall|i: int| 0 <= i < own.len() implies !gives_up(#[trigger] own[i]) by {
            assert(all[before.len() + i] == own[i]);
        }
        lemma_plan_wishes(actions, n - 1);
        lemma_action_wishes(n - 1, actions[n - 1]);
        lemma_step_wishes(before, own);
    }
}

/// What an execution that has met no failure has done is what its steps so far are
/// to do.
proof fn lemma_deeds(run: ExecutionRun, plan: PlanModel, i: int)
    requires
        run.is_run(plan),
        0 <= i <= run.replies.len(),
        run.succeeds_until(i),
    ensures
        deeds(run.states[i].log) == step_wishes(run.states[i].steps.take(run.states[i].at)),
        forall|k: int|
            0 <= k < run.states[i].at ==> !gives_up(#[trigger] run.states[i].steps[k]),
    decreases i,
{
    if i == 0 {
        assert(run.states[0].steps.take(0) =~= seq![]);
    } else {
        assert(run.succeeds_until(i - 1));
        lemma_deeds(run, plan, i - 1);
        lemma_run(run, plan, i - 1);
        assert(run.is_step(i - 1));
        assert(!(run.replies[i - 1] is Failed));
        let state = run.states[i - 1];
        let next = run.states[i];
        if next.at > state.at {
            assert(next.steps.take(next.at).drop_last() =~= state.steps.take(state.at));
            assert(next.steps.take(next.at).last() == state.steps[state.at]);
        }
        if next.log.len() > state.log.len() {
            assert(next.log.drop_last() =~= state.log);
        }
    }
}

/// An execution that comes to its end does all that its plan says, in that order:
/// every path that is to be trashed is logged as trashed, every file that is to be
/// folded as moved, and nothing else is.
pub proof fn a_complete_execution_does_all_that_is_planned(run: ExecutionRun, plan: PlanModel)
    requires
        run.is_run(plan),
        run.is_complete(),
        !plan.dry_run,
    ensures
        deeds(run.states.last().log) == wishes(plan.actions, plan.actions.len() as int),
{
    let n = run.replies.len() as int;
    lemma_run(run, plan, n);
    lemma_deeds(run, plan, n);
    let last = run.states.last();
    assert(last.at == last.steps.len());
    assert(last.steps.take(last.at) =~= last.steps);
    lemma_plan_wishes(plan.actions, plan.actions.len() as int);
}

/// What an action is to do is among what all are to do.
proof fn lemma_wish_of_action(actions: Seq<ActionModel>, n: int, a: int, w: Wish)
    requires
        0 <= a < n <= actions.len(),
        wishes_of(actions[a]).contains(w),
    ensures
        wishes(actions, n).contains(w),
    decreases n,
{
    let before = wishes(actions, n - 1);
    let own = wishes_of(actions[n - 1]);
    if a < n - 1 {
        lemma_wish_of_action(actions, n - 1, a, w);
        let k = choose|k: int| 0 <= k < before.len() && before[k] == w;
        assert((before + own)[k] == w);
    } else {
        let k = choose|k: int| 0 <= k < own.len() && own[k] == w;
        assert((before + own)[before.len() + k] == w);
    }
}

/// What a log says was done stands in an entry of it.
proof fn lemma_deed_is_logged(log: Seq<EntryModel>, w: Wish)
    requires
        deeds(log).contains(w),
    ensures
        exists|k: int|
            0 <= k < log.len() && (if w.trash {
                (#[trigger] log[k]) is Trashed && log[k]->original == w.path
            } else {
                log[k] is Moved && log[k]->from == w.path
            }),
    decreases log.len(),
{
    if log.len() > 0 {
        let rest = log.drop_last();
        if deeds(rest).contains(w) {
            lemma_deed_is_logged(rest, w);
            let k = choose|k: int|
                0 <= k < rest.len() && (if w.trash {
                    (#[trigger] rest[k]) is Trashed && rest[k]->original == w.path
                } else {
                    rest[k] is Moved && rest[k]->from == w.path
                });
            assert(log[k] == rest[k]);
        } else {
            let j = choose|j: int| 0 <= j < deeds(log).len() && deeds(log)[j] == w;
            if j < deeds(rest).len() {
                assert(deeds(rest)[j] == w);
            }
            assert(log[log.len() - 1] == log.last());
        }
    }
}

/// Whether a change puts something at `p`.
pub open spec fn puts_at(entry: EntryModel, p: Seq<Seq<u8>>) -> bool {
    match entry {
        EntryModel::Trashed { .. } => false,
        EntryModel::Moved { to, .. } => is_at_or_below(p, components(to)),
        EntryModel::CreatedDir { path } => is_at_or_below(components(path), p),
    }
}

/// Where nothing stands, nothing stands later, unless a change puts it there.
proof fn lemma_stays_gone(t: Tree, log: Seq<EntryModel>, k: int, p: Seq<Seq<u8>>)
    requires
        0 <= k <= log.len(),
        !applied(t, log.take(k)).contains_key(p),
        forall|j: int| k <= j < log.len() ==> !puts_at(#[trigger] log[j], p),
    ensures
        !applied(t, log).contains_key(p),
    decreases log.len() - k,
{
    if k < log.len() {
        assert(log.take(k + 1).drop_last() =~= log.take(k));
        assert(log.take(k + 1).last() == log[k]);
        assert(!puts_at(log[k], p));
        lemma_stays_gone(t, log, k + 1, p);
    } else {
        assert(log.take(k) =~= log);
    }
}

/// A path that a plan says to trash is trashed by every execution that comes to its
/// end: the log says so, nothing stands there once that was done, and nothing
/// stands there in the end unless a later change of the log put it there.
pub proof fn what_is_to_be_trashed_is_trashed(
    run: ExecutionRun,
    plan: PlanModel,
    a: int,
    path: Seq<u8>,
)
    requires
        run.is_run(plan),
        run.is_complete(),
        !plan.dry_run,
        0 <= a < plan.actions.len(),
        plan.actions[a] is KeepOne && plan.actions[a]->KeepOne_trash.contains(path)
            || plan.actions[a] is DeleteAll && plan.actions[a]->DeleteAll_trash.contains(path),
    ensures
        exists|k: int|
            {
                &&& 0 <= k < run.states.last().log.len()
                &&& (#[trigger] run.states.last().log[k]) is Trashed
                &&& run.states.last().log[k]->original == path
                &&& !applied(run.trees[0], run.states.last().log.take(k + 1)).contains_key(
                    components(path),
                )
                &&& (forall|j: int|
                    k < j < run.states.last().log.len() ==> !puts_at(
                        #[trigger] run.states.last().log[j],
                        components(path),
                    )) ==> !run.trees.last().contains_key(components(path))
            },
{
    let log = run.states.last().log;
    let n = plan.actions.len() as int;
    let p = components(path);
    let w = Wish { path, trash: true };
    let own = wishes_of(plan.actions[a]);
    a_complete_execution_does_all_that_is_planned(run, plan);
    lemma_run(run, plan, run.replies.len() as int);
    if plan.actions[a] is KeepOne {
        let trash = plan.actions[a]->KeepOne_trash;
        let m = choose|m: int| 0 <= m < trash.len() && trash[m] == path;
        assert(own[m] == w);
    } else {
        let trash = plan.actions[a]->DeleteAll_trash;
        let m = choose|m: int| 0 <= m < trash.len() && trash[m] == path;
        assert(own[m] == w);
    }
    lemma_wish_of_action(plan.actions, n, a, w);
    lemma_deed_is_logged(log, w);
    let k = choose|k: int|
        0 <= k < log.len() && (#[trigger] log[k]) is Trashed && log[k]->original == path;
    assert(log.take(k + 1).last() == log[k]);
    assert(p.take(p.len() as int) =~= p);
    assert(!applied(run.trees[0], log.take(k + 1)).contains_key(p));
    if forall|j: int| k < j < log.len() ==> !puts_at(#[trigger] log[j], p) {
        lemma_stays_gone(run.trees[0], log, k + 1, p);
    }
}

/// Where a plan folds nothing, nothing stands in the end where something was to be
/// trashed.
pub proof fn trashed_paths_are_gone(run: ExecutionRun, plan: PlanModel, a: int, path: Seq<u8>)
    requires
        run.is_run(plan),
        run.is_complete(),
        !plan.dry_run,
        forall|b: int|
            0 <= b < plan.actions.len() ==> !((#[trigger] plan.actions[b]) is FoldIntoFolder),
        0 <= a < plan.actions.len(),
        plan.actions[a] is KeepOne && plan.actions[a]->KeepOne_trash.contains(path)
            || plan.actions[a] is DeleteAll && plan.actions[a]->DeleteAll_trash.contains(path),
    ensures
        !run.trees.last().contains_key(components(path)),
{
    what_is_to_be_trashed_is_trashed(run, plan, a, path);
    let log = run.states.last().log;
    lemma_log_without_folds(run, plan, run.replies.len() as int);
    let k = choose|k: int|
        {
            &&& 0 <= k < log.len()
            &&& (#[trigger] log[k]) is Trashed
            &&& log[k]->original == path
            &&& (forall|j: int|
                k < j < log.len() ==> !puts_at(#[trigger] log[j], components(path)))
                ==> !run.trees.last().contains_key(components(path))
        };
    assert(log[k] is Trashed);
}

/// What a plan that folds nothing logs was trashed.
proof fn lemma_log_without_folds(run: ExecutionRun, plan: PlanModel, i: int)
    requires
        run.is_run(plan),
        0 <= i <= run.replies.len(),
        forall|b: int|
            0 <= b < plan.actions.len() ==> !((#[trigger] plan.actions[b]) is FoldIntoFolder),
    ensures
        forall|k: int|
            0 <= k < run.states[i].log.len() ==> (#[trigger] run.states[i].log[k]) is Trashed,
    decreases i,
{
    if i > 0 {
        lemma_log_without_folds(run, plan, i - 1);
        lemma_run(run, plan, i - 1);
        assert(run.is_step(i - 1));
        let state = run.states[i - 1];
        assert(!plan.dry_run);
        lemma_steps_without_folds(plan.actions, plan.actions.len() as int);
        assert(state.steps[state.at] is Trash);
    }
}

/// The steps of a plan that folds nothing only trash.
proof fn lemma_steps_without_folds(actions: Seq<ActionModel>, n: int)
    requires
        0 <= n <= actions.len(),
        forall|b: int| 0 <= b < actions.len() ==> !((#[trigger] actions[b]) is FoldIntoFolder),
    ensures
        forall|i: int|
            0 <= i < leading_steps(actions, n).len() ==> (#[trigger] leading_steps(
                actions,
                n,
            )[i]) is Trash,
    decreases n,
{
    if n > 0 {
        lemma_steps_without_folds(actions, n - 1);
        let before = leading_steps(actions, n - 1);
        let own = action_steps(n - 1, actions[n - 1]);
        assert forall|i: int| 0 <= i < leading_steps(actions, n).len() implies (
        #[trigger] leading_steps(actions, n)[i]) is Trash by {
            if i < before.len() {
                assert(leading_steps(actions, n)[i] == before[i]);
            } else {
                assert(leading_steps(actions, n)[i] == own[i - before.len()]);
                assert(!(actions[n - 1] is FoldIntoFolder));
            }
        }
    }
}

/// A file that a plan says to fold is moved by every execution that comes to its
/// end, and the log says so.
pub proof fn what_is_to_be_folded_is_moved(
    run: ExecutionRun,
    plan: PlanModel,
    a: int,
    path: Seq<u8>,
)
    requires
        run.is_run(plan),
        run.is_complete(),
        !plan.dry_run,
        0 <= a < plan.actions.len(),
        plan.actions[a] is FoldIntoFolder,
        plan.actions[a]->files.contains(path),
    ensures
        exists|k: int|
            0 <= k < run.states.last().log.len() && (#[trigger] run.states.last().log[k]) is Moved
                && run.states.last().log[k]->from == path,
{
    let log = run.states.last().log;
    let w = Wish { path, trash: false };
    let own = wishes_of(plan.actions[a]);
    let files = plan.actions[a]->files;
    a_complete_execution_does_all_that_is_planned(run, plan);
    let m = choose|m: int| 0 <= m < files.len() && files[m] == path;
    assert(own[m] == w);
    lemma_wish_of_action(plan.actions, plan.actions.len() as int, a, w);
    lemma_deed_is_logged(log, w);
}

/// What a reply to a request does to the log of an execution: what was trashed,
/// moved or made is logged, with the time that the file had, and nothing else is.
/// What failed is given as the reason, with the action that asked for it.
pub proof fn each_change_is_logged_and_each_failure_named(
    run: ExecutionRun,
    plan: PlanModel,
    i: int,
)
    requires
        run.is_run(plan),
        0 <= i < run.replies.len(),
    ensures
        ({
            let request = run.states[i].request()->0;
            let reply = run.replies[i];
            let before = run.states[i].log;
            let after = run.states[i + 1].log;
            let failure = run.states[i + 1].failure();
            match (request, reply) {
                (RequestModel::Trash(path), ReplyModel::Failed(message)) => {
                    &&& after == before
                    &&& failure is Some
                    &&& failure->0.cause == (CauseModel::Trash { path, message })
                    &&& 0 <= failure->0.action < plan.actions.len()
                    &&& says_to_trash(plan.actions[failure->0.action], path)
                },
                (RequestModel::Trash(path), _) => exists|mtime: i64|
                    after == before.push(
                        EntryModel::Trashed { original: path, mtime },
                    ) && #[trigger] is_time_at(run.trees[i], path, mtime),
                (RequestModel::Rename(from, to), ReplyModel::Failed(message)) => {
                    &&& after == before
                    &&& failure is Some
                    &&& failure->0.cause == (CauseModel::Move { from, to, message })
                    &&& 0 <= failure->0.action < plan.actions.len()
                    &&& says_to_fold(plan.actions[failure->0.action], from)
                },
                (RequestModel::Rename(from, to), _) => exists|mtime: i64|
                    after == before.push(
                        EntryModel::Moved { from, to, mtime },
                    ) && #[trigger] is_time_at(run.trees[i], from, mtime),
                (RequestModel::CreateDirs(path), ReplyModel::Failed(message)) => {
                    &&& after == before
                    &&& failure is Some
                    &&& failure->0.cause == (CauseModel::Mkdir { path, message })
                    &&& 0 <= failure->0.action < plan.actions.len()
                    &&& plan.actions[failure->0.action] is FoldIntoFolder
                },
                (RequestModel::CreateDirs(path), _) => {
                    &&& after == before.push(EntryModel::CreatedDir { path })
                    &&& !run.trees[i].contains_key(components(path))
                },
                _ => after == before,
            }
        }),
{
    lemma_run(run, plan, i);
    assert(run.is_step(i));
    let state = run.states[i];
    assert(!plan.dry_run);
    lemma_steps(plan.actions, plan.actions.len() as int, state.at);
    lemma_folder_steps(plan.actions, plan.actions.len() as int, state.at);
    match (state.steps[state.at], state.phase) {
        (StepModel::Trash { path, .. }, PhaseModel::TrashIt { mtime }) => {
            assert(is_time_at(run.trees[i], path, mtime));
        },
        (StepModel::Move { from, .. }, PhaseModel::MoveIt { mtime, .. }) => {
            assert(is_time_at(run.trees[i], from, mtime));
        },
        _ => {},
    }
}

/// Whether a path has no file name: it is empty, or ends in `/`, `.` or `..` alone.
pub open spec fn is_nameless(path: Seq<u8>) -> bool {
    let c = components(path);
    c.len() == 0 || c.last() == seq![47u8] || c.last() == seq![46u8] || c.last() == seq![
        46u8,
        46u8,
    ]
}

/// Folders are made, and given up, for actions that fold.
proof fn lemma_folder_steps(actions: Seq<ActionModel>, n: int, i: int)
    requires
        0 <= n <= actions.len(),
        0 <= i < leading_steps(actions, n).len(),
    ensures
        match leading_steps(actions, n)[i] {
            StepModel::EnsureDir { action, path } => 0 <= action < n
                && actions[action] is FoldIntoFolder && fold_target(
                actions[action]->files,
                actions[action]->folder_name,
            ) == Some(path),
            StepModel::NoParent { action } => 0 <= action < n && actions[action] is FoldIntoFolder
                && fold_target(actions[action]->files, actions[action]->folder_name) is None,
            StepModel::NoFileName { action, path } => 0 <= action < n && says_to_fold(
                actions[action],
                path,
            ) && file_name_of(path) is None,
            StepModel::Move { action, from, to } => 0 <= action < n
                && actions[action] is FoldIntoFolder && fold_target(
                actions[action]->files,
                actions[action]->folder_name,
            ) is Some && file_name_of(from) is Some && to == joined(
                fold_target(actions[action]->files, actions[action]->folder_name)->0,
                file_name_of(from)->0,
            ),
            _ => true,
        },
    decreases n,
{
    if n > 0 {
        let before = leading_steps(actions, n - 1);
        let own = action_steps(n - 1, actions[n - 1]);
        if i < before.len() {
            lemma_folder_steps(actions, n - 1, i);
        } else {
            let k = i - before.len();
            assert(leading_steps(actions, n)[i] == own[k]);
            match actions[n - 1] {
                ActionModel::FoldIntoFolder { folder_name, files } => {
                    match fold_target(files, folder_name) {
                        Some(target) => {
                            if k > 0 {
                                assert(own[k] == move_step(n - 1, files[k - 1], target));
                                assert(files.contains(files[k - 1]));
                            }
                        },
                        None => {},
                    }
                },
                _ => {},
            }
        }
    }
}

/// An execution that gives up though nothing failed has come to a fold without a
/// place: it lists no file, or the first one has no parent, or a file without a
/// name.
pub proof fn only_a_fold_without_a_place_gives_up(run: ExecutionRun, plan: PlanModel)
    requires
        run.is_run(plan),
        run.succeeds_until(run.replies.len() as int),
        run.states.last().failure() is Some,
    ensures
        ({
            let failure = run.states.last().failure()->0;
            &&& 0 <= failure.action < plan.actions.len()
            &&& plan.actions[failure.action] is FoldIntoFolder
            &&& {
                let files = plan.actions[failure.action]->files;
                ||| failure.cause == CauseModel::NoParent && (files.len() == 0 || components(
                    files[0],
                ).len() == 0 || components(files[0]) == seq![seq![47u8]])
                ||| failure.cause is NoFileName && files.contains(failure.cause->NoFileName_path)
                    && is_nameless(failure.cause->NoFileName_path)
            }
        }),
{
    let n = run.replies.len() as int;
    lemma_run(run, plan, n);
    let last = run.states.last();
    assert(!plan.dry_run);
    lemma_folder_steps(plan.actions, plan.actions.len() as int, last.at);
}
/// A file is folded beside the first file of its action: what is moved is one of the
/// files of an action that folds, and it goes to the first free place for its own
/// name in the folder that stands beside the first of these files.
pub proof fn a_file_is_folded_beside_the_first(run: ExecutionRun, plan: PlanModel, i: int)
    requires
        run.is_run(plan),
        0 <= i <= run.replies.len(),
        run.states[i].request() is Some,
        run.states[i].request()->0 is Rename,
    ensures
        exists|a: int, desired: Seq<u8>|
            {
                let from = run.states[i].request()->0->Rename_0;
                let to = run.states[i].request()->0->Rename_1;
                let files = plan.actions[a]->files;
                let folder = encode_utf8(plan.actions[a]->folder_name);
                &&& 0 <= a < plan.actions.len()
                &&& plan.actions[a] is FoldIntoFolder
                &&& files.contains(from)
                &&& is_first_free(run.trees[i], desired, to)
                &&& is_piece(folder) ==> #[trigger] components(desired) == components(
                    (#[trigger] plan.actions[a])->files[0],
                ).drop_last().push(folder).push(components(from).last())
            },
{
    lemma_run(run, plan, i);
    let state = run.states[i];
    let from = state.request()->0->Rename_0;
    let to = state.request()->0->Rename_1;
    assert(!plan.dry_run);
    lemma_steps(plan.actions, plan.actions.len() as int, state.at);
    lemma_folder_steps(plan.actions, plan.actions.len() as int, state.at);
    let a = state.steps[state.at]->Move_action;
    let desired = state.steps[state.at]->to;
    let files = plan.actions[a]->files;
    let folder_name = plan.actions[a]->folder_name;
    let target = fold_target(files, folder_name)->0;
    folders_stand_beside_the_first_file(files, folder_name);
    the_name_is_the_last_component(from);
    components_hold_no_slash(from);
    lemma_components(from);
    let name = components(from).last();
    assert(name == components(from)[components(from).len() - 1]);
    assert(is_piece(name));
    joining_adds_a_component(target, name);
    assert(is_first_free(run.trees[i], desired, to));
}

/// Whether an undo has gone on from `a` to `b`, with `other` as what was left as it
/// was: the change at hand is dealt with, what went to the trash before it is
/// reported, and the next earlier change that did not go there is taken up, if
/// there is one.
pub open spec fn goes_on(a: UndoModel, b: UndoModel, other: Seq<SkipModel>) -> bool {
    &&& b.entries == a.entries
    &&& b.error is None
    &&& 0 <= b.left < a.left
    &&& forall|j: int| b.left <= j < a.left - 1 ==> (#[trigger] a.entries[j]) is Trashed
    &&& b.report.other.len() == other.len() + (a.left - 1 - b.left)
    &&& b.report.other.take(other.len() as int) == other
    &&& forall|j: int|
        b.left <= j < a.left - 1 ==> b.report.other[other.len() + (a.left - 2 - j)] == (SkipModel {
            path: (#[trigger] a.entries[j])->original,
            reason: "trash restore not implemented"@,
        })
    &&& b.left == 0 ==> b.request() is None
    &&& b.left > 0 ==> takes_up(b, a.entries[b.left - 1])
}

/// Whether an undo has just taken up a change: it asks for the time of a file that
/// was moved, or whether a directory that was made is still there.
pub open spec fn takes_up(m: UndoModel, entry: EntryModel) -> bool {
    match entry {
        EntryModel::Moved { to, .. } => m.request() == Some(RequestModel::Mtime(to)),
        EntryModel::CreatedDir { path } => m.request() == Some(RequestModel::Exists(path)),
        EntryModel::Trashed { .. } => false,
    }
}

/// What passing over the trash does, change by change.
proof fn lemma_settled_in_full(m: UndoModel)
    requires
        0 <= m.left <= m.entries.len(),
        m.phase == UndoPhase::First,
        m.error is None,
    ensures
        ({
            let b = m.settled();
            let n = m.report.other.len() as int;
            &&& b.entries == m.entries
            &&& b.error is None
            &&& b.phase == UndoPhase::First
            &&& 0 <= b.left <= m.left
            &&& b.report.reversed == m.report.reversed
            &&& b.report.modified == m.report.modified
            &&& b.left > 0 ==> !(m.entries[b.left - 1] is Trashed)
            &&& forall|j: int| b.left <= j < m.left ==> (#[trigger] m.entries[j]) is Trashed
            &&& b.report.other.len() == n + (m.left - b.left)
            &&& b.report.other.take(n) == m.report.other
            &&& forall|j: int|
                b.left <= j < m.left ==> b.report.other[n + (m.left - 1 - j)] == (SkipModel {
                    path: (#[trigger] m.entries[j])->original,
                    reason: "trash restore not implemented"@,
                })
        }),
    decreases m.left,
{
    let n = m.report.other.len() as int;
    let b = m.settled();
    if m.left > 0 && m.entries[m.left - 1] is Trashed {
        let next = m.skipped(
            m.entries[m.left - 1]->original,
            "trash restore not implemented"@,
        );
        lemma_settled_in_full(next);
        assert(b == next.settled());
        assert(b.report.other.take(n + 1) == next.report.other);
        assert(b.report.other.take(n) =~= b.report.other.take(n + 1).take(n));
        assert(next.report.other.take(n) =~= m.report.other);
        assert(b.report.other[n] == b.report.other.take(n + 1)[n]);
        assert forall|j: int| b.left <= j < m.left implies b.report.other[n + (m.left - 1 - j)] == (
        SkipModel {
            path: (#[trigger] m.entries[j])->original,
            reason: "trash restore not implemented"@,
        }) by {
            if j < m.left - 1 {
                assert(next.entries[j] == m.entries[j]);
            }
        }
    } else {
        assert(b == m);
        assert(m.report.other.take(n) =~= m.report.other);
    }
}

/// A change that is dealt with leads to the next earlier one.
proof fn lemma_goes_on(a: UndoModel, dealt: UndoModel)
    requires
        a.is_valid(),
        a.left > 0,
        a.error is None,
        dealt.entries == a.entries,
        dealt.left == a.left - 1,
        dealt.phase == UndoPhase::First,
        dealt.error is None,
    ensures
        goes_on(a, dealt.settled(), dealt.report.other),
        dealt.settled().report.reversed == dealt.report.reversed,
        dealt.settled().report.modified == dealt.report.modified,
{
    lemma_settled_in_full(dealt);
    let b = dealt.settled();
    assert forall|j: int| b.left <= j < a.left - 1 implies b.report.other[dealt.report.other.len()
        + (a.left - 2 - j)] == (SkipModel {
        path: (#[trigger] a.entries[j])->original,
        reason: "trash restore not implemented"@,
    }) by {
        assert(dealt.entries[j] == a.entries[j]);
    }
}

/// An undo starts with the last change that did not go to the trash. What went
/// there after it is reported, and nothing else.
pub proof fn an_undo_starts_with_the_last_change(entries: Seq<EntryModel>)
    ensures
        ({
            let m = UndoModel::start(entries);
            &&& m.entries == entries
            &&& m.error is None
            &&& m.report.reversed == 0
            &&& m.report.modified.len() == 0
            &&& 0 <= m.left <= entries.len()
            &&& m.report.other.len() == entries.len() - m.left
            &&& forall|j: int|
                m.left <= j < entries.len() ==> (#[trigger] entries[j]) is Trashed
                    && m.report.other[entries.len() - 1 - j] == (SkipModel {
                    path: entries[j]->original,
                    reason: "trash restore not implemented"@,
                })
            &&& m.left == 0 ==> m.request() is None
            &&& m.left > 0 ==> takes_up(m, entries[m.left - 1])
        }),
{
    let fresh = UndoModel {
        entries,
        left: entries.len() as int,
        phase: UndoPhase::First,
        report: ReportModel { reversed: 0, modified: seq![], other: seq![] },
        error: None,
    };
    lemma_settled_in_full(fresh);
}

/// Every change is dealt with on its own, as the file system replies. A file that is
/// gone is noted as missing, one with another time as modified, and neither is
/// touched. One with its time is moved back, whether or not the directory that it
/// came from could be made. A directory that was made is removed if it is there and
/// empty, and noted if it is not empty. What cannot be moved back is noted with the
/// reason. Whatever came of it, the next earlier change follows. Only a directory
/// that cannot be read ends the undo.
pub proof fn every_change_is_undone_on_its_own(m: UndoModel, reply: ReplyModel)
    requires
        m.is_valid(),
        m.accepts(reply),
    ensures
        ({
            let next = m.answered(reply);
            let was = m.report;
            let now = next.report;
            match (m.entries[m.left - 1], m.request()->0) {
                (EntryModel::Moved { from, to, mtime }, RequestModel::Mtime(path)) => {
                    &&& path == to
                    &&& reply == ReplyModel::Time(None) ==> goes_on(
                        m,
                        next,
                        was.other.push(SkipModel { path: to, reason: "missing"@ }),
                    ) && now.modified == was.modified && now.reversed == was.reversed
                    &&& reply is Time && reply->Time_0 is Some && reply->Time_0->0 != mtime
                        ==> goes_on(m, next, was.other) && now.modified == was.modified.push(to)
                        && now.reversed == was.reversed
                    &&& reply == ReplyModel::Time(Some(mtime)) ==> {
                        &&& next.entries == m.entries
                        &&& next.left == m.left
                        &&& now == was
                        &&& next.request() == Some(
                            if parent_of(from) is Some {
                                RequestModel::CreateDirs(parent_of(from)->0)
                            } else {
                                RequestModel::Rename(to, from)
                            },
                        )
                    }
                },
                (EntryModel::Moved { from, to, .. }, RequestModel::CreateDirs(_)) => {
                    &&& next.entries == m.entries
                    &&& next.left == m.left
                    &&& now == was
                    &&& next.request() == Some(RequestModel::Rename(to, from))
                },
                (EntryModel::Moved { from, to, .. }, RequestModel::Rename(source, target)) => {
                    &&& source == to
                    &&& target == from
                    &&& now.modified == was.modified
                    &&& reply == ReplyModel::Done ==> goes_on(m, next, was.other) && now.reversed
                        == was.reversed + 1
                    &&& reply is Failed ==> goes_on(
                        m,
                        next,
                        was.other.push(SkipModel { path: to, reason: reply->Failed_0 }),
                    ) && now.reversed == was.reversed
                },
                (EntryModel::CreatedDir { path }, RequestModel::Exists(asked)) => {
                    &&& asked == path
                    &&& reply == ReplyModel::Found(false) ==> goes_on(m, next, was.other)
                        && now.modified == was.modified && now.reversed == was.reversed
                    &&& reply == ReplyModel::Found(true) ==> {
                        &&& next.entries == m.entries
                        &&& next.left == m.left
                        &&& now == was
                        &&& next.request() == Some(RequestModel::ReadDir(path))
                    }
                },
                (EntryModel::CreatedDir { path }, RequestModel::ReadDir(asked)) => {
                    &&& asked == path
                    &&& reply == ReplyModel::Empty(true) ==> {
                        &&& next.entries == m.entries
                        &&& next.left == m.left
                        &&& now == was
                        &&& next.request() == Some(RequestModel::RemoveDir(path))
                    }
                    &&& reply == ReplyModel::Empty(false) ==> goes_on(
                        m,
                        next,
                        was.other.push(SkipModel { path, reason: "dir not empty"@ }),
                    ) && now.modified == was.modified && now.reversed == was.reversed
                    &&& reply is Failed ==> next.error == Some(reply->Failed_0)
                        && next.request() is None && now == was
                },
                (EntryModel::CreatedDir { path }, RequestModel::RemoveDir(asked)) => {
                    &&& asked == path
                    &&& goes_on(m, next, was.other)
                    &&& now.modified == was.modified
                    &&& now.reversed == was.reversed + (if reply == ReplyModel::Done {
                        1int
                    } else {
                        0
                    })
                },
                _ => false,
            }
        }),
{
    let dealt = m.replied(reply);
    if dealt.left == m.left - 1 && dealt.error is None {
        lemma_goes_on(m, dealt);
    }
}

/// Whether the `k`th change of a log has been dealt with before moment `i`: the file
/// was moved back, or it is reported. What was trashed is reported.
pub open spec fn is_dealt_with(run: UndoRun, log: Seq<EntryModel>, k: int, i: int) -> bool {
    let report = run.states[i].report;
    match log[k] {
        EntryModel::Moved { from, to, .. } => {
            ||| exists|m: int|
                0 <= m < i && #[trigger] run.states[m].request() == Some(
                    RequestModel::Rename(to, from),
                ) && run.states[m].left == k + 1 && run.replies[m] == ReplyModel::Done
            ||| report.modified.contains(to)
            ||| is_reported(report, to)
        },
        EntryModel::Trashed { original, .. } => is_reported(report, original),
        EntryModel::CreatedDir { .. } => true,
    }
}

/// Whether a path is reported as left as it was, for whatever reason.
pub open spec fn is_reported(report: ReportModel, path: Seq<u8>) -> bool {
    exists|s: int| 0 <= s < report.other.len() && (#[trigger] report.other[s]).path == path
}

/// Reports only grow, and changes that have been dealt with stay so.
proof fn lemma_dealt_with(run: UndoRun, log: Seq<EntryModel>, i: int)
    requires
        run.is_run(log),
        0 <= i <= run.replies.len(),
    ensures
        run.states[i].entries == log,
        run.states[i].is_valid(),
        run.states[i].error is None ==> forall|k: int|
            run.states[i].left <= k < log.len() ==> is_dealt_with(run, log, k, i),
    decreases i,
{
    if i == 0 {
        an_undo_starts_with_the_last_change(log);
        lemma_undo_start_valid(log);
        let m = run.states[0];
        assert forall|k: int| m.left <= k < log.len() implies is_dealt_with(run, log, k, 0) by {
            assert(log[k] is Trashed);
            assert(m.report.other[log.len() - 1 - k].path == log[k]->original);
        }
    } else {
        lemma_dealt_with(run, log, i - 1);
        assert(run.is_step(i - 1));
        let a = run.states[i - 1];
        let b = run.states[i];
        let reply = run.replies[i - 1];
        every_change_is_undone_on_its_own(a, reply);
        lemma_undo_stays_valid(a, reply);
        if b.error is None {
            assert forall|k: int| b.left <= k < log.len() implies is_dealt_with(run, log, k, i) by {
                lemma_dealt_step(run, log, k, i);
            }
        }
    }
}

/// The start of an undo is valid.
proof fn lemma_undo_start_valid(log: Seq<EntryModel>)
    ensures
        UndoModel::start(log).is_valid(),
{
    let fresh = UndoModel {
        entries: log,
        left: log.len() as int,
        phase: UndoPhase::First,
        report: ReportModel { reversed: 0, modified: seq![], other: seq![] },
        error: None,
    };
    lemma_settled_in_full(fresh);
}

/// An undo stays valid.
proof fn lemma_undo_stays_valid(m: UndoModel, reply: ReplyModel)
    requires
        m.is_valid(),
        m.accepts(reply),
    ensures
        m.answered(reply).is_valid(),
        m.answered(reply).entries == m.entries,
{
    let dealt = m.replied(reply);
    if dealt.left == m.left - 1 && dealt.error is None {
        lemma_settled_in_full(dealt);
    }
}

/// What one reply makes of the changes that have been dealt with.
proof fn lemma_dealt_step(run: UndoRun, log: Seq<EntryModel>, k: int, i: int)
    requires
        run.is_run(log),
        0 < i <= run.replies.len(),
        run.states[i - 1].entries == log,
        run.states[i - 1].is_valid(),
        run.states[i].error is None,
        run.states[i].left <= k < log.len(),
        run.states[i - 1].left <= k ==> is_dealt_with(run, log, k, i - 1),
    ensures
        is_dealt_with(run, log, k, i),
{
    assert(run.is_step(i - 1));
    let a = run.states[i - 1];
    let b = run.states[i];
    let reply = run.replies[i - 1];
    every_change_is_undone_on_its_own(a, reply);
    let was = a.report;
    let now = b.report;
    assert(forall|s: int| 0 <= s < was.other.len() ==> s < now.other.len() && now.other[s]
        == #[trigger] was.other[s]) by {
        if b.left < a.left {
            lemma_report_grows(a, reply);
        }
    }
    assert(forall|s: int|
        0 <= s < was.modified.len() ==> s < now.modified.len() && now.modified[s]
            == #[trigger] was.modified[s]);
    if k >= a.left {
        match log[k] {
            EntryModel::Moved { from, to, .. } => {
                if was.modified.contains(to) {
                    let s = choose|s: int| 0 <= s < was.modified.len() && was.modified[s] == to;
                    assert(now.modified[s] == to);
                } else if is_reported(was, to) {
                    let s = choose|s: int|
                        0 <= s < was.other.len() && (#[trigger] was.other[s]).path == to;
                    assert(now.other[s].path == to);
                } else {
                    let m = choose|m: int|
                        0 <= m < i - 1 && #[trigger] run.states[m].request() == Some(
                            RequestModel::Rename(to, from),
                        ) && run.states[m].left == k + 1 && run.replies[m] == ReplyModel::Done;
                    assert(run.states[m].request() == Some(RequestModel::Rename(to, from)));
                }
            },
            EntryModel::Trashed { original, .. } => {
                let s = choose|s: int|
                    0 <= s < was.other.len() && (#[trigger] was.other[s]).path == original;
                assert(now.other[s].path == original);
            },
            _ => {},
        }
    } else if k == a.left - 1 {
        match log[k] {
            EntryModel::Moved { from, to, .. } => {
                lemma_report_grows(a, reply);
                match reply {
                    ReplyModel::Time(Some(_)) => {
                        assert(now.modified[was.modified.len() as int] == to);
                    },
                    ReplyModel::Done => {
                        assert(run.states[i - 1].request() == Some(RequestModel::Rename(to, from)));
                    },
                    _ => {
                        assert(now.other[was.other.len() as int].path == to);
                    },
                }
            },
            _ => {},
        }
    } else {
        lemma_report_grows(a, reply);
        assert(log[k] is Trashed);
    }
}

/// What a change that is dealt with adds to the report.
proof fn lemma_report_grows(a: UndoModel, reply: ReplyModel)
    requires
        a.is_valid(),
        a.accepts(reply),
        a.answered(reply).left < a.left,
    ensures
        ({
            let was = a.report.other;
            let now = a.answered(reply).report.other;
            let left = a.answered(reply).left;
            &&& was.len() <= now.len()
            &&& forall|s: int| 0 <= s < was.len() ==> now[s] == #[trigger] was[s]
            &&& a.entries[a.left - 1] is Moved && (reply == ReplyModel::Time(None)
                || reply is Failed) ==> was.len() < now.len() && now[was.len() as int].path
                == a.entries[a.left - 1]->to
            &&& forall|j: int|
                left <= j < a.left - 1 ==> (#[trigger] a.entries[j]) is Trashed && is_reported(
                    a.answered(reply).report,
                    a.entries[j]->original,
                )
        }),
{
    every_change_is_undone_on_its_own(a, reply);
    let b = a.answered(reply);
    let dealt = a.replied(reply);
    lemma_goes_on(a, dealt);
    let was = a.report.other;
    let now = b.report.other;
    let mid = dealt.report.other;
    assert(now.take(mid.len() as int) == mid);
    assert forall|s: int| 0 <= s < was.len() implies now[s] == #[trigger] was[s] by {
        assert(mid[s] == was[s]);
        assert(now.take(mid.len() as int)[s] == mid[s]);
    }
    if a.entries[a.left - 1] is Moved && (reply == ReplyModel::Time(None) || reply is Failed) {
        assert(mid.len() == was.len() + 1);
        assert(now.take(mid.len() as int)[was.len() as int] == mid[was.len() as int]);
    }
    assert forall|j: int| b.left <= j < a.left - 1 implies (#[trigger] a.entries[j]) is Trashed
        && is_reported(b.report, a.entries[j]->original) by {
        let s = mid.len() + (a.left - 2 - j);
        assert(b.report.other[s].path == a.entries[j]->original);
    }
}

/// No change is lost: at the end of an undo without an error every file that was
/// moved has been moved back, or its path is reported as modified or as left, and
/// everything that was trashed is reported.
pub proof fn no_change_is_lost(run: UndoRun, log: Seq<EntryModel>, k: int)
    requires
        run.is_run(log),
        run.states.last().request() is None,
        run.states.last().error is None,
        0 <= k < log.len(),
    ensures
        is_dealt_with(run, log, k, run.replies.len() as int),
{
    let n = run.replies.len() as int;
    lemma_dealt_with(run, log, n);
    assert(run.states[n].left == 0);
}

/// A file that is gone is noted as missing. The tree stays as it is, and the undo
/// goes on with the next earlier change.
pub proof fn a_missing_file_is_noted_and_passed(run: UndoRun, log: Seq<EntryModel>, i: int)
    requires
        run.is_run(log),
        0 <= i < run.replies.len(),
        run.states[i].left > 0,
        log[run.states[i].left - 1] is Moved,
        run.states[i].request() == Some(RequestModel::Mtime(log[run.states[i].left - 1]->to)),
        !run.trees[i].contains_key(components(log[run.states[i].left - 1]->to)),
    ensures
        run.trees[i + 1] == run.trees[i],
        goes_on(
            run.states[i],
            run.states[i + 1],
            run.states[i].report.other.push(
                SkipModel { path: log[run.states[i].left - 1]->to, reason: "missing"@ },
            ),
        ),
        run.states[i + 1].report.modified == run.states[i].report.modified,
        run.states[i + 1].report.reversed == run.states[i].report.reversed,
{
    lemma_dealt_with(run, log, i);
    assert(run.is_step(i));
    every_change_is_undone_on_its_own(run.states[i], run.replies[i]);
}

/// No change counts twice: what was reversed and what is reported are together at
/// most as many as the changes that have been dealt with.
pub proof fn no_change_counts_twice(run: UndoRun, log: Seq<EntryModel>, i: int)
    requires
        run.is_run(log),
        0 <= i <= run.replies.len(),
        run.states[i].error is None,
    ensures
        run.states[i].report.reversed + run.states[i].report.modified.len()
            + run.states[i].report.other.len() <= log.len() - run.states[i].left,
    decreases i,
{
    if i == 0 {
        an_undo_starts_with_the_last_change(log);
    } else {
        assert(run.is_step(i - 1));
        lemma_dealt_with(run, log, i - 1);
        no_change_counts_twice(run, log, i - 1);
        every_change_is_undone_on_its_own(run.states[i - 1], run.replies[i - 1]);
    }
}

/// Whether the folder at `path` was looked for at moment `j`, and was there or was
/// made then, before moment `i`.
pub open spec fn was_made(run: ExecutionRun, path: Seq<u8>, j: int, i: int) -> bool {
    &&& 0 <= j < i
    &&& run.states[j].request() == Some(RequestModel::Exists(path))
    &&& run.replies[j] == ReplyModel::Found(true) || j + 1 < i && run.states[j + 1].request()
        == Some(RequestModel::CreateDirs(path)) && !(run.replies[j + 1] is Failed)
}

/// The folder of each step that is done was there or was made.
proof fn lemma_folders_were_made(run: ExecutionRun, plan: PlanModel, i: int, k: int)
    requires
        run.is_run(plan),
        0 <= i <= run.replies.len(),
        0 <= k < run.states[0].steps.len(),
        run.states[0].steps[k] is EnsureDir,
    ensures
        run.states[i].at > k ==> exists|j: int|
            #[trigger] was_made(run, run.states[0].steps[k]->EnsureDir_path, j, i),
        run.states[i].at == k && run.states[i].phase is MakeDir && run.states[i].aborted is None
            ==> i > 0 && run.states[i - 1].request() == Some(
            RequestModel::Exists(run.states[0].steps[k]->EnsureDir_path),
        ),
    decreases i,
{
    let path = run.states[0].steps[k]->EnsureDir_path;
    if i > 0 {
        lemma_folders_were_made(run, plan, i - 1, k);
        lemma_run(run, plan, i - 1);
        lemma_run(run, plan, i);
        assert(run.is_step(i - 1));
        let state = run.states[i - 1];
        if state.at > k {
            let j = choose|j: int| #[trigger] was_made(run, path, j, i - 1);
            assert(was_made(run, path, j, i));
        } else if run.states[i].at > k {
            assert(state.at == k);
            if state.phase is MakeDir {
                assert(run.states[i - 2 + 1] == state);
                assert(was_made(run, path, i - 2, i));
            } else {
                assert(was_made(run, path, i - 1, i));
            }
        }
    }
}

/// A file is moved behind the making of its folder.
proof fn lemma_folder_comes_first(actions: Seq<ActionModel>, n: int, i: int)
    requires
        0 <= n <= actions.len(),
        0 <= i < leading_steps(actions, n).len(),
        leading_steps(actions, n)[i] is Move,
    ensures
        ({
            let a = leading_steps(actions, n)[i]->Move_action;
            exists|k: int|
                0 <= k < i && #[trigger] leading_steps(actions, n)[k] == (StepModel::EnsureDir {
                    action: a,
                    path: fold_target(actions[a]->files, actions[a]->folder_name)->0,
                })
        }),
    decreases n,
{
    if n > 0 {
        let before = leading_steps(actions, n - 1);
        let own = action_steps(n - 1, actions[n - 1]);
        let all = leading_steps(actions, n);
        if i < before.len() {
            assert(all[i] == before[i]);
            lemma_folder_comes_first(actions, n - 1, i);
            let a = before[i]->Move_action;
            let k = choose|k: int|
                0 <= k < i && #[trigger] before[k] == (StepModel::EnsureDir {
                    action: a,
                    path: fold_target(actions[a]->files, actions[a]->folder_name)->0,
                });
            assert(all[k] == before[k]);
        } else {
            let k = i - before.len();
            assert(all[i] == own[k]);
            assert(actions[n - 1] is FoldIntoFolder);
            let files = actions[n - 1]->files;
            let target = fold_target(files, actions[n - 1]->folder_name);
            assert(target is Some);
            assert(k > 0);
            assert(own[k] == move_step(n - 1, files[k - 1], target->0));
            assert(all[before.len() as int] == own[0]);
        }
    }
}

/// Before a file is moved the folder of its action was looked for, and made if it was
/// not there: the one beside the first file of the action.
pub proof fn folders_are_made_before_files_move(run: ExecutionRun, plan: PlanModel, i: int)
    requires
        run.is_run(plan),
        0 <= i <= run.replies.len(),
        run.states[i].request() is Some,
        run.states[i].request()->0 is Rename,
    ensures
        exists|a: int, folder: Seq<u8>, j: int|
            {
                let from = run.states[i].request()->0->Rename_0;
                let to = run.states[i].request()->0->Rename_1;
                let files = plan.actions[a]->files;
                let c = components(files[0]);
                &&& 0 <= a < plan.actions.len()
                &&& (#[trigger] plan.actions[a]) is FoldIntoFolder
                &&& files.contains(from)
                &&& c.len() > 0
                &&& folder == joined(
                    leading(files[0], c.len() - 1),
                    encode_utf8(plan.actions[a]->folder_name),
                )
                &&& #[trigger] was_made(run, folder, j, i)
                &&& is_first_free(
                    run.trees[i],
                    joined(folder, components(from).last()),
                    to,
                )
            },
{
    lemma_run(run, plan, i);
    let state = run.states[i];
    assert(!plan.dry_run);
    let n = plan.actions.len() as int;
    lemma_steps(plan.actions, n, state.at);
    lemma_folder_steps(plan.actions, n, state.at);
    lemma_folder_comes_first(plan.actions, n, state.at);
    let a = state.steps[state.at]->Move_action;
    let files = plan.actions[a]->files;
    let folder = fold_target(files, plan.actions[a]->folder_name)->0;
    let k = choose|k: int|
        0 <= k < state.at && #[trigger] leading_steps(plan.actions, n)[k] == (
        StepModel::EnsureDir { action: a, path: folder });
    assert(run.states[0].steps[k] == leading_steps(plan.actions, n)[k]);
    lemma_folders_were_made(run, plan, i, k);
    let j = choose|j: int| #[trigger] was_made(run, folder, j, i);
    the_name_is_the_last_component(state.request()->0->Rename_0);
    assert(was_made(run, folder, j, i));
}

} // verus!
