//! Carrying out a plan and undoing it, as decisions between requests to the
//! file system.

use vstd::prelude::*;
use crate::calendar::{format_timestamp, timestamp, timestamps_have_one_form};
use crate::calendar::timestamps_sort_by_time;
use crate::paths::{a_name_is_stem_dot_extension, components, extension, extension_of};
use crate::paths::{file_name_of, is_piece, joined, joining_adds_a_component, parent_of, path_bytes};
use crate::paths::{stem, stem_of, the_name_is_the_last_component};
use crate::paths::{the_parent_lacks_the_last_component, FilePath, DOT};
use crate::plan::{Action, ActionModel, Plan, PlanModel};
use crate::text::{comes_before, digit_bytes, digits, digits_spell_the_number};
use crate::text::{lemma_comes_before, lossy, push_bytes, push_decimal, utf8_lossy};
use vstd::utf8::{encode_utf8, valid_utf8};

verus! {

/// A change that was made to the file system.
#[derive(Debug)]
pub enum UndoEntry {
    Trashed { original: FilePath, mtime: i64 },
    Moved { from: FilePath, to: FilePath, mtime: i64 },
    CreatedDir { path: FilePath },
}

/// A change as a value.
#[verifier::ext_equal]
pub enum EntryModel {
    Trashed { original: Seq<u8>, mtime: i64 },
    Moved { from: Seq<u8>, to: Seq<u8>, mtime: i64 },
    CreatedDir { path: Seq<u8> },
}

impl View for UndoEntry {
    type V = EntryModel;

    open spec fn view(&self) -> EntryModel {
        match self {
            UndoEntry::Trashed { original, mtime } => EntryModel::Trashed {
                original: original@,
                mtime: *mtime,
            },
            UndoEntry::Moved { from, to, mtime } => EntryModel::Moved {
                from: from@,
                to: to@,
                mtime: *mtime,
            },
            UndoEntry::CreatedDir { path } => EntryModel::CreatedDir { path: path@ },
        }
    }
}

impl Clone for UndoEntry {
    fn clone(&self) -> (r: Self)
        ensures
            r@ == self@,
    {
        match self {
            UndoEntry::Trashed { original, mtime } => UndoEntry::Trashed {
                original: original.clone(),
                mtime: *mtime,
            },
            UndoEntry::Moved { from, to, mtime } => UndoEntry::Moved {
                from: from.clone(),
                to: to.clone(),
                mtime: *mtime,
            },
            UndoEntry::CreatedDir { path } => UndoEntry::CreatedDir { path: path.clone() },
        }
    }
}

/// The changes of a list as values.
pub open spec fn undo_models(entries: Seq<UndoEntry>) -> Seq<EntryModel> {
    Seq::new(entries.len(), |i: int| entries[i]@)
}

/// The changes that one execution made, in their order, and when it started.
#[derive(Debug)]
pub struct UndoLog {
    pub created_at: i64,
    pub entries: Vec<UndoEntry>,
}

/// The name of the file that a log of the given time is written to.
pub open spec fn log_name(created_at: int) -> Seq<char> {
    "undo-"@ + timestamp(created_at) + ".json"@
}

/// Up to the year 9999 the names of logs sort by time: the name of an earlier log
/// comes before that of a later one, and no two times share a name.
pub proof fn log_names_sort_by_time(a: int, b: int)
    requires
        0 <= a < b < 253402300800,
    ensures
        comes_before(log_name(a), log_name(b)),
        log_name(a) != log_name(b),
{
    timestamps_sort_by_time(a, b);
    timestamps_have_one_form(a);
    timestamps_have_one_form(b);
    let x = "undo-"@ + timestamp(a);
    let y = "undo-"@ + timestamp(b);
    lemma_comes_before("undo-"@, "undo-"@, timestamp(a), timestamp(b));
    lemma_comes_before(x, y, ".json"@, ".json"@);
    assert(!comes_before(log_name(a), log_name(a)));
}

/// Copies a list of changes.
pub fn clone_entries(entries: &Vec<UndoEntry>) -> (r: Vec<UndoEntry>)
    ensures
        undo_models(r@) == undo_models(entries@),
{
    let mut out: Vec<UndoEntry> = Vec::new();
    let mut i: usize = 0;
    while i < entries.len()
        invariant
            i <= entries@.len(),
            out@.len() == i,
            forall|k: int| 0 <= k < i ==> (#[trigger] out@[k])@ == entries@[k]@,
        decreases entries@.len() - i,
    {
        out.push(entries[i].clone());
        i = i + 1;
    }
    assert(undo_models(out@) =~= undo_models(entries@));
    out
}

impl Clone for UndoLog {
    fn clone(&self) -> (r: Self)
        ensures
            r.created_at == self.created_at,
            undo_models(r.entries@) == undo_models(self.entries@),
    {
        UndoLog { created_at: self.created_at, entries: clone_entries(&self.entries) }
    }
}

impl UndoLog {
    /// A log without changes.
    pub fn new(created_at: i64) -> (r: Self)
        ensures
            r.created_at == created_at,
            r.entries@.len() == 0,
    {
        UndoLog { created_at, entries: Vec::new() }
    }

    /// The name of the file that a log is written to.
    pub fn file_name(&self) -> (r: String)
        ensures
            r@ == log_name(self.created_at as int),
    {
        let mut out = String::new();
        out.append("undo-");
        assert(out@ =~= "undo-"@);
        let stamp = format_timestamp(self.created_at);
        out.append(stamp.as_str());
        out.append(".json");
        out
    }
}

/// What is asked of the file system.
#[derive(Debug, PartialEq, Eq)]
pub enum FsRequest {
    /// When the path was last modified, in seconds since 1970.
    Mtime(FilePath),
    /// Whether the path exists.
    Exists(FilePath),
    /// Move the path to the trash.
    Trash(FilePath),
    /// Create the directory and those above it that are missing.
    CreateDirs(FilePath),
    /// Rename the first path to the second.
    Rename(FilePath, FilePath),
    /// Whether the directory is empty.
    ReadDir(FilePath),
    /// Remove the empty directory.
    RemoveDir(FilePath),
}

/// A request as a value.
#[verifier::ext_equal]
pub enum RequestModel {
    Mtime(Seq<u8>),
    Exists(Seq<u8>),
    Trash(Seq<u8>),
    CreateDirs(Seq<u8>),
    Rename(Seq<u8>, Seq<u8>),
    ReadDir(Seq<u8>),
    RemoveDir(Seq<u8>),
}

impl View for FsRequest {
    type V = RequestModel;

    open spec fn view(&self) -> RequestModel {
        match self {
            FsRequest::Mtime(p) => RequestModel::Mtime(p@),
            FsRequest::Exists(p) => RequestModel::Exists(p@),
            FsRequest::Trash(p) => RequestModel::Trash(p@),
            FsRequest::CreateDirs(p) => RequestModel::CreateDirs(p@),
            FsRequest::Rename(p, q) => RequestModel::Rename(p@, q@),
            FsRequest::ReadDir(p) => RequestModel::ReadDir(p@),
            FsRequest::RemoveDir(p) => RequestModel::RemoveDir(p@),
        }
    }
}

/// What the file system replies.
#[derive(Debug, PartialEq, Eq)]
pub enum FsReply {
    /// The modification time, if there is one to be had.
    Time(Option<i64>),
    /// Whether the path exists.
    Found(bool),
    /// It was done.
    Done,
    /// Whether the directory is empty.
    Empty(bool),
    /// It could not be done, and why.
    Failed(String),
}

/// A reply as a value.
#[verifier::ext_equal]
pub enum ReplyModel {
    Time(Option<i64>),
    Found(bool),
    Done,
    Empty(bool),
    Failed(Seq<char>),
}

impl View for FsReply {
    type V = ReplyModel;

    open spec fn view(&self) -> ReplyModel {
        match self {
            FsReply::Time(t) => ReplyModel::Time(*t),
            FsReply::Found(b) => ReplyModel::Found(*b),
            FsReply::Done => ReplyModel::Done,
            FsReply::Empty(b) => ReplyModel::Empty(*b),
            FsReply::Failed(m) => ReplyModel::Failed(m@),
        }
    }
}

/// Whether a reply is of the kind that a request asks for.
pub open spec fn replies_to(request: RequestModel, reply: ReplyModel) -> bool {
    match request {
        RequestModel::Mtime(_) => reply is Time,
        RequestModel::Exists(_) => reply is Found,
        RequestModel::ReadDir(_) => reply is Empty || reply is Failed,
        _ => reply is Done || reply is Failed,
    }
}

/// Whether a reply is of the kind that a request asks for.
pub fn is_reply_to(request: &FsRequest, reply: &FsReply) -> (r: bool)
    ensures
        r == replies_to(request@, reply@),
{
    match (request, reply) {
        (FsRequest::Mtime(_), FsReply::Time(_)) => true,
        (FsRequest::Exists(_), FsReply::Found(_)) => true,
        (FsRequest::ReadDir(_), FsReply::Empty(_)) => true,
        (FsRequest::ReadDir(_), FsReply::Failed(_)) => true,
        (FsRequest::Mtime(_), _) => false,
        (FsRequest::Exists(_), _) => false,
        (FsRequest::ReadDir(_), _) => false,
        (_, FsReply::Done) => true,
        (_, FsReply::Failed(_)) => true,
        _ => false,
    }
}

/// The folder that files are folded into: beside the first of them.
pub open spec fn fold_target(files: Seq<Seq<u8>>, folder_name: Seq<char>) -> Option<Seq<u8>> {
    if files.len() == 0 {
        None
    } else {
        match parent_of(files[0]) {
            Some(parent) => Some(joined(parent, encode_utf8(folder_name))),
            None => None,
        }
    }
}

/// The folder that files are folded into, if the first of them has a parent.
pub fn pick_folder_dir(files: &Vec<FilePath>, folder_name: &String) -> (r: Option<FilePath>)
    ensures
        match r {
            Some(p) => fold_target(path_bytes(files@), folder_name@) == Some(p@),
            None => fold_target(path_bytes(files@), folder_name@) is None,
        },
{
    if files.len() == 0 {
        return None;
    }
    assert(path_bytes(files@)[0] == files@[0]@);
    match files[0].parent() {
        Some(parent) => Some(parent.join(folder_name.as_str().as_bytes())),
        None => None,
    }
}

/// `desired` under another name: `stem`, a low line, the number and `ending`.
pub open spec fn renamed(desired: Seq<u8>, stem: Seq<u8>, n: int, ending: Seq<u8>) -> Seq<u8> {
    let parent = match parent_of(desired) {
        Some(p) => p,
        None => seq![DOT],
    };
    joined(parent, stem + seq![95u8] + digit_bytes(digits(n as nat)) + ending)
}

/// The `n`th name to try in place of `desired`: `_n` is put behind the stem.
pub open spec fn numbered(desired: Seq<u8>, n: int) -> Seq<u8> {
    let name = file_name_of(desired);
    let stem = match name {
        Some(s) => utf8_lossy(stem_of(s)),
        None => seq![],
    };
    let ending = match name {
        Some(s) => match extension_of(s) {
            Some(e) => seq![DOT] + utf8_lossy(e),
            None => seq![],
        },
        None => seq![],
    };
    renamed(desired, stem, n, ending)
}

/// The `n`th name to try in place of `desired`. What is valid UTF-8 in the name is
/// kept as it is.
pub fn numbered_path(desired: &FilePath, n: u64) -> (r: FilePath)
    ensures
        r@ == numbered(desired@, n as int),
        match file_name_of(desired@) {
            Some(s) => match extension_of(s) {
                Some(e) => valid_utf8(stem_of(s)) && valid_utf8(e) ==> r@ == renamed(
                    desired@,
                    stem_of(s),
                    n as int,
                    seq![DOT] + e,
                ),
                None => valid_utf8(stem_of(s)) ==> r@ == renamed(
                    desired@,
                    stem_of(s),
                    n as int,
                    seq![],
                ),
            },
            None => true,
        },
{
    let mut name: Vec<u8> = Vec::new();
    let mut ending: Vec<u8> = Vec::new();
    match desired.file_name() {
        Some(s) => {
            let base = stem(&s);
            name = lossy(base.as_slice());
            match extension(&s) {
                Some(e) => {
                    ending.push(DOT);
                    let text = lossy(e.as_slice());
                    push_bytes(&mut ending, text.as_slice());
                    assert(ending@ =~= seq![DOT] + text@);
                },
                None => {},
            }
        },
        None => {},
    }
    let ghost stem_bytes = name@;
    let ghost ending_bytes = ending@;
    name.push(95);
    push_decimal(&mut name, n);
    push_bytes(&mut name, ending.as_slice());
    assert(name@ =~= stem_bytes + seq![95u8] + digit_bytes(digits(n as nat)) + ending_bytes);
    let parent = match desired.parent() {
        Some(p) => p,
        None => {
            let mut dot: Vec<u8> = Vec::new();
            dot.push(DOT);
            assert(dot@ =~= seq![DOT]);
            FilePath { bytes: dot }
        },
    };
    assert(stem_bytes =~= match file_name_of(desired@) {
        Some(s) => utf8_lossy(stem_of(s)),
        None => seq![],
    });
    parent.join(name.as_slice())
}

/// One thing to do for the action with the given place in the plan.
#[derive(Debug)]
pub enum Step {
    /// Move the path to the trash.
    Trash { action: usize, path: FilePath },
    /// Create the folder, unless it exists.
    EnsureDir { action: usize, path: FilePath },
    /// Move a file, to the given path or a numbered one.
    Move { action: usize, from: FilePath, to: FilePath },
    /// Give up: there is no folder to fold into.
    NoParent { action: usize },
    /// Give up: the path has no file name.
    NoFileName { action: usize, path: FilePath },
}

/// A step as a value.
#[verifier::ext_equal]
pub enum StepModel {
    Trash { action: int, path: Seq<u8> },
    EnsureDir { action: int, path: Seq<u8> },
    Move { action: int, from: Seq<u8>, to: Seq<u8> },
    NoParent { action: int },
    NoFileName { action: int, path: Seq<u8> },
}

impl View for Step {
    type V = StepModel;

    open spec fn view(&self) -> StepModel {
        match self {
            Step::Trash { action, path } => StepModel::Trash { action: *action as int, path: path@ },
            Step::EnsureDir { action, path } => StepModel::EnsureDir {
                action: *action as int,
                path: path@,
            },
            Step::Move { action, from, to } => StepModel::Move {
                action: *action as int,
                from: from@,
                to: to@,
            },
            Step::NoParent { action } => StepModel::NoParent { action: *action as int },
            Step::NoFileName { action, path } => StepModel::NoFileName {
                action: *action as int,
                path: path@,
            },
        }
    }
}

/// The steps of a list as values.
pub open spec fn step_models(steps: Seq<Step>) -> Seq<StepModel> {
    Seq::new(steps.len(), |i: int| steps[i]@)
}

/// The step that moves a file into a folder, under its own name.
pub open spec fn move_step(action: int, from: Seq<u8>, target: Seq<u8>) -> StepModel {
    match file_name_of(from) {
        Some(name) => StepModel::Move { action, from, to: joined(target, name) },
        None => StepModel::NoFileName { action, path: from },
    }
}

/// The steps of one action.
pub open spec fn action_steps(action: int, a: ActionModel) -> Seq<StepModel> {
    match a {
        ActionModel::Ignore => seq![],
        ActionModel::KeepOne { trash, .. } | ActionModel::DeleteAll { trash } => Seq::new(
            trash.len(),
            |i: int| StepModel::Trash { action, path: trash[i] },
        ),
        ActionModel::FoldIntoFolder { folder_name, files } => match fold_target(
            files,
            folder_name,
        ) {
            Some(target) => seq![StepModel::EnsureDir { action, path: target }] + Seq::new(
                files.len(),
                |i: int| move_step(action, files[i], target),
            ),
            None => seq![StepModel::NoParent { action }],
        },
    }
}

/// The steps of the first `n` actions.
pub open spec fn leading_steps(actions: Seq<ActionModel>, n: int) -> Seq<StepModel>
    decreases n,
{
    if n <= 0 {
        seq![]
    } else {
        leading_steps(actions, n - 1) + action_steps(n - 1, actions[n - 1])
    }
}

/// The steps of a plan. One that is only to be shown has none.
pub open spec fn plan_steps(plan: PlanModel) -> Seq<StepModel> {
    if plan.dry_run {
        seq![]
    } else {
        leading_steps(plan.actions, plan.actions.len() as int)
    }
}

/// Appends the steps that trash the paths.
fn push_trash_steps(steps: &mut Vec<Step>, action: usize, trash: &Vec<FilePath>)
    ensures
        step_models(final(steps)@) == step_models(old(steps)@) + Seq::new(
            trash@.len(),
            |i: int| StepModel::Trash { action: action as int, path: trash@[i]@ },
        ),
{
    let ghost before = steps@;
    let mut i: usize = 0;
    while i < trash.len()
        invariant
            i <= trash@.len(),
            steps@.len() == before.len() + i,
            forall|k: int| 0 <= k < before.len() ==> #[trigger] steps@[k] == before[k],
            forall|k: int|
                before.len() <= k < steps@.len() ==> (#[trigger] steps@[k])@ == (StepModel::Trash {
                    action: action as int,
                    path: trash@[k - before.len()]@,
                }),
        decreases trash@.len() - i,
    {
        steps.push(Step::Trash { action, path: trash[i].clone() });
        i = i + 1;
    }
    assert(step_models(steps@) =~= step_models(before) + Seq::new(
        trash@.len(),
        |i: int| StepModel::Trash { action: action as int, path: trash@[i]@ },
    ));
}

/// Appends the steps that move files into a folder.
fn push_move_steps(
    steps: &mut Vec<Step>,
    action: usize,
    files: &Vec<FilePath>,
    target: &FilePath,
)
    ensures
        step_models(final(steps)@) == step_models(old(steps)@) + Seq::new(
            files@.len(),
            |i: int| move_step(action as int, files@[i]@, target@),
        ),
{
    let ghost before = steps@;
    let mut i: usize = 0;
    while i < files.len()
        invariant
            i <= files@.len(),
            steps@.len() == before.len() + i,
            forall|k: int| 0 <= k < before.len() ==> #[trigger] steps@[k] == before[k],
            forall|k: int|
                before.len() <= k < steps@.len() ==> (#[trigger] steps@[k])@ == move_step(
                    action as int,
                    files@[k - before.len()]@,
                    target@,
                ),
        decreases files@.len() - i,
    {
        let from = files[i].clone();
        match files[i].file_name() {
            Some(name) => {
                let to = target.join(name.as_slice());
                steps.push(Step::Move { action, from, to });
            },
            None => {
                steps.push(Step::NoFileName { action, path: from });
            },
        }
        i = i + 1;
    }
    assert(step_models(steps@) =~= step_models(before) + Seq::new(
        files@.len(),
        |i: int| move_step(action as int, files@[i]@, target@),
    ));
}

/// The steps of a plan.
pub fn steps_of(plan: &Plan) -> (r: Vec<Step>)
    ensures
        step_models(r@) == plan_steps(plan@),
{
    let mut steps: Vec<Step> = Vec::new();
    assert(step_models(steps@) =~= seq![]);
    if plan.dry_run {
        return steps;
    }
    let ghost actions = plan@.actions;
    let mut i: usize = 0;
    while i < plan.actions.len()
        invariant
            actions == plan@.actions,
            i <= plan.actions@.len(),
            step_models(steps@) == leading_steps(actions, i as int),
        decreases plan.actions@.len() - i,
    {
        let ghost before = steps@;
        assert(actions[i as int] == plan.actions@[i as int]@);
        match &plan.actions[i] {
            Action::Ignore => {
                assert(step_models(before) + action_steps(i as int, actions[i as int])
                    =~= step_models(before));
            },
            Action::KeepOne { trash, .. } | Action::DeleteAll { trash } => {
                push_trash_steps(&mut steps, i, trash);
                assert(action_steps(i as int, actions[i as int]) =~= Seq::new(
                    trash@.len(),
                    |k: int| StepModel::Trash { action: i as int, path: trash@[k]@ },
                ));
            },
            Action::FoldIntoFolder { folder_name, files } => {
                match pick_folder_dir(files, folder_name) {
                    Some(target) => {
                        let path = target.clone();
                        steps.push(Step::EnsureDir { action: i, path });
                        let ghost mid = steps@;
                        assert(step_models(mid) =~= step_models(before).push(
                            StepModel::EnsureDir { action: i as int, path: target@ },
                        ));
                        push_move_steps(&mut steps, i, files, &target);
                        proof {
                            let moves = Seq::new(
                                files@.len(),
                                |k: int| move_step(i as int, files@[k]@, target@),
                            );
                            assert(action_steps(i as int, actions[i as int]) =~= seq![
                                StepModel::EnsureDir { action: i as int, path: target@ },
                            ] + moves);
                            assert(step_models(steps@) =~= step_models(before) + action_steps(
                                i as int,
                                actions[i as int],
                            ));
                        }
                    },
                    None => {
                        steps.push(Step::NoParent { action: i });
                        assert(step_models(steps@) =~= step_models(before) + action_steps(
                            i as int,
                            actions[i as int],
                        ));
                    },
                }
            },
        }
        i = i + 1;
    }
    steps
}

/// Why an execution was given up.
#[derive(Debug)]
pub enum AbortCause {
    Trash { path: FilePath, message: String },
    Mkdir { path: FilePath, message: String },
    Move { from: FilePath, to: FilePath, message: String },
    NoParent,
    NoFileName { path: FilePath },
}

/// The action at which an execution was given up, and why.
#[derive(Debug)]
pub struct Abort {
    pub action: usize,
    pub cause: AbortCause,
}

/// The cause of an abort as a value.
#[verifier::ext_equal]
pub enum CauseModel {
    Trash { path: Seq<u8>, message: Seq<char> },
    Mkdir { path: Seq<u8>, message: Seq<char> },
    Move { from: Seq<u8>, to: Seq<u8>, message: Seq<char> },
    NoParent,
    NoFileName { path: Seq<u8> },
}

/// An abort as a value.
#[verifier::ext_equal]
pub struct AbortModel {
    pub action: int,
    pub cause: CauseModel,
}

impl View for AbortCause {
    type V = CauseModel;

    open spec fn view(&self) -> CauseModel {
        match self {
            AbortCause::Trash { path, message } => CauseModel::Trash {
                path: path@,
                message: message@,
            },
            AbortCause::Mkdir { path, message } => CauseModel::Mkdir {
                path: path@,
                message: message@,
            },
            AbortCause::Move { from, to, message } => CauseModel::Move {
                from: from@,
                to: to@,
                message: message@,
            },
            AbortCause::NoParent => CauseModel::NoParent,
            AbortCause::NoFileName { path } => CauseModel::NoFileName { path: path@ },
        }
    }
}

impl View for Abort {
    type V = AbortModel;

    open spec fn view(&self) -> AbortModel {
        AbortModel { action: self.action as int, cause: self.cause@ }
    }
}

/// How far the current step has come.
#[derive(Debug)]
pub enum Phase {
    /// Nothing has been asked for it yet.
    First,
    /// The path is to be trashed.
    TrashIt { mtime: i64 },
    /// The folder is to be created.
    MakeDir,
    /// The path to move to is taken, and so are the first names with a number.
    TryName { n: u32 },
    /// A path to move to is free.
    AskTime { to: FilePath },
    /// The file is to be moved.
    MoveIt { to: FilePath, mtime: i64 },
}

/// A phase as a value.
#[verifier::ext_equal]
pub enum PhaseModel {
    First,
    TrashIt { mtime: i64 },
    MakeDir,
    TryName { n: int },
    AskTime { to: Seq<u8> },
    MoveIt { to: Seq<u8>, mtime: i64 },
}

impl View for Phase {
    type V = PhaseModel;

    open spec fn view(&self) -> PhaseModel {
        match self {
            Phase::First => PhaseModel::First,
            Phase::TrashIt { mtime } => PhaseModel::TrashIt { mtime: *mtime },
            Phase::MakeDir => PhaseModel::MakeDir,
            Phase::TryName { n } => PhaseModel::TryName { n: *n as int },
            Phase::AskTime { to } => PhaseModel::AskTime { to: to@ },
            Phase::MoveIt { to, mtime } => PhaseModel::MoveIt { to: to@, mtime: *mtime },
        }
    }
}

/// The last number that is tried for a name.
pub const LAST_NUMBER: u32 = 2147483646;

/// The state of an execution as a value.
#[verifier::ext_equal]
pub struct ExecutionModel {
    pub steps: Seq<StepModel>,
    pub at: int,
    pub phase: PhaseModel,
    pub log: Seq<EntryModel>,
    pub aborted: Option<AbortModel>,
}

/// Whether a phase is one of a step.
pub open spec fn fits(step: StepModel, phase: PhaseModel) -> bool {
    match phase {
        PhaseModel::First => true,
        PhaseModel::TrashIt { .. } => step is Trash,
        PhaseModel::MakeDir => step is EnsureDir,
        PhaseModel::TryName { n } => step is Move && 1 <= n <= LAST_NUMBER,
        PhaseModel::AskTime { .. } => step is Move,
        PhaseModel::MoveIt { .. } => step is Move,
    }
}

impl ExecutionModel {
    /// An execution that has done nothing.
    pub open spec fn start(plan: PlanModel) -> ExecutionModel {
        ExecutionModel {
            steps: plan_steps(plan),
            at: 0,
            phase: PhaseModel::First,
            log: seq![],
            aborted: None,
        }
    }

    /// Whether the phase is one of the current step.
    pub open spec fn is_valid(self) -> bool {
        &&& 0 <= self.at <= self.steps.len()
        &&& self.at < self.steps.len() ==> fits(self.steps[self.at], self.phase)
        &&& self.at == self.steps.len() ==> self.phase is First
    }

    /// Why the execution was given up, if it was.
    pub open spec fn failure(self) -> Option<AbortModel> {
        if self.aborted is Some {
            self.aborted
        } else if self.at < self.steps.len() {
            match self.steps[self.at] {
                StepModel::NoParent { action } => Some(
                    AbortModel { action, cause: CauseModel::NoParent },
                ),
                StepModel::NoFileName { action, path } => Some(
                    AbortModel { action, cause: CauseModel::NoFileName { path } },
                ),
                _ => None,
            }
        } else {
            None
        }
    }

    /// What is to be asked next. Nothing once all steps are done or the
    /// execution was given up.
    pub open spec fn request(self) -> Option<RequestModel> {
        if self.failure() is Some || self.at >= self.steps.len() {
            None
        } else {
            match self.steps[self.at] {
                StepModel::Trash { path, .. } => if self.phase is First {
                    Some(RequestModel::Mtime(path))
                } else {
                    Some(RequestModel::Trash(path))
                },
                StepModel::EnsureDir { path, .. } => if self.phase is First {
                    Some(RequestModel::Exists(path))
                } else {
                    Some(RequestModel::CreateDirs(path))
                },
                StepModel::Move { from, to, .. } => match self.phase {
                    PhaseModel::TryName { n } => Some(RequestModel::Exists(numbered(to, n))),
                    PhaseModel::AskTime { .. } => Some(RequestModel::Mtime(from)),
                    PhaseModel::MoveIt { to: free, .. } => Some(RequestModel::Rename(from, free)),
                    _ => Some(RequestModel::Exists(to)),
                },
                _ => None,
            }
        }
    }

    /// Whether the execution can go on with a reply. When the last number is
    /// taken there is no name left to try.
    pub open spec fn accepts(self, reply: ReplyModel) -> bool {
        &&& self.request() is Some
        &&& replies_to(self.request()->0, reply)
        &&& !(self.phase == (PhaseModel::TryName { n: LAST_NUMBER as int }) && reply
            == ReplyModel::Found(true))
    }

    /// The next phase of the current step.
    pub open spec fn in_phase(self, phase: PhaseModel) -> ExecutionModel {
        ExecutionModel { phase, ..self }
    }

    /// The current step is done and made a change.
    pub open spec fn recorded(self, entry: EntryModel) -> ExecutionModel {
        ExecutionModel {
            at: self.at + 1,
            phase: PhaseModel::First,
            log: self.log.push(entry),
            ..self
        }
    }

    /// The current step is done without a change.
    pub open spec fn passed(self) -> ExecutionModel {
        ExecutionModel { at: self.at + 1, phase: PhaseModel::First, ..self }
    }

    /// The execution is given up.
    pub open spec fn given_up(self, action: int, cause: CauseModel) -> ExecutionModel {
        ExecutionModel { aborted: Some(AbortModel { action, cause }), ..self }
    }

    /// The state after a reply.
    pub open spec fn answered(self, reply: ReplyModel) -> ExecutionModel {
        match self.steps[self.at] {
            StepModel::Trash { action, path } => match (self.phase, reply) {
                (PhaseModel::TrashIt { mtime }, ReplyModel::Failed(message)) => self.given_up(
                    action,
                    CauseModel::Trash { path, message },
                ),
                (PhaseModel::TrashIt { mtime }, _) => self.recorded(
                    EntryModel::Trashed { original: path, mtime },
                ),
                _ => self.in_phase(PhaseModel::TrashIt { mtime: time_or_zero(reply) }),
            },
            StepModel::EnsureDir { action, path } => match (self.phase, reply) {
                (PhaseModel::MakeDir, ReplyModel::Failed(message)) => self.given_up(
                    action,
                    CauseModel::Mkdir { path, message },
                ),
                (PhaseModel::MakeDir, _) => self.recorded(EntryModel::CreatedDir { path }),
                _ => if reply == ReplyModel::Found(true) {
                    self.passed()
                } else {
                    self.in_phase(PhaseModel::MakeDir)
                },
            },
            StepModel::Move { action, from, to } => match (self.phase, reply) {
                (PhaseModel::TryName { n }, _) => if reply == ReplyModel::Found(true) {
                    self.in_phase(PhaseModel::TryName { n: n + 1 })
                } else {
                    self.in_phase(PhaseModel::AskTime { to: numbered(to, n) })
                },
                (PhaseModel::AskTime { to: free }, _) => self.in_phase(
                    PhaseModel::MoveIt { to: free, mtime: time_or_zero(reply) },
                ),
                (PhaseModel::MoveIt { to: free, mtime }, ReplyModel::Failed(message)) => self.given_up(
                    action,
                    CauseModel::Move { from, to: free, message },
                ),
                (PhaseModel::MoveIt { to: free, mtime }, _) => self.recorded(
                    EntryModel::Moved { from, to: free, mtime },
                ),
                _ => if reply == ReplyModel::Found(true) {
                    self.in_phase(PhaseModel::TryName { n: 1 })
                } else {
                    self.in_phase(PhaseModel::AskTime { to })
                },
            },
            _ => self,
        }
    }
}

/// The time in a reply, or 0 if there is none.
pub open spec fn time_or_zero(reply: ReplyModel) -> i64 {
    match reply {
        ReplyModel::Time(Some(t)) => t,
        _ => 0,
    }
}

/// A plan that is being carried out.
#[derive(Debug)]
pub struct Execution {
    pub steps: Vec<Step>,
    pub at: usize,
    pub phase: Phase,
    pub log: UndoLog,
    pub aborted: Option<Abort>,
}

impl View for Execution {
    type V = ExecutionModel;

    open spec fn view(&self) -> ExecutionModel {
        ExecutionModel {
            steps: step_models(self.steps@),
            at: self.at as int,
            phase: self.phase@,
            log: undo_models(self.log.entries@),
            aborted: match self.aborted {
                Some(a) => Some(a@),
                None => None,
            },
        }
    }
}

/// Starts to carry out a plan. `created_at` is the time that the log will bear.
pub fn execute(plan: &Plan, created_at: i64) -> (r: Execution)
    ensures
        r@ == ExecutionModel::start(plan@),
        r@.is_valid(),
        r.log.created_at == created_at,
{
    let r = Execution {
        steps: steps_of(plan),
        at: 0,
        phase: Phase::First,
        log: UndoLog::new(created_at),
        aborted: None,
    };
    assert(r@.log =~= seq![]);
    r
}

impl Execution {
    /// What is to be asked next.
    pub fn request(&self) -> (r: Option<FsRequest>)
        requires
            self@.is_valid(),
        ensures
            match r {
                Some(q) => self@.request() == Some(q@),
                None => self@.request() is None,
            },
    {
        if self.aborted.is_some() || self.at >= self.steps.len() {
            return None;
        }
        assert(self@.steps[self.at as int] == self.steps@[self.at as int]@);
        match &self.steps[self.at] {
            Step::Trash { path, .. } => match &self.phase {
                Phase::First => Some(FsRequest::Mtime(path.clone())),
                _ => Some(FsRequest::Trash(path.clone())),
            },
            Step::EnsureDir { path, .. } => match &self.phase {
                Phase::First => Some(FsRequest::Exists(path.clone())),
                _ => Some(FsRequest::CreateDirs(path.clone())),
            },
            Step::Move { from, to, .. } => match &self.phase {
                Phase::TryName { n } => Some(FsRequest::Exists(numbered_path(to, *n as u64))),
                Phase::AskTime { .. } => Some(FsRequest::Mtime(from.clone())),
                Phase::MoveIt { to: free, .. } => Some(
                    FsRequest::Rename(from.clone(), free.clone()),
                ),
                _ => Some(FsRequest::Exists(to.clone())),
            },
            _ => None,
        }
    }

    /// Whether the execution can go on with a reply.
    pub fn accepts(&self, reply: &FsReply) -> (r: bool)
        requires
            self@.is_valid(),
        ensures
            r == self@.accepts(reply@),
    {
        let kind = match self.request() {
            Some(q) => is_reply_to(&q, reply),
            None => false,
        };
        let exhausted = match (&self.phase, reply) {
            (Phase::TryName { n }, FsReply::Found(true)) => *n == LAST_NUMBER,
            _ => false,
        };
        kind && !exhausted
    }

    /// Goes on with a reply.
    pub fn answer(&mut self, reply: FsReply)
        requires
            old(self)@.is_valid(),
            old(self)@.accepts(reply@),
        ensures
            final(self)@ == old(self)@.answered(reply@),
            final(self)@.is_valid(),
            final(self).log.created_at == old(self).log.created_at,
    {
        let ghost entries = self.log.entries@;
        let at: usize = self.at;
        let total: usize = self.steps.len();
        assert(at < total);
        assert(self@.steps[at as int] == self.steps@[at as int]@);
        match &self.steps[at] {
            Step::Trash { action, path } => match &self.phase {
                Phase::TrashIt { mtime } => match reply {
                    FsReply::Failed(message) => {
                        self.aborted = Some(
                            Abort {
                                action: *action,
                                cause: AbortCause::Trash { path: path.clone(), message },
                            },
                        );
                    },
                    _ => {
                        let entry = UndoEntry::Trashed { original: path.clone(), mtime: *mtime };
                        self.log.entries.push(entry);
                        self.at = at + 1;
                        self.phase = Phase::First;
                    },
                },
                _ => {
                    self.phase = Phase::TrashIt { mtime: reply_time(&reply) };
                },
            },
            Step::EnsureDir { action, path } => match &self.phase {
                Phase::MakeDir => match reply {
                    FsReply::Failed(message) => {
                        self.aborted = Some(
                            Abort {
                                action: *action,
                                cause: AbortCause::Mkdir { path: path.clone(), message },
                            },
                        );
                    },
                    _ => {
                        let entry = UndoEntry::CreatedDir { path: path.clone() };
                        self.log.entries.push(entry);
                        self.at = at + 1;
                        self.phase = Phase::First;
                    },
                },
                _ => match reply {
                    FsReply::Found(true) => {
                        self.at = at + 1;
                        self.phase = Phase::First;
                    },
                    _ => {
                        self.phase = Phase::MakeDir;
                    },
                },
            },
            Step::Move { action, from, to } => match &self.phase {
                Phase::TryName { n } => {
                    let n: u32 = *n;
                    match reply {
                        FsReply::Found(true) => {
                            self.phase = Phase::TryName { n: n + 1 };
                        },
                        _ => {
                            let free = numbered_path(to, n as u64);
                            self.phase = Phase::AskTime { to: free };
                        },
                    }
                },
                Phase::AskTime { to: free } => {
                    let free = free.clone();
                    self.phase = Phase::MoveIt { to: free, mtime: reply_time(&reply) };
                },
                Phase::MoveIt { to: free, mtime } => match reply {
                    FsReply::Failed(message) => {
                        self.aborted = Some(
                            Abort {
                                action: *action,
                                cause: AbortCause::Move {
                                    from: from.clone(),
                                    to: free.clone(),
                                    message,
                                },
                            },
                        );
                    },
                    _ => {
                        let entry = UndoEntry::Moved {
                            from: from.clone(),
                            to: free.clone(),
                            mtime: *mtime,
                        };
                        self.log.entries.push(entry);
                        self.at = at + 1;
                        self.phase = Phase::First;
                    },
                },
                _ => match reply {
                    FsReply::Found(true) => {
                        self.phase = Phase::TryName { n: 1 };
                    },
                    _ => {
                        let free = to.clone();
                        self.phase = Phase::AskTime { to: free };
                    },
                },
            },
            _ => {},
        }
        assert(self.log.entries@.len() > entries.len() ==> self@.log =~= undo_models(entries).push(
            self.log.entries@[entries.len() as int]@,
        ));
    }

    /// The log of an execution that has come to its end, or why it was given up.
    pub fn finish(self) -> (r: Result<UndoLog, Abort>)
        requires
            self@.is_valid(),
            self@.request() is None,
        ensures
            match r {
                Ok(log) => self@.failure() is None && log.created_at == self.log.created_at
                    && undo_models(log.entries@) == self@.log,
                Err(a) => self@.failure() == Some(a@),
            },
    {
        match self.aborted {
            Some(a) => Err(a),
            None => {
                if self.at < self.steps.len() {
                    assert(self@.steps[self.at as int] == self.steps@[self.at as int]@);
                    match &self.steps[self.at] {
                        Step::NoParent { action } => {
                            return Err(Abort { action: *action, cause: AbortCause::NoParent });
                        },
                        Step::NoFileName { action, path } => {
                            return Err(
                                Abort {
                                    action: *action,
                                    cause: AbortCause::NoFileName { path: path.clone() },
                                },
                            );
                        },
                        _ => {
                            assert(false);
                        },
                    }
                }
                Ok(self.log)
            },
        }
    }
}

/// The time in a reply, or 0 if there is none.
fn reply_time(reply: &FsReply) -> (r: i64)
    ensures
        r == time_or_zero(reply@),
{
    match reply {
        FsReply::Time(Some(t)) => *t,
        _ => 0,
    }
}

/// What an undo has done, and what it left as it was.
#[derive(Debug)]
pub struct UndoReport {
    pub reversed: usize,
    pub skipped_modified: Vec<FilePath>,
    pub skipped_other: Vec<(FilePath, String)>,
}

impl Default for UndoReport {
    fn default() -> (r: Self)
        ensures
            r@ == (ReportModel { reversed: 0, modified: seq![], other: seq![] }),
    {
        let r = UndoReport {
            reversed: 0,
            skipped_modified: Vec::new(),
            skipped_other: Vec::new(),
        };
        assert(r@ =~= (ReportModel { reversed: 0, modified: seq![], other: seq![] }));
        r
    }
}

/// A path that was left as it was, and why.
#[verifier::ext_equal]
pub struct SkipModel {
    pub path: Seq<u8>,
    pub reason: Seq<char>,
}

/// A report as a value.
#[verifier::ext_equal]
pub struct ReportModel {
    pub reversed: int,
    pub modified: Seq<Seq<u8>>,
    pub other: Seq<SkipModel>,
}

/// The paths that were left as they were, with the reasons.
pub open spec fn skip_models(skips: Seq<(FilePath, String)>) -> Seq<SkipModel> {
    Seq::new(skips.len(), |i: int| SkipModel { path: skips[i].0@, reason: skips[i].1@ })
}

impl View for UndoReport {
    type V = ReportModel;

    open spec fn view(&self) -> ReportModel {
        ReportModel {
            reversed: self.reversed as int,
            modified: path_bytes(self.skipped_modified@),
            other: skip_models(self.skipped_other@),
        }
    }
}

/// How far the undoing of the current change has come.
#[derive(Debug, Clone, Copy, PartialEq, Eq, Structural)]
pub enum UndoPhase {
    /// Nothing has been asked for it yet.
    First,
    /// The directory that the file came from is to be there.
    MakeParent,
    /// The file is to be moved back.
    MoveBack,
    /// The created directory is to be looked into.
    LookInto,
    /// The created directory is to be removed.
    Remove,
}

/// The state of an undo as a value. The first `left` changes of the log are still
/// to be dealt with.
#[verifier::ext_equal]
pub struct UndoModel {
    pub entries: Seq<EntryModel>,
    pub left: int,
    pub phase: UndoPhase,
    pub report: ReportModel,
    pub error: Option<Seq<char>>,
}

/// Whether a phase is one of a change.
pub open spec fn undo_fits(entry: EntryModel, phase: UndoPhase) -> bool {
    match phase {
        UndoPhase::First => !(entry is Trashed),
        UndoPhase::MakeParent => entry is Moved && parent_of(entry->from) is Some,
        UndoPhase::MoveBack => entry is Moved,
        UndoPhase::LookInto => entry is CreatedDir,
        UndoPhase::Remove => entry is CreatedDir,
    }
}

impl UndoModel {
    /// An undo that has done nothing.
    pub open spec fn start(entries: Seq<EntryModel>) -> UndoModel {
        (UndoModel {
            entries,
            left: entries.len() as int,
            phase: UndoPhase::First,
            report: ReportModel { reversed: 0, modified: seq![], other: seq![] },
            error: None,
        }).settled()
    }

    /// Whether the phase is one of the current change.
    pub open spec fn is_valid(self) -> bool {
        &&& 0 <= self.left <= self.entries.len()
        &&& 0 <= self.report.reversed <= self.entries.len() - self.left
        &&& self.left > 0 ==> undo_fits(self.entries[self.left - 1], self.phase)
    }

    /// The state with a path left as it was.
    pub open spec fn skipped(self, path: Seq<u8>, reason: Seq<char>) -> UndoModel {
        UndoModel {
            left: self.left - 1,
            phase: UndoPhase::First,
            report: ReportModel {
                other: self.report.other.push(SkipModel { path, reason }),
                ..self.report
            },
            ..self
        }
    }

    /// The state once the changes that cannot be undone are passed over: what is
    /// in the trash is not restored.
    pub open spec fn settled(self) -> UndoModel
        decreases self.left,
    {
        if self.left <= 0 {
            self
        } else {
            match self.entries[self.left - 1] {
                EntryModel::Trashed { original, .. } => self.skipped(
                    original,
                    "trash restore not implemented"@,
                ).settled(),
                _ => self,
            }
        }
    }

    /// What is to be asked next. Nothing once all changes are dealt with or the
    /// undo has failed.
    pub open spec fn request(self) -> Option<RequestModel> {
        if self.error is Some || self.left <= 0 {
            None
        } else {
            match self.entries[self.left - 1] {
                EntryModel::Moved { from, to, .. } => match self.phase {
                    UndoPhase::MakeParent => Some(RequestModel::CreateDirs(parent_of(from)->0)),
                    UndoPhase::MoveBack => Some(RequestModel::Rename(to, from)),
                    _ => Some(RequestModel::Mtime(to)),
                },
                EntryModel::CreatedDir { path } => match self.phase {
                    UndoPhase::LookInto => Some(RequestModel::ReadDir(path)),
                    UndoPhase::Remove => Some(RequestModel::RemoveDir(path)),
                    _ => Some(RequestModel::Exists(path)),
                },
                EntryModel::Trashed { .. } => None,
            }
        }
    }

    /// Whether the undo can go on with a reply.
    pub open spec fn accepts(self, reply: ReplyModel) -> bool {
        self.request() is Some && replies_to(self.request()->0, reply)
    }

    /// The next phase of the current change.
    pub open spec fn in_phase(self, phase: UndoPhase) -> UndoModel {
        UndoModel { phase, ..self }
    }

    /// The current change is dealt with.
    pub open spec fn passed(self) -> UndoModel {
        UndoModel { left: self.left - 1, phase: UndoPhase::First, ..self }
    }

    /// The current change is undone.
    pub open spec fn reversed(self) -> UndoModel {
        UndoModel {
            left: self.left - 1,
            phase: UndoPhase::First,
            report: ReportModel { reversed: self.report.reversed + 1, ..self.report },
            ..self
        }
    }

    /// The file of the current change was modified since.
    pub open spec fn found_modified(self, path: Seq<u8>) -> UndoModel {
        UndoModel {
            left: self.left - 1,
            phase: UndoPhase::First,
            report: ReportModel { modified: self.report.modified.push(path), ..self.report },
            ..self
        }
    }

    /// What a reply leads to.
    pub open spec fn replied(self, reply: ReplyModel) -> UndoModel {
        match self.entries[self.left - 1] {
            EntryModel::Moved { from, to, mtime } => match self.phase {
                UndoPhase::MakeParent => self.in_phase(UndoPhase::MoveBack),
                UndoPhase::MoveBack => match reply {
                    ReplyModel::Failed(message) => self.skipped(to, message),
                    _ => self.reversed(),
                },
                _ => match reply {
                    ReplyModel::Time(Some(t)) => if t != mtime {
                        self.found_modified(to)
                    } else if parent_of(from) is Some {
                        self.in_phase(UndoPhase::MakeParent)
                    } else {
                        self.in_phase(UndoPhase::MoveBack)
                    },
                    _ => self.skipped(to, "missing"@),
                },
            },
            EntryModel::CreatedDir { path } => match self.phase {
                UndoPhase::LookInto => match reply {
                    ReplyModel::Failed(message) => UndoModel { error: Some(message), ..self },
                    ReplyModel::Empty(true) => self.in_phase(UndoPhase::Remove),
                    _ => self.skipped(path, "dir not empty"@),
                },
                UndoPhase::Remove => match reply {
                    ReplyModel::Failed(_) => self.passed(),
                    _ => self.reversed(),
                },
                _ => match reply {
                    ReplyModel::Found(true) => self.in_phase(UndoPhase::LookInto),
                    _ => self.passed(),
                },
            },
            _ => self,
        }
    }

    /// The state after a reply.
    pub open spec fn answered(self, reply: ReplyModel) -> UndoModel {
        let next = self.replied(reply);
        if next.phase == UndoPhase::First {
            next.settled()
        } else {
            next
        }
    }
}

/// A log that is being undone.
#[derive(Debug)]
pub struct Undoing {
    pub entries: Vec<UndoEntry>,
    pub left: usize,
    pub phase: UndoPhase,
    pub report: UndoReport,
    pub error: Option<String>,
}

impl View for Undoing {
    type V = UndoModel;

    open spec fn view(&self) -> UndoModel {
        UndoModel {
            entries: undo_models(self.entries@),
            left: self.left as int,
            phase: self.phase,
            report: self.report@,
            error: match self.error {
                Some(m) => Some(m@),
                None => None,
            },
        }
    }
}

/// Starts to undo the changes of a log, the last first.
pub fn undo(log: &UndoLog) -> (r: Undoing)
    ensures
        r@ == UndoModel::start(undo_models(log.entries@)),
        r@.is_valid(),
{
    let entries = clone_entries(&log.entries);
    let left: usize = entries.len();
    let mut r = Undoing {
        entries,
        left,
        phase: UndoPhase::First,
        report: UndoReport::default(),
        error: None,
    };
    r.settle();
    r
}

impl Undoing {
    /// Leaves the path of the current change as it is.
    fn skip(&mut self, path: FilePath, reason: &str)
        requires
            old(self).left > 0,
        ensures
            final(self)@ == old(self)@.skipped(path@, reason@),
            final(self).entries@ == old(self).entries@,
    {
        let ghost before = self.report.skipped_other@;
        let mut text = String::new();
        text.append(reason);
        assert(text@ =~= reason@);
        let ghost skip = SkipModel { path: path@, reason: text@ };
        self.report.skipped_other.push((path, text));
        self.left = self.left - 1;
        self.phase = UndoPhase::First;
        assert(skip_models(self.report.skipped_other@) =~= skip_models(before).push(skip));
    }

    /// Passes over the changes that cannot be undone.
    fn settle(&mut self)
        requires
            0 <= old(self).left <= old(self).entries@.len(),
            old(self).phase == UndoPhase::First,
            0 <= old(self)@.report.reversed <= old(self).entries@.len() - old(self).left,
        ensures
            final(self)@ == old(self)@.settled(),
            final(self)@.is_valid(),
    {
        let ghost start = self@;
        while self.left > 0
            invariant
                self.left <= self.entries@.len(),
                self.phase == UndoPhase::First,
                0 <= self@.report.reversed <= self.entries@.len() - self.left,
                self@.settled() == start.settled(),
            ensures
                self.left <= self.entries@.len(),
                self.phase == UndoPhase::First,
                0 <= self@.report.reversed <= self.entries@.len() - self.left,
                self@.settled() == start.settled(),
                self.left > 0 ==> !(self@.entries[self.left - 1] is Trashed),
            decreases self.left,
        {
            assert(self@.entries[self.left - 1] == self.entries@[self.left - 1]@);
            let original = match &self.entries[self.left - 1] {
                UndoEntry::Trashed { original, .. } => original.clone(),
                _ => {
                    break ;
                },
            };
            self.skip(original, "trash restore not implemented");
        }
    }

    /// What is to be asked next.
    pub fn request(&self) -> (r: Option<FsRequest>)
        requires
            self@.is_valid(),
        ensures
            match r {
                Some(q) => self@.request() == Some(q@),
                None => self@.request() is None,
            },
    {
        if self.error.is_some() || self.left == 0 {
            return None;
        }
        assert(self@.entries[self.left - 1] == self.entries@[self.left - 1]@);
        match &self.entries[self.left - 1] {
            UndoEntry::Moved { from, to, .. } => match self.phase {
                UndoPhase::MakeParent => match from.parent() {
                    Some(parent) => Some(FsRequest::CreateDirs(parent)),
                    None => {
                        assert(false);
                        None
                    },
                },
                UndoPhase::MoveBack => Some(FsRequest::Rename(to.clone(), from.clone())),
                _ => Some(FsRequest::Mtime(to.clone())),
            },
            UndoEntry::CreatedDir { path } => match self.phase {
                UndoPhase::LookInto => Some(FsRequest::ReadDir(path.clone())),
                UndoPhase::Remove => Some(FsRequest::RemoveDir(path.clone())),
                _ => Some(FsRequest::Exists(path.clone())),
            },
            UndoEntry::Trashed { .. } => None,
        }
    }

    /// Whether the undo can go on with a reply.
    pub fn accepts(&self, reply: &FsReply) -> (r: bool)
        requires
            self@.is_valid(),
        ensures
            r == self@.accepts(reply@),
    {
        match self.request() {
            Some(q) => is_reply_to(&q, reply),
            None => false,
        }
    }

    /// Goes on with a reply.
    pub fn answer(&mut self, reply: FsReply)
        requires
            old(self)@.is_valid(),
            old(self)@.accepts(reply@),
        ensures
            final(self)@ == old(self)@.answered(reply@),
            final(self)@.is_valid(),
    {
        let ghost start = self@;
        let ghost modified = self.report.skipped_modified@;
        assert(self@.entries[self.left - 1] == self.entries@[self.left - 1]@);
        let total: usize = self.entries.len();
        match &self.entries[self.left - 1] {
            UndoEntry::Moved { from, to, mtime } => match self.phase {
                UndoPhase::MakeParent => {
                    self.phase = UndoPhase::MoveBack;
                },
                UndoPhase::MoveBack => match reply {
                    FsReply::Failed(message) => {
                        let path = to.clone();
                        self.skip(path, message.as_str());
                    },
                    _ => {
                        self.report.reversed = self.report.reversed + 1;
                        self.left = self.left - 1;
                        self.phase = UndoPhase::First;
                    },
                },
                _ => match reply {
                    FsReply::Time(Some(t)) => {
                        if t != *mtime {
                            let path = to.clone();
                            self.report.skipped_modified.push(path);
                            self.left = self.left - 1;
                            self.phase = UndoPhase::First;
                            assert(path_bytes(self.report.skipped_modified@) =~= path_bytes(
                                modified,
                            ).push(path@));
                        } else if from.parent().is_some() {
                            self.phase = UndoPhase::MakeParent;
                        } else {
                            self.phase = UndoPhase::MoveBack;
                        }
                    },
                    _ => {
                        let path = to.clone();
                        self.skip(path, "missing");
                    },
                },
            },
            UndoEntry::CreatedDir { path } => match self.phase {
                UndoPhase::LookInto => match reply {
                    FsReply::Failed(message) => {
                        self.error = Some(message);
                    },
                    FsReply::Empty(true) => {
                        self.phase = UndoPhase::Remove;
                    },
                    _ => {
                        let path = path.clone();
                        self.skip(path, "dir not empty");
                    },
                },
                UndoPhase::Remove => match reply {
                    FsReply::Failed(_) => {
                        self.left = self.left - 1;
                        self.phase = UndoPhase::First;
                    },
                    _ => {
                        self.report.reversed = self.report.reversed + 1;
                        self.left = self.left - 1;
                        self.phase = UndoPhase::First;
                    },
                },
                _ => match reply {
                    FsReply::Found(true) => {
                        self.phase = UndoPhase::LookInto;
                    },
                    _ => {
                        self.left = self.left - 1;
                        self.phase = UndoPhase::First;
                    },
                },
            },
            UndoEntry::Trashed { .. } => {},
        }
        assert(self@ == start.replied(reply@));
        if self.phase == UndoPhase::First {
            self.settle();
        }
    }

    /// The report of an undo that has come to its end, or the message of the
    /// failure that ended it.
    pub fn finish(self) -> (r: Result<UndoReport, String>)
        requires
            self@.is_valid(),
            self@.request() is None,
        ensures
            match r {
                Ok(report) => self@.error is None && report@ == self@.report,
                Err(m) => self@.error == Some(m@),
            },
    {
        match self.error {
            Some(m) => Err(m),
            None => Ok(self.report),
        }
    }
}

/// The folder that files are folded into stands beside the first of them, under the
/// given name. There is none just when no file is given, or the first one is the
/// root or empty.
pub proof fn folders_stand_beside_the_first_file(files: Seq<Seq<u8>>, folder_name: Seq<char>)
    ensures
        fold_target(files, folder_name) is None <==> files.len() == 0 || components(files[0]).len()
            == 0 || components(files[0]) == seq![seq![47u8]],
        fold_target(files, folder_name) is Some && is_piece(encode_utf8(folder_name))
            ==> components(fold_target(files, folder_name)->0) == components(
            files[0],
        ).drop_last().push(encode_utf8(folder_name)),
{
    if files.len() > 0 {
        the_parent_lacks_the_last_component(files[0]);
        if parent_of(files[0]) is Some {
            joining_adds_a_component(parent_of(files[0])->0, encode_utf8(folder_name));
        }
    }
}

/// The bytes of a decimal number hold no slash.
proof fn lemma_decimal_bytes(n: nat)
    ensures
        !digit_bytes(digits(n)).contains(47u8),
{
    digits_spell_the_number(n);
    let b = digit_bytes(digits(n));
    if b.contains(47u8) {
        let k = choose|k: int| 0 <= k < b.len() && b[k] == 47u8;
        assert(digits(n)[k] < 10);
    }
}

/// A numbered name stands in the same folder. A low line and the number in decimal
/// come behind the stem, and the extension stays. Names that are valid UTF-8, which
/// stand for themselves, are kept as they are.
pub proof fn numbers_come_behind_the_stem(base: Seq<u8>, stem: Seq<u8>, ending: Seq<u8>, n: nat)
    requires
        stem.len() > 0,
        !stem.contains(47u8),
        !ending.contains(47u8),
        utf8_lossy(stem) == stem,
        utf8_lossy(ending) == ending,
        n <= u64::MAX,
    ensures
        !ending.contains(46u8) && stem.push(46u8) + ending != seq![46u8, 46u8] ==> components(
            numbered(joined(base, stem.push(46u8) + ending), n as int),
        ) == components(base).push(
            stem.push(95u8) + digit_bytes(digits(n)) + seq![46u8] + ending,
        ),
        (forall|k: int| 0 < k < stem.len() ==> stem[k] != 46u8) && stem != seq![46u8]
            ==> components(numbered(joined(base, stem), n as int)) == components(base).push(
            stem.push(95u8) + digit_bytes(digits(n)),
        ),
{
    lemma_decimal_bytes(n);
    let number = digit_bytes(digits(n));
    if !ending.contains(46u8) && stem.push(46u8) + ending != seq![46u8, 46u8] {
        let name = stem.push(46u8) + ending;
        let new = stem.push(95u8) + number + seq![46u8] + ending;
        assert(name[stem.len() as int] == 46u8);
        a_name_is_stem_dot_extension(name);
        let e = extension_of(name)->0;
        let s = stem_of(name);
        assert(s == stem && e == ending) by {
            assert(name == s.push(46u8) + e);
            if s.len() < stem.len() {
                assert(name[stem.len() as int] == e[stem.len() - s.len() - 1]);
                assert(e.contains(46u8));
            }
            if s.len() > stem.len() {
                assert(name[s.len() as int] == 46u8);
                assert(name[s.len() as int] == ending[s.len() - stem.len() - 1]);
                assert(ending.contains(46u8));
            }
            assert(s =~= name.take(stem.len() as int));
            assert(stem =~= name.take(stem.len() as int));
            assert(e =~= name.skip(stem.len() as int + 1));
            assert(ending =~= name.skip(stem.len() as int + 1));
        }
        assert(stem + seq![95u8] + number + (seq![46u8] + ending) =~= new);
        lemma_numbered(base, name, new, n);
    }
    if (forall|k: int| 0 < k < stem.len() ==> stem[k] != 46u8) && stem != seq![46u8] {
        let new = stem.push(95u8) + number;
        a_name_is_stem_dot_extension(stem);
        assert(stem != seq![46u8, 46u8]) by {
            if stem == seq![46u8, 46u8] {
                assert(stem[1] == 46u8);
            }
        }
        assert(stem + seq![95u8] + number + seq![] =~= new);
        lemma_numbered(base, stem, new, n);
    }
}

/// Where a numbered name stands.
proof fn lemma_numbered(base: Seq<u8>, name: Seq<u8>, new: Seq<u8>, n: nat)
    requires
        name.len() > 0,
        name != seq![46u8],
        name != seq![46u8, 46u8],
        !name.contains(47u8),
        utf8_lossy(stem_of(name)) == stem_of(name),
        extension_of(name) is Some ==> utf8_lossy(extension_of(name)->0) == extension_of(name)->0,
        new == stem_of(name) + seq![95u8] + digit_bytes(digits(n)) + match extension_of(name) {
            Some(e) => seq![46u8] + e,
            None => seq![],
        },
    ensures
        components(numbered(joined(base, name), n as int)) == components(base).push(new),
{
    let desired = joined(base, name);
    joining_adds_a_component(base, name);
    the_name_is_the_last_component(desired);
    the_parent_lacks_the_last_component(desired);
    a_name_is_stem_dot_extension(name);
    lemma_decimal_bytes(n);
    let c = components(desired);
    assert(c.last() == name);
    assert(name != seq![47u8]) by {
        if name == seq![47u8] {
            assert(name[0] == 47u8);
        }
    }
    assert(c != seq![seq![47u8]]) by {
        if c == seq![seq![47u8]] {
            assert(c.last() == seq![47u8]);
        }
    }
    assert(c.drop_last() =~= components(base));
    let number = digit_bytes(digits(n));
    let s = stem_of(name);
    assert(new[s.len() as int] == 95u8);
    assert(!new.contains(47u8)) by {
        if new.contains(47u8) {
            let k = choose|k: int| 0 <= k < new.len() && new[k] == 47u8;
            if k < s.len() {
                assert(name[k] == s[k]);
                assert(name.contains(47u8));
            } else if k > s.len() && k < s.len() + 1 + number.len() {
                assert(number[k - s.len() - 1] == 47u8);
                assert(number.contains(47u8));
            } else if k > s.len() {
                let e = extension_of(name)->0;
                let m = k - s.len() - 1 - number.len();
                assert(m > 0);
                assert(e[m - 1] == 47u8);
                assert(name[s.len() + m] == e[m - 1]);
                assert(name.contains(47u8));
            }
        }
    }
    assert(new != seq![46u8]) by {
        if new == seq![46u8] {
            assert(new[0] == 46u8);
        }
    }
    assert(is_piece(new));
    joining_adds_a_component(parent_of(desired)->0, new);
    assert(DOT == 46u8);
}

/// The time of a log's name, and where it stands in the name.
pub proof fn logs_are_named_by_their_time(created_at: int)
    ensures
        log_name(created_at).len() == timestamp(created_at).len() + 10,
        log_name(created_at).subrange(5, 5 + timestamp(created_at).len() as int) == timestamp(created_at),
        log_name(created_at).take(5) == seq!['u', 'n', 'd', 'o', '-'],
        log_name(created_at).skip(5 + timestamp(created_at).len() as int) == seq![
            '.',
            'j',
            's',
            'o',
            'n',
        ],
{
    reveal_strlit("undo-");
    reveal_strlit(".json");
    let name = log_name(created_at);
    assert(name.subrange(5, 5 + timestamp(created_at).len() as int) =~= timestamp(created_at));
    assert(name.take(5) =~= seq!['u', 'n', 'd', 'o', '-']);
    assert(name.skip(5 + timestamp(created_at).len() as int) =~= seq!['.', 'j', 's', 'o', 'n']);
}

/// Each request has replies of its own kind: a time, whether something was found,
/// whether a directory is empty or why it cannot be read, and for the others that
/// it was done or why not.
pub proof fn replies_are_of_the_kind_asked_for(path: Seq<u8>, other: Seq<u8>, reply: ReplyModel)
    ensures
        replies_to(RequestModel::Mtime(path), reply) <==> reply is Time,
        replies_to(RequestModel::Exists(path), reply) <==> reply is Found,
        replies_to(RequestModel::ReadDir(path), reply) <==> reply is Empty || reply is Failed,
        replies_to(RequestModel::Trash(path), reply) <==> reply is Done || reply is Failed,
        replies_to(RequestModel::CreateDirs(path), reply) <==> reply is Done || reply is Failed,
        replies_to(RequestModel::Rename(path, other), reply) <==> reply is Done || reply is Failed,
        replies_to(RequestModel::RemoveDir(path), reply) <==> reply is Done || reply is Failed,
{
}

/// Each step begins by looking: at the time of what is to be trashed, for the folder
/// that is to be made, or for something that stands where a file is to be moved.
pub proof fn each_step_begins_by_looking(m: ExecutionModel)
    requires
        m.is_valid(),
        m.aborted is None,
        m.at < m.steps.len(),
        m.phase is First,
    ensures
        match m.steps[m.at] {
            StepModel::Trash { path, .. } => m.request() == Some(RequestModel::Mtime(path)),
            StepModel::EnsureDir { path, .. } => m.request() == Some(RequestModel::Exists(path)),
            StepModel::Move { to, .. } => m.request() == Some(RequestModel::Exists(to)),
            StepModel::NoParent { .. } => m.request() is None,
            StepModel::NoFileName { .. } => m.request() is None,
        },
{
}

/// A reply leads on to what comes next: after the look at a file it is trashed or
/// moved, whatever its time is; a folder is made only if it is not there; the next
/// number is tried for a name that is taken, and a free name is moved to. What is
/// done leads on to the next step, and what fails leads to nothing more.
pub proof fn each_reply_leads_on(m: ExecutionModel, reply: ReplyModel, later: ReplyModel)
    requires
        m.is_valid(),
        m.accepts(reply),
        later is Time || later is Failed,
    ensures
        ({
            let next = m.answered(reply);
            let done = next.at == m.at + 1 && next.phase is First && next.aborted is None;
            &&& next.steps == m.steps
            &&& match (m.steps[m.at], m.request()->0) {
                (StepModel::Trash { path, .. }, RequestModel::Mtime(_)) => next.at == m.at
                    && next.request() == Some(RequestModel::Trash(path)),
                (StepModel::Trash { path, .. }, RequestModel::Trash(p)) => p == path && if reply
                    is Failed {
                    next.request() is None
                } else {
                    done
                },
                (StepModel::EnsureDir { path, .. }, RequestModel::Exists(_)) => if reply
                    == ReplyModel::Found(true) {
                    done
                } else {
                    next.at == m.at && next.request() == Some(RequestModel::CreateDirs(path))
                },
                (StepModel::EnsureDir { path, .. }, RequestModel::CreateDirs(p)) => p == path
                    && if reply is Failed {
                    next.request() is None
                } else {
                    done
                },
                (StepModel::Move { from, to, .. }, RequestModel::Exists(p)) => if reply
                    == ReplyModel::Found(true) {
                    &&& next.at == m.at
                    &&& p == to && m.phase is First ==> next.request() == Some(
                        RequestModel::Exists(numbered(to, 1)),
                    )
                    &&& forall|n: int|
                        m.phase == (PhaseModel::TryName { n }) ==> p == numbered(to, n)
                            && next.request() == Some(
                            RequestModel::Exists(#[trigger] numbered(to, n + 1)),
                        )
                } else {
                    &&& next.at == m.at
                    &&& next.request() == Some(RequestModel::Mtime(from))
                    &&& next.answered(later).at == m.at
                    &&& next.answered(later).request() == Some(RequestModel::Rename(from, p))
                },
                (StepModel::Move { from, .. }, RequestModel::Mtime(p)) => p == from && next.at
                    == m.at && next.request() is Some && next.request()->0 is Rename
                    && next.request()->0->Rename_0 == from,
                (StepModel::Move { from, .. }, RequestModel::Rename(p, _)) => p == from
                    && if reply is Failed {
                    next.request() is None
                } else {
                    done
                },
                _ => false,
            }
        }),
{
}

/// A reply of the kind that was asked for is taken, unless it says that the name with
/// the last number is taken too.
pub proof fn replies_of_the_kind_asked_for_are_taken(m: ExecutionModel, reply: ReplyModel)
    requires
        m.is_valid(),
        m.request() is Some,
        replies_to(m.request()->0, reply),
    ensures
        m.accepts(reply) || reply == ReplyModel::Found(true) && m.steps[m.at] is Move
            && m.request()->0 == RequestModel::Exists(
            numbered(m.steps[m.at]->to, 2147483646),
        ),
{
}

} // verus!
