//! Groups of files, the action chosen for each, and plans of actions.

use vstd::prelude::*;
use crate::paths::{clone_paths, path_bytes, FilePath};

verus! {

/// Why the files of a group belong together.
#[derive(Debug, Clone, Copy, PartialEq, Eq, Structural)]
pub enum GroupKind {
    Duplicate,
    NameCluster,
    DuplicateDir,
}

/// A member of a group.
#[derive(Debug)]
pub struct GroupFile {
    pub path: FilePath,
    pub size: u64,
}

/// Files that belong together, and what to do about them.
#[derive(Debug)]
pub struct Group {
    pub kind: GroupKind,
    pub files: Vec<GroupFile>,
    pub label: String,
    pub suggested: Action,
}

/// What to do with a group.
#[derive(Debug, PartialEq, Eq)]
pub enum Action {
    KeepOne { keep: FilePath, trash: Vec<FilePath> },
    DeleteAll { trash: Vec<FilePath> },
    FoldIntoFolder { folder_name: String, files: Vec<FilePath> },
    Ignore,
}

/// Actions to carry out in order, or only to show.
#[derive(Debug, PartialEq, Eq)]
pub struct Plan {
    pub actions: Vec<Action>,
    pub dry_run: bool,
}

/// A group member as a value.
#[verifier::ext_equal]
pub struct GroupFileModel {
    pub path: Seq<u8>,
    pub size: u64,
}

/// An action as a value.
#[verifier::ext_equal]
pub enum ActionModel {
    KeepOne { keep: Seq<u8>, trash: Seq<Seq<u8>> },
    DeleteAll { trash: Seq<Seq<u8>> },
    FoldIntoFolder { folder_name: Seq<char>, files: Seq<Seq<u8>> },
    Ignore,
}

/// A group as a value.
#[verifier::ext_equal]
pub struct GroupModel {
    pub kind: GroupKind,
    pub files: Seq<GroupFileModel>,
    pub label: Seq<char>,
    pub suggested: ActionModel,
}

/// A plan as a value.
#[verifier::ext_equal]
pub struct PlanModel {
    pub actions: Seq<ActionModel>,
    pub dry_run: bool,
}

impl View for GroupFile {
    type V = GroupFileModel;

    open spec fn view(&self) -> GroupFileModel {
        GroupFileModel { path: self.path@, size: self.size }
    }
}

/// The members of a list as values.
pub open spec fn file_models(files: Seq<GroupFile>) -> Seq<GroupFileModel> {
    Seq::new(files.len(), |i: int| files[i]@)
}

impl View for Action {
    type V = ActionModel;

    open spec fn view(&self) -> ActionModel {
        match self {
            Action::KeepOne { keep, trash } => ActionModel::KeepOne {
                keep: keep@,
                trash: path_bytes(trash@),
            },
            Action::DeleteAll { trash } => ActionModel::DeleteAll { trash: path_bytes(trash@) },
            Action::FoldIntoFolder { folder_name, files } => ActionModel::FoldIntoFolder {
                folder_name: folder_name@,
                files: path_bytes(files@),
            },
            Action::Ignore => ActionModel::Ignore,
        }
    }
}

/// The actions of a list as values.
pub open spec fn action_models(actions: Seq<Action>) -> Seq<ActionModel> {
    Seq::new(actions.len(), |i: int| actions[i]@)
}

impl View for Group {
    type V = GroupModel;

    open spec fn view(&self) -> GroupModel {
        GroupModel {
            kind: self.kind,
            files: file_models(self.files@),
            label: self.label@,
            suggested: self.suggested@,
        }
    }
}

/// The groups of a list as values.
pub open spec fn group_models(groups: Seq<Group>) -> Seq<GroupModel> {
    Seq::new(groups.len(), |i: int| groups[i]@)
}

impl View for Plan {
    type V = PlanModel;

    open spec fn view(&self) -> PlanModel {
        PlanModel { actions: action_models(self.actions@), dry_run: self.dry_run }
    }
}

impl Clone for GroupFile {
    fn clone(&self) -> (r: Self)
        ensures
            r@ == self@,
    {
        GroupFile { path: self.path.clone(), size: self.size }
    }
}

impl Clone for Action {
    fn clone(&self) -> (r: Self)
        ensures
            r@ == self@,
    {
        match self {
            Action::KeepOne { keep, trash } => Action::KeepOne {
                keep: keep.clone(),
                trash: clone_paths(trash),
            },
            Action::DeleteAll { trash } => Action::DeleteAll { trash: clone_paths(trash) },
            Action::FoldIntoFolder { folder_name, files } => Action::FoldIntoFolder {
                folder_name: folder_name.clone(),
                files: clone_paths(files),
            },
            Action::Ignore => Action::Ignore,
        }
    }
}

impl Clone for Group {
    fn clone(&self) -> (r: Self)
        ensures
            r@ == self@,
    {
        let mut files: Vec<GroupFile> = Vec::new();
        let mut i: usize = 0;
        while i < self.files.len()
            invariant
                i <= self.files@.len(),
                files@.len() == i,
                forall|k: int| 0 <= k < i ==> (#[trigger] files@[k])@ == self.files@[k]@,
            decreases self.files@.len() - i,
        {
            files.push(self.files[i].clone());
            i = i + 1;
        }
        assert(file_models(files@) =~= file_models(self.files@));
        Group {
            kind: self.kind,
            files,
            label: self.label.clone(),
            suggested: self.suggested.clone(),
        }
    }
}

/// Copies a list of groups.
pub fn clone_groups(groups: &Vec<Group>) -> (r: Vec<Group>)
    ensures
        group_models(r@) == group_models(groups@),
{
    let mut out: Vec<Group> = Vec::new();
    let mut i: usize = 0;
    while i < groups.len()
        invariant
            i <= groups@.len(),
            out@.len() == i,
            forall|k: int| 0 <= k < i ==> (#[trigger] out@[k])@ == groups@[k]@,
        decreases groups@.len() - i,
    {
        out.push(groups[i].clone());
        i = i + 1;
    }
    assert(group_models(out@) =~= group_models(groups@));
    out
}

/// Copies a list of actions.
pub fn clone_actions(actions: &Vec<Action>) -> (r: Vec<Action>)
    ensures
        action_models(r@) == action_models(actions@),
{
    let mut out: Vec<Action> = Vec::new();
    let mut i: usize = 0;
    while i < actions.len()
        invariant
            i <= actions@.len(),
            out@.len() == i,
            forall|k: int| 0 <= k < i ==> (#[trigger] out@[k])@ == actions@[k]@,
        decreases actions@.len() - i,
    {
        out.push(actions[i].clone());
        i = i + 1;
    }
    assert(action_models(out@) =~= action_models(actions@));
    out
}

impl Clone for Plan {
    fn clone(&self) -> (r: Self)
        ensures
            r@ == self@,
    {
        Plan { actions: clone_actions(&self.actions), dry_run: self.dry_run }
    }
}

} // verus!
