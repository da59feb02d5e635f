//! The state behind the terminal UI, and what keys and progress make of it.

use vstd::prelude::*;
use crate::paths::{components, path_bytes, FilePath};
use crate::plan::{action_models, clone_groups, group_models, Action, ActionModel, Group};
use crate::plan::{GroupFileModel, GroupKind, GroupModel, Plan, PlanModel};

verus! {

/// What a scan has to tell.
#[derive(Debug)]
pub enum Progress {
    /// So many files have been met.
    Walked(usize),
    /// So many files will be hashed.
    HashStart { total: usize },
    /// So many of them have been.
    Hashed { done: usize, total: usize },
    /// These groups have been found.
    Done(Vec<Group>),
    /// The scan has failed.
    Error(String),
}

/// News of a scan as a value.
#[verifier::ext_equal]
pub enum ProgressModel {
    Walked(int),
    HashStart { total: int },
    Hashed { done: int, total: int },
    Done(Seq<GroupModel>),
    Error(Seq<char>),
}

impl View for Progress {
    type V = ProgressModel;

    open spec fn view(&self) -> ProgressModel {
        match self {
            Progress::Walked(n) => ProgressModel::Walked(*n as int),
            Progress::HashStart { total } => ProgressModel::HashStart { total: *total as int },
            Progress::Hashed { done, total } => ProgressModel::Hashed {
                done: *done as int,
                total: *total as int,
            },
            Progress::Done(groups) => ProgressModel::Done(group_models(groups@)),
            Progress::Error(e) => ProgressModel::Error(e@),
        }
    }
}

/// The news of a list as values.
pub open spec fn progress_models(news: Seq<Progress>) -> Seq<ProgressModel> {
    Seq::new(news.len(), |i: int| news[i]@)
}

impl Clone for Progress {
    fn clone(&self) -> (r: Self)
        ensures
            r@ == self@,
    {
        match self {
            Progress::Walked(n) => Progress::Walked(*n),
            Progress::HashStart { total } => Progress::HashStart { total: *total },
            Progress::Hashed { done, total } => Progress::Hashed { done: *done, total: *total },
            Progress::Done(groups) => Progress::Done(clone_groups(groups)),
            Progress::Error(e) => Progress::Error(e.clone()),
        }
    }
}

/// How far a scan has come.
#[derive(Debug)]
pub struct ScanState {
    pub walked: usize,
    pub hash_done: usize,
    pub hash_total: usize,
    pub error: Option<String>,
}

/// The state of a scan as a value.
#[verifier::ext_equal]
pub struct ScanModel {
    pub walked: int,
    pub hash_done: int,
    pub hash_total: int,
    pub error: Option<Seq<char>>,
}

impl View for ScanState {
    type V = ScanModel;

    open spec fn view(&self) -> ScanModel {
        ScanModel {
            walked: self.walked as int,
            hash_done: self.hash_done as int,
            hash_total: self.hash_total as int,
            error: match self.error {
                Some(e) => Some(e@),
                None => None,
            },
        }
    }
}

impl Clone for ScanState {
    fn clone(&self) -> (r: Self)
        ensures
            r@ == self@,
    {
        ScanState {
            walked: self.walked,
            hash_done: self.hash_done,
            hash_total: self.hash_total,
            error: match &self.error {
                Some(e) => Some(e.clone()),
                None => None,
            },
        }
    }
}

impl Default for ScanState {
    fn default() -> (r: Self)
        ensures
            r@ == (ScanModel { walked: 0, hash_done: 0, hash_total: 0, error: None }),
    {
        ScanState { walked: 0, hash_done: 0, hash_total: 0, error: None }
    }
}

/// What the UI is doing.
#[derive(Debug)]
pub enum Mode {
    Scanning(ScanState),
    Browsing,
    Failed(String),
}

/// What the UI is doing, as a value.
#[verifier::ext_equal]
pub enum ModeModel {
    Scanning(ScanModel),
    Browsing,
    Failed(Seq<char>),
}

impl View for Mode {
    type V = ModeModel;

    open spec fn view(&self) -> ModeModel {
        match self {
            Mode::Scanning(s) => ModeModel::Scanning(s@),
            Mode::Browsing => ModeModel::Browsing,
            Mode::Failed(e) => ModeModel::Failed(e@),
        }
    }
}

/// How the UI ends.
#[derive(Debug, PartialEq, Eq)]
pub enum UiOutcome {
    Quit,
    Save(Plan),
    Execute(Plan),
}

/// How the UI ends, as a value.
#[verifier::ext_equal]
pub enum OutcomeModel {
    Quit,
    Save(PlanModel),
    Execute(PlanModel),
}

impl View for UiOutcome {
    type V = OutcomeModel;

    open spec fn view(&self) -> OutcomeModel {
        match self {
            UiOutcome::Quit => OutcomeModel::Quit,
            UiOutcome::Save(p) => OutcomeModel::Save(p@),
            UiOutcome::Execute(p) => OutcomeModel::Execute(p@),
        }
    }
}

impl Clone for UiOutcome {
    fn clone(&self) -> (r: Self)
        ensures
            r@ == self@,
    {
        match self {
            UiOutcome::Quit => UiOutcome::Quit,
            UiOutcome::Save(p) => UiOutcome::Save(p.clone()),
            UiOutcome::Execute(p) => UiOutcome::Execute(p.clone()),
        }
    }
}

/// The list that is shown.
#[derive(Debug, Clone, Copy, PartialEq, Eq, Structural)]
pub enum Tab {
    Duplicates,
    Clusters,
}

/// A group in a list: the action chosen for it, whether its files are shown, and
/// which of them has the focus.
#[derive(Debug)]
pub struct Row {
    pub group_idx: usize,
    pub chosen: Action,
    pub expanded: bool,
    pub file_cursor: usize,
}

/// A row as a value.
#[verifier::ext_equal]
pub struct RowModel {
    pub group_idx: int,
    pub chosen: ActionModel,
    pub expanded: bool,
    pub file_cursor: int,
}

impl View for Row {
    type V = RowModel;

    open spec fn view(&self) -> RowModel {
        RowModel {
            group_idx: self.group_idx as int,
            chosen: self.chosen@,
            expanded: self.expanded,
            file_cursor: self.file_cursor as int,
        }
    }
}

impl Clone for Row {
    fn clone(&self) -> (r: Self)
        ensures
            r@ == self@,
    {
        Row {
            group_idx: self.group_idx,
            chosen: self.chosen.clone(),
            expanded: self.expanded,
            file_cursor: self.file_cursor,
        }
    }
}

/// The rows of a list as values.
pub open spec fn row_models(rows: Seq<Row>) -> Seq<RowModel> {
    Seq::new(rows.len(), |i: int| rows[i]@)
}

/// A key.
#[derive(Debug, Clone, Copy, PartialEq, Eq, Structural)]
pub enum KeyCode {
    Char(char),
    Esc,
    Tab,
    Down,
    Up,
    Enter,
    Other,
}

/// The keys that are held down with a key.
#[derive(Debug, Clone, Copy, PartialEq, Eq, Structural)]
pub enum KeyModifiers {
    Plain,
    /// Control and nothing else.
    Control,
    Other,
}

/// What happened to a key.
#[derive(Debug, Clone, Copy, PartialEq, Eq, Structural)]
pub enum KeyEventKind {
    Press,
    Repeat,
    Release,
}

/// Something that happened to a key.
#[derive(Debug, Clone, Copy, PartialEq, Eq, Structural)]
pub struct KeyEvent {
    pub code: KeyCode,
    pub modifiers: KeyModifiers,
    pub kind: KeyEventKind,
}

impl KeyEvent {
    /// The press of a key.
    pub fn new(code: KeyCode, modifiers: KeyModifiers) -> (r: Self)
        ensures
            r == (KeyEvent { code, modifiers, kind: KeyEventKind::Press }),
    {
        KeyEvent { code, modifiers, kind: KeyEventKind::Press }
    }
}

/// The first file from `i` on with the path `keep`, or 0 if there is none.
pub open spec fn first_at(files: Seq<GroupFileModel>, keep: Seq<u8>, i: int) -> int
    decreases files.len() - i,
{
    if i < 0 || i >= files.len() {
        0
    } else if components(files[i].path) == components(keep) {
        i
    } else {
        first_at(files, keep, i + 1)
    }
}

/// The file of a group that is suggested to be kept, or the first one.
pub open spec fn keeper_place(g: GroupModel) -> int {
    match g.suggested {
        ActionModel::KeepOne { keep, .. } => first_at(g.files, keep, 0),
        _ => 0,
    }
}

/// The file of a group that is suggested to be kept.
pub fn keeper_index(group: &Group) -> (r: usize)
    ensures
        r == keeper_place(group@),
{
    match &group.suggested {
        Action::KeepOne { keep, .. } => {
            let mut i: usize = 0;
            while i < group.files.len()
                invariant
                    i <= group.files@.len(),
                    keeper_place(group@) == first_at(group@.files, keep@, i as int),
                decreases group.files@.len() - i,
            {
                assert(group@.files[i as int] == group.files@[i as int]@);
                if group.files[i].path.same_as(keep) {
                    return i;
                }
                i = i + 1;
            }
            0
        },
        _ => 0,
    }
}

/// The action that keeps file `keeper` of a group and trashes the others.
pub open spec fn keep_file(g: GroupModel, keeper: int) -> ActionModel {
    ActionModel::KeepOne {
        keep: g.files[keeper].path,
        trash: Seq::new(g.files.len(), |i: int| g.files[i].path).remove(keeper),
    }
}

/// The action that keeps one file of a group and trashes the others.
pub fn rebuild_keep_one(group: &Group, keeper_idx: usize) -> (r: Action)
    requires
        keeper_idx < group.files@.len(),
    ensures
        r@ == keep_file(group@, keeper_idx as int),
{
    let mut trash: Vec<FilePath> = Vec::new();
    let mut j: usize = 0;
    while j < group.files.len()
        invariant
            j <= group.files@.len(),
            keeper_idx < group.files@.len(),
            trash@.len() == (if j <= keeper_idx {
                j as int
            } else {
                j - 1
            }),
            forall|m: int|
                0 <= m < trash@.len() ==> (#[trigger] trash@[m])@ == group.files@[if m
                    < keeper_idx {
                    m
                } else {
                    m + 1
                }].path@,
        decreases group.files@.len() - j,
    {
        if j != keeper_idx {
            trash.push(group.files[j].path.clone());
        }
        j = j + 1;
    }
    proof {
        let all = Seq::new(group@.files.len(), |i: int| group@.files[i].path);
        assert(path_bytes(trash@) =~= all.remove(keeper_idx as int));
        assert(group@.files[keeper_idx as int] == group.files@[keeper_idx as int]@);
    }
    Action::KeepOne { keep: group.files[keeper_idx].path.clone(), trash }
}

/// The action that follows `current`: nothing, and after that what is suggested.
pub open spec fn cycled(current: ActionModel, suggested: ActionModel) -> ActionModel {
    if current is Ignore {
        suggested
    } else {
        ActionModel::Ignore
    }
}

/// The action that follows `current`.
pub fn cycle_action(current: &Action, suggested: &Action) -> (r: Action)
    ensures
        r@ == cycled(current@, suggested@),
{
    match current {
        Action::Ignore => suggested.clone(),
        _ => Action::Ignore,
    }
}

/// The row that a group gets.
pub open spec fn fresh_row(groups: Seq<GroupModel>, i: int) -> RowModel {
    RowModel {
        group_idx: i,
        chosen: groups[i].suggested,
        expanded: false,
        file_cursor: keeper_place(groups[i]),
    }
}

/// The rows of the first `n` groups that are clusters of names, or of those that
/// are not.
pub open spec fn fresh_rows(groups: Seq<GroupModel>, n: int, clusters: bool) -> Seq<RowModel>
    decreases n,
{
    if n <= 0 {
        seq![]
    } else if (groups[n - 1].kind == GroupKind::NameCluster) == clusters {
        fresh_rows(groups, n - 1, clusters).push(fresh_row(groups, n - 1))
    } else {
        fresh_rows(groups, n - 1, clusters)
    }
}

/// The rows of a list of groups: those of duplicates and those of clusters.
fn rows_for(groups: &Vec<Group>) -> (r: (Vec<Row>, Vec<Row>))
    ensures
        row_models(r.0@) == fresh_rows(group_models(groups@), groups@.len() as int, false),
        row_models(r.1@) == fresh_rows(group_models(groups@), groups@.len() as int, true),
{
    let ghost models = group_models(groups@);
    let mut dup: Vec<Row> = Vec::new();
    let mut cluster: Vec<Row> = Vec::new();
    let mut i: usize = 0;
    assert(row_models(dup@) =~= seq![]);
    assert(row_models(cluster@) =~= seq![]);
    while i < groups.len()
        invariant
            models == group_models(groups@),
            i <= groups@.len(),
            row_models(dup@) == fresh_rows(models, i as int, false),
            row_models(cluster@) == fresh_rows(models, i as int, true),
        decreases groups@.len() - i,
    {
        let ghost before = (dup@, cluster@);
        let g = &groups[i];
        assert(models[i as int] == g@);
        let row = Row {
            group_idx: i,
            chosen: g.suggested.clone(),
            expanded: false,
            file_cursor: keeper_index(g),
        };
        assert(row@ == fresh_row(models, i as int));
        match g.kind {
            GroupKind::Duplicate | GroupKind::DuplicateDir => {
                dup.push(row);
                assert(row_models(dup@) =~= row_models(before.0).push(row@));
            },
            GroupKind::NameCluster => {
                cluster.push(row);
                assert(row_models(cluster@) =~= row_models(before.1).push(row@));
            },
        }
        i = i + 1;
    }
    (dup, cluster)
}

/// The state of the UI as a value.
#[verifier::ext_equal]
pub struct AppModel {
    pub groups: Seq<GroupModel>,
    pub rows_dup: Seq<RowModel>,
    pub rows_cluster: Seq<RowModel>,
    pub tab: Tab,
    pub selected_dup: int,
    pub selected_cluster: int,
    pub execute_allowed: bool,
    pub confirm_execute: bool,
    pub mode: ModeModel,
}

/// Whether a row points at a group, and its cursor at a file of the group, or at
/// the place of the first if there is none.
pub open spec fn is_sound_row(groups: Seq<GroupModel>, row: RowModel) -> bool {
    &&& 0 <= row.group_idx < groups.len()
    &&& 0 <= row.file_cursor
    &&& row.file_cursor < groups[row.group_idx].files.len() || row.file_cursor == 0
}

/// Whether a selected place is that of a row, or the first.
pub open spec fn is_sound_choice(rows: Seq<RowModel>, selected: int) -> bool {
    selected == 0 || 0 < selected < rows.len()
}

/// The actions of the rows that do something, in their order.
pub open spec fn active(rows: Seq<RowModel>) -> Seq<ActionModel>
    decreases rows.len(),
{
    if rows.len() == 0 {
        seq![]
    } else if rows.last().chosen is Ignore {
        active(rows.drop_last())
    } else {
        active(rows.drop_last()).push(rows.last().chosen)
    }
}

/// How many groups, files and bytes are affected.
#[verifier::ext_equal]
pub struct TotalsModel {
    pub groups: int,
    pub files: int,
    pub bytes: int,
}

/// What one row adds to the totals.
pub open spec fn row_totals(groups: Seq<GroupModel>, row: RowModel) -> TotalsModel {
    match row.chosen {
        ActionModel::Ignore => TotalsModel { groups: 0, files: 0, bytes: 0 },
        ActionModel::KeepOne { trash, .. } | ActionModel::DeleteAll { trash } => {
            let files = groups[row.group_idx].files;
            TotalsModel {
                groups: 1,
                files: trash.len() as int,
                bytes: if files.len() == 0 {
                    0
                } else {
                    files[0].size * trash.len()
                },
            }
        },
        ActionModel::FoldIntoFolder { files, .. } => TotalsModel {
            groups: 1,
            files: files.len() as int,
            bytes: 0,
        },
    }
}

/// What rows add up to.
pub open spec fn rows_totals(groups: Seq<GroupModel>, rows: Seq<RowModel>) -> TotalsModel
    decreases rows.len(),
{
    if rows.len() == 0 {
        TotalsModel { groups: 0, files: 0, bytes: 0 }
    } else {
        let t = rows_totals(groups, rows.drop_last());
        let u = row_totals(groups, rows.last());
        TotalsModel {
            groups: t.groups + u.groups,
            files: t.files + u.files,
            bytes: t.bytes + u.bytes,
        }
    }
}

impl AppModel {
    /// A UI that shows groups.
    pub open spec fn showing(groups: Seq<GroupModel>, execute_allowed: bool) -> AppModel {
        AppModel {
            groups,
            rows_dup: fresh_rows(groups, groups.len() as int, false),
            rows_cluster: fresh_rows(groups, groups.len() as int, true),
            tab: Tab::Duplicates,
            selected_dup: 0,
            selected_cluster: 0,
            execute_allowed,
            confirm_execute: false,
            mode: ModeModel::Browsing,
        }
    }

    /// A UI that waits for a scan.
    pub open spec fn scanning(execute_allowed: bool) -> AppModel {
        AppModel {
            groups: seq![],
            rows_dup: seq![],
            rows_cluster: seq![],
            tab: Tab::Duplicates,
            selected_dup: 0,
            selected_cluster: 0,
            execute_allowed,
            confirm_execute: false,
            mode: ModeModel::Scanning(
                ScanModel { walked: 0, hash_done: 0, hash_total: 0, error: None },
            ),
        }
    }

    /// Whether rows, cursors and selections point at something, and the question
    /// whether to execute is asked only where that is allowed.
    pub open spec fn is_sound(self) -> bool {
        &&& forall|i: int|
            0 <= i < self.rows_dup.len() ==> is_sound_row(self.groups, #[trigger] self.rows_dup[i])
        &&& forall|i: int|
            0 <= i < self.rows_cluster.len() ==> is_sound_row(
                self.groups,
                #[trigger] self.rows_cluster[i],
            )
        &&& is_sound_choice(self.rows_dup, self.selected_dup)
        &&& is_sound_choice(self.rows_cluster, self.selected_cluster)
        &&& self.confirm_execute ==> self.execute_allowed && self.mode is Browsing
        &&& self.mode is Scanning ==> self.selected_dup == 0 && self.selected_cluster == 0
    }

    /// The rows of the list that is shown.
    pub open spec fn rows(self) -> Seq<RowModel> {
        match self.tab {
            Tab::Duplicates => self.rows_dup,
            Tab::Clusters => self.rows_cluster,
        }
    }

    /// The selected place in the list that is shown.
    pub open spec fn selected(self) -> int {
        match self.tab {
            Tab::Duplicates => self.selected_dup,
            Tab::Clusters => self.selected_cluster,
        }
    }

    /// Whether there is a row at the selected place.
    pub open spec fn has_row(self) -> bool {
        self.selected() < self.rows().len()
    }

    /// The selected row.
    pub open spec fn row(self) -> RowModel {
        self.rows()[self.selected()]
    }

    /// The group of the selected row.
    pub open spec fn group(self) -> GroupModel {
        self.groups[self.row().group_idx]
    }

    /// The state with another place selected.
    pub open spec fn selecting(self, selected: int) -> AppModel {
        match self.tab {
            Tab::Duplicates => AppModel { selected_dup: selected, ..self },
            Tab::Clusters => AppModel { selected_cluster: selected, ..self },
        }
    }

    /// The state with another row at the selected place.
    pub open spec fn with_row(self, row: RowModel) -> AppModel {
        match self.tab {
            Tab::Duplicates => AppModel {
                rows_dup: self.rows_dup.update(self.selected_dup, row),
                ..self
            },
            Tab::Clusters => AppModel {
                rows_cluster: self.rows_cluster.update(self.selected_cluster, row),
                ..self
            },
        }
    }

    /// The plan of the rows that do something: first the duplicates, then the
    /// clusters.
    pub open spec fn plan(self, dry_run: bool) -> PlanModel {
        PlanModel { actions: active(self.rows_dup) + active(self.rows_cluster), dry_run }
    }

    /// What all rows add up to.
    pub open spec fn totals(self) -> TotalsModel {
        rows_totals(self.groups, self.rows_dup + self.rows_cluster)
    }

    /// The state after news of the scan. Only a UI that waits for it takes note.
    pub open spec fn told(self, p: ProgressModel) -> AppModel {
        match self.mode {
            ModeModel::Scanning(s) => match p {
                ProgressModel::Walked(n) => AppModel {
                    mode: ModeModel::Scanning(ScanModel { walked: n, ..s }),
                    ..self
                },
                ProgressModel::HashStart { total } => AppModel {
                    mode: ModeModel::Scanning(ScanModel { hash_total: total, hash_done: 0, ..s }),
                    ..self
                },
                ProgressModel::Hashed { done, total } => AppModel {
                    mode: ModeModel::Scanning(
                        ScanModel { hash_done: done, hash_total: total, ..s },
                    ),
                    ..self
                },
                ProgressModel::Done(groups) => AppModel {
                    groups,
                    rows_dup: fresh_rows(groups, groups.len() as int, false),
                    rows_cluster: fresh_rows(groups, groups.len() as int, true),
                    mode: ModeModel::Browsing,
                    ..self
                },
                ProgressModel::Error(e) => AppModel { mode: ModeModel::Failed(e), ..self },
            },
            _ => self,
        }
    }
}

/// Whether a key asks to quit.
pub open spec fn asks_to_quit(key: KeyEvent) -> bool {
    ||| key.code == KeyCode::Char('q')
    ||| key.code == KeyCode::Esc
    ||| key.code == KeyCode::Char('c') && key.modifiers == KeyModifiers::Control
}

impl AppModel {
    /// Whether a key reaches the lists: it was pressed, no question is open, and
    /// the groups are shown.
    pub open spec fn reaches_lists(self, key: KeyEvent) -> bool {
        key.kind == KeyEventKind::Press && !self.confirm_execute && self.mode is Browsing
    }

    /// Whether a key can be handled. A file can be marked as the one to keep only
    /// in a group that has files.
    pub open spec fn takes(self, key: KeyEvent) -> bool {
        self.reaches_lists(key) && key.code == KeyCode::Char('m') && self.has_row()
            ==> self.group().files.len() > 0
    }

    /// The state after a key that reaches the lists.
    pub open spec fn steered(self, code: KeyCode) -> AppModel {
        if code == KeyCode::Tab {
            AppModel {
                tab: match self.tab {
                    Tab::Duplicates => Tab::Clusters,
                    Tab::Clusters => Tab::Duplicates,
                },
                ..self
            }
        } else if code == KeyCode::Down || code == KeyCode::Char('j') {
            if self.selected() + 1 < self.rows().len() {
                self.selecting(self.selected() + 1)
            } else {
                self
            }
        } else if code == KeyCode::Up || code == KeyCode::Char('k') {
            if self.selected() > 0 {
                self.selecting(self.selected() - 1)
            } else {
                self
            }
        } else if code == KeyCode::Char('x') {
            AppModel { confirm_execute: self.execute_allowed, ..self }
        } else if !self.has_row() {
            self
        } else if code == KeyCode::Enter {
            self.with_row(RowModel { expanded: !self.row().expanded, ..self.row() })
        } else if code == KeyCode::Char('a') || code == KeyCode::Char(' ') {
            self.with_row(
                RowModel { chosen: cycled(self.row().chosen, self.group().suggested), ..self.row() },
            )
        } else if code == KeyCode::Char('J') {
            if self.row().expanded && self.row().file_cursor + 1 < self.group().files.len() {
                self.with_row(RowModel { file_cursor: self.row().file_cursor + 1, ..self.row() })
            } else {
                self
            }
        } else if code == KeyCode::Char('K') {
            if self.row().expanded && self.row().file_cursor > 0 {
                self.with_row(RowModel { file_cursor: self.row().file_cursor - 1, ..self.row() })
            } else {
                self
            }
        } else if code == KeyCode::Char('m') {
            self.with_row(
                RowModel { chosen: keep_file(self.group(), self.row().file_cursor), ..self.row() },
            )
        } else {
            self
        }
    }

    /// The state after a key.
    pub open spec fn after_key(self, key: KeyEvent) -> AppModel {
        if key.kind != KeyEventKind::Press {
            self
        } else if self.confirm_execute {
            let code = key.code;
            if code == KeyCode::Char('y') || code == KeyCode::Char('Y') || code == KeyCode::Char('n')
                || code == KeyCode::Char('N') || code == KeyCode::Esc {
                AppModel { confirm_execute: false, ..self }
            } else {
                self
            }
        } else if !(self.mode is Browsing) || asks_to_quit(key) {
            self
        } else {
            self.steered(key.code)
        }
    }

    /// How a key ends the UI, if it does.
    pub open spec fn outcome(self, key: KeyEvent) -> Option<OutcomeModel> {
        if key.kind != KeyEventKind::Press {
            None
        } else if self.confirm_execute {
            if key.code == KeyCode::Char('y') || key.code == KeyCode::Char('Y') {
                Some(OutcomeModel::Execute(self.plan(false)))
            } else {
                None
            }
        } else if asks_to_quit(key) || self.mode is Failed {
            Some(OutcomeModel::Quit)
        } else if self.mode is Browsing && key.code == KeyCode::Char('w') {
            Some(OutcomeModel::Save(self.plan(true)))
        } else {
            None
        }
    }

    /// The path that a key opens in the system, if it does: the focused file of
    /// the selected row.
    pub open spec fn opens(self, key: KeyEvent) -> Option<Seq<u8>> {
        if self.reaches_lists(key) && key.code == KeyCode::Char('o') && self.has_row()
            && self.row().file_cursor < self.group().files.len() {
            Some(self.group().files[self.row().file_cursor].path)
        } else {
            None
        }
    }
}

/// The state of the UI.
#[derive(Debug)]
pub struct App {
    pub groups: Vec<Group>,
    pub rows_dup: Vec<Row>,
    pub rows_cluster: Vec<Row>,
    pub tab: Tab,
    pub selected_dup: usize,
    pub selected_cluster: usize,
    pub execute_allowed: bool,
    pub confirm_execute: bool,
    pub mode: Mode,
}

impl View for App {
    type V = AppModel;

    open spec fn view(&self) -> AppModel {
        AppModel {
            groups: group_models(self.groups@),
            rows_dup: row_models(self.rows_dup@),
            rows_cluster: row_models(self.rows_cluster@),
            tab: self.tab,
            selected_dup: self.selected_dup as int,
            selected_cluster: self.selected_cluster as int,
            execute_allowed: self.execute_allowed,
            confirm_execute: self.confirm_execute,
            mode: self.mode@,
        }
    }
}

/// The first file with the path to keep is a file of the list, or the place of
/// the first.
proof fn lemma_first_at(files: Seq<GroupFileModel>, keep: Seq<u8>, i: int)
    requires
        0 <= i,
    ensures
        first_at(files, keep, i) == 0 || 0 <= first_at(files, keep, i) < files.len(),
    decreases files.len() - i,
{
    if i < files.len() && components(files[i].path) != components(keep) {
        lemma_first_at(files, keep, i + 1);
    }
}

/// Fresh rows are sound.
proof fn lemma_fresh_rows(groups: Seq<GroupModel>, n: int, clusters: bool)
    requires
        0 <= n <= groups.len(),
    ensures
        forall|i: int|
            0 <= i < fresh_rows(groups, n, clusters).len() ==> is_sound_row(
                groups,
                #[trigger] fresh_rows(groups, n, clusters)[i],
            ),
    decreases n,
{
    if n > 0 {
        lemma_fresh_rows(groups, n - 1, clusters);
        match groups[n - 1].suggested {
            ActionModel::KeepOne { keep, .. } => {
                lemma_first_at(groups[n - 1].files, keep, 0);
            },
            _ => {},
        }
        let rows = fresh_rows(groups, n, clusters);
        let before = fresh_rows(groups, n - 1, clusters);
        assert forall|i: int| 0 <= i < rows.len() implies is_sound_row(groups, #[trigger] rows[i]) by {
            if i < before.len() {
                assert(rows[i] == before[i]);
            } else {
                assert(rows[i] == fresh_row(groups, n - 1));
            }
        }
    }
}

/// Appends the actions of the rows that do something.
fn push_active(actions: &mut Vec<Action>, rows: &Vec<Row>)
    ensures
        action_models(final(actions)@) == action_models(old(actions)@) + active(
            row_models(rows@),
        ),
{
    let ghost before = actions@;
    let ghost models = row_models(rows@);
    let mut i: usize = 0;
    assert(active(models.take(0)) =~= seq![]);
    assert(action_models(actions@) =~= action_models(before) + active(models.take(0)));
    while i < rows.len()
        invariant
            models == row_models(rows@),
            i <= rows@.len(),
            action_models(actions@) == action_models(before) + active(models.take(i as int)),
        decreases rows@.len() - i,
    {
        let ghost mid = actions@;
        proof {
            assert(models.take(i + 1).drop_last() =~= models.take(i as int));
            assert(models.take(i + 1).last() == rows@[i as int]@);
        }
        match &rows[i].chosen {
            Action::Ignore => {},
            chosen => {
                actions.push(chosen.clone());
                assert(action_models(actions@) =~= action_models(mid).push(
                    rows@[i as int]@.chosen,
                ));
                assert(action_models(actions@) =~= action_models(before) + active(
                    models.take(i + 1),
                ));
            },
        }
        i = i + 1;
    }
    assert(models.take(i as int) =~= models);
}

impl App {
    /// A UI that shows groups.
    pub fn new(groups: Vec<Group>, execute_allowed: bool) -> (r: Self)
        ensures
            r@ == AppModel::showing(group_models(groups@), execute_allowed),
            r@.is_sound(),
    {
        let (rows_dup, rows_cluster) = rows_for(&groups);
        proof {
            let models = group_models(groups@);
            lemma_fresh_rows(models, models.len() as int, false);
            lemma_fresh_rows(models, models.len() as int, true);
        }
        App {
            groups,
            rows_dup,
            rows_cluster,
            tab: Tab::Duplicates,
            selected_dup: 0,
            selected_cluster: 0,
            execute_allowed,
            confirm_execute: false,
            mode: Mode::Browsing,
        }
    }

    /// A UI that waits for a scan.
    pub fn empty_scanning(execute_allowed: bool) -> (r: Self)
        ensures
            r@ == AppModel::scanning(execute_allowed),
            r@.is_sound(),
    {
        let r = App {
            groups: Vec::new(),
            rows_dup: Vec::new(),
            rows_cluster: Vec::new(),
            tab: Tab::Duplicates,
            selected_dup: 0,
            selected_cluster: 0,
            execute_allowed,
            confirm_execute: false,
            mode: Mode::Scanning(ScanState::default()),
        };
        assert(r@ =~= AppModel::scanning(execute_allowed));
        r
    }

    /// Takes note of news of the scan.
    pub fn apply_progress(&mut self, p: Progress)
        requires
            old(self)@.is_sound(),
        ensures
            final(self)@ == old(self)@.told(p@),
            final(self)@.is_sound(),
    {
        match &mut self.mode {
            Mode::Scanning(s) => match p {
                Progress::Walked(n) => {
                    s.walked = n;
                },
                Progress::HashStart { total } => {
                    s.hash_total = total;
                    s.hash_done = 0;
                },
                Progress::Hashed { done, total } => {
                    s.hash_done = done;
                    s.hash_total = total;
                },
                Progress::Done(groups) => {
                    let (rows_dup, rows_cluster) = rows_for(&groups);
                    proof {
                        let models = group_models(groups@);
                        lemma_fresh_rows(models, models.len() as int, false);
                        lemma_fresh_rows(models, models.len() as int, true);
                    }
                    self.groups = groups;
                    self.rows_dup = rows_dup;
                    self.rows_cluster = rows_cluster;
                    self.mode = Mode::Browsing;
                },
                Progress::Error(e) => {
                    self.mode = Mode::Failed(e);
                },
            },
            _ => {},
        }
    }

    /// Whether the UI waits for a scan.
    pub fn is_scanning(&self) -> (r: bool)
        ensures
            r == (self@.mode is Scanning),
    {
        match &self.mode {
            Mode::Scanning(_) => true,
            _ => false,
        }
    }

    /// The rows of the list that is shown.
    pub fn rows(&self) -> (r: &Vec<Row>)
        ensures
            row_models(r@) == self@.rows(),
            r@ == (match self.tab {
                Tab::Duplicates => self.rows_dup@,
                Tab::Clusters => self.rows_cluster@,
            }),
    {
        match self.tab {
            Tab::Duplicates => &self.rows_dup,
            Tab::Clusters => &self.rows_cluster,
        }
    }

    /// The selected place in the list that is shown.
    pub fn selected(&self) -> (r: usize)
        ensures
            r == self@.selected(),
    {
        match self.tab {
            Tab::Duplicates => self.selected_dup,
            Tab::Clusters => self.selected_cluster,
        }
    }

    /// The selected place that is highlighted: the last row at most.
    pub fn highlighted(&self) -> (r: Option<usize>)
        ensures
            match r {
                Some(i) => self@.rows().len() > 0 && i == (if self@.selected()
                    < self@.rows().len() {
                    self@.selected()
                } else {
                    self@.rows().len() - 1
                }),
                None => self@.rows().len() == 0,
            },
    {
        let n: usize = self.rows().len();
        assert(self@.rows().len() == n);
        let s: usize = self.selected();
        if n == 0 {
            None
        } else if s < n {
            Some(s)
        } else {
            Some(n - 1)
        }
    }

    /// Selects another place.
    fn select(&mut self, place: usize)
        ensures
            final(self)@ == old(self)@.selecting(place as int),
    {
        match self.tab {
            Tab::Duplicates => {
                self.selected_dup = place;
            },
            Tab::Clusters => {
                self.selected_cluster = place;
            },
        }
    }

    /// Puts another row at the selected place.
    fn replace_row(&mut self, row: Row)
        requires
            0 <= old(self)@.selected() < old(self)@.rows().len(),
        ensures
            final(self)@ == old(self)@.with_row(row@),
    {
        let ghost before = self@;
        match self.tab {
            Tab::Duplicates => {
                let i: usize = self.selected_dup;
                self.rows_dup.set(i, row);
                assert(self@.rows_dup =~= before.rows_dup.update(i as int, row@));
            },
            Tab::Clusters => {
                let i: usize = self.selected_cluster;
                self.rows_cluster.set(i, row);
                assert(self@.rows_cluster =~= before.rows_cluster.update(i as int, row@));
            },
        }
    }

    /// The selected row, if there is one.
    fn current(&self) -> (r: Option<Row>)
        ensures
            match r {
                Some(row) => self@.has_row() && row@ == self@.row(),
                None => !self@.has_row(),
            },
    {
        let i: usize = self.selected();
        let rows = self.rows();
        assert(self@.rows().len() == rows@.len());
        if i < rows.len() {
            assert(self@.rows()[i as int] == rows@[i as int]@);
            Some(rows[i].clone())
        } else {
            None
        }
    }

    /// The plan of the rows that do something.
    pub fn build_plan(&self, dry_run: bool) -> (r: Plan)
        ensures
            r@ == self@.plan(dry_run),
    {
        let mut actions: Vec<Action> = Vec::new();
        assert(action_models(actions@) =~= seq![]);
        push_active(&mut actions, &self.rows_dup);
        push_active(&mut actions, &self.rows_cluster);
        assert(action_models(actions@) =~= active(self@.rows_dup) + active(self@.rows_cluster));
        Plan { actions, dry_run }
    }
}

/// A number of groups, files and bytes.
#[derive(Debug, Clone, Copy, PartialEq, Eq, Structural)]
pub struct Totals {
    pub groups: usize,
    pub files: usize,
    pub bytes: u64,
}

impl View for Totals {
    type V = TotalsModel;

    open spec fn view(&self) -> TotalsModel {
        TotalsModel {
            groups: self.groups as int,
            files: self.files as int,
            bytes: self.bytes as int,
        }
    }
}

/// Whether totals can be held.
pub open spec fn totals_fit(t: TotalsModel) -> bool {
    t.groups <= usize::MAX && t.files <= usize::MAX && t.bytes <= u64::MAX
}

/// Totals only grow with more rows.
proof fn lemma_totals(groups: Seq<GroupModel>, rows: Seq<RowModel>, k: int)
    requires
        0 <= k <= rows.len(),
    ensures
        ({
            let t = rows_totals(groups, rows.take(k));
            let u = rows_totals(groups, rows);
            0 <= t.groups <= u.groups && 0 <= t.files <= u.files && 0 <= t.bytes <= u.bytes
        }),
    decreases rows.len() - k, k,
{
    lemma_totals_positive(groups, rows.take(k));
    if k < rows.len() {
        lemma_totals(groups, rows, k + 1);
        assert(rows.take(k + 1).drop_last() =~= rows.take(k));
        lemma_row_totals(groups, rows[k]);
    } else {
        assert(rows.take(k) =~= rows);
    }
}

/// A row adds nothing negative.
proof fn lemma_row_totals(groups: Seq<GroupModel>, row: RowModel)
    ensures
        ({
            let t = row_totals(groups, row);
            0 <= t.groups && 0 <= t.files && 0 <= t.bytes
        }),
{
    match row.chosen {
        ActionModel::KeepOne { trash, .. } | ActionModel::DeleteAll { trash } => {
            let files = groups[row.group_idx].files;
            if files.len() > 0 {
                let size = files[0].size as int;
                let n = trash.len() as int;
                assert(size * n >= 0) by (nonlinear_arith)
                    requires
                        size >= 0,
                        n >= 0,
                ;
            }
        },
        _ => {},
    }
}

/// Totals are not negative.
proof fn lemma_totals_positive(groups: Seq<GroupModel>, rows: Seq<RowModel>)
    ensures
        ({
            let t = rows_totals(groups, rows);
            0 <= t.groups && 0 <= t.files && 0 <= t.bytes
        }),
    decreases rows.len(),
{
    if rows.len() > 0 {
        lemma_totals_positive(groups, rows.drop_last());
        lemma_row_totals(groups, rows.last());
    }
}

impl App {
    /// What one row adds to the totals, if it can be held.
    fn row_sum(&self, row: &Row) -> (r: Option<Totals>)
        requires
            row.group_idx < self.groups@.len(),
        ensures
            match r {
                Some(t) => t@ == row_totals(self@.groups, row@),
                None => !totals_fit(row_totals(self@.groups, row@)),
            },
    {
        match &row.chosen {
            Action::Ignore => Some(Totals { groups: 0, files: 0, bytes: 0 }),
            Action::KeepOne { trash, .. } | Action::DeleteAll { trash } => {
                let g = &self.groups[row.group_idx];
                assert(self@.groups[row.group_idx as int] == g@);
                let n: usize = trash.len();
                if g.files.len() == 0 {
                    return Some(Totals { groups: 1, files: n, bytes: 0 });
                }
                assert(g@.files[0] == g.files@[0]@);
                match g.files[0].size.checked_mul(n as u64) {
                    Some(bytes) => Some(Totals { groups: 1, files: n, bytes }),
                    None => None,
                }
            },
            Action::FoldIntoFolder { files, .. } => Some(
                Totals { groups: 1, files: files.len(), bytes: 0 },
            ),
        }
    }

    /// Adds what rows add up to, if it can be held.
    fn add_rows(
        &self,
        before: Totals,
        rows: &Vec<Row>,
        Ghost(done): Ghost<Seq<RowModel>>,
    ) -> (r: Option<Totals>)
        requires
            before@ == rows_totals(self@.groups, done),
            forall|i: int| 0 <= i < rows@.len() ==> is_sound_row(self@.groups, (#[trigger] rows@[i])@),
        ensures
            match r {
                Some(t) => t@ == rows_totals(self@.groups, done + row_models(rows@)),
                None => !totals_fit(rows_totals(self@.groups, done + row_models(rows@))),
            },
    {
        let ghost all = done + row_models(rows@);
        let ghost n = done.len() as int;
        let mut sum = before;
        let mut i: usize = 0;
        assert(all.take(n) =~= done);
        while i < rows.len()
            invariant
                all == done + row_models(rows@),
                n == done.len(),
                i <= rows@.len(),
                forall|i: int|
                    0 <= i < rows@.len() ==> is_sound_row(self@.groups, (#[trigger] rows@[i])@),
                sum@ == rows_totals(self@.groups, all.take(n + i)),
            decreases rows@.len() - i,
        {
            let row = &rows[i];
            proof {
                assert(is_sound_row(self@.groups, rows@[i as int]@));
                assert(all.take(n + i + 1).drop_last() =~= all.take(n + i));
                assert(all.take(n + i + 1).last() == row@);
                lemma_totals(self@.groups, all, n + i);
                lemma_totals(self@.groups, all, n + i + 1);
                lemma_row_totals(self@.groups, row@);
            }
            let own = match self.row_sum(row) {
                Some(t) => t,
                None => {
                    return None;
                },
            };
            match (
                sum.groups.checked_add(own.groups),
                sum.files.checked_add(own.files),
                sum.bytes.checked_add(own.bytes),
            ) {
                (Some(groups), Some(files), Some(bytes)) => {
                    sum = Totals { groups, files, bytes };
                },
                _ => {
                    return None;
                },
            }
            i = i + 1;
        }
        assert(all.take(n + i) =~= all);
        Some(sum)
    }

    /// What all rows add up to, if it can be held.
    pub fn try_totals(&self) -> (r: Option<Totals>)
        requires
            self@.is_sound(),
        ensures
            match r {
                Some(t) => t@ == self@.totals(),
                None => !totals_fit(self@.totals()),
            },
    {
        let ghost dup = self@.rows_dup;
        let ghost all = dup + self@.rows_cluster;
        proof {
            assert forall|i: int| 0 <= i < self.rows_dup@.len() implies is_sound_row(
                self@.groups,
                (#[trigger] self.rows_dup@[i])@,
            ) by {
                assert(dup[i] == self.rows_dup@[i]@);
            }
            assert forall|i: int| 0 <= i < self.rows_cluster@.len() implies is_sound_row(
                self@.groups,
                (#[trigger] self.rows_cluster@[i])@,
            ) by {
                assert(self@.rows_cluster[i] == self.rows_cluster@[i]@);
            }
            lemma_totals(self@.groups, all, dup.len() as int);
            assert(all.take(dup.len() as int) =~= dup);
            assert(Seq::<RowModel>::empty() + dup =~= dup);
        }
        let none = Totals { groups: 0, files: 0, bytes: 0 };
        match self.add_rows(none, &self.rows_dup, Ghost(Seq::<RowModel>::empty())) {
            Some(sum) => self.add_rows(sum, &self.rows_cluster, Ghost(dup)),
            None => None,
        }
    }

    /// What all rows add up to.
    pub fn totals(&self) -> (r: (usize, usize, u64))
        requires
            self@.is_sound(),
            totals_fit(self@.totals()),
        ensures
            r.0 == self@.totals().groups,
            r.1 == self@.totals().files,
            r.2 == self@.totals().bytes,
    {
        match self.try_totals() {
            Some(t) => (t.groups, t.files, t.bytes),
            None => {
                assert(false);
                (0, 0, 0)
            },
        }
    }
}

/// Whether a key asks to quit.
fn is_quit_key(key: KeyEvent) -> (r: bool)
    ensures
        r == asks_to_quit(key),
{
    match key.code {
        KeyCode::Char('q') => true,
        KeyCode::Esc => true,
        KeyCode::Char('c') => match key.modifiers {
            KeyModifiers::Control => true,
            _ => false,
        },
        _ => false,
    }
}

impl App {
    /// Whether a key can be handled.
    pub fn takes_key(&self, key: KeyEvent) -> (r: bool)
        requires
            self@.is_sound(),
        ensures
            r == self@.takes(key),
    {
        let browsing = match &self.mode {
            Mode::Browsing => true,
            _ => false,
        };
        if key.kind != KeyEventKind::Press || self.confirm_execute || !browsing {
            return true;
        }
        match key.code {
            KeyCode::Char('m') => match self.current() {
                Some(row) => {
                    proof {
                        self.lemma_current();
                    }
                    self.groups[row.group_idx].files.len() > 0
                },
                None => true,
            },
            _ => true,
        }
    }

    /// The selected row is sound.
    proof fn lemma_current(&self)
        requires
            self@.is_sound(),
            self@.has_row(),
        ensures
            0 <= self@.selected(),
            is_sound_row(self@.groups, self@.row()),
            self@.group() == self.groups@[self@.row().group_idx]@,
            self@.group().files.len() == self.groups@[self@.row().group_idx].files@.len(),
    {
        match self.tab {
            Tab::Duplicates => {
                assert(is_sound_row(self@.groups, self@.rows_dup[self@.selected()]));
            },
            Tab::Clusters => {
                assert(is_sound_row(self@.groups, self@.rows_cluster[self@.selected()]));
            },
        }
    }

    /// The path that a key opens in the system, if it does.
    pub fn open_target(&self, key: KeyEvent) -> (r: Option<FilePath>)
        requires
            self@.is_sound(),
        ensures
            match r {
                Some(p) => self@.opens(key) == Some(p@),
                None => self@.opens(key) is None,
            },
    {
        let browsing = match &self.mode {
            Mode::Browsing => true,
            _ => false,
        };
        if key.kind != KeyEventKind::Press || self.confirm_execute || !browsing {
            return None;
        }
        match key.code {
            KeyCode::Char('o') => {},
            _ => {
                return None;
            },
        }
        match self.current() {
            Some(row) => {
                proof {
                    self.lemma_current();
                }
                let g = &self.groups[row.group_idx];
                if row.file_cursor < g.files.len() {
                    assert(g@.files[row.file_cursor as int] == g.files@[row.file_cursor as int]@);
                    Some(g.files[row.file_cursor].path.clone())
                } else {
                    None
                }
            },
            None => None,
        }
    }

    /// Handles a key while the question whether to execute is open.
    fn handle_confirm_key(&mut self, key: KeyEvent) -> (r: Option<UiOutcome>)
        requires
            old(self)@.is_sound(),
            old(self).confirm_execute,
            key.kind == KeyEventKind::Press,
        ensures
            final(self)@ == old(self)@.after_key(key),
            final(self)@.is_sound(),
            match r {
                Some(o) => old(self)@.outcome(key) == Some(o@),
                None => old(self)@.outcome(key) is None,
            },
    {
        match key.code {
            KeyCode::Char('y') | KeyCode::Char('Y') => {
                self.confirm_execute = false;
                Some(UiOutcome::Execute(self.build_plan(false)))
            },
            KeyCode::Char('n') | KeyCode::Char('N') | KeyCode::Esc => {
                self.confirm_execute = false;
                None
            },
            _ => None,
        }
    }

    /// Changes the selected row, by a key that reaches the lists.
    fn steer_row(&mut self, code: KeyCode)
        requires
            old(self)@.is_sound(),
            old(self)@.mode is Browsing,
            old(self)@.takes(KeyEvent { code, modifiers: KeyModifiers::Plain, kind: KeyEventKind::Press }),
            !old(self).confirm_execute,
            !(code is Tab),
            !(code is Down),
            !(code is Up),
            code != KeyCode::Char('j'),
            code != KeyCode::Char('k'),
            code != KeyCode::Char('x'),
        ensures
            final(self)@ == old(self)@.steered(code),
            final(self)@.is_sound(),
    {
        let row = match self.current() {
            Some(row) => row,
            None => {
                return ;
            },
        };
        proof {
            self.lemma_current();
        }
        let g = &self.groups[row.group_idx];
        let n: usize = g.files.len();
        let mut next = row.clone();
        match code {
            KeyCode::Enter => {
                next.expanded = !row.expanded;
            },
            KeyCode::Char('a') | KeyCode::Char(' ') => {
                next.chosen = cycle_action(&row.chosen, &g.suggested);
            },
            KeyCode::Char('J') => {
                if row.expanded && n > 0 && row.file_cursor < n - 1 {
                    next.file_cursor = row.file_cursor + 1;
                }
            },
            KeyCode::Char('K') => {
                if row.expanded && row.file_cursor > 0 {
                    next.file_cursor = row.file_cursor - 1;
                }
            },
            KeyCode::Char('m') => {
                next.chosen = rebuild_keep_one(g, row.file_cursor);
            },
            _ => {},
        }
        let ghost before = self@;
        self.replace_row(next);
        proof {
            assert(before.with_row(before.row()) =~= before) by {
                assert(before.rows().update(before.selected(), before.row()) =~= before.rows());
            }
            assert(self@ == before.steered(code));
        }
    }

    /// Handles a key: changes the state, and tells how it ends the UI, if it does.
    pub fn handle_key(&mut self, key: KeyEvent) -> (r: Option<UiOutcome>)
        requires
            old(self)@.is_sound(),
            old(self)@.takes(key),
        ensures
            final(self)@ == old(self)@.after_key(key),
            final(self)@.is_sound(),
            match r {
                Some(o) => old(self)@.outcome(key) == Some(o@),
                None => old(self)@.outcome(key) is None,
            },
    {
        if key.kind != KeyEventKind::Press {
            return None;
        }
        if self.confirm_execute {
            return self.handle_confirm_key(key);
        }
        if is_quit_key(key) {
            return Some(UiOutcome::Quit);
        }
        match &self.mode {
            Mode::Scanning(_) => {
                return None;
            },
            Mode::Failed(_) => {
                return Some(UiOutcome::Quit);
            },
            Mode::Browsing => {},
        }
        match key.code {
            KeyCode::Tab => {
                self.tab = match self.tab {
                    Tab::Duplicates => Tab::Clusters,
                    Tab::Clusters => Tab::Duplicates,
                };
                None
            },
            KeyCode::Down | KeyCode::Char('j') => {
                let len: usize = self.rows().len();
                assert(self@.rows().len() == len);
                let s: usize = self.selected();
                if len > 0 && s < len - 1 {
                    self.select(s + 1);
                }
                None
            },
            KeyCode::Up | KeyCode::Char('k') => {
                let s: usize = self.selected();
                if s > 0 {
                    self.select(s - 1);
                }
                None
            },
            KeyCode::Char('w') => Some(UiOutcome::Save(self.build_plan(true))),
            KeyCode::Char('x') => {
                if self.execute_allowed {
                    self.confirm_execute = true;
                }
                None
            },
            code => {
                self.steer_row(code);
                None
            },
        }
    }
}

/// How a file of a shown group stands: whether it has the focus, and whether it
/// is to be kept.
#[derive(Debug, Clone, Copy, PartialEq, Eq, Structural)]
pub struct FileLine {
    pub focused: bool,
    pub keep: bool,
}

/// How file `i` of a row's group stands.
pub open spec fn file_line(row: RowModel, group: GroupModel, i: int) -> FileLine {
    FileLine {
        focused: i == row.file_cursor,
        keep: match row.chosen {
            ActionModel::KeepOne { keep, .. } => components(keep) == components(
                group.files[i].path,
            ),
            _ => false,
        },
    }
}

/// How the files of a row's group stand. They are shown only if the row is
/// expanded.
pub fn file_lines(row: &Row, group: &Group) -> (r: Vec<FileLine>)
    ensures
        r@ == (if row.expanded {
            Seq::new(group@.files.len(), |i: int| file_line(row@, group@, i))
        } else {
            Seq::empty()
        }),
{
    let mut out: Vec<FileLine> = Vec::new();
    if !row.expanded {
        assert(out@ =~= Seq::empty());
        return out;
    }
    let mut i: usize = 0;
    while i < group.files.len()
        invariant
            i <= group.files@.len(),
            out@.len() == i,
            forall|k: int| 0 <= k < i ==> #[trigger] out@[k] == file_line(row@, group@, k),
        decreases group.files@.len() - i,
    {
        assert(group@.files[i as int] == group.files@[i as int]@);
        let keep = match &row.chosen {
            Action::KeepOne { keep, .. } => keep.same_as(&group.files[i].path),
            _ => false,
        };
        out.push(FileLine { focused: i == row.file_cursor, keep });
        i = i + 1;
    }
    assert(out@ =~= Seq::new(group@.files.len(), |i: int| file_line(row@, group@, i)));
    out
}

/// The news when `done` of `total` files are hashed, the first of them or a later one.
pub open spec fn news_of_hashing(started: bool, done: int, total: int) -> Seq<ProgressModel> {
    let hashed = ProgressModel::Hashed { done, total };
    if started {
        seq![hashed]
    } else {
        seq![ProgressModel::HashStart { total }, hashed]
    }
}

/// The news of a file that was hashed. The first of them comes behind the news
/// that hashing has started.
pub fn hash_news(started: bool, done: usize, total: usize) -> (r: Vec<Progress>)
    ensures
        progress_models(r@) == news_of_hashing(started, done as int, total as int),
        progress_models(r@) == (if started {
            seq![ProgressModel::Hashed { done: done as int, total: total as int }]
        } else {
            seq![
                ProgressModel::HashStart { total: total as int },
                ProgressModel::Hashed { done: done as int, total: total as int },
            ]
        }),
{
    let mut out: Vec<Progress> = Vec::new();
    if !started {
        out.push(Progress::HashStart { total });
    }
    out.push(Progress::Hashed { done, total });
    assert(progress_models(out@) =~= (if started {
        seq![ProgressModel::Hashed { done: done as int, total: total as int }]
    } else {
        seq![
            ProgressModel::HashStart { total: total as int },
            ProgressModel::Hashed { done: done as int, total: total as int },
        ]
    }));
    out
}

/// Nothing is executed without permission: a key that ends the UI with an
/// execution was pressed at the open question, the permission was given, and the
/// plan is the one of the rows, to be carried out.
pub proof fn execution_needs_permission(app: AppModel, key: KeyEvent)
    requires
        app.is_sound(),
        app.outcome(key) is Some,
        app.outcome(key)->0 is Execute,
    ensures
        app.execute_allowed,
        app.confirm_execute,
        app.outcome(key)->0->Execute_0 == app.plan(false),
{
}

/// A plan that is saved is only to be shown.
pub proof fn saved_plans_are_dry_runs(app: AppModel, key: KeyEvent)
    requires
        app.outcome(key) is Some,
        app.outcome(key)->0 is Save,
    ensures
        app.outcome(key)->0->Save_0 == app.plan(true),
        app.outcome(key)->0->Save_0.dry_run,
{
}

/// Keys change neither the groups nor the permission nor how many rows there are.
pub proof fn keys_keep_the_groups(app: AppModel, key: KeyEvent)
    requires
        app.is_sound(),
    ensures
        app.after_key(key).groups == app.groups,
        app.after_key(key).execute_allowed == app.execute_allowed,
        app.after_key(key).mode == app.mode,
        app.after_key(key).rows_dup.len() == app.rows_dup.len(),
        app.after_key(key).rows_cluster.len() == app.rows_cluster.len(),
{
}

/// Without permission no keys lead to an execution: the question is never asked.
pub proof fn the_question_needs_permission(app: AppModel, key: KeyEvent)
    requires
        app.is_sound(),
        app.takes(key),
        !app.execute_allowed,
    ensures
        !app.after_key(key).confirm_execute,
        app.outcome(key) is Some ==> !(app.outcome(key)->0 is Execute),
{
}

/// Keys that come while a scan runs only quit.
pub proof fn a_scan_takes_no_other_key(app: AppModel, key: KeyEvent)
    requires
        app.is_sound(),
        app.mode is Scanning,
    ensures
        app.after_key(key) == app,
        app.outcome(key) is Some ==> app.outcome(key) == Some(OutcomeModel::Quit),
{
}

/// Switching the list twice leads back.
pub proof fn tab_twice_leads_back(app: AppModel, key: KeyEvent)
    requires
        app.reaches_lists(key),
        key.code == KeyCode::Tab,
    ensures
        app.after_key(key).after_key(key) == app,
{
}

/// Showing and hiding the files of a row leads back.
pub proof fn enter_twice_leads_back(app: AppModel, key: KeyEvent)
    requires
        app.is_sound(),
        app.reaches_lists(key),
        key.code == KeyCode::Enter,
    ensures
        app.after_key(key).after_key(key) == app,
{
    if app.has_row() {
        let once = app.after_key(key);
        assert(once.row() == (RowModel { expanded: !app.row().expanded, ..app.row() }));
        assert(once.after_key(key).rows_dup =~= app.rows_dup);
        assert(once.after_key(key).rows_cluster =~= app.rows_cluster);
    }
}

/// Ignoring a group and taking it up again brings back what is suggested for it.
pub proof fn space_twice_brings_the_suggestion(app: AppModel, key: KeyEvent)
    requires
        app.is_sound(),
        app.reaches_lists(key),
        key.code == KeyCode::Char(' ') || key.code == KeyCode::Char('a'),
        app.has_row(),
        !(app.row().chosen is Ignore),
    ensures
        app.after_key(key).row().chosen is Ignore,
        app.after_key(key).after_key(key) == app.with_row(
            RowModel { chosen: app.group().suggested, ..app.row() },
        ),
{
    let once = app.after_key(key);
    let twice = once.after_key(key);
    let back = app.with_row(RowModel { chosen: app.group().suggested, ..app.row() });
    assert(once.row() == (RowModel { chosen: ActionModel::Ignore, ..app.row() }));
    assert(twice.rows_dup =~= back.rows_dup);
    assert(twice.rows_cluster =~= back.rows_cluster);
}

/// The file that is marked is kept, and every other file of the group is trashed.
pub proof fn marking_keeps_one_file_of_the_group(app: AppModel, key: KeyEvent)
    requires
        app.is_sound(),
        app.reaches_lists(key),
        app.takes(key),
        key.code == KeyCode::Char('m'),
        app.has_row(),
    ensures
        app.after_key(key).row().chosen == keep_file(app.group(), app.row().file_cursor),
        app.after_key(key).row().chosen->keep == app.group().files[app.row().file_cursor].path,
        app.after_key(key).row().chosen->KeepOne_trash.len() == app.group().files.len() - 1,
        forall|i: int|
            0 <= i < app.group().files.len() && i != app.row().file_cursor
                ==> app.after_key(key).row().chosen->KeepOne_trash.contains(
                (#[trigger] app.group().files[i]).path,
            ),
{
    let files = app.group().files;
    let k = app.row().file_cursor;
    let all = Seq::new(files.len(), |i: int| files[i].path);
    let trash = all.remove(k);
    assert(is_sound_row(app.groups, app.row()));
    assert forall|i: int| 0 <= i < files.len() && i != k implies trash.contains(
        (#[trigger] files[i]).path,
    ) by {
        let at = if i < k {
            i
        } else {
            i - 1
        };
        assert(trash[at] == files[i].path);
    }
}

/// What the actions of the rows that do something are.
proof fn lemma_active(groups: Seq<GroupModel>, rows: Seq<RowModel>)
    ensures
        forall|k: int| 0 <= k < active(rows).len() ==> !((#[trigger] active(rows)[k]) is Ignore),
        forall|k: int|
            0 <= k < active(rows).len() ==> exists|i: int|
                0 <= i < rows.len() && (#[trigger] rows[i]).chosen == #[trigger] active(rows)[k],
        forall|i: int|
            0 <= i < rows.len() && !((#[trigger] rows[i]).chosen is Ignore) ==> active(
                rows,
            ).contains(rows[i].chosen),
        rows_totals(groups, rows).groups == active(rows).len(),
    decreases rows.len(),
{
    if rows.len() > 0 {
        let before = rows.drop_last();
        lemma_active(groups, before);
        let list = active(rows);
        assert forall|k: int| 0 <= k < list.len() implies exists|i: int|
            0 <= i < rows.len() && (#[trigger] rows[i]).chosen == #[trigger] list[k] by {
            if k < active(before).len() {
                assert(list[k] == active(before)[k]);
                let i = choose|i: int|
                    0 <= i < before.len() && (#[trigger] before[i]).chosen == active(before)[k];
                assert(rows[i] == before[i]);
            } else {
                assert(rows[rows.len() - 1].chosen == list[k]);
            }
        }
        assert forall|i: int|
            0 <= i < rows.len() && !((#[trigger] rows[i]).chosen is Ignore) implies list.contains(
            rows[i].chosen,
        ) by {
            if i < before.len() {
                assert(rows[i] == before[i]);
                assert(active(before).contains(before[i].chosen));
                let k = choose|k: int|
                    0 <= k < active(before).len() && active(before)[k] == before[i].chosen;
                assert(list[k] == rows[i].chosen);
            } else {
                assert(list[list.len() - 1] == rows[i].chosen);
            }
        }
    }
}

/// The actions of two lists of rows follow each other.
proof fn lemma_active_adds(a: Seq<RowModel>, b: Seq<RowModel>)
    ensures
        active(a + b) == active(a) + active(b),
    decreases b.len(),
{
    if b.len() == 0 {
        assert(a + b =~= a);
        assert(active(a) + active(b) =~= active(a));
    } else {
        assert((a + b).drop_last() =~= a + b.drop_last());
        lemma_active_adds(a, b.drop_last());
        assert(active(a + b) =~= active(a) + active(b));
    }
}

/// A plan holds the actions of the rows that are not ignored, and nothing else.
/// Its length is the number of groups in the totals.
pub proof fn plans_hold_what_is_not_ignored(app: AppModel, dry_run: bool)
    ensures
        forall|k: int|
            0 <= k < app.plan(dry_run).actions.len() ==> !((#[trigger] app.plan(
                dry_run,
            ).actions[k]) is Ignore),
        forall|k: int|
            0 <= k < app.plan(dry_run).actions.len() ==> exists|i: int|
                0 <= i < (app.rows_dup + app.rows_cluster).len() && (#[trigger] (app.rows_dup
                    + app.rows_cluster)[i]).chosen == #[trigger] app.plan(dry_run).actions[k],
        forall|i: int|
            0 <= i < app.rows_dup.len() + app.rows_cluster.len() && !((#[trigger] (app.rows_dup
                + app.rows_cluster)[i]).chosen is Ignore) ==> app.plan(dry_run).actions.contains(
                (app.rows_dup + app.rows_cluster)[i].chosen,
            ),
        app.totals().groups == app.plan(dry_run).actions.len(),
{
    lemma_active_adds(app.rows_dup, app.rows_cluster);
    lemma_active(app.groups, app.rows_dup + app.rows_cluster);
}

/// Whether a key was pressed while the lists are shown and no question is open.
pub open spec fn goes_to_the_lists(app: AppModel, key: KeyEvent) -> bool {
    &&& key.kind == KeyEventKind::Press
    &&& app.mode == ModeModel::Browsing
    &&& !app.confirm_execute
}

/// Whether a key quits wherever no question is open: `q`, Escape, or Control and
/// `c`.
pub open spec fn is_quit(key: KeyEvent) -> bool {
    match key.code {
        KeyCode::Char(c) => c == 'q' || c == 'c' && key.modifiers == KeyModifiers::Control,
        KeyCode::Esc => true,
        _ => false,
    }
}

/// Whether the list that is shown has a row at its selected place, and `row` is it.
pub open spec fn is_selected_row(app: AppModel, row: RowModel) -> bool {
    match app.tab {
        Tab::Duplicates => 0 <= app.selected_dup < app.rows_dup.len()
            && app.rows_dup[app.selected_dup] == row,
        Tab::Clusters => 0 <= app.selected_cluster < app.rows_cluster.len()
            && app.rows_cluster[app.selected_cluster] == row,
    }
}

/// Whether `after` is `app` with `row` as the selected row of the list that is
/// shown, and all else as it was.
pub open spec fn differs_in_the_row(app: AppModel, after: AppModel, row: RowModel) -> bool {
    &&& after.groups == app.groups
    &&& after.tab == app.tab
    &&& after.selected_dup == app.selected_dup
    &&& after.selected_cluster == app.selected_cluster
    &&& after.execute_allowed == app.execute_allowed
    &&& after.confirm_execute == app.confirm_execute
    &&& after.mode == app.mode
    &&& match app.tab {
        Tab::Duplicates => after.rows_cluster == app.rows_cluster && after.rows_dup
            == app.rows_dup.update(app.selected_dup, row),
        Tab::Clusters => after.rows_dup == app.rows_dup && after.rows_cluster
            == app.rows_cluster.update(app.selected_cluster, row),
    }
}

/// Only presses count.
pub proof fn only_presses_count(app: AppModel, key: KeyEvent)
    requires
        key.kind != KeyEventKind::Press,
    ensures
        app.after_key(key) == app,
        app.outcome(key) is None,
        app.opens(key) is None,
{
}

/// Where no question is open the keys to quit quit, and a failed scan is quit with
/// any key. Neither changes anything.
pub proof fn quitting_quits(app: AppModel, key: KeyEvent)
    requires
        key.kind == KeyEventKind::Press,
        !app.confirm_execute,
        is_quit(key) || app.mode is Failed,
    ensures
        app.outcome(key) == Some(OutcomeModel::Quit),
        app.after_key(key) == app,
{
}

/// No other key quits, and nothing quits while the question is open.
pub proof fn nothing_else_quits(app: AppModel, key: KeyEvent)
    requires
        app.outcome(key) == Some(OutcomeModel::Quit),
    ensures
        key.kind == KeyEventKind::Press,
        !app.confirm_execute,
        is_quit(key) || app.mode is Failed,
{
}

/// The open question is answered with `y` or `n`, in either case, or Escape. With
/// `y` the plan is executed. Every other key leaves it open.
pub proof fn the_question_is_answered_by_yes_or_no(app: AppModel, key: KeyEvent)
    requires
        key.kind == KeyEventKind::Press,
        app.confirm_execute,
    ensures
        app.after_key(key) == (AppModel {
            confirm_execute: app.after_key(key).confirm_execute,
            ..app
        }),
        key.code == KeyCode::Char('y') || key.code == KeyCode::Char('Y') ==> app.outcome(key)
            == Some(OutcomeModel::Execute(app.plan(false))) && !app.after_key(key).confirm_execute,
        key.code == KeyCode::Char('n') || key.code == KeyCode::Char('N') || key.code
            == KeyCode::Esc ==> app.outcome(key) is None && !app.after_key(key).confirm_execute,
        key.code != KeyCode::Char('y') && key.code != KeyCode::Char('Y') && key.code
            != KeyCode::Char('n') && key.code != KeyCode::Char('N') && key.code != KeyCode::Esc
            ==> app.outcome(key) is None && app.after_key(key) == app,
{
}

/// In the lists `w` saves the plan, `x` asks whether to execute it where that is
/// allowed, and Tab shows the other list. Each changes nothing else.
pub proof fn keys_for_the_whole(app: AppModel, key: KeyEvent)
    requires
        goes_to_the_lists(app, key),
    ensures
        key.code == KeyCode::Char('w') ==> app.outcome(key) == Some(
            OutcomeModel::Save(app.plan(true)),
        ) && app.after_key(key) == app,
        key.code == KeyCode::Char('x') ==> app.outcome(key) is None && app.after_key(key) == (
        AppModel { confirm_execute: app.execute_allowed, ..app }),
        key.code == KeyCode::Tab ==> {
            &&& app.outcome(key) is None
            &&& app.after_key(key) == (AppModel { tab: app.after_key(key).tab, ..app })
            &&& app.after_key(key).tab != app.tab
        },
{
}

/// Down and `j` go to the next row of the list that is shown, if there is one, up
/// and `k` to the one before. Nothing else changes.
pub proof fn keys_that_select_rows(app: AppModel, key: KeyEvent)
    requires
        app.is_sound(),
        goes_to_the_lists(app, key),
    ensures
        key.code == KeyCode::Down || key.code == KeyCode::Char('j') ==> app.after_key(key) == (
        match app.tab {
            Tab::Duplicates => AppModel {
                selected_dup: if app.selected_dup + 1 < app.rows_dup.len() {
                    app.selected_dup + 1
                } else {
                    app.selected_dup
                },
                ..app
            },
            Tab::Clusters => AppModel {
                selected_cluster: if app.selected_cluster + 1 < app.rows_cluster.len() {
                    app.selected_cluster + 1
                } else {
                    app.selected_cluster
                },
                ..app
            },
        }),
        key.code == KeyCode::Up || key.code == KeyCode::Char('k') ==> app.after_key(key) == (
        match app.tab {
            Tab::Duplicates => AppModel {
                selected_dup: if app.selected_dup > 0 {
                    app.selected_dup - 1
                } else {
                    0
                },
                ..app
            },
            Tab::Clusters => AppModel {
                selected_cluster: if app.selected_cluster > 0 {
                    app.selected_cluster - 1
                } else {
                    0
                },
                ..app
            },
        }),
        key.code == KeyCode::Down || key.code == KeyCode::Char('j') || key.code == KeyCode::Up
            || key.code == KeyCode::Char('k') ==> app.outcome(key) is None,
{
}

/// What keys do to the selected row: Enter shows or hides its files. `a` and the
/// space bar turn any action into none, and none into what is suggested. With the
/// files shown `J` and `K` move the focus to the next file and the one before, if
/// there is one. `m` keeps the focused file and trashes all others of the group, in
/// their order. Nothing else changes.
pub proof fn keys_for_the_selected_row(app: AppModel, key: KeyEvent, row: RowModel)
    requires
        app.is_sound(),
        goes_to_the_lists(app, key),
        is_selected_row(app, row),
    ensures
        ({
            let after = app.after_key(key);
            let files = app.groups[row.group_idx].files;
            let next = row.file_cursor + 1;
            &&& key.code == KeyCode::Enter ==> differs_in_the_row(
                app,
                after,
                RowModel { expanded: !row.expanded, ..row },
            )
            &&& key.code == KeyCode::Char('a') || key.code == KeyCode::Char(' ')
                ==> differs_in_the_row(
                app,
                after,
                RowModel {
                    chosen: if row.chosen == ActionModel::Ignore {
                        app.groups[row.group_idx].suggested
                    } else {
                        ActionModel::Ignore
                    },
                    ..row
                },
            )
            &&& key.code == KeyCode::Char('J') ==> differs_in_the_row(
                app,
                after,
                RowModel {
                    file_cursor: if row.expanded && next < files.len() {
                        next
                    } else {
                        row.file_cursor
                    },
                    ..row
                },
            )
            &&& key.code == KeyCode::Char('K') ==> differs_in_the_row(
                app,
                after,
                RowModel {
                    file_cursor: if row.expanded && row.file_cursor > 0 {
                        row.file_cursor - 1
                    } else {
                        row.file_cursor
                    },
                    ..row
                },
            )
            &&& key.code == KeyCode::Char('m') && files.len() > 0 ==> differs_in_the_row(
                app,
                after,
                RowModel {
                    chosen: ActionModel::KeepOne {
                        keep: files[row.file_cursor].path,
                        trash: files.remove(row.file_cursor).map_values(
                            |f: GroupFileModel| f.path,
                        ),
                    },
                    ..row
                },
            )
            &&& key.code == KeyCode::Enter || key.code == KeyCode::Char('a') || key.code
                == KeyCode::Char(' ') || key.code == KeyCode::Char('J') || key.code
                == KeyCode::Char('K') || key.code == KeyCode::Char('m') ==> app.outcome(key) is None
        }),
{
    let files = app.groups[row.group_idx].files;
    assert(is_sound_row(app.groups, row)) by {
        match app.tab {
            Tab::Duplicates => {
                assert(is_sound_row(app.groups, app.rows_dup[app.selected_dup]));
            },
            Tab::Clusters => {
                assert(is_sound_row(app.groups, app.rows_cluster[app.selected_cluster]));
            },
        }
    }
    assert(app.row() == row);
    assert(app.rows_dup.update(app.selected_dup, row) =~= app.rows_dup || app.tab
        == Tab::Clusters);
    assert(app.rows_cluster.update(app.selected_cluster, row) =~= app.rows_cluster || app.tab
        == Tab::Duplicates);
    if key.code == KeyCode::Char('m') && files.len() > 0 {
        assert(Seq::new(files.len(), |i: int| files[i].path).remove(row.file_cursor)
            =~= files.remove(row.file_cursor).map_values(|f: GroupFileModel| f.path));
    }
}

/// Without a selected row the keys for it change nothing, and keys without a meaning
/// never do.
pub proof fn other_keys_change_nothing(app: AppModel, key: KeyEvent)
    requires
        app.is_sound(),
        goes_to_the_lists(app, key),
        !is_quit(key),
        key.code != KeyCode::Char('w'),
        key.code != KeyCode::Char('x'),
        key.code != KeyCode::Tab,
        key.code != KeyCode::Down,
        key.code != KeyCode::Char('j'),
        key.code != KeyCode::Up,
        key.code != KeyCode::Char('k'),
        (match app.tab {
            Tab::Duplicates => app.rows_dup.len() == 0,
            Tab::Clusters => app.rows_cluster.len() == 0,
        }) || key.code != KeyCode::Enter && key.code != KeyCode::Char('a') && key.code
            != KeyCode::Char(' ') && key.code != KeyCode::Char('J') && key.code
            != KeyCode::Char('K') && key.code != KeyCode::Char('m'),
    ensures
        app.after_key(key) == app,
        app.outcome(key) is None,
{
}

/// `o` in the lists opens the focused file of the selected row, and no other key
/// opens anything.
pub proof fn the_focused_file_is_opened(app: AppModel, key: KeyEvent, row: RowModel)
    requires
        app.is_sound(),
        is_selected_row(app, row),
    ensures
        app.opens(key) is Some <==> goes_to_the_lists(app, key) && key.code == KeyCode::Char('o')
            && row.file_cursor < app.groups[row.group_idx].files.len(),
        app.opens(key) is Some ==> app.opens(key)->0
            == app.groups[row.group_idx].files[row.file_cursor].path,
{
}

/// Only `m` on a group without files is not taken.
pub proof fn keys_are_taken(app: AppModel, key: KeyEvent, row: RowModel)
    requires
        app.is_sound(),
        is_selected_row(app, row),
    ensures
        app.takes(key) <==> !(goes_to_the_lists(app, key) && key.code == KeyCode::Char('m')
            && app.groups[row.group_idx].files.len() == 0),
{
}

/// The focus starts at the first file with the path that is suggested to be kept,
/// and at the first file where none has it or nothing is kept.
pub proof fn the_focus_starts_at_the_keeper(g: GroupModel)
    ensures
        ({
            let k = keeper_place(g);
            match g.suggested {
                ActionModel::KeepOne { keep, .. } => {
                    ||| {
                        &&& 0 <= k < g.files.len()
                        &&& components(g.files[k].path) == components(keep)
                        &&& forall|i: int|
                            0 <= i < k ==> components((#[trigger] g.files[i]).path) != components(
                                keep,
                            )
                    }
                    ||| {
                        &&& k == 0
                        &&& forall|i: int|
                            0 <= i < g.files.len() ==> components((#[trigger] g.files[i]).path)
                                != components(keep)
                    }
                },
                _ => k == 0,
            }
        }),
{
    match g.suggested {
        ActionModel::KeepOne { keep, .. } => {
            lemma_first_at_is_first(g.files, keep, 0);
        },
        _ => {},
    }
}

/// What the search for a path finds.
proof fn lemma_first_at_is_first(files: Seq<GroupFileModel>, keep: Seq<u8>, i: int)
    requires
        0 <= i,
    ensures
        ({
            let k = first_at(files, keep, i);
            ||| {
                &&& i <= k < files.len()
                &&& components(files[k].path) == components(keep)
                &&& forall|j: int|
                    i <= j < k ==> components((#[trigger] files[j]).path) != components(keep)
            }
            ||| {
                &&& k == 0
                &&& forall|j: int|
                    i <= j < files.len() ==> components((#[trigger] files[j]).path) != components(
                        keep,
                    )
            }
        }),
    decreases files.len() - i,
{
    if i < files.len() && components(files[i].path) != components(keep) {
        lemma_first_at_is_first(files, keep, i + 1);
    }
}

/// Where the rows of groups come from.
proof fn lemma_row_places(groups: Seq<GroupModel>, n: int, clusters: bool) -> (places: Seq<int>)
    requires
        0 <= n <= groups.len(),
    ensures
        places.len() == fresh_rows(groups, n, clusters).len(),
        forall|a: int, b: int| 0 <= a < b < places.len() ==> places[a] < places[b],
        forall|a: int|
            0 <= a < places.len() ==> 0 <= #[trigger] places[a] < n && is_row_of_group(
                fresh_rows(groups, n, clusters)[a],
                groups,
                places[a],
            ) && (groups[places[a]].kind == GroupKind::NameCluster) == clusters,
        forall|i: int|
            0 <= i < n && ((#[trigger] groups[i]).kind == GroupKind::NameCluster) == clusters
                ==> places.contains(i),
    decreases n,
{
    if n <= 0 {
        Seq::empty()
    } else {
        let before = lemma_row_places(groups, n - 1, clusters);
        let fits = (groups[n - 1].kind == GroupKind::NameCluster) == clusters;
        let places = if fits {
            before.push(n - 1)
        } else {
            before
        };
        let rows = fresh_rows(groups, n, clusters);
        let fewer = fresh_rows(groups, n - 1, clusters);
        assert forall|a: int| 0 <= a < places.len() implies 0 <= #[trigger] places[a] < n
            && is_row_of_group(rows[a], groups, places[a]) && (groups[places[a]].kind
            == GroupKind::NameCluster) == clusters by {
            if a < before.len() {
                assert(places[a] == before[a]);
                assert(rows[a] == fewer[a]);
            }
        }
        assert forall|i: int|
            0 <= i < n && ((#[trigger] groups[i]).kind == GroupKind::NameCluster)
                == clusters implies places.contains(i) by {
            if i < n - 1 {
                assert(before.contains(i));
                let a = choose|a: int| 0 <= a < before.len() && before[a] == i;
                assert(places[a] == i);
            } else {
                assert(places[places.len() - 1] == i);
            }
        }
        places
    }
}

/// Whether `row` is the row that group `i` starts with: what is suggested for it is
/// chosen, its files are hidden, and the focus is on the file that is suggested to
/// be kept.
pub open spec fn is_row_of_group(row: RowModel, groups: Seq<GroupModel>, i: int) -> bool {
    &&& row.group_idx == i
    &&& row.chosen == groups[i].suggested
    &&& !row.expanded
    &&& row.file_cursor == keeper_place(groups[i])
}

/// Whether `rows` has one row for each of the groups that are clusters of names, or
/// of those that are not, in the order of the groups.
pub open spec fn has_one_row_for_each(
    rows: Seq<RowModel>,
    groups: Seq<GroupModel>,
    clusters: bool,
) -> bool {
    &&& forall|a: int, b: int|
        0 <= a < b < rows.len() ==> (#[trigger] rows[a]).group_idx < (#[trigger] rows[b]).group_idx
    &&& forall|a: int|
        0 <= a < rows.len() ==> {
            let i = (#[trigger] rows[a]).group_idx;
            &&& 0 <= i < groups.len()
            &&& is_row_of_group(rows[a], groups, i)
            &&& (groups[i].kind == GroupKind::NameCluster) == clusters
        }
    &&& forall|i: int|
        0 <= i < groups.len() && ((#[trigger] groups[i]).kind == GroupKind::NameCluster)
            == clusters ==> exists|a: int|
            0 <= a < rows.len() && (#[trigger] rows[a]).group_idx == i
}

/// The rows of groups have one for each.
proof fn lemma_one_row_for_each(groups: Seq<GroupModel>, clusters: bool)
    ensures
        has_one_row_for_each(
            fresh_rows(groups, groups.len() as int, clusters),
            groups,
            clusters,
        ),
{
    let places = lemma_row_places(groups, groups.len() as int, clusters);
    let rows = fresh_rows(groups, groups.len() as int, clusters);
    assert forall|a: int| 0 <= a < rows.len() implies {
        let i = (#[trigger] rows[a]).group_idx;
        &&& i == places[a]
        &&& 0 <= i < groups.len()
        &&& is_row_of_group(rows[a], groups, i)
        &&& (groups[i].kind == GroupKind::NameCluster) == clusters
    } by {
        assert(0 <= places[a]);
    }
    assert forall|i: int|
        0 <= i < groups.len() && ((#[trigger] groups[i]).kind == GroupKind::NameCluster)
            == clusters implies exists|a: int|
        0 <= a < rows.len() && (#[trigger] rows[a]).group_idx == i by {
        assert(places.contains(i));
        let a = choose|a: int| 0 <= a < places.len() && places[a] == i;
        assert(rows[a].group_idx == i);
    }
}

/// A UI that is given groups shows each of them once: clusters of names in one list
/// and all others in the other, in their order. It starts with the first list, at
/// the first row, with no question open.
pub proof fn every_group_gets_a_row(groups: Seq<GroupModel>, execute_allowed: bool)
    ensures
        ({
            let app = AppModel::showing(groups, execute_allowed);
            &&& app.groups == groups
            &&& has_one_row_for_each(app.rows_dup, groups, false)
            &&& has_one_row_for_each(app.rows_cluster, groups, true)
            &&& app.tab == Tab::Duplicates
            &&& app.selected_dup == 0
            &&& app.selected_cluster == 0
            &&& app.execute_allowed == execute_allowed
            &&& !app.confirm_execute
            &&& app.mode == ModeModel::Browsing
        }),
{
    lemma_one_row_for_each(groups, false);
    lemma_one_row_for_each(groups, true);
}

/// A UI that waits for a scan has nothing to show, and has counted nothing.
pub proof fn a_scan_starts_with_nothing(execute_allowed: bool)
    ensures
        ({
            let app = AppModel::scanning(execute_allowed);
            &&& app.groups.len() == 0
            &&& app.rows_dup.len() == 0
            &&& app.rows_cluster.len() == 0
            &&& app.tab == Tab::Duplicates
            &&& app.selected_dup == 0
            &&& app.selected_cluster == 0
            &&& app.execute_allowed == execute_allowed
            &&& !app.confirm_execute
            &&& app.mode is Scanning
            &&& app.mode->Scanning_0.walked == 0
            &&& app.mode->Scanning_0.hash_done == 0
            &&& app.mode->Scanning_0.hash_total == 0
            &&& app.mode->Scanning_0.error is None
        }),
{
}

/// News of a scan are noted while it runs: the counts that they tell, and no other.
/// The groups that were found are shown, and a failure ends the scan. Afterwards
/// news change nothing.
pub proof fn news_are_noted_while_a_scan_runs(app: AppModel, p: ProgressModel)
    ensures
        !(app.mode is Scanning) ==> app.told(p) == app,
        app.mode is Scanning ==> {
            let s = app.mode->Scanning_0;
            let after = app.told(p);
            match p {
                ProgressModel::Walked(n) => after == (AppModel { mode: after.mode, ..app })
                    && after.mode is Scanning && after.mode->Scanning_0.walked == n
                    && after.mode->Scanning_0.hash_done == s.hash_done
                    && after.mode->Scanning_0.hash_total == s.hash_total
                    && after.mode->Scanning_0.error == s.error,
                ProgressModel::HashStart { total } => after == (AppModel {
                    mode: after.mode,
                    ..app
                }) && after.mode is Scanning && after.mode->Scanning_0.walked == s.walked
                    && after.mode->Scanning_0.hash_done == 0 && after.mode->Scanning_0.hash_total
                    == total && after.mode->Scanning_0.error == s.error,
                ProgressModel::Hashed { done, total } => after == (AppModel {
                    mode: after.mode,
                    ..app
                }) && after.mode is Scanning && after.mode->Scanning_0.walked == s.walked
                    && after.mode->Scanning_0.hash_done == done
                    && after.mode->Scanning_0.hash_total == total && after.mode->Scanning_0.error
                    == s.error,
                ProgressModel::Done(groups) => {
                    &&& after.groups == groups
                    &&& has_one_row_for_each(after.rows_dup, groups, false)
                    &&& has_one_row_for_each(after.rows_cluster, groups, true)
                    &&& after.mode == ModeModel::Browsing
                    &&& after.tab == app.tab
                    &&& after.selected_dup == app.selected_dup
                    &&& after.selected_cluster == app.selected_cluster
                    &&& after.execute_allowed == app.execute_allowed
                    &&& after.confirm_execute == app.confirm_execute
                },
                ProgressModel::Error(e) => after == (AppModel {
                    mode: ModeModel::Failed(e),
                    ..app
                }),
            }
        },
{
    match p {
        ProgressModel::Done(groups) => {
            lemma_one_row_for_each(groups, false);
            lemma_one_row_for_each(groups, true);
        },
        _ => {},
    }
}

/// Where the actions of rows come from.
proof fn lemma_active_places(rows: Seq<RowModel>) -> (places: Seq<int>)
    ensures
        places.len() == active(rows).len(),
        forall|a: int, b: int| 0 <= a < b < places.len() ==> places[a] < places[b],
        forall|a: int|
            0 <= a < places.len() ==> 0 <= #[trigger] places[a] < rows.len()
                && rows[places[a]].chosen == active(rows)[a] && rows[places[a]].chosen
                != ActionModel::Ignore,
        forall|i: int|
            0 <= i < rows.len() && (#[trigger] rows[i]).chosen != ActionModel::Ignore
                ==> places.contains(i),
    decreases rows.len(),
{
    if rows.len() == 0 {
        Seq::empty()
    } else {
        let rest = rows.drop_last();
        let n = rest.len() as int;
        let before = lemma_active_places(rest);
        let places = if rows.last().chosen == ActionModel::Ignore {
            before
        } else {
            before.push(n)
        };
        let list = active(rows);
        assert forall|a: int| 0 <= a < places.len() implies 0 <= #[trigger] places[a] < rows.len()
            && rows[places[a]].chosen == list[a] && rows[places[a]].chosen
            != ActionModel::Ignore by {
            if a < before.len() {
                assert(places[a] == before[a]);
                assert(rows[before[a]] == rest[before[a]]);
                assert(list[a] == active(rest)[a]);
            } else {
                assert(rows[n] == rows.last());
            }
        }
        assert forall|i: int|
            0 <= i < rows.len() && (#[trigger] rows[i]).chosen
                != ActionModel::Ignore implies places.contains(i) by {
            if i < n {
                assert(rest[i] == rows[i]);
                assert(before.contains(i));
                let a = choose|a: int| 0 <= a < before.len() && before[a] == i;
                assert(places[a] == i);
            } else {
                assert(places[places.len() - 1] == n);
            }
        }
        places
    }
}

/// A plan lists the chosen actions of the rows that do something, each once and in
/// their order, those of duplicates before those of clusters. It is to be carried
/// out, or only to be shown, as was asked.
pub proof fn a_plan_lists_the_rows_in_order(app: AppModel, dry_run: bool)
    ensures
        app.plan(dry_run).dry_run == dry_run,
        exists|places: Seq<int>|
            {
                let rows = app.rows_dup + app.rows_cluster;
                &&& #[trigger] places.len() == app.plan(dry_run).actions.len()
                &&& forall|a: int, b: int| 0 <= a < b < places.len() ==> places[a] < places[b]
                &&& forall|a: int|
                    0 <= a < places.len() ==> 0 <= #[trigger] places[a] < rows.len()
                        && rows[places[a]].chosen == app.plan(dry_run).actions[a]
                        && rows[places[a]].chosen != ActionModel::Ignore
                &&& forall|i: int|
                    0 <= i < app.rows_dup.len() + app.rows_cluster.len() && (#[trigger] (
                    app.rows_dup + app.rows_cluster)[i]).chosen != ActionModel::Ignore
                        ==> places.contains(i)
            },
{
    let rows = app.rows_dup + app.rows_cluster;
    lemma_active_adds(app.rows_dup, app.rows_cluster);
    let places = lemma_active_places(rows);
    assert(places.len() == app.plan(dry_run).actions.len());
}

/// Whether totals add up.
pub open spec fn is_sum(t: TotalsModel, a: TotalsModel, b: TotalsModel) -> bool {
    &&& t.groups == a.groups + b.groups
    &&& t.files == a.files + b.files
    &&& t.bytes == a.bytes + b.bytes
}

/// The totals of two lists of rows add up.
proof fn lemma_totals_add(groups: Seq<GroupModel>, a: Seq<RowModel>, b: Seq<RowModel>)
    ensures
        is_sum(
            rows_totals(groups, a + b),
            rows_totals(groups, a),
            rows_totals(groups, b),
        ),
    decreases b.len(),
{
    if b.len() == 0 {
        assert(a + b =~= a);
    } else {
        assert((a + b).drop_last() =~= a + b.drop_last());
        lemma_totals_add(groups, a, b.drop_last());
    }
}

/// The totals count the rows that do something: each as a group, with the paths that
/// it trashes or folds as files. What is trashed frees the size of the group's first
/// file for every path, what is folded frees nothing. The rows of both lists count.
pub proof fn totals_count_what_is_done(app: AppModel, row: RowModel)
    ensures
        is_sum(
            app.totals(),
            rows_totals(app.groups, app.rows_dup),
            rows_totals(app.groups, app.rows_cluster),
        ),
        ({
            let t = rows_totals(app.groups, seq![row]);
            let files = app.groups[row.group_idx].files;
            match row.chosen {
                ActionModel::Ignore => t.groups == 0 && t.files == 0 && t.bytes == 0,
                ActionModel::KeepOne { trash, .. } => t.groups == 1 && t.files == trash.len() && (
                files.len() > 0 ==> t.bytes == files[0].size * trash.len()),
                ActionModel::DeleteAll { trash } => t.groups == 1 && t.files == trash.len() && (
                files.len() > 0 ==> t.bytes == files[0].size * trash.len()),
                ActionModel::FoldIntoFolder { files: folded, .. } => t.groups == 1 && t.files
                    == folded.len() && t.bytes == 0,
            }
        }),
        app.groups[row.group_idx].files.len() == 0 ==> rows_totals(
            app.groups,
            seq![row],
        ).bytes == 0,
{
    lemma_totals_add(app.groups, app.rows_dup, app.rows_cluster);
    assert(seq![row].drop_last() =~= Seq::<RowModel>::empty());
    assert(rows_totals(app.groups, Seq::<RowModel>::empty()).bytes == 0);
}

/// The totals of lists of rows add up.
pub proof fn totals_of_rows_add_up(groups: Seq<GroupModel>, a: Seq<RowModel>, b: Seq<RowModel>)
    ensures
        is_sum(
            rows_totals(groups, a + b),
            rows_totals(groups, a),
            rows_totals(groups, b),
        ),
{
    lemma_totals_add(groups, a, b);
}

/// A row's file has the focus if it stands at the cursor, and is shown as kept if the
/// chosen action keeps its path.
pub proof fn the_kept_file_is_shown_as_kept(row: RowModel, group: GroupModel, i: int)
    ensures
        file_line(row, group, i).focused <==> i == row.file_cursor,
        file_line(row, group, i).keep <==> row.chosen is KeepOne && components(row.chosen->keep)
            == components(group.files[i].path),
{
}

/// The rebuilt action keeps the one file and trashes all others, in their order.
pub proof fn all_but_the_marked_file_are_trashed(g: GroupModel, k: int)
    requires
        0 <= k < g.files.len(),
    ensures
        keep_file(g, k) is KeepOne,
        keep_file(g, k)->keep == g.files[k].path,
        keep_file(g, k)->KeepOne_trash == g.files.remove(k).map_values(
            |f: GroupFileModel| f.path,
        ),
{
    assert(keep_file(g, k)->KeepOne_trash =~= g.files.remove(k).map_values(
        |f: GroupFileModel| f.path,
    ));
}

/// Any action is followed by none, and none by what is suggested.
pub proof fn actions_take_turns(current: ActionModel, suggested: ActionModel)
    ensures
        current != ActionModel::Ignore ==> cycled(current, suggested) == ActionModel::Ignore,
        current == ActionModel::Ignore ==> cycled(current, suggested) == suggested,
{
}

/// A list without rows takes every key, has nothing to open and no row to change.
pub proof fn a_list_without_rows_has_nothing_to_change(app: AppModel, key: KeyEvent)
    requires
        app.is_sound(),
        match app.tab {
            Tab::Duplicates => app.rows_dup.len() == 0,
            Tab::Clusters => app.rows_cluster.len() == 0,
        },
    ensures
        app.takes(key),
        app.opens(key) is None,
        app.after_key(key).rows_dup == app.rows_dup,
        app.after_key(key).rows_cluster == app.rows_cluster,
        app.after_key(key).selected_dup == app.selected_dup,
        app.after_key(key).selected_cluster == app.selected_cluster,
{
}

/// Totals are told unless a count or the bytes are too large to be held.
pub proof fn only_too_large_totals_are_not_told(t: TotalsModel)
    ensures
        totals_fit(t) <==> !(t.groups > usize::MAX || t.files > usize::MAX || t.bytes > u64::MAX),
{
}

/// The news of a hashed file end with how many are done, and start with the news that
/// hashing has started if no file was hashed before. Both tell the same total.
pub proof fn news_of_hashing_start_once(started: bool, done: int, total: int)
    ensures
        ({
            let news = news_of_hashing(started, done, total);
            &&& news.len() > 0
            &&& news.last() == (ProgressModel::Hashed { done, total })
            &&& started ==> news.len() == 1
            &&& !started ==> news.len() == 2 && news[0] == (ProgressModel::HashStart { total })
        }),
{
}

} // verus!
