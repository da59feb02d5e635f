//! What the terminal shows of the state of the UI.

use vstd::prelude::*;
use crate::paths::FilePath;
use crate::plan::{Action, ActionModel, Group, GroupModel};
use crate::text::{digit_chars, digits, digits_spell_the_number, push_padded};
use crate::ui::{file_line, file_lines, App, AppModel, FileLine, Mode, ModeModel, Row, RowModel};
use crate::ui::{totals_fit, ScanModel, ScanState, Tab, Totals, TotalsModel};

verus! {

/// The colour of a group's mark.
#[derive(Debug, Clone, Copy, PartialEq, Eq, Structural)]
pub enum MarkStyle {
    Delete,
    Fold,
    Skip,
}

/// How the line of a file is shown.
#[derive(Debug, Clone, Copy, PartialEq, Eq, Structural)]
pub enum LineStyle {
    Focused,
    Keep,
    Plain,
}

/// The line of a file.
#[derive(Debug)]
pub struct LineView {
    pub prefix: &'static str,
    pub path: FilePath,
    pub style: LineStyle,
}

/// The line of a file as a value.
#[verifier::ext_equal]
pub struct LineModel {
    pub prefix: Seq<char>,
    pub path: Seq<u8>,
    pub style: LineStyle,
}

impl View for LineView {
    type V = LineModel;

    open spec fn view(&self) -> LineModel {
        LineModel { prefix: self.prefix@, path: self.path@, style: self.style }
    }
}

/// The lines of a list as values.
pub open spec fn line_models(lines: Seq<LineView>) -> Seq<LineModel> {
    Seq::new(lines.len(), |i: int| lines[i]@)
}

/// A group in a list: its mark, its label, the number of its files, the size of
/// the first, and the lines of its files.
#[derive(Debug)]
pub struct GroupView {
    pub marker: &'static str,
    pub style: MarkStyle,
    pub label: String,
    pub files: usize,
    pub unit: u64,
    pub lines: Vec<LineView>,
}

/// A group in a list as a value.
#[verifier::ext_equal]
pub struct ItemModel {
    pub marker: Seq<char>,
    pub style: MarkStyle,
    pub label: Seq<char>,
    pub files: int,
    pub unit: int,
    pub lines: Seq<LineModel>,
}

impl View for GroupView {
    type V = ItemModel;

    open spec fn view(&self) -> ItemModel {
        ItemModel {
            marker: self.marker@,
            style: self.style,
            label: self.label@,
            files: self.files as int,
            unit: self.unit as int,
            lines: line_models(self.lines@),
        }
    }
}

/// The groups of a list as values.
pub open spec fn item_models(items: Seq<GroupView>) -> Seq<ItemModel> {
    Seq::new(items.len(), |i: int| items[i]@)
}

/// The mark of an action.
pub open spec fn mark_of(a: ActionModel) -> Seq<char> {
    match a {
        ActionModel::KeepOne { .. } | ActionModel::DeleteAll { .. } => "[del]"@,
        ActionModel::FoldIntoFolder { .. } => "[fold]"@,
        ActionModel::Ignore => "[skip]"@,
    }
}

/// The colour of an action's mark.
pub open spec fn mark_style_of(a: ActionModel) -> MarkStyle {
    match a {
        ActionModel::KeepOne { .. } | ActionModel::DeleteAll { .. } => MarkStyle::Delete,
        ActionModel::FoldIntoFolder { .. } => MarkStyle::Fold,
        ActionModel::Ignore => MarkStyle::Skip,
    }
}

/// The mark of an action.
pub fn marker(action: &Action) -> (r: &'static str)
    ensures
        r@ == mark_of(action@),
{
    match action {
        Action::KeepOne { .. } | Action::DeleteAll { .. } => "[del]",
        Action::FoldIntoFolder { .. } => "[fold]",
        Action::Ignore => "[skip]",
    }
}

/// The colour of an action's mark.
fn mark_style(action: &Action) -> (r: MarkStyle)
    ensures
        r == mark_style_of(action@),
{
    match action {
        Action::KeepOne { .. } | Action::DeleteAll { .. } => MarkStyle::Delete,
        Action::FoldIntoFolder { .. } => MarkStyle::Fold,
        Action::Ignore => MarkStyle::Skip,
    }
}

/// What stands before the path of a file.
pub open spec fn prefix_of(line: FileLine) -> Seq<char> {
    if line.focused && line.keep {
        "  ▶ keep "@
    } else if line.focused {
        "  ▶ del  "@
    } else if line.keep {
        "    keep "@
    } else {
        "    del  "@
    }
}

/// What stands before the path of a file.
pub fn line_prefix(line: FileLine) -> (r: &'static str)
    ensures
        r@ == prefix_of(line),
{
    match (line.focused, line.keep) {
        (true, true) => "  ▶ keep ",
        (true, false) => "  ▶ del  ",
        (false, true) => "    keep ",
        (false, false) => "    del  ",
    }
}

/// How the line of a file is shown: the focus comes before the keeper.
pub open spec fn line_style_of(line: FileLine) -> LineStyle {
    if line.focused {
        LineStyle::Focused
    } else if line.keep {
        LineStyle::Keep
    } else {
        LineStyle::Plain
    }
}

/// The line of file `i` of a row's group.
pub open spec fn line_of(row: RowModel, group: GroupModel, i: int) -> LineModel {
    let line = file_line(row, group, i);
    LineModel {
        prefix: prefix_of(line),
        path: group.files[i].path,
        style: line_style_of(line),
    }
}

/// A row as it is shown. The files are listed only if the row is expanded.
pub open spec fn item_of(row: RowModel, group: GroupModel) -> ItemModel {
    ItemModel {
        marker: mark_of(row.chosen),
        style: mark_style_of(row.chosen),
        label: group.label,
        files: group.files.len() as int,
        unit: if group.files.len() == 0 {
            0
        } else {
            group.files[0].size as int
        },
        lines: if row.expanded {
            Seq::new(group.files.len(), |i: int| line_of(row, group, i))
        } else {
            Seq::empty()
        },
    }
}

/// A row as it is shown.
pub fn group_list_item(row: &Row, group: &Group) -> (r: GroupView)
    ensures
        r@ == item_of(row@, group@),
{
    let states = file_lines(row, group);
    let mut lines: Vec<LineView> = Vec::new();
    let mut i: usize = 0;
    while i < states.len()
        invariant
            i <= states@.len(),
            states@.len() <= group.files@.len(),
            row.expanded ==> states@.len() == group.files@.len(),
            forall|k: int|
                0 <= k < states@.len() ==> #[trigger] states@[k] == file_line(row@, group@, k),
            lines@.len() == i,
            forall|k: int| 0 <= k < i ==> (#[trigger] lines@[k])@ == line_of(row@, group@, k),
        decreases states@.len() - i,
    {
        let line = states[i];
        let style = if line.focused {
            LineStyle::Focused
        } else if line.keep {
            LineStyle::Keep
        } else {
            LineStyle::Plain
        };
        assert(group@.files[i as int] == group.files@[i as int]@);
        lines.push(
            LineView { prefix: line_prefix(line), path: group.files[i].path.clone(), style },
        );
        i = i + 1;
    }
    let unit: u64 = if group.files.len() == 0 {
        0
    } else {
        assert(group@.files[0] == group.files@[0]@);
        group.files[0].size
    };
    let r = GroupView {
        marker: marker(&row.chosen),
        style: mark_style(&row.chosen),
        label: group.label.clone(),
        files: group.files.len(),
        unit,
        lines,
    };
    assert(r@.lines =~= item_of(row@, group@).lines);
    r
}

/// The lists as they are shown.
#[derive(Debug)]
pub struct ListsView {
    pub tab: usize,
    pub items: Vec<GroupView>,
    pub highlighted: Option<usize>,
    pub totals: Totals,
    pub mode: &'static str,
    pub confirm: bool,
}

/// The lists as they are shown, as a value.
#[verifier::ext_equal]
pub struct ListsModel {
    pub tab: int,
    pub items: Seq<ItemModel>,
    pub highlighted: Option<int>,
    pub totals: TotalsModel,
    pub mode: Seq<char>,
    pub confirm: bool,
}

impl View for ListsView {
    type V = ListsModel;

    open spec fn view(&self) -> ListsModel {
        ListsModel {
            tab: self.tab as int,
            items: item_models(self.items@),
            highlighted: match self.highlighted {
                Some(i) => Some(i as int),
                None => None,
            },
            totals: self.totals@,
            mode: self.mode@,
            confirm: self.confirm,
        }
    }
}

/// What the terminal shows.
#[derive(Debug)]
pub enum Screen {
    Scanning { walked: String, label: String, done: usize, total: usize },
    Failed(String),
    Lists(ListsView),
}

/// What the terminal shows, as a value.
#[verifier::ext_equal]
pub enum ScreenModel {
    Scanning { walked: Seq<char>, label: Seq<char>, done: int, total: int },
    Failed(Seq<char>),
    Lists(ListsModel),
}

impl View for Screen {
    type V = ScreenModel;

    open spec fn view(&self) -> ScreenModel {
        match self {
            Screen::Scanning { walked, label, done, total } => ScreenModel::Scanning {
                walked: walked@,
                label: label@,
                done: *done as int,
                total: *total as int,
            },
            Screen::Failed(text) => ScreenModel::Failed(text@),
            Screen::Lists(lists) => ScreenModel::Lists(lists@),
        }
    }
}

/// A number in decimal.
pub open spec fn decimal(v: int) -> Seq<char> {
    digit_chars(digits(v as nat))
}

/// What the hashing bar says.
pub open spec fn label_of(s: ScanModel) -> Seq<char> {
    if s.hash_total == 0 {
        "preparing…"@
    } else {
        "hashing "@ + decimal(s.hash_done) + " / "@ + decimal(s.hash_total)
    }
}

/// What the hashing bar says.
pub fn scan_label(s: &ScanState) -> (r: String)
    ensures
        r@ == label_of(s@),
{
    let mut out = String::new();
    if s.hash_total == 0 {
        out.append("preparing…");
        assert(out@ =~= "preparing…"@);
        return out;
    }
    out.append("hashing ");
    assert(out@ =~= "hashing "@);
    push_padded(&mut out, s.hash_done as u64, 0);
    out.append(" / ");
    push_padded(&mut out, s.hash_total as u64, 0);
    out
}

/// What is shown of the state of the UI.
pub open spec fn shown_of(app: AppModel) -> ScreenModel {
    match app.mode {
        ModeModel::Scanning(s) => ScreenModel::Scanning {
            walked: "walked: "@ + decimal(s.walked) + " files"@,
            label: label_of(s),
            done: s.hash_done,
            total: s.hash_total,
        },
        ModeModel::Failed(e) => ScreenModel::Failed(
            "scan failed:\n\n"@ + e + "\n\npress any key to quit"@,
        ),
        ModeModel::Browsing => ScreenModel::Lists(
            ListsModel {
                tab: match app.tab {
                    Tab::Duplicates => 0,
                    Tab::Clusters => 1,
                },
                items: Seq::new(
                    app.rows().len(),
                    |i: int| item_of(app.rows()[i], app.groups[app.rows()[i].group_idx]),
                ),
                highlighted: if app.rows().len() == 0 {
                    None
                } else {
                    Some(app.selected())
                },
                totals: app.totals(),
                mode: if app.execute_allowed {
                    "execute"@
                } else {
                    "dry-run"@
                },
                confirm: app.confirm_execute,
            },
        ),
    }
}

/// The rows of the shown list as they are shown.
fn list_items(app: &App) -> (r: Vec<GroupView>)
    requires
        app@.is_sound(),
    ensures
        item_models(r@) == Seq::new(
            app@.rows().len(),
            |i: int| item_of(app@.rows()[i], app@.groups[app@.rows()[i].group_idx]),
        ),
{
    let rows = app.rows();
    assert(app@.rows().len() == rows@.len());
    let mut items: Vec<GroupView> = Vec::new();
    let mut i: usize = 0;
    while i < rows.len()
        invariant
            app@.is_sound(),
            i <= rows@.len(),
            app@.rows().len() == rows@.len(),
            forall|k: int| 0 <= k < rows@.len() ==> app@.rows()[k] == (#[trigger] rows@[k])@,
            items@.len() == i,
            forall|k: int|
                0 <= k < i ==> (#[trigger] items@[k])@ == item_of(
                    app@.rows()[k],
                    app@.groups[app@.rows()[k].group_idx],
                ),
        decreases rows@.len() - i,
    {
        let row = &rows[i];
        proof {
            assert(app@.rows()[i as int] == rows@[i as int]@);
            match app@.tab {
                Tab::Duplicates => {
                    assert(app@.rows_dup[i as int] == row@);
                },
                Tab::Clusters => {
                    assert(app@.rows_cluster[i as int] == row@);
                },
            }
            assert(app@.groups[row.group_idx as int] == app.groups@[row.group_idx as int]@);
        }
        items.push(group_list_item(row, &app.groups[row.group_idx]));
        i = i + 1;
    }
    assert(item_models(items@) =~= Seq::new(
        app@.rows().len(),
        |i: int| item_of(app@.rows()[i], app@.groups[app@.rows()[i].group_idx]),
    ));
    items
}

/// What is shown of the state of the UI. `None` if the totals of the lists do not
/// fit.
pub fn screen(app: &App) -> (r: Option<Screen>)
    requires
        app@.is_sound(),
    ensures
        match r {
            Some(s) => s@ == shown_of(app@),
            None => app@.mode is Browsing && !totals_fit(app@.totals()),
        },
{
    match &app.mode {
        Mode::Scanning(s) => {
            let mut walked = String::new();
            walked.append("walked: ");
            assert(walked@ =~= "walked: "@);
            push_padded(&mut walked, s.walked as u64, 0);
            walked.append(" files");
            Some(
                Screen::Scanning {
                    walked,
                    label: scan_label(s),
                    done: s.hash_done,
                    total: s.hash_total,
                },
            )
        },
        Mode::Failed(e) => {
            let mut text = String::new();
            text.append("scan failed:\n\n");
            assert(text@ =~= "scan failed:\n\n"@);
            text.append(e.as_str());
            text.append("\n\npress any key to quit");
            Some(Screen::Failed(text))
        },
        Mode::Browsing => {
            let totals = match app.try_totals() {
                Some(t) => t,
                None => {
                    return None;
                },
            };
            let lists = ListsView {
                tab: match app.tab {
                    Tab::Duplicates => 0,
                    Tab::Clusters => 1,
                },
                items: list_items(app),
                highlighted: app.highlighted(),
                totals,
                mode: if app.execute_allowed {
                    "execute"
                } else {
                    "dry-run"
                },
                confirm: app.confirm_execute,
            };
            Some(Screen::Lists(lists))
        },
    }
}

/// Each action has its mark: `[del]` for what trashes, `[fold]` for what folds and
/// `[skip]` for nothing, in colours of their own.
pub proof fn each_action_has_its_mark(a: ActionModel)
    ensures
        a is KeepOne || a is DeleteAll ==> mark_of(a) == seq!['[', 'd', 'e', 'l', ']']
            && mark_style_of(a) == MarkStyle::Delete,
        a is FoldIntoFolder ==> mark_of(a) == seq!['[', 'f', 'o', 'l', 'd', ']']
            && mark_style_of(a) == MarkStyle::Fold,
        a is Ignore ==> mark_of(a) == seq!['[', 's', 'k', 'i', 'p', ']'] && mark_style_of(a)
            == MarkStyle::Skip,
{
    reveal_strlit("[del]");
    reveal_strlit("[fold]");
    reveal_strlit("[skip]");
    assert("[del]"@ =~= seq!['[', 'd', 'e', 'l', ']']);
    assert("[fold]"@ =~= seq!['[', 'f', 'o', 'l', 'd', ']']);
    assert("[skip]"@ =~= seq!['[', 's', 'k', 'i', 'p', ']']);
}

/// The line of a file says whether the file is kept, and points at the one that has
/// the focus.
pub proof fn lines_say_what_is_kept(line: FileLine)
    ensures
        prefix_of(line).len() == 9,
        prefix_of(line)[2] == '▶' <==> line.focused,
        prefix_of(line).subrange(4, 8) == seq!['k', 'e', 'e', 'p'] <==> line.keep,
        prefix_of(line).subrange(4, 8) == seq!['d', 'e', 'l', ' '] <==> !line.keep,
        line.focused <==> line_style_of(line) == LineStyle::Focused,
        !line.focused && line.keep <==> line_style_of(line) == LineStyle::Keep,
{
    reveal_strlit("  ▶ keep ");
    reveal_strlit("  ▶ del  ");
    reveal_strlit("    keep ");
    reveal_strlit("    del  ");
    let keep = seq!['k', 'e', 'e', 'p'];
    let del = seq!['d', 'e', 'l', ' '];
    assert(keep[0] != del[0]);
    assert("  ▶ keep "@.subrange(4, 8) =~= keep);
    assert("    keep "@.subrange(4, 8) =~= keep);
    assert("  ▶ del  "@.subrange(4, 8) =~= del);
    assert("    del  "@.subrange(4, 8) =~= del);
}

/// A row is shown with the mark of its chosen action, the label of its group, the
/// number of the group's files and the size of the first. Its files are listed in
/// their order if the row is expanded, and not if it is not.
pub proof fn a_row_shows_its_group(row: RowModel, group: GroupModel)
    ensures
        ({
            let item = item_of(row, group);
            &&& item.marker == mark_of(row.chosen)
            &&& item.style == mark_style_of(row.chosen)
            &&& item.label == group.label
            &&& item.files == group.files.len()
            &&& group.files.len() == 0 ==> item.unit == 0
            &&& group.files.len() > 0 ==> item.unit == group.files[0].size
            &&& !row.expanded ==> item.lines.len() == 0
            &&& row.expanded ==> item.lines.len() == group.files.len() && forall|i: int|
                0 <= i < group.files.len() ==> {
                    let line = file_line(row, group, i);
                    &&& (#[trigger] item.lines[i]).path == group.files[i].path
                    &&& item.lines[i].prefix == prefix_of(line)
                    &&& item.lines[i].style == line_style_of(line)
                }
        }),
{
}

/// Numbers are written in decimal.
pub proof fn numbers_are_decimal(v: nat)
    ensures
        decimal(v as int).len() == digits(v).len(),
        forall|i: int|
            0 <= i < decimal(v as int).len() ==> (#[trigger] decimal(v as int)[i]) as int
                == '0' as int + digits(v)[i],
{
    digits_spell_the_number(v);
    assert forall|i: int| 0 <= i < decimal(v as int).len() implies (#[trigger] decimal(
        v as int,
    )[i]) as int == '0' as int + digits(v)[i] by {
        assert(digits(v)[i] < 10);
    }
}

/// While nothing is known of the hashing the bar says that it is prepared, and then
/// how many files were hashed, and of how many.
pub proof fn the_bar_counts_hashed_files(s: ScanModel)
    ensures
        s.hash_total == 0 ==> label_of(s) == "preparing…"@,
        s.hash_total != 0 ==> {
            let done = decimal(s.hash_done);
            let total = decimal(s.hash_total);
            let n = done.len() as int;
            &&& label_of(s).len() == 8 + n + 3 + total.len()
            &&& label_of(s).take(8) == seq!['h', 'a', 's', 'h', 'i', 'n', 'g', ' ']
            &&& label_of(s).subrange(8, 8 + n) == done
            &&& label_of(s).subrange(8 + n, 11 + n) == seq![' ', '/', ' ']
            &&& label_of(s).skip(11 + n) == total
        },
{
    reveal_strlit("hashing ");
    reveal_strlit(" / ");
    let done = decimal(s.hash_done);
    let total = decimal(s.hash_total);
    let n = done.len() as int;
    if s.hash_total != 0 {
        let l = label_of(s);
        assert(l.take(8) =~= seq!['h', 'a', 's', 'h', 'i', 'n', 'g', ' ']);
        assert(l.subrange(8, 8 + n) =~= done);
        assert(l.subrange(8 + n, 11 + n) =~= seq![' ', '/', ' ']);
        assert(l.skip(11 + n) =~= total);
    }
}

/// What is shown: the counts while a scan runs, its message once it has failed, and
/// else the list of the tab with all its rows, the selected one highlighted, the
/// totals, whether a plan would be executed, and whether that is being asked.
pub proof fn the_screen_shows_the_state(app: AppModel)
    requires
        app.is_sound(),
    ensures
        match app.mode {
            ModeModel::Scanning(s) => {
                let shown = shown_of(app);
                &&& shown is Scanning
                &&& shown->done == s.hash_done
                &&& shown->total == s.hash_total
                &&& shown->label == label_of(s)
                &&& shown->walked == "walked: "@ + decimal(s.walked) + " files"@
            },
            ModeModel::Failed(e) => {
                let shown = shown_of(app);
                &&& shown is Failed
                &&& exists|i: int|
                    0 <= i && i + e.len() <= shown->Failed_0.len() && #[trigger]
                        shown->Failed_0.subrange(i, i + e.len()) == e
            },
            ModeModel::Browsing => {
                let shown = shown_of(app);
                let rows = if app.tab == Tab::Duplicates {
                    app.rows_dup
                } else {
                    app.rows_cluster
                };
                let selected = if app.tab == Tab::Duplicates {
                    app.selected_dup
                } else {
                    app.selected_cluster
                };
                &&& shown is Lists
                &&& shown->Lists_0.tab == 0 <==> app.tab == Tab::Duplicates
                &&& shown->Lists_0.tab == 1 <==> app.tab == Tab::Clusters
                &&& shown->Lists_0.items.len() == rows.len()
                &&& forall|i: int|
                    0 <= i < rows.len() ==> #[trigger] shown->Lists_0.items[i] == item_of(
                        rows[i],
                        app.groups[rows[i].group_idx],
                    )
                &&& rows.len() == 0 ==> shown->Lists_0.highlighted is None
                &&& rows.len() > 0 ==> shown->Lists_0.highlighted == Some(selected)
                &&& shown->Lists_0.totals == app.totals()
                &&& shown->Lists_0.confirm == app.confirm_execute
                &&& shown->Lists_0.mode == if app.execute_allowed {
                    "execute"@
                } else {
                    "dry-run"@
                }
            },
        },
{
    match app.mode {
        ModeModel::Failed(e) => {
            let text = shown_of(app)->Failed_0;
            let n = "scan failed:\n\n"@.len() as int;
            assert(text.subrange(n, n + e.len()) =~= e);
        },
        _ => {},
    }
}

} // verus!
