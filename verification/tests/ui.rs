use tidyrs::paths::FilePath;
use tidyrs::plan::{Action, Group, GroupFile, GroupKind};
use tidyrs::screen::{line_prefix, marker, scan_label, screen, LineStyle, MarkStyle, Screen};
use tidyrs::ui::{
    file_lines, hash_news, App, KeyCode, KeyEvent, KeyEventKind, KeyModifiers, Mode, Progress,
    ScanState, Tab, Totals, UiOutcome,
};

fn dup_group(label: &str, paths: Vec<&str>, size: u64) -> Group {
    let files: Vec<GroupFile> = paths
        .iter()
        .map(|p| GroupFile { path: FilePath::new(p), size })
        .collect();
    let keep = files[0].path.clone();
    let trash = files[1..].iter().map(|f| f.path.clone()).collect();
    Group {
        kind: GroupKind::Duplicate,
        files,
        label: label.into(),
        suggested: Action::KeepOne { keep, trash },
    }
}

fn key(c: char) -> KeyEvent {
    KeyEvent::new(KeyCode::Char(c), KeyModifiers::Plain)
}

fn special(code: KeyCode) -> KeyEvent {
    KeyEvent::new(code, KeyModifiers::Plain)
}

#[test]
fn defaults_to_suggested_actions() {
    let app = App::new(vec![dup_group("h:1", vec!["/a", "/b"], 100)], false);
    assert!(matches!(app.rows_dup[0].chosen, Action::KeepOne { .. }));
}

#[test]
fn space_toggles_ignore() {
    let mut app = App::new(vec![dup_group("h:1", vec!["/a", "/b"], 100)], false);
    app.handle_key(key(' '));
    assert!(matches!(app.rows_dup[0].chosen, Action::Ignore));
    app.handle_key(key(' '));
    assert!(matches!(app.rows_dup[0].chosen, Action::KeepOne { .. }));
}

#[test]
fn a_cycles_actions() {
    let mut app = App::new(vec![dup_group("h:1", vec!["/a", "/b"], 100)], false);
    app.handle_key(key('a'));
    assert!(matches!(app.rows_dup[0].chosen, Action::Ignore));
    app.handle_key(key('a'));
    assert!(matches!(app.rows_dup[0].chosen, Action::KeepOne { .. }));
}

#[test]
fn enter_toggles_expanded() {
    let mut app = App::new(vec![dup_group("h:1", vec!["/a", "/b"], 100)], false);
    assert!(!app.rows_dup[0].expanded);
    app.handle_key(special(KeyCode::Enter));
    assert!(app.rows_dup[0].expanded);
}

#[test]
fn navigation_clamps() {
    let groups = vec![
        dup_group("h:1", vec!["/a", "/b"], 100),
        dup_group("h:2", vec!["/c", "/d"], 100),
    ];
    let mut app = App::new(groups, false);
    app.handle_key(special(KeyCode::Up));
    assert_eq!(app.selected(), 0);
    app.handle_key(special(KeyCode::Down));
    assert_eq!(app.selected(), 1);
    app.handle_key(special(KeyCode::Down));
    assert_eq!(app.selected(), 1);
}

#[test]
fn tab_switches_tabs() {
    let mut app = App::new(vec![dup_group("h:1", vec!["/a", "/b"], 100)], false);
    assert_eq!(app.tab, Tab::Duplicates);
    app.handle_key(special(KeyCode::Tab));
    assert_eq!(app.tab, Tab::Clusters);
}

#[test]
fn q_quits() {
    let mut app = App::new(vec![dup_group("h:1", vec!["/a", "/b"], 100)], false);
    let out = app.handle_key(key('q'));
    assert_eq!(out, Some(UiOutcome::Quit));
}

#[test]
fn w_saves_dry_run_plan() {
    let mut app = App::new(vec![dup_group("h:1", vec!["/a", "/b"], 100)], false);
    let out = app.handle_key(key('w'));
    match out {
        Some(UiOutcome::Save(plan)) => {
            assert!(plan.dry_run);
            assert_eq!(plan.actions.len(), 1);
        }
        other => panic!("expected Save, got {other:?}"),
    }
}

#[test]
fn x_requires_execute_flag() {
    let mut app = App::new(vec![dup_group("h:1", vec!["/a", "/b"], 100)], false);
    let out = app.handle_key(key('x'));
    assert_eq!(out, None);
    assert!(!app.confirm_execute);
}

#[test]
fn x_opens_confirm_then_y_executes() {
    let mut app = App::new(vec![dup_group("h:1", vec!["/a", "/b"], 100)], true);
    assert_eq!(app.handle_key(key('x')), None);
    assert!(app.confirm_execute);
    let out = app.handle_key(key('y'));
    match out {
        Some(UiOutcome::Execute(plan)) => {
            assert!(!plan.dry_run);
            assert_eq!(plan.actions.len(), 1);
        }
        other => panic!("expected Execute, got {other:?}"),
    }
}

#[test]
fn confirm_n_cancels() {
    let mut app = App::new(vec![dup_group("h:1", vec!["/a", "/b"], 100)], true);
    app.handle_key(key('x'));
    assert!(app.confirm_execute);
    let out = app.handle_key(key('n'));
    assert_eq!(out, None);
    assert!(!app.confirm_execute);
}

#[test]
fn ignored_groups_omitted_from_plan() {
    let groups = vec![
        dup_group("h:1", vec!["/a", "/b"], 100),
        dup_group("h:2", vec!["/c", "/d"], 100),
    ];
    let mut app = App::new(groups, false);
    app.handle_key(special(KeyCode::Down));
    app.handle_key(key(' '));
    let plan = app.build_plan(true);
    assert_eq!(plan.actions.len(), 1);
}

#[test]
fn totals_sum_only_active_actions() {
    let groups = vec![
        dup_group("h:1", vec!["/a", "/b"], 100), // reclaim 100
        dup_group("h:2", vec!["/c", "/d"], 200), // reclaim 200
    ];
    let mut app = App::new(groups, false);
    let (g, f, b) = app.totals();
    assert_eq!(g, 2);
    assert_eq!(f, 2);
    assert_eq!(b, 300);

    app.handle_key(key(' ')); // ignore first
    let (g, f, b) = app.totals();
    assert_eq!(g, 1);
    assert_eq!(f, 1);
    assert_eq!(b, 200);
}

#[test]
fn scanning_app_starts_empty() {
    let app = App::empty_scanning(false);
    assert!(app.is_scanning());
    assert!(app.groups.is_empty());
}

#[test]
fn progress_updates_scan_state() {
    let mut app = App::empty_scanning(false);
    app.apply_progress(Progress::Walked(42));
    app.apply_progress(Progress::HashStart { total: 10 });
    app.apply_progress(Progress::Hashed { done: 5, total: 10 });
    match &app.mode {
        Mode::Scanning(s) => {
            assert_eq!(s.walked, 42);
            assert_eq!(s.hash_done, 5);
            assert_eq!(s.hash_total, 10);
        }
        _ => panic!("expected Scanning"),
    }
}

#[test]
fn done_transitions_to_browsing() {
    let mut app = App::empty_scanning(false);
    let g = dup_group("h:1", vec!["/a", "/b"], 100);
    app.apply_progress(Progress::Done(vec![g]));
    assert!(matches!(app.mode, Mode::Browsing));
    assert_eq!(app.rows_dup.len(), 1);
}

#[test]
fn q_during_scan_quits() {
    let mut app = App::empty_scanning(false);
    let out = app.handle_key(key('q'));
    assert_eq!(out, Some(UiOutcome::Quit));
}

#[test]
fn other_keys_during_scan_ignored() {
    let mut app = App::empty_scanning(false);
    assert_eq!(app.handle_key(key('a')), None);
    assert_eq!(app.handle_key(key('w')), None);
}

#[test]
fn file_cursor_defaults_to_keeper() {
    let g = dup_group("h:1", vec!["/a", "/b", "/c"], 100);
    let app = App::new(vec![g], false);
    // keeper is /a (index 0)
    assert_eq!(app.rows_dup[0].file_cursor, 0);
}

#[test]
fn shift_j_k_moves_file_cursor_when_expanded() {
    let g = dup_group("h:1", vec!["/a", "/b", "/c"], 100);
    let mut app = App::new(vec![g], false);
    app.handle_key(special(KeyCode::Enter)); // expand
    assert!(app.rows_dup[0].expanded);
    app.handle_key(key('J'));
    assert_eq!(app.rows_dup[0].file_cursor, 1);
    app.handle_key(key('J'));
    assert_eq!(app.rows_dup[0].file_cursor, 2);
    app.handle_key(key('J')); // clamp
    assert_eq!(app.rows_dup[0].file_cursor, 2);
    app.handle_key(key('K'));
    assert_eq!(app.rows_dup[0].file_cursor, 1);
}

#[test]
fn file_cursor_inert_when_collapsed() {
    let g = dup_group("h:1", vec!["/a", "/b", "/c"], 100);
    let mut app = App::new(vec![g], false);
    app.handle_key(key('J'));
    assert_eq!(app.rows_dup[0].file_cursor, 0);
}

#[test]
fn m_marks_focused_file_as_keeper() {
    let g = dup_group("h:1", vec!["/a", "/b", "/c"], 100);
    let mut app = App::new(vec![g], false);
    app.handle_key(special(KeyCode::Enter));
    app.handle_key(key('J')); // cursor on /b
    app.handle_key(key('m'));
    match &app.rows_dup[0].chosen {
        Action::KeepOne { keep, trash } => {
            assert_eq!(keep, &FilePath::new("/b"));
            assert_eq!(trash.len(), 2);
            assert!(trash.contains(&FilePath::new("/a")));
            assert!(trash.contains(&FilePath::new("/c")));
        }
        other => panic!("expected KeepOne, got {other:?}"),
    }
}

#[test]
fn m_recovers_from_ignore() {
    let g = dup_group("h:1", vec!["/a", "/b"], 100);
    let mut app = App::new(vec![g], false);
    app.handle_key(key(' ')); // ignore
    assert!(matches!(app.rows_dup[0].chosen, Action::Ignore));
    app.handle_key(special(KeyCode::Enter));
    app.handle_key(key('J')); // cursor on /b
    app.handle_key(key('m'));
    match &app.rows_dup[0].chosen {
        Action::KeepOne { keep, .. } => assert_eq!(keep, &FilePath::new("/b")),
        _ => panic!("expected KeepOne after m"),
    }
}

fn cluster(label: &str, paths: Vec<&str>) -> Group {
    let files: Vec<GroupFile> = paths
        .iter()
        .map(|p| GroupFile { path: FilePath::new(p), size: 1 })
        .collect();
    let moved = files.iter().map(|f| f.path.clone()).collect();
    Group {
        kind: GroupKind::NameCluster,
        files,
        label: label.into(),
        suggested: Action::FoldIntoFolder { folder_name: label.into(), files: moved },
    }
}

#[test]
fn clusters_have_their_own_list_and_come_last_in_the_plan() {
    let mut dirs = dup_group("d:1", vec!["/x", "/y"], 10);
    dirs.kind = GroupKind::DuplicateDir;
    let groups =
        vec![cluster("trip", vec!["/t1", "/t2"]), dup_group("h:1", vec!["/a", "/b"], 5), dirs];
    let mut app = App::new(groups, false);
    assert_eq!(app.rows_dup.len(), 2);
    assert_eq!(app.rows_cluster.len(), 1);
    let plan = app.build_plan(false);
    assert!(matches!(plan.actions[0], Action::KeepOne { .. }));
    assert!(matches!(plan.actions[2], Action::FoldIntoFolder { .. }));
    assert_eq!(app.totals(), (3, 4, 15));
    app.handle_key(special(KeyCode::Tab));
    assert_eq!(app.rows().len(), 1);
    assert_eq!(app.highlighted(), Some(0));
    app.handle_key(key(' '));
    assert_eq!(app.totals(), (2, 2, 15));
    app.handle_key(key('a'));
    assert!(matches!(app.rows_cluster[0].chosen, Action::FoldIntoFolder { .. }));
}

#[test]
fn two_tabs_and_two_enters_lead_back() {
    let mut app = App::new(vec![dup_group("h:1", vec!["/a", "/b"], 100)], false);
    app.handle_key(special(KeyCode::Tab));
    app.handle_key(special(KeyCode::Tab));
    assert_eq!(app.tab, Tab::Duplicates);
    app.handle_key(special(KeyCode::Enter));
    app.handle_key(special(KeyCode::Enter));
    assert!(!app.rows_dup[0].expanded);
}

#[test]
fn without_permission_no_key_leads_to_an_execution() {
    let mut app = App::new(vec![dup_group("h:1", vec!["/a", "/b"], 100)], false);
    for c in ['x', 'y', 'Y', 'x', 'n'] {
        assert_eq!(app.handle_key(key(c)), None);
        assert!(!app.confirm_execute);
    }
    assert_eq!(app.groups.len(), 1);
}

#[test]
fn other_keys_leave_the_question_open() {
    let mut app = App::new(vec![dup_group("h:1", vec!["/a", "/b"], 100)], true);
    app.handle_key(key('x'));
    assert_eq!(app.handle_key(key('q')), None);
    assert_eq!(app.handle_key(special(KeyCode::Tab)), None);
    assert!(app.confirm_execute);
    assert_eq!(app.tab, Tab::Duplicates);
    assert_eq!(app.handle_key(special(KeyCode::Esc)), None);
    assert!(!app.confirm_execute);
}

#[test]
fn only_presses_count() {
    let mut app = App::new(vec![dup_group("h:1", vec!["/a", "/b"], 100)], false);
    let release = KeyEvent {
        code: KeyCode::Char('q'),
        modifiers: KeyModifiers::Plain,
        kind: KeyEventKind::Release,
    };
    assert_eq!(app.handle_key(release), None);
    let repeat = KeyEvent { kind: KeyEventKind::Repeat, ..key(' ') };
    assert_eq!(app.handle_key(repeat), None);
    assert!(matches!(app.rows_dup[0].chosen, Action::KeepOne { .. }));
}

#[test]
fn control_c_quits_and_plain_c_does_not() {
    let mut app = App::new(vec![], false);
    assert_eq!(app.handle_key(key('c')), None);
    let other = KeyEvent::new(KeyCode::Char('c'), KeyModifiers::Other);
    assert_eq!(app.handle_key(other), None);
    let control = KeyEvent::new(KeyCode::Char('c'), KeyModifiers::Control);
    assert_eq!(app.handle_key(control), Some(UiOutcome::Quit));
}

#[test]
fn a_failed_scan_quits_on_any_key() {
    let mut app = App::empty_scanning(true);
    app.apply_progress(Progress::Error(String::from("no such directory")));
    assert!(!app.is_scanning());
    match &app.mode {
        Mode::Failed(e) => assert_eq!(e, "no such directory"),
        _ => panic!("expected Failed"),
    }
    app.apply_progress(Progress::Walked(3));
    assert!(matches!(app.mode, Mode::Failed(_)));
    assert_eq!(app.handle_key(special(KeyCode::Other)), Some(UiOutcome::Quit));
}

#[test]
fn keys_on_an_empty_list_do_nothing() {
    let mut app = App::new(vec![], false);
    for c in ['a', ' ', 'J', 'K', 'm', 'o', 'j', 'k'] {
        assert!(app.takes_key(key(c)));
        assert_eq!(app.open_target(key(c)), None);
        assert_eq!(app.handle_key(key(c)), None);
    }
    assert_eq!(app.highlighted(), None);
    assert_eq!(app.selected(), 0);
}

#[test]
fn a_group_without_files_cannot_be_marked() {
    let mut g = dup_group("h:1", vec!["/a", "/b"], 100);
    g.files.clear();
    let app = App::new(vec![g], false);
    assert!(!app.takes_key(key('m')));
    assert!(app.takes_key(key('J')));
    assert_eq!(app.open_target(key('o')), None);
    assert_eq!(app.totals(), (1, 1, 0));
}

#[test]
fn o_opens_the_focused_file() {
    let mut app = App::new(vec![dup_group("h:1", vec!["/a", "/b"], 100)], false);
    assert_eq!(app.open_target(key('o')), Some(FilePath::new("/a")));
    assert_eq!(app.open_target(key('p')), None);
    app.handle_key(special(KeyCode::Enter));
    app.handle_key(key('J'));
    assert_eq!(app.open_target(key('o')), Some(FilePath::new("/b")));
    assert_eq!(app.handle_key(key('o')), None);
}

#[test]
fn the_cursor_starts_at_the_suggested_keeper() {
    let mut g = dup_group("h:1", vec!["/a", "/b", "/c"], 100);
    g.suggested = Action::KeepOne { keep: FilePath::new("/c"), trash: vec![] };
    let app = App::new(vec![g], false);
    assert_eq!(app.rows_dup[0].file_cursor, 2);
}

#[test]
fn totals_that_do_not_fit_are_none() {
    let app = App::new(
        vec![
            dup_group("h:1", vec!["/a", "/b"], u64::MAX),
            dup_group("h:2", vec!["/c", "/d"], 1),
        ],
        false,
    );
    assert_eq!(app.try_totals(), None);
    let app = App::new(vec![dup_group("h:1", vec!["/a", "/b"], u64::MAX)], false);
    assert_eq!(app.try_totals(), Some(Totals { groups: 1, files: 1, bytes: u64::MAX }));
}

#[test]
fn rows_show_marks_and_lines() {
    let mut app = App::new(vec![dup_group("h:1", vec!["/a", "/b"], 100)], false);
    assert_eq!(marker(&app.rows_dup[0].chosen), "[del]");
    assert!(file_lines(&app.rows_dup[0], &app.groups[0]).is_empty());
    app.handle_key(special(KeyCode::Enter));
    app.handle_key(key('J'));
    let lines = file_lines(&app.rows_dup[0], &app.groups[0]);
    assert_eq!(lines.len(), 2);
    assert_eq!(line_prefix(lines[0]), "    keep ");
    assert_eq!(line_prefix(lines[1]), "  ▶ del  ");
    app.handle_key(key('m'));
    let lines = file_lines(&app.rows_dup[0], &app.groups[0]);
    assert_eq!(line_prefix(lines[0]), "    del  ");
    assert_eq!(line_prefix(lines[1]), "  ▶ keep ");
    app.handle_key(key(' '));
    assert_eq!(marker(&app.rows_dup[0].chosen), "[skip]");
    let fold = Action::FoldIntoFolder { folder_name: String::from("f"), files: vec![] };
    assert_eq!(marker(&fold), "[fold]");
}

#[test]
fn the_hashing_bar_counts() {
    let mut s = ScanState::default();
    assert_eq!(scan_label(&s), "preparing…");
    s.hash_done = 7;
    s.hash_total = 120;
    assert_eq!(scan_label(&s), "hashing 7 / 120");
}

#[test]
fn the_lists_are_shown() {
    let groups =
        vec![dup_group("h:1", vec!["/a", "/b"], 100), dup_group("h:2", vec!["/c", "/d"], 50)];
    let mut app = App::new(groups, true);
    app.handle_key(special(KeyCode::Down));
    app.handle_key(special(KeyCode::Enter));
    app.handle_key(key('J'));
    app.handle_key(key('x'));
    match screen(&app) {
        Some(Screen::Lists(lists)) => {
            assert_eq!(lists.tab, 0);
            assert_eq!(lists.highlighted, Some(1));
            assert_eq!(lists.totals, Totals { groups: 2, files: 2, bytes: 150 });
            assert_eq!(lists.mode, "execute");
            assert!(lists.confirm);
            assert_eq!(lists.items.len(), 2);
            assert!(lists.items[0].lines.is_empty());
            let item = &lists.items[1];
            assert_eq!(item.marker, "[del]");
            assert_eq!(item.style, MarkStyle::Delete);
            assert_eq!(item.label, "h:2");
            assert_eq!((item.files, item.unit), (2, 50));
            assert_eq!(item.lines[0].style, LineStyle::Keep);
            assert_eq!(item.lines[0].prefix, "    keep ");
            assert_eq!(item.lines[1].style, LineStyle::Focused);
            assert_eq!(item.lines[1].path, FilePath::new("/d"));
        }
        other => panic!("unexpected screen: {other:?}"),
    }
    let empty = App::new(vec![], false);
    match screen(&empty) {
        Some(Screen::Lists(lists)) => {
            assert_eq!(lists.highlighted, None);
            assert_eq!(lists.mode, "dry-run");
        }
        other => panic!("unexpected screen: {other:?}"),
    }
}

#[test]
fn a_scan_and_its_failure_are_shown() {
    let mut app = App::empty_scanning(false);
    app.apply_progress(Progress::Walked(1500));
    for news in hash_news(false, 1, 9) {
        app.apply_progress(news);
    }
    for news in hash_news(true, 2, 9) {
        app.apply_progress(news);
    }
    match screen(&app) {
        Some(Screen::Scanning { walked, label, done, total }) => {
            assert_eq!(walked, "walked: 1500 files");
            assert_eq!(label, "hashing 2 / 9");
            assert_eq!((done, total), (2, 9));
        }
        other => panic!("unexpected screen: {other:?}"),
    }
    app.apply_progress(Progress::Error(String::from("gone")));
    match screen(&app) {
        Some(Screen::Failed(text)) => {
            assert_eq!(text, "scan failed:\n\ngone\n\npress any key to quit");
        }
        other => panic!("unexpected screen: {other:?}"),
    }
}

#[test]
fn hashing_starts_once() {
    assert!(matches!(
        hash_news(false, 1, 4)[..],
        [Progress::HashStart { total: 4 }, Progress::Hashed { done: 1, total: 4 }]
    ));
    assert!(matches!(hash_news(true, 2, 4)[..], [Progress::Hashed { done: 2, total: 4 }]));
}

#[test]
fn lists_whose_totals_do_not_fit_are_not_shown() {
    let groups = vec![
        dup_group("h:1", vec!["/a", "/b"], u64::MAX),
        dup_group("h:2", vec!["/c", "/d"], 1),
    ];
    assert!(screen(&App::new(groups, false)).is_none());
}
