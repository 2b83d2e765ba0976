use cursor_chat_cleanup::entries::{Entry, Lens, SortKey};
use cursor_chat_cleanup::error::{Error, Fault, FaultCode};
use cursor_chat_cleanup::fx::{IdMap, NameSet};
use cursor_chat_cleanup::headers::SessionHeader;
use cursor_chat_cleanup::keys::{route, Intent, Key};
use cursor_chat_cleanup::lineage::{Attach, Lineage};
use cursor_chat_cleanup::patch::ScanPatch;
use cursor_chat_cleanup::progress::{Cancelled, Progress};
use cursor_chat_cleanup::scan::{ComposerStat, Prefix, PrefixStat, PrefixTable, ScanResult};
use cursor_chat_cleanup::screen::{
    banner, chat_header, chat_row, detail_lines, status_line, sub_row, title, tree_height, ws_row,
    Line, Tone,
};
use cursor_chat_cleanup::tui::{
    Action, App, InfoLayer, InputMode, MaintState, OpState, Pane, Preview, ScanState, Task,
};
use cursor_chat_cleanup::vacuum::Pages;

fn entry(id: &str, name: Option<&str>, bytes: u64, live: bool, archived: bool) -> Entry {
    Entry {
        composer_id: id.into(),
        name: name.map(str::to_owned),
        recency: bytes as i64, // the times are in the order of the sizes
        is_archived: archived,
        attach: if live { Some(Attach::Main) } else { None },
        rows: bytes / 10,
        bytes: Some(bytes),
        descendants: 0,
        workspace_id: None,
        ws_label: None,
    }
}

fn mk_app(entries: Vec<Entry>) -> App {
    let mut app = App {
        lineage: Lineage::build(&[]),
        sessions: Vec::new(),
        entries,
        visible: Vec::new(),
        scan: ScanResult::default(),
        scan_state: ScanState::Ready,
        sort: SortKey::Bytes,
        reverse: false,
        view: Lens::All,
        filter: String::new(),
        ws_filter: None,
        workspaces: IdMap::new(),
        focus: Pane::Chats,
        ws_rows: Vec::new(),
        ws_cursor: Some(0),
        sub_rows: Vec::new(),
        sub_cursor: None,
        sub_of: None,
        input: InputMode::Normal,
        cursor: Some(0),
        selected_ids: NameSet::new(),
        op: OpState::Idle,
        info: InfoLayer::Hidden,
        maint: MaintState::Off,
        quit_requested: false,
        status: None,
        scan_gen: 0,
        writes: 0,
    };
    app.sort_and_refilter();
    app
}

fn visible_ids(app: &App) -> Vec<&str> {
    app.visible.iter().map(|&i| app.entries[i].composer_id.as_str()).collect()
}

#[test]
fn filter_views_and_sort() {
    let mut app = mk_app(vec![
        entry("aaaa-1", Some("proto work"), 300, true, false),
        entry("bbbb-2", Some("other"), 200, true, true),
        entry("cccc-3", None, 100, false, false), // without a header
    ]);
    // by size, all shown
    assert_eq!(visible_ids(&app), vec!["aaaa-1", "bbbb-2", "cccc-3"]);

    // the other way round
    app.reverse = true;
    app.sort_and_refilter();
    assert_eq!(visible_ids(&app), vec!["cccc-3", "bbbb-2", "aaaa-1"]);
    app.reverse = false;

    // by name, in any case
    app.filter = "PROTO".into();
    app.sort_and_refilter();
    assert_eq!(visible_ids(&app), vec!["aaaa-1"]);

    // by the start of the id
    app.filter = "cccc".into();
    app.sort_and_refilter();
    assert_eq!(visible_ids(&app), vec!["cccc-3"]);
    app.filter.clear();

    // the choices of rows
    app.view = Lens::Orphans;
    app.sort_and_refilter();
    assert_eq!(visible_ids(&app), vec!["cccc-3"]);
    app.view = Lens::Archived;
    app.sort_and_refilter();
    assert_eq!(visible_ids(&app), vec!["bbbb-2"]);
}

/// Places from before must not be used on a list that has become shorter.
#[test]
fn refilter_survives_entries_shrink() {
    let mut app = mk_app(vec![
        entry("aaaa-1", Some("a"), 300, true, false),
        entry("bbbb-2", Some("b"), 200, true, false),
        entry("cccc-3", Some("c"), 100, true, false),
    ]);
    app.cursor = Some(2); // on the last row
    app.entries.truncate(1);
    app.sort_and_refilter();
    assert_eq!(visible_ids(&app), vec!["aaaa-1"]);
    assert!(app.current_entry().is_some());
}

#[test]
fn sweep_preview_is_instant_when_scan_ready() {
    let mut app = mk_app(vec![entry("aaaa-1", Some("a"), 300, true, false)]);
    app.start_preview(Action::Sweep);
    assert!(
        matches!(app.op, OpState::Confirming { .. }),
        "扫描就绪时清扫预览应零扫描直达确认层"
    );
}

/// What a scan brings that another has taken the place of is thrown away.
#[test]
fn stale_scan_result_is_discarded() {
    let mut app = mk_app(vec![entry("aaaa-1", Some("a"), 300, true, false)]);
    let mut before = Progress::new();

    // the first scan
    let (g1, mut p1) = app.begin_scan_task(&mut before);
    assert_eq!(g1, 1);
    assert!(!app.scan_ready(), "开启任务后进入扫描中");

    // the second takes its place, with a progress of its own
    let (g2, mut p2) = app.begin_scan_task(&mut p1);
    assert_eq!(g2, 2);
    assert!(p1.is_cancelled(), "旧任务必须被叫停");
    assert!(!p2.is_cancelled(), "新任务的进度对象是全新的");
    p2.add(7);
    assert_eq!(p1.fraction().0, 0, "两轮任务不得共用进度对象");

    // what the first brings changes nothing
    let stale = ScanResult { total_rows: 999, ..Default::default() };
    app.on_scan(g1, Ok(stale));
    assert_eq!(app.scan.total_rows, 0, "过期结果不得写入");
    assert!(!app.scan_ready(), "过期结果不得结束扫描态");

    // what the second brings without the sizes is shown, and the scan goes on
    let fast = ScanResult { total_rows: 42, ..Default::default() };
    app.on_scan(g2, Ok(fast));
    assert_eq!(app.scan.total_rows, 42);
    assert!(app.rows_ready(), "快扫落地后行数可用");
    assert!(!app.scan_ready(), "体积未到,扫描态保持");

    // the sizes end it
    let deep = ScanResult { total_rows: 42, sized: true, ..Default::default() };
    app.on_scan(g2, Ok(deep));
    assert!(app.scan_ready());
}

#[test]
fn workspace_filter_and_text_match() {
    let mut a = entry("aaaa-1", Some("a"), 300, true, false);
    a.workspace_id = Some("w1".into());
    a.ws_label = Some("proj-one".into());
    let mut b = entry("bbbb-2", Some("b"), 200, true, false);
    b.workspace_id = Some("w2".into());
    b.ws_label = Some("proj-two".into());
    let c = entry("cccc-3", None, 100, false, false); // belongs to none
    let mut app = mk_app(vec![a, b, c]);

    // by workspace
    app.ws_filter = Some("w1".into());
    app.sort_and_refilter();
    assert_eq!(visible_ids(&app), vec!["aaaa-1"]);

    // the empty id chooses what belongs to none
    app.ws_filter = Some(String::new());
    app.sort_and_refilter();
    assert_eq!(visible_ids(&app), vec!["cccc-3"]);

    // the text filter looks at the name of the workspace too
    app.ws_filter = None;
    app.filter = "proj-two".into();
    app.sort_and_refilter();
    assert_eq!(visible_ids(&app), vec!["bbbb-2"]);
}

fn session(cid: &str, wid: Option<&str>) -> SessionHeader {
    SessionHeader {
        composer_id: cid.into(),
        name: None,
        created_at: None,
        last_updated_at: None,
        recency: 0,
        is_archived: false,
        is_subagent: false,
        is_best_of_n: false,
        workspace_id: wid.map(str::to_owned),
        workspace_folder: None,
        parent_composer_id: None,
        sub_composer_ids: Vec::new(),
        in_header_table: true,
        in_legacy_blob: false,
    }
}

fn subagent(cid: &str, parent: &str) -> SessionHeader {
    let mut s = session(cid, None);
    s.is_subagent = true;
    s.parent_composer_id = Some(parent.to_owned());
    s
}

#[test]
fn ws_rows_aggregate_and_lead_with_all() {
    let mut app = mk_app(vec![]);
    app.sessions = vec![session("a", Some("w1")), session("b", Some("w1")), session("c", None)];
    app.lineage = Lineage::build(&app.sessions);
    app.rebuild_ws_rows();
    assert_eq!(app.ws_rows[0].label, "全部");
    assert_eq!(app.ws_rows[0].sessions, 3);
    let w1 = app.ws_rows.iter().find(|r| r.id.as_deref() == Some("w1")).unwrap();
    assert_eq!(w1.sessions, 2);
    let none = app.ws_rows.iter().find(|r| r.id.as_deref() == Some("")).unwrap();
    assert_eq!(none.label, "(无归属)");
    assert_eq!(none.sessions, 1);
}

/// Attached subagents stand in the tree of their session and not in the list; dangling ones
/// stay in the list, among the orphans; the workspaces do not count attached ones.
#[test]
fn attached_subagents_move_to_detail_pane() {
    let mut app = mk_app(vec![]);
    app.sessions = vec![
        session("main-1", Some("w1")),
        subagent("sub1-1", "main-1"),
        subagent("sub2-1", "sub1-1"),
        subagent("dang-1", "ghost"),
    ];
    app.lineage = Lineage::build(&app.sessions);
    app.rebuild_entries();

    let mut ids = visible_ids(&app);
    ids.sort();
    assert_eq!(ids, vec!["dang-1", "main-1"]);

    app.view = Lens::Orphans;
    app.sort_and_refilter();
    assert_eq!(visible_ids(&app), vec!["dang-1"]);
    app.view = Lens::All;
    app.sort_and_refilter();

    let pos =
        app.visible.iter().position(|&i| app.entries[i].composer_id == "main-1").unwrap();
    app.cursor = Some(pos);
    app.sync_sub_rows();
    let tree: Vec<(&str, usize)> =
        app.sub_rows.iter().map(|s| (s.composer_id.as_str(), s.depth)).collect();
    assert_eq!(tree, vec![("sub1-1", 1), ("sub2-1", 2)]);

    let w1 = app.ws_rows.iter().find(|r| r.id.as_deref() == Some("w1")).unwrap();
    assert_eq!(w1.sessions, 1);
    let none = app.ws_rows.iter().find(|r| r.id.as_deref() == Some("")).unwrap();
    assert_eq!(none.sessions, 1);

    app.focus = Pane::Detail;
    app.sub_cursor = Some(1);
    assert_eq!(app.action_targets(), vec!["sub2-1".to_string()]);
}

#[test]
fn action_targets_prefer_selection_over_cursor() {
    let mut app = mk_app(vec![
        entry("aaaa-1", Some("a"), 300, true, false),
        entry("cccc-3", None, 100, false, false),
    ]);
    // the row under the cursor has a header
    assert_eq!(app.action_targets(), vec!["aaaa-1".to_string()]);
    // what is selected goes first
    app.selected_ids.insert("aaaa-1".into());
    assert_eq!(app.action_targets(), vec!["aaaa-1".to_string()]);
    // the row under the cursor has none, and nothing is selected
    app.selected_ids = NameSet::new();
    app.cursor = Some(1);
    assert!(app.action_targets().is_empty());
}

fn press(app: &mut App, key: Key) -> Task {
    let mut scan = Progress::new();
    let mut act = Progress::new();
    app.on_key(key, &mut scan, &mut act)
}

#[test]
fn keys_and_their_intents() {
    let mut app = mk_app(vec![entry("aaaa-1", Some("a"), 300, true, false)]);
    assert_eq!(route(&app, Key::Char('j')), Intent::Move(1));
    assert_eq!(route(&app, Key::PageUp), Intent::Move(-20));
    assert_eq!(route(&app, Key::Esc), Intent::Quit);
    assert_eq!(route(&app, Key::Char('D')), Intent::Delete);
    assert_eq!(route(&app, Key::Char('z')), Intent::Ignore);
    app.focus = Pane::Detail;
    assert_eq!(route(&app, Key::Esc), Intent::FocusChats);
    assert_eq!(route(&app, Key::Char(' ')), Intent::Ignore);
    app.maint = MaintState::Entering;
    assert_eq!(route(&app, Key::Esc), Intent::AbortEntering);
    app.ws_filter = Some("w".into());
    assert_eq!(route(&app, Key::Esc), Intent::ClearWorkspace);
    app.filter = "x".into();
    assert_eq!(route(&app, Key::Esc), Intent::ClearText);
    app.info = InfoLayer::Help;
    assert_eq!(route(&app, Key::Char('j')), Intent::CloseInfo);
    app.op = OpState::Applying { action: Action::Shrink };
    assert_eq!(route(&app, Key::Esc), Intent::StopShrink);
    app.input = InputMode::Filter;
    assert_eq!(route(&app, Key::Esc), Intent::FilterClear);
    assert_eq!(route(&app, Key::Char('q')), Intent::FilterPush('q'));
}

#[test]
fn an_action_is_previewed_and_then_confirmed() {
    let mut app = mk_app(vec![entry("aaaa-1", Some("a"), 300, true, false)]);
    let t = press(&mut app, Key::Char('d'));
    assert!(matches!(t, Task::Preview { in_session: false }));
    assert!(matches!(&app.op, OpState::Previewing { action: Action::Delete(ids) } if ids == &["aaaa-1"]));
    // one operation at a time
    let t = press(&mut app, Key::Char('c'));
    assert!(matches!(t, Task::Nothing));
    assert_eq!(app.status.as_deref(), Some("已有操作进行中。"));
    app.on_preview(
        Action::Delete(vec!["aaaa-1".into()]),
        Ok(Preview { summary: "S".into(), gc_plan: None }),
        false,
    );
    assert_eq!(app.maint, MaintState::Off);
    // any other key declines
    let t = press(&mut app, Key::Char('n'));
    assert!(matches!(t, Task::Nothing));
    assert!(matches!(app.op, OpState::Idle));
    assert_eq!(app.status.as_deref(), Some("已取消。"));

    app.on_preview(
        Action::Delete(vec!["aaaa-1".into()]),
        Ok(Preview { summary: "S".into(), gc_plan: None }),
        false,
    );
    let t = press(&mut app, Key::Char('y'));
    assert!(matches!(t, Task::Apply { in_session: false, backup: true, gc_plan: None }));
    assert_eq!(app.busy_reason(), Some("执行"));
    // the wish to leave waits
    press(&mut app, Key::Char('q'));
    assert!(!app.ready_to_quit());
    assert_eq!(app.status.as_deref(), Some("执行完成后将自动退出…"));
    let patch = app.on_applied(Ok(("done".into(), ScanPatch::Nothing)), false);
    assert!(matches!(patch, Some(ScanPatch::Nothing)));
    assert!(app.ready_to_quit());
    assert_eq!(app.status.as_deref(), Some("done"));
}

#[test]
fn no_backup_takes_the_other_key() {
    let mut app = mk_app(vec![]);
    app.op = OpState::Confirming { action: Action::Gc, summary: String::new(), gc_plan: None };
    let t = press(&mut app, Key::Char('Y'));
    assert!(matches!(t, Task::Apply { backup: false, .. }));
    assert!(matches!(app.op, OpState::Applying { action: Action::Gc }));
}

#[test]
fn maintenance_takes_and_gives_back() {
    let mut app = mk_app(vec![entry("aaaa-1", Some("a"), 300, true, false)]);
    let mut scan = Progress::new();
    let mut act = Progress::new();
    let t = app.on_key(Key::Char('M'), &mut scan, &mut act);
    assert!(scan.is_cancelled());
    let g = match t {
        Task::Enter { generation, .. } => generation,
        _ => panic!("no task"),
    };
    assert_eq!(app.maint, MaintState::Entering);
    assert_eq!(app.status.as_deref(), Some("正在取得数据库独占锁…"));

    // no preview on the way
    assert!(matches!(app.start_preview(Action::Gc), Task::Nothing));
    assert_eq!(app.status.as_deref(), Some("维护模式切换中,请稍候。"));

    let t = app.on_entered(
        g,
        Ok((vec![session("m-1", Some("w1"))], IdMap::new(), ScanResult { sized: true, ..Default::default() })),
        &mut scan,
    );
    assert!(matches!(t, Task::Nothing));
    assert_eq!(app.maint, MaintState::Held);
    assert_eq!(visible_ids(&app), vec!["m-1"]);
    assert_eq!(app.workspaces.get("w1").unwrap().label, "(w1…)");

    // a rescan is refused
    press(&mut app, Key::Char('r'));
    assert_eq!(
        app.status.as_deref(),
        Some("维护模式下模型由排他锁保证精确,无需重扫(统计已增量修正)。")
    );

    // the session is lent out and comes back
    let t = app.start_preview(Action::Gc);
    assert!(matches!(t, Task::Preview { in_session: true }));
    assert_eq!(app.maint, MaintState::Working);
    app.on_preview(Action::Gc, Ok(Preview { summary: "S".into(), gc_plan: None }), true);
    assert_eq!(app.maint, MaintState::Held);
    press(&mut app, Key::Char('y'));
    app.on_applied(Ok(("ok".into(), ScanPatch::Nothing)), true);

    let t = press(&mut app, Key::Char('M'));
    assert!(matches!(t, Task::Leave));
    assert_eq!(app.status.as_deref(), Some("退出维护模式(会话内执行了 1 次操作),收尾中…"));
    app.on_released(Ok(2048));
    assert_eq!(app.maint, MaintState::Off);
    assert_eq!(
        app.status.as_deref(),
        Some("已退出维护模式。仍有 2.0 KiB 空闲空间未回收,可按 v(增量,可中断)或 V(全量)。")
    );
}

#[test]
fn a_lost_session_ends_maintenance() {
    let mut app = mk_app(vec![]);
    app.maint = MaintState::Working;
    app.on_applied(Err(Error::DbBusy), false);
    assert_eq!(app.maint, MaintState::Off);
    assert!(app.status.as_deref().unwrap().starts_with("执行失败: "));
    app.maint = MaintState::Working;
    app.on_preview(Action::Gc, Ok(Preview { summary: String::new(), gc_plan: None }), false);
    assert_eq!(app.status.as_deref(), Some("维护会话已丢失,已退回普通模式。"));
}

#[test]
fn a_refused_lock_leads_back_to_a_scan() {
    let mut app = mk_app(vec![]);
    app.sessions = vec![session("m-1", None)];
    app.maint = MaintState::Entering;
    let mut scan = Progress::new();
    let t = app.on_entered(0, Err(Error::DbBusy), &mut scan);
    assert!(matches!(t, Task::Scan { generation: 1, collect: false, .. }));
    assert!(app.status.as_deref().unwrap().starts_with("进入维护模式失败: "));
    // where the user stopped it, there is none
    app.maint = MaintState::Entering;
    let t = app.on_entered(1, Err(Error::Cancelled(Cancelled)), &mut scan);
    assert!(matches!(t, Task::Nothing));
    assert_eq!(app.status.as_deref(), Some("已中止维护模式启动,数据库锁已释放。"));
}

#[test]
fn failed_scans_say_why() {
    let mut app = mk_app(vec![]);
    app.scan_state = ScanState::Running;
    let f = Fault { code: FaultCode::Interrupted, text: "interrupted".into(), causes: vec![] };
    app.on_scan(0, Err(Error::Sqlite(f)));
    assert_eq!(app.status.as_deref(), Some("扫描已取消。"));
    app.on_scan(0, Err(Error::DbNotFound));
    assert!(app.status.as_deref().unwrap().starts_with("扫描失败: 未找到"));
    assert!(app.scan_ready());
}

#[test]
fn a_bad_id_stops_a_scan() {
    let mut app = mk_app(vec![]);
    app.sessions = vec![session("no:good", None)];
    let mut scan = Progress::new();
    assert!(matches!(app.spawn_deep_scan(&mut scan), Task::Nothing));
    assert!(app.status.as_deref().unwrap().starts_with("存活集合构建失败: "));
    assert!(!scan.is_cancelled());
}

#[test]
fn the_better_way_to_shrink_is_previewed() {
    let mut app = mk_app(vec![]);
    assert!(matches!(press(&mut app, Key::Char('v')), Task::WeighShrink));
    app.on_pages(Ok(Pages { free: 1, count: 1000, size: 4096, auto_vacuum: 2 }));
    assert!(matches!(app.op, OpState::Previewing { action: Action::Shrink }));
    app.op = OpState::Idle;
    app.on_pages(Ok(Pages { free: 900, count: 1000, size: 4096, auto_vacuum: 2 }));
    assert!(matches!(app.op, OpState::Previewing { action: Action::VacuumFull }));
    app.op = OpState::Idle;
    assert!(matches!(app.on_pages(Err(Error::DbBusy)), Task::Nothing));
    assert!(app.status.as_deref().unwrap().starts_with("无法评估空闲页: "));
}

#[test]
fn cursors_stay_in_their_lists() {
    let mut app = mk_app(vec![
        entry("aaaa-1", Some("a"), 300, true, false),
        entry("bbbb-2", Some("b"), 200, true, false),
    ]);
    app.move_selection(20);
    assert_eq!(app.cursor, Some(1));
    app.move_selection(-20);
    assert_eq!(app.cursor, Some(0));
    app.jump_selection(true);
    assert_eq!(app.cursor, Some(1));
    // the cursor follows its row
    app.reverse = true;
    app.sort_and_refilter();
    assert_eq!(app.current_entry().unwrap().composer_id, "bbbb-2");
    // sorting again changes nothing
    app.sort_and_refilter();
    assert_eq!(visible_ids(&app), vec!["bbbb-2", "aaaa-1"]);
    app.move_focus(-1);
    assert_eq!(app.focus, Pane::Workspaces);
    app.move_focus(-1);
    assert_eq!(app.focus, Pane::Workspaces);
    app.move_focus(5);
    assert_eq!(app.focus, Pane::Detail);
}

#[test]
fn the_workspace_under_the_cursor_is_chosen() {
    let sessions = vec![session("a-1", Some("w1")), session("b-2", Some("w2")), session("c-3", Some("w2"))];
    let mut app = App::new(sessions, &IdMap::new());
    assert_eq!(visible_ids(&app).len(), 3);
    assert!(!app.scan_ready());
    app.focus = Pane::Workspaces;
    // the rows: all, then the one with the most sessions
    assert_eq!(app.ws_rows[1].id.as_deref(), Some("w2"));
    app.move_selection(1);
    assert_eq!(app.ws_filter.as_deref(), Some("w2"));
    assert_eq!(visible_ids(&app), vec!["b-2", "c-3"]);
    press(&mut app, Key::Esc);
    assert_eq!(app.ws_filter, None);
    assert_eq!(visible_ids(&app).len(), 3);
}

fn in_folder(cid: &str, wid: &str, folder: &str) -> SessionHeader {
    let mut s = session(cid, Some(wid));
    s.workspace_folder = Some(folder.to_owned());
    s
}

fn label<'a>(app: &'a App, wid: &str) -> &'a str {
    app.ws_rows.iter().find(|r| r.id.as_deref() == Some(wid)).unwrap().label.as_str()
}

#[test]
fn workspaces_of_one_name_are_told_apart_by_their_paths() {
    let sessions = vec![
        in_folder("a-1", "w1", "file:///a/proj"),
        in_folder("b-2", "w2", "file:///b/proj"),
        in_folder("c-3", "w3", "file:///c/other"),
    ];
    let mut app = App::new(sessions, &IdMap::new());
    assert_eq!(app.ws_rows[0].id, None);
    assert_eq!(app.ws_rows[0].sessions, 3);
    assert_eq!(label(&app, "w1"), "a/proj");
    assert_eq!(label(&app, "w2"), "b/proj");
    assert_eq!(label(&app, "w3"), "other");
    // the list and the title call them the same
    let e = app.entries.iter().find(|e| e.composer_id == "a-1").unwrap();
    assert_eq!(e.ws_label.as_deref(), Some("a/proj"));
    app.ws_filter = Some("w2".into());
    assert!(plain(&title(&app)).contains("工作区:b/proj "));
}

#[test]
fn paths_are_shown_as_far_as_they_differ() {
    let sessions = vec![
        in_folder("a-1", "w1", "file:///x/src/proj"),
        in_folder("b-2", "w2", "file:///y/src/proj"),
        in_folder("c-3", "w3", "proj"),
    ];
    let app = App::new(sessions, &IdMap::new());
    assert_eq!(label(&app, "w1"), "x/src/proj");
    assert_eq!(label(&app, "w2"), "y/src/proj");
    assert_eq!(label(&app, "w3"), "proj");
    // two workspaces of one folder are the same place
    let sessions = vec![in_folder("a-1", "w1", "file:///p"), in_folder("b-2", "w2", "file:///p")];
    let app = App::new(sessions, &IdMap::new());
    assert_eq!(label(&app, "w1"), "p");
    assert_eq!(label(&app, "w2"), "p");
}

#[test]
fn typing_a_filter() {
    let mut app = mk_app(vec![
        entry("aaaa-1", Some("Über"), 300, true, false),
        entry("bbbb-2", Some("b"), 200, true, false),
    ]);
    press(&mut app, Key::Char('/'));
    press(&mut app, Key::Char('Ü'));
    assert_eq!(visible_ids(&app), vec!["aaaa-1"]);
    press(&mut app, Key::Backspace);
    assert_eq!(visible_ids(&app).len(), 2);
    press(&mut app, Key::Char('b'));
    press(&mut app, Key::Enter);
    assert_eq!(app.filter, "b");
    assert_eq!(app.input, InputMode::Normal);
    press(&mut app, Key::Esc);
    assert_eq!(app.filter, "");
}

#[test]
fn selecting_moves_on_and_skips_orphans() {
    let mut app = mk_app(vec![
        entry("aaaa-1", Some("a"), 300, true, false),
        entry("cccc-3", None, 100, false, false),
    ]);
    press(&mut app, Key::Char(' '));
    assert!(app.selected_ids.contains("aaaa-1"));
    assert_eq!(app.cursor, Some(1));
    press(&mut app, Key::Char(' '));
    assert_eq!(app.selected_ids.len(), 1);
    assert_eq!(app.status.as_deref(), Some("孤儿数据不按会话删,用 x(清扫)处理。"));
    app.cursor = Some(0);
    press(&mut app, Key::Char(' '));
    assert_eq!(app.selected_ids.len(), 0);
}

#[test]
fn sorts_go_round() {
    let mut k = SortKey::Bytes;
    for _ in 0..5 {
        k = k.next();
    }
    assert_eq!(k, SortKey::Bytes);
    assert_eq!(Lens::All.next().next().next(), Lens::All);
    assert_eq!(SortKey::Workspace.label(), "工作区");
    assert_eq!(Lens::Archived.label(), "归档");
}

#[test]
fn every_sort_key_orders() {
    let mut a = entry("a", Some("zeta"), 1, true, false);
    a.ws_label = Some("x".into());
    a.workspace_id = Some("1".into());
    let mut b = entry("b", Some("alpha"), 2, true, false);
    b.ws_label = Some("w".into());
    b.workspace_id = Some("2".into());
    let mut c = entry("c", None, 3, true, false);
    c.rows = 0;
    let mut app = mk_app(vec![a, b, c]);
    assert_eq!(visible_ids(&app), vec!["c", "b", "a"]);
    app.sort = SortKey::Name;
    app.sort_and_refilter();
    assert_eq!(visible_ids(&app), vec!["b", "a", "c"]);
    app.sort = SortKey::Workspace;
    app.sort_and_refilter();
    assert_eq!(visible_ids(&app), vec!["b", "a", "c"]);
    app.sort = SortKey::Recency;
    app.sort_and_refilter();
    assert_eq!(visible_ids(&app), vec!["c", "b", "a"]);
}

fn stat(rows: u64, bytes: u64, kinds: &[(Prefix, u64, u64)]) -> ComposerStat {
    let mut t = PrefixTable::new();
    for (p, r, b) in kinds {
        t.set(*p, PrefixStat { rows: *r, bytes: *b, orphan_rows: 0, orphan_bytes: 0 });
    }
    ComposerStat { rows, bytes, per_prefix: t }
}

fn figures() -> ScanResult {
    let mut s = ScanResult { total_rows: 10, sized: true, ..Default::default() };
    s.per_composer.insert(
        "a".into(),
        stat(3, 30, &[(Prefix::ComposerData, 1, 10), (Prefix::CheckpointId, 2, 20)]),
    );
    s.per_composer.insert("o".into(), stat(2, 5, &[(Prefix::BubbleId, 2, 5)]));
    s.per_prefix.set(
        Prefix::ComposerData,
        PrefixStat { rows: 1, bytes: 10, orphan_rows: 0, orphan_bytes: 0 },
    );
    s.per_prefix.set(
        Prefix::CheckpointId,
        PrefixStat { rows: 2, bytes: 20, orphan_rows: 0, orphan_bytes: 0 },
    );
    s.per_prefix.set(
        Prefix::BubbleId,
        PrefixStat { rows: 2, bytes: 5, orphan_rows: 2, orphan_bytes: 5 },
    );
    s.orphan_composers = vec!["o".into()];
    s.condemned_keys = vec!["bubbleId:o:1".into(), "bubbleId:o:2".into()];
    s.live_tombstone_rows = 1;
    s.blob = PrefixStat { rows: 4, bytes: 400, orphan_rows: 0, orphan_bytes: 0 };
    s
}

#[test]
fn patches_follow_the_operations() {
    let mut app = mk_app(vec![]);
    app.sessions = vec![session("a", None)];
    app.lineage = Lineage::build(&app.sessions);

    app.scan = figures();
    app.selected_ids.insert("a".into());
    app.apply_patch(&ScanPatch::RemoveComposers(vec!["a".into(), "nobody".into()]));
    assert_eq!(app.scan.total_rows, 7);
    assert_eq!(app.scan.per_prefix.get(Prefix::CheckpointId).rows, 0);
    assert!(!app.scan.per_composer.contains("a"));
    assert_eq!(app.selected_ids.len(), 0);

    app.scan = figures();
    app.apply_patch(&ScanPatch::TrimPrefixes(vec!["a".into()]));
    assert_eq!(app.scan.total_rows, 8);
    assert_eq!(app.scan.per_composer.get("a").unwrap().rows, 1);
    assert_eq!(app.scan.per_composer.get("a").unwrap().bytes, 10);
    assert_eq!(app.scan.per_composer.get("a").unwrap().per_prefix.get(Prefix::CheckpointId).rows, 0);

    app.scan = figures();
    app.apply_patch(&ScanPatch::SweepOrphans);
    assert_eq!(app.scan.total_rows, 8);
    assert!(app.scan.orphan_composers.is_empty());
    assert!(app.scan.condemned_keys.is_empty());
    assert_eq!(app.scan.live_tombstone_rows, 0);
    assert_eq!(app.scan.per_prefix.get(Prefix::BubbleId).orphan_rows, 0);
    assert!(!app.scan.per_composer.contains("o"));

    app.scan = figures();
    app.apply_patch(&ScanPatch::Gc {
        blob_rows: 3,
        blob_bytes: 500,
        content_rows: 1,
        content_bytes: 0,
    });
    assert_eq!(app.scan.blob.rows, 1);
    assert_eq!(app.scan.blob.bytes, 0);
    assert_eq!(app.scan.total_rows, 6);
}

#[test]
fn headers_are_read_again_after_an_action() {
    let mut app = mk_app(vec![]);
    app.sessions = vec![session("a", None), session("b", None)];
    app.lineage = Lineage::build(&app.sessions);
    app.scan = figures();
    app.on_reloaded(
        Ok((vec![session("b", None)], IdMap::new())),
        &ScanPatch::RemoveComposers(vec!["a".into()]),
    );
    let mut ids = visible_ids(&app);
    ids.sort();
    assert_eq!(ids, vec!["b", "o"]);
    app.on_reloaded(Err(Error::DbNotFound), &ScanPatch::Nothing);
    assert!(app.status.as_deref().unwrap().starts_with("刷新失败: "));
}

fn plain(l: &Line) -> String {
    l.spans.iter().map(|s| s.text.as_str()).collect()
}

#[test]
fn the_lines_of_the_screen() {
    let mut app = mk_app(vec![entry("aaaa-1", Some("a"), 300, true, false)]);
    assert_eq!(plain(&title(&app)), " cursor-chat-cleanup 视图:全部 排序:体积↓ [?]帮助");
    app.filter = "x".into();
    app.ws_filter = Some(String::new());
    app.reverse = true;
    app.input = InputMode::Filter;
    assert_eq!(
        plain(&title(&app)),
        " cursor-chat-cleanup 视图:全部 排序:体积↑ 工作区:(无归属) 过滤:x▏ [?]帮助"
    );

    app.scan = figures();
    let l = status_line(&app, "3", "4", &None, &None);
    assert_eq!(
        plain(&l),
        " 共 10 行 | 会话自有 35 B | blob 400 B | content 0 B | 孤儿可回收 5 B [h/l]栏 [空格]选 [d]删 [t]修剪 [x]清扫 [c]GC [v]收缩 [r]重扫 [M]维护"
    );
    app.status = Some("S".into());
    assert_eq!(plain(&status_line(&app, "3", "4", &None, &None)), " S ");
    app.scan_state = ScanState::Running;
    assert_eq!(plain(&status_line(&app, "3", "4", &None, &None)), " 扫描中 4s | 准备中… | S ");
    app.op = OpState::Applying { action: Action::Gc };
    let l = status_line(&app, "3", "4", &None, &Some("50%".into()));
    assert_eq!(plain(&l), " blob GC 执行中… 3s | 50%(执行期间请勿启动 Cursor) ");
    assert_eq!(l.spans[0].tone, Tone::Busy);
    app.op = OpState::Idle;
    app.maint = MaintState::Entering;
    app.status = None;
    assert_eq!(
        plain(&status_line(&app, "3", "4", &Some("1/2".into()), &None)),
        " 扫描中… 4s | 1/2,行数与体积稍后填充 "
    );
    assert_eq!(banner(MaintState::Off, "1", &None, &None), None);
    assert_eq!(
        banner(MaintState::Entering, "1", &None, &None).unwrap(),
        " 维护模式启动中 1s | 取锁中… | [Esc/M] 取消 "
    );
    assert_eq!(
        banner(MaintState::Leaving, "1", &None, &Some("x".into())).unwrap(),
        " 退出维护模式 1s | x "
    );
    assert!(banner(MaintState::Working, "1", &None, &None).unwrap().contains("切勿启动 Cursor"));
}

#[test]
fn the_rows_of_the_list() {
    let mut e = entry("aaaa-1234567", None, 300, true, true);
    e.descendants = 2;
    let (cells, tone) = chat_row(&e, false, true, true, "T");
    assert_eq!(cells, vec!["", "300 B", "30", "T", "档", "-", "(未命名) (+2子)", "aaaa-123"]);
    assert_eq!(cells.len(), chat_header(true).len());
    assert_eq!(tone, Tone::Dim);
    e.attach = Some(Attach::Dangling);
    e.bytes = None;
    e.recency = 0;
    let (cells, tone) = chat_row(&e, false, false, false, "T");
    assert_eq!(cells, vec!["", "…", "…", "-", "孤子档", "(未命名) (+2子)", "aaaa-123"]);
    assert_eq!(cells.len(), chat_header(false).len());
    assert_eq!(tone, Tone::Red);
    e.attach = Some(Attach::Unattributable);
    assert_eq!(chat_row(&e, true, false, false, "T").0[4], "悬档");
    assert_eq!(chat_row(&e, true, false, false, "T").1, Tone::Yellow);
    e.attach = None;
    assert_eq!(chat_row(&e, false, false, false, "T").0[5], "(孤儿数据) (+2子)");
}

#[test]
fn the_details_of_a_session() {
    let mut app = mk_app(vec![]);
    let mut s = session("a", Some("w1"));
    s.created_at = Some(1);
    s.is_archived = true;
    s.is_best_of_n = true;
    app.sessions = vec![s, subagent("b", "a")];
    app.lineage = Lineage::build(&app.sessions);
    app.scan = figures();
    app.rebuild_entries();
    let e = app.entries.iter().position(|e| e.composer_id == "a").unwrap();
    let lines: Vec<String> =
        detail_lines(&app, &app.entries[e], "C", "U").iter().map(plain).collect();
    assert_eq!(
        lines,
        vec![
            "composerId  a",
            "名称        (未命名)",
            "创建        C",
            "最后更新    -",
            "工作区      w1",
            "来源        header 表",
            "标记        已归档, Best-of-N 子会话",
            "",
            "存储占用: 3 行 / 30 B",
            "含 1 个子代理合计: 30 B",
            "  checkpointId                        2 行      20 B",
            "  composerData                        1 行      10 B",
        ]
    );
    app.scan_state = ScanState::Running;
    let o = app.entries.iter().position(|e| e.composer_id == "o").unwrap();
    let lines: Vec<String> =
        detail_lines(&app, &app.entries[o], "C", "U").iter().map(plain).collect();
    assert_eq!(
        lines,
        vec![
            "composerId  o",
            "名称        (未命名)",
            "状态        孤儿(不在任何 header 来源)",
            "",
            "存储占用: 2 行(体积扫描中…)",
        ]
    );
    let b = app.entries.iter().position(|e| e.composer_id == "b").unwrap();
    let lines: Vec<String> =
        detail_lines(&app, &app.entries[b], "C", "U").iter().map(plain).collect();
    assert!(lines.contains(&"父会话      a".to_string()));
    assert_eq!(lines.last().unwrap(), "存储占用: 无 cursorDiskKV 行(幽灵 header)");
}

#[test]
fn the_rows_of_the_other_panes() {
    let mut app = mk_app(vec![]);
    app.sessions = vec![session("a", None), subagent("b", "a"), subagent("c", "b")];
    app.lineage = Lineage::build(&app.sessions);
    app.scan = figures();
    app.rebuild_entries();
    app.cursor = Some(app.visible.iter().position(|&i| app.entries[i].composer_id == "a").unwrap());
    app.sync_sub_rows();
    assert_eq!(sub_row(&app.sub_rows[1]).0, vec!["  └ (未命名)", "0 B", "c"]);
    app.sub_rows[1].is_dangling = true;
    assert_eq!(sub_row(&app.sub_rows[1]).0[0], "  └ (未命名) [孤]");
    assert_eq!(sub_row(&app.sub_rows[1]).1, Tone::Red);
    assert_eq!(ws_row(&app.ws_rows[0], &None), vec!["●", "全部", "1"]);
    assert_eq!(ws_row(&app.ws_rows[0], &Some("w".into()))[0], " ");
    assert_eq!(tree_height(0, 40), 0);
    assert_eq!(tree_height(3, 40), 5);
    assert_eq!(tree_height(100, 40), 20);
}

#[test]
fn a_new_list_has_no_figures_and_no_writes() {
    let app = App::new(vec![session("a-1", Some("w1"))], &IdMap::new());
    assert_eq!(app.writes, 0);
    assert_eq!(app.scan_gen, 0);
    assert_eq!(app.scan.total_rows, 0);
    assert!(!app.scan.sized);
    assert!(app.scan.orphan_composers.is_empty());
    assert!(app.scan.condemned_keys.is_empty());
    assert!(app.scan.per_composer.get("a-1").is_none());
    assert_eq!(app.scan.blob.rows, 0);
    assert_eq!(app.scan.ghost_headers, 0);
    assert_eq!(app.scan_state, ScanState::Running);
}
