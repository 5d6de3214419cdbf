use lapce_app::session::{
    new_window_geometry, partition_paths, plan_startup, shift, split_line_column,
    workspace_title, AppInfo, LineCol, PathObject, Point, Position, Size, TabsInfo, WindowInfo,
    WorkspaceDescriptor, WorkspaceKind,
};
use lapce_app::handoff::{launch_step, LaunchAction, LaunchEvent, LaunchState};
use lapce_app::windows::{AppCommand, AppData, AppEffect, WindowGeometry};

fn file(p: &str) -> PathObject {
    PathObject { path: p.to_string(), linecol: None, is_dir: false }
}

fn dir(p: &str) -> PathObject {
    PathObject { path: p.to_string(), linecol: None, is_dir: true }
}

fn ws(path: &str) -> WorkspaceDescriptor {
    WorkspaceDescriptor {
        kind: WorkspaceKind::Local,
        path: Some(path.to_string()),
        last_open: 7,
    }
}

fn window(w: u32, h: u32, x: i32, y: i32, maximised: bool, tabs: Vec<WorkspaceDescriptor>) -> WindowInfo {
    WindowInfo {
        size: Size { width: w, height: h },
        pos: Point { x, y },
        maximised,
        tabs: TabsInfo { active_tab: 0, workspaces: tabs },
    }
}

#[test]
fn path_with_line_and_column() {
    assert_eq!(
        split_line_column("a/b.rs:10:4"),
        ("a/b.rs".to_string(), Some(LineCol { line: 10, column: 4 }))
    );
}

#[test]
fn path_with_line_only() {
    assert_eq!(
        split_line_column("src/main.rs:7"),
        ("src/main.rs".to_string(), Some(LineCol { line: 7, column: 1 }))
    );
    assert_eq!(
        split_line_column("c:x:7"),
        ("c:x".to_string(), Some(LineCol { line: 7, column: 1 }))
    );
}

#[test]
fn path_without_position() {
    assert_eq!(split_line_column("notes.txt"), ("notes.txt".to_string(), None));
    assert_eq!(split_line_column("a:b"), ("a:b".to_string(), None));
    assert_eq!(split_line_column("a:"), ("a:".to_string(), None));
    assert_eq!(
        split_line_column("a:99999999999999999999999"),
        ("a:99999999999999999999999".to_string(), None)
    );
}

#[test]
fn bare_numbers_are_positions() {
    assert_eq!(
        split_line_column("10:4"),
        ("".to_string(), Some(LineCol { line: 10, column: 4 }))
    );
    assert_eq!(split_line_column("12"), ("".to_string(), Some(LineCol { line: 12, column: 1 })));
}

#[test]
fn titles_of_workspaces() {
    assert_eq!(workspace_title(&ws("/home/u/proj")), Some("proj".to_string()));
    let ssh = WorkspaceDescriptor {
        kind: WorkspaceKind::RemoteSsh("me@host:22".to_string()),
        path: Some("/srv/app".to_string()),
        last_open: 0,
    };
    assert_eq!(workspace_title(&ssh), Some("app [me@host:22]".to_string()));
    let wsl = WorkspaceDescriptor {
        kind: WorkspaceKind::RemoteWsl("Ubuntu".to_string()),
        path: Some("/data".to_string()),
        last_open: 0,
    };
    assert_eq!(workspace_title(&wsl), Some("data [Ubuntu]".to_string()));
    assert_eq!(workspace_title(&WorkspaceDescriptor::empty()), None);
}

#[test]
fn partition_keeps_order() {
    let paths = vec![file("a"), dir("d1"), file("b"), dir("d2")];
    let (dirs, files) = partition_paths(&paths);
    assert_eq!(dirs.iter().map(|p| p.path.clone()).collect::<Vec<_>>(), vec!["d1", "d2"]);
    assert_eq!(files.iter().map(|p| p.path.clone()).collect::<Vec<_>>(), vec!["a", "b"]);
}

#[test]
fn folders_open_one_window_each() {
    let paths = vec![dir("/w/one"), file("x.rs"), dir("/w/two")];
    let last = window(1000, 700, 10, 20, true, vec![]);
    let plans = plan_startup(&paths, None, Some(last));
    assert_eq!(plans.len(), 2);
    assert_eq!(plans[0].info.size, Size { width: 1000, height: 700 });
    assert_eq!(plans[0].info.pos, Point { x: 10, y: 20 });
    assert_eq!(plans[1].info.pos, Point { x: 60, y: 70 });
    assert!(!plans[0].info.maximised);
    assert_eq!(plans[0].info.tabs.workspaces[0].path, Some("/w/one".to_string()));
    assert_eq!(plans[1].info.tabs.workspaces[0].path, Some("/w/two".to_string()));
    assert_eq!(plans[0].files.len(), 1);
    assert_eq!(plans[0].files[0].path, "x.rs");
    assert!(plans[1].files.is_empty());
}

#[test]
fn files_alone_open_one_window_without_folder() {
    let plans = plan_startup(&vec![file("x")], Some(AppInfo { windows: vec![window(1, 1, 0, 0, false, vec![])] }), None);
    assert_eq!(plans.len(), 1);
    assert_eq!(plans[0].info.tabs.workspaces.len(), 1);
    assert_eq!(plans[0].info.tabs.workspaces[0].path, None);
    assert_eq!(plans[0].files.len(), 1);
    assert_eq!(plans[0].files[0].path, "x");
    assert_eq!(plans[0].info.size, Size { width: 800, height: 600 });
}

#[test]
fn snapshot_round_trip_restores_windows() {
    let saved = AppInfo {
        windows: vec![
            window(1200, 800, 5, 6, true, vec![ws("/p/a"), ws("/p/b")]),
            window(800, 600, 0, 0, false, vec![WorkspaceDescriptor::empty()]),
        ],
    };
    let plans = plan_startup(&vec![], Some(saved), None);
    assert_eq!(plans.len(), 2);
    assert_eq!(plans[0].info.size, Size { width: 1200, height: 800 });
    assert_eq!(plans[0].info.pos, Point { x: 5, y: 6 });
    assert!(plans[0].info.maximised);
    let paths: Vec<Option<String>> =
        plans[0].info.tabs.workspaces.iter().map(|w| w.path.clone()).collect();
    assert_eq!(paths, vec![Some("/p/a".to_string()), Some("/p/b".to_string())]);
    assert!(!plans[1].info.maximised);
    assert!(plans.iter().all(|p| p.files.is_empty()));
}

#[test]
fn nothing_to_restore_opens_a_default_window() {
    let plans = plan_startup(&vec![], Some(AppInfo { windows: vec![] }), None);
    assert_eq!(plans.len(), 1);
    assert_eq!(plans[0].info.size, Size { width: 800, height: 600 });
    assert_eq!(plans[0].info.pos, Point { x: 0, y: 0 });
    let last = window(640, 480, 3, 4, true, vec![ws("/old")]);
    let plans = plan_startup(&vec![], None, Some(last));
    assert_eq!(plans[0].info.size, Size { width: 640, height: 480 });
    assert!(plans[0].info.maximised);
    assert_eq!(plans[0].info.tabs.workspaces[0].path, None);
}

#[test]
fn handoff_fallback_opens_the_named_file() {
    let (state, action) = launch_step(LaunchState::Unknown, LaunchEvent::ConnectFailed);
    assert_eq!(state, LaunchState::RunningAsServer);
    assert_eq!(action, LaunchAction::StartServer);
    let plans = plan_startup(&vec![file("x")], None, None);
    assert_eq!(plans.len(), 1);
    assert_eq!(plans[0].files[0].path, "x");
}

#[test]
fn new_window_placement() {
    let s = Size { width: 900, height: 500 };
    assert_eq!(
        new_window_geometry(Some((s, Point { x: 10, y: 20 })), None),
        (s, Point { x: 60, y: 70 })
    );
    let saved = (Size { width: 1, height: 2 }, Point { x: 3, y: 4 });
    assert_eq!(new_window_geometry(None, Some(saved)), saved);
    assert_eq!(
        new_window_geometry(None, None),
        (Size { width: 800, height: 600 }, Point { x: 0, y: 0 })
    );
    assert_eq!(shift(i32::MAX - 10), i32::MAX);
}

fn geo(x: i32) -> WindowGeometry {
    WindowGeometry { size: Size { width: 100, height: 100 }, pos: Point { x, y: x } }
}

#[test]
fn closing_the_last_window_records_the_session_first() {
    let mut app = AppData::new();
    app.window_placed(1, geo(0));
    let effects = app.run_app_command(AppCommand::WindowClosed(1), None);
    assert!(matches!(effects[0], AppEffect::InsertApp));
    assert!(matches!(effects[1], AppEffect::DisposeWindow(1)));
    assert!(matches!(effects[2], AppEffect::SaveApp));
    assert_eq!(effects.len(), 3);
    assert_eq!(app.active_window(), None);
}

#[test]
fn closing_one_of_two_windows_only_saves() {
    let mut app = AppData::new();
    app.window_placed(1, geo(0));
    app.window_placed(2, geo(10));
    let effects = app.run_app_command(AppCommand::WindowClosed(2), None);
    assert_eq!(effects.len(), 2);
    assert!(matches!(effects[0], AppEffect::DisposeWindow(2)));
    assert!(matches!(effects[1], AppEffect::SaveApp));
    assert_eq!(app.active_window(), Some(1));
}

#[test]
fn closes_after_termination_do_nothing() {
    let mut app = AppData::new();
    app.window_placed(1, geo(0));
    let t = app.terminate();
    assert!(matches!(t[0], AppEffect::InsertApp));
    assert!(app.run_app_command(AppCommand::WindowClosed(1), None).is_empty());
    assert_eq!(app.active_window(), Some(1));
}

#[test]
fn new_window_is_offset_from_the_active_one() {
    let mut app = AppData::new();
    app.window_placed(4, geo(100));
    app.window_placed(5, geo(300));
    app.run_app_command(AppCommand::WindowGotFocus(5), None);
    let effects = app.run_app_command(
        AppCommand::NewWindow { folder: Some("/w".to_string()) },
        None,
    );
    match &effects[0] {
        AppEffect::OpenWindow { geometry, folder } => {
            assert_eq!(geometry.pos, Point { x: 350, y: 350 });
            assert_eq!(geometry.size, Size { width: 100, height: 100 });
            assert_eq!(folder.as_deref(), Some("/w"));
        }
        other => panic!("unexpected {:?}", other),
    }
    let empty = AppData::new();
    assert_eq!(empty.new_window(Some(geo(7))), geo(7));
    assert_eq!(
        empty.new_window(None),
        WindowGeometry { size: Size { width: 800, height: 600 }, pos: Point { x: 0, y: 0 } }
    );
    let mut other = AppData::new();
    other.run_app_command(AppCommand::SaveApp, None);
    assert!(matches!(
        other.run_app_command(AppCommand::CloseWindow(9), None)[0],
        AppEffect::CloseWindow(9)
    ));
}

#[test]
fn workspace_tabs_reorder() {
    let mut tabs = TabsInfo { active_tab: 0, workspaces: vec![ws("/a"), ws("/b"), ws("/c")] };
    tabs.move_tab(0, 3);
    let order: Vec<Option<String>> = tabs.workspaces.iter().map(|w| w.path.clone()).collect();
    assert_eq!(
        order,
        vec![Some("/b".to_string()), Some("/c".to_string()), Some("/a".to_string())]
    );
    assert_eq!(tabs.active_tab, 2);
    tabs.move_tab(1, 1);
    let again: Vec<Option<String>> = tabs.workspaces.iter().map(|w| w.path.clone()).collect();
    assert_eq!(again, order);
    assert_eq!(tabs.active_tab, 1);
}

#[test]
fn active_window_tab_follows_focus_and_tab_switches() {
    let mut app = AppData::new();
    assert_eq!(app.active_window_tab(), None);
    app.window_placed(1, geo(0));
    app.window_placed(2, geo(10));
    app.run_app_command(AppCommand::WindowGotFocus(2), None);
    assert_eq!(app.active_window_tab(), Some((2, 0)));
    app.tab_activated(2, 3);
    assert_eq!(app.active_window_tab(), Some((2, 3)));
    // moving the window keeps its tab
    app.window_placed(2, geo(20));
    assert_eq!(app.active_window_tab(), Some((2, 3)));
    app.tab_activated(9, 1);
    app.run_app_command(AppCommand::WindowClosed(2), None);
    assert_eq!(app.active_window_tab(), Some((1, 0)));
}

#[test]
fn line_and_column_become_zero_based() {
    let p = LineCol { line: 10, column: 4 }.to_position();
    assert_eq!(p, Position { line: 9, character: 3 });
    assert_eq!(LineCol { line: 0, column: 1 }.to_position(), Position { line: 0, character: 0 });
}

#[test]
fn a_root_folder_is_titled_by_its_whole_path() {
    assert_eq!(workspace_title(&ws("/")), Some("/".to_string()));
    let ssh = WorkspaceDescriptor {
        kind: WorkspaceKind::RemoteSsh("h".to_string()),
        path: Some("/".to_string()),
        last_open: 0,
    };
    assert_eq!(workspace_title(&ssh), Some("/ [h]".to_string()));
}
