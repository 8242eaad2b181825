use winsel::selection::{
    background_os_window_id, poll_step, rows_notice, split_target_step, PollAction, SplitTarget, NO_ROWS_NOTICE,
    POLL_ATTEMPTS,
};
use winsel::kitty_api::{KittyData, OsWindow, Tab, Window};
use winsel::selection::{
    active_os_window_id, background_commands, backoff_ms, detach_args, find_active_os_window_id_fallback,
    find_tab_id_by_title, find_tab_id_for_window, find_tab_title, first_tab_id, focus_previous_tab_args,
    focus_tab_args, focus_window_args, move_selected_first, move_selected_rest, origin_tab, plan_apply,
    split_commands, unique_ids, yank_payload, ApplyPlan, OriginTab,
};

fn s(v: &[&str]) -> Vec<String> {
    v.iter().map(|x| x.to_string()).collect()
}

fn win(id: i64) -> Window {
    Window {
        id,
        is_focused: false,
        title: String::new(),
        cwd: String::new(),
        created_at: 0,
        last_reported_cmdline: vec![],
        foreground_processes: vec![],
        env: Vec::new(),
        user_vars: Vec::new(),
    }
}

fn tab(id: i64, title: &str, wins: &[i64]) -> Tab {
    Tab {
        id,
        is_active: false,
        is_focused: false,
        title: title.to_string(),
        active_window_history: vec![],
        windows: wins.iter().map(|w| win(*w)).collect(),
    }
}

fn sample() -> KittyData {
    KittyData(vec![
        OsWindow { id: 1, is_focused: false, last_focused: false, tabs: vec![tab(10, "Main", &[100, 101])] },
        OsWindow {
            id: 2,
            is_focused: true,
            last_focused: true,
            tabs: vec![tab(20, "WinSel", &[200]), tab(21, "bg", &[201])],
        },
    ])
}

#[test]
fn unique_ids_trims_and_drops_repeats() {
    let ids = s(&[" 3 ", "1", "", "3", "  ", "2", "1\n"]);
    assert_eq!(unique_ids(&ids), s(&["3", "1", "2"]));
    assert_eq!(unique_ids(&[]), Vec::<String>::new());
}

#[test]
fn unique_ids_is_idempotent() {
    let ids = s(&["b ", " a", "b", "c", "a"]);
    let once = unique_ids(&ids);
    assert_eq!(unique_ids(&once), once);
}

#[test]
fn plan_apply_cases() {
    assert!(matches!(plan_apply(&s(&[" ", ""])), ApplyPlan::Nothing));
    match plan_apply(&s(&["7", " 7 "])) {
        ApplyPlan::Focus(w) => assert_eq!(w, "7"),
        _ => panic!("expected focus"),
    }
    match plan_apply(&s(&["7", "8", "7"])) {
        ApplyPlan::Group(v) => assert_eq!(v, s(&["7", "8"])),
        _ => panic!("expected group"),
    }
}

#[test]
fn tree_lookups() {
    let data = sample();
    assert_eq!(find_tab_title(&data, "21"), Some("bg".to_string()));
    assert_eq!(find_tab_title(&data, "99"), None);
    assert_eq!(active_os_window_id(&data), Some("2".to_string()));
    assert_eq!(find_active_os_window_id_fallback(&data), Some("2".to_string()));
    assert_eq!(find_tab_id_by_title(&data, "2", "BG"), Some("21".to_string()));
    assert_eq!(find_tab_id_by_title(&data, "1", "BG"), None);
    assert_eq!(find_tab_id_for_window(&data, "201"), Some("21".to_string()));
    assert_eq!(find_tab_id_for_window(&data, "999"), None);
    assert_eq!(first_tab_id(&data), Some("10".to_string()));
}

#[test]
fn os_window_fallbacks() {
    let mut data = sample();
    data.0[1].is_focused = false;
    data.0[1].last_focused = false;
    assert_eq!(active_os_window_id(&data), None);
    assert_eq!(find_active_os_window_id_fallback(&data), Some("1".to_string()));
    let empty = KittyData(vec![]);
    assert_eq!(find_active_os_window_id_fallback(&empty), None);
    assert_eq!(first_tab_id(&empty), None);
}

#[test]
fn window_tab_has_a_title() {
    let data = sample();
    for w in ["100", "101", "200", "201"] {
        let t = find_tab_id_for_window(&data, w).unwrap();
        assert!(find_tab_title(&data, &t).is_some());
    }
}

#[test]
fn origin_tab_cases() {
    let data = sample();
    assert!(matches!(origin_tab(&data, Some("200")), OriginTab::Recent));
    match origin_tab(&data, Some("101")) {
        OriginTab::Tab(t) => assert_eq!(t, "10"),
        _ => panic!("expected a tab"),
    }
    assert!(matches!(origin_tab(&data, Some("5")), OriginTab::Unknown));
    assert!(matches!(origin_tab(&data, None), OriginTab::Unknown));
}

#[test]
fn focus_requests() {
    assert_eq!(focus_window_args("4"), Some(s(&["focus-window", "--match", "id:4"])));
    assert_eq!(focus_window_args(""), None);
    assert_eq!(focus_tab_args("9"), Some(s(&["focus-tab", "--match", "id:9"])));
    assert_eq!(focus_tab_args(""), None);
    assert_eq!(focus_previous_tab_args(), s(&["focus-tab", "--match", "recent:1"]));
}

#[test]
fn detach_requests() {
    assert_eq!(
        detach_args("3", true, "new", None),
        s(&["detach-window", "--match", "id:3", "--stay-in-tab", "--target-tab", "new"])
    );
    assert_eq!(
        detach_args("3", false, "id:5", Some("vsplit")),
        s(&["detach-window", "--match", "id:3", "--target-tab", "id:5", "--location", "vsplit"])
    );
}

#[test]
fn move_selected_requests() {
    let ids = s(&["1", "2", "3"]);
    assert_eq!(
        move_selected_first(&ids, true),
        Some(s(&["detach-window", "--match", "id:1", "--target-tab", "new"]))
    );
    assert_eq!(move_selected_first(&vec![], true), None);
    assert_eq!(
        move_selected_rest(&ids, "8", true, None),
        vec![
            s(&["detach-window", "--match", "id:2", "--target-tab", "id:8"]),
            s(&["detach-window", "--match", "id:3", "--target-tab", "id:8"]),
            s(&["focus-tab", "--match", "id:8"]),
        ]
    );
    assert_eq!(
        move_selected_rest(&s(&["1"]), "8", false, None),
        vec![s(&["focus-tab", "--match", "recent:1"])]
    );
    assert_eq!(
        move_selected_rest(&s(&["1", "2"]), "8", false, Some("4")),
        vec![
            s(&["detach-window", "--match", "id:2", "--stay-in-tab", "--target-tab", "id:8"]),
            s(&["focus-tab", "--match", "id:4"]),
        ]
    );
}

#[test]
fn background_requests() {
    assert_eq!(
        background_commands(&s(&["1"]), "21", Some("10")),
        vec![
            s(&["detach-window", "--match", "id:1", "--stay-in-tab", "--target-tab", "id:21"]),
            s(&["focus-tab", "--match", "id:10"]),
        ]
    );
    assert_eq!(
        background_commands(&s(&["1"]), "21", None)[1],
        s(&["focus-tab", "--match", "recent:1"])
    );
}

#[test]
fn split_requests() {
    assert_eq!(
        split_commands(&s(&["1", "2"]), "10", "hsplit"),
        vec![
            s(&["focus-tab", "--match", "id:10"]),
            s(&["detach-window", "--match", "id:1", "--target-tab", "id:10", "--location", "hsplit"]),
            s(&["detach-window", "--match", "id:2", "--target-tab", "id:10", "--location", "hsplit"]),
            s(&["focus-window", "--match", "id:1"]),
        ]
    );
}

#[test]
fn yank_payload_joins_outputs() {
    let outputs = vec![
        ("1".to_string(), Some("ls\nfile\n\n".to_string())),
        ("2".to_string(), Some("  \n".to_string())),
        ("3".to_string(), None),
        ("4".to_string(), Some("done  ".to_string())),
    ];
    assert_eq!(yank_payload(&outputs), Some("# window 1\nls\nfile\n\n# window 4\ndone".to_string()));
    assert_eq!(yank_payload(&vec![("1".to_string(), None)]), None);
}

#[test]
fn backoff_grows_with_attempts() {
    assert_eq!(backoff_ms(30, 0), 30);
    assert_eq!(backoff_ms(20, 4), 100);
}

#[test]
fn poll_step_waits_then_gives_up() {
    assert!(matches!(poll_step(Some("9".to_string()), 0, 30), PollAction::Found(ref t) if t == "9"));
    assert!(matches!(poll_step(None, 0, 30), PollAction::Retry(30)));
    assert!(matches!(poll_step(None, 3, 20), PollAction::Retry(80)));
    assert!(matches!(poll_step(None, POLL_ATTEMPTS - 1, 30), PollAction::GiveUp(150)));
}

#[test]
fn split_target_chain() {
    assert!(matches!(split_target_step(Some("4"), &vec![]), SplitTarget::Use(ref t) if t == "4"));
    assert!(matches!(split_target_step(Some(""), &vec![]), SplitTarget::LookUpRecent(1)));
    assert!(matches!(split_target_step(None, &vec![]), SplitTarget::LookUpRecent(1)));
    assert!(matches!(split_target_step(None, &vec![Some("7".to_string())]), SplitTarget::Use(ref t) if t == "7"));
    assert!(matches!(split_target_step(None, &vec![None]), SplitTarget::LookUpRecent(0)));
    assert!(matches!(split_target_step(None, &vec![None, Some("2".to_string())]), SplitTarget::Use(ref t) if t == "2"));
    assert!(matches!(split_target_step(None, &vec![None, None]), SplitTarget::NoTarget));
}

#[test]
fn rows_notice_only_when_empty() {
    assert_eq!(rows_notice(0), Some(NO_ROWS_NOTICE));
    assert_eq!(NO_ROWS_NOTICE, "WINSEL: no other windows");
    assert_eq!(rows_notice(3), None);
}

#[test]
fn background_os_window_choice() {
    let mut data = sample();
    assert_eq!(background_os_window_id(&data), Some("2".to_string()));
    data.0[1].is_focused = false;
    data.0[1].last_focused = false;
    assert_eq!(background_os_window_id(&data), Some("1".to_string()));
    assert_eq!(background_os_window_id(&KittyData(vec![])), None);
}
