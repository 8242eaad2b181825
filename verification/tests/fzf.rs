use winsel::display::build_rows;
use winsel::fzf::{fzf_args, FIELD_CMD_BASE64, FIELD_CREATED, FIELD_CWD_BASE64, FIELD_ID, FIELD_LABEL};
use winsel::kitty_api::{KittyData, OsWindow, Tab, Window};

#[test]
fn fzf_command_line() {
    let expected = vec![
        "--prompt=WINSEL> ",
        "--multi",
        "--ansi",
        "--delimiter",
        "\t",
        "--with-nth=9",
        "--layout=reverse",
        "--no-select-1",
        "--no-exit-0",
        "--info=right",
        "--border",
        "--border-label-pos=bottom",
        "--border-label= ↵:focus z:bg t:tab h:hsplit v:vsplit y:yank ",
        "--preview",
        "\"$WINSEL_BIN\" preview-static {1} {5} {8} {7}",
        "--preview-window=right:60%,nowrap,follow,~4",
        "--bind",
        "enter:execute-silent($WINSEL_BIN apply {+1})+accept,\
ctrl-z:execute-silent($WINSEL_BIN apply-bg {+1})+accept,\
ctrl-t:execute-silent($WINSEL_BIN apply-tab {+1})+accept,\
ctrl-h:execute-silent($WINSEL_BIN split-h {+1})+accept,\
ctrl-v:execute-silent($WINSEL_BIN split-v {+1})+accept,\
ctrl-y:execute-silent($WINSEL_BIN yank {+1})",
    ];
    assert_eq!(fzf_args(), expected);
}

#[test]
fn field_numbers_point_at_the_row_fields() {
    let win = Window {
        id: 42,
        is_focused: false,
        title: "t".to_string(),
        cwd: "/srv".to_string(),
        created_at: 99,
        last_reported_cmdline: vec!["top".to_string()],
        foreground_processes: vec![],
        env: Vec::new(),
        user_vars: Vec::new(),
    };
    let data = KittyData(vec![OsWindow {
        id: 1,
        is_focused: true,
        last_focused: false,
        tabs: vec![Tab {
            id: 2,
            is_active: true,
            is_focused: true,
            title: "x".to_string(),
            active_window_history: vec![],
            windows: vec![win],
        }],
    }]);
    let rows = build_rows(&data, None, None, &Vec::new());
    let fields: Vec<&str> = rows[0].split('\t').collect();
    assert_eq!(fields[FIELD_ID - 1], "42");
    assert_eq!(fields[FIELD_CMD_BASE64 - 1], "dG9w");
    assert_eq!(fields[FIELD_CREATED - 1], "99");
    assert_eq!(fields[FIELD_CWD_BASE64 - 1], "L3Nydg==");
    assert!(fields[FIELD_LABEL - 1].contains("/srv"));
}
