use winsel::display::build_rows;
use winsel::encoding::encode_text;
use winsel::kitty_api::{KittyData, OsWindow, Tab, Window};
use winsel::preview::{
    get_last_command_output, preview_header, preview_line_limit, preview_live, preview_static, preview_subject,
    tail_lines, BOLD, PREVIEW_FALLBACK_LINES, RESET,
};
use winsel::text::parse_i128;

fn numbered(n: usize) -> String {
    (1..=n).map(|i| format!("Line {}", i)).collect::<Vec<_>>().join("\n")
}

#[test]
fn test_preview_output_order() {
    let simulated_body = numbered(100);
    let max_lines = 10;
    let output = tail_lines(&simulated_body, max_lines);
    assert_eq!(output[0], "Line 91");
    assert_eq!(output[1], "Line 92");
    assert_eq!(output[9], "Line 100");
    assert_eq!(output.len(), max_lines);
}

#[test]
fn test_preview_output_short_content() {
    let simulated_body = numbered(5);
    let max_lines = 10;
    let output = tail_lines(&simulated_body, max_lines);
    assert_eq!(output.len(), 5);
    assert_eq!(output[0], "Line 1");
    assert_eq!(output[4], "Line 5");
}

#[test]
fn test_preview_shows_last_line() {
    let simulated_body = numbered(200);
    let max_lines = 50;
    let output = tail_lines(&simulated_body, max_lines);
    assert_eq!(output.len(), max_lines);
    assert_eq!(output[0], "Line 151");
    assert_eq!(output[49], "Line 200");
}

#[test]
fn tail_lines_edge_cases() {
    assert_eq!(tail_lines("", 5), Vec::<String>::new());
    assert_eq!(tail_lines("a\nb\n", 5), vec!["a".to_string(), "b".to_string()]);
    assert_eq!(tail_lines("a\r\nb", 1), vec!["b".to_string()]);
    assert_eq!(tail_lines("a\nb", 0), Vec::<String>::new());
}

#[test]
fn preview_line_limit_reads_the_variable() {
    assert_eq!(preview_line_limit(Some("42")), 42);
    assert_eq!(preview_line_limit(Some("+7")), 7);
    assert_eq!(preview_line_limit(Some("x")), PREVIEW_FALLBACK_LINES);
    assert_eq!(preview_line_limit(Some("-1")), PREVIEW_FALLBACK_LINES);
    assert_eq!(preview_line_limit(None), 200);
}

fn header(cmd: &str, cwd: &str, running: &str) -> String {
    format!(
        "{b}Command:   {r}{cmd}\n{b}Directory: {r}{cwd}\n{b}Running:   {r}{running}\n\n",
        b = BOLD,
        r = RESET
    )
}

#[test]
fn preview_header_layout() {
    assert_eq!(preview_header("vim", "/tmp", Some(61)), header("vim", "/tmp", "1m 1s"));
    assert_eq!(preview_header("vim", "/tmp", None), header("vim", "/tmp", "n/a"));
}

fn data_with(win: Window) -> KittyData {
    KittyData(vec![OsWindow {
        id: 1,
        is_focused: true,
        last_focused: false,
        tabs: vec![Tab {
            id: 2,
            is_active: true,
            is_focused: true,
            title: "t".to_string(),
            active_window_history: vec![],
            windows: vec![win],
        }],
    }])
}

fn win(id: i64, cwd: &str, cmd: &[&str], created_at: i64) -> Window {
    Window {
        id,
        is_focused: false,
        title: "w".to_string(),
        cwd: cwd.to_string(),
        created_at,
        last_reported_cmdline: cmd.iter().map(|s| s.to_string()).collect(),
        foreground_processes: vec![],
        env: Vec::new(),
        user_vars: Vec::new(),
    }
}

#[test]
fn preview_subject_finds_the_window() {
    let data = data_with(win(9, "/srv", &["/usr/bin/top"], 0));
    let (cmd, cwd, created) = preview_subject(&data, "9");
    assert_eq!((cmd.as_str(), cwd.as_str(), created), ("top", "/srv", 0));
    let (cmd, cwd, created) = preview_subject(&data, "8");
    assert_eq!((cmd.as_str(), cwd.as_str(), created), ("<shell>", "<unknown>", 0));
}

#[test]
fn preview_live_header() {
    let data = data_with(win(9, "", &[], 0));
    assert_eq!(preview_live(&data, "9"), header("<shell>", "<unknown>", "n/a"));
    assert_eq!(preview_live(&data, ""), "");
}

#[test]
fn preview_static_decodes_fields() {
    let cmd = encode_text("vim a.txt");
    let cwd = encode_text("/home/user");
    assert_eq!(preview_static("3", &cmd, &cwd, 0), header("vim a.txt", "/home/user", "n/a"));
    assert_eq!(preview_static("3", "!!", "", -1), header("<shell>", "<unknown>", "n/a"));
    assert_eq!(preview_static("", &cmd, &cwd, 0), "");
}

#[test]
fn preview_static_of_a_row_shows_its_window() {
    let data = data_with(win(5, "/home/user/src", &["cargo", "test"], 1_000));
    let rows = build_rows(&data, None, Some("/home/user"), &Vec::new());
    let fields: Vec<&str> = rows[0].split('\t').collect();
    let created = parse_i128(fields[6]).unwrap();
    assert_eq!(created, 1_000);
    let shown = preview_static(fields[0], fields[4], fields[7], created);
    assert!(shown.starts_with(&format!("{b}Command:   {r}cargo test\n{b}Directory: {r}/home/user/src\n", b = BOLD, r = RESET)));
}

#[test]
fn last_command_output_needs_success_and_utf8() {
    assert_eq!(get_last_command_output(true, b"ok\n".to_vec()), Some("ok\n".to_string()));
    assert_eq!(get_last_command_output(false, b"ok\n".to_vec()), None);
    assert_eq!(get_last_command_output(true, vec![0xff, 0xfe]), None);
}
