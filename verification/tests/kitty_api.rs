use winsel::kitty_api::{has_distinct_names, read_cmdline_field, CmdlineField, Process, Window};

fn bare_window(last: Vec<String>, procs: Vec<Process>) -> Window {
    Window {
        id: 1,
        is_focused: false,
        title: String::new(),
        cwd: String::new(),
        created_at: 0,
        last_reported_cmdline: last,
        foreground_processes: procs,
        env: Vec::new(),
        user_vars: Vec::new(),
    }
}

#[test]
fn test_window_cmdline_prefers_last_reported() {
    let window = bare_window(
        vec!["vim".to_string(), "file.txt".to_string()],
        vec![Process { cmdline: vec!["bash".to_string()] }],
    );
    assert_eq!(window.cmdline(), &["vim", "file.txt"]);
}

#[test]
fn test_window_cmdline_fallback_to_foreground() {
    let window = bare_window(vec![], vec![Process { cmdline: vec!["bash".to_string()] }]);
    assert_eq!(window.cmdline(), &["bash"]);
}

#[test]
fn test_window_cmdline_empty_fallback() {
    let window = bare_window(vec![], vec![]);
    assert_eq!(window.cmdline(), &[] as &[String]);
}

#[test]
fn cmdline_field_text_is_split_on_white_space() {
    let r = read_cmdline_field(CmdlineField::Text("htop  --sort-key PERCENT_CPU ".to_string()));
    assert_eq!(r, Some(vec!["htop".to_string(), "--sort-key".to_string(), "PERCENT_CPU".to_string()]));
    let r = read_cmdline_field(CmdlineField::Text("  \t ".to_string()));
    assert_eq!(r, Some(vec![]));
}

#[test]
fn cmdline_field_list_of_strings_is_kept() {
    let r = read_cmdline_field(CmdlineField::List(vec![Some("vim".to_string()), Some(" a ".to_string())]));
    assert_eq!(r, Some(vec!["vim".to_string(), " a ".to_string()]));
}

#[test]
fn cmdline_field_list_with_non_string_is_refused() {
    let r = read_cmdline_field(CmdlineField::List(vec![Some("vim".to_string()), None]));
    assert_eq!(r, None);
}

#[test]
fn cmdline_field_other_values_are_empty() {
    assert_eq!(read_cmdline_field(CmdlineField::Other), Some(vec![]));
}

#[test]
fn variable_names_are_distinct() {
    let mut w = bare_window(vec![], vec![]);
    w.env = vec![("A".to_string(), "1".to_string()), ("B".to_string(), "1".to_string())];
    assert!(w.check_well_formed());
    assert!(has_distinct_names(&w.env));
    w.user_vars = vec![("X".to_string(), "1".to_string()), ("X".to_string(), "2".to_string())];
    assert!(!w.check_well_formed());
}
