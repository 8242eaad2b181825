use winsel::display::{
    build_extra_searchable_content, build_rows, build_smart_label, condense_text, is_listed, join_cmd,
    limit_text_chars, COLOR_CMD, COLOR_META, COLOR_PATH, COLOR_RESET,
};
use winsel::kitty_api::{KittyData, OsWindow, Process, Tab, Window};

fn window(id: i64, title: &str, cwd: &str, created_at: i64, cmdline: &[&str]) -> Window {
    Window {
        id,
        is_focused: false,
        title: title.to_string(),
        cwd: cwd.to_string(),
        created_at,
        last_reported_cmdline: cmdline.iter().map(|s| s.to_string()).collect(),
        foreground_processes: vec![],
        env: Vec::new(),
        user_vars: Vec::new(),
    }
}

fn one_tab(windows: Vec<Window>, history: Vec<i64>) -> KittyData {
    KittyData(vec![OsWindow {
        id: 1,
        is_focused: true,
        last_focused: false,
        tabs: vec![Tab {
            id: 1,
            is_active: true,
            is_focused: true,
            title: "Main".to_string(),
            active_window_history: history,
            windows,
        }],
    }])
}

const HOME: &str = "/Users/bmizerany";

#[test]
fn test_join_cmd_empty() {
    assert_eq!(join_cmd(&[]), "");
}

#[test]
fn test_join_cmd_single() {
    assert_eq!(join_cmd(&["vim".to_string()]), "vim");
}

#[test]
fn test_join_cmd_multiple() {
    assert_eq!(join_cmd(&["vim".to_string(), "file.txt".to_string()]), "vim file.txt");
}

#[test]
fn test_join_cmd_absolute_path() {
    assert_eq!(join_cmd(&["/usr/bin/vim".to_string(), "file.txt".to_string()]), "vim file.txt");
}

#[test]
fn test_join_cmd_filters_empty() {
    assert_eq!(
        join_cmd(&["vim".to_string(), "".to_string(), "file.txt".to_string()]),
        "vim file.txt"
    );
}

#[test]
fn test_smart_label_no_title() {
    let label = build_smart_label("", "go run -C ~/src/ollama . serve", "/Users/bmizerany/.config/kitty", Some(HOME));
    let expected = format!(
        "{}{}{}: {}{}{}",
        COLOR_PATH, "~/.config/kitty", COLOR_RESET, COLOR_CMD, "go run -C ~/src/ollama . serve", COLOR_RESET
    );
    assert_eq!(label, expected);
}

#[test]
fn test_smart_label_exact_match() {
    let cmd = "go run -C ~/src/ollama . serve";
    let label = build_smart_label(cmd, cmd, "/Users/bmizerany/.config/kitty", Some(HOME));
    let expected = format!("{}{}{}: {}{}{}", COLOR_PATH, "~/.config/kitty", COLOR_RESET, COLOR_CMD, cmd, COLOR_RESET);
    assert_eq!(label, expected);
}

#[test]
fn test_smart_label_different_title() {
    let title = "Ollama Server";
    let cmd = "go run -C ~/src/ollama . serve";
    let label = build_smart_label(title, cmd, "/Users/bmizerany/.config/kitty", Some(HOME));
    let expected = format!("{}{}{}: {}{}{}", COLOR_PATH, "~/.config/kitty", COLOR_RESET, COLOR_CMD, cmd, COLOR_RESET);
    assert_eq!(label, expected);
}

#[test]
fn test_smart_label_no_cmdline_fallback_to_shell() {
    let title = "Window Title";
    let label = build_smart_label(title, "", "/Users/bmizerany/.config/kitty", Some(HOME));
    let expected = format!(
        "{}{}{}: {}{}{}",
        COLOR_PATH, "~/.config/kitty", COLOR_RESET, COLOR_CMD, "<shell>", COLOR_RESET
    );
    assert_eq!(label, expected);
}

#[test]
fn test_smart_label_fallback_to_shell() {
    let label = build_smart_label("", "", "/Users/bmizerany/.config/kitty", Some(HOME));
    let expected = format!(
        "{}{}{}: {}{}{}",
        COLOR_PATH, "~/.config/kitty", COLOR_RESET, COLOR_CMD, "<shell>", COLOR_RESET
    );
    assert_eq!(label, expected);
}

#[test]
fn test_build_rows_empty() {
    let data = KittyData(vec![]);
    let rows = build_rows(&data, None, Some(HOME), &Vec::new());
    assert_eq!(rows.len(), 0);
}

#[test]
fn test_build_rows_filters_self() {
    let mut w = window(123, "vim", "/home/user", 1700000000, &["vim"]);
    w.is_focused = true;
    let data = one_tab(vec![w], vec![]);
    let rows = build_rows(&data, Some("123"), Some(HOME), &Vec::new());
    assert_eq!(rows.len(), 0);
}

#[test]
fn test_build_rows_filters_winsel() {
    let data = one_tab(
        vec![
            window(1, "WINSEL", "/home/user", 1700000000, &[]),
            window(2, "bash", "/home/user", 1700000000, &["winsel"]),
        ],
        vec![],
    );
    let rows = build_rows(&data, None, Some(HOME), &Vec::new());
    assert_eq!(rows.len(), 0);
}

#[test]
fn test_build_rows_single_window() {
    let mut w = window(1, "vim", "/home/user", 1700000000, &["vim", "file.txt"]);
    w.is_focused = true;
    let data = one_tab(vec![w], vec![1]);
    let rows = build_rows(&data, None, Some(HOME), &Vec::new());
    assert_eq!(rows.len(), 1);
    assert!(rows[0].starts_with("1\t"));
}

#[test]
fn build_rows_fields_read_back_by_tabs() {
    let mut w = window(7, "  my\ttitle ", "/Users/bmizerany/src", 1700000000, &["/usr/bin/vim", "a b.txt"]);
    w.env = vec![("TERM".to_string(), "xterm\tkitty".to_string())];
    let data = one_tab(vec![w], vec![7]);
    let texts = vec![(7i64, "line one".to_string())];
    let rows = build_rows(&data, None, Some(HOME), &texts);
    assert_eq!(rows.len(), 1);
    let fields: Vec<&str> = rows[0].split('\t').collect();
    assert!(fields.len() >= 10);
    assert_eq!(fields[0], "7");
    assert_eq!(fields[1], "my title");
    assert_eq!(fields[2], "vim a b.txt");
    assert_eq!(fields[3], "vim a b.txt");
    assert_eq!(fields[4], "dmltIGEgYi50eHQ=");
    assert_eq!(fields[5], "/Users/bmizerany/src");
    assert_eq!(fields[6], "1700000000");
    assert_eq!(fields[7], "L1VzZXJzL2JtaXplcmFueS9zcmM=");
    assert_eq!(
        fields[8],
        format!("{}~/src{}: {}vim a b.txt{}", COLOR_PATH, COLOR_RESET, COLOR_CMD, COLOR_RESET)
    );
    let extra = fields[9..].join("\t");
    assert_eq!(
        extra,
        format!(
            "{m}Directory: /Users/bmizerany/src{r} {m}TERM=xterm\tkitty{r} line one",
            m = COLOR_META,
            r = COLOR_RESET
        )
    );
}

#[test]
fn build_rows_title_column_falls_back_to_command() {
    let data = one_tab(vec![window(3, "", "", 5, &["htop"])], vec![]);
    let rows = build_rows(&data, None, None, &Vec::new());
    let fields: Vec<&str> = rows[0].split('\t').collect();
    assert_eq!(fields[1], "htop");
    assert_eq!(fields[8], format!("{}~/{}: {}htop{}", COLOR_PATH, COLOR_RESET, COLOR_CMD, COLOR_RESET));
}

#[test]
fn build_rows_orders_by_rank() {
    // Focused window first, then by place in the tab's history, then newest.
    let mut focused = window(10, "focused", "", 100, &["a"]);
    focused.is_focused = true;
    let recent = window(11, "recent", "", 50, &["b"]);
    let old = window(12, "old", "", 10, &["c"]);
    let newer = window(13, "newer", "", 20, &["d"]);
    let data = one_tab(vec![old, newer, recent, focused], vec![10, 11]);
    let rows = build_rows(&data, None, None, &Vec::new());
    let ids: Vec<&str> = rows.iter().map(|r| r.split('\t').next().unwrap()).collect();
    assert_eq!(ids, vec!["10", "11", "13", "12"]);
}

#[test]
fn build_rows_ties_keep_listing_order() {
    let a = window(1, "a", "", 7, &["x"]);
    let b = window(2, "b", "", 7, &["y"]);
    let data = one_tab(vec![a, b], vec![]);
    let rows = build_rows(&data, None, None, &Vec::new());
    let ids: Vec<&str> = rows.iter().map(|r| r.split('\t').next().unwrap()).collect();
    assert_eq!(ids, vec!["1", "2"]);
}

#[test]
fn build_rows_focused_os_window_first() {
    let data = KittyData(vec![
        OsWindow {
            id: 1,
            is_focused: false,
            last_focused: false,
            tabs: vec![Tab {
                id: 5,
                is_active: false,
                is_focused: false,
                title: "t".to_string(),
                active_window_history: vec![],
                windows: vec![window(1, "one", "", 1, &["a"])],
            }],
        },
        OsWindow {
            id: 2,
            is_focused: false,
            last_focused: true,
            tabs: vec![Tab {
                id: 6,
                is_active: false,
                is_focused: false,
                title: "u".to_string(),
                active_window_history: vec![],
                windows: vec![window(2, "two", "", 1, &["b"])],
            }],
        },
    ]);
    let rows = build_rows(&data, None, None, &Vec::new());
    let ids: Vec<&str> = rows.iter().map(|r| r.split('\t').next().unwrap()).collect();
    assert_eq!(ids, vec!["2", "1"]);
}

#[test]
fn is_listed_checks_case_of_title_and_command() {
    let lower_title = window(1, "winsel", "", 0, &["zsh"]);
    assert!(!is_listed(&lower_title, None));
    let upper_cmd = window(2, "shell", "", 0, &["/opt/bin/WINSEL"]);
    assert!(!is_listed(&upper_cmd, None));
    let other = window(3, "shell", "", 0, &["zsh"]);
    assert!(is_listed(&other, None));
    assert!(!is_listed(&other, Some("3")));
    assert!(is_listed(&other, Some("4")));
}

#[test]
fn join_cmd_uses_foreground_process() {
    let mut w = window(1, "", "", 0, &[]);
    w.foreground_processes = vec![Process { cmdline: vec!["/bin/zsh".to_string(), "-l".to_string()] }];
    assert_eq!(join_cmd(w.cmdline()), "zsh -l");
}

#[test]
fn join_cmd_cleans_each_word() {
    assert_eq!(join_cmd(&[" git\t".to_string(), "log\n".to_string(), "  ".to_string()]), "git log");
    // Only the first word is shortened to its file name.
    assert_eq!(join_cmd(&["cat".to_string(), "/etc/hosts".to_string()]), "cat /etc/hosts");
}

#[test]
fn extra_searchable_content_lists_everything() {
    let env = vec![("A".to_string(), "1".to_string())];
    let vars = vec![("B".to_string(), "2".to_string())];
    let s = build_extra_searchable_content("/tmp", "hello", &env, &vars);
    assert_eq!(
        s,
        format!("{m}Directory: /tmp{r} {m}A=1{r} {m}B=2{r} hello", m = COLOR_META, r = COLOR_RESET)
    );
    let empty = build_extra_searchable_content("", "", &Vec::new(), &Vec::new());
    assert_eq!(empty, format!("{}Directory: {}", COLOR_META, COLOR_RESET));
}

#[test]
fn condense_text_joins_trimmed_lines() {
    assert_eq!(condense_text("  a  \n\n\t b\r\n   \nc"), "a b c");
    assert_eq!(condense_text(""), "");
}

#[test]
fn limit_text_chars_cuts_at_the_limit() {
    assert_eq!(limit_text_chars("abcdef", 4), "abcd");
    assert_eq!(limit_text_chars("abc", 4), "abc");
    assert_eq!(limit_text_chars("héllo", 3), "hél");
    assert_eq!(limit_text_chars("日本語テキスト", 2), "日本");
    let long: String = std::iter::repeat('é').take(2500).collect();
    let cut = limit_text_chars(&long, winsel::display::SEARCH_TEXT_MAX_CHARS);
    assert_eq!(cut.chars().count(), 2000);
}

#[test]
fn build_rows_checked_refuses_unrankable_windows() {
    let data = one_tab(vec![window(1, "a", "", i64::MIN, &["x"])], vec![]);
    assert_eq!(winsel::display::build_rows_checked(&data, None, None, &Vec::new()), None);
    assert!(!winsel::display::ranks_computable(&data, None));
    // The same window is fine when it gets no row.
    assert!(winsel::display::ranks_computable(&data, Some("1")));
    assert_eq!(winsel::display::build_rows_checked(&data, Some("1"), None, &Vec::new()), Some(vec![]));
    let ok = one_tab(vec![window(2, "b", "", 3, &["y"])], vec![]);
    let rows = winsel::display::build_rows_checked(&ok, None, None, &Vec::new()).unwrap();
    assert_eq!(rows, build_rows(&ok, None, None, &Vec::new()));
}

#[test]
fn rows_are_only_for_listed_windows() {
    let data = one_tab(
        vec![
            window(1, "vim", "", 1, &["vim"]),
            window(2, "me", "", 2, &["zsh"]),
            window(3, "Winsel", "", 3, &["fzf"]),
            window(4, "logs", "", 4, &["tail", "-f", "x"]),
        ],
        vec![],
    );
    let rows = build_rows(&data, Some("2"), None, &Vec::new());
    let mut ids: Vec<&str> = rows.iter().map(|r| r.split('\t').next().unwrap()).collect();
    ids.sort();
    assert_eq!(ids, vec!["1", "4"]);
}

#[test]
fn join_cmd_has_no_newline_and_is_empty_only_for_blank_elements() {
    let r = join_cmd(&["a\nb".to_string(), "\n".to_string(), "c".to_string()]);
    assert_eq!(r, "a b c");
    assert!(!r.contains('\n'));
    assert_eq!(join_cmd(&[" ".to_string(), "\t\n".to_string()]), "");
    assert_eq!(join_cmd(&["/".to_string()]), "/");
    assert_eq!(join_cmd(&["/usr/bin/".to_string()]), "bin");
}

#[test]
fn search_text_condenses_then_cuts_by_characters() {
    assert_eq!(winsel::display::search_text("  a \n\n b  "), "a b");
    let line: String = std::iter::repeat('ü').take(1500).collect();
    let text = format!("{line}\n{line}\n");
    let r = winsel::display::search_text(&text);
    assert_eq!(r.chars().count(), 2000);
    assert!(r.starts_with(&line));
}
