use winsel::kitty_client::{
    get_text_args, kitty_request, kitty_targets, last_output_args, ls_args, match_id, notify_args,
    recent_tab_ls_args,
};

fn s(v: &[&str]) -> Vec<String> {
    v.iter().map(|x| x.to_string()).collect()
}

#[test]
fn targets_in_order() {
    assert_eq!(
        kitty_targets(Some("unix:/a"), Some("")),
        vec![
            Some("unix:/a".to_string()),
            Some("unix:/tmp/kitty".to_string()),
            Some("unix:@kitty".to_string()),
            None
        ]
    );
    assert_eq!(kitty_targets(None, Some("s")).len(), 4);
    assert_eq!(kitty_targets(None, None).len(), 3);
}

#[test]
fn request_arguments() {
    assert_eq!(kitty_request(Some("unix:/a"), &s(&["ls"])), s(&["@", "--to", "unix:/a", "ls"]));
    assert_eq!(kitty_request(None, &s(&["ls"])), s(&["@", "ls"]));
    assert_eq!(match_id("12"), "id:12");
    assert_eq!(ls_args(Some("3")), s(&["ls", "--match", "id:3"]));
    assert_eq!(ls_args(None), s(&["ls"]));
    assert_eq!(recent_tab_ls_args(1), s(&["ls", "--match-tab", "recent:1"]));
    assert_eq!(notify_args("hi"), s(&["kitten", "notify", "hi"]));
    assert_eq!(get_text_args("5", true), s(&["get-text", "--ansi", "--match", "id:5", "--extent=all"]));
    assert_eq!(get_text_args("5", false), s(&["get-text", "--match", "id:5", "--extent=all"]));
    assert_eq!(
        last_output_args("5"),
        Some(s(&["get-text", "--match", "id:5", "--extent", "last_cmd_output"]))
    );
    assert_eq!(last_output_args(""), None);
}

#[test]
fn launch_background_tab() {
    assert_eq!(
        winsel::kitty_client::launch_tab_args("BG"),
        s(&["launch", "--type", "tab", "--tab-title", "BG", "--title", "BG", "--keep-focus"])
    );
}
