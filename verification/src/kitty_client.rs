//! The command lines given to `kitty`: which sockets to try, and the
//! arguments of each remote-control request.

use vstd::prelude::*;
use crate::text::{decimal, decimal_text};

verus! {

/// The text views of a list of strings.
pub open spec fn views(v: Seq<String>) -> Seq<Seq<char>> {
    v.map_values(|s: String| s@)
}

/// The sockets to try, in order: `KITTY_LISTEN_ON` and `KITTY_SOCKET` when
/// set and not empty, then the two usual sockets; `None` last, for a
/// request with no explicit socket.
pub open spec fn targets_spec(listen_on: Option<Seq<char>>, socket: Option<Seq<char>>) -> Seq<
    Option<Seq<char>>,
> {
    (match listen_on {
        Some(l) => if l.len() > 0 {
            seq![Some(l)]
        } else {
            Seq::empty()
        },
        None => Seq::empty(),
    }) + (match socket {
        Some(s) => if s.len() > 0 {
            seq![Some(s)]
        } else {
            Seq::empty()
        },
        None => Seq::empty(),
    }) + seq![Some("unix:/tmp/kitty"@), Some("unix:@kitty"@), None]
}

/// The text view of an optional string.
pub open spec fn opt_text(o: Option<String>) -> Option<Seq<char>> {
    match o {
        Some(s) => Some(s@),
        None => None,
    }
}

fn push_target(out: &mut Vec<Option<String>>, t: &str)
    ensures
        final(out)@.map_values(|o: Option<String>| opt_text(o)) == old(out)@.map_values(
            |o: Option<String>| opt_text(o),
        ).push(Some(t@)),
{
    out.push(Some(t.to_owned()));
    proof {
        assert(out@.map_values(|o: Option<String>| opt_text(o)) == old(out)@.map_values(
            |o: Option<String>| opt_text(o),
        ).push(Some(t@)));
    }
}

/// The sockets to try for a kitty request, in order (see `targets_spec`);
/// `listen_on` and `socket` are the values of `KITTY_LISTEN_ON` and
/// `KITTY_SOCKET`.
pub fn kitty_targets(listen_on: Option<&str>, socket: Option<&str>) -> (r: Vec<Option<String>>)
    ensures
        r@.map_values(|o: Option<String>| opt_text(o)) == targets_spec(
            match listen_on {
                Some(l) => Some(l@),
                None => None,
            },
            match socket {
                Some(s) => Some(s@),
                None => None,
            },
        ),
{
    let mut r: Vec<Option<String>> = Vec::new();
    match listen_on {
        Some(l) => if !l.is_empty() {
            push_target(&mut r, l);
        },
        None => {},
    }
    match socket {
        Some(s) => if !s.is_empty() {
            push_target(&mut r, s);
        },
        None => {},
    }
    push_target(&mut r, "unix:/tmp/kitty");
    push_target(&mut r, "unix:@kitty");
    let ghost before = r@;
    r.push(None);
    proof {
        assert(r@.map_values(|o: Option<String>| opt_text(o)) == before.map_values(
            |o: Option<String>| opt_text(o),
        ).push(None));
        let a = match listen_on {
            Some(l) => Some(l@),
            None => None,
        };
        let b = match socket {
            Some(s) => Some(s@),
            None => None,
        };
        assert(r@.map_values(|o: Option<String>| opt_text(o)) == targets_spec(a, b));
    }
    r
}

/// The arguments after `kitty` for a remote-control request `args` sent to
/// the socket `target` (to the default one when there is none).
pub open spec fn request_spec(target: Option<Seq<char>>, args: Seq<Seq<char>>) -> Seq<Seq<char>> {
    match target {
        Some(t) => seq!["@"@, "--to"@, t] + args,
        None => seq!["@"@] + args,
    }
}

fn push_str(out: &mut Vec<String>, s: &str)
    ensures
        views(final(out)@) == views(old(out)@).push(s@),
{
    out.push(s.to_owned());
    proof {
        assert(views(out@) == views(old(out)@).push(s@));
    }
}

fn push_all(out: &mut Vec<String>, items: &Vec<String>)
    ensures
        views(final(out)@) == views(old(out)@) + views(items@),
{
    let ghost start = views(out@);
    let mut i: usize = 0;
    while i < items.len()
        invariant
            i <= items.len(),
            views(out@) == start + views(items@.take(i as int)),
        decreases items.len() - i,
    {
        push_str(out, items[i].as_str());
        proof {
            assert(views(items@.take(i + 1)) == views(items@.take(i as int)).push(items@[i as int]@));
        }
        i = i + 1;
    }
    proof {
        assert(items@.take(items.len() as int) == items@);
    }
}

/// The arguments after `kitty` for the request `args` sent to `target`.
pub fn kitty_request(target: Option<&str>, args: &Vec<String>) -> (r: Vec<String>)
    ensures
        views(r@) == request_spec(
            match target {
                Some(t) => Some(t@),
                None => None,
            },
            views(args@),
        ),
{
    let mut r: Vec<String> = Vec::new();
    push_str(&mut r, "@");
    match target {
        Some(t) => {
            push_str(&mut r, "--to");
            push_str(&mut r, t);
        },
        None => {},
    }
    push_all(&mut r, args);
    r
}

/// The match expression for the window or tab with the given id.
pub open spec fn id_match(id: Seq<char>) -> Seq<char> {
    "id:"@ + id
}

/// `id:<id>`, the match expression for the window or tab `id`.
pub fn match_id(id: &str) -> (r: String)
    ensures
        r@ == id_match(id@),
{
    let mut r = "id:".to_owned();
    r.append(id);
    r
}

/// `ls`, for the window `match_id` only when one is given.
pub fn ls_args(match_window: Option<&str>) -> (r: Vec<String>)
    ensures
        views(r@) == match match_window {
            Some(m) => seq!["ls"@, "--match"@, id_match(m@)],
            None => seq!["ls"@],
        },
{
    let mut r: Vec<String> = Vec::new();
    push_str(&mut r, "ls");
    match match_window {
        Some(m) => {
            push_str(&mut r, "--match");
            let id = match_id(m);
            push_str(&mut r, id.as_str());
        },
        None => {},
    }
    r
}

/// `ls` for the tab that was active `idx` tab switches ago.
pub fn recent_tab_ls_args(idx: usize) -> (r: Vec<String>)
    ensures
        views(r@) == seq!["ls"@, "--match-tab"@, "recent:"@ + decimal(idx as int)],
{
    let mut r: Vec<String> = Vec::new();
    push_str(&mut r, "ls");
    push_str(&mut r, "--match-tab");
    let mut expr = "recent:".to_owned();
    let n = decimal_text(idx as i128);
    expr.append(n.as_str());
    push_str(&mut r, expr.as_str());
    r
}

/// `launch` of a new tab titled `title` (its window titled alike) that
/// leaves the focus where it is.
pub fn launch_tab_args(title: &str) -> (r: Vec<String>)
    ensures
        views(r@) == seq![
            "launch"@,
            "--type"@,
            "tab"@,
            "--tab-title"@,
            title@,
            "--title"@,
            title@,
            "--keep-focus"@,
        ],
{
    let mut r: Vec<String> = Vec::new();
    push_str(&mut r, "launch");
    push_str(&mut r, "--type");
    push_str(&mut r, "tab");
    push_str(&mut r, "--tab-title");
    push_str(&mut r, title);
    push_str(&mut r, "--title");
    push_str(&mut r, title);
    push_str(&mut r, "--keep-focus");
    r
}

/// `kitten notify <msg>`.
pub fn notify_args(msg: &str) -> (r: Vec<String>)
    ensures
        views(r@) == seq!["kitten"@, "notify"@, msg@],
{
    let mut r: Vec<String> = Vec::new();
    push_str(&mut r, "kitten");
    push_str(&mut r, "notify");
    push_str(&mut r, msg);
    r
}

/// `get-text` of the whole scrollback of a window, plain (for searching)
/// or with its colors (for the preview).
pub fn get_text_args(win_id: &str, ansi: bool) -> (r: Vec<String>)
    ensures
        views(r@) == if ansi {
            seq!["get-text"@, "--ansi"@, "--match"@, id_match(win_id@), "--extent=all"@]
        } else {
            seq!["get-text"@, "--match"@, id_match(win_id@), "--extent=all"@]
        },
{
    let mut r: Vec<String> = Vec::new();
    push_str(&mut r, "get-text");
    if ansi {
        push_str(&mut r, "--ansi");
    }
    push_str(&mut r, "--match");
    let m = match_id(win_id);
    push_str(&mut r, m.as_str());
    push_str(&mut r, "--extent=all");
    r
}

/// `get-text` of the output of a window's last command; nothing for an
/// empty id.
pub fn last_output_args(win_id: &str) -> (r: Option<Vec<String>>)
    ensures
        win_id@.len() == 0 ==> r is None,
        win_id@.len() > 0 ==> (r matches Some(v) && views(v@) == seq![
            "get-text"@,
            "--match"@,
            id_match(win_id@),
            "--extent"@,
            "last_cmd_output"@,
        ]),
{
    if win_id.is_empty() {
        return None;
    }
    let mut r: Vec<String> = Vec::new();
    push_str(&mut r, "get-text");
    push_str(&mut r, "--match");
    let m = match_id(win_id);
    push_str(&mut r, m.as_str());
    push_str(&mut r, "--extent");
    push_str(&mut r, "last_cmd_output");
    Some(r)
}

} // verus!
