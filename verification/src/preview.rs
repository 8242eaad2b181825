//! The preview pane: a header naming the window's command, directory and
//! running time, above the last lines of the window's text.

use vstd::prelude::*;
use crate::display::{has_window, join_cmd, join_cmd_spec, window_at};
use crate::encoding::{decode_text, decode_text_spec};
use crate::kitty_api::{KittyData, OsWindow, Tab, Window};
use crate::text::{decimal, decimal_text, lines_spec, parse_usize, parse_usize_spec, same_text, text_lines};
use crate::utils::{compute_elapsed, elapsed_at, human_time, human_time_spec};

verus! {

/// Lines of window text shown when the fuzzy finder does not say how many
/// fit.
pub const PREVIEW_FALLBACK_LINES: usize = 200;

/// ANSI: bold.
pub const BOLD: &'static str = "\x1b[1m";

/// ANSI: reset all attributes.
pub const RESET: &'static str = "\x1b[0m";

/// The preview header: the command, the directory and the running time,
/// each on a line with a bold label, then an empty line.
pub open spec fn header_spec(cmd: Seq<char>, cwd: Seq<char>, running: Seq<char>) -> Seq<char> {
    BOLD@ + "Command:   "@ + RESET@ + cmd + "\n"@ + BOLD@ + "Directory: "@ + RESET@ + cwd + "\n"@
        + BOLD@ + "Running:   "@ + RESET@ + running + "\n"@ + "\n"@
}

/// The preview header for a command, a directory and the seconds the
/// window has been running (none when unknown).
pub fn preview_header(cmd: &str, cwd: &str, elapsed: Option<i128>) -> (r: String)
    ensures
        r@ == header_spec(cmd@, cwd@, human_time_spec(elapsed)),
{
    let running = human_time(elapsed);
    let mut r = String::new();
    r.append(BOLD);
    r.append("Command:   ");
    r.append(RESET);
    r.append(cmd);
    r.append("\n");
    r.append(BOLD);
    r.append("Directory: ");
    r.append(RESET);
    r.append(cwd);
    r.append("\n");
    r.append(BOLD);
    r.append("Running:   ");
    r.append(RESET);
    r.append(running.as_str());
    r.append("\n");
    r.append("\n");
    r
}

/// The windows of the first `n` tabs, in order.
pub open spec fn tab_windows(tabs: Seq<Tab>, n: int) -> Seq<Window>
    decreases n,
{
    if n <= 0 {
        Seq::empty()
    } else {
        tab_windows(tabs, n - 1) + tabs[n - 1].windows@
    }
}

/// The windows of the first `n` OS windows, in order.
pub open spec fn os_windows(oss: Seq<OsWindow>, n: int) -> Seq<Window>
    decreases n,
{
    if n <= 0 {
        Seq::empty()
    } else {
        os_windows(oss, n - 1) + tab_windows(oss[n - 1].tabs@, oss[n - 1].tabs@.len() as int)
    }
}

/// All windows, in the order kitty lists them.
pub open spec fn all_windows(data: KittyData) -> Seq<Window> {
    os_windows(data.0@, data.0@.len() as int)
}

/// The first window whose id, written in decimal, is `win_id`.
pub open spec fn first_window_with_id(ws: Seq<Window>, win_id: Seq<char>) -> Option<Window>
    decreases ws.len(),
{
    if ws.len() == 0 {
        None
    } else if decimal(ws[0].id as int) == win_id {
        Some(ws[0])
    } else {
        first_window_with_id(ws.drop_first(), win_id)
    }
}

/// What the live preview shows of a window: its joined command line
/// (`<shell>` when empty), its working directory (`<unknown>` when empty)
/// and its creation time; `<shell>`, `<unknown>` and zero when no window
/// has the id.
pub open spec fn subject_spec(data: KittyData, win_id: Seq<char>) -> (Seq<char>, Seq<char>, i128) {
    match first_window_with_id(all_windows(data), win_id) {
        Some(w) => {
            let c = join_cmd_spec(w.cmdline_spec().map_values(|s: String| s@));
            (
                if c.len() > 0 { c } else { "<shell>"@ },
                if w.cwd@.len() > 0 { w.cwd@ } else { "<unknown>"@ },
                w.created_at as i128,
            )
        },
        None => ("<shell>"@, "<unknown>"@, 0),
    }
}

proof fn lemma_first_window_append(a: Seq<Window>, b: Seq<Window>, win_id: Seq<char>)
    requires
        first_window_with_id(a, win_id) is None,
    ensures
        first_window_with_id(a + b, win_id) == first_window_with_id(b, win_id),
    decreases a.len(),
{
    if a.len() > 0 {
        assert((a + b).drop_first() == a.drop_first() + b);
        lemma_first_window_append(a.drop_first(), b, win_id);
    } else {
        assert(a + b == b);
    }
}

proof fn lemma_first_window_found(a: Seq<Window>, b: Seq<Window>, win_id: Seq<char>)
    requires
        first_window_with_id(a, win_id) is Some,
    ensures
        first_window_with_id(a + b, win_id) == first_window_with_id(a, win_id),
    decreases a.len(),
{
    if a.len() > 0 && decimal(a[0].id as int) != win_id {
        assert((a + b).drop_first() == a.drop_first() + b);
        lemma_first_window_found(a.drop_first(), b, win_id);
    }
}

proof fn lemma_first_window_push(a: Seq<Window>, w: Window, win_id: Seq<char>)
    requires
        first_window_with_id(a, win_id) is None,
    ensures
        first_window_with_id(a.push(w), win_id) == (if decimal(w.id as int) == win_id {
            Some(w)
        } else {
            None
        }),
{
    lemma_first_window_append(a, seq![w], win_id);
    assert(a.push(w) == a + seq![w]);
    assert(seq![w].drop_first() == Seq::<Window>::empty());
    assert(seq![w][0] == w);
    assert(first_window_with_id(Seq::<Window>::empty(), win_id) is None);
}

/// The first window with the id `win_id` (decimal), in the order kitty
/// lists them.
pub fn find_window<'a>(data: &'a KittyData, win_id: &str) -> (r: Option<&'a Window>)
    ensures
        match first_window_with_id(all_windows(*data), win_id@) {
            Some(w) => r matches Some(x) && *x == w,
            None => r is None,
        },
{
    let ghost oss = data.0@;
    let mut i: usize = 0;
    while i < data.0.len()
        invariant
            oss == data.0@,
            i <= oss.len(),
            first_window_with_id(os_windows(oss, i as int), win_id@) is None,
        decreases oss.len() - i,
    {
        let os = &data.0[i];
        let mut j: usize = 0;
        while j < os.tabs.len()
            invariant
                oss == data.0@,
                i < oss.len(),
                *os == oss[i as int],
                j <= os.tabs@.len(),
                first_window_with_id(os_windows(oss, i as int) + tab_windows(os.tabs@, j as int), win_id@) is None,
            decreases os.tabs@.len() - j,
        {
            let tab = &os.tabs[j];
            let mut k: usize = 0;
            while k < tab.windows.len()
                invariant
                    oss == data.0@,
                    i < oss.len(),
                    *os == oss[i as int],
                    j < os.tabs@.len(),
                    *tab == os.tabs@[j as int],
                    k <= tab.windows@.len(),
                    first_window_with_id(
                        os_windows(oss, i as int) + tab_windows(os.tabs@, j as int) + tab.windows@.take(k as int),
                        win_id@,
                    ) is None,
                decreases tab.windows@.len() - k,
            {
                let win = &tab.windows[k];
                let ghost before = os_windows(oss, i as int) + tab_windows(os.tabs@, j as int) + tab.windows@.take(k as int);
                proof {
                    assert(tab.windows@.take(k + 1) == tab.windows@.take(k as int).push(*win));
                    assert(before.push(*win) == os_windows(oss, i as int) + tab_windows(os.tabs@, j as int)
                        + tab.windows@.take(k + 1));
                    lemma_first_window_push(before, *win, win_id@);
                }
                let wid = decimal_text(win.id as i128);
                if same_text(wid.as_str(), win_id) {
                    proof {
                        let rest_tab = tab.windows@.skip(k + 1);
                        assert(tab.windows@ == tab.windows@.take(k + 1) + rest_tab);
                        let after_tabs = tab_windows(os.tabs@, j + 1);
                        assert(after_tabs == tab_windows(os.tabs@, j as int) + tab.windows@);
                        lemma_first_window_found(before.push(*win), rest_tab, win_id@);
                        assert(before.push(*win) + rest_tab == os_windows(oss, i as int) + after_tabs);
                        lemma_tab_windows_prefix(os.tabs@, j + 1, os.tabs@.len() as int);
                        let t_all = tab_windows(os.tabs@, os.tabs@.len() as int);
                        let t_rest = t_all.skip(after_tabs.len() as int);
                        assert(t_all == after_tabs + t_rest);
                        assert(os_windows(oss, i as int) + t_all == (os_windows(oss, i as int) + after_tabs) + t_rest);
                        lemma_first_window_found(os_windows(oss, i as int) + after_tabs, t_rest, win_id@);
                        assert(os_windows(oss, i + 1) == os_windows(oss, i as int) + t_all);
                        lemma_os_windows_prefix(oss, i + 1, oss.len() as int);
                        let o_all = os_windows(oss, oss.len() as int);
                        let o_rest = o_all.skip(os_windows(oss, i + 1).len() as int);
                        assert(o_all == os_windows(oss, i + 1) + o_rest);
                        lemma_first_window_found(os_windows(oss, i + 1), o_rest, win_id@);
                    }
                    return Some(win);
                }
                k = k + 1;
            }
            proof {
                assert(tab.windows@.take(tab.windows@.len() as int) == tab.windows@);
                assert(tab_windows(os.tabs@, j + 1) == tab_windows(os.tabs@, j as int) + tab.windows@);
                assert(os_windows(oss, i as int) + tab_windows(os.tabs@, j + 1) == os_windows(oss, i as int)
                    + tab_windows(os.tabs@, j as int) + tab.windows@);
            }
            j = j + 1;
        }
        proof {
            assert(os_windows(oss, i + 1) == os_windows(oss, i as int) + tab_windows(os.tabs@, os.tabs@.len() as int));
        }
        i = i + 1;
    }
    None
}

proof fn lemma_tab_windows_prefix(tabs: Seq<Tab>, m: int, n: int)
    requires
        0 <= m <= n,
    ensures
        tab_windows(tabs, n).take(tab_windows(tabs, m).len() as int) == tab_windows(tabs, m),
        tab_windows(tabs, m).len() <= tab_windows(tabs, n).len(),
    decreases n - m,
{
    if m < n {
        lemma_tab_windows_prefix(tabs, m, n - 1);
        let a = tab_windows(tabs, n - 1);
        assert(tab_windows(tabs, n) == a + tabs[n - 1].windows@);
        assert((a + tabs[n - 1].windows@).take(tab_windows(tabs, m).len() as int) == a.take(
            tab_windows(tabs, m).len() as int,
        ));
    } else {
        assert(tab_windows(tabs, n).take(tab_windows(tabs, n).len() as int) == tab_windows(tabs, n));
    }
}

proof fn lemma_os_windows_prefix(oss: Seq<OsWindow>, m: int, n: int)
    requires
        0 <= m <= n,
    ensures
        os_windows(oss, n).take(os_windows(oss, m).len() as int) == os_windows(oss, m),
        os_windows(oss, m).len() <= os_windows(oss, n).len(),
    decreases n - m,
{
    if m < n {
        lemma_os_windows_prefix(oss, m, n - 1);
        let a = os_windows(oss, n - 1);
        let b = tab_windows(oss[n - 1].tabs@, oss[n - 1].tabs@.len() as int);
        assert(os_windows(oss, n) == a + b);
        assert((a + b).take(os_windows(oss, m).len() as int) == a.take(os_windows(oss, m).len() as int));
    } else {
        assert(os_windows(oss, n).take(os_windows(oss, n).len() as int) == os_windows(oss, n));
    }
}

/// What the live preview shows of the window with the id `win_id` (see
/// `subject_spec`): its command, its directory and its creation time.
pub fn preview_subject(data: &KittyData, win_id: &str) -> (r: (String, String, i128))
    ensures
        (r.0@, r.1@, r.2) == subject_spec(*data, win_id@),
{
    match find_window(data, win_id) {
        Some(win) => {
            let cmdline = join_cmd(win.cmdline());
            let cmd = if !cmdline.as_str().is_empty() {
                cmdline
            } else {
                "<shell>".to_owned()
            };
            let cwd = if !win.cwd.as_str().is_empty() {
                win.cwd.clone()
            } else {
                "<unknown>".to_owned()
            };
            (cmd, cwd, win.created_at as i128)
        },
        None => ("<shell>".to_owned(), "<unknown>".to_owned(), 0),
    }
}

/// The header of the live preview of the window `win_id`, found in `data`
/// (what `kitty @ ls --match id:<win_id>` reported): its command, its
/// directory, and how long it has been running by the clock.  Nothing for
/// an empty id.
pub fn preview_live(data: &KittyData, win_id: &str) -> (r: String)
    ensures
        win_id@.len() == 0 ==> r@.len() == 0,
        win_id@.len() > 0 ==> exists|now: u128|
            r@ == header_spec(
                subject_spec(*data, win_id@).0,
                subject_spec(*data, win_id@).1,
                human_time_spec(#[trigger] elapsed_at(subject_spec(*data, win_id@).2, now)),
            ),
{
    if win_id.is_empty() {
        return String::new();
    }
    let subject = preview_subject(data, win_id);
    let elapsed = compute_elapsed(subject.2);
    let r = preview_header(subject.0.as_str(), subject.1.as_str(), elapsed);
    proof {
        let sp = subject_spec(*data, win_id@);
        assert(sp.0 == subject.0@);
        assert(sp.1 == subject.1@);
        assert(sp.2 == subject.2);
        let now = choose|now: u128| elapsed == #[trigger] elapsed_at(subject.2, now);
        assert(r@ == header_spec(sp.0, sp.1, human_time_spec(elapsed_at(sp.2, now))));
    }
    r
}

/// The command a static preview shows: the decoded command line, or
/// `<shell>` when it is empty or cannot be decoded.
pub open spec fn static_cmd(cmd_b64: Seq<char>) -> Seq<char> {
    match decode_text_spec(cmd_b64) {
        Some(c) => if c.len() > 0 {
            c
        } else {
            "<shell>"@
        },
        None => "<shell>"@,
    }
}

/// The directory a static preview shows: the decoded directory, or
/// `<unknown>` when it is empty or cannot be decoded.
pub open spec fn static_cwd(cwd_b64: Seq<char>) -> Seq<char> {
    match decode_text_spec(cwd_b64) {
        Some(c) => if c.len() > 0 {
            c
        } else {
            "<unknown>"@
        },
        None => "<unknown>"@,
    }
}

/// The header of the static preview of a row: the command line and the
/// directory decoded from the base64 fields of the row, and the running
/// time from its creation time, by the clock.  Nothing for an empty id.
/// A row's own fields decode to the command line and the directory that
/// the row shows.
pub fn preview_static(win_id: &str, cmd_b64: &str, cwd_b64: &str, created_at: i128) -> (r: String)
    ensures
        win_id@.len() == 0 ==> r@.len() == 0,
        win_id@.len() > 0 ==> exists|now: u128|
            r@ == header_spec(
                static_cmd(cmd_b64@),
                static_cwd(cwd_b64@),
                human_time_spec(#[trigger] elapsed_at(created_at, now)),
            ),
        forall|cmd: Seq<char>, cwd: Seq<char>|
            win_id@.len() > 0 && cmd_b64@ == #[trigger] crate::encoding::base64_text(
                vstd::utf8::encode_utf8(cmd),
            ) && cwd_b64@ == #[trigger] crate::encoding::base64_text(vstd::utf8::encode_utf8(cwd))
                ==> exists|now: u128|
                r@ == header_spec(
                    if cmd.len() > 0 { cmd } else { "<shell>"@ },
                    if cwd.len() > 0 { cwd } else { "<unknown>"@ },
                    human_time_spec(#[trigger] elapsed_at(created_at, now)),
                ),
{
    if win_id.is_empty() {
        return String::new();
    }
    let cmd_decoded = decode_text(cmd_b64);
    let cwd_decoded = decode_text(cwd_b64);
    let display_cmd = match cmd_decoded {
        Some(c) => if !c.as_str().is_empty() {
            c
        } else {
            "<shell>".to_owned()
        },
        None => "<shell>".to_owned(),
    };
    let display_cwd = match cwd_decoded {
        Some(c) => if !c.as_str().is_empty() {
            c
        } else {
            "<unknown>".to_owned()
        },
        None => "<unknown>".to_owned(),
    };
    let elapsed = compute_elapsed(created_at);
    let r = preview_header(display_cmd.as_str(), display_cwd.as_str(), elapsed);
    proof {
        let now = choose|now: u128| elapsed == #[trigger] elapsed_at(created_at, now);
        assert(r@ == header_spec(display_cmd@, display_cwd@, human_time_spec(elapsed_at(created_at, now))));
    }
    r
}

/// The last `max_lines` lines of a text (all of them when there are fewer),
/// oldest first.
pub open spec fn tail_spec(body: Seq<char>, max_lines: nat) -> Seq<Seq<char>> {
    let ls = lines_spec(body);
    if ls.len() > max_lines {
        ls.skip(ls.len() - max_lines)
    } else {
        ls
    }
}

/// The tail holds as many lines as the text has, at most `max_lines`, and
/// they are its last ones in order: the newest line comes last.
pub proof fn lemma_tail_is_newest(body: Seq<char>, max_lines: nat)
    ensures
        ({
            let ls = lines_spec(body);
            let t = tail_spec(body, max_lines);
            &&& t.len() == if ls.len() < max_lines { ls.len() } else { max_lines }
            &&& forall|i: int| 0 <= i < t.len() ==> #[trigger] t[i] == ls[ls.len() - t.len() + i]
        }),
{
}

/// The last `max_lines` lines of `body`, oldest first, so that the newest
/// line is printed last.
pub fn tail_lines(body: &str, max_lines: usize) -> (r: Vec<String>)
    ensures
        r@.map_values(|l: String| l@) == tail_spec(body@, max_lines as nat),
{
    let lines = text_lines(body);
    let n = lines.len();
    let from: usize = if n > max_lines {
        n - max_lines
    } else {
        0
    };
    let mut out: Vec<String> = Vec::new();
    let mut i = from;
    let ghost views = lines@.map_values(|l: String| l@);
    while i < n
        invariant
            n == lines.len(),
            views == lines@.map_values(|l: String| l@),
            from <= i <= n,
            out@.map_values(|l: String| l@) == views.subrange(from as int, i as int),
        decreases n - i,
    {
        let ghost before = out@;
        out.push(lines[i].clone());
        proof {
            assert(views.subrange(from as int, i + 1) == views.subrange(from as int, i as int).push(
                lines@[i as int]@,
            ));
            assert(out@.map_values(|l: String| l@) == before.map_values(|l: String| l@).push(
                lines@[i as int]@,
            ));
        }
        i = i + 1;
    }
    proof {
        assert(views.subrange(0, n as int) == views);
        assert(views.skip(from as int) == views.subrange(from as int, n as int));
    }
    out
}

/// How many lines the preview shows: the number in `FZF_PREVIEW_LINES`
/// (`value`) when it reads as one, else `PREVIEW_FALLBACK_LINES`.
pub fn preview_line_limit(value: Option<&str>) -> (r: usize)
    ensures
        r == match value {
            Some(v) => match parse_usize_spec(v@) {
                Some(n) => n,
                None => PREVIEW_FALLBACK_LINES,
            },
            None => PREVIEW_FALLBACK_LINES,
        },
{
    match value {
        Some(v) => match parse_usize(v) {
            Some(n) => n,
            None => PREVIEW_FALLBACK_LINES,
        },
        None => PREVIEW_FALLBACK_LINES,
    }
}

/// The output of a window's last command, from what `kitty @ get-text
/// --extent last_cmd_output` returned: its standard output read as UTF-8
/// when the command succeeded, nothing otherwise.
pub fn get_last_command_output(success: bool, stdout: Vec<u8>) -> (r: Option<String>)
    ensures
        success && vstd::utf8::valid_utf8(stdout@) ==> (r matches Some(s) && s@
            == vstd::utf8::decode_utf8(stdout@)),
        !(success && vstd::utf8::valid_utf8(stdout@)) ==> r is None,
{
    if !success {
        return None;
    }
    crate::encoding::utf8_string(stdout)
}

/// Whether `x` is a window of the tree.
pub open spec fn window_of(data: KittyData, x: Window) -> bool {
    exists|o: int, t: int, w: int| has_window(data, o, t, w) && x == #[trigger] window_at(data, o, t, w)
}

proof fn lemma_tab_windows_places(data: KittyData, o: int, n: int)
    requires
        0 <= o < data.0@.len(),
        0 <= n <= data.0@[o].tabs@.len(),
    ensures
        forall|k: int|
            0 <= k < tab_windows(data.0@[o].tabs@, n).len() ==> window_of(
                data,
                #[trigger] tab_windows(data.0@[o].tabs@, n)[k],
            ),
        forall|t: int, w: int|
            0 <= t < n && has_window(data, o, t, w) ==> tab_windows(data.0@[o].tabs@, n).contains(
                #[trigger] window_at(data, o, t, w),
            ),
    decreases n,
{
    if n > 0 {
        lemma_tab_windows_places(data, o, n - 1);
        let tabs = data.0@[o].tabs@;
        let a = tab_windows(tabs, n - 1);
        let b = tabs[n - 1].windows@;
        let all = tab_windows(tabs, n);
        assert(all == a + b);
        assert forall|k: int| 0 <= k < all.len() implies window_of(data, #[trigger] all[k]) by {
            if k < a.len() {
                assert(all[k] == a[k]);
            } else {
                assert(all[k] == b[k - a.len()]);
                assert(has_window(data, o, n - 1, k - a.len()));
                assert(all[k] == window_at(data, o, n - 1, k - a.len()));
            }
        }
        assert forall|t: int, w: int| 0 <= t < n && has_window(data, o, t, w) implies all.contains(
            #[trigger] window_at(data, o, t, w),
        ) by {
            if t < n - 1 {
                let k = choose|k: int| 0 <= k < a.len() && a[k] == window_at(data, o, t, w);
                assert(all[k] == a[k]);
            } else {
                assert(all[a.len() + w] == b[w]);
            }
        }
    }
}

proof fn lemma_os_windows_places(data: KittyData, n: int)
    requires
        0 <= n <= data.0@.len(),
    ensures
        forall|k: int| 0 <= k < os_windows(data.0@, n).len() ==> window_of(data, #[trigger] os_windows(data.0@, n)[k]),
        forall|o: int, t: int, w: int|
            0 <= o < n && has_window(data, o, t, w) ==> os_windows(data.0@, n).contains(
                #[trigger] window_at(data, o, t, w),
            ),
    decreases n,
{
    if n > 0 {
        lemma_os_windows_places(data, n - 1);
        let len = data.0@[n - 1].tabs@.len() as int;
        lemma_tab_windows_places(data, n - 1, len);
        let a = os_windows(data.0@, n - 1);
        let b = tab_windows(data.0@[n - 1].tabs@, len);
        let all = os_windows(data.0@, n);
        assert(all == a + b);
        assert forall|k: int| 0 <= k < all.len() implies window_of(data, #[trigger] all[k]) by {
            if k < a.len() {
                assert(all[k] == a[k]);
            } else {
                assert(all[k] == b[k - a.len()]);
            }
        }
        assert forall|o: int, t: int, w: int| 0 <= o < n && has_window(data, o, t, w) implies all.contains(
            #[trigger] window_at(data, o, t, w),
        ) by {
            if o < n - 1 {
                let k = choose|k: int| 0 <= k < a.len() && a[k] == window_at(data, o, t, w);
                assert(all[k] == a[k]);
            } else {
                assert(b.contains(window_at(data, o, t, w)));
                let k = choose|k: int| 0 <= k < b.len() && b[k] == window_at(data, o, t, w);
                assert(all[a.len() + k] == b[k]);
            }
        }
    }
}

proof fn lemma_first_window_with_id(ws: Seq<Window>, win_id: Seq<char>)
    ensures
        first_window_with_id(ws, win_id) matches Some(w) ==> ws.contains(w) && decimal(w.id as int) == win_id,
        first_window_with_id(ws, win_id) is None ==> forall|k: int|
            0 <= k < ws.len() ==> decimal((#[trigger] ws[k]).id as int) != win_id,
    decreases ws.len(),
{
    if ws.len() > 0 {
        lemma_first_window_with_id(ws.drop_first(), win_id);
        if decimal(ws[0].id as int) != win_id {
            if first_window_with_id(ws, win_id) is Some {
                let w = first_window_with_id(ws, win_id)->0;
                let k = choose|k: int| 0 <= k < ws.drop_first().len() && ws.drop_first()[k] == w;
                assert(ws[k + 1] == w);
            } else {
                assert forall|k: int| 0 <= k < ws.len() implies decimal((#[trigger] ws[k]).id as int) != win_id by {
                    if k > 0 {
                        assert(ws[k] == ws.drop_first()[k - 1]);
                    }
                }
            }
        }
    }
}

/// What the live preview shows of the window `win_id`: when the tree has a
/// window with that id, the command line (`<shell>` when empty), the
/// working directory (`<unknown>` when empty) and the creation time of such
/// a window; when it has none, `<shell>`, `<unknown>` and no creation time
/// (zero, which the header shows as `n/a`).
pub proof fn lemma_live_subject_is_the_window(data: KittyData, win_id: Seq<char>)
    ensures
        (exists|o: int, t: int, w: int|
            has_window(data, o, t, w) && decimal(#[trigger] window_at(data, o, t, w).id as int) == win_id)
            ==> exists|o: int, t: int, w: int|
            {
                let win = #[trigger] window_at(data, o, t, w);
                let c = join_cmd_spec(win.cmdline_spec().map_values(|s: String| s@));
                &&& has_window(data, o, t, w)
                &&& decimal(win.id as int) == win_id
                &&& subject_spec(data, win_id).2 == win.created_at as i128
                &&& subject_spec(data, win_id).1 == if win.cwd@.len() > 0 {
                    win.cwd@
                } else {
                    "<unknown>"@
                }
                &&& subject_spec(data, win_id).0 == if c.len() > 0 {
                    c
                } else {
                    "<shell>"@
                }
            },
        (forall|o: int, t: int, w: int|
            has_window(data, o, t, w) ==> decimal(#[trigger] window_at(data, o, t, w).id as int) != win_id)
            ==> subject_spec(data, win_id) == ("<shell>"@, "<unknown>"@, 0i128),
{
    let ws = all_windows(data);
    lemma_os_windows_places(data, data.0@.len() as int);
    lemma_first_window_with_id(ws, win_id);
    match first_window_with_id(ws, win_id) {
        Some(w) => {
            let k = choose|k: int| 0 <= k < ws.len() && ws[k] == w;
            assert(window_of(data, ws[k]));
            let (o, t, p) = choose|o: int, t: int, p: int| has_window(data, o, t, p) && ws[k] == #[trigger] window_at(
                data,
                o,
                t,
                p,
            );
            assert(window_at(data, o, t, p) == w);
        },
        None => {
            assert forall|o: int, t: int, p: int| has_window(data, o, t, p) implies decimal(
                #[trigger] window_at(data, o, t, p).id as int,
            ) != win_id by {
                assert(ws.contains(window_at(data, o, t, p)));
                let k = choose|k: int| 0 <= k < ws.len() && ws[k] == window_at(data, o, t, p);
                assert(decimal(ws[k].id as int) != win_id);
            }
        },
    }
}

} // verus!
