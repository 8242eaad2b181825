//! The rows offered to the fuzzy finder: one tab-separated line per window,
//! and the pieces that go into it.

use vstd::prelude::*;
use vstd::utf8::encode_utf8;
use crate::text::{
    free_of, join, join_spec, lemma_concat_tab_free, lemma_join_free_of, lemma_join_len, lemma_decimal_tab_free, lemma_join_tab_free,
    lemma_replace_tab_free, lines_spec, tab_free, text_lines, trim, trim_spec,
};
use crate::utils::{abbreviate_path, abbreviate_path_spec, clean, clean_spec};
use crate::text::{ascii_text, ascii_to_lower, ascii_to_upper, contains, contains_spec, decimal, decimal_text, lower_case, same_text, to_lower, to_upper, upper_case};
use crate::encoding::{base64_text, encode_text};
use crate::kitty_api::{KittyData, OsWindow, Tab, Window};
use crate::order::{order_by_rank, place_taken, ranks_of, sorted_position, Rank};

verus! {

/// ANSI: reset all attributes.
pub const COLOR_RESET: &'static str = "\x1b[0m";

/// ANSI: magenta, for paths.
pub const COLOR_PATH: &'static str = "\x1b[35m";

/// ANSI: green, for commands.
pub const COLOR_CMD: &'static str = "\x1b[32m";

/// ANSI: dim gray, for metadata.
pub const COLOR_META: &'static str = "\x1b[90m";

/// At most this many characters of a window's text go into its row.
pub const SEARCH_TEXT_MAX_CHARS: usize = 2000;

/// Index of the last `/` in `p`; `-1` when there is none.
pub open spec fn last_slash(p: Seq<char>) -> int
    decreases p.len(),
{
    if p.len() == 0 {
        -1
    } else if p.last() == '/' {
        p.len() - 1
    } else {
        last_slash(p.drop_last())
    }
}

/// Where the last `/` of a text stands.
pub proof fn lemma_last_slash(p: Seq<char>)
    ensures
        -1 <= last_slash(p) < p.len(),
        last_slash(p) >= 0 ==> p[last_slash(p)] == '/',
        forall|j: int| last_slash(p) < j < p.len() ==> p[j] != '/',
    decreases p.len(),
{
    if p.len() > 0 && p.last() != '/' {
        lemma_last_slash(p.drop_last());
        assert forall|j: int| last_slash(p) < j < p.len() implies p[j] != '/' by {
            if j < p.len() - 1 {
                assert(p[j] == p.drop_last()[j]);
            }
        }
    }
}

/// The final component of a Unix path, as `Path::file_name` yields it:
/// separators at the end are ignored, a last component `.` is dropped
/// (the one before it counts), and there is none when the last component
/// is `..` or the path has no component but its root.
pub open spec fn final_component(path: Seq<char>) -> Option<Seq<char>>
    decreases path.len(),
{
    if path.len() == 0 {
        None
    } else if path.last() == '/' {
        final_component(path.drop_last())
    } else {
        let k = last_slash(path);
        let part = path.subrange(k + 1, path.len() as int);
        if part == seq!['.'] {
            if k >= 0 {
                proof {
                    lemma_last_slash(path);
                }
                final_component(path.take(k + 1))
            } else {
                None
            }
        } else if part == seq!['.', '.'] {
            None
        } else {
            Some(part)
        }
    }
}

/// Whether `part` occurs in `s` as a run of consecutive characters.
pub open spec fn piece_of(part: Seq<char>, s: Seq<char>) -> bool {
    exists|i: int| 0 <= i && i + part.len() <= s.len() && #[trigger] s.subrange(i, i + part.len()) == part
}

/// A final component is a non-empty piece of its path.
proof fn lemma_final_component_piece(path: Seq<char>)
    ensures
        final_component(path) matches Some(n) ==> n.len() > 0 && piece_of(n, path),
    decreases path.len(),
{
    if path.len() > 0 {
        lemma_last_slash(path);
        if path.last() == '/' {
            lemma_final_component_piece(path.drop_last());
            if final_component(path) is Some {
                let n = final_component(path)->0;
                let i = choose|i: int| 0 <= i && i + n.len() <= path.drop_last().len()
                    && #[trigger] path.drop_last().subrange(i, i + n.len()) == n;
                assert(path.subrange(i, i + n.len()) == n);
            }
        } else {
            let k = last_slash(path);
            let part = path.subrange(k + 1, path.len() as int);
            assert(part.len() > 0);
            if part == seq!['.'] {
                if k >= 0 {
                    let q = path.take(k + 1);
                    lemma_final_component_piece(q);
                    if final_component(path) is Some {
                        let n = final_component(path)->0;
                        let i = choose|i: int| 0 <= i && i + n.len() <= q.len()
                            && #[trigger] q.subrange(i, i + n.len()) == n;
                        assert(path.subrange(i, i + n.len()) == n);
                    }
                }
            } else if part != seq!['.', '.'] {
                assert(path.subrange(k + 1, k + 1 + part.len()) == part);
            }
        }
    }
}

/// `std::path::Path::new(path).file_name()` for an absolute Unix path, as
/// text: its final component (see `final_component`).  Components are what
/// lies between separators, repeated separators and a trailing separator
/// are ignored, `.` is normalized away except at the start, and
/// `file_name` is none when the path ends in `..` or is the root.  A file
/// name taken from a `&str` is valid UTF-8, so its text is always there.
#[verifier::external_body]
fn file_name(path: &str) -> (r: Option<String>)
    requires
        path@.len() > 0,
        path@[0] == '/',
    ensures
        match r {
            Some(n) => final_component(path@) == Some(n@),
            None => final_component(path@) is None,
        },
{
    std::path::Path::new(path).file_name().and_then(|n| n.to_str()).map(|n| n.to_string())
}

/// The word that the `i`-th element `w` of a command line shows: cleaned,
/// and for the first element, when it is an absolute path, its final
/// component (the path itself when there is none).
pub open spec fn command_word(i: int, w: Seq<char>) -> Seq<char> {
    let c = clean_spec(w);
    if i == 0 && c.len() > 0 && c[0] == '/' {
        match final_component(c) {
            Some(n) => n,
            None => c,
        }
    } else {
        c
    }
}

/// The words shown for the first `n` elements of a command line: those
/// whose cleaned text is not empty.
pub open spec fn command_words(arr: Seq<Seq<char>>, n: int) -> Seq<Seq<char>>
    decreases n,
{
    if n <= 0 {
        Seq::empty()
    } else if clean_spec(arr[n - 1]).len() == 0 {
        command_words(arr, n - 1)
    } else {
        command_words(arr, n - 1).push(command_word(n - 1, arr[n - 1]))
    }
}

/// A command line as one line of text: its words, joined by spaces.
pub open spec fn join_cmd_spec(arr: Seq<Seq<char>>) -> Seq<char> {
    join_spec(command_words(arr, arr.len() as int), " "@)
}

/// Joins a command line into one string: each element cleaned, empty ones
/// dropped, the first one shortened to its file name when it is an
/// absolute path.  The line holds no tab and no newline, and it is empty
/// only when every element cleans to nothing.
pub fn join_cmd(arr: &[String]) -> (r: String)
    ensures
        r@ == join_cmd_spec(arr@.map_values(|s: String| s@)),
        tab_free(r@),
        free_of(r@, '\n'),
        r@.len() == 0 <==> forall|i: int| 0 <= i < arr@.len() ==> clean_spec(#[trigger] arr@[i]@).len() == 0,
{
    let ghost views = arr@.map_values(|s: String| s@);
    let mut words: Vec<String> = Vec::new();
    let mut i: usize = 0;
    while i < arr.len()
        invariant
            views == arr@.map_values(|s: String| s@),
            i <= arr.len(),
            words@.map_values(|w: String| w@) == command_words(views, i as int),
            forall|k: int| 0 <= k < words@.len() ==> tab_free(#[trigger] words@[k]@),
            forall|k: int| 0 <= k < words@.len() ==> free_of(#[trigger] words@[k]@, '\n'),
            forall|k: int| 0 <= k < words@.len() ==> (#[trigger] words@[k]@).len() > 0,
            words@.len() == 0 <==> forall|j: int| 0 <= j < i ==> clean_spec(#[trigger] arr@[j]@).len() == 0,
        decreases arr.len() - i,
    {
        let cleaned = clean(arr[i].as_str());
        proof {
            assert(views[i as int] == arr@[i as int]@);
            crate::utils::lemma_clean_is_clean(arr@[i as int]@);
        }
        if !cleaned.as_str().is_empty() {
            let word = if i == 0 && starts_with_slash(&cleaned) {
                match file_name(cleaned.as_str()) {
                    Some(n) => {
                        proof {
                            lemma_final_component_piece(cleaned@);
                            let c = cleaned@;
                            let p = choose|p: int| 0 <= p && p + n@.len() <= c.len() && #[trigger] c.subrange(p, p + n@.len()) == n@;
                            assert forall|k: int| 0 <= k < n@.len() implies #[trigger] n@[k] != '\t'
                                && n@[k] != '\n' by {
                                assert(n@[k] == c.subrange(p, p + n@.len())[k]);
                            }
                        }
                        n
                    },
                    None => cleaned,
                }
            } else {
                cleaned
            };
            let ghost before = words@;
            words.push(word);
            proof {
                assert(words@.map_values(|w: String| w@) == before.map_values(|w: String| w@).push(
                    word@,
                ));
                assert forall|k: int| 0 <= k < words@.len() implies tab_free(#[trigger] words@[k]@)
                    && free_of(words@[k]@, '\n') && words@[k]@.len() > 0 by {
                    if k < before.len() {
                        assert(words@[k] == before[k]);
                    }
                }
                assert(clean_spec(arr@[i as int]@).len() > 0);
            }
        } else {
            proof {
                assert forall|j: int| 0 <= j < i + 1 && words@.len() == 0 implies clean_spec(
                    #[trigger] arr@[j]@,
                ).len() == 0 by {
                    if j == i {
                        assert(cleaned@.len() == 0);
                    }
                }
            }
        }
        i = i + 1;
    }
    proof {
        reveal_strlit(" ");
        let ws = words@.map_values(|w: String| w@);
        assert forall|k: int| 0 <= k < ws.len() implies tab_free(#[trigger] ws[k]) by {
            assert(ws[k] == words@[k]@);
        }
        lemma_join_tab_free(ws, " "@);
        assert forall|k: int| 0 <= k < ws.len() implies free_of(#[trigger] ws[k], '\n') by {
            assert(ws[k] == words@[k]@);
        }
        assert(free_of(" "@, '\n'));
        lemma_join_free_of(ws, " "@, '\n');
        if ws.len() > 0 {
            lemma_join_len(ws, " "@);
            assert(ws.last() == words@[words@.len() - 1]@);
        } else {
            assert(join_spec(ws, " "@).len() == 0);
        }
    }
    join(&words, " ")
}

/// Whether the text begins with `/`.
fn starts_with_slash(s: &String) -> (b: bool)
    ensures
        b == (s@.len() > 0 && s@[0] == '/'),
{
    let v = crate::text::chars_of(s.as_str());
    v.len() > 0 && v[0] == '/'
}

/// The path part of a label: the working directory with the home directory
/// abbreviated (`~` when there is no directory), and `~/` for the home
/// directory itself.
pub open spec fn label_path(cwd: Seq<char>, home: Option<Seq<char>>) -> Seq<char> {
    let p = if cwd.len() > 0 {
        abbreviate_path_spec(cwd, home)
    } else {
        "~"@
    };
    if p == "~"@ {
        p + "/"@
    } else {
        p
    }
}

/// The label shown for a window: its path in magenta, a colon, then its
/// command line (`<shell>` when there is none) in green.
pub open spec fn smart_label_spec(cmdline: Seq<char>, cwd: Seq<char>, home: Option<Seq<char>>) -> Seq<
    char,
> {
    COLOR_PATH@ + label_path(cwd, home) + COLOR_RESET@ + ": "@ + COLOR_CMD@ + (if cmdline.len() > 0 {
        cmdline
    } else {
        "<shell>"@
    }) + COLOR_RESET@
}

/// The optional text of an optional string.
pub open spec fn opt_view(o: Option<&str>) -> Option<Seq<char>> {
    match o {
        Some(s) => Some(s@),
        None => None,
    }
}

/// Builds the label shown for a window: its working directory, with the
/// home directory `home` abbreviated to `~`, in magenta, then its command
/// line (`<shell>` when there is none) in green.  The window title is not
/// shown.
pub fn build_smart_label(_window_title: &str, cmdline: &str, cwd: &str, home: Option<&str>) -> (r:
    String)
    ensures
        r@ == smart_label_spec(cmdline@, cwd@, opt_view(home)),
{
    let mut path = if !cwd.is_empty() {
        abbreviate_path(cwd, home)
    } else {
        "~".to_owned()
    };
    if crate::text::same_text(path.as_str(), "~") {
        path.append("/");
    }
    let mut r = String::new();
    r.append(COLOR_PATH);
    r.append(path.as_str());
    r.append(COLOR_RESET);
    r.append(": ");
    r.append(COLOR_CMD);
    if !cmdline.is_empty() {
        r.append(cmdline);
    } else {
        r.append("<shell>");
    }
    r.append(COLOR_RESET);
    proof {
        assert(abbreviate_path_spec(cwd@, opt_view(home)) == abbreviate_path_spec(cwd@, match home {
            Some(h) => Some(h@),
            None => None,
        }));
    }
    r
}

/// One `name=value` entry of the searchable text, dimmed.
pub open spec fn var_text(var: (String, String)) -> Seq<char> {
    COLOR_META@ + var.0@ + "="@ + var.1@ + COLOR_RESET@
}

/// The parts of the searchable text: the directory, each environment
/// variable, each user variable, then the window's text when there is some.
pub open spec fn searchable_parts(
    cwd: Seq<char>,
    content: Seq<char>,
    env: Seq<(String, String)>,
    user_vars: Seq<(String, String)>,
) -> Seq<Seq<char>> {
    seq![COLOR_META@ + "Directory: "@ + cwd + COLOR_RESET@] + env.map_values(|v: (String, String)| var_text(v))
        + user_vars.map_values(|v: (String, String)| var_text(v)) + (if content.len() > 0 {
        seq![content]
    } else {
        Seq::empty()
    })
}

fn var_string(var: &(String, String)) -> (r: String)
    ensures
        r@ == var_text(*var),
{
    let mut r = String::new();
    r.append(COLOR_META);
    r.append(var.0.as_str());
    r.append("=");
    r.append(var.1.as_str());
    r.append(COLOR_RESET);
    r
}

fn push_vars(parts: &mut Vec<String>, vars: &Vec<(String, String)>)
    ensures
        final(parts)@.map_values(|p: String| p@) == old(parts)@.map_values(|p: String| p@) + vars@.map_values(
            |v: (String, String)| var_text(v),
        ),
{
    let ghost start = parts@.map_values(|p: String| p@);
    let mut i: usize = 0;
    while i < vars.len()
        invariant
            i <= vars.len(),
            parts@.map_values(|p: String| p@) == start + vars@.take(i as int).map_values(
                |v: (String, String)| var_text(v),
            ),
        decreases vars.len() - i,
    {
        let ghost before = parts@;
        parts.push(var_string(&vars[i]));
        proof {
            assert(vars@.take(i + 1).map_values(|v: (String, String)| var_text(v)) == vars@.take(
                i as int,
            ).map_values(|v: (String, String)| var_text(v)).push(var_text(vars@[i as int])));
            assert(parts@.map_values(|p: String| p@) == before.map_values(|p: String| p@).push(
                var_text(vars@[i as int]),
            ));
        }
        i = i + 1;
    }
    proof {
        assert(vars@.take(vars.len() as int) == vars@);
    }
}

/// Builds the searchable (hidden) field of a row: the working directory,
/// every environment and user variable as `name=value`, and the window's
/// text when it has some, separated by spaces.
pub fn build_extra_searchable_content(
    cwd: &str,
    window_content: &str,
    env: &Vec<(String, String)>,
    user_vars: &Vec<(String, String)>,
) -> (r: String)
    ensures
        r@ == join_spec(searchable_parts(cwd@, window_content@, env@, user_vars@), " "@),
{
    let mut first = String::new();
    first.append(COLOR_META);
    first.append("Directory: ");
    first.append(cwd);
    first.append(COLOR_RESET);
    let mut parts: Vec<String> = Vec::new();
    parts.push(first);
    push_vars(&mut parts, env);
    push_vars(&mut parts, user_vars);
    if !window_content.is_empty() {
        let ghost before = parts@;
        parts.push(window_content.to_owned());
        proof {
            assert(parts@.map_values(|p: String| p@) == before.map_values(|p: String| p@).push(
                window_content@,
            ));
        }
    }
    proof {
        let m = parts@.map_values(|p: String| p@);
        assert(m == searchable_parts(cwd@, window_content@, env@, user_vars@));
    }
    join(&parts, " ")
}

/// The lines of a text, trimmed, without those left empty.
pub open spec fn trimmed_lines(lines: Seq<Seq<char>>) -> Seq<Seq<char>>
    decreases lines.len(),
{
    if lines.len() == 0 {
        Seq::empty()
    } else {
        let t = trim_spec(lines.last());
        if t.len() == 0 {
            trimmed_lines(lines.drop_last())
        } else {
            trimmed_lines(lines.drop_last()).push(t)
        }
    }
}

/// A window's text condensed for searching: its lines trimmed, empty ones
/// dropped, the rest joined by spaces.
pub open spec fn condensed_spec(text: Seq<char>) -> Seq<char> {
    join_spec(trimmed_lines(lines_spec(text)), " "@)
}

/// Condenses a window's text for searching: each line trimmed, empty lines
/// dropped, the rest joined by single spaces.
pub fn condense_text(text: &str) -> (r: String)
    ensures
        r@ == condensed_spec(text@),
{
    let lines = text_lines(text);
    let ghost views = lines@.map_values(|l: String| l@);
    let mut kept: Vec<String> = Vec::new();
    let mut i: usize = 0;
    while i < lines.len()
        invariant
            views == lines@.map_values(|l: String| l@),
            i <= lines.len(),
            kept@.map_values(|l: String| l@) == trimmed_lines(views.take(i as int)),
        decreases lines.len() - i,
    {
        let t = trim(lines[i].as_str());
        proof {
            assert(views.take(i + 1).drop_last() == views.take(i as int));
            assert(views.take(i + 1).last() == lines@[i as int]@);
        }
        if !t.as_str().is_empty() {
            let ghost before = kept@;
            kept.push(t);
            proof {
                assert(kept@.map_values(|l: String| l@) == before.map_values(|l: String| l@).push(t@));
            }
        }
        i = i + 1;
    }
    proof {
        assert(views.take(lines.len() as int) == views);
    }
    join(&kept, " ")
}

/// The first `max` characters of `s`, or all of `s` when it has no more.
pub open spec fn limit_chars_spec(s: Seq<char>, max: int) -> Seq<char> {
    if s.len() > max {
        s.take(max)
    } else {
        s
    }
}

/// Keeps the first `max` characters of `s` (all of them when it has no
/// more).
pub fn limit_text_chars(s: &str, max: usize) -> (r: String)
    ensures
        r@ == limit_chars_spec(s@, max as int),
{
    let v = crate::text::chars_of(s);
    let end = if v.len() > max {
        max
    } else {
        v.len()
    };
    let r = crate::text::string_of(&v, 0, end);
    proof {
        assert(v@.subrange(0, end as int) == limit_chars_spec(s@, max as int));
    }
    r
}

/// The searchable text of a window from what `get-text` printed: its lines
/// trimmed, empty ones dropped, the rest joined by spaces, then cut to its
/// first `SEARCH_TEXT_MAX_CHARS` characters.
pub open spec fn search_text_spec(text: Seq<char>) -> Seq<char> {
    limit_chars_spec(condensed_spec(text), SEARCH_TEXT_MAX_CHARS as int)
}

/// The searchable text of a window (see `search_text_spec`).
pub fn search_text(text: &str) -> (r: String)
    ensures
        r@ == search_text_spec(text@),
        r@.len() <= SEARCH_TEXT_MAX_CHARS,
{
    let cleaned = condense_text(text);
    limit_text_chars(cleaned.as_str(), SEARCH_TEXT_MAX_CHARS)
}

/// The title of a window as its row shows it: cleaned.
pub open spec fn window_title(win: Window) -> Seq<char> {
    clean_spec(win.title@)
}

/// The command line of a window as its row shows it: joined.
pub open spec fn window_command(win: Window) -> Seq<char> {
    join_cmd_spec(win.cmdline_spec().map_values(|s: String| s@))
}

/// Whether a window gets a row: it is not the window the selector runs in
/// (`self_id`), and it is no selector window itself (its title reads
/// `WINSEL` in upper case, or its command line holds `winsel` in lower
/// case).
pub open spec fn listed_spec(win: Window, self_id: Option<Seq<char>>) -> bool {
    &&& self_id != Some(decimal(win.id as int))
    &&& upper_case(window_title(win)) != "WINSEL"@
    &&& !contains_spec(lower_case(window_command(win)), "winsel"@)
}

/// Whether a window gets a row, decided with ASCII case mapping: what
/// `listed_spec` comes to for a window whose title and command line are
/// ASCII text.
pub open spec fn ascii_listed(win: Window, self_id: Option<Seq<char>>) -> bool {
    &&& self_id != Some(decimal(win.id as int))
    &&& window_title(win).map_values(|c: char| ascii_to_upper(c)) != "WINSEL"@
    &&& !contains_spec(window_command(win).map_values(|c: char| ascii_to_lower(c)), "winsel"@)
}

/// For a window whose title and command line are ASCII text, whether it
/// gets a row is decided by ASCII case (see `ascii_listed`).
pub open spec fn listed_by_ascii(win: Window, self_id: Option<Seq<char>>) -> bool {
    ascii_text(window_title(win)) && ascii_text(window_command(win)) ==> (listed_spec(win, self_id)
        <==> ascii_listed(win, self_id))
}

/// `listed_by_ascii` holds of every window of `data`.
pub open spec fn all_listed_by_ascii(data: KittyData, self_id: Option<Seq<char>>) -> bool {
    forall|o: int, t: int, w: int|
        has_window(data, o, t, w) ==> listed_by_ascii(#[trigger] window_at(data, o, t, w), self_id)
}

/// Whether the window gets a row (see `listed_spec`).
pub fn is_listed(win: &Window, self_id: Option<&str>) -> (r: bool)
    ensures
        r == listed_spec(*win, opt_view(self_id)),
        ascii_text(window_title(*win)) && ascii_text(window_command(*win)) ==> r == ascii_listed(
            *win,
            opt_view(self_id),
        ),
{
    let wid = decimal_text(win.id as i128);
    let title = clean(win.title.as_str());
    let cmdline = join_cmd(win.cmdline());
    passes_filter(&wid, &title, &cmdline, self_id)
}

fn passes_filter(wid: &String, title: &String, cmdline: &String, self_id: Option<&str>) -> (r: bool)
    ensures
        r == (opt_view(self_id) != Some(wid@) && upper_case(title@) != "WINSEL"@ && !contains_spec(
            lower_case(cmdline@),
            "winsel"@,
        )),
        ascii_text(title@) && ascii_text(cmdline@) ==> r == (opt_view(self_id) != Some(wid@)
            && title@.map_values(|c: char| ascii_to_upper(c)) != "WINSEL"@ && !contains_spec(
            cmdline@.map_values(|c: char| ascii_to_lower(c)),
            "winsel"@,
        )),
{
    match self_id {
        Some(s) => {
            if same_text(s, wid.as_str()) {
                return false;
            }
        },
        None => {},
    }
    let upper = to_upper(title.as_str());
    if same_text(upper.as_str(), "WINSEL") {
        return false;
    }
    let lower = to_lower(cmdline.as_str());
    !contains(lower.as_str(), "winsel")
}

/// The index of the first occurrence of `id` in `history`, if any.
pub open spec fn first_index(history: Seq<i64>, id: i64) -> Option<nat>
    decreases history.len(),
{
    if history.len() == 0 {
        None
    } else if history[0] == id {
        Some(0)
    } else {
        match first_index(history.drop_first(), id) {
            Some(k) => Some(k + 1),
            None => None,
        }
    }
}

/// The place of a window in its tab's history of active windows; one past
/// the end of the history when it is not there.
pub open spec fn history_rank(history: Seq<i64>, id: i64) -> int {
    match first_index(history, id) {
        Some(k) => k as int,
        None => history.len() as int + 1,
    }
}

/// The rank of a window's row: focused windows first, then windows of a
/// focused OS window, then of an active tab, then by recency in the tab,
/// then the newest first.
pub open spec fn window_rank(os: OsWindow, tab: Tab, win: Window) -> Rank {
    (
        if win.is_focused { 0 } else { 1 },
        if os.is_focused || os.last_focused { 0 } else { 1 },
        if tab.is_active || tab.is_focused { 0 } else { 1 },
        history_rank(tab.active_window_history@, win.id) as i64,
        (-win.created_at) as i64,
    )
}

/// The text fetched for a window: the first text given for its id, empty
/// when none was given.
pub open spec fn text_for(texts: Seq<(i64, String)>, id: i64) -> Seq<char>
    decreases texts.len(),
{
    if texts.len() == 0 {
        Seq::empty()
    } else if texts[0].0 == id {
        texts[0].1@
    } else {
        text_for(texts.drop_first(), id)
    }
}

/// The row of a window: ten tab-separated fields.  1 the window id,
/// 2 its title (its command line when the title is empty), 3 and 4 its
/// command line, 5 the command line in base64, 6 its working directory,
/// 7 its creation time, 8 the directory in base64, 9 the label shown,
/// 10 the hidden searchable text.
pub open spec fn row_spec(win: Window, home: Option<Seq<char>>, content: Seq<char>) -> Seq<char> {
    let title = window_title(win);
    let cmd = window_command(win);
    let cwd = clean_spec(win.cwd@);
    let title_col = if title.len() > 0 {
        title
    } else {
        cmd
    };
    decimal(win.id as int) + "\t"@ + title_col + "\t"@ + cmd + "\t"@ + cmd + "\t"@ + base64_text(
        encode_utf8(cmd),
    ) + "\t"@ + cwd + "\t"@ + decimal(win.created_at as int) + "\t"@ + base64_text(encode_utf8(cwd))
        + "\t"@ + smart_label_spec(cmd, cwd, home) + "\t"@ + join_spec(
        searchable_parts(cwd, content, win.env@, win.user_vars@),
        " "@,
    )
}

/// The fields of a line separated by tabs, as a reader that splits on
/// every tab (the fuzzy finder's `--delimiter`) sees them.
pub open spec fn tab_fields(s: Seq<char>) -> Seq<Seq<char>>
    decreases s.len(),
{
    if s.len() == 0 {
        seq![Seq::empty()]
    } else {
        let rest = tab_fields(s.drop_first());
        if s[0] == '\t' {
            seq![Seq::<char>::empty()] + rest
        } else {
            rest.update(0, seq![s[0]] + rest[0])
        }
    }
}

proof fn lemma_tab_fields_len(s: Seq<char>)
    ensures
        tab_fields(s).len() >= 1,
    decreases s.len(),
{
    if s.len() > 0 {
        lemma_tab_fields_len(s.drop_first());
    }
}

proof fn lemma_tab_fields_concat(a: Seq<char>, b: Seq<char>)
    ensures
        tab_fields(a + seq!['\t'] + b) == tab_fields(a) + tab_fields(b),
    decreases a.len(),
{
    let s = a + seq!['\t'] + b;
    if a.len() == 0 {
        assert(s.drop_first() == b);
        assert(a == Seq::<char>::empty());
    } else {
        let a1 = a.drop_first();
        assert(s.drop_first() == a1 + seq!['\t'] + b);
        lemma_tab_fields_concat(a1, b);
        lemma_tab_fields_len(a1);
        assert(s[0] == a[0]);
        let ra = tab_fields(a1);
        if a[0] == '\t' {
            assert(seq![Seq::<char>::empty()] + (ra + tab_fields(b)) == (seq![Seq::<char>::empty()] + ra)
                + tab_fields(b));
        } else {
            let rest = ra + tab_fields(b);
            assert(rest[0] == ra[0]);
            assert(rest.update(0, seq![a[0]] + rest[0]) == ra.update(0, seq![a[0]] + ra[0]) + tab_fields(b));
        }
    }
}

proof fn lemma_tab_fields_single(a: Seq<char>)
    requires
        tab_free(a),
    ensures
        tab_fields(a) == seq![a],
    decreases a.len(),
{
    if a.len() > 0 {
        let a1 = a.drop_first();
        assert(tab_free(a1)) by {
            assert forall|k: int| 0 <= k < a1.len() implies #[trigger] a1[k] != '\t' by {
                assert(a1[k] == a[k + 1]);
            }
        }
        lemma_tab_fields_single(a1);
        assert(a[0] != '\t');
        assert(seq![a[0]] + a1 == a);
        assert(seq![a1].update(0, seq![a[0]] + a1) == seq![a]);
    } else {
        assert(a == Seq::<char>::empty());
    }
}

proof fn lemma_tab_join_split(fields: Seq<Seq<char>>)
    requires
        fields.len() >= 1,
        forall|k: int| 0 <= k < fields.len() - 1 ==> tab_free(#[trigger] fields[k]),
    ensures
        tab_fields(join_spec(fields, seq!['\t'])) == fields.drop_last() + tab_fields(fields.last()),
    decreases fields.len(),
{
    if fields.len() > 1 {
        let p = fields.drop_last();
        assert forall|k: int| 0 <= k < p.len() - 1 implies tab_free(#[trigger] p[k]) by {
            assert(p[k] == fields[k]);
        }
        lemma_tab_join_split(p);
        assert(tab_free(p.last())) by {
            assert(p.last() == fields[fields.len() - 2]);
        }
        lemma_tab_fields_single(p.last());
        lemma_tab_fields_concat(join_spec(p, seq!['\t']), fields.last());
        assert(p.drop_last().push(p.last()) == p);
    } else {
        assert(fields.drop_last() == Seq::<Seq<char>>::empty());
        assert(fields.last() == fields[0]);
    }
}

/// The first nine fields of a window's row: its id, its title (its
/// command line when the title is empty), its command line twice, the
/// command line in base64, its working directory, its creation time, the
/// directory in base64, and the label shown.
pub open spec fn row_fields(win: Window, home: Option<Seq<char>>) -> Seq<Seq<char>> {
    let title = window_title(win);
    let cmd = window_command(win);
    let cwd = clean_spec(win.cwd@);
    let title_col = if title.len() > 0 {
        title
    } else {
        cmd
    };
    seq![
        decimal(win.id as int),
        title_col,
        cmd,
        cmd,
        base64_text(encode_utf8(cmd)),
        cwd,
        decimal(win.created_at as int),
        base64_text(encode_utf8(cwd)),
        smart_label_spec(cmd, cwd, home),
    ]
}

proof fn lemma_label_tab_free(cmd: Seq<char>, cwd: Seq<char>, home: Option<Seq<char>>)
    requires
        tab_free(cmd),
        tab_free(cwd),
    ensures
        tab_free(smart_label_spec(cmd, cwd, home)),
{
    reveal_strlit("\x1b[35m");
    reveal_strlit("\x1b[32m");
    reveal_strlit("\x1b[0m");
    reveal_strlit("~");
    reveal_strlit("/");
    reveal_strlit(": ");
    reveal_strlit("<shell>");
    assert(tab_free(COLOR_PATH@));
    assert(tab_free(COLOR_CMD@));
    assert(tab_free(COLOR_RESET@));
    assert(tab_free("~"@));
    assert(tab_free("/"@));
    assert(tab_free(": "@));
    assert(tab_free("<shell>"@));
    let p = if cwd.len() > 0 {
        abbreviate_path_spec(cwd, home)
    } else {
        "~"@
    };
    if cwd.len() > 0 {
        match home {
            Some(h) => lemma_replace_tab_free(cwd, h, "~"@),
            None => {},
        }
    }
    lemma_concat_tab_free(p, "/"@);
    let lp = label_path(cwd, home);
    let shown = if cmd.len() > 0 {
        cmd
    } else {
        "<shell>"@
    };
    lemma_concat_tab_free(COLOR_PATH@, lp);
    lemma_concat_tab_free(COLOR_PATH@ + lp, COLOR_RESET@);
    lemma_concat_tab_free(COLOR_PATH@ + lp + COLOR_RESET@, ": "@);
    lemma_concat_tab_free(COLOR_PATH@ + lp + COLOR_RESET@ + ": "@, COLOR_CMD@);
    lemma_concat_tab_free(COLOR_PATH@ + lp + COLOR_RESET@ + ": "@ + COLOR_CMD@, shown);
    lemma_concat_tab_free(COLOR_PATH@ + lp + COLOR_RESET@ + ": "@ + COLOR_CMD@ + shown, COLOR_RESET@);
}

/// Whether none of the first nine fields of a window's row holds a tab.
pub open spec fn fields_tab_free(win: Window, home: Option<Seq<char>>) -> bool {
    forall|k: int| 0 <= k < 9 ==> tab_free(#[trigger] row_fields(win, home)[k])
}

/// A row read back by splitting on tabs: when none of its first nine
/// fields holds a tab (what `build_rows` ensures of every listed window),
/// its first nine fields are the window's id, title, command line twice,
/// command line in base64, directory, creation time, directory in base64
/// and label, and the searchable text follows.
pub proof fn lemma_row_fields(win: Window, home: Option<Seq<char>>, content: Seq<char>)
    requires
        fields_tab_free(win, home),
    ensures
        tab_fields(row_spec(win, home, content)).len() >= 10,
        tab_fields(row_spec(win, home, content)).take(9) == row_fields(win, home),
{
    let f = row_fields(win, home);
    let extra = join_spec(searchable_parts(clean_spec(win.cwd@), content, win.env@, win.user_vars@), " "@);
    let all = f.push(extra);
    let t = seq!['\t'];
    reveal_strlit("\t");
    assert("\t"@ == t);
    lemma_row_is_join(win, home, content);
    assert forall|k: int| 0 <= k < all.len() - 1 implies tab_free(#[trigger] all[k]) by {
        assert(all[k] == f[k]);
    }
    lemma_tab_join_split(all);
    assert(all.drop_last() == f);
    lemma_tab_fields_len(extra);
}

proof fn lemma_row_is_join(win: Window, home: Option<Seq<char>>, content: Seq<char>)
    ensures
        row_spec(win, home, content) == join_spec(
            row_fields(win, home).push(
                join_spec(searchable_parts(clean_spec(win.cwd@), content, win.env@, win.user_vars@), " "@),
            ),
            seq!['\t'],
        ),
{
    let f = row_fields(win, home);
    let extra = join_spec(searchable_parts(clean_spec(win.cwd@), content, win.env@, win.user_vars@), " "@);
    let all = f.push(extra);
    let t = seq!['\t'];
    reveal_strlit("\t");
    assert("\t"@ == t);
    assert forall|k: int| 2 <= k <= 10 implies #[trigger] join_spec(all.take(k), t) == join_spec(all.take(k - 1), t)
        + t + all[k - 1] by {
        assert(all.take(k).drop_last() == all.take(k - 1));
        assert(all.take(k).last() == all[k - 1]);
    }
    assert(join_spec(all.take(1), t) == all[0]);
    let j2 = join_spec(all.take(2), t);
    let j3 = join_spec(all.take(3), t);
    let j4 = join_spec(all.take(4), t);
    let j5 = join_spec(all.take(5), t);
    let j6 = join_spec(all.take(6), t);
    let j7 = join_spec(all.take(7), t);
    let j8 = join_spec(all.take(8), t);
    let j9 = join_spec(all.take(9), t);
    let j10 = join_spec(all.take(10), t);
    assert(j10 == j9 + t + all[9]);
    assert(all.take(10) == all);
}

/// The ranked rows of the first `n` windows of a tab.
pub open spec fn window_entries(
    os: OsWindow,
    tab: Tab,
    n: int,
    self_id: Option<Seq<char>>,
    home: Option<Seq<char>>,
    texts: Seq<(i64, String)>,
) -> Seq<(Rank, Seq<char>)>
    decreases n,
{
    if n <= 0 {
        Seq::empty()
    } else {
        let prev = window_entries(os, tab, n - 1, self_id, home, texts);
        let win = tab.windows@[n - 1];
        if listed_spec(win, self_id) {
            prev.push((window_rank(os, tab, win), row_spec(win, home, text_for(texts, win.id))))
        } else {
            prev
        }
    }
}

/// The ranked rows of the first `n` tabs of an OS window.
pub open spec fn tab_entries(
    os: OsWindow,
    n: int,
    self_id: Option<Seq<char>>,
    home: Option<Seq<char>>,
    texts: Seq<(i64, String)>,
) -> Seq<(Rank, Seq<char>)>
    decreases n,
{
    if n <= 0 {
        Seq::empty()
    } else {
        let tab = os.tabs@[n - 1];
        tab_entries(os, n - 1, self_id, home, texts) + window_entries(
            os,
            tab,
            tab.windows@.len() as int,
            self_id,
            home,
            texts,
        )
    }
}

/// The ranked rows of the first `n` OS windows.
pub open spec fn os_entries(
    oss: Seq<OsWindow>,
    n: int,
    self_id: Option<Seq<char>>,
    home: Option<Seq<char>>,
    texts: Seq<(i64, String)>,
) -> Seq<(Rank, Seq<char>)>
    decreases n,
{
    if n <= 0 {
        Seq::empty()
    } else {
        let os = oss[n - 1];
        os_entries(oss, n - 1, self_id, home, texts) + tab_entries(
            os,
            os.tabs@.len() as int,
            self_id,
            home,
            texts,
        )
    }
}

/// The ranked rows of all listed windows, in the order kitty lists them.
pub open spec fn row_entries(
    data: KittyData,
    self_id: Option<Seq<char>>,
    home: Option<Seq<char>>,
    texts: Seq<(i64, String)>,
) -> Seq<(Rank, Seq<char>)> {
    os_entries(data.0@, data.0@.len() as int, self_id, home, texts)
}

/// The rank of every listed window can be computed: its creation time has
/// a negation in `i64` (`i64::MIN` has none) and the history of its tab is
/// shorter than `usize::MAX` (one past its end is a `usize`).
pub open spec fn ranks_defined(data: KittyData, self_id: Option<Seq<char>>) -> bool {
    forall|o: int, t: int, w: int|
        0 <= o < data.0@.len() && 0 <= t < data.0@[o].tabs@.len() && 0 <= w
            < data.0@[o].tabs@[t].windows@.len() && listed_spec(
            #[trigger] data.0@[o].tabs@[t].windows@[w],
            self_id,
        ) ==> data.0@[o].tabs@[t].windows@[w].created_at != i64::MIN
            && data.0@[o].tabs@[t].active_window_history@.len() < usize::MAX
}

fn history_position(history: &Vec<i64>, id: i64) -> (r: i64)
    requires
        history@.len() < usize::MAX,
    ensures
        r == history_rank(history@, id) as i64,
{
    let mut k: usize = 0;
    proof {
        assert(history@.skip(0) == history@);
    }
    while k < history.len()
        invariant
            k <= history.len(),
            first_index(history@, id) == (match first_index(history@.skip(k as int), id) {
                Some(p) => Some((p + k) as nat),
                None => None,
            }),
        decreases history.len() - k,
    {
        if history[k] == id {
            proof {
                assert(history@.skip(k as int)[0] == id);
            }
            return k as i64;
        }
        proof {
            assert(history@.skip(k as int).drop_first() == history@.skip(k + 1));
        }
        k = k + 1;
    }
    proof {
        assert(history@.skip(k as int).len() == 0);
    }
    (history.len() + 1) as i64
}

fn find_text<'a>(texts: &'a Vec<(i64, String)>, id: i64) -> (r: &'a str)
    ensures
        r@ == text_for(texts@, id),
{
    let mut k: usize = 0;
    proof {
        assert(texts@.skip(0) == texts@);
    }
    while k < texts.len()
        invariant
            k <= texts.len(),
            text_for(texts@, id) == text_for(texts@.skip(k as int), id),
        decreases texts.len() - k,
    {
        if texts[k].0 == id {
            return texts[k].1.as_str();
        }
        proof {
            assert(texts@.skip(k as int).drop_first() == texts@.skip(k + 1));
        }
        k = k + 1;
    }
    proof {
        reveal_strlit("");
        assert(texts@.skip(k as int).len() == 0);
    }
    ""
}

/// Appends a tab, then `field`, to `row`.
fn push_field(row: &mut String, field: &str)
    ensures
        final(row)@ == old(row)@ + "\t"@ + field@,
{
    row.append("\t");
    row.append(field);
}

/// The row of a listed window (see `row_spec`).
fn window_row(win: &Window, home: Option<&str>, texts: &Vec<(i64, String)>) -> (r: String)
    ensures
        r@ == row_spec(*win, opt_view(home), text_for(texts@, win.id)),
        fields_tab_free(*win, opt_view(home)),
{
    let title = clean(win.title.as_str());
    let cmd = join_cmd(win.cmdline());
    let cwd = clean(win.cwd.as_str());
    let encoded_cmd = encode_text(cmd.as_str());
    let encoded_cwd = encode_text(cwd.as_str());
    let label = build_smart_label(title.as_str(), cmd.as_str(), cwd.as_str(), home);
    let content = find_text(texts, win.id);
    let extra = build_extra_searchable_content(cwd.as_str(), content, &win.env, &win.user_vars);
    let mut row = decimal_text(win.id as i128);
    if !title.as_str().is_empty() {
        push_field(&mut row, title.as_str());
    } else {
        push_field(&mut row, cmd.as_str());
    }
    push_field(&mut row, cmd.as_str());
    push_field(&mut row, cmd.as_str());
    push_field(&mut row, encoded_cmd.as_str());
    push_field(&mut row, cwd.as_str());
    let created = decimal_text(win.created_at as i128);
    push_field(&mut row, created.as_str());
    push_field(&mut row, encoded_cwd.as_str());
    push_field(&mut row, label.as_str());
    push_field(&mut row, extra.as_str());
    proof {
        crate::utils::lemma_clean_is_clean(win.title@);
        crate::utils::lemma_clean_is_clean(win.cwd@);
        lemma_decimal_tab_free(win.id as int);
        lemma_decimal_tab_free(win.created_at as int);
        assert(tab_free(encoded_cmd@)) by {
            assert forall|k: int| 0 <= k < encoded_cmd@.len() implies #[trigger] encoded_cmd@[k] != '\t' by {
                assert(crate::encoding::base64_char(encoded_cmd@[k]));
            }
        }
        assert(tab_free(encoded_cwd@)) by {
            assert forall|k: int| 0 <= k < encoded_cwd@.len() implies #[trigger] encoded_cwd@[k] != '\t' by {
                assert(crate::encoding::base64_char(encoded_cwd@[k]));
            }
        }
        lemma_label_tab_free(cmd@, cwd@, opt_view(home));
        let f = row_fields(*win, opt_view(home));
        assert(f[0] == decimal(win.id as int));
        assert(f[4] == encoded_cmd@);
        assert(f[7] == encoded_cwd@);
        assert(f[8] == label@);
    }
    row
}

/// The entries with their texts seen as character sequences.
pub open spec fn entry_views(entries: Seq<(Rank, String)>) -> Seq<(Rank, Seq<char>)> {
    entries.map_values(|e: (Rank, String)| (e.0, e.1@))
}

/// The rank of a listed window's row (see `window_rank`).
fn rank_of(os: &OsWindow, tab: &Tab, win: &Window) -> (r: Rank)
    requires
        win.created_at != i64::MIN,
        tab.active_window_history@.len() < usize::MAX,
    ensures
        r == window_rank(*os, *tab, *win),
{
    (
        if win.is_focused { 0 } else { 1 },
        if os.is_focused || os.last_focused { 0 } else { 1 },
        if tab.is_active || tab.is_focused { 0 } else { 1 },
        history_position(&tab.active_window_history, win.id),
        -win.created_at,
    )
}

fn push_entry(entries: &mut Vec<(Rank, String)>, entry: (Rank, String))
    ensures
        entry_views(final(entries)@) == entry_views(old(entries)@).push((entry.0, entry.1@)),
{
    entries.push(entry);
    proof {
        assert(entry_views(entries@) == entry_views(old(entries)@).push((entry.0, entry.1@)));
    }
}

/// Whether `data` has a window at OS window `o`, tab `t`, place `w`.
pub open spec fn has_window(data: KittyData, o: int, t: int, w: int) -> bool {
    &&& 0 <= o < data.0@.len()
    &&& 0 <= t < data.0@[o].tabs@.len()
    &&& 0 <= w < data.0@[o].tabs@[t].windows@.len()
}

/// The window of `data` at OS window `o`, tab `t`, place `w`.
pub open spec fn window_at(data: KittyData, o: int, t: int, w: int) -> Window {
    data.0@[o].tabs@[t].windows@[w]
}

/// Every listed window before place `(i, j, k)` of the tree has rows
/// whose first nine fields hold no tab.
spec fn readable_before(
    data: KittyData,
    self_id: Option<Seq<char>>,
    home: Option<Seq<char>>,
    i: int,
    j: int,
    k: int,
) -> bool {
    forall|o: int, t: int, w: int|
        has_window(data, o, t, w) && (o < i || (o == i && (t < j || (t == j && w < k))))
            ==> listed_by_ascii(#[trigger] window_at(data, o, t, w), self_id) && (listed_spec(
            window_at(data, o, t, w),
            self_id,
        ) ==> fields_tab_free(window_at(data, o, t, w), home))
}

/// The ranked rows of all listed windows, in the order kitty lists them
/// (see `row_entries`).
pub fn collect_entries(
    data: &KittyData,
    self_id: Option<&str>,
    home: Option<&str>,
    texts: &Vec<(i64, String)>,
) -> (r: Vec<(Rank, String)>)
    requires
        ranks_defined(*data, opt_view(self_id)),
    ensures
        entry_views(r@) == row_entries(*data, opt_view(self_id), opt_view(home), texts@),
        forall|o: int, t: int, w: int|
            has_window(*data, o, t, w) && listed_spec(#[trigger] window_at(*data, o, t, w), opt_view(self_id))
                ==> fields_tab_free(window_at(*data, o, t, w), opt_view(home)),
        all_listed_by_ascii(*data, opt_view(self_id)),
{
    let ghost sid = opt_view(self_id);
    let ghost hm = opt_view(home);
    let ghost oss = data.0@;
    let mut entries: Vec<(Rank, String)> = Vec::new();
    let mut i: usize = 0;
    while i < data.0.len()
        invariant
            oss == data.0@,
            sid == opt_view(self_id),
            hm == opt_view(home),
            ranks_defined(*data, sid),
            i <= oss.len(),
            entry_views(entries@) == os_entries(oss, i as int, sid, hm, texts@),
            readable_before(*data, sid, hm, i as int, 0, 0),
        decreases oss.len() - i,
    {
        let os = &data.0[i];
        let mut j: usize = 0;
        while j < os.tabs.len()
            invariant
                oss == data.0@,
                sid == opt_view(self_id),
                hm == opt_view(home),
                ranks_defined(*data, sid),
                i < oss.len(),
                *os == oss[i as int],
                j <= os.tabs@.len(),
                entry_views(entries@) == os_entries(oss, i as int, sid, hm, texts@) + tab_entries(
                    *os,
                    j as int,
                    sid,
                    hm,
                    texts@,
                ),
                readable_before(*data, sid, hm, i as int, j as int, 0),
            decreases os.tabs@.len() - j,
        {
            let tab = &os.tabs[j];
            let mut k: usize = 0;
            while k < tab.windows.len()
                invariant
                    oss == data.0@,
                    sid == opt_view(self_id),
                    hm == opt_view(home),
                    ranks_defined(*data, sid),
                    i < oss.len(),
                    *os == oss[i as int],
                    j < os.tabs@.len(),
                    *tab == os.tabs@[j as int],
                    k <= tab.windows@.len(),
                    entry_views(entries@) == os_entries(oss, i as int, sid, hm, texts@)
                        + tab_entries(*os, j as int, sid, hm, texts@) + window_entries(
                        *os,
                        *tab,
                        k as int,
                        sid,
                        hm,
                        texts@,
                    ),
                    readable_before(*data, sid, hm, i as int, j as int, k as int),
                decreases tab.windows@.len() - k,
            {
                let win = &tab.windows[k];
                proof {
                    assert(window_at(*data, i as int, j as int, k as int) == *win);
                }
                if is_listed(win, self_id) {
                    let rank = rank_of(os, tab, win);
                    let row = window_row(win, home, texts);
                    push_entry(&mut entries, (rank, row));
                }
                k = k + 1;
            }
            proof {
                assert forall|o: int, t: int, w: int|
                    has_window(*data, o, t, w) && (o < i || (o == i && (t < j + 1 || (t == j + 1 && w < 0))))
                        implies listed_by_ascii(#[trigger] window_at(*data, o, t, w), sid) && (listed_spec(
                    window_at(*data, o, t, w),
                    sid,
                ) ==> fields_tab_free(window_at(*data, o, t, w), hm)) by {
                    if o == i && t == j {
                        assert(w < tab.windows@.len());
                    }
                }
            }
            j = j + 1;
        }
        proof {
            assert forall|o: int, t: int, w: int|
                has_window(*data, o, t, w) && (o < i + 1 || (o == i + 1 && (t < 0 || (t == 0 && w < 0))))
                    implies listed_by_ascii(#[trigger] window_at(*data, o, t, w), sid) && (listed_spec(
                window_at(*data, o, t, w),
                sid,
            ) ==> fields_tab_free(window_at(*data, o, t, w), hm)) by {
                if o == i {
                    assert(t < os.tabs@.len());
                }
            }
        }
        i = i + 1;
    }
    entries
}

/// The rows are the texts of the entries `e`, each at the place that a
/// stable sort by rank gives it, every place taken.
pub open spec fn rows_in_rank_order(rows: Seq<String>, e: Seq<(Rank, Seq<char>)>) -> bool {
    let ranks = e.map_values(|x: (Rank, Seq<char>)| x.0);
    &&& rows.len() == e.len()
    &&& forall|i: int| 0 <= i < e.len() ==> rows[#[trigger] sorted_position(ranks, i) as int]@ == e[i].1
    &&& forall|p: int| 0 <= p < e.len() ==> #[trigger] place_taken(ranks, p)
}

/// Every listed window's row has first nine fields without tabs.
pub open spec fn all_fields_tab_free(data: KittyData, self_id: Option<Seq<char>>, home: Option<Seq<char>>) -> bool {
    forall|o: int, t: int, w: int|
        has_window(data, o, t, w) && listed_spec(#[trigger] window_at(data, o, t, w), self_id)
            ==> fields_tab_free(window_at(data, o, t, w), home)
}

/// Builds the rows offered to the fuzzy finder: one row per listed window
/// (see `listed_spec` and `row_spec`), stably sorted by `window_rank`.
/// `texts` holds the text fetched for each window, by window id.
pub fn build_rows(
    data: &KittyData,
    self_id: Option<&str>,
    home: Option<&str>,
    texts: &Vec<(i64, String)>,
) -> (rows: Vec<String>)
    requires
        ranks_defined(*data, opt_view(self_id)),
    ensures
        rows_in_rank_order(rows@, row_entries(*data, opt_view(self_id), opt_view(home), texts@)),
        all_fields_tab_free(*data, opt_view(self_id), opt_view(home)),
        all_listed_by_ascii(*data, opt_view(self_id)),
{
    let entries = collect_entries(data, self_id, home, texts);
    let rows = order_by_rank(&entries);
    proof {
        let e = row_entries(*data, opt_view(self_id), opt_view(home), texts@);
        assert(e.map_values(|x: (Rank, Seq<char>)| x.0) == ranks_of(entries@));
        assert forall|i: int| 0 <= i < e.len() implies #[trigger] e[i].1 == entries@[i].1@ by {
            assert(entry_views(entries@)[i] == e[i]);
        }
        let ranks = e.map_values(|x: (Rank, Seq<char>)| x.0);
        assert forall|p: int| 0 <= p < e.len() implies #[trigger] place_taken(ranks, p) by {
            crate::order::lemma_every_place_taken(ranks, p);
        }
    }
    rows
}

/// Whether every listed window before place `(i, j, k)` of the tree has a
/// rank that can be computed.
spec fn ranks_defined_before(data: KittyData, self_id: Option<Seq<char>>, i: int, j: int, k: int) -> bool {
    forall|o: int, t: int, w: int|
        has_window(data, o, t, w) && (o < i || (o == i && (t < j || (t == j && w < k))))
            && listed_spec(#[trigger] window_at(data, o, t, w), self_id) ==> window_at(data, o, t, w).created_at
            != i64::MIN && data.0@[o].tabs@[t].active_window_history@.len() < usize::MAX
}

/// Whether the rank of every listed window can be computed (see
/// `ranks_defined`).
pub fn ranks_computable(data: &KittyData, self_id: Option<&str>) -> (r: bool)
    ensures
        r == ranks_defined(*data, opt_view(self_id)),
{
    let ghost sid = opt_view(self_id);
    let mut i: usize = 0;
    while i < data.0.len()
        invariant
            sid == opt_view(self_id),
            i <= data.0@.len(),
            ranks_defined_before(*data, sid, i as int, 0, 0),
        decreases data.0@.len() - i,
    {
        let os = &data.0[i];
        let mut j: usize = 0;
        while j < os.tabs.len()
            invariant
                sid == opt_view(self_id),
                i < data.0@.len(),
                *os == data.0@[i as int],
                j <= os.tabs@.len(),
                ranks_defined_before(*data, sid, i as int, j as int, 0),
            decreases os.tabs@.len() - j,
        {
            let tab = &os.tabs[j];
            let mut k: usize = 0;
            while k < tab.windows.len()
                invariant
                    sid == opt_view(self_id),
                    i < data.0@.len(),
                    *os == data.0@[i as int],
                    j < os.tabs@.len(),
                    *tab == os.tabs@[j as int],
                    k <= tab.windows@.len(),
                    ranks_defined_before(*data, sid, i as int, j as int, k as int),
                decreases tab.windows@.len() - k,
            {
                let win = &tab.windows[k];
                proof {
                    assert(window_at(*data, i as int, j as int, k as int) == *win);
                }
                if is_listed(win, self_id) && (win.created_at == i64::MIN
                    || tab.active_window_history.len() == usize::MAX) {
                    proof {
                        assert(data.0@[i as int].tabs@[j as int].windows@[k as int] == *win);
                    }
                    return false;
                }
                k = k + 1;
            }
            proof {
                assert forall|o: int, t: int, w: int|
                    has_window(*data, o, t, w) && (o < i || (o == i && (t < j + 1 || (t == j + 1 && w < 0))))
                        && listed_spec(#[trigger] window_at(*data, o, t, w), sid) implies window_at(
                    *data,
                    o,
                    t,
                    w,
                ).created_at != i64::MIN && data.0@[o].tabs@[t].active_window_history@.len() < usize::MAX by {
                    if o == i && t == j {
                        assert(w < tab.windows@.len());
                    }
                }
            }
            j = j + 1;
        }
        proof {
            assert forall|o: int, t: int, w: int|
                has_window(*data, o, t, w) && (o < i + 1 || (o == i + 1 && (t < 0 || (t == 0 && w < 0))))
                    && listed_spec(#[trigger] window_at(*data, o, t, w), sid) implies window_at(
                *data,
                o,
                t,
                w,
            ).created_at != i64::MIN && data.0@[o].tabs@[t].active_window_history@.len() < usize::MAX by {
                if o == i {
                    assert(t < os.tabs@.len());
                }
            }
        }
        i = i + 1;
    }
    proof {
        assert forall|o: int, t: int, w: int|
            0 <= o < data.0@.len() && 0 <= t < data.0@[o].tabs@.len() && 0 <= w
                < data.0@[o].tabs@[t].windows@.len() && listed_spec(
                #[trigger] data.0@[o].tabs@[t].windows@[w],
                sid,
            ) implies data.0@[o].tabs@[t].windows@[w].created_at != i64::MIN
            && data.0@[o].tabs@[t].active_window_history@.len() < usize::MAX by {
            assert(window_at(*data, o, t, w) == data.0@[o].tabs@[t].windows@[w]);
            assert(has_window(*data, o, t, w));
        }
    }
    true
}

/// The rows of `build_rows`, or none when the rank of some listed window
/// cannot be computed: its creation time is `i64::MIN`, which has no
/// negation, or its tab's history is `usize::MAX` long.
pub fn build_rows_checked(
    data: &KittyData,
    self_id: Option<&str>,
    home: Option<&str>,
    texts: &Vec<(i64, String)>,
) -> (r: Option<Vec<String>>)
    ensures
        r is Some <==> ranks_defined(*data, opt_view(self_id)),
        r matches Some(rows) ==> rows_in_rank_order(
            rows@,
            row_entries(*data, opt_view(self_id), opt_view(home), texts@),
        ) && all_fields_tab_free(*data, opt_view(self_id), opt_view(home)) && all_listed_by_ascii(
            *data,
            opt_view(self_id),
        ),
{
    if ranks_computable(data, self_id) {
        Some(build_rows(data, self_id, home, texts))
    } else {
        None
    }
}

/// The row of the window at OS window `o`, tab `t`, place `w`.
pub open spec fn row_at(
    data: KittyData,
    o: int,
    t: int,
    w: int,
    home: Option<Seq<char>>,
    texts: Seq<(i64, String)>,
) -> Seq<char> {
    row_spec(window_at(data, o, t, w), home, text_for(texts, window_at(data, o, t, w).id))
}

/// Whether `row` is the row of some listed window of `data`.
pub open spec fn row_of_listed_window(
    data: KittyData,
    self_id: Option<Seq<char>>,
    home: Option<Seq<char>>,
    texts: Seq<(i64, String)>,
    row: Seq<char>,
) -> bool {
    exists|o: int, t: int, w: int|
        has_window(data, o, t, w) && listed_spec(window_at(data, o, t, w), self_id) && #[trigger] row_at(
            data,
            o,
            t,
            w,
            home,
            texts,
        ) == row
}

proof fn lemma_window_entries_listed(
    data: KittyData,
    o: int,
    t: int,
    n: int,
    self_id: Option<Seq<char>>,
    home: Option<Seq<char>>,
    texts: Seq<(i64, String)>,
)
    requires
        0 <= o < data.0@.len(),
        0 <= t < data.0@[o].tabs@.len(),
        0 <= n <= data.0@[o].tabs@[t].windows@.len(),
    ensures
        forall|i: int|
            0 <= i < window_entries(data.0@[o], data.0@[o].tabs@[t], n, self_id, home, texts).len()
                ==> row_of_listed_window(
                data,
                self_id,
                home,
                texts,
                #[trigger] window_entries(data.0@[o], data.0@[o].tabs@[t], n, self_id, home, texts)[i].1,
            ),
    decreases n,
{
    if n > 0 {
        let os = data.0@[o];
        let tab = os.tabs@[t];
        lemma_window_entries_listed(data, o, t, n - 1, self_id, home, texts);
        let prev = window_entries(os, tab, n - 1, self_id, home, texts);
        let e = window_entries(os, tab, n, self_id, home, texts);
        assert forall|i: int| 0 <= i < e.len() implies row_of_listed_window(data, self_id, home, texts, #[trigger] e[i].1) by {
            if i < prev.len() {
                assert(e[i] == prev[i]);
            } else {
                assert(window_at(data, o, t, n - 1) == tab.windows@[n - 1]);
                assert(has_window(data, o, t, n - 1));
                assert(row_at(data, o, t, n - 1, home, texts) == e[i].1);
            }
        }
    }
}

proof fn lemma_tab_entries_listed(
    data: KittyData,
    o: int,
    n: int,
    self_id: Option<Seq<char>>,
    home: Option<Seq<char>>,
    texts: Seq<(i64, String)>,
)
    requires
        0 <= o < data.0@.len(),
        0 <= n <= data.0@[o].tabs@.len(),
    ensures
        forall|i: int|
            0 <= i < tab_entries(data.0@[o], n, self_id, home, texts).len() ==> row_of_listed_window(
                data,
                self_id,
                home,
                texts,
                #[trigger] tab_entries(data.0@[o], n, self_id, home, texts)[i].1,
            ),
    decreases n,
{
    if n > 0 {
        let os = data.0@[o];
        lemma_tab_entries_listed(data, o, n - 1, self_id, home, texts);
        let tab = os.tabs@[n - 1];
        lemma_window_entries_listed(data, o, n - 1, tab.windows@.len() as int, self_id, home, texts);
        let a = tab_entries(os, n - 1, self_id, home, texts);
        let b = window_entries(os, tab, tab.windows@.len() as int, self_id, home, texts);
        let e = tab_entries(os, n, self_id, home, texts);
        assert(e == a + b);
        assert forall|i: int| 0 <= i < e.len() implies row_of_listed_window(data, self_id, home, texts, #[trigger] e[i].1) by {
            if i < a.len() {
                assert(e[i] == a[i]);
            } else {
                assert(e[i] == b[i - a.len()]);
            }
        }
    }
}

proof fn lemma_os_entries_listed(
    data: KittyData,
    n: int,
    self_id: Option<Seq<char>>,
    home: Option<Seq<char>>,
    texts: Seq<(i64, String)>,
)
    requires
        0 <= n <= data.0@.len(),
    ensures
        forall|i: int|
            0 <= i < os_entries(data.0@, n, self_id, home, texts).len() ==> row_of_listed_window(
                data,
                self_id,
                home,
                texts,
                #[trigger] os_entries(data.0@, n, self_id, home, texts)[i].1,
            ),
    decreases n,
{
    if n > 0 {
        lemma_os_entries_listed(data, n - 1, self_id, home, texts);
        let os = data.0@[n - 1];
        lemma_tab_entries_listed(data, n - 1, os.tabs@.len() as int, self_id, home, texts);
        let a = os_entries(data.0@, n - 1, self_id, home, texts);
        let b = tab_entries(os, os.tabs@.len() as int, self_id, home, texts);
        let e = os_entries(data.0@, n, self_id, home, texts);
        assert(e == a + b);
        assert forall|i: int| 0 <= i < e.len() implies row_of_listed_window(data, self_id, home, texts, #[trigger] e[i].1) by {
            if i < a.len() {
                assert(e[i] == a[i]);
            } else {
                assert(e[i] == b[i - a.len()]);
            }
        }
    }
}

/// Every row offered is the row of a window that is listed: neither the
/// selector's own window nor a selector window gets one.  Its first field,
/// read by splitting on tabs, is that window's id, so never `self_id`.
pub proof fn lemma_rows_of_listed_windows(
    data: KittyData,
    self_id: Option<Seq<char>>,
    home: Option<Seq<char>>,
    texts: Seq<(i64, String)>,
    rows: Seq<String>,
)
    requires
        rows_in_rank_order(rows, row_entries(data, self_id, home, texts)),
        all_fields_tab_free(data, self_id, home),
    ensures
        forall|p: int| 0 <= p < rows.len() ==> row_of_listed_window(data, self_id, home, texts, #[trigger] rows[p]@),
        forall|p: int|
            0 <= p < rows.len() ==> Some(#[trigger] tab_fields(rows[p]@)[0]) != self_id,
{
    let e = row_entries(data, self_id, home, texts);
    let ranks = e.map_values(|x: (Rank, Seq<char>)| x.0);
    lemma_os_entries_listed(data, data.0@.len() as int, self_id, home, texts);
    assert forall|p: int| 0 <= p < rows.len() implies row_of_listed_window(data, self_id, home, texts, #[trigger] rows[p]@) by {
        assert(place_taken(ranks, p));
        let i = choose|i: int| 0 <= i < ranks.len() && sorted_position(ranks, i) == p;
        assert(rows[sorted_position(ranks, i) as int]@ == e[i].1);
    }
    assert forall|p: int| 0 <= p < rows.len() implies Some(#[trigger] tab_fields(rows[p]@)[0]) != self_id by {
        assert(row_of_listed_window(data, self_id, home, texts, rows[p]@));
        let (o, t, w) = choose|o: int, t: int, w: int|
            has_window(data, o, t, w) && listed_spec(window_at(data, o, t, w), self_id) && #[trigger] row_at(
                data,
                o,
                t,
                w,
                home,
                texts,
            ) == rows[p]@;
        let win = window_at(data, o, t, w);
        assert(fields_tab_free(win, home));
        lemma_row_fields(win, home, text_for(texts, win.id));
        assert(tab_fields(rows[p]@).take(9)[0] == tab_fields(rows[p]@)[0]);
        assert(row_fields(win, home)[0] == decimal(win.id as int));
    }
}

} // verus!
