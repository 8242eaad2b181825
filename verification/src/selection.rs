//! Decisions on the windows picked in the fuzzy finder: which ids were
//! picked, where the tabs and windows they name stand in kitty's window
//! tree, and what to do with them.

use vstd::prelude::*;
use crate::kitty_api::{KittyData, OsWindow, Tab, Window};
use crate::text::{
    decimal, decimal_text, eq_ignore_ascii_case, eq_ignore_ascii_case_spec, join, join_spec,
    is_space, lemma_trim_end_shape, lemma_trim_start_shape, same_text, trim, trim_end, trim_end_spec,
    trim_spec,
};
use crate::kitty_client::{id_match, match_id, views};

verus! {

/// The first element of `s` that satisfies `p`.
pub open spec fn first_match<T>(s: Seq<T>, p: spec_fn(T) -> bool) -> Option<T>
    decreases s.len(),
{
    if s.len() == 0 {
        None
    } else if p(s[0]) {
        Some(s[0])
    } else {
        first_match(s.drop_first(), p)
    }
}

proof fn lemma_first_match_push<T>(s: Seq<T>, x: T, p: spec_fn(T) -> bool)
    requires
        first_match(s, p) is None,
    ensures
        first_match(s.push(x), p) == (if p(x) {
            Some(x)
        } else {
            None
        }),
    decreases s.len(),
{
    if s.len() > 0 {
        assert(s.push(x).drop_first() == s.drop_first().push(x));
        assert(s.push(x)[0] == s[0]);
        lemma_first_match_push(s.drop_first(), x, p);
    } else {
        assert(s.push(x) == seq![x]);
        assert(seq![x].drop_first() == Seq::<T>::empty());
        assert(seq![x][0] == x);
        assert(first_match(Seq::<T>::empty(), p) is None);
    }
}

proof fn lemma_first_match_prefix<T>(s: Seq<T>, k: int, p: spec_fn(T) -> bool)
    requires
        0 <= k < s.len(),
        first_match(s.take(k), p) is None,
        p(s[k]),
    ensures
        first_match(s, p) == Some(s[k]),
    decreases k,
{
    if k > 0 {
        assert(s.take(k)[0] == s[0]);
        assert(s.take(k).drop_first() == s.drop_first().take(k - 1));
        lemma_first_match_prefix(s.drop_first(), k - 1, p);
    }
}

/// The tabs of the first `n` OS windows, in order.
pub open spec fn os_tabs(oss: Seq<OsWindow>, n: int) -> Seq<Tab>
    decreases n,
{
    if n <= 0 {
        Seq::empty()
    } else {
        os_tabs(oss, n - 1) + oss[n - 1].tabs@
    }
}

/// All tabs, in the order kitty lists them.
pub open spec fn all_tabs(data: KittyData) -> Seq<Tab> {
    os_tabs(data.0@, data.0@.len() as int)
}

/// The tabs of those of the first `n` OS windows whose id reads `os_id`.
pub open spec fn os_tabs_in(oss: Seq<OsWindow>, n: int, os_id: Seq<char>) -> Seq<Tab>
    decreases n,
{
    if n <= 0 {
        Seq::empty()
    } else if decimal(oss[n - 1].id as int) == os_id {
        os_tabs_in(oss, n - 1, os_id) + oss[n - 1].tabs@
    } else {
        os_tabs_in(oss, n - 1, os_id)
    }
}

/// All tabs as references, in the order kitty lists them.
fn tabs_of<'a>(data: &'a KittyData, os_id: Option<&str>) -> (r: Vec<&'a Tab>)
    ensures
        r@.map_values(|t: &Tab| *t) == match os_id {
            Some(id) => os_tabs_in(data.0@, data.0@.len() as int, id@),
            None => all_tabs(*data),
        },
{
    let mut r: Vec<&'a Tab> = Vec::new();
    let mut i: usize = 0;
    while i < data.0.len()
        invariant
            i <= data.0@.len(),
            r@.map_values(|t: &Tab| *t) == match os_id {
                Some(id) => os_tabs_in(data.0@, i as int, id@),
                None => os_tabs(data.0@, i as int),
            },
        decreases data.0@.len() - i,
    {
        let os = &data.0[i];
        let take = match os_id {
            Some(id) => {
                let text = decimal_text(os.id as i128);
                same_text(text.as_str(), id)
            },
            None => true,
        };
        if take {
            let ghost before = r@.map_values(|t: &Tab| *t);
            let mut j: usize = 0;
            while j < os.tabs.len()
                invariant
                    j <= os.tabs@.len(),
                    r@.map_values(|t: &Tab| *t) == before + os.tabs@.take(j as int),
                decreases os.tabs@.len() - j,
            {
                let ghost prev = r@;
                r.push(&os.tabs[j]);
                proof {
                    assert(r@.map_values(|t: &Tab| *t) == prev.map_values(|t: &Tab| *t).push(
                        os.tabs@[j as int],
                    ));
                    assert(os.tabs@.take(j + 1) == os.tabs@.take(j as int).push(os.tabs@[j as int]));
                }
                j = j + 1;
            }
            proof {
                assert(os.tabs@.take(os.tabs@.len() as int) == os.tabs@);
            }
        }
        i = i + 1;
    }
    r
}

/// Whether the tab's id reads `tab_id`.
pub open spec fn tab_has_id(tab_id: Seq<char>) -> spec_fn(Tab) -> bool {
    |t: Tab| decimal(t.id as int) == tab_id
}

/// The title of the first tab whose id reads `tab_id`.
pub open spec fn tab_title_spec(data: KittyData, tab_id: Seq<char>) -> Option<Seq<char>> {
    match first_match(all_tabs(data), tab_has_id(tab_id)) {
        Some(t) => Some(t.title@),
        None => None,
    }
}

/// The title of the tab whose id reads `tab_id`.
pub fn find_tab_title(data: &KittyData, tab_id: &str) -> (r: Option<String>)
    ensures
        match tab_title_spec(*data, tab_id@) {
            Some(t) => r matches Some(s) && s@ == t,
            None => r is None,
        },
{
    let tabs = tabs_of(data, None);
    let ghost p = tab_has_id(tab_id@);
    let ghost ts = tabs@.map_values(|t: &Tab| *t);
    let mut k: usize = 0;
    while k < tabs.len()
        invariant
            ts == all_tabs(*data),
            p == tab_has_id(tab_id@),
            k <= tabs@.len(),
            ts.len() == tabs@.len(),
            ts == tabs@.map_values(|t: &Tab| *t),
            first_match(ts.take(k as int), p) is None,
        decreases tabs@.len() - k,
    {
        let tab = tabs[k];
        let text = decimal_text(tab.id as i128);
        if same_text(text.as_str(), tab_id) {
            proof {
                lemma_first_match_prefix(ts, k as int, p);
            }
            return Some(tab.title.clone());
        }
        proof {
            assert(ts.take(k + 1) == ts.take(k as int).push(ts[k as int]));
            lemma_first_match_push(ts.take(k as int), ts[k as int], p);
        }
        k = k + 1;
    }
    proof {
        assert(ts.take(ts.len() as int) == ts);
    }
    None
}

/// Whether the OS window has the focus.
pub open spec fn os_is_focused() -> spec_fn(OsWindow) -> bool {
    |o: OsWindow| o.is_focused
}

/// Whether the OS window was the last one focused.
pub open spec fn os_was_last_focused() -> spec_fn(OsWindow) -> bool {
    |o: OsWindow| o.last_focused
}

/// The id, in decimal, of the first OS window that satisfies `p`.
pub open spec fn os_id_where(data: KittyData, p: spec_fn(OsWindow) -> bool) -> Option<Seq<char>> {
    match first_match(data.0@, p) {
        Some(o) => Some(decimal(o.id as int)),
        None => None,
    }
}

/// The id of the first OS window with `focused` set (when `use_focus`) or
/// with `last_focused` set (otherwise).
fn os_id_with(data: &KittyData, use_focus: bool) -> (r: Option<String>)
    ensures
        match os_id_where(*data, if use_focus { os_is_focused() } else { os_was_last_focused() }) {
            Some(t) => r matches Some(s) && s@ == t,
            None => r is None,
        },
{
    let ghost p = if use_focus { os_is_focused() } else { os_was_last_focused() };
    let mut k: usize = 0;
    while k < data.0.len()
        invariant
            p == (if use_focus { os_is_focused() } else { os_was_last_focused() }),
            k <= data.0@.len(),
            first_match(data.0@.take(k as int), p) is None,
        decreases data.0@.len() - k,
    {
        let os = &data.0[k];
        let hit = if use_focus {
            os.is_focused
        } else {
            os.last_focused
        };
        if hit {
            proof {
                lemma_first_match_prefix(data.0@, k as int, p);
            }
            return Some(decimal_text(os.id as i128));
        }
        proof {
            assert(data.0@.take(k + 1) == data.0@.take(k as int).push(data.0@[k as int]));
            lemma_first_match_push(data.0@.take(k as int), data.0@[k as int], p);
        }
        k = k + 1;
    }
    proof {
        assert(data.0@.take(data.0@.len() as int) == data.0@);
    }
    None
}

/// The id of the focused OS window, if any.
pub fn active_os_window_id(data: &KittyData) -> (r: Option<String>)
    ensures
        match os_id_where(*data, os_is_focused()) {
            Some(t) => r matches Some(s) && s@ == t,
            None => r is None,
        },
{
    os_id_with(data, true)
}

/// The OS window to use when none has the focus: the last one focused,
/// else the first one.
pub open spec fn fallback_os_id_spec(data: KittyData) -> Option<Seq<char>> {
    match os_id_where(data, os_was_last_focused()) {
        Some(t) => Some(t),
        None => if data.0@.len() > 0 {
            Some(decimal(data.0@[0].id as int))
        } else {
            None
        },
    }
}

/// The id of the OS window last focused, else of the first OS window.
pub fn find_active_os_window_id_fallback(data: &KittyData) -> (r: Option<String>)
    ensures
        match fallback_os_id_spec(*data) {
            Some(t) => r matches Some(s) && s@ == t,
            None => r is None,
        },
{
    match os_id_with(data, false) {
        Some(id) => Some(id),
        None => {
            if data.0.len() > 0 {
                Some(decimal_text(data.0[0].id as i128))
            } else {
                None
            }
        },
    }
}

/// The OS window that gets the background tab: the focused one, else the
/// last one focused, else the first one.
pub open spec fn background_os_id_spec(data: KittyData) -> Option<Seq<char>> {
    match os_id_where(data, os_is_focused()) {
        Some(t) => Some(t),
        None => fallback_os_id_spec(data),
    }
}

/// The id of the OS window that gets the background tab (see
/// `background_os_id_spec`); none when there is no OS window.
pub fn background_os_window_id(data: &KittyData) -> (r: Option<String>)
    ensures
        match background_os_id_spec(*data) {
            Some(t) => r matches Some(s) && s@ == t,
            None => r is None,
        },
{
    match active_os_window_id(data) {
        Some(id) => Some(id),
        None => find_active_os_window_id_fallback(data),
    }
}

/// Whether the tab's title equals `title` up to ASCII case.
pub open spec fn tab_titled(title: Seq<char>) -> spec_fn(Tab) -> bool {
    |t: Tab| eq_ignore_ascii_case_spec(t.title@, title)
}

/// The id of the first tab titled `title` (ASCII case ignored) among the
/// tabs of the OS windows whose id reads `os_id`.
pub open spec fn tab_id_by_title_spec(data: KittyData, os_id: Seq<char>, title: Seq<char>) -> Option<
    Seq<char>,
> {
    match first_match(os_tabs_in(data.0@, data.0@.len() as int, os_id), tab_titled(title)) {
        Some(t) => Some(decimal(t.id as int)),
        None => None,
    }
}

/// The id of the tab titled `title` (ASCII case ignored) in the OS window
/// `os_id`.
pub fn find_tab_id_by_title(data: &KittyData, os_id: &str, title: &str) -> (r: Option<String>)
    ensures
        match tab_id_by_title_spec(*data, os_id@, title@) {
            Some(t) => r matches Some(s) && s@ == t,
            None => r is None,
        },
{
    let tabs = tabs_of(data, Some(os_id));
    let ghost p = tab_titled(title@);
    let ghost ts = tabs@.map_values(|t: &Tab| *t);
    let mut k: usize = 0;
    while k < tabs.len()
        invariant
            ts == os_tabs_in(data.0@, data.0@.len() as int, os_id@),
            p == tab_titled(title@),
            k <= tabs@.len(),
            ts.len() == tabs@.len(),
            ts == tabs@.map_values(|t: &Tab| *t),
            first_match(ts.take(k as int), p) is None,
        decreases tabs@.len() - k,
    {
        let tab = tabs[k];
        if eq_ignore_ascii_case(tab.title.as_str(), title) {
            proof {
                lemma_first_match_prefix(ts, k as int, p);
            }
            return Some(decimal_text(tab.id as i128));
        }
        proof {
            assert(ts.take(k + 1) == ts.take(k as int).push(ts[k as int]));
            lemma_first_match_push(ts.take(k as int), ts[k as int], p);
        }
        k = k + 1;
    }
    proof {
        assert(ts.take(ts.len() as int) == ts);
    }
    None
}

/// Whether the tab holds a window whose id reads `win_id`.
pub open spec fn tab_holds(win_id: Seq<char>) -> spec_fn(Tab) -> bool {
    |t: Tab| exists|w: int| 0 <= w < t.windows@.len() && decimal(t.windows@[w].id as int) == win_id
}

/// The id of the tab that holds the window whose id reads `win_id`.
pub open spec fn tab_id_for_window_spec(data: KittyData, win_id: Seq<char>) -> Option<Seq<char>> {
    match first_match(all_tabs(data), tab_holds(win_id)) {
        Some(t) => Some(decimal(t.id as int)),
        None => None,
    }
}

fn holds_window(tab: &Tab, win_id: &str) -> (r: bool)
    ensures
        r == tab_holds(win_id@)(*tab),
{
    let mut w: usize = 0;
    while w < tab.windows.len()
        invariant
            w <= tab.windows@.len(),
            forall|v: int| 0 <= v < w ==> decimal(tab.windows@[v].id as int) != win_id@,
        decreases tab.windows@.len() - w,
    {
        let text = decimal_text(tab.windows[w].id as i128);
        if same_text(text.as_str(), win_id) {
            return true;
        }
        w = w + 1;
    }
    false
}

/// The id of the tab that holds the window `win_id`.
pub fn find_tab_id_for_window(data: &KittyData, win_id: &str) -> (r: Option<String>)
    ensures
        match tab_id_for_window_spec(*data, win_id@) {
            Some(t) => r matches Some(s) && s@ == t,
            None => r is None,
        },
{
    let tabs = tabs_of(data, None);
    let ghost p = tab_holds(win_id@);
    let ghost ts = tabs@.map_values(|t: &Tab| *t);
    let mut k: usize = 0;
    while k < tabs.len()
        invariant
            ts == all_tabs(*data),
            p == tab_holds(win_id@),
            k <= tabs@.len(),
            ts.len() == tabs@.len(),
            ts == tabs@.map_values(|t: &Tab| *t),
            first_match(ts.take(k as int), p) is None,
        decreases tabs@.len() - k,
    {
        let tab = tabs[k];
        if holds_window(tab, win_id) {
            proof {
                lemma_first_match_prefix(ts, k as int, p);
            }
            return Some(decimal_text(tab.id as i128));
        }
        proof {
            assert(ts.take(k + 1) == ts.take(k as int).push(ts[k as int]));
            lemma_first_match_push(ts.take(k as int), ts[k as int], p);
        }
        k = k + 1;
    }
    proof {
        assert(ts.take(ts.len() as int) == ts);
    }
    None
}

proof fn lemma_first_match_found<T>(s: Seq<T>, p: spec_fn(T) -> bool)
    requires
        first_match(s, p) is Some,
    ensures
        s.contains(first_match(s, p)->0),
        p(first_match(s, p)->0),
    decreases s.len(),
{
    if !p(s[0]) {
        lemma_first_match_found(s.drop_first(), p);
        let x = first_match(s, p)->0;
        let k = choose|k: int| 0 <= k < s.drop_first().len() && s.drop_first()[k] == x;
        assert(s[k + 1] == x);
    } else {
        assert(s[0] == first_match(s, p)->0);
    }
}

proof fn lemma_first_match_exists<T>(s: Seq<T>, p: spec_fn(T) -> bool, x: T)
    requires
        s.contains(x),
        p(x),
    ensures
        first_match(s, p) is Some,
    decreases s.len(),
{
    if !p(s[0]) {
        let k = choose|k: int| 0 <= k < s.len() && s[k] == x;
        assert(k > 0);
        assert(s.drop_first()[k - 1] == x);
        lemma_first_match_exists(s.drop_first(), p, x);
    }
}

/// The tab found for a window is a tab whose title can be read: when
/// `find_tab_id_for_window` names a tab, `find_tab_title` finds it.
pub proof fn lemma_window_tab_has_title(data: KittyData, win_id: Seq<char>)
    ensures
        tab_id_for_window_spec(data, win_id) matches Some(t) ==> tab_title_spec(data, t) is Some,
{
    let ts = all_tabs(data);
    if first_match(ts, tab_holds(win_id)) is Some {
        lemma_first_match_found(ts, tab_holds(win_id));
        let x = first_match(ts, tab_holds(win_id))->0;
        let t = decimal(x.id as int);
        assert(tab_has_id(t)(x));
        lemma_first_match_exists(ts, tab_has_id(t), x);
    }
}

/// The id of the first tab of the first OS window.
pub open spec fn first_tab_id_spec(data: KittyData) -> Option<Seq<char>> {
    if data.0@.len() > 0 && data.0@[0].tabs@.len() > 0 {
        Some(decimal(data.0@[0].tabs@[0].id as int))
    } else {
        None
    }
}

/// The id of the first tab of the first OS window, if both exist.
pub fn first_tab_id(data: &KittyData) -> (r: Option<String>)
    ensures
        match first_tab_id_spec(*data) {
            Some(t) => r matches Some(s) && s@ == t,
            None => r is None,
        },
{
    if data.0.len() > 0 && data.0[0].tabs.len() > 0 {
        Some(decimal_text(data.0[0].tabs[0].id as i128))
    } else {
        None
    }
}

/// The ids picked, trimmed, without blank ones and without repeats, in the
/// order of their first occurrence.
pub open spec fn unique_spec(ids: Seq<Seq<char>>) -> Seq<Seq<char>>
    decreases ids.len(),
{
    if ids.len() == 0 {
        Seq::empty()
    } else {
        let prev = unique_spec(ids.drop_last());
        let t = trim_spec(ids.last());
        if t.len() == 0 || prev.contains(t) {
            prev
        } else {
            prev.push(t)
        }
    }
}

fn contains_text(v: &Vec<String>, t: &str) -> (r: bool)
    ensures
        r == views(v@).contains(t@),
{
    let mut k: usize = 0;
    while k < v.len()
        invariant
            k <= v.len(),
            forall|m: int| 0 <= m < k ==> v@[m]@ != t@,
        decreases v.len() - k,
    {
        if same_text(v[k].as_str(), t) {
            proof {
                assert(views(v@)[k as int] == t@);
            }
            return true;
        }
        k = k + 1;
    }
    proof {
        assert forall|m: int| 0 <= m < views(v@).len() implies views(v@)[m] != t@ by {
            assert(views(v@)[m] == v@[m]@);
        }
    }
    false
}

/// The ids picked, trimmed, with blank ones and repeats dropped, in the
/// order in which they first occur.
pub fn unique_ids(ids: &[String]) -> (r: Vec<String>)
    ensures
        views(r@) == unique_spec(ids@.map_values(|s: String| s@)),
{
    let ghost vs = ids@.map_values(|s: String| s@);
    let mut uniq: Vec<String> = Vec::new();
    let mut i: usize = 0;
    while i < ids.len()
        invariant
            vs == ids@.map_values(|s: String| s@),
            i <= ids.len(),
            views(uniq@) == unique_spec(vs.take(i as int)),
        decreases ids.len() - i,
    {
        let t = trim(ids[i].as_str());
        proof {
            assert(vs.take(i + 1).drop_last() == vs.take(i as int));
            assert(vs.take(i + 1).last() == ids@[i as int]@);
        }
        if !t.as_str().is_empty() && !contains_text(&uniq, t.as_str()) {
            let ghost before = uniq@;
            uniq.push(t);
            proof {
                assert(views(uniq@) == views(before).push(t@));
            }
        }
        i = i + 1;
    }
    proof {
        assert(vs.take(ids.len() as int) == vs);
    }
    uniq
}

/// What `unique_spec` keeps: ids that are trimmed, not blank and not
/// repeated; each is the trim of an id picked, and the trim of every id
/// picked that is not blank is kept.
pub proof fn lemma_unique_ids_kept(ids: Seq<Seq<char>>)
    ensures
        forall|a: int, b: int|
            0 <= a < b < unique_spec(ids).len() ==> #[trigger] unique_spec(ids)[a]
                != #[trigger] unique_spec(ids)[b],
        forall|a: int|
            0 <= a < unique_spec(ids).len() ==> {
                let t = #[trigger] unique_spec(ids)[a];
                &&& t.len() > 0
                &&& trim_spec(t) == t
                &&& exists|k: int| 0 <= k < ids.len() && trim_spec(ids[k]) == t
            },
        forall|k: int|
            0 <= k < ids.len() && trim_spec(#[trigger] ids[k]).len() > 0 ==> unique_spec(
                ids,
            ).contains(trim_spec(ids[k])),
    decreases ids.len(),
{
    if ids.len() > 0 {
        let rest = ids.drop_last();
        lemma_unique_ids_kept(rest);
        let prev = unique_spec(rest);
        let t = trim_spec(ids.last());
        let (i, j) = crate::text::lemma_trim_shape(ids.last());
        crate::text::lemma_trim_fixed(t);
        let u = unique_spec(ids);
        assert forall|a: int| 0 <= a < u.len() implies {
            let x = #[trigger] u[a];
            &&& x.len() > 0
            &&& trim_spec(x) == x
            &&& exists|k: int| 0 <= k < ids.len() && trim_spec(ids[k]) == x
        } by {
            if a < prev.len() {
                assert(u[a] == prev[a]);
                let k = choose|k: int| 0 <= k < rest.len() && trim_spec(rest[k]) == prev[a];
                assert(ids[k] == rest[k]);
            } else {
                assert(u[a] == t);
                assert(ids[ids.len() - 1] == ids.last());
            }
        }
        assert forall|k: int| 0 <= k < ids.len() && trim_spec(#[trigger] ids[k]).len() > 0 implies u.contains(
            trim_spec(ids[k]),
        ) by {
            if k < rest.len() {
                assert(ids[k] == rest[k]);
                let a = choose|a: int| 0 <= a < prev.len() && prev[a] == trim_spec(rest[k]);
                assert(u[a] == prev[a]);
            } else {
                if t.len() == 0 || prev.contains(t) {
                } else {
                    assert(u[prev.len() as int] == t);
                }
            }
        }
    }
}

/// Picking the ids that `unique_ids` kept gives them back unchanged.
pub proof fn lemma_unique_ids_idempotent(ids: Seq<Seq<char>>)
    ensures
        unique_spec(unique_spec(ids)) == unique_spec(ids),
{
    lemma_unique_ids_kept(ids);
    lemma_unique_fixed(unique_spec(ids));
}

proof fn lemma_unique_fixed(u: Seq<Seq<char>>)
    requires
        forall|a: int, b: int| 0 <= a < b < u.len() ==> #[trigger] u[a] != #[trigger] u[b],
        forall|a: int| 0 <= a < u.len() ==> (#[trigger] u[a]).len() > 0 && trim_spec(u[a]) == u[a],
    ensures
        unique_spec(u) == u,
    decreases u.len(),
{
    if u.len() > 0 {
        let rest = u.drop_last();
        assert forall|a: int, b: int| 0 <= a < b < rest.len() implies #[trigger] rest[a] != #[trigger] rest[b] by {
            assert(rest[a] == u[a] && rest[b] == u[b]);
        }
        assert forall|a: int| 0 <= a < rest.len() implies (#[trigger] rest[a]).len() > 0 && trim_spec(rest[a])
            == rest[a] by {
            assert(rest[a] == u[a]);
        }
        lemma_unique_fixed(rest);
        let last = u.last();
        assert(u[u.len() - 1] == last);
        assert(!rest.contains(last)) by {
            if rest.contains(last) {
                let a = choose|a: int| 0 <= a < rest.len() && rest[a] == last;
                assert(u[a] == rest[a]);
            }
        }
        assert(rest.push(last) == u);
    }
}

/// What a plain pick does: nothing for no window, focus a single window,
/// gather several into a new tab.
pub enum ApplyPlan {
    Nothing,
    Focus(String),
    Group(Vec<String>),
}

/// Decides what picking `ids` does: nothing when no id is left by
/// `unique_ids`, focusing the window when one is, and moving them all into
/// a new tab otherwise.
pub fn plan_apply(ids: &[String]) -> (r: ApplyPlan)
    ensures
        ({
            let u = unique_spec(ids@.map_values(|s: String| s@));
            &&& u.len() == 0 ==> r is Nothing
            &&& u.len() == 1 ==> (r matches ApplyPlan::Focus(w) && w@ == u[0])
            &&& u.len() > 1 ==> (r matches ApplyPlan::Group(v) && views(v@) == u)
        }),
{
    let uniq = unique_ids(ids);
    if uniq.len() == 0 {
        ApplyPlan::Nothing
    } else if uniq.len() == 1 {
        let w = uniq[0].clone();
        ApplyPlan::Focus(w)
    } else {
        ApplyPlan::Group(uniq)
    }
}

/// `focus-window` on the window `win_id`.
pub open spec fn focus_window_spec(win_id: Seq<char>) -> Seq<Seq<char>> {
    seq!["focus-window"@, "--match"@, id_match(win_id)]
}

/// `focus-tab` on the tab `tab_id`.
pub open spec fn focus_tab_spec(tab_id: Seq<char>) -> Seq<Seq<char>> {
    seq!["focus-tab"@, "--match"@, id_match(tab_id)]
}

/// `focus-tab` on the tab that was active before the current one.
pub open spec fn focus_previous_tab_spec() -> Seq<Seq<char>> {
    seq!["focus-tab"@, "--match"@, "recent:1"@]
}

fn push_str(out: &mut Vec<String>, s: &str)
    ensures
        views(final(out)@) == views(old(out)@).push(s@),
{
    out.push(s.to_owned());
    proof {
        assert(views(out@) == views(old(out)@).push(s@));
    }
}

fn three(a: &str, b: &str, c: &str) -> (r: Vec<String>)
    ensures
        views(r@) == seq![a@, b@, c@],
{
    let mut r: Vec<String> = Vec::new();
    push_str(&mut r, a);
    push_str(&mut r, b);
    push_str(&mut r, c);
    r
}

/// The request that focuses the window `win_id`; none for an empty id.
pub fn focus_window_args(win_id: &str) -> (r: Option<Vec<String>>)
    ensures
        win_id@.len() == 0 ==> r is None,
        win_id@.len() > 0 ==> (r matches Some(v) && views(v@) == focus_window_spec(win_id@)),
{
    if win_id.is_empty() {
        return None;
    }
    let m = match_id(win_id);
    Some(three("focus-window", "--match", m.as_str()))
}

/// The request that focuses the tab `tab_id`; none for an empty id.
pub fn focus_tab_args(tab_id: &str) -> (r: Option<Vec<String>>)
    ensures
        tab_id@.len() == 0 ==> r is None,
        tab_id@.len() > 0 ==> (r matches Some(v) && views(v@) == focus_tab_spec(tab_id@)),
{
    if tab_id.is_empty() {
        return None;
    }
    let m = match_id(tab_id);
    Some(three("focus-tab", "--match", m.as_str()))
}

/// The request that focuses the tab active before the current one.
pub fn focus_previous_tab_args() -> (r: Vec<String>)
    ensures
        views(r@) == focus_previous_tab_spec(),
{
    three("focus-tab", "--match", "recent:1")
}

/// `detach-window` of the window `win_id` into the tab `target_tab` (a
/// match expression, or `new`), staying in the current tab when asked, at
/// the split `location` when one is given.
pub open spec fn detach_spec(
    win_id: Seq<char>,
    stay_in_tab: bool,
    target_tab: Seq<char>,
    location: Option<Seq<char>>,
) -> Seq<Seq<char>> {
    seq!["detach-window"@, "--match"@, id_match(win_id)] + (if stay_in_tab {
        seq!["--stay-in-tab"@]
    } else {
        Seq::empty()
    }) + seq!["--target-tab"@, target_tab] + match location {
        Some(l) => seq!["--location"@, l],
        None => Seq::empty(),
    }
}

/// The `detach-window` request (see `detach_spec`).
pub fn detach_args(win_id: &str, stay_in_tab: bool, target_tab: &str, location: Option<&str>) -> (r:
    Vec<String>)
    ensures
        views(r@) == detach_spec(
            win_id@,
            stay_in_tab,
            target_tab@,
            match location {
                Some(l) => Some(l@),
                None => None,
            },
        ),
{
    let m = match_id(win_id);
    let mut r = three("detach-window", "--match", m.as_str());
    if stay_in_tab {
        push_str(&mut r, "--stay-in-tab");
    }
    push_str(&mut r, "--target-tab");
    push_str(&mut r, target_tab);
    match location {
        Some(l) => {
            push_str(&mut r, "--location");
            push_str(&mut r, l);
        },
        None => {},
    }
    r
}

/// The text views of a list of requests.
pub open spec fn request_views(v: Seq<Vec<String>>) -> Seq<Seq<Seq<char>>> {
    v.map_values(|c: Vec<String>| views(c@))
}

fn push_request(out: &mut Vec<Vec<String>>, req: Vec<String>)
    ensures
        request_views(final(out)@) == request_views(old(out)@).push(views(req@)),
{
    let ghost v = views(req@);
    out.push(req);
    proof {
        assert(request_views(out@) == request_views(old(out)@).push(v));
    }
}

fn push_optional(out: &mut Vec<Vec<String>>, req: Option<Vec<String>>)
    ensures
        request_views(final(out)@) == match req {
            Some(v) => request_views(old(out)@).push(views(v@)),
            None => request_views(old(out)@),
        },
{
    match req {
        Some(v) => push_request(out, v),
        None => {},
    }
}

/// One `detach-window` request per window of `ids[from..]`, each into the
/// tab `target_tab`.
pub open spec fn detach_all_spec(
    ids: Seq<Seq<char>>,
    from: int,
    stay_in_tab: bool,
    target_tab: Seq<char>,
    location: Option<Seq<char>>,
) -> Seq<Seq<Seq<char>>> {
    Seq::new(
        (ids.len() - from) as nat,
        |k: int| detach_spec(ids[from + k], stay_in_tab, target_tab, location),
    )
}

fn push_detaches(
    out: &mut Vec<Vec<String>>,
    ids: &Vec<String>,
    from: usize,
    stay_in_tab: bool,
    target_tab: &str,
    location: Option<&str>,
)
    requires
        from <= ids.len(),
    ensures
        request_views(final(out)@) == request_views(old(out)@) + detach_all_spec(
            views(ids@),
            from as int,
            stay_in_tab,
            target_tab@,
            match location {
                Some(l) => Some(l@),
                None => None,
            },
        ),
{
    let ghost start = request_views(out@);
    let ghost loc = match location {
        Some(l) => Some(l@),
        None => None,
    };
    let mut i = from;
    while i < ids.len()
        invariant
            from <= i <= ids.len(),
            loc == match location {
                Some(l) => Some(l@),
                None => None,
            },
            request_views(out@) == start + detach_all_spec(views(ids@), from as int, stay_in_tab, target_tab@, loc).take(
                i - from,
            ),
        decreases ids.len() - i,
    {
        let req = detach_args(ids[i].as_str(), stay_in_tab, target_tab, location);
        push_request(out, req);
        proof {
            let all = detach_all_spec(views(ids@), from as int, stay_in_tab, target_tab@, loc);
            assert(all.take(i + 1 - from) == all.take(i - from).push(all[i - from]));
            assert(views(ids@)[i as int] == ids@[i as int]@);
        }
        i = i + 1;
    }
    proof {
        let all = detach_all_spec(views(ids@), from as int, stay_in_tab, target_tab@, loc);
        assert(all.take(ids.len() - from) == all);
    }
}

/// What follows once the first picked window has been moved into a new tab
/// `tab_id`: the other windows move into that tab, then either the new tab
/// gets the focus or, when it should not, the tab `return_tab` (when
/// given), else the previous tab.
pub open spec fn move_rest_spec(
    ids: Seq<Seq<char>>,
    tab_id: Seq<char>,
    focus_new_tab: bool,
    return_tab: Option<Seq<char>>,
) -> Seq<Seq<Seq<char>>> {
    detach_all_spec(ids, 1, !focus_new_tab, id_match(tab_id), None) + if focus_new_tab {
        seq![focus_tab_spec(tab_id)]
    } else {
        match return_tab {
            Some(t) => if t.len() > 0 {
                seq![focus_tab_spec(t)]
            } else {
                Seq::empty()
            },
            None => seq![focus_previous_tab_spec()],
        }
    }
}

/// The request that moves the first picked window into a new tab (staying
/// in the current tab unless the new tab is to get the focus); none when
/// nothing was picked.
pub fn move_selected_first(ids: &Vec<String>, focus_new_tab: bool) -> (r: Option<Vec<String>>)
    ensures
        ids@.len() == 0 ==> r is None,
        ids@.len() > 0 ==> (r matches Some(v) && views(v@) == detach_spec(
            ids@[0]@,
            !focus_new_tab,
            "new"@,
            None,
        )),
{
    if ids.len() == 0 {
        return None;
    }
    Some(detach_args(ids[0].as_str(), !focus_new_tab, "new", None))
}

/// The requests that finish moving the picked windows once the first one
/// is in its new tab `tab_id` (see `move_rest_spec`).
pub fn move_selected_rest(
    ids: &Vec<String>,
    tab_id: &str,
    focus_new_tab: bool,
    return_tab: Option<&str>,
) -> (r: Vec<Vec<String>>)
    requires
        ids@.len() > 0,
    ensures
        request_views(r@) == move_rest_spec(
            views(ids@),
            tab_id@,
            focus_new_tab,
            match return_tab {
                Some(t) => Some(t@),
                None => None,
            },
        ),
{
    let mut r: Vec<Vec<String>> = Vec::new();
    let target = match_id(tab_id);
    push_detaches(&mut r, ids, 1, !focus_new_tab, target.as_str(), None);
    if focus_new_tab {
        push_request(&mut r, three("focus-tab", "--match", target.as_str()));
    } else {
        match return_tab {
            Some(t) => push_optional(&mut r, focus_tab_args(t)),
            None => push_request(&mut r, focus_previous_tab_args()),
        }
    }
    r
}

/// Moving the picked windows into the background tab `bg_tab_id`: each
/// moves there while the current tab stays, then the tab the selector was
/// opened from (`origin_tab`, when given and not empty) gets the focus,
/// else the previous tab.
pub open spec fn background_spec(
    ids: Seq<Seq<char>>,
    bg_tab_id: Seq<char>,
    origin_tab: Option<Seq<char>>,
) -> Seq<Seq<Seq<char>>> {
    detach_all_spec(ids, 0, true, id_match(bg_tab_id), None) + match origin_tab {
        Some(t) => if t.len() > 0 {
            seq![focus_tab_spec(t)]
        } else {
            seq![focus_previous_tab_spec()]
        },
        None => seq![focus_previous_tab_spec()],
    }
}

/// The requests that move the picked windows into the background tab
/// (see `background_spec`).
pub fn background_commands(ids: &Vec<String>, bg_tab_id: &str, origin_tab: Option<&str>) -> (r: Vec<
    Vec<String>,
>)
    ensures
        request_views(r@) == background_spec(
            views(ids@),
            bg_tab_id@,
            match origin_tab {
                Some(t) => Some(t@),
                None => None,
            },
        ),
{
    let mut r: Vec<Vec<String>> = Vec::new();
    let target = match_id(bg_tab_id);
    push_detaches(&mut r, ids, 0, true, target.as_str(), None);
    match origin_tab {
        Some(t) => {
            if !t.is_empty() {
                push_optional(&mut r, focus_tab_args(t));
            } else {
                push_request(&mut r, focus_previous_tab_args());
            }
        },
        None => push_request(&mut r, focus_previous_tab_args()),
    }
    r
}

/// Moving the picked windows as splits into the tab `tab_id`: that tab gets
/// the focus first (when its id is not empty), each window moves there at
/// the split `location`, then the first window gets the focus (when its id
/// is not empty).
pub open spec fn split_spec(ids: Seq<Seq<char>>, tab_id: Seq<char>, location: Seq<char>) -> Seq<
    Seq<Seq<char>>,
> {
    (if tab_id.len() > 0 {
        seq![focus_tab_spec(tab_id)]
    } else {
        Seq::empty()
    }) + detach_all_spec(ids, 0, false, id_match(tab_id), Some(location)) + (if ids[0].len() > 0 {
        seq![focus_window_spec(ids[0])]
    } else {
        Seq::empty()
    })
}

/// The requests that move the picked windows as splits into a tab (see
/// `split_spec`).
pub fn split_commands(ids: &Vec<String>, tab_id: &str, location: &str) -> (r: Vec<Vec<String>>)
    requires
        ids@.len() > 0,
    ensures
        request_views(r@) == split_spec(views(ids@), tab_id@, location@),
{
    let mut r: Vec<Vec<String>> = Vec::new();
    push_optional(&mut r, focus_tab_args(tab_id));
    let target = match_id(tab_id);
    push_detaches(&mut r, ids, 0, false, target.as_str(), Some(location));
    push_optional(&mut r, focus_window_args(ids[0].as_str()));
    proof {
        assert(views(ids@)[0] == ids@[0]@);
    }
    r
}

/// The part of the clipboard text for one window: a `# window <id>` line,
/// then its last command's output without trailing white space; none when
/// there is no output or it is blank.
pub open spec fn yank_part(wid: Seq<char>, output: Option<Seq<char>>) -> Option<Seq<char>> {
    match output {
        Some(text) => if trim_spec(text).len() > 0 {
            Some("# window "@ + wid + "\n"@ + trim_end_spec(text))
        } else {
            None
        },
        None => None,
    }
}

/// The parts for the first `n` windows.
pub open spec fn yank_parts(outputs: Seq<(String, Option<String>)>, n: int) -> Seq<Seq<char>>
    decreases n,
{
    if n <= 0 {
        Seq::empty()
    } else {
        let prev = yank_parts(outputs, n - 1);
        let o = outputs[n - 1];
        match yank_part(
            o.0@,
            match o.1 {
                Some(t) => Some(t@),
                None => None,
            },
        ) {
            Some(p) => prev.push(p),
            None => prev,
        }
    }
}

/// The clipboard text for the outputs of the picked windows: the parts,
/// separated by empty lines; none when no window has a part.
pub open spec fn yank_spec(outputs: Seq<(String, Option<String>)>) -> Option<Seq<char>> {
    let parts = yank_parts(outputs, outputs.len() as int);
    if parts.len() == 0 {
        None
    } else {
        Some(join_spec(parts, "\n\n"@))
    }
}

/// The text copied to the clipboard for the picked windows, from the
/// (window id, last command output) of each (see `yank_spec`).
pub fn yank_payload(outputs: &Vec<(String, Option<String>)>) -> (r: Option<String>)
    ensures
        match yank_spec(outputs@) {
            Some(t) => r matches Some(s) && s@ == t,
            None => r is None,
        },
{
    let mut parts: Vec<String> = Vec::new();
    let mut i: usize = 0;
    while i < outputs.len()
        invariant
            i <= outputs.len(),
            views(parts@) == yank_parts(outputs@, i as int),
        decreases outputs.len() - i,
    {
        let (wid, out) = (&outputs[i].0, &outputs[i].1);
        match out {
            Some(text) => {
                let t = trim(text.as_str());
                if !t.as_str().is_empty() {
                    let mut part = "# window ".to_owned();
                    part.append(wid.as_str());
                    part.append("\n");
                    let tail = trim_end(text.as_str());
                    part.append(tail.as_str());
                    let ghost before = parts@;
                    parts.push(part);
                    proof {
                        assert(views(parts@) == views(before).push(part@));
                    }
                }
            },
            None => {},
        }
        i = i + 1;
    }
    if parts.len() == 0 {
        None
    } else {
        Some(join(&parts, "\n\n"))
    }
}

/// Where focus returns after a pick: the tab that was active before the
/// selector's own tab, or a known tab, or nowhere known.
pub enum OriginTab {
    /// The selector runs in its own tab: return to the tab active before it.
    Recent,
    /// Return to this tab.
    Tab(String),
    /// The selector's tab is not known.
    Unknown,
}

/// The tab of the window the selector runs in (`self_id`): when that tab is
/// titled `winsel` (ASCII case ignored) focus should return to the tab
/// active before it; otherwise to that tab, when it is known.
pub open spec fn origin_tab_spec(data: KittyData, self_id: Option<Seq<char>>) -> Option<Option<Seq<char>>> {
    let current = match self_id {
        Some(id) => tab_id_for_window_spec(data, id),
        None => None,
    };
    let title = match current {
        Some(t) => tab_title_spec(data, t),
        None => None,
    };
    match title {
        Some(t) => if eq_ignore_ascii_case_spec(t, "winsel"@) {
            None
        } else {
            Some(current)
        },
        None => Some(current),
    }
}

/// Decides where focus returns after a pick (see `origin_tab_spec`, where
/// `None` stands for `Recent`).
pub fn origin_tab(data: &KittyData, self_id: Option<&str>) -> (r: OriginTab)
    ensures
        match origin_tab_spec(
            *data,
            match self_id {
                Some(s) => Some(s@),
                None => None,
            },
        ) {
            None => r is Recent,
            Some(None) => r is Unknown,
            Some(Some(t)) => r matches OriginTab::Tab(s) && s@ == t,
        },
{
    let current = match self_id {
        Some(id) => find_tab_id_for_window(data, id),
        None => None,
    };
    let title = match &current {
        Some(t) => find_tab_title(data, t.as_str()),
        None => None,
    };
    match title {
        Some(t) => {
            if eq_ignore_ascii_case(t.as_str(), "winsel") {
                return OriginTab::Recent;
            }
        },
        None => {},
    }
    match current {
        Some(t) => OriginTab::Tab(t),
        None => OriginTab::Unknown,
    }
}

/// Milliseconds to wait before the next try: `step_ms` times the number of
/// tries so far.
pub fn backoff_ms(step_ms: u64, attempt: u64) -> (r: u64)
    requires
        attempt < u64::MAX,
        step_ms * (attempt + 1) <= u64::MAX,
    ensures
        r == step_ms * (attempt + 1),
{
    step_ms * (attempt + 1)
}

/// Told when no window is left to offer.
pub const NO_ROWS_NOTICE: &'static str = "WINSEL: no other windows";

/// Told when fzf cannot be run.
pub const NO_FZF_NOTICE: &'static str = "WINSEL: fzf not found";

/// Told when no tab is known to split the picked windows into.
pub const NO_SPLIT_TARGET_NOTICE: &'static str = "WINSEL: no target tab for split move";

/// Told when none of the picked windows has output to copy.
pub const NOTHING_TO_YANK_NOTICE: &'static str = "WINSEL: nothing to yank";

/// Told once the output was copied.
pub const YANKED_NOTICE: &'static str = "WINSEL: yanked to clipboard";

/// What to tell before anything is offered: that no window is left, when
/// there are no rows; nothing otherwise, and the rows are offered.
pub fn rows_notice(row_count: usize) -> (r: Option<&'static str>)
    ensures
        row_count == 0 ==> r == Some(NO_ROWS_NOTICE),
        row_count > 0 ==> r is None,
{
    if row_count == 0 {
        Some(NO_ROWS_NOTICE)
    } else {
        None
    }
}

/// How many times a tab is looked up, at most, while kitty catches up.
pub const POLL_ATTEMPTS: u64 = 5;

/// The wait before the next lookup of the background tab grows by this
/// many milliseconds with each try.
pub const BG_TAB_POLL_STEP_MS: u64 = 30;

/// The wait before the next lookup of a window's new tab grows by this many
/// milliseconds with each try.
pub const NEW_TAB_POLL_STEP_MS: u64 = 20;

/// What to do after a lookup while waiting for kitty to show a tab.
pub enum PollAction {
    /// The tab was found.
    Found(String),
    /// Wait this many milliseconds, then look again.
    Retry(u64),
    /// Wait this many milliseconds, then give up.
    GiveUp(u64),
}

/// The next step of a wait for a tab, after lookup number `attempt`
/// (counted from zero) found `found`: done when it found the tab;
/// otherwise a wait of `step_ms` times the number of lookups so far, then
/// another lookup, or giving up once `POLL_ATTEMPTS` lookups have failed.
pub fn poll_step(found: Option<String>, attempt: u64, step_ms: u64) -> (r: PollAction)
    requires
        attempt < POLL_ATTEMPTS,
        step_ms * POLL_ATTEMPTS <= u64::MAX,
    ensures
        match found {
            Some(id) => r matches PollAction::Found(t) && t@ == id@,
            None => if attempt + 1 < POLL_ATTEMPTS {
                r matches PollAction::Retry(ms) && ms == step_ms * (attempt + 1)
            } else {
                r matches PollAction::GiveUp(ms) && ms == step_ms * (attempt + 1)
            },
        },
{
    match found {
        Some(id) => PollAction::Found(id),
        None => {
            proof {
                assert(step_ms * (attempt + 1) <= step_ms * POLL_ATTEMPTS) by (nonlinear_arith)
                    requires
                        attempt + 1 <= POLL_ATTEMPTS,
                ;
            }
            let ms = backoff_ms(step_ms, attempt);
            if attempt + 1 < POLL_ATTEMPTS {
                PollAction::Retry(ms)
            } else {
                PollAction::GiveUp(ms)
            }
        },
    }
}

/// Where to split the picked windows into, or what to find out first.
pub enum SplitTarget {
    /// Split into this tab.
    Use(String),
    /// Look up the tab that was active this many tab switches ago.
    LookUpRecent(usize),
    /// No tab is known.
    NoTarget,
}

/// A tab id that was given and is not empty.
pub open spec fn given_tab(tab: Option<&str>) -> Option<Seq<char>> {
    match tab {
        Some(t) => if t@.len() > 0 {
            Some(t@)
        } else {
            None
        },
        None => None,
    }
}

/// The next step in choosing the tab to split into: the tab the selector
/// was opened from (`origin`, when given and not empty); else, in turn,
/// the tab active one switch ago, then the current tab, each looked up
/// once (`recent` holds what the lookups found so far, in that order);
/// no tab when neither is found.
pub fn split_target_step(origin: Option<&str>, recent: &Vec<Option<String>>) -> (r: SplitTarget)
    ensures
        given_tab(origin) matches Some(o) ==> (r matches SplitTarget::Use(t) && t@ == o),
        given_tab(origin) is None ==> {
            &&& recent@.len() == 0 ==> (r matches SplitTarget::LookUpRecent(1))
            &&& recent@.len() > 0 && recent@[0] is Some ==> (r matches SplitTarget::Use(t) && t@
                == recent@[0]->0@)
            &&& recent@.len() == 1 && recent@[0] is None ==> (r matches SplitTarget::LookUpRecent(0))
            &&& recent@.len() > 1 && recent@[0] is None && recent@[1] is Some ==> (r matches SplitTarget::Use(
                t,
            ) && t@ == recent@[1]->0@)
            &&& recent@.len() > 1 && recent@[0] is None && recent@[1] is None ==> (r is NoTarget)
        },
{
    match origin {
        Some(o) => {
            if !o.is_empty() {
                return SplitTarget::Use(o.to_owned());
            }
        },
        None => {},
    }
    if recent.len() == 0 {
        return SplitTarget::LookUpRecent(1);
    }
    match &recent[0] {
        Some(t) => {
            return SplitTarget::Use(t.clone());
        },
        None => {},
    }
    if recent.len() == 1 {
        return SplitTarget::LookUpRecent(0);
    }
    match &recent[1] {
        Some(t) => SplitTarget::Use(t.clone()),
        None => SplitTarget::NoTarget,
    }
}

/// The background move sends each picked window, in order, to the
/// background tab while the current tab stays, then one request puts the
/// focus back: on the tab the selector was opened from when it is given
/// and not empty, else on the previous tab.
pub proof fn lemma_background_moves_each(ids: Seq<Seq<char>>, bg_tab_id: Seq<char>, origin_tab: Option<Seq<char>>)
    ensures
        ({
            let r = background_spec(ids, bg_tab_id, origin_tab);
            &&& r.len() == ids.len() + 1
            &&& forall|k: int|
                0 <= k < ids.len() ==> #[trigger] r[k] == seq![
                    "detach-window"@,
                    "--match"@,
                    "id:"@ + ids[k],
                    "--stay-in-tab"@,
                    "--target-tab"@,
                    "id:"@ + bg_tab_id,
                ]
            &&& r[ids.len() as int] == match origin_tab {
                Some(t) => if t.len() > 0 {
                    seq!["focus-tab"@, "--match"@, "id:"@ + t]
                } else {
                    seq!["focus-tab"@, "--match"@, "recent:1"@]
                },
                None => seq!["focus-tab"@, "--match"@, "recent:1"@],
            }
        }),
{
    let r = background_spec(ids, bg_tab_id, origin_tab);
    let d = detach_all_spec(ids, 0, true, id_match(bg_tab_id), None);
    assert forall|k: int| 0 <= k < ids.len() implies #[trigger] r[k] == seq![
        "detach-window"@,
        "--match"@,
        "id:"@ + ids[k],
        "--stay-in-tab"@,
        "--target-tab"@,
        "id:"@ + bg_tab_id,
    ] by {
        assert(r[k] == d[k]);
        assert(d[k] =~= seq![
            "detach-window"@,
            "--match"@,
            "id:"@ + ids[k],
            "--stay-in-tab"@,
            "--target-tab"@,
            "id:"@ + bg_tab_id,
        ]);
    }
}

/// The split move first focuses the target tab (when its id is not
/// empty), then sends each picked window, in order, into that tab at the
/// split `location`, then focuses the first picked window (when its id is
/// not empty).
pub proof fn lemma_split_moves_each(ids: Seq<Seq<char>>, tab_id: Seq<char>, location: Seq<char>)
    requires
        ids.len() > 0,
    ensures
        ({
            let r = split_spec(ids, tab_id, location);
            let lead: int = if tab_id.len() > 0 { 1 } else { 0 };
            &&& r.len() == lead + ids.len() + (if ids[0].len() > 0 { 1int } else { 0 })
            &&& tab_id.len() > 0 ==> r[0] == seq!["focus-tab"@, "--match"@, "id:"@ + tab_id]
            &&& forall|k: int|
                0 <= k < ids.len() ==> #[trigger] r[lead + k] == seq![
                    "detach-window"@,
                    "--match"@,
                    "id:"@ + ids[k],
                    "--target-tab"@,
                    "id:"@ + tab_id,
                    "--location"@,
                    location,
                ]
            &&& ids[0].len() > 0 ==> r.last() == seq!["focus-window"@, "--match"@, "id:"@ + ids[0]]
        }),
{
    let r = split_spec(ids, tab_id, location);
    let lead: int = if tab_id.len() > 0 { 1 } else { 0 };
    let d = detach_all_spec(ids, 0, false, id_match(tab_id), Some(location));
    assert forall|k: int| 0 <= k < ids.len() implies #[trigger] r[lead + k] == seq![
        "detach-window"@,
        "--match"@,
        "id:"@ + ids[k],
        "--target-tab"@,
        "id:"@ + tab_id,
        "--location"@,
        location,
    ] by {
        assert(r[lead + k] == d[k]);
        assert(d[k] =~= seq![
            "detach-window"@,
            "--match"@,
            "id:"@ + ids[k],
            "--target-tab"@,
            "id:"@ + tab_id,
            "--location"@,
            location,
        ]);
    }
}

/// Once the first picked window is in its new tab `tab_id`, each other
/// picked window, in order, moves into that tab (staying in the current
/// tab unless the new tab is to get the focus), then the focus goes to the
/// new tab, or else to the tab `return_tab` (when given and not empty;
/// nothing when given empty), or else to the previous tab.
pub proof fn lemma_move_rest_moves_each(
    ids: Seq<Seq<char>>,
    tab_id: Seq<char>,
    focus_new_tab: bool,
    return_tab: Option<Seq<char>>,
)
    requires
        ids.len() > 0,
    ensures
        ({
            let r = move_rest_spec(ids, tab_id, focus_new_tab, return_tab);
            let focus: Seq<Seq<Seq<char>>> = if focus_new_tab {
                seq![seq!["focus-tab"@, "--match"@, "id:"@ + tab_id]]
            } else {
                match return_tab {
                    Some(t) => if t.len() > 0 {
                        seq![seq!["focus-tab"@, "--match"@, "id:"@ + t]]
                    } else {
                        Seq::empty()
                    },
                    None => seq![seq!["focus-tab"@, "--match"@, "recent:1"@]],
                }
            };
            &&& r.len() == ids.len() - 1 + focus.len()
            &&& forall|k: int|
                1 <= k < ids.len() ==> #[trigger] r[k - 1] == seq!["detach-window"@, "--match"@, "id:"@ + ids[k]]
                    + (if focus_new_tab { Seq::empty() } else { seq!["--stay-in-tab"@] }) + seq![
                    "--target-tab"@,
                    "id:"@ + tab_id,
                ]
            &&& r.subrange(ids.len() - 1, r.len() as int) == focus
        }),
{
    let r = move_rest_spec(ids, tab_id, focus_new_tab, return_tab);
    let d = detach_all_spec(ids, 1, !focus_new_tab, id_match(tab_id), None);
    assert forall|k: int| 1 <= k < ids.len() implies #[trigger] r[k - 1] == seq![
        "detach-window"@,
        "--match"@,
        "id:"@ + ids[k],
    ] + (if focus_new_tab { Seq::empty() } else { seq!["--stay-in-tab"@] }) + seq![
        "--target-tab"@,
        "id:"@ + tab_id,
    ] by {
        assert(r[k - 1] == d[k - 1]);
        assert(d[k - 1] =~= seq!["detach-window"@, "--match"@, "id:"@ + ids[k]] + (if focus_new_tab {
            Seq::empty()
        } else {
            seq!["--stay-in-tab"@]
        }) + seq!["--target-tab"@, "id:"@ + tab_id]);
    }
    let focus: Seq<Seq<Seq<char>>> = if focus_new_tab {
        seq![seq!["focus-tab"@, "--match"@, "id:"@ + tab_id]]
    } else {
        match return_tab {
            Some(t) => if t.len() > 0 {
                seq![seq!["focus-tab"@, "--match"@, "id:"@ + t]]
            } else {
                Seq::empty()
            },
            None => seq![seq!["focus-tab"@, "--match"@, "recent:1"@]],
        }
    };
    assert(r.subrange(ids.len() - 1, r.len() as int) =~= focus);
}

/// The clipboard part for a window's output: present exactly when the
/// output holds a character that is not white space, and then the line
/// `# window <id>`, a newline, and the output up to where its trailing
/// white space begins (leading white space kept).
pub proof fn lemma_yank_part_keeps_the_output(wid: Seq<char>, text: Seq<char>)
    ensures
        yank_part(wid, Some(text)) is Some <==> exists|k: int| 0 <= k < text.len() && !is_space(#[trigger] text[k]),
        yank_part(wid, Some(text)) matches Some(p) ==> exists|j: int|
            {
                &&& 0 < j <= text.len()
                &&& !is_space(text[j - 1])
                &&& forall|m: int| j <= m < text.len() ==> is_space(#[trigger] text[m])
                &&& p == "# window "@ + wid + "\n"@ + #[trigger] text.take(j)
            },
        yank_part(wid, None) is None,
{
    let j = lemma_trim_end_shape(text);
    let i = lemma_trim_start_shape(text);
    let t = text.subrange(i, text.len() as int);
    let jj = lemma_trim_end_shape(t);
    if exists|k: int| 0 <= k < text.len() && !is_space(#[trigger] text[k]) {
        let k = choose|k: int| 0 <= k < text.len() && !is_space(#[trigger] text[k]);
        assert(k >= i);
        assert(t[k - i] == text[k]);
        assert(jj > k - i);
        assert(trim_spec(text).len() > 0);
        assert(j > 0) by {
            if j == 0 {
                assert(is_space(text[k]));
            }
        }
        assert(text.subrange(0, j) == text.take(j));
    } else {
        assert(trim_spec(text).len() == 0) by {
            if jj > 0 {
                assert(t[jj - 1] == text[i + jj - 1]);
                assert(!is_space(text[i + jj - 1]));
            }
        }
    }
}

} // verus!
