//! What the order of the rows means in terms of the window tree: which
//! window's row comes before which.

use vstd::prelude::*;
use crate::display::{
    first_index, has_window, listed_spec, os_entries, row_at, row_entries, rows_in_rank_order, tab_entries,
    window_at, window_entries, window_rank,
};
use crate::kitty_api::KittyData;
use crate::order::{lemma_sorted_by_rank, sorted_position, Rank};

verus! {

/// Where a window stands in the tree: OS window, tab, place in the tab.
pub type Place = (int, int, int);

/// The places of the listed windows among the first `n` windows of tab `t`
/// of OS window `o`, in order.
pub open spec fn window_places(data: KittyData, o: int, t: int, n: int, self_id: Option<Seq<char>>) -> Seq<Place>
    decreases n,
{
    if n <= 0 {
        Seq::empty()
    } else if listed_spec(window_at(data, o, t, n - 1), self_id) {
        window_places(data, o, t, n - 1, self_id).push((o, t, n - 1))
    } else {
        window_places(data, o, t, n - 1, self_id)
    }
}

/// The places of the listed windows of the first `n` tabs of OS window `o`.
pub open spec fn tab_places(data: KittyData, o: int, n: int, self_id: Option<Seq<char>>) -> Seq<Place>
    decreases n,
{
    if n <= 0 {
        Seq::empty()
    } else {
        tab_places(data, o, n - 1, self_id) + window_places(
            data,
            o,
            n - 1,
            data.0@[o].tabs@[n - 1].windows@.len() as int,
            self_id,
        )
    }
}

/// The places of the listed windows of the first `n` OS windows.
pub open spec fn os_places(data: KittyData, n: int, self_id: Option<Seq<char>>) -> Seq<Place>
    decreases n,
{
    if n <= 0 {
        Seq::empty()
    } else {
        os_places(data, n - 1, self_id) + tab_places(data, n - 1, data.0@[n - 1].tabs@.len() as int, self_id)
    }
}

/// The places of all listed windows, in the order kitty lists them: the
/// `i`-th of them is the window of the `i`-th row before sorting.
pub open spec fn listed_places(data: KittyData, self_id: Option<Seq<char>>) -> Seq<Place> {
    os_places(data, data.0@.len() as int, self_id)
}

/// The entry (rank and row) of the window at place `c`.
pub open spec fn entry_at(data: KittyData, c: Place, home: Option<Seq<char>>, texts: Seq<(i64, String)>) -> (
    Rank,
    Seq<char>,
) {
    (
        window_rank(data.0@[c.0], data.0@[c.0].tabs@[c.1], window_at(data, c.0, c.1, c.2)),
        row_at(data, c.0, c.1, c.2, home, texts),
    )
}

proof fn lemma_window_places(
    data: KittyData,
    o: int,
    t: int,
    n: int,
    self_id: Option<Seq<char>>,
    home: Option<Seq<char>>,
    texts: Seq<(i64, String)>,
)
    requires
        0 <= o < data.0@.len(),
        0 <= t < data.0@[o].tabs@.len(),
        0 <= n <= data.0@[o].tabs@[t].windows@.len(),
    ensures
        ({
            let c = window_places(data, o, t, n, self_id);
            let e = window_entries(data.0@[o], data.0@[o].tabs@[t], n, self_id, home, texts);
            &&& c.len() == e.len()
            &&& forall|i: int|
                0 <= i < c.len() ==> {
                    &&& (#[trigger] c[i]).0 == o
                    &&& c[i].1 == t
                    &&& has_window(data, c[i].0, c[i].1, c[i].2)
                    &&& listed_spec(window_at(data, c[i].0, c[i].1, c[i].2), self_id)
                    &&& e[i] == entry_at(data, c[i], home, texts)
                }
        }),
    decreases n,
{
    if n > 0 {
        lemma_window_places(data, o, t, n - 1, self_id, home, texts);
        assert(window_at(data, o, t, n - 1) == data.0@[o].tabs@[t].windows@[n - 1]);
    }
}

proof fn lemma_tab_places(
    data: KittyData,
    o: int,
    n: int,
    self_id: Option<Seq<char>>,
    home: Option<Seq<char>>,
    texts: Seq<(i64, String)>,
)
    requires
        0 <= o < data.0@.len(),
        0 <= n <= data.0@[o].tabs@.len(),
    ensures
        ({
            let c = tab_places(data, o, n, self_id);
            let e = tab_entries(data.0@[o], n, self_id, home, texts);
            &&& c.len() == e.len()
            &&& forall|i: int|
                0 <= i < c.len() ==> {
                    &&& (#[trigger] c[i]).0 == o
                    &&& has_window(data, c[i].0, c[i].1, c[i].2)
                    &&& listed_spec(window_at(data, c[i].0, c[i].1, c[i].2), self_id)
                    &&& e[i] == entry_at(data, c[i], home, texts)
                }
        }),
    decreases n,
{
    if n > 0 {
        lemma_tab_places(data, o, n - 1, self_id, home, texts);
        let len = data.0@[o].tabs@[n - 1].windows@.len() as int;
        lemma_window_places(data, o, n - 1, len, self_id, home, texts);
        let ca = tab_places(data, o, n - 1, self_id);
        let cb = window_places(data, o, n - 1, len, self_id);
        let ea = tab_entries(data.0@[o], n - 1, self_id, home, texts);
        let eb = window_entries(data.0@[o], data.0@[o].tabs@[n - 1], len, self_id, home, texts);
        let c = tab_places(data, o, n, self_id);
        let e = tab_entries(data.0@[o], n, self_id, home, texts);
        assert(c == ca + cb);
        assert(e == ea + eb);
        assert forall|i: int| 0 <= i < c.len() implies {
            &&& (#[trigger] c[i]).0 == o
            &&& has_window(data, c[i].0, c[i].1, c[i].2)
            &&& listed_spec(window_at(data, c[i].0, c[i].1, c[i].2), self_id)
            &&& e[i] == entry_at(data, c[i], home, texts)
        } by {
            if i < ca.len() {
                assert(c[i] == ca[i]);
                assert(e[i] == ea[i]);
            } else {
                assert(c[i] == cb[i - ca.len()]);
                assert(e[i] == eb[i - ca.len()]);
            }
        }
    }
}

proof fn lemma_os_places(
    data: KittyData,
    n: int,
    self_id: Option<Seq<char>>,
    home: Option<Seq<char>>,
    texts: Seq<(i64, String)>,
)
    requires
        0 <= n <= data.0@.len(),
    ensures
        ({
            let c = os_places(data, n, self_id);
            let e = os_entries(data.0@, n, self_id, home, texts);
            &&& c.len() == e.len()
            &&& forall|i: int|
                0 <= i < c.len() ==> {
                    &&& has_window(data, (#[trigger] c[i]).0, c[i].1, c[i].2)
                    &&& listed_spec(window_at(data, c[i].0, c[i].1, c[i].2), self_id)
                    &&& e[i] == entry_at(data, c[i], home, texts)
                }
        }),
    decreases n,
{
    if n > 0 {
        lemma_os_places(data, n - 1, self_id, home, texts);
        let len = data.0@[n - 1].tabs@.len() as int;
        lemma_tab_places(data, n - 1, len, self_id, home, texts);
        let ca = os_places(data, n - 1, self_id);
        let cb = tab_places(data, n - 1, len, self_id);
        let ea = os_entries(data.0@, n - 1, self_id, home, texts);
        let eb = tab_entries(data.0@[n - 1], len, self_id, home, texts);
        let c = os_places(data, n, self_id);
        let e = os_entries(data.0@, n, self_id, home, texts);
        assert(c == ca + cb);
        assert(e == ea + eb);
        assert forall|i: int| 0 <= i < c.len() implies {
            &&& has_window(data, (#[trigger] c[i]).0, c[i].1, c[i].2)
            &&& listed_spec(window_at(data, c[i].0, c[i].1, c[i].2), self_id)
            &&& e[i] == entry_at(data, c[i], home, texts)
        } by {
            if i < ca.len() {
                assert(c[i] == ca[i]);
                assert(e[i] == ea[i]);
            } else {
                assert(c[i] == cb[i - ca.len()]);
                assert(e[i] == eb[i - ca.len()]);
            }
        }
    }
}

/// The `i`-th entry before sorting is the rank and row of the `i`-th listed
/// window, which is a window of the tree that is listed.
pub proof fn lemma_entries_at_places(
    data: KittyData,
    self_id: Option<Seq<char>>,
    home: Option<Seq<char>>,
    texts: Seq<(i64, String)>,
)
    ensures
        listed_places(data, self_id).len() == row_entries(data, self_id, home, texts).len(),
        forall|i: int|
            0 <= i < listed_places(data, self_id).len() ==> {
                let c = #[trigger] listed_places(data, self_id)[i];
                &&& has_window(data, c.0, c.1, c.2)
                &&& listed_spec(window_at(data, c.0, c.1, c.2), self_id)
                &&& row_entries(data, self_id, home, texts)[i] == entry_at(data, c, home, texts)
            },
{
    lemma_os_places(data, data.0@.len() as int, self_id, home, texts);
}

/// Whether the OS window at `o` has or last had the focus.
pub open spec fn os_in_front(data: KittyData, o: int) -> bool {
    data.0@[o].is_focused || data.0@[o].last_focused
}

/// Whether tab `t` of OS window `o` is active or focused.
pub open spec fn tab_in_front(data: KittyData, o: int, t: int) -> bool {
    data.0@[o].tabs@[t].is_active || data.0@[o].tabs@[t].is_focused
}

/// Whether the window at `a` is put before the window at `b`, by the
/// first of these that tells them apart: a focused window before an
/// unfocused one; then a window of an OS window that has or last had the
/// focus before one of another OS window; then a window of an active or
/// focused tab before one of another tab; then, in one tab, a window that
/// was active more recently (its id comes earlier in the tab's history of
/// active windows) before the other; then, in one tab and outside its
/// history, the newer window before the older.
pub open spec fn put_before(data: KittyData, a: Place, b: Place) -> bool {
    let wa = window_at(data, a.0, a.1, a.2);
    let wb = window_at(data, b.0, b.1, b.2);
    let hist = data.0@[a.0].tabs@[a.1].active_window_history@;
    let same_flags = wa.is_focused == wb.is_focused && os_in_front(data, a.0) == os_in_front(data, b.0)
        && tab_in_front(data, a.0, a.1) == tab_in_front(data, b.0, b.1);
    let same_tab = a.0 == b.0 && a.1 == b.1;
    ||| wa.is_focused && !wb.is_focused
    ||| wa.is_focused == wb.is_focused && os_in_front(data, a.0) && !os_in_front(data, b.0)
    ||| wa.is_focused == wb.is_focused && os_in_front(data, a.0) == os_in_front(data, b.0) && tab_in_front(
        data,
        a.0,
        a.1,
    ) && !tab_in_front(data, b.0, b.1)
    ||| same_flags && same_tab && exists|k: int|
        0 <= k < hist.len() && hist[k] == wa.id && forall|m: int| 0 <= m <= k ==> #[trigger] hist[m] != wb.id
    ||| same_flags && same_tab && (forall|m: int| 0 <= m < hist.len() ==> #[trigger] hist[m] != wa.id && hist[m]
        != wb.id) && wa.created_at > wb.created_at
}

proof fn lemma_first_index_found(h: Seq<i64>, id: i64, k: int)
    requires
        0 <= k < h.len(),
        h[k] == id,
    ensures
        first_index(h, id) matches Some(f) && f <= k,
    decreases h.len(),
{
    if h[0] != id {
        assert(h.drop_first()[k - 1] == id);
        lemma_first_index_found(h.drop_first(), id, k - 1);
    }
}

proof fn lemma_first_index_absent(h: Seq<i64>, id: i64, k: int)
    requires
        0 <= k <= h.len(),
        forall|m: int| 0 <= m < k ==> h[m] != id,
    ensures
        first_index(h, id) matches Some(f) ==> f >= k,
        first_index(h, id) matches Some(f) ==> f < h.len(),
    decreases h.len(),
{
    if h.len() > 0 && h[0] != id {
        assert forall|m: int| 0 <= m < k - 1 implies h.drop_first()[m] != id by {
            assert(h.drop_first()[m] == h[m + 1]);
        }
        if k > 0 {
            lemma_first_index_absent(h.drop_first(), id, k - 1);
        } else {
            lemma_first_index_absent(h.drop_first(), id, 0);
        }
    }
}

/// Whether the rank of the window at `c` holds its parts without wrapping:
/// its creation time has a negation and its tab's history is shorter than
/// `i64::MAX`.
pub open spec fn rank_fits(data: KittyData, c: Place) -> bool {
    &&& window_at(data, c.0, c.1, c.2).created_at != i64::MIN
    &&& data.0@[c.0].tabs@[c.1].active_window_history@.len() < i64::MAX
}

/// The rows are ordered by the window tree: when the `i`-th listed window
/// is put before the `j`-th (see `put_before`), its row comes first.
pub proof fn lemma_rows_follow_windows(
    data: KittyData,
    self_id: Option<Seq<char>>,
    home: Option<Seq<char>>,
    texts: Seq<(i64, String)>,
    rows: Seq<String>,
    i: int,
    j: int,
)
    requires
        rows_in_rank_order(rows, row_entries(data, self_id, home, texts)),
        0 <= i < listed_places(data, self_id).len(),
        0 <= j < listed_places(data, self_id).len(),
        put_before(data, listed_places(data, self_id)[i], listed_places(data, self_id)[j]),
        rank_fits(data, listed_places(data, self_id)[i]),
        rank_fits(data, listed_places(data, self_id)[j]),
    ensures
        ({
            let a = listed_places(data, self_id)[i];
            let b = listed_places(data, self_id)[j];
            let e = row_entries(data, self_id, home, texts);
            let ranks = e.map_values(|x: (Rank, Seq<char>)| x.0);
            &&& sorted_position(ranks, i) < sorted_position(ranks, j)
            &&& rows[sorted_position(ranks, i) as int]@ == row_at(data, a.0, a.1, a.2, home, texts)
            &&& rows[sorted_position(ranks, j) as int]@ == row_at(data, b.0, b.1, b.2, home, texts)
        }),
{
    lemma_entries_at_places(data, self_id, home, texts);
    let cs = listed_places(data, self_id);
    let a = cs[i];
    let b = cs[j];
    let e = row_entries(data, self_id, home, texts);
    let ranks = e.map_values(|x: (Rank, Seq<char>)| x.0);
    let wa = window_at(data, a.0, a.1, a.2);
    let wb = window_at(data, b.0, b.1, b.2);
    let ra = ranks[i];
    let rb = ranks[j];
    assert(ra == window_rank(data.0@[a.0], data.0@[a.0].tabs@[a.1], wa));
    assert(rb == window_rank(data.0@[b.0], data.0@[b.0].tabs@[b.1], wb));
    let hist = data.0@[a.0].tabs@[a.1].active_window_history@;
    if exists|k: int|
        0 <= k < hist.len() && hist[k] == wa.id && forall|m: int| 0 <= m <= k ==> #[trigger] hist[m] != wb.id {
        let k = choose|k: int|
            0 <= k < hist.len() && hist[k] == wa.id && forall|m: int| 0 <= m <= k ==> #[trigger] hist[m] != wb.id;
        lemma_first_index_found(hist, wa.id, k);
        lemma_first_index_absent(hist, wb.id, k + 1);
    }
    if forall|m: int| 0 <= m < hist.len() ==> #[trigger] hist[m] != wa.id && hist[m] != wb.id {
        lemma_first_index_absent(hist, wa.id, hist.len() as int);
        lemma_first_index_absent(hist, wb.id, hist.len() as int);
    }
    assert(crate::order::rank_lt(ra, rb));
    lemma_sorted_by_rank(ranks, i, j);
}

} // verus!
