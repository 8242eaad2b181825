//! Stable ordering of rows by a rank of five integers.

use vstd::prelude::*;

verus! {

/// A rank: rows with smaller ranks, compared component by component, come
/// first.
pub type Rank = (i64, i64, i64, i64, i64);

/// Lexicographic order on ranks.
pub open spec fn rank_lt(a: Rank, b: Rank) -> bool {
    ||| a.0 < b.0
    ||| a.0 == b.0 && a.1 < b.1
    ||| a.0 == b.0 && a.1 == b.1 && a.2 < b.2
    ||| a.0 == b.0 && a.1 == b.1 && a.2 == b.2 && a.3 < b.3
    ||| a.0 == b.0 && a.1 == b.1 && a.2 == b.2 && a.3 == b.3 && a.4 < b.4
}

/// Whether the `j`-th entry comes before the `i`-th one in a stable order:
/// by rank, and by place in the input between equal ranks.
pub open spec fn goes_before(ranks: Seq<Rank>, j: int, i: int) -> bool {
    rank_lt(ranks[j], ranks[i]) || (ranks[j] == ranks[i] && j < i)
}

/// How many of the first `m` entries come before the `i`-th one.
pub open spec fn count_before(ranks: Seq<Rank>, i: int, m: int) -> nat
    decreases m,
{
    if m <= 0 {
        0
    } else if goes_before(ranks, m - 1, i) {
        count_before(ranks, i, m - 1) + 1
    } else {
        count_before(ranks, i, m - 1)
    }
}

/// Where the `i`-th entry stands once the entries are stably sorted by
/// rank: the number of entries that come before it.
pub open spec fn sorted_position(ranks: Seq<Rank>, i: int) -> nat {
    count_before(ranks, i, ranks.len() as int)
}

proof fn lemma_count_bound(ranks: Seq<Rank>, i: int, m: int)
    requires
        0 <= m <= ranks.len(),
        0 <= i < ranks.len(),
    ensures
        count_before(ranks, i, m) <= m,
        i < m ==> count_before(ranks, i, m) < m,
    decreases m,
{
    if m > 0 {
        lemma_count_bound(ranks, i, m - 1);
    }
}

proof fn lemma_count_monotone(ranks: Seq<Rank>, i: int, k: int, m: int)
    requires
        0 <= m <= ranks.len(),
        0 <= i < ranks.len(),
        0 <= k < ranks.len(),
        goes_before(ranks, i, k),
    ensures
        count_before(ranks, i, m) <= count_before(ranks, k, m),
        i < m ==> count_before(ranks, i, m) < count_before(ranks, k, m),
    decreases m,
{
    if m > 0 {
        lemma_count_monotone(ranks, i, k, m - 1);
    }
}

/// Distinct entries stand at distinct places.
pub proof fn lemma_positions_distinct(ranks: Seq<Rank>, i: int, k: int)
    requires
        0 <= i < ranks.len(),
        0 <= k < ranks.len(),
        i != k,
    ensures
        sorted_position(ranks, i) != sorted_position(ranks, k),
        sorted_position(ranks, i) < ranks.len(),
{
    lemma_count_bound(ranks, i, ranks.len() as int);
    if goes_before(ranks, i, k) {
        lemma_count_monotone(ranks, i, k, ranks.len() as int);
    } else {
        assert(goes_before(ranks, k, i));
        lemma_count_monotone(ranks, k, i, ranks.len() as int);
    }
}

fn rank_less(a: Rank, b: Rank) -> (r: bool)
    ensures
        r == rank_lt(a, b),
{
    a.0 < b.0 || (a.0 == b.0 && a.1 < b.1) || (a.0 == b.0 && a.1 == b.1 && a.2 < b.2) || (a.0 == b.0
        && a.1 == b.1 && a.2 == b.2 && a.3 < b.3) || (a.0 == b.0 && a.1 == b.1 && a.2 == b.2 && a.3
        == b.3 && a.4 < b.4)
}

fn rank_same(a: Rank, b: Rank) -> (r: bool)
    ensures
        r == (a == b),
{
    a.0 == b.0 && a.1 == b.1 && a.2 == b.2 && a.3 == b.3 && a.4 == b.4
}

/// The ranks of the entries.
pub open spec fn ranks_of(entries: Seq<(Rank, String)>) -> Seq<Rank> {
    entries.map_values(|e: (Rank, String)| e.0)
}

/// The texts of `entries`, stably sorted by rank: the `i`-th entry's text
/// lands at its sorted position.
pub fn order_by_rank(entries: &Vec<(Rank, String)>) -> (r: Vec<String>)
    ensures
        r.len() == entries.len(),
        forall|i: int|
            0 <= i < entries.len() ==> r@[sorted_position(ranks_of(entries@), i) as int]@
                == entries@[i].1@,
{
    let ghost ranks = ranks_of(entries@);
    let n = entries.len();
    let mut out: Vec<String> = Vec::new();
    let mut k: usize = 0;
    while k < n
        invariant
            n == entries.len(),
            k <= n,
            out.len() == k,
        decreases n - k,
    {
        out.push(String::new());
        k = k + 1;
    }
    let mut i: usize = 0;
    while i < n
        invariant
            n == entries.len(),
            ranks == ranks_of(entries@),
            out.len() == n,
            i <= n,
            forall|j: int| 0 <= j < i ==> out@[sorted_position(ranks, j) as int]@ == entries@[j].1@,
        decreases n - i,
    {
        let mut count: usize = 0;
        let mut j: usize = 0;
        while j < n
            invariant
                n == entries.len(),
                ranks == ranks_of(entries@),
                i < n,
                j <= n,
                count == count_before(ranks, i as int, j as int),
                count <= j,
            decreases n - j,
        {
            let rj = entries[j].0;
            let ri = entries[i].0;
            proof {
                assert(ranks[j as int] == rj);
                assert(ranks[i as int] == ri);
            }
            if rank_less(rj, ri) || (rank_same(rj, ri) && j < i) {
                count = count + 1;
            }
            j = j + 1;
        }
        proof {
            assert forall|j: int| 0 <= j < i implies sorted_position(ranks, j) != sorted_position(
                ranks,
                i as int,
            ) by {
                lemma_positions_distinct(ranks, j, i as int);
            }
            lemma_count_bound(ranks, i as int, n as int);
            assert(ranks.len() == n);
            assert(count == sorted_position(ranks, i as int));
        }
        let ghost before = out@;
        out.set(count, entries[i].1.clone());
        proof {
            assert forall|j: int| 0 <= j <= i implies out@[sorted_position(ranks, j) as int]@
                == entries@[j].1@ by {
                if j < i {
                    lemma_positions_distinct(ranks, j, i as int);
                    assert(out@[sorted_position(ranks, j) as int] == before[sorted_position(
                        ranks,
                        j,
                    ) as int]);
                }
            }
        }
        i = i + 1;
    }
    out
}

/// An entry that comes before another in the stable order stands at an
/// earlier place: rows come out sorted by rank, and rows of equal rank
/// keep their order.
pub proof fn lemma_sorted_by_rank(ranks: Seq<Rank>, i: int, k: int)
    requires
        0 <= i < ranks.len(),
        0 <= k < ranks.len(),
        goes_before(ranks, i, k),
    ensures
        sorted_position(ranks, i) < sorted_position(ranks, k),
{
    lemma_count_monotone(ranks, i, k, ranks.len() as int);
}

/// Whether some entry is sorted into place `p`.
pub open spec fn place_taken(ranks: Seq<Rank>, p: int) -> bool {
    exists|i: int| 0 <= i < ranks.len() && sorted_position(ranks, i) == p
}

/// Every place is taken by some entry: together with
/// `lemma_positions_distinct`, the sorted positions are a permutation of
/// the places, so each row appears exactly once.
pub proof fn lemma_every_place_taken(ranks: Seq<Rank>, p: int)
    requires
        0 <= p < ranks.len(),
    ensures
        place_taken(ranks, p),
{
    let n = ranks.len() as int;
    let dom = vstd::set_lib::set_int_range(0, n);
    let f = |i: int| sorted_position(ranks, i) as int;
    vstd::set_lib::lemma_int_range(0, n);
    assert(vstd::relations::injective_on(f, dom)) by {
        assert forall|a: int, b: int| dom.contains(a) && dom.contains(b) && #[trigger] f(a) == #[trigger] f(b) implies a == b by {
            if a != b {
                lemma_positions_distinct(ranks, a, b);
            }
        }
    }
    let img = dom.map(f);
    vstd::set_lib::lemma_map_size(dom, img, f);
    assert(img.subset_of(dom)) by {
        assert forall|q: int| img.contains(q) implies dom.contains(q) by {
            let i = choose|i: int| dom.contains(i) && f(i) == q;
            lemma_count_bound(ranks, i, n);
        }
    }
    vstd::set_lib::lemma_subset_equality(img, dom);
    assert(dom.contains(p));
    assert(img.contains(p));
    let i = choose|i: int| dom.contains(i) && f(i) == p;
    assert(0 <= i < n && sorted_position(ranks, i) == p);
}

} // verus!
