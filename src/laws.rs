//! Properties of k-nearest-neighbour predictions.
use vstd::prelude::*;
use vstd::set_lib::{lemma_int_range, lemma_len_subset, set_int_range};
use crate::classify::{is_prediction, neighbor_labels};
use crate::neighbors::{comes_after_all, is_nearest, lemma_nearest_unique, precedes, selects};
use crate::vote::{count, is_vote, is_winner, lemma_count_prefix, lemma_winner_unique};

verus! {

/// With `k == 0` no neighbour is selected and there is no prediction.
pub proof fn lemma_no_neighbors_no_prediction(d: Seq<u64>, labs: Seq<Seq<char>>, p: Option<Seq<char>>)
    requires
        is_prediction(d, labs, 0, p),
    ensures
        p is None,
{
    let r = choose|r: Seq<usize>| #[trigger] is_nearest(d, 0, r) && is_vote(neighbor_labels(labs, r), p);
    assert(neighbor_labels(labs, r).len() == 0);
}

/// An empty training set gives no prediction, whatever `k` is.
pub proof fn lemma_empty_training_no_prediction(d: Seq<u64>, labs: Seq<Seq<char>>, k: int, p: Option<Seq<char>>)
    requires
        d.len() == 0,
        is_prediction(d, labs, k, p),
    ensures
        p is None,
{
    let r = choose|r: Seq<usize>| #[trigger] is_nearest(d, k, r) && is_vote(neighbor_labels(labs, r), p);
    assert(neighbor_labels(labs, r).len() == 0);
}

/// Classifying twice with the same training points, query distances and `k`
/// gives the same prediction.
pub proof fn lemma_prediction_deterministic(
    d: Seq<u64>,
    labs: Seq<Seq<char>>,
    k: int,
    first: Option<Seq<char>>,
    second: Option<Seq<char>>,
)
    requires
        is_prediction(d, labs, k, first),
        is_prediction(d, labs, k, second),
    ensures
        first == second,
{
    let r1 = choose|r: Seq<usize>| #[trigger] is_nearest(d, k, r) && is_vote(neighbor_labels(labs, r), first);
    let r2 = choose|r: Seq<usize>| #[trigger] is_nearest(d, k, r) && is_vote(neighbor_labels(labs, r), second);
    lemma_nearest_unique(d, k, r1, r2);
    let s = neighbor_labels(labs, r1);
    match first {
        None => {},
        Some(label) => {
            let w1 = choose|w: int| is_winner(s, w) && s[w] == label;
            let other = second->Some_0;
            let w2 = choose|w: int| is_winner(s, w) && s[w] == other;
            lemma_winner_unique(s, w1, w2);
        },
    }
}

/// With `k == 1` the prediction is the label of the nearest training point;
/// among equally near points the first one in training order is nearest.
pub proof fn lemma_single_neighbor(d: Seq<u64>, labs: Seq<Seq<char>>, p: Option<Seq<char>>)
    requires
        d.len() == labs.len(),
        d.len() > 0,
        is_prediction(d, labs, 1, p),
    ensures
        exists|j: int|
            0 <= j < d.len() && p == Some(labs[j]) && (forall|i: int|
                0 <= i < d.len() && i != j ==> precedes(d, j, i)),
{
    let r = choose|r: Seq<usize>| #[trigger] is_nearest(d, 1, r) && is_vote(neighbor_labels(labs, r), p);
    let s = neighbor_labels(labs, r);
    let j = r[0] as int;
    assert(s.len() == 1);
    let w = choose|w: int| is_winner(s, w) && s[w] == p->Some_0;
    assert(w == 0);
    assert forall|i: int| 0 <= i < d.len() && i != j implies precedes(d, j, i) by {
        if selects(r, i) {
            let a = choose|a: int| 0 <= a < r.len() && r[a] as int == i;
            assert(a == 0);
        } else {
            assert(comes_after_all(d, r, i));
        }
    }
}

/// When `k` is at least the number of training points, the prediction is a
/// label that no other label of the training set outnumbers.
pub proof fn lemma_all_neighbors_majority(
    d: Seq<u64>,
    labs: Seq<Seq<char>>,
    k: int,
    p: Option<Seq<char>>,
)
    requires
        d.len() == labs.len(),
        d.len() > 0,
        k >= d.len(),
        is_prediction(d, labs, k, p),
    ensures
        p matches Some(l) && labs.contains(l) && forall|i: int|
            0 <= i < labs.len() ==> count(labs, #[trigger] labs[i]) <= count(labs, l),
{
    let n = d.len() as int;
    let r = choose|r: Seq<usize>| #[trigger] is_nearest(d, k, r) && is_vote(neighbor_labels(labs, r), p);
    let s = neighbor_labels(labs, r);
    lemma_nearest_no_duplicates(d, k, r);
    lemma_nearest_all(d, k, r);
    assert(s.len() == n);
    let l = p->Some_0;
    let w = choose|w: int| is_winner(s, w) && s[w] == l;
    assert(labs[r[w] as int] == l);
    assert forall|m: Seq<char>| count(s, m) == count(labs, m) by {
        lemma_count_selected(labs, r, m, n);
        lemma_count_selected_all(labs, r, m, n);
        assert(labs.subrange(0, n) =~= labs);
    }
    assert forall|i: int| 0 <= i < labs.len() implies count(labs, #[trigger] labs[i]) <= count(labs, l) by {
        assert(selects(r, i));
        let a = choose|a: int| 0 <= a < r.len() && r[a] as int == i;
        assert(s[a] == labs[i]);
    }
}

proof fn lemma_nearest_no_duplicates(d: Seq<u64>, k: int, r: Seq<usize>)
    requires
        is_nearest(d, k, r),
    ensures
        r.no_duplicates(),
{
    assert forall|a: int, b: int| 0 <= a < r.len() && 0 <= b < r.len() && a != b implies r[a] != r[b] by {
        if a < b {
            assert(precedes(d, r[a] as int, r[b] as int));
        } else {
            assert(precedes(d, r[b] as int, r[a] as int));
        }
    }
}

/// When every point is selected, each index appears in the selection.
proof fn lemma_nearest_all(d: Seq<u64>, k: int, r: Seq<usize>)
    requires
        is_nearest(d, k, r),
        k >= d.len(),
        r.no_duplicates(),
    ensures
        forall|j: int| 0 <= j < d.len() ==> #[trigger] selects(r, j),
{
    let n = d.len() as int;
    assert forall|j: int| 0 <= j < d.len() implies #[trigger] selects(r, j) by {
        if !selects(r, j) {
            let ri = r.map_values(|x: usize| x as int);
            assert(ri.no_duplicates()) by {
                assert forall|a: int, b: int| 0 <= a < ri.len() && 0 <= b < ri.len() && a != b implies ri[a] != ri[b] by {
                    assert(r[a] != r[b]);
                }
            }
            ri.unique_seq_to_set();
            lemma_int_range(0, n);
            let others = set_int_range(0, n).remove(j);
            assert(ri.to_set().subset_of(others)) by {
                assert forall|x: int| ri.to_set().contains(x) implies others.contains(x) by {
                    let a = choose|a: int| 0 <= a < ri.len() && ri[a] == x;
                    assert(r[a] as int != j);
                }
            }
            lemma_len_subset(ri.to_set(), others);
        }
    }
}

/// Number of indices below `n` that `r` selects and whose label is `l`.
spec fn count_selected(labs: Seq<Seq<char>>, r: Seq<usize>, l: Seq<char>, n: int) -> nat
    decreases n,
{
    if n <= 0 {
        0
    } else {
        count_selected(labs, r, l, n - 1) + if selects(r, n - 1) && labs[n - 1] == l {
            1nat
        } else {
            0nat
        }
    }
}

proof fn lemma_count_selected_drop(labs: Seq<Seq<char>>, r: Seq<usize>, l: Seq<char>, n: int)
    requires
        r.len() > 0,
        r.no_duplicates(),
        0 <= n,
    ensures
        count_selected(labs, r, l, n) == count_selected(labs, r.drop_last(), l, n) + if r.last()
            < n && labs[r.last() as int] == l {
            1nat
        } else {
            0nat
        },
    decreases n,
{
    if n > 0 {
        lemma_count_selected_drop(labs, r, l, n - 1);
        let x = n - 1;
        if selects(r, x) && x != r.last() {
            let a = choose|a: int| 0 <= a < r.len() && r[a] as int == x;
            assert(r.drop_last()[a] as int == x);
        }
        if selects(r.drop_last(), x) {
            let a = choose|a: int| 0 <= a < r.len() - 1 && r.drop_last()[a] as int == x;
            assert(r[a] as int == x);
            assert(x != r.last());
        }
        if x == r.last() {
            assert(r[r.len() - 1] as int == x);
        }
    }
}

proof fn lemma_count_selected(labs: Seq<Seq<char>>, r: Seq<usize>, l: Seq<char>, n: int)
    requires
        r.no_duplicates(),
        labs.len() == n,
        forall|a: int| 0 <= a < r.len() ==> r[a] < n,
    ensures
        count(neighbor_labels(labs, r), l) == count_selected(labs, r, l, n),
    decreases r.len(),
{
    if r.len() == 0 {
        lemma_count_selected_none(labs, r, l, n);
    } else {
        let rest = r.drop_last();
        assert(rest.no_duplicates());
        lemma_count_selected(labs, rest, l, n);
        lemma_count_selected_drop(labs, r, l, n);
        assert(neighbor_labels(labs, r).drop_last() =~= neighbor_labels(labs, rest));
    }
}

proof fn lemma_count_selected_none(labs: Seq<Seq<char>>, r: Seq<usize>, l: Seq<char>, n: int)
    requires
        r.len() == 0,
    ensures
        count_selected(labs, r, l, n) == 0,
    decreases n,
{
    if n > 0 {
        lemma_count_selected_none(labs, r, l, n - 1);
    }
}

proof fn lemma_count_selected_all(labs: Seq<Seq<char>>, r: Seq<usize>, l: Seq<char>, n: int)
    requires
        0 <= n <= labs.len(),
        forall|j: int| 0 <= j < n ==> #[trigger] selects(r, j),
    ensures
        count_selected(labs, r, l, n) == count(labs.subrange(0, n), l),
    decreases n,
{
    if n > 0 {
        lemma_count_selected_all(labs, r, l, n - 1);
        lemma_count_prefix(labs, n - 1, l);
        assert(selects(r, n - 1));
    }
}

} // verus!
