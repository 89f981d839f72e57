//! Selection of the `k` training points closest to a query.
use vstd::prelude::*;

verus! {

/// Point `i` comes before point `j`: it is strictly closer, or equally close
/// and earlier in the training set.
pub open spec fn precedes(d: Seq<u64>, i: int, j: int) -> bool {
    d[i] < d[j] || (d[i] == d[j] && i < j)
}

/// `r` lists the `min(k, n)` points that come first, closest first.
pub open spec fn is_nearest(d: Seq<u64>, k: int, r: Seq<usize>) -> bool {
    &&& r.len() == if k < d.len() { k } else { d.len() as int }
    &&& forall|a: int| 0 <= a < r.len() ==> r[a] < d.len()
    &&& forall|a: int, b: int| 0 <= a < b < r.len() ==> precedes(d, r[a] as int, r[b] as int)
    &&& forall|j: int| 0 <= j < d.len() ==> #[trigger] selects(r, j) || comes_after_all(d, r, j)
}

/// Point `j` is listed in `r`.
pub open spec fn selects(r: Seq<usize>, j: int) -> bool {
    exists|a: int| 0 <= a < r.len() && r[a] as int == j
}

/// Every point listed in `r` comes before point `j`.
pub open spec fn comes_after_all(d: Seq<u64>, r: Seq<usize>, j: int) -> bool {
    forall|a: int| 0 <= a < r.len() ==> precedes(d, r[a] as int, j)
}

fn precedes_exec(d: &Vec<u64>, i: usize, j: usize) -> (r: bool)
    requires
        i < d.len(),
        j < d.len(),
    ensures
        r == precedes(d@, i as int, j as int),
{
    d[i] < d[j] || (d[i] == d[j] && i < j)
}

/// Indices of the `k` training points closest to the query, closest first;
/// equal distances keep training order. When `k` exceeds the number of
/// points, every point is returned.
pub fn nearest_indices(distances: &Vec<u64>, k: usize) -> (r: Vec<usize>)
    ensures
        is_nearest(distances@, k as int, r@),
{
    let n = distances.len();
    let ghost d = distances@;
    let mut order: Vec<usize> = Vec::new();
    let mut i: usize = 0;
    while i < n
        invariant
            n == d.len(),
            d == distances@,
            i <= n,
            order.len() == i,
            forall|a: int| 0 <= a < order.len() ==> order[a] < i,
            forall|a: int, b: int|
                0 <= a < b < order.len() ==> precedes(d, order[a] as int, order[b] as int),
            forall|j: int| 0 <= j < i ==> #[trigger] selects(order@, j),
        decreases n - i,
    {
        let mut pos: usize = 0;
        while pos < order.len() && precedes_exec(distances, order[pos], i)
            invariant
                n == d.len(),
                d == distances@,
                i < n,
                order.len() == i,
                pos <= order.len(),
                forall|a: int| 0 <= a < order.len() ==> order[a] < i,
                forall|a: int| 0 <= a < pos ==> precedes(d, order[a] as int, i as int),
            decreases order.len() - pos,
        {
            pos = pos + 1;
        }
        proof {
            assert forall|a: int| pos <= a < order.len() implies precedes(
                d,
                i as int,
                order[a] as int,
            ) by {
                assert(!precedes(d, order[pos as int] as int, i as int));
                if a > pos {
                    assert(precedes(d, order[pos as int] as int, order[a] as int));
                }
            }
        }
        let ghost before = order@;
        order.insert(pos, i);
        proof {
            assert(order@ == before.insert(pos as int, i));
            assert forall|j: int| 0 <= j < i + 1 implies #[trigger] selects(order@, j) by {
                if j == i {
                    assert(order@[pos as int] == i);
                } else {
                    assert(selects(before, j));
                    let t = choose|t: int| 0 <= t < before.len() && before[t] as int == j;
                    if t < pos {
                        assert(order@[t] as int == j);
                    } else {
                        assert(order@[t + 1] as int == j);
                    }
                }
            }
        }
        i = i + 1;
    }
    let m = if k < n {
        k
    } else {
        n
    };
    let ghost full = order@;
    order.truncate(m);
    proof {
        assert(order@ == full.subrange(0, m as int));
        assert forall|j: int| 0 <= j < n implies #[trigger] selects(order@, j) || comes_after_all(
            d,
            order@,
            j,
        ) by {
            assert(selects(full, j));
            let t = choose|t: int| 0 <= t < full.len() && full[t] as int == j;
            if t < m {
                assert(order@[t] as int == j);
            }
        }
    }
    order
}

/// At most one sequence of indices lists the nearest `k` points.
pub proof fn lemma_nearest_unique(d: Seq<u64>, k: int, r1: Seq<usize>, r2: Seq<usize>)
    requires
        is_nearest(d, k, r1),
        is_nearest(d, k, r2),
    ensures
        r1 == r2,
{
    assert forall|i: int| 0 <= i < r1.len() implies r1[i] == r2[i] by {
        lemma_nearest_agree_upto(d, k, r1, r2, i);
    }
    assert(r1 =~= r2);
}

proof fn lemma_nearest_agree_upto(d: Seq<u64>, k: int, r1: Seq<usize>, r2: Seq<usize>, i: int)
    requires
        is_nearest(d, k, r1),
        is_nearest(d, k, r2),
        0 <= i < r1.len(),
    ensures
        forall|j: int| 0 <= j <= i ==> r1[j] == r2[j],
    decreases i,
{
    if i > 0 {
        lemma_nearest_agree_upto(d, k, r1, r2, i - 1);
    }
    lemma_first_difference(d, k, r1, r2, i);
    lemma_first_difference(d, k, r2, r1, i);
}

proof fn lemma_first_difference(d: Seq<u64>, k: int, r1: Seq<usize>, r2: Seq<usize>, i: int)
    requires
        is_nearest(d, k, r1),
        is_nearest(d, k, r2),
        0 <= i < r1.len(),
        forall|j: int| 0 <= j < i ==> r1[j] == r2[j],
    ensures
        !precedes(d, r1[i] as int, r2[i] as int),
{
    let x = r1[i];
    let y = r2[i];
    if precedes(d, x as int, y as int) {
        if selects(r2, x as int) {
            let p = choose|p: int| 0 <= p < r2.len() && r2[p] as int == x as int;
            if p < i {
                assert(r1[p] == x);
                assert(precedes(d, r1[p] as int, r1[i] as int));
            } else if p > i {
                assert(precedes(d, r2[i] as int, r2[p] as int));
            }
        } else {
            assert(comes_after_all(d, r2, x as int));
            assert(precedes(d, r2[i] as int, x as int));
        }
    }
}

} // verus!
