//! Classification of a query from the distances of the training points to it.
use vstd::prelude::*;
use crate::neighbors::{is_nearest, nearest_indices};
use crate::vote::{is_vote, label_views, majority_label, option_view};

verus! {

/// One training point as seen from a query: the dimension of its feature
/// vector, its distance to the query as an order-preserving key, and its label.
pub struct ScoredPoint {
    pub dimension: usize,
    pub distance: u64,
    pub label: String,
}

/// Why a query could not be classified.
#[derive(Debug, PartialEq, Eq)]
pub enum KnnError {
    /// The training point at `index` has `found` features where the query has
    /// `expected`.
    DimensionMismatch { index: usize, expected: usize, found: usize },
}

/// The labels of the points that `r` selects, in the order of `r`.
pub open spec fn neighbor_labels(labs: Seq<Seq<char>>, r: Seq<usize>) -> Seq<Seq<char>> {
    r.map_values(|i: usize| labs[i as int])
}

/// `p` is the k-nearest-neighbour prediction for training points at distances
/// `d` with labels `labs`: the vote over the labels of the nearest `k` points.
pub open spec fn is_prediction(
    d: Seq<u64>,
    labs: Seq<Seq<char>>,
    k: int,
    p: Option<Seq<char>>,
) -> bool {
    exists|r: Seq<usize>| #[trigger] is_nearest(d, k, r) && is_vote(neighbor_labels(labs, r), p)
}

pub open spec fn distances_of(points: Seq<ScoredPoint>) -> Seq<u64> {
    points.map_values(|p: ScoredPoint| p.distance)
}

pub open spec fn labels_of(points: Seq<ScoredPoint>) -> Seq<Seq<char>> {
    points.map_values(|p: ScoredPoint| p.label@)
}

/// Every training point has `dim` features.
pub open spec fn dimensions_match(points: Seq<ScoredPoint>, dim: usize) -> bool {
    forall|j: int| 0 <= j < points.len() ==> (#[trigger] points[j]).dimension == dim
}

/// Majority label among the `k` training points nearest to the query, given
/// each point's distance and label; `None` when no point is selected.
pub fn predict(distances: &Vec<u64>, labels: &Vec<String>, k: usize) -> (r: Option<String>)
    requires
        distances.len() == labels.len(),
    ensures
        is_prediction(distances@, label_views(labels@), k as int, option_view(r)),
{
    let nearest = nearest_indices(distances, k);
    let ghost labs = label_views(labels@);
    let mut chosen: Vec<String> = Vec::new();
    let mut a: usize = 0;
    while a < nearest.len()
        invariant
            is_nearest(distances@, k as int, nearest@),
            distances.len() == labels.len(),
            labs == label_views(labels@),
            a <= nearest.len(),
            chosen.len() == a,
            label_views(chosen@) =~= neighbor_labels(labs, nearest@.subrange(0, a as int)),
        decreases nearest.len() - a,
    {
        let t = nearest[a];
        assert(t < labels.len());
        let x = labels[t].clone();
        assert(x@ == labs[t as int]);
        let ghost prev = chosen@;
        chosen.push(x);
        a = a + 1;
        assert forall|i: int| 0 <= i < a implies label_views(chosen@)[i] == neighbor_labels(
            labs,
            nearest@.subrange(0, a as int),
        )[i] by {
            if i < a - 1 {
                assert(chosen@[i] == prev[i]);
                assert(label_views(prev)[i] == neighbor_labels(
                    labs,
                    nearest@.subrange(0, a - 1),
                )[i]);
            }
        }
        assert(label_views(chosen@) =~= neighbor_labels(labs, nearest@.subrange(0, a as int)));
    }
    assert(nearest@.subrange(0, a as int) =~= nearest@);
    let r = majority_label(&chosen);
    assert(is_nearest(distances@, k as int, nearest@) && is_vote(
        neighbor_labels(labs, nearest@),
        option_view(r),
    ));
    r
}

/// Classifies a query with `query_dimension` features by majority vote among
/// the `k` nearest training points. Fails on the first training point whose
/// dimension differs from the query's; otherwise the prediction is `None`
/// exactly when no point is selected (`k == 0` or no training points).
pub fn classify_scored(query_dimension: usize, points: &Vec<ScoredPoint>, k: usize) -> (r: Result<
    Option<String>,
    KnnError,
>)
    ensures
        match r {
            Ok(p) => dimensions_match(points@, query_dimension) && is_prediction(
                distances_of(points@),
                labels_of(points@),
                k as int,
                option_view(p),
            ),
            Err(KnnError::DimensionMismatch { index, expected, found }) => {
                &&& index < points.len()
                &&& expected == query_dimension
                &&& found == points@[index as int].dimension
                &&& found != expected
                &&& dimensions_match(points@.subrange(0, index as int), query_dimension)
            },
        },
{
    let mut distances: Vec<u64> = Vec::new();
    let mut labels: Vec<String> = Vec::new();
    let mut j: usize = 0;
    while j < points.len()
        invariant
            j <= points.len(),
            labels.len() == j,
            dimensions_match(points@.subrange(0, j as int), query_dimension),
            distances@ =~= distances_of(points@.subrange(0, j as int)),
            label_views(labels@) =~= labels_of(points@.subrange(0, j as int)),
        decreases points.len() - j,
    {
        let p = &points[j];
        if p.dimension != query_dimension {
            return Err(
                KnnError::DimensionMismatch {
                    index: j,
                    expected: query_dimension,
                    found: p.dimension,
                },
            );
        }
        distances.push(p.distance);
        let x = p.label.clone();
        assert(x@ == p.label@);
        let ghost prev = labels@;
        labels.push(x);
        j = j + 1;
        assert forall|i: int| 0 <= i < j implies label_views(labels@)[i] == labels_of(
            points@.subrange(0, j as int),
        )[i] by {
            if i < j - 1 {
                assert(labels@[i] == prev[i]);
                assert(label_views(prev)[i] == labels_of(points@.subrange(0, j - 1))[i]);
            }
        }
        assert(distances@ =~= distances_of(points@.subrange(0, j as int)));
        assert(label_views(labels@) =~= labels_of(points@.subrange(0, j as int)));
        assert(dimensions_match(points@.subrange(0, j as int), query_dimension)) by {
            assert forall|t: int| 0 <= t < j implies (#[trigger] points@.subrange(
                0,
                j as int,
            )[t]).dimension == query_dimension by {
                if t < j - 1 {
                    assert(points@.subrange(0, j - 1)[t] == points@.subrange(0, j as int)[t]);
                }
            }
        }
    }
    assert(points@.subrange(0, j as int) =~= points@);
    Ok(predict(&distances, &labels, k))
}

} // verus!
