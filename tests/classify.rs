use knn::classify::{classify_scored, predict, KnnError, ScoredPoint};
use knn::neighbors::nearest_indices;
use knn::vote::majority_label;

fn euclidean(a: &[f64], b: &[f64]) -> f64 {
    a.iter().zip(b.iter()).map(|(x, y)| (x - y) * (x - y)).sum::<f64>().sqrt()
}

fn scored(features: &[f64], query: &[f64], label: &str) -> ScoredPoint {
    ScoredPoint {
        dimension: features.len(),
        distance: euclidean(features, query).to_bits(),
        label: label.to_string(),
    }
}

fn sample(query: &[f64]) -> Vec<ScoredPoint> {
    vec![
        scored(&[2.0, 3.0], query, "A"),
        scored(&[5.0, 8.0], query, "B"),
        scored(&[1.0, 1.0], query, "A"),
    ]
}

fn strings(v: &[&str]) -> Vec<String> {
    v.iter().map(|s| s.to_string()).collect()
}

#[test]
fn two_nearest_of_sample_vote_a() {
    let query = [3.0, 4.0];
    let points = sample(&query);
    let d: Vec<u64> = points.iter().map(|p| p.distance).collect();
    assert_eq!(nearest_indices(&d, 2), vec![0, 2]);
    assert_eq!(classify_scored(2, &points, 2), Ok(Some("A".to_string())));
}

#[test]
fn query_on_training_point_predicts_its_label() {
    let query = [5.0, 8.0];
    let points = sample(&query);
    assert_eq!(points[1].distance, 0.0f64.to_bits());
    assert_eq!(classify_scored(2, &points, 1), Ok(Some("B".to_string())));
}

#[test]
fn empty_training_set_gives_no_prediction() {
    let points: Vec<ScoredPoint> = Vec::new();
    assert_eq!(classify_scored(2, &points, 1), Ok(None));
    assert_eq!(classify_scored(0, &points, 5), Ok(None));
}

#[test]
fn k_zero_gives_no_prediction() {
    let query = [3.0, 4.0];
    assert_eq!(classify_scored(2, &sample(&query), 0), Ok(None));
}

#[test]
fn dimension_mismatch_is_reported() {
    let query = [3.0, 4.0];
    let mut points = sample(&query);
    points.push(scored(&[1.0, 2.0, 3.0], &query, "B"));
    assert_eq!(
        classify_scored(2, &points, 1),
        Err(KnnError::DimensionMismatch { index: 3, expected: 2, found: 3 })
    );
    let three = [3.0, 4.0, 5.0];
    assert_eq!(
        classify_scored(3, &sample(&three), 0),
        Err(KnnError::DimensionMismatch { index: 0, expected: 3, found: 2 })
    );
}

#[test]
fn k_beyond_training_size_uses_all_points() {
    let query = [5.0, 8.0];
    let points = sample(&query);
    let d: Vec<u64> = points.iter().map(|p| p.distance).collect();
    assert_eq!(nearest_indices(&d, 10), vec![1, 0, 2]);
    // "B" is nearest, but "A" holds two of the three votes.
    assert_eq!(classify_scored(2, &points, 10), Ok(Some("A".to_string())));
    assert_eq!(classify_scored(2, &points, 3), Ok(Some("A".to_string())));
}

#[test]
fn classifying_twice_gives_same_result() {
    let query = [3.0, 4.0];
    let points = sample(&query);
    let first = classify_scored(2, &points, 2);
    let second = classify_scored(2, &points, 2);
    assert_eq!(first, second);
}

#[test]
fn equal_distances_keep_training_order() {
    let d: Vec<u64> = vec![5, 3, 5, 3, 1];
    assert_eq!(nearest_indices(&d, 5), vec![4, 1, 3, 0, 2]);
    assert_eq!(nearest_indices(&d, 2), vec![4, 1]);
    assert_eq!(nearest_indices(&d, 0), Vec::<usize>::new());
    assert_eq!(nearest_indices(&Vec::new(), 3), Vec::<usize>::new());
}

#[test]
fn single_neighbor_tie_goes_to_first_point() {
    let d: Vec<u64> = vec![7, 2, 2];
    let labels = strings(&["x", "y", "z"]);
    assert_eq!(predict(&d, &labels, 1), Some("y".to_string()));
}

#[test]
fn vote_tie_goes_to_nearest_label() {
    assert_eq!(majority_label(&strings(&["b", "a", "a", "b"])), Some("b".to_string()));
    assert_eq!(majority_label(&strings(&["c", "a", "b", "a"])), Some("a".to_string()));
    assert_eq!(majority_label(&strings(&[])), None);
    assert_eq!(majority_label(&strings(&["solo"])), Some("solo".to_string()));
}

#[test]
fn vote_tie_between_neighbors_follows_distance() {
    // The two nearest labels have one vote each: the nearer one wins.
    let d: Vec<u64> = vec![2, 9, 1];
    let labels = strings(&["second", "other", "first"]);
    assert_eq!(predict(&d, &labels, 2), Some("first".to_string()));
}

#[test]
fn open_labels_are_compared_by_text() {
    let d: Vec<u64> = vec![1, 2, 3, 4, 5];
    let labels = strings(&["cat", "dog", "dog", "cat", "cat"]);
    assert_eq!(predict(&d, &labels, 3), Some("dog".to_string()));
    assert_eq!(predict(&d, &labels, 5), Some("cat".to_string()));
}
