use invariant_kernel::edge::keeps;
use invariant_kernel::start_crystal::{
    check_dimensions, compute_correlations_parallel, correlate_row, EdgeResult, ShapeMismatch,
};

fn dot(a: &[f32], b: &[f32]) -> f32 {
    a.iter().zip(b.iter()).map(|(x, y)| x * y).sum()
}

fn pair_table(vectors: &[Vec<f32>]) -> Vec<Vec<u32>> {
    let mut table = Vec::new();
    for i in 0..vectors.len() {
        let mut row = Vec::new();
        for j in (i + 1)..vectors.len() {
            row.push(dot(&vectors[i], &vectors[j]).to_bits());
        }
        table.push(row);
    }
    table
}

fn edge(source_idx: usize, target_idx: usize, score: f32) -> EdgeResult {
    EdgeResult { source_idx, target_idx, score: score.to_bits() }
}

#[test]
fn exact_edges_of_two_equal_and_one_orthogonal_vector() {
    let vectors = vec![vec![1.0f32, 0.0], vec![1.0, 0.0], vec![0.0, 1.0]];
    let edges = compute_correlations_parallel(&pair_table(&vectors), 0.5f32.to_bits()).unwrap();
    assert_eq!(edges, vec![edge(0, 1, 1.0)]);
    assert_eq!(f32::from_bits(edges[0].score), 1.0);
}

#[test]
fn exact_edges_of_an_empty_collection_are_empty() {
    let table: Vec<Vec<u32>> = Vec::new();
    assert_eq!(compute_correlations_parallel(&table, 0.0f32.to_bits()), Ok(vec![]));
}

#[test]
fn exact_edges_of_a_single_vector_are_empty() {
    let table: Vec<Vec<u32>> = vec![vec![]];
    assert_eq!(compute_correlations_parallel(&table, 0.0f32.to_bits()), Ok(vec![]));
}

#[test]
fn exact_edges_come_row_by_row_with_source_below_target() {
    let vectors = vec![
        vec![1.0f32, 0.0, 0.0],
        vec![0.9, 0.1, 0.0],
        vec![0.0, 1.0, 0.0],
        vec![0.8, 0.0, 0.2],
    ];
    let threshold = 0.05f32;
    let edges = compute_correlations_parallel(&pair_table(&vectors), threshold.to_bits()).unwrap();
    let mut expected = Vec::new();
    for i in 0..vectors.len() {
        for j in (i + 1)..vectors.len() {
            let score = dot(&vectors[i], &vectors[j]);
            if score > threshold {
                expected.push(edge(i, j, score));
            }
        }
    }
    assert_eq!(edges, expected);
    assert_eq!(edges.len(), 4);
    assert!(edges.iter().all(|e| e.source_idx < e.target_idx));
}

#[test]
fn exact_edges_leave_out_a_score_equal_to_the_threshold() {
    let table =
        vec![vec![0.5f32.to_bits(), 0.50000006f32.to_bits()], vec![0.5f32.to_bits()], vec![]];
    let edges = compute_correlations_parallel(&table, 0.5f32.to_bits()).unwrap();
    assert_eq!(edges, vec![edge(0, 2, 0.50000006)]);
}

#[test]
fn exact_edges_leave_out_scores_that_are_not_numbers() {
    let table =
        vec![vec![f32::NAN.to_bits(), f32::INFINITY.to_bits()], vec![1.0f32.to_bits()], vec![]];
    let edges = compute_correlations_parallel(&table, f32::NEG_INFINITY.to_bits()).unwrap();
    assert_eq!(edges, vec![edge(0, 2, f32::INFINITY), edge(1, 2, 1.0)]);
    assert_eq!(compute_correlations_parallel(&table, f32::NAN.to_bits()), Ok(vec![]));
}

#[test]
fn exact_edges_never_join_a_vector_with_itself() {
    let vectors = vec![vec![1.0f32, 1.0]; 5];
    let edges = compute_correlations_parallel(&pair_table(&vectors), 0.0f32.to_bits()).unwrap();
    assert_eq!(edges.len(), 10);
    assert!(edges.iter().all(|e| e.source_idx != e.target_idx));
}

#[test]
fn table_with_a_row_of_the_wrong_length_is_refused() {
    let table = vec![vec![0, 0], vec![0, 0], vec![]];
    assert_eq!(
        compute_correlations_parallel(&table, 0),
        Err(ShapeMismatch { index: 1, expected: 1, found: 2 })
    );
    let short = vec![vec![0u32], vec![], vec![]];
    assert_eq!(
        compute_correlations_parallel(&short, 0),
        Err(ShapeMismatch { index: 0, expected: 2, found: 1 })
    );
}

#[test]
fn row_edges_pair_the_source_with_the_vectors_after_it() {
    let scores = [0.9f32.to_bits(), 0.1f32.to_bits(), 0.7f32.to_bits()];
    let edges = correlate_row(4, &scores, 0.5f32.to_bits());
    assert_eq!(edges, vec![edge(4, 5, 0.9), edge(4, 7, 0.7)]);
    assert_eq!(correlate_row(4, &[], 0.5f32.to_bits()), vec![]);
}

#[test]
fn rows_handled_apart_give_the_edges_of_the_table() {
    let vectors = vec![vec![1.0f32, 0.0], vec![1.0, 0.0], vec![0.6, 0.8], vec![0.0, 1.0]];
    let table = pair_table(&vectors);
    let threshold = 0.5f32.to_bits();
    let mut joined = Vec::new();
    for (i, row) in table.iter().enumerate() {
        joined.extend(correlate_row(i, row, threshold));
    }
    assert_eq!(Ok(joined), compute_correlations_parallel(&table, threshold));
}

#[test]
fn candidate_is_kept_only_above_the_threshold_and_between_two_vectors() {
    assert!(keeps(&edge(0, 1, 0.75), 0.5f32.to_bits()));
    assert!(!keeps(&edge(0, 1, 0.5), 0.5f32.to_bits()));
    assert!(!keeps(&edge(0, 1, 0.25), 0.5f32.to_bits()));
    assert!(!keeps(&edge(3, 3, 0.75), 0.5f32.to_bits()));
    assert!(keeps(&edge(1, 0, -0.25), (-0.5f32).to_bits()));
}

#[test]
fn equal_dimensions_are_accepted() {
    assert_eq!(check_dimensions(&[]), Ok(()));
    assert_eq!(check_dimensions(&[3]), Ok(()));
    assert_eq!(check_dimensions(&[2, 2, 2]), Ok(()));
}

#[test]
fn first_differing_dimension_is_reported() {
    assert_eq!(
        check_dimensions(&[2, 2, 3, 4]),
        Err(ShapeMismatch { index: 2, expected: 2, found: 3 })
    );
    assert_eq!(check_dimensions(&[0, 1]), Err(ShapeMismatch { index: 1, expected: 0, found: 1 }));
}
