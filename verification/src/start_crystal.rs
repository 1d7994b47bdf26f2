//! Exact crystallization: every pair of vectors is a candidate edge.
//!
//! The similarities arrive as a table with one row per vector. Row `i` holds
//! the similarity of vector `i` with each later vector, so that entry `k` of
//! row `i` belongs to the pair `(i, i + 1 + k)`. Rows are independent of one
//! another and may be handled concurrently with [`correlate_row`].

use crate::edge::{
    is_edge, keeps, lemma_flatten_entry_has_row, lemma_flatten_holds_entry,
    lemma_greater_is_selected, lemma_no_self_loops, lemma_select_concat, lemma_select_empty,
    lemma_select_push, lemma_selected_are_candidates, lemma_selected_exceed, select,
};
use crate::score::exceeds;
pub use crate::edge::{EdgeResult, ShapeMismatch};
use vstd::prelude::*;

verus! {

/// The candidates of one row: the pairs of `source` with each later vector.
pub open spec fn pair_candidates(source: usize, scores: Seq<u32>) -> Seq<EdgeResult> {
    Seq::new(
        scores.len(),
        |k: int|
            EdgeResult {
                source_idx: source,
                target_idx: (source + 1 + k) as usize,
                score: scores[k],
            },
    )
}

/// The rows of a table as sequences.
pub open spec fn score_rows(table: Seq<Vec<u32>>) -> Seq<Seq<u32>> {
    Seq::new(table.len(), |i: int| table[i]@)
}

/// Whether row `i` of the table has one entry for each later row.
pub open spec fn is_pair_row(table: Seq<Seq<u32>>, i: int) -> bool {
    table[i].len() + i + 1 == table.len()
}

/// Whether the table holds exactly one entry per pair of rows.
pub open spec fn is_pair_table(table: Seq<Seq<u32>>) -> bool {
    forall|i: int| 0 <= i < table.len() ==> is_pair_row(table, i)
}

/// The candidates of the first `rows` rows, row by row.
pub open spec fn exact_candidates(table: Seq<Seq<u32>>, rows: nat) -> Seq<EdgeResult> {
    Seq::new(rows, |i: int| pair_candidates(i as usize, table[i])).flatten()
}

/// The edges of a table: in row order, every pair whose similarity is
/// strictly above the threshold.
pub open spec fn exact_edges(table: Seq<Seq<u32>>, threshold: u32) -> Seq<EdgeResult> {
    select(exact_candidates(table, table.len()), threshold)
}

/// Whether all the given dimensions are equal.
pub open spec fn is_uniform(dims: Seq<usize>) -> bool {
    forall|i: int| 0 <= i < dims.len() ==> #[trigger] dims[i] == dims[0]
}

/// Checks that the vectors of a collection all have the dimension of the
/// first one, given the dimension of each. The error names the first vector
/// that differs.
pub fn check_dimensions(dims: &[usize]) -> (outcome: Result<(), ShapeMismatch>)
    ensures
        outcome is Ok <==> is_uniform(dims@),
        outcome matches Err(e) ==> {
            &&& 0 < e.index < dims.len()
            &&& e.expected == dims[0]
            &&& e.found == dims[e.index as int]
            &&& e.found != e.expected
            &&& forall|i: int| 0 <= i < e.index ==> #[trigger] dims[i] == dims[0]
        },
{
    let mut i: usize = 1;
    while i < dims.len()
        invariant
            1 <= i,
            forall|j: int| 0 <= j < i && j < dims.len() ==> #[trigger] dims[j] == dims[0],
        decreases dims.len() - i,
    {
        if dims[i] != dims[0] {
            return Err(ShapeMismatch { index: i, expected: dims[0], found: dims[i] });
        }
        i = i + 1;
    }
    Ok(())
}

/// The edges of one row of the table: the pairs of `source` with the later
/// vectors whose similarity is strictly above the threshold, in order.
pub fn correlate_row(source: usize, scores: &[u32], threshold: u32) -> (edges: Vec<EdgeResult>)
    requires
        source + scores.len() <= usize::MAX,
    ensures
        edges@ == select(pair_candidates(source, scores@), threshold),
{
    let mut edges: Vec<EdgeResult> = Vec::new();
    let mut k: usize = 0;
    proof {
        lemma_select_empty(threshold);
        assert(pair_candidates(source, scores@.take(0)) =~= Seq::empty());
    }
    while k < scores.len()
        invariant
            k <= scores.len(),
            source + scores.len() <= usize::MAX,
            edges@ == select(pair_candidates(source, scores@.take(k as int)), threshold),
        decreases scores.len() - k,
    {
        let candidate = EdgeResult {
            source_idx: source,
            target_idx: source + 1 + k,
            score: scores[k],
        };
        proof {
            lemma_select_push(
                pair_candidates(source, scores@.take(k as int)),
                candidate,
                threshold,
            );
            assert(pair_candidates(source, scores@.take(k + 1)) =~= pair_candidates(
                source,
                scores@.take(k as int),
            ).push(candidate));
        }
        if keeps(&candidate, threshold) {
            edges.push(candidate);
        }
        k = k + 1;
    }
    assert(scores@.take(scores.len() as int) =~= scores@);
    edges
}

/// The candidates of one more row extend those of the rows before it.
proof fn lemma_exact_candidates_step(table: Seq<Seq<u32>>, rows: nat)
    ensures
        exact_candidates(table, rows + 1) == exact_candidates(table, rows) + pair_candidates(
            rows as usize,
            table[rows as int],
        ),
{
    let row_of = |i: int| pair_candidates(i as usize, table[i]);
    let before = Seq::new(rows, row_of);
    assert(Seq::new(rows + 1, row_of) =~= before.push(row_of(rows as int)));
    before.lemma_flatten_push(row_of(rows as int));
}

/// All edges of a table of pairwise similarities, row after row.
///
/// Fails when a row does not hold one entry for each later row; the error
/// names the first such row and the number of entries that was due.
pub fn compute_correlations_parallel(scores: &Vec<Vec<u32>>, threshold: u32) -> (outcome: Result<
    Vec<EdgeResult>,
    ShapeMismatch,
>)
    ensures
        outcome is Ok <==> is_pair_table(score_rows(scores@)),
        outcome matches Ok(edges) ==> edges@ == exact_edges(score_rows(scores@), threshold),
        outcome matches Err(e) ==> {
            &&& e.index < scores.len()
            &&& e.expected == scores.len() - 1 - e.index
            &&& e.found == scores[e.index as int].len()
            &&& e.found != e.expected
            &&& forall|i: int| 0 <= i < e.index ==> is_pair_row(score_rows(scores@), i)
        },
        scores.len() == 0 ==> (outcome matches Ok(edges) && edges@.len() == 0),
{
    let ghost table = score_rows(scores@);
    let count = scores.len();
    let mut edges: Vec<EdgeResult> = Vec::new();
    let mut i: usize = 0;
    proof {
        lemma_select_empty(threshold);
        assert(Seq::new(0, |r: int| pair_candidates(r as usize, table[r])) =~= Seq::empty());
        assert(exact_candidates(table, 0) =~= Seq::empty());
    }
    while i < count
        invariant
            i <= count,
            count == scores.len(),
            table == score_rows(scores@),
            forall|r: int| 0 <= r < i ==> is_pair_row(table, r),
            edges@ == select(exact_candidates(table, i as nat), threshold),
        decreases count - i,
    {
        let row = &scores[i];
        let due = count - 1 - i;
        assert(table[i as int] == row@);
        if row.len() != due {
            assert(!is_pair_row(table, i as int));
            return Err(ShapeMismatch { index: i, expected: due, found: row.len() });
        }
        let mut found = correlate_row(i, row.as_slice(), threshold);
        proof {
            lemma_exact_candidates_step(table, i as nat);
            lemma_select_concat(
                exact_candidates(table, i as nat),
                pair_candidates(i, row@),
                threshold,
            );
        }
        edges.append(&mut found);
        i = i + 1;
    }
    Ok(edges)
}

/// A pair joins a vector with a later one, so it is an edge exactly when its
/// similarity is strictly above the threshold.
pub proof fn lemma_pairs_are_distinct(source: usize, scores: Seq<u32>, threshold: u32, k: int)
    requires
        source + scores.len() <= usize::MAX,
        0 <= k < scores.len(),
    ensures
        pair_candidates(source, scores)[k].source_idx == source,
        pair_candidates(source, scores)[k].target_idx == source + 1 + k,
        is_edge(pair_candidates(source, scores)[k], threshold) == exceeds(scores[k], threshold),
{
}

/// No exact edge joins a vector with itself, and the score of each is
/// strictly above the threshold.
pub proof fn lemma_exact_edges_are_strict(table: Seq<Seq<u32>>, threshold: u32, k: int)
    requires
        0 <= k < exact_edges(table, threshold).len(),
    ensures
        exact_edges(table, threshold)[k].source_idx != exact_edges(table, threshold)[k].target_idx,
        exceeds(exact_edges(table, threshold)[k].score, threshold),
{
    lemma_no_self_loops(exact_candidates(table, table.len()), threshold, k);
    lemma_selected_exceed(exact_candidates(table, table.len()), threshold, k);
}

/// Every exact edge is a pair of the table: it joins some vector `i` with a
/// later vector `i + 1 + k` and carries the similarity that the table holds
/// for the two.
pub proof fn lemma_exact_edges_are_pairs(
    table: Seq<Seq<u32>>,
    threshold: u32,
    edge: EdgeResult,
) -> (place: (int, int))
    requires
        is_pair_table(table),
        table.len() <= usize::MAX,
        exact_edges(table, threshold).contains(edge),
    ensures
        0 <= place.0 < table.len(),
        0 <= place.1 < table[place.0].len(),
        edge.source_idx == place.0,
        edge.target_idx == place.0 + 1 + place.1,
        edge.source_idx < edge.target_idx < table.len(),
        edge.score == table[place.0][place.1],
        exceeds(edge.score, threshold),
{
    let rows = Seq::new(table.len(), |i: int| pair_candidates(i as usize, table[i]));
    lemma_selected_are_candidates(exact_candidates(table, table.len()), threshold, edge);
    let place = lemma_flatten_entry_has_row(rows, edge);
    assert(is_pair_row(table, place.0));
    let at = choose|at: int|
        0 <= at < exact_edges(table, threshold).len() && exact_edges(table, threshold)[at] == edge;
    lemma_exact_edges_are_strict(table, threshold, at);
    place
}

/// Every pair of the table whose similarity is strictly above the threshold
/// is an exact edge.
pub proof fn lemma_exact_edges_are_complete(table: Seq<Seq<u32>>, threshold: u32, i: int, k: int)
    requires
        is_pair_table(table),
        table.len() <= usize::MAX,
        0 <= i < table.len(),
        0 <= k < table[i].len(),
        exceeds(table[i][k], threshold),
    ensures
        exact_edges(table, threshold).contains(
            (EdgeResult {
                source_idx: i as usize,
                target_idx: (i + 1 + k) as usize,
                score: table[i][k],
            }),
        ),
{
    let rows = Seq::new(table.len(), |r: int| pair_candidates(r as usize, table[r]));
    let candidates = exact_candidates(table, table.len());
    assert(is_pair_row(table, i));
    lemma_flatten_holds_entry(rows, i, k);
    let at = choose|at: int| 0 <= at < candidates.len() && candidates[at] == rows[i][k];
    lemma_greater_is_selected(candidates, threshold, at);
}

/// An empty collection has no exact edges.
pub proof fn lemma_exact_edges_of_nothing(threshold: u32)
    ensures
        exact_edges(Seq::empty(), threshold) == Seq::<EdgeResult>::empty(),
{
    let table = Seq::<Seq<u32>>::empty();
    assert(Seq::new(0, |i: int| pair_candidates(i as usize, table[i])) =~= Seq::empty());
    assert(exact_candidates(table, 0) =~= Seq::empty());
    lemma_select_empty(threshold);
}

} // verus!
