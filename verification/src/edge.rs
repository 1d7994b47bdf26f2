//! Similarity edges and the rule that selects them from scored candidates.

use crate::score::{exceeds, is_nan, scaled_value, score_exceeds};
use vstd::prelude::*;

verus! {

/// A directed similarity edge between two vectors of a collection, named by
/// their positions. The score is a single-precision bit pattern.
#[derive(Clone, Copy, Debug, PartialEq, Eq, Structural)]
pub struct EdgeResult {
    pub source_idx: usize,
    pub target_idx: usize,
    pub score: u32,
}

/// Reports that row `index` of a collection holds `found` entries where
/// `expected` were due.
#[derive(Clone, Copy, Debug, PartialEq, Eq, Structural)]
pub struct ShapeMismatch {
    pub index: usize,
    pub expected: usize,
    pub found: usize,
}

/// Whether a scored candidate is an edge: it joins two different vectors and
/// its score is strictly above the threshold.
pub open spec fn is_edge(candidate: EdgeResult, threshold: u32) -> bool {
    candidate.source_idx != candidate.target_idx && exceeds(candidate.score, threshold)
}

/// The candidates that are edges, in the order given.
pub open spec fn select(candidates: Seq<EdgeResult>, threshold: u32) -> Seq<EdgeResult> {
    candidates.filter(|candidate: EdgeResult| is_edge(candidate, threshold))
}

/// Selecting from no candidates gives no edges.
pub proof fn lemma_select_empty(threshold: u32)
    ensures
        select(Seq::empty(), threshold) == Seq::<EdgeResult>::empty(),
{
    reveal(Seq::filter);
}

/// Selecting from one more candidate appends it exactly when it is an edge.
pub proof fn lemma_select_push(candidates: Seq<EdgeResult>, next: EdgeResult, threshold: u32)
    ensures
        select(candidates.push(next), threshold) == if is_edge(next, threshold) {
            select(candidates, threshold).push(next)
        } else {
            select(candidates, threshold)
        },
{
    reveal(Seq::filter);
    assert(candidates.push(next).drop_last() =~= candidates);
}

/// Selecting from a concatenation concatenates the selections.
pub proof fn lemma_select_concat(first: Seq<EdgeResult>, second: Seq<EdgeResult>, threshold: u32)
    ensures
        select(first + second, threshold) == select(first, threshold) + select(second, threshold),
{
    Seq::filter_distributes_over_add(
        first,
        second,
        |candidate: EdgeResult| is_edge(candidate, threshold),
    );
}

/// Decides whether a scored candidate is an edge.
pub fn keeps(candidate: &EdgeResult, threshold: u32) -> (kept: bool)
    ensures
        kept == is_edge(*candidate, threshold),
{
    candidate.source_idx != candidate.target_idx && score_exceeds(candidate.score, threshold)
}

/// The threshold is a strict bound: a candidate whose score equals the
/// threshold in value is no edge, and a candidate between two different
/// vectors whose score is greater in value by however little is one,
/// provided both are numbers.
pub proof fn lemma_threshold_boundary(candidate: EdgeResult, threshold: u32)
    ensures
        scaled_value(candidate.score) == scaled_value(threshold) ==> !is_edge(candidate, threshold),
        candidate.source_idx != candidate.target_idx && !is_nan(candidate.score) && !is_nan(
            threshold,
        ) && scaled_value(candidate.score) > scaled_value(threshold) ==> is_edge(
            candidate,
            threshold,
        ),
{
}

/// Every selected edge joins two different vectors.
pub proof fn lemma_no_self_loops(candidates: Seq<EdgeResult>, threshold: u32, k: int)
    requires
        0 <= k < select(candidates, threshold).len(),
    ensures
        select(candidates, threshold)[k].source_idx != select(candidates, threshold)[k].target_idx,
{
    candidates.lemma_filter_pred(|candidate: EdgeResult| is_edge(candidate, threshold), k);
}

/// Every selected edge has a score strictly above the threshold, so a
/// candidate whose score equals the threshold in value is never selected.
pub proof fn lemma_selected_exceed(candidates: Seq<EdgeResult>, threshold: u32, k: int)
    requires
        0 <= k < select(candidates, threshold).len(),
    ensures
        exceeds(select(candidates, threshold)[k].score, threshold),
        scaled_value(select(candidates, threshold)[k].score) != scaled_value(threshold),
{
    candidates.lemma_filter_pred(|candidate: EdgeResult| is_edge(candidate, threshold), k);
}

/// Every candidate between two different vectors whose score is a number
/// greater than the threshold, itself a number, is selected.
pub proof fn lemma_greater_is_selected(candidates: Seq<EdgeResult>, threshold: u32, k: int)
    requires
        0 <= k < candidates.len(),
        candidates[k].source_idx != candidates[k].target_idx,
        !is_nan(candidates[k].score),
        !is_nan(threshold),
        scaled_value(candidates[k].score) > scaled_value(threshold),
    ensures
        select(candidates, threshold).contains(candidates[k]),
{
    candidates.lemma_filter_contains(|candidate: EdgeResult| is_edge(candidate, threshold), k);
}

/// Every selected edge is one of the candidates.
pub proof fn lemma_selected_are_candidates(
    candidates: Seq<EdgeResult>,
    threshold: u32,
    edge: EdgeResult,
)
    requires
        select(candidates, threshold).contains(edge),
    ensures
        candidates.contains(edge),
{
    candidates.lemma_filter_contains_rev(
        |candidate: EdgeResult| is_edge(candidate, threshold),
        edge,
    );
}

/// Every entry of every row occurs in the rows laid end to end.
pub proof fn lemma_flatten_holds_entry(rows: Seq<Seq<EdgeResult>>, i: int, k: int)
    requires
        0 <= i < rows.len(),
        0 <= k < rows[i].len(),
    ensures
        rows.flatten().contains(rows[i][k]),
    decreases rows.len(),
{
    let before = rows.drop_last();
    let last = rows.last();
    assert(rows =~= before.push(last));
    before.lemma_flatten_push(last);
    let joined = before.flatten() + last;
    assert(rows.flatten() == joined);
    if i == rows.len() - 1 {
        assert(joined[before.flatten().len() + k] == rows[i][k]);
    } else {
        lemma_flatten_holds_entry(before, i, k);
        let at = choose|at: int|
            0 <= at < before.flatten().len() && before.flatten()[at] == rows[i][k];
        assert(joined[at] == rows[i][k]);
    }
}

/// Whatever occurs in the rows laid end to end is an entry of some row.
pub proof fn lemma_flatten_entry_has_row(
    rows: Seq<Seq<EdgeResult>>,
    entry: EdgeResult,
) -> (place: (int, int))
    requires
        rows.flatten().contains(entry),
    ensures
        0 <= place.0 < rows.len(),
        0 <= place.1 < rows[place.0].len(),
        rows[place.0][place.1] == entry,
    decreases rows.len(),
{
    if rows.len() == 0 {
        assert(rows.flatten() =~= Seq::empty());
        (0, 0)
    } else {
        let before = rows.drop_last();
        let last = rows.last();
        assert(rows =~= before.push(last));
        before.lemma_flatten_push(last);
        let joined = before.flatten() + last;
        assert(rows.flatten() == joined);
        let at = choose|at: int| 0 <= at < joined.len() && joined[at] == entry;
        if at < before.flatten().len() {
            assert(before.flatten()[at] == entry);
            lemma_flatten_entry_has_row(before, entry)
        } else {
            (rows.len() - 1, at - before.flatten().len())
        }
    }
}

} // verus!
