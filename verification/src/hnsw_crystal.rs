//! Approximate crystallization: the candidates of a vector are the nearest
//! neighbours that a graph index reports for it.
//!
//! This module fixes how the index is built and searched and selects the
//! edges from what the searches report. Each report is independent of the
//! others and may be handled concurrently with [`crystallize_row`].
//!
//! The index is approximate. It may miss a true neighbour, and finding `j`
//! near `i` does not mean that `i` is found near `j`: the edges are directed
//! and are not made symmetric.

use crate::edge::{
    keeps, lemma_flatten_entry_has_row, lemma_flatten_holds_entry, lemma_greater_is_selected,
    lemma_no_self_loops, lemma_select_concat, lemma_select_empty, lemma_select_push,
    lemma_selected_are_candidates, lemma_selected_exceed, select,
};
use crate::score::exceeds;
pub use crate::edge::EdgeResult;
use vstd::prelude::*;

verus! {

/// The most connections that a node of the index keeps.
pub const MAX_NB_CONNECTION: usize = 16;

/// The most layers that the index has.
pub const MAX_NB_LAYER: usize = 16;

/// The search breadth while the index is built.
pub const EF_CONSTRUCTION: usize = 200;

/// The least search breadth of a query.
pub const MIN_EF_SEARCH: usize = 32;

/// How the index is built for a collection.
#[derive(Clone, Copy, Debug, PartialEq, Eq, Structural)]
pub struct IndexParams {
    pub max_nb_connection: usize,
    pub max_elements: usize,
    pub nb_layer: usize,
    pub ef_construction: usize,
}

/// How the index is searched for one vector.
#[derive(Clone, Copy, Debug, PartialEq, Eq, Structural)]
pub struct SearchParams {
    pub knbn: usize,
    pub ef_search: usize,
}

/// A neighbour that a search reports: the position of the vector found and
/// its similarity with the query, one minus the distance, as a
/// single-precision bit pattern.
#[derive(Clone, Copy, Debug, PartialEq, Eq, Structural)]
pub struct Neighbour {
    pub d_id: usize,
    pub similarity: u32,
}

/// The whole part of `e^k`, for `k` below [`MAX_NB_LAYER`].
pub open spec fn exp_floor(k: nat) -> nat {
    if k == 0 {
        1
    } else if k == 1 {
        2
    } else if k == 2 {
        7
    } else if k == 3 {
        20
    } else if k == 4 {
        54
    } else if k == 5 {
        148
    } else if k == 6 {
        403
    } else if k == 7 {
        1096
    } else if k == 8 {
        2980
    } else if k == 9 {
        8103
    } else if k == 10 {
        22026
    } else if k == 11 {
        59874
    } else if k == 12 {
        162754
    } else if k == 13 {
        442413
    } else if k == 14 {
        1202604
    } else {
        3269017
    }
}

/// Whether `layers` is the natural logarithm of `nb_elem` rounded up, or
/// [`MAX_NB_LAYER`] if that is less: the least `k` with `nb_elem <= e^k`,
/// as far as one lies below the cap. An integer is at most `e^k` exactly
/// when it is at most the whole part of `e^k`.
pub open spec fn is_layer_count(nb_elem: nat, layers: nat) -> bool {
    &&& layers <= MAX_NB_LAYER
    &&& layers < MAX_NB_LAYER ==> nb_elem <= exp_floor(layers)
    &&& forall|k: nat| k < layers ==> exp_floor(k) < nb_elem
}

/// The whole part of `e^k`.
fn exp_floor_at(k: usize) -> (bound: usize)
    requires
        k < MAX_NB_LAYER,
    ensures
        bound == exp_floor(k as nat),
{
    let table: [usize; 16] = [
        1,
        2,
        7,
        20,
        54,
        148,
        403,
        1096,
        2980,
        8103,
        22026,
        59874,
        162754,
        442413,
        1202604,
        3269017,
    ];
    table[k]
}

/// The number of layers of the index for `nb_elem` vectors.
pub fn layer_count(nb_elem: usize) -> (layers: usize)
    ensures
        is_layer_count(nb_elem as nat, layers as nat),
{
    let mut layers: usize = 0;
    while layers < MAX_NB_LAYER
        invariant
            layers <= MAX_NB_LAYER,
            forall|k: nat| k < layers ==> exp_floor(k) < nb_elem,
        decreases MAX_NB_LAYER - layers,
    {
        if nb_elem <= exp_floor_at(layers) {
            return layers;
        }
        layers = layers + 1;
    }
    layers
}

/// The parameters of the index for a collection of `nb_elem` vectors.
pub fn index_params(nb_elem: usize) -> (params: IndexParams)
    ensures
        params.max_nb_connection == MAX_NB_CONNECTION,
        params.max_elements == nb_elem,
        is_layer_count(nb_elem as nat, params.nb_layer as nat),
        params.ef_construction == EF_CONSTRUCTION,
{
    IndexParams {
        max_nb_connection: MAX_NB_CONNECTION,
        max_elements: nb_elem,
        nb_layer: layer_count(nb_elem),
        ef_construction: EF_CONSTRUCTION,
    }
}

/// The parameters of the search for the `top_k` nearest neighbours of a
/// vector of the collection: one neighbour more is asked for, since the
/// vector is expected to find itself.
pub fn search_params(top_k: usize) -> (params: SearchParams)
    requires
        top_k < usize::MAX,
    ensures
        params.knbn == top_k + 1,
        params.ef_search == if top_k > MIN_EF_SEARCH {
            top_k
        } else {
            MIN_EF_SEARCH
        },
{
    SearchParams {
        knbn: top_k + 1,
        ef_search: if top_k > MIN_EF_SEARCH {
            top_k
        } else {
            MIN_EF_SEARCH
        },
    }
}

/// The candidates of one search: `source` paired with each neighbour found.
pub open spec fn neighbour_candidates(source: usize, found: Seq<Neighbour>) -> Seq<EdgeResult> {
    Seq::new(
        found.len(),
        |k: int|
            EdgeResult {
                source_idx: source,
                target_idx: found[k].d_id,
                score: found[k].similarity,
            },
    )
}

/// The reports of a collection as sequences.
pub open spec fn neighbour_rows(reports: Seq<Vec<Neighbour>>) -> Seq<Seq<Neighbour>> {
    Seq::new(reports.len(), |i: int| reports[i]@)
}

/// The candidates of the first `rows` searches, search by search.
pub open spec fn approx_candidates(reports: Seq<Seq<Neighbour>>, rows: nat) -> Seq<EdgeResult> {
    Seq::new(rows, |i: int| neighbour_candidates(i as usize, reports[i])).flatten()
}

/// The edges of a collection: in search order, every neighbour found that is
/// not the query itself and whose similarity is strictly above the threshold.
pub open spec fn approx_edges(reports: Seq<Seq<Neighbour>>, threshold: u32) -> Seq<EdgeResult> {
    select(approx_candidates(reports, reports.len()), threshold)
}

/// The edges of one search: the neighbours found for `source`, without
/// `source` itself, whose similarity is strictly above the threshold, in the
/// order in which they were reported.
pub fn crystallize_row(source: usize, found: &[Neighbour], threshold: u32) -> (edges: Vec<
    EdgeResult,
>)
    ensures
        edges@ == select(neighbour_candidates(source, found@), threshold),
{
    let mut edges: Vec<EdgeResult> = Vec::new();
    let mut k: usize = 0;
    proof {
        lemma_select_empty(threshold);
        assert(neighbour_candidates(source, found@.take(0)) =~= Seq::empty());
    }
    while k < found.len()
        invariant
            k <= found.len(),
            edges@ == select(neighbour_candidates(source, found@.take(k as int)), threshold),
        decreases found.len() - k,
    {
        let candidate = EdgeResult {
            source_idx: source,
            target_idx: found[k].d_id,
            score: found[k].similarity,
        };
        proof {
            lemma_select_push(
                neighbour_candidates(source, found@.take(k as int)),
                candidate,
                threshold,
            );
            assert(neighbour_candidates(source, found@.take(k + 1)) =~= neighbour_candidates(
                source,
                found@.take(k as int),
            ).push(candidate));
        }
        if keeps(&candidate, threshold) {
            edges.push(candidate);
        }
        k = k + 1;
    }
    assert(found@.take(found.len() as int) =~= found@);
    edges
}

/// The candidates of one more search extend those of the searches before it.
proof fn lemma_approx_candidates_step(reports: Seq<Seq<Neighbour>>, rows: nat)
    ensures
        approx_candidates(reports, rows + 1) == approx_candidates(reports, rows)
            + neighbour_candidates(rows as usize, reports[rows as int]),
{
    let row_of = |i: int| neighbour_candidates(i as usize, reports[i]);
    let before = Seq::new(rows, row_of);
    assert(Seq::new(rows + 1, row_of) =~= before.push(row_of(rows as int)));
    before.lemma_flatten_push(row_of(rows as int));
}

/// All edges of a collection, given for each vector, by position, the
/// neighbours that the index reported for it.
pub fn crystallize_hnsw(reports: &Vec<Vec<Neighbour>>, threshold: u32) -> (edges: Vec<EdgeResult>)
    ensures
        edges@ == approx_edges(neighbour_rows(reports@), threshold),
        reports.len() == 0 ==> edges@.len() == 0,
{
    let ghost rows = neighbour_rows(reports@);
    let mut edges: Vec<EdgeResult> = Vec::new();
    let mut i: usize = 0;
    proof {
        lemma_select_empty(threshold);
        assert(Seq::new(0, |r: int| neighbour_candidates(r as usize, rows[r])) =~= Seq::empty());
        assert(approx_candidates(rows, 0) =~= Seq::empty());
    }
    while i < reports.len()
        invariant
            i <= reports.len(),
            rows == neighbour_rows(reports@),
            edges@ == select(approx_candidates(rows, i as nat), threshold),
        decreases reports.len() - i,
    {
        let report = &reports[i];
        assert(rows[i as int] == report@);
        let mut found = crystallize_row(i, report.as_slice(), threshold);
        proof {
            lemma_approx_candidates_step(rows, i as nat);
            lemma_select_concat(
                approx_candidates(rows, i as nat),
                neighbour_candidates(i, report@),
                threshold,
            );
        }
        edges.append(&mut found);
        i = i + 1;
    }
    edges
}

/// No approximate edge joins a vector with itself, and the score of each is
/// strictly above the threshold.
pub proof fn lemma_approx_edges_are_strict(reports: Seq<Seq<Neighbour>>, threshold: u32, k: int)
    requires
        0 <= k < approx_edges(reports, threshold).len(),
    ensures
        approx_edges(reports, threshold)[k].source_idx != approx_edges(
            reports,
            threshold,
        )[k].target_idx,
        exceeds(approx_edges(reports, threshold)[k].score, threshold),
{
    lemma_no_self_loops(approx_candidates(reports, reports.len()), threshold, k);
    lemma_selected_exceed(approx_candidates(reports, reports.len()), threshold, k);
}

/// Every approximate edge is a neighbour that was reported: it joins some
/// vector `i` with the vector of entry `k` of its report and carries the
/// similarity of that entry.
pub proof fn lemma_approx_edges_are_reported(
    reports: Seq<Seq<Neighbour>>,
    threshold: u32,
    edge: EdgeResult,
) -> (place: (int, int))
    requires
        reports.len() <= usize::MAX,
        approx_edges(reports, threshold).contains(edge),
    ensures
        0 <= place.0 < reports.len(),
        0 <= place.1 < reports[place.0].len(),
        edge.source_idx == place.0,
        edge.target_idx == reports[place.0][place.1].d_id,
        edge.score == reports[place.0][place.1].similarity,
        edge.source_idx != edge.target_idx,
        exceeds(edge.score, threshold),
{
    let rows = Seq::new(reports.len(), |i: int| neighbour_candidates(i as usize, reports[i]));
    lemma_selected_are_candidates(approx_candidates(reports, reports.len()), threshold, edge);
    let place = lemma_flatten_entry_has_row(rows, edge);
    let at = choose|at: int|
        0 <= at < approx_edges(reports, threshold).len() && approx_edges(reports, threshold)[at]
            == edge;
    lemma_approx_edges_are_strict(reports, threshold, at);
    place
}

/// Every reported neighbour other than the query itself whose similarity is
/// strictly above the threshold is an approximate edge.
pub proof fn lemma_approx_edges_are_complete(
    reports: Seq<Seq<Neighbour>>,
    threshold: u32,
    i: int,
    k: int,
)
    requires
        reports.len() <= usize::MAX,
        0 <= i < reports.len(),
        0 <= k < reports[i].len(),
        reports[i][k].d_id != i,
        exceeds(reports[i][k].similarity, threshold),
    ensures
        approx_edges(reports, threshold).contains(
            (EdgeResult {
                source_idx: i as usize,
                target_idx: reports[i][k].d_id,
                score: reports[i][k].similarity,
            }),
        ),
{
    let rows = Seq::new(reports.len(), |r: int| neighbour_candidates(r as usize, reports[r]));
    let candidates = approx_candidates(reports, reports.len());
    lemma_flatten_holds_entry(rows, i, k);
    let at = choose|at: int| 0 <= at < candidates.len() && candidates[at] == rows[i][k];
    lemma_greater_is_selected(candidates, threshold, at);
}

/// An empty collection has no approximate edges.
pub proof fn lemma_approx_edges_of_nothing(threshold: u32)
    ensures
        approx_edges(Seq::empty(), threshold) == Seq::<EdgeResult>::empty(),
{
    let reports = Seq::<Seq<Neighbour>>::empty();
    assert(Seq::new(0, |i: int| neighbour_candidates(i as usize, reports[i])) =~= Seq::empty());
    assert(approx_candidates(reports, 0) =~= Seq::empty());
    lemma_select_empty(threshold);
}

} // verus!
