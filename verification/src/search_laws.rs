//! What holds of every filtered search.

use crate::index_laws::law_search_returns_near_stored_vectors;
use crate::index_model::{within, IndexView};
use crate::lists::{at_most, lemma_filter_keeps_all};
use crate::metadata::{satisfies, Metadata};
use crate::ranking::{closer, Ranked};
use crate::search::{
    enriched, enriched_list, fetch_beam, fetch_count, filters_by, is_match, matching_rows,
    needs_scan, passes, row_hit, row_list, scanned, scores, searched, Row, StoredVector,
    OVERFETCH_CAP, OVERFETCH_MIN,
};
use crate::sorting::{
    law_stable_order_lists_positions_by_key, lemma_first_by_key, lemma_in_order_distinct,
    lemma_stable_order, stable_order,
};
use crate::types::{bare_hit, Hit, SearchQuery, SearchResult};
use vstd::prelude::*;

verus! {

/// A filtered search fetches between the minimum and the cap, and at least as many
/// candidates as results are wanted, unless these exceed the cap. A search without
/// filters fetches what is wanted. More wanted results never fetch fewer candidates.
pub proof fn law_overfetch_stays_in_bounds(k: nat, more: nat)
    ensures
        OVERFETCH_MIN <= fetch_count(k, true) <= OVERFETCH_CAP,
        k <= OVERFETCH_CAP ==> k <= fetch_count(k, true),
        fetch_count(k, false) == k,
        k <= more ==> fetch_count(k, true) <= fetch_count(more, true),
{
}

/// The beam of a filtered search is at least as wide as the number of candidates that it
/// fetches. Without filters the beam is the one asked for, and if none is, the configured
/// one. No search has a narrower beam than it asks for.
pub proof fn law_fetch_beam_is_wide_enough(asked: Option<usize>, count: usize, filtered: bool)
    ensures
        filtered && count > 0 ==> fetch_beam(asked, count, filtered) is Some && fetch_beam(
            asked,
            count,
            filtered,
        )->0 >= count,
        !filtered ==> fetch_beam(asked, count, filtered) == asked,
        asked is Some ==> fetch_beam(asked, count, filtered) is Some && fetch_beam(
            asked,
            count,
            filtered,
        )->0 >= asked->0,
{
}

/// A result is one of the rows that are results.
pub open spec fn stems_from<T>(
    hit: Hit<T>,
    rows: Seq<Row<T>>,
    query: Seq<T>,
    filters: Map<Seq<char>, Seq<char>>,
    threshold: Option<i32>,
    distance: spec_fn(Seq<T>, Seq<T>) -> i32,
) -> bool {
    exists|r: int|
        0 <= r < rows.len() && is_match(query, filters, threshold, distance)(#[trigger] rows[r])
            && hit == row_hit(query, distance)(rows[r])
}

/// Every match stems from a row that is a match, and every such row gives one.
proof fn lemma_matches<T>(
    rows: Seq<Row<T>>,
    query: Seq<T>,
    filters: Map<Seq<char>, Seq<char>>,
    threshold: Option<i32>,
    distance: spec_fn(Seq<T>, Seq<T>) -> i32,
)
    ensures
        ({
            let hits = matching_rows(rows, query, filters, threshold, distance);
            &&& forall|i: int|
                0 <= i < hits.len() ==> stems_from(
                    #[trigger] hits[i],
                    rows,
                    query,
                    filters,
                    threshold,
                    distance,
                )
            &&& forall|r: int|
                0 <= r < rows.len() && is_match(query, filters, threshold, distance)(
                    #[trigger] rows[r],
                ) ==> hits.contains(row_hit(query, distance)(rows[r]))
        }),
{
    let keep = is_match(query, filters, threshold, distance);
    let as_hit = row_hit(query, distance);
    let kept = rows.filter(keep);
    let hits = matching_rows(rows, query, filters, threshold, distance);
    assert forall|i: int| 0 <= i < hits.len() implies stems_from(
        #[trigger] hits[i],
        rows,
        query,
        filters,
        threshold,
        distance,
    ) by {
        rows.lemma_filter_pred(keep, i);
        rows.lemma_filter_contains_rev(keep, kept[i]);
        let r = choose|r: int| 0 <= r < rows.len() && rows[r] == kept[i];
        assert(keep(rows[r]) && hits[i] == as_hit(rows[r]));
    }
    assert forall|r: int| 0 <= r < rows.len() && keep(#[trigger] rows[r]) implies hits.contains(
        as_hit(rows[r]),
    ) by {
        rows.lemma_filter_contains(keep, r);
        let i = choose|i: int| 0 <= i < kept.len() && kept[i] == rows[r];
        assert(hits[i] == as_hit(rows[r]));
    }
}

/// A scan returns at most `k` results, nearest first, each from a row that passes the
/// filters and the threshold.
pub proof fn law_scan_returns_matching_rows<T>(
    rows: Seq<Row<T>>,
    query: Seq<T>,
    k: nat,
    filters: Map<Seq<char>, Seq<char>>,
    threshold: Option<i32>,
    distance: spec_fn(Seq<T>, Seq<T>) -> i32,
)
    ensures
        ({
            let found = scanned(rows, query, k, filters, threshold, distance);
            &&& found.len() <= k
            &&& forall|i: int, j: int|
                0 <= i < j < found.len() ==> (#[trigger] found[i]).score <= (
                #[trigger] found[j]).score
            &&& forall|i: int|
                0 <= i < found.len() ==> {
                    &&& satisfies((#[trigger] found[i]).metadata, filters)
                    &&& threshold is Some ==> found[i].score <= threshold->0
                    &&& stems_from(found[i], rows, query, filters, threshold, distance)
                }
        }),
{
    let hits = matching_rows(rows, query, filters, threshold, distance);
    let found = scanned(rows, query, k, filters, threshold, distance);
    let order = stable_order(scores(hits));
    lemma_matches(rows, query, filters, threshold, distance);
    lemma_first_by_key(hits, scores(hits), k);
    assert forall|i: int| 0 <= i < found.len() implies {
        &&& satisfies((#[trigger] found[i]).metadata, filters)
        &&& threshold is Some ==> found[i].score <= threshold->0
        &&& stems_from(found[i], rows, query, filters, threshold, distance)
    } by {
        let p = order[i];
        assert(found[i] == hits[p]);
        let r = choose|r: int|
            0 <= r < rows.len() && is_match(query, filters, threshold, distance)(
                #[trigger] rows[r],
            ) && hits[p] == row_hit(query, distance)(rows[r]);
        assert(is_match(query, filters, threshold, distance)(rows[r]));
    }
    assert forall|i: int, j: int| 0 <= i < j < found.len() implies (#[trigger] found[i]).score <= (
    #[trigger] found[j]).score by {
        assert(scores(hits)[order[i]] == found[i].score);
        assert(scores(hits)[order[j]] == found[j].score);
    }
}

/// A scan leaves a matching row out only if it returns `k` results that are all at
/// least as near.
pub proof fn law_scan_returns_the_nearest_matches<T>(
    rows: Seq<Row<T>>,
    query: Seq<T>,
    k: nat,
    filters: Map<Seq<char>, Seq<char>>,
    threshold: Option<i32>,
    distance: spec_fn(Seq<T>, Seq<T>) -> i32,
    r: int,
)
    requires
        0 <= r < rows.len(),
        is_match(query, filters, threshold, distance)(rows[r]),
    ensures
        ({
            let found = scanned(rows, query, k, filters, threshold, distance);
            let hit = row_hit(query, distance)(rows[r]);
            !found.contains(hit) ==> {
                &&& found.len() == k
                &&& forall|i: int|
                    0 <= i < found.len() ==> (#[trigger] found[i]).score <= hit.score
            }
        }),
{
    let hits = matching_rows(rows, query, filters, threshold, distance);
    let found = scanned(rows, query, k, filters, threshold, distance);
    let hit = row_hit(query, distance)(rows[r]);
    let order = stable_order(scores(hits));
    lemma_matches(rows, query, filters, threshold, distance);
    lemma_first_by_key(hits, scores(hits), k);
    let p = choose|p: int| 0 <= p < hits.len() && hits[p] == hit;
    if !found.contains(hit) {
        assert(!found.contains(hits[p]));
        assert forall|i: int| 0 <= i < found.len() implies (#[trigger] found[i]).score
            <= hit.score by {
            assert(scores(hits)[order[i]] == found[i].score);
            assert(scores(hits)[p] == hit.score);
        }
    }
}

/// A scan does not depend on the vectors of rows whose metadata does not pass.
pub proof fn law_scan_reads_vectors_of_passing_rows_only<T>(
    rows: Seq<Row<T>>,
    others: Seq<Row<T>>,
    query: Seq<T>,
    k: nat,
    filters: Map<Seq<char>, Seq<char>>,
    threshold: Option<i32>,
    distance: spec_fn(Seq<T>, Seq<T>) -> i32,
)
    requires
        rows.len() == others.len(),
        forall|i: int|
            0 <= i < rows.len() ==> {
                &&& (#[trigger] rows[i]).id == (#[trigger] others[i]).id
                &&& rows[i].metadata == others[i].metadata
                &&& rows[i].metadata is Some && satisfies(rows[i].metadata->0, filters)
                    ==> rows[i].vector == others[i].vector
            },
    ensures
        scanned(rows, query, k, filters, threshold, distance) == scanned(
            others,
            query,
            k,
            filters,
            threshold,
            distance,
        ),
{
    lemma_same_matches(rows, others, query, filters, threshold, distance);
}

proof fn lemma_same_matches<T>(
    rows: Seq<Row<T>>,
    others: Seq<Row<T>>,
    query: Seq<T>,
    filters: Map<Seq<char>, Seq<char>>,
    threshold: Option<i32>,
    distance: spec_fn(Seq<T>, Seq<T>) -> i32,
)
    requires
        rows.len() == others.len(),
        forall|i: int|
            0 <= i < rows.len() ==> {
                &&& (#[trigger] rows[i]).id == (#[trigger] others[i]).id
                &&& rows[i].metadata == others[i].metadata
                &&& rows[i].metadata is Some && satisfies(rows[i].metadata->0, filters)
                    ==> rows[i].vector == others[i].vector
            },
    ensures
        rows.filter(is_match(query, filters, threshold, distance)) == others.filter(
            is_match(query, filters, threshold, distance),
        ),
    decreases rows.len(),
{
    reveal(Seq::filter);
    if rows.len() > 0 {
        let front = rows.drop_last();
        let other_front = others.drop_last();
        assert forall|i: int| 0 <= i < front.len() implies {
            &&& (#[trigger] front[i]).id == (#[trigger] other_front[i]).id
            &&& front[i].metadata == other_front[i].metadata
            &&& front[i].metadata is Some && satisfies(front[i].metadata->0, filters)
                ==> front[i].vector == other_front[i].vector
        } by {
            assert(front[i] == rows[i] && other_front[i] == others[i]);
        }
        lemma_same_matches(front, other_front, query, filters, threshold, distance);
        let last = rows.len() - 1;
        assert(rows[last].id == others[last].id);
        assert(is_match(query, filters, threshold, distance)(rows.last()) == is_match(
            query,
            filters,
            threshold,
            distance,
        )(others.last()));
    } else {
        assert(rows =~= others);
    }
}

/// A search returns at most `k` results, and all of them pass the filters.
pub proof fn law_results_pass_the_filters<T>(
    candidates: Seq<Hit<T>>,
    rows: Seq<Row<T>>,
    query: Seq<T>,
    k: nat,
    filters: Option<Map<Seq<char>, Seq<char>>>,
    threshold: Option<i32>,
    distance: spec_fn(Seq<T>, Seq<T>) -> i32,
)
    ensures
        ({
            let found = searched(candidates, rows, query, k, filters, threshold, distance);
            &&& found.len() <= k
            &&& filters is Some ==> forall|i: int|
                0 <= i < found.len() ==> satisfies((#[trigger] found[i]).metadata, filters->0)
        }),
{
    let kept = candidates.filter(passes(filters));
    let found = searched(candidates, rows, query, k, filters, threshold, distance);
    if filters_by(filters) && kept.len() < k {
        law_scan_returns_matching_rows(rows, query, k, filters->0, threshold, distance);
    } else if filters is Some {
        assert forall|i: int| 0 <= i < found.len() implies satisfies(
            (#[trigger] found[i]).metadata,
            filters->0,
        ) by {
            assert(found[i] == kept[i]);
            candidates.lemma_filter_pred(passes(filters), i);
        }
    }
}

/// A filtered search returns `k` results, or every stored vector that matches: however
/// few there are, none is missed.
pub proof fn law_filtered_search_misses_no_match<T>(
    candidates: Seq<Hit<T>>,
    rows: Seq<Row<T>>,
    query: Seq<T>,
    k: nat,
    filters: Option<Map<Seq<char>, Seq<char>>>,
    threshold: Option<i32>,
    distance: spec_fn(Seq<T>, Seq<T>) -> i32,
    r: int,
)
    requires
        filters_by(filters),
        0 <= r < rows.len(),
        is_match(query, filters->0, threshold, distance)(rows[r]),
    ensures
        ({
            let found = searched(candidates, rows, query, k, filters, threshold, distance);
            found.len() < k ==> found.contains(row_hit(query, distance)(rows[r]))
        }),
{
    law_scan_returns_the_nearest_matches(rows, query, k, filters->0, threshold, distance, r);
}

/// A search without filters returns its candidates as they are, up to `k`, and never
/// scans the storage.
pub proof fn law_unfiltered_search_returns_its_candidates<T>(
    candidates: Seq<Hit<T>>,
    rows: Seq<Row<T>>,
    query: Seq<T>,
    k: nat,
    filters: Option<Map<Seq<char>, Seq<char>>>,
    threshold: Option<i32>,
    distance: spec_fn(Seq<T>, Seq<T>) -> i32,
)
    requires
        !filters_by(filters),
    ensures
        searched(candidates, rows, query, k, filters, threshold, distance) == at_most(candidates, k),
{
    lemma_filter_keeps_all(candidates, passes(filters));
}

/// No two rows have the same id.
pub open spec fn row_ids_distinct<T>(rows: Seq<Row<T>>) -> bool {
    forall|i: int, j: int|
        0 <= i < j < rows.len() ==> (#[trigger] rows[i]).id != (#[trigger] rows[j]).id
}

/// No two results have the same id.
pub open spec fn hit_ids_distinct<T>(hits: Seq<Hit<T>>) -> bool {
    forall|i: int, j: int|
        0 <= i < j < hits.len() ==> (#[trigger] hits[i]).id != (#[trigger] hits[j]).id
}

/// The results come nearest first.
pub open spec fn scores_ascend<T>(hits: Seq<Hit<T>>) -> bool {
    forall|i: int, j: int|
        0 <= i < j < hits.len() ==> (#[trigger] hits[i]).score <= (#[trigger] hits[j]).score
}

/// A candidate is a stored row: the row has its id, the vector that the index has under
/// this id, and the metadata that was read for the candidate.
pub open spec fn is_row_of<T>(
    candidate: Hit<T>,
    found: Ranked,
    row: Row<T>,
    index: IndexView<T>,
) -> bool {
    &&& row.id == found.id
    &&& row.vector == Some(index.vectors[found.id])
    &&& candidate == enriched((bare_hit::<T>(found), row.metadata))
}

/// The candidates are what the index found, each with the metadata of a stored row that
/// has the indexed vector.
pub open spec fn are_stored_rows<T>(
    candidates: Seq<Hit<T>>,
    found: Seq<Ranked>,
    rows: Seq<Row<T>>,
    index: IndexView<T>,
) -> bool {
    &&& candidates.len() == found.len()
    &&& forall|i: int|
        0 <= i < found.len() ==> exists|r: int|
            0 <= r < rows.len() && is_row_of(
                #[trigger] candidates[i],
                found[i],
                #[trigger] rows[r],
                index,
            )
}

/// A selection keeps the order of the scores and holds no id twice if the list does not.
proof fn lemma_filter_hits<T>(list: Seq<Hit<T>>, keep: spec_fn(Hit<T>) -> bool)
    requires
        scores_ascend(list),
        hit_ids_distinct(list),
    ensures
        scores_ascend(list.filter(keep)),
        hit_ids_distinct(list.filter(keep)),
    decreases list.len(),
{
    reveal(Seq::filter);
    if list.len() > 0 {
        let front = list.drop_last();
        let last = list.last();
        let kept = list.filter(keep);
        let before = front.filter(keep);
        lemma_filter_hits(front, keep);
        assert forall|i: int, j: int| 0 <= i < j < kept.len() implies (#[trigger] kept[i]).score <= (
        #[trigger] kept[j]).score && kept[i].id != kept[j].id by {
            assert(kept[i] == before[i]);
            if j < before.len() {
                assert(kept[j] == before[j]);
            } else {
                front.lemma_filter_contains_rev(keep, before[i]);
                let k = choose|k: int| 0 <= k < front.len() && front[k] == before[i];
                assert(list[k] == before[i] && list[list.len() - 1] == last);
            }
        }
    }
}

/// A selection of rows with distinct ids has distinct ids.
proof fn lemma_filter_rows_distinct<T>(rows: Seq<Row<T>>, keep: spec_fn(Row<T>) -> bool)
    requires
        row_ids_distinct(rows),
    ensures
        row_ids_distinct(rows.filter(keep)),
    decreases rows.len(),
{
    reveal(Seq::filter);
    if rows.len() > 0 {
        let front = rows.drop_last();
        let kept = rows.filter(keep);
        let before = front.filter(keep);
        lemma_filter_rows_distinct(front, keep);
        assert forall|i: int, j: int| 0 <= i < j < kept.len() implies (#[trigger] kept[i]).id != (
        #[trigger] kept[j]).id by {
            assert(kept[i] == before[i]);
            if j < before.len() {
                assert(kept[j] == before[j]);
            } else {
                front.lemma_filter_contains_rev(keep, before[i]);
                let k = choose|k: int| 0 <= k < front.len() && front[k] == before[i];
                assert(rows[k].id != rows[rows.len() - 1].id);
            }
        }
    }
}

/// A scan returns as many results as there are matching rows, up to `k`, and none twice if
/// no id is stored twice.
pub proof fn law_scan_returns_each_match_once<T>(
    rows: Seq<Row<T>>,
    query: Seq<T>,
    k: nat,
    filters: Map<Seq<char>, Seq<char>>,
    threshold: Option<i32>,
    distance: spec_fn(Seq<T>, Seq<T>) -> i32,
)
    ensures
        ({
            let found = scanned(rows, query, k, filters, threshold, distance);
            let matching = matching_rows(rows, query, filters, threshold, distance);
            &&& found.len() == if k < matching.len() {
                k
            } else {
                matching.len()
            }
            &&& row_ids_distinct(rows) ==> hit_ids_distinct(found)
        }),
{
    let keep = is_match(query, filters, threshold, distance);
    let hits = matching_rows(rows, query, filters, threshold, distance);
    let found = scanned(rows, query, k, filters, threshold, distance);
    let order = stable_order(scores(hits));
    lemma_first_by_key(hits, scores(hits), k);
    lemma_stable_order(scores(hits));
    lemma_in_order_distinct(scores(hits), order);
    if row_ids_distinct(rows) {
        lemma_filter_rows_distinct(rows, keep);
        let kept = rows.filter(keep);
        assert forall|i: int, j: int| 0 <= i < j < found.len() implies (#[trigger] found[i]).id != (
        #[trigger] found[j]).id by {
            let p = order[i];
            let q = order[j];
            assert(p != q);
            assert(found[i].id == kept[p].id && found[j].id == kept[q].id);
            let (a, b) = if p < q { (p, q) } else { (q, p) };
            assert(kept[a].id != kept[b].id);
        }
    }
}

/// What a filtered search returns as a whole, when its candidates are stored rows with the
/// indexed vectors: as many results as there are matching rows, up to `k`, each of them a
/// matching row with its true distance, nearest first, none beyond the threshold, and no
/// id twice if none is stored twice.
pub proof fn law_filtered_search_returns_matching_rows<T>(
    index: IndexView<T>,
    candidates: Seq<Hit<T>>,
    rows: Seq<Row<T>>,
    query: Seq<T>,
    k: nat,
    count: nat,
    ef: nat,
    filters: Option<Map<Seq<char>, Seq<char>>>,
    threshold: Option<i32>,
    distance: spec_fn(Seq<T>, Seq<T>) -> i32,
    dimensions: nat,
    m: nat,
)
    requires
        index.valid(dimensions, m),
        filters_by(filters),
        are_stored_rows(candidates, index.hits(query, count, ef, threshold, distance), rows, index),
    ensures
        ({
            let found = searched(candidates, rows, query, k, filters, threshold, distance);
            let matching = matching_rows(rows, query, filters->0, threshold, distance);
            &&& found.len() == if k < matching.len() {
                k
            } else {
                matching.len()
            }
            &&& scores_ascend(found)
            &&& row_ids_distinct(rows) ==> hit_ids_distinct(found)
            &&& forall|i: int|
                0 <= i < found.len() ==> {
                    &&& stems_from(
                        #[trigger] found[i],
                        rows,
                        query,
                        filters->0,
                        threshold,
                        distance,
                    )
                    &&& satisfies(found[i].metadata, filters->0)
                    &&& threshold is Some ==> found[i].score <= threshold->0
                }
        }),
{
    let found = searched(candidates, rows, query, k, filters, threshold, distance);
    let matching = matching_rows(rows, query, filters->0, threshold, distance);
    let kept = candidates.filter(passes(filters));
    law_scan_returns_each_match_once(rows, query, k, filters->0, threshold, distance);
    law_scan_returns_matching_rows(rows, query, k, filters->0, threshold, distance);
    if kept.len() >= k {
        lemma_kept_candidates(
            index,
            candidates,
            rows,
            query,
            count,
            ef,
            filters,
            threshold,
            distance,
            dimensions,
            m,
        );
        lemma_matches(rows, query, filters->0, threshold, distance);
        assert forall|i: int| 0 <= i < found.len() implies {
            &&& stems_from(#[trigger] found[i], rows, query, filters->0, threshold, distance)
            &&& satisfies(found[i].metadata, filters->0)
            &&& threshold is Some ==> found[i].score <= threshold->0
        } by {
            assert(found[i] == kept[i]);
            let r = choose|r: int|
                0 <= r < rows.len() && is_match(query, filters->0, threshold, distance)(
                    #[trigger] rows[r],
                ) && kept[i] == row_hit(query, distance)(rows[r]);
            assert(is_match(query, filters->0, threshold, distance)(rows[r]));
        }
        assert(kept.no_duplicates());
        kept.unique_seq_to_set();
        matching.lemma_cardinality_of_set();
        assert forall|x: Hit<T>| kept.to_set().contains(x) implies matching.to_set().contains(x) by {
            let i = choose|i: int| 0 <= i < kept.len() && kept[i] == x;
            assert(stems_from(kept[i], rows, query, filters->0, threshold, distance));
            let r = choose|r: int|
                0 <= r < rows.len() && is_match(query, filters->0, threshold, distance)(
                    #[trigger] rows[r],
                ) && kept[i] == row_hit(query, distance)(rows[r]);
            assert(matching.contains(row_hit(query, distance)(rows[r])));
        }
        assert(kept.to_set().subset_of(matching.to_set()));
        vstd::set_lib::lemma_len_subset(kept.to_set(), matching.to_set());
    }
}

/// The candidates that pass are matching rows, nearest first, none twice.
proof fn lemma_kept_candidates<T>(
    index: IndexView<T>,
    candidates: Seq<Hit<T>>,
    rows: Seq<Row<T>>,
    query: Seq<T>,
    count: nat,
    ef: nat,
    filters: Option<Map<Seq<char>, Seq<char>>>,
    threshold: Option<i32>,
    distance: spec_fn(Seq<T>, Seq<T>) -> i32,
    dimensions: nat,
    m: nat,
)
    requires
        index.valid(dimensions, m),
        filters_by(filters),
        are_stored_rows(candidates, index.hits(query, count, ef, threshold, distance), rows, index),
    ensures
        ({
            let kept = candidates.filter(passes(filters));
            &&& scores_ascend(kept)
            &&& hit_ids_distinct(kept)
            &&& kept.no_duplicates()
            &&& forall|i: int|
                0 <= i < kept.len() ==> stems_from(
                    #[trigger] kept[i],
                    rows,
                    query,
                    filters->0,
                    threshold,
                    distance,
                )
        }),
{
    let found = index.hits(query, count, ef, threshold, distance);
    let kept = candidates.filter(passes(filters));
    law_search_returns_near_stored_vectors(
        index,
        query,
        count,
        ef,
        threshold,
        distance,
        dimensions,
        m,
    );
    assert forall|i: int| 0 <= i < candidates.len() implies (#[trigger] candidates[i]).id
        == found[i].id && candidates[i].score == found[i].distance && candidates[i].vector is None by {
        let r = choose|r: int|
            0 <= r < rows.len() && is_row_of(
                #[trigger] candidates[i],
                found[i],
                #[trigger] rows[r],
                index,
            );
        assert(is_row_of(candidates[i], found[i], rows[r], index));
    }
    assert forall|i: int, j: int| 0 <= i < j < candidates.len() implies (
    #[trigger] candidates[i]).score <= (#[trigger] candidates[j]).score && candidates[i].id
        != candidates[j].id by {
        assert(closer(found[i], found[j]));
        assert(found[i].id != found[j].id);
    }
    lemma_filter_hits(candidates, passes(filters));
    assert(kept.no_duplicates()) by {
        assert forall|i: int, j: int|
            0 <= i < kept.len() && 0 <= j < kept.len() && i != j implies kept[i] != kept[j] by {
            let (a, b) = if i < j { (i, j) } else { (j, i) };
            assert(kept[a].id != kept[b].id);
        }
    }
    assert forall|i: int| 0 <= i < kept.len() implies stems_from(
        #[trigger] kept[i],
        rows,
        query,
        filters->0,
        threshold,
        distance,
    ) by {
        candidates.lemma_filter_pred(passes(filters), i);
        candidates.lemma_filter_contains_rev(passes(filters), kept[i]);
        let c = choose|c: int| 0 <= c < candidates.len() && candidates[c] == kept[i];
        let r = choose|r: int|
            0 <= r < rows.len() && is_row_of(
                #[trigger] candidates[c],
                found[c],
                #[trigger] rows[r],
                index,
            );
        let row = rows[r];
        assert(is_row_of(candidates[c], found[c], row, index));
        assert(satisfies(kept[i].metadata, filters->0));
        if row.metadata is None {
            assert(kept[i].metadata == Map::<Seq<char>, Seq<char>>::empty());
            assert(filters->0 =~= Map::empty());
        }
        assert(within(threshold)(Ranked { distance: distance(query, row.vector->0), id: row.id }));
        assert(is_match(query, filters->0, threshold, distance)(row));
        assert(kept[i] == row_hit(query, distance)(row));
    }
}

/// A filtered search for `k` results fetches twenty times as many candidates, but at least
/// five hundred and at most two thousand. Its beam is as wide, or as wide as asked for if
/// that is wider.
pub proof fn law_filtered_search_fetches_twentyfold(k: nat, asked: Option<usize>, count: usize)
    ensures
        k < 25 ==> fetch_count(k, true) == 500,
        25 <= k <= 100 ==> fetch_count(k, true) == 20 * k,
        k > 100 ==> fetch_count(k, true) == 2000,
        asked is None && count > 0 ==> fetch_beam(asked, count, true) == Some(count),
        asked is Some && asked->0 < count ==> fetch_beam(asked, count, true) == Some(count),
        asked is Some && asked->0 >= count ==> fetch_beam(asked, count, true) == asked,
{
}

/// A search is filtered exactly if it has filters and these are not empty.
pub proof fn law_empty_filters_filter_nothing<T>(
    query: SearchQuery<T>,
    filters: Option<Map<Seq<char>, Seq<char>>>,
    hit: Hit<T>,
)
    ensures
        filters_by(filters) <==> filters is Some && filters->0 != Map::<
            Seq<char>,
            Seq<char>,
        >::empty(),
        !filters_by(filters) ==> passes(filters)(hit),
        query.filters is None ==> query.filter_map() is None,
        query.filters is Some ==> query.filter_map() == Some(query.filters->0@),
{
}

/// A candidate keeps its id, its distance and its components, and gets the metadata that was
/// read for it; where none was stored it keeps its own.
pub proof fn law_candidates_get_their_metadata<T>(
    pairs: Seq<(SearchResult<T>, Option<Metadata>)>,
)
    ensures
        enriched_list(pairs).len() == pairs.len(),
        forall|i: int|
            0 <= i < pairs.len() ==> {
                &&& (#[trigger] enriched_list(pairs)[i]).id == pairs[i].0.id@
                &&& enriched_list(pairs)[i].score == pairs[i].0.score
                &&& pairs[i].1 is Some ==> enriched_list(pairs)[i].metadata == pairs[i].1->0@
                &&& pairs[i].1 is None ==> enriched_list(pairs)[i].metadata
                    == pairs[i].0.metadata@
                &&& pairs[i].0.vector is None ==> enriched_list(pairs)[i].vector is None
                &&& pairs[i].0.vector is Some ==> enriched_list(pairs)[i].vector == Some(
                    pairs[i].0.vector->0@,
                )
            },
{
}

/// The view of a stored vector shows its fields as they are, and a list of them shows each
/// in its place.
pub proof fn law_row_views<T>(rows: Seq<StoredVector<T>>)
    ensures
        row_list(rows).len() == rows.len(),
        forall|i: int|
            0 <= i < rows.len() ==> {
                &&& (#[trigger] row_list(rows)[i]).id == rows[i].id@
                &&& row_list(rows)[i].metadata is Some <==> rows[i].metadata is Some
                &&& rows[i].metadata is Some ==> row_list(rows)[i].metadata->0
                    == rows[i].metadata->0@
                &&& row_list(rows)[i].vector is Some <==> rows[i].vector is Some
                &&& rows[i].vector is Some ==> row_list(rows)[i].vector->0 == rows[i].vector->0@
            },
{
}

/// A row matches exactly if it has metadata that holds the very value of each filter under
/// its key, and a vector that is no further from the query than the threshold. It is then a
/// result with its own id and metadata and its distance to the query.
pub proof fn law_a_row_matches_by_equal_values<T>(
    row: Row<T>,
    query: Seq<T>,
    filters: Map<Seq<char>, Seq<char>>,
    threshold: Option<i32>,
    distance: spec_fn(Seq<T>, Seq<T>) -> i32,
)
    ensures
        is_match(query, filters, threshold, distance)(row) <==> {
            &&& row.metadata is Some
            &&& row.vector is Some
            &&& forall|key: Seq<char>| #[trigger]
                filters.contains_key(key) ==> row.metadata->0.contains_key(key)
                    && row.metadata->0[key] == filters[key]
            &&& threshold is Some ==> distance(query, row.vector->0) <= threshold->0
        },
        row_hit(query, distance)(row).id == row.id,
        row_hit(query, distance)(row).score == distance(query, row.vector->0),
        row_hit(query, distance)(row).metadata == row.metadata->0,
        row_hit(query, distance)(row).vector is None,
{
}

/// Every result of a filtered search has, under every key of the filters, exactly the value
/// of the filter, whether the storage was scanned or not.
pub proof fn law_results_have_the_values_of_the_filters<T>(
    candidates: Seq<Hit<T>>,
    rows: Seq<Row<T>>,
    query: Seq<T>,
    k: nat,
    filters: Map<Seq<char>, Seq<char>>,
    threshold: Option<i32>,
    distance: spec_fn(Seq<T>, Seq<T>) -> i32,
    i: int,
    key: Seq<char>,
)
    requires
        0 <= i < searched(candidates, rows, query, k, Some(filters), threshold, distance).len(),
        filters.contains_key(key),
    ensures
        searched(
            candidates,
            rows,
            query,
            k,
            Some(filters),
            threshold,
            distance,
        )[i].metadata.contains_key(key),
        searched(candidates, rows, query, k, Some(filters), threshold, distance)[i].metadata[key]
            == filters[key],
{
    law_results_pass_the_filters(candidates, rows, query, k, Some(filters), threshold, distance);
    let found = searched(candidates, rows, query, k, Some(filters), threshold, distance);
    assert(satisfies(found[i].metadata, filters));
}

/// Whether a candidate has, under every key of the filters, exactly the value of the filter.
pub open spec fn has_values_of<T>(hit: Hit<T>, filters: Map<Seq<char>, Seq<char>>) -> bool {
    forall|key: Seq<char>| #[trigger]
        filters.contains_key(key) ==> hit.metadata.contains_key(key) && hit.metadata[key]
            == filters[key]
}

/// The storage is scanned exactly if the filters are not empty and fewer than `k` candidates
/// have their values. If it is not, the results are the first `k` candidates with these
/// values, as they stand, and no such candidate is left out before `k` are found.
pub proof fn law_candidates_with_the_values_are_kept<T>(
    candidates: Seq<Hit<T>>,
    rows: Seq<Row<T>>,
    query: Seq<T>,
    k: nat,
    filters: Map<Seq<char>, Seq<char>>,
    threshold: Option<i32>,
    distance: spec_fn(Seq<T>, Seq<T>) -> i32,
)
    ensures
        ({
            let kept = candidates.filter(|hit: Hit<T>| has_values_of(hit, filters));
            let found = searched(candidates, rows, query, k, Some(filters), threshold, distance);
            &&& needs_scan(candidates, k, Some(filters)) <==> filters != Map::<
                Seq<char>,
                Seq<char>,
            >::empty() && kept.len() < k
            &&& !needs_scan(candidates, k, Some(filters)) && kept.len() <= k ==> found == kept
            &&& !needs_scan(candidates, k, Some(filters)) && kept.len() > k ==> found == kept.take(
                k as int,
            )
            &&& !needs_scan(candidates, k, Some(filters)) && found.len() < k ==> forall|c: int|
                0 <= c < candidates.len() && has_values_of(#[trigger] candidates[c], filters)
                    ==> found.contains(candidates[c])
        }),
{
    let has_values = |hit: Hit<T>| has_values_of(hit, filters);
    let kept = candidates.filter(has_values);
    let found = searched(candidates, rows, query, k, Some(filters), threshold, distance);
    assert(has_values =~= passes::<T>(Some(filters)));
    if !needs_scan(candidates, k, Some(filters)) && found.len() < k {
        assert forall|c: int|
            0 <= c < candidates.len() && has_values_of(
                #[trigger] candidates[c],
                filters,
            ) implies found.contains(candidates[c]) by {
            candidates.lemma_filter_contains(has_values, c);
        }
    }
}

/// A stored row with the values of the filters and a vector no further than the threshold is
/// never missed: a filtered search returns it, or `k` other results. Where the storage was
/// scanned these are all at least as near.
pub proof fn law_no_row_with_the_values_is_missed<T>(
    candidates: Seq<Hit<T>>,
    rows: Seq<Row<T>>,
    query: Seq<T>,
    k: nat,
    filters: Map<Seq<char>, Seq<char>>,
    threshold: Option<i32>,
    distance: spec_fn(Seq<T>, Seq<T>) -> i32,
    r: int,
)
    requires
        filters != Map::<Seq<char>, Seq<char>>::empty(),
        0 <= r < rows.len(),
        rows[r].metadata is Some,
        rows[r].vector is Some,
        forall|key: Seq<char>| #[trigger]
            filters.contains_key(key) ==> rows[r].metadata->0.contains_key(key)
                && rows[r].metadata->0[key] == filters[key],
        threshold is Some ==> distance(query, rows[r].vector->0) <= threshold->0,
    ensures
        ({
            let found = searched(candidates, rows, query, k, Some(filters), threshold, distance);
            let hit = Hit {
                id: rows[r].id,
                score: distance(query, rows[r].vector->0),
                metadata: rows[r].metadata->0,
                vector: None,
            };
            &&& found.len() <= k
            &&& found.len() < k ==> found.contains(hit)
            &&& needs_scan(candidates, k, Some(filters)) && !found.contains(hit) ==> forall|i: int|
                0 <= i < found.len() ==> (#[trigger] found[i]).score <= distance(
                    query,
                    rows[r].vector->0,
                )
        }),
{
    assert(is_match(query, filters, threshold, distance)(rows[r]));
    law_results_pass_the_filters(candidates, rows, query, k, Some(filters), threshold, distance);
    law_scan_returns_the_nearest_matches(rows, query, k, filters, threshold, distance, r);
}

/// A scan takes the rows in order of their distance, and equally near ones as they stand:
/// its results stand for different places among the matching rows, and of two with the
/// same distance the earlier row comes first.
pub proof fn law_scan_keeps_equally_near_rows_in_place<T>(
    rows: Seq<Row<T>>,
    query: Seq<T>,
    k: nat,
    filters: Map<Seq<char>, Seq<char>>,
    threshold: Option<i32>,
    distance: spec_fn(Seq<T>, Seq<T>) -> i32,
)
    ensures
        exists|places: Seq<int>|
            {
                let kept = rows.filter(is_match(query, filters, threshold, distance));
                let found = scanned(rows, query, k, filters, threshold, distance);
                &&& places.len() == found.len()
                &&& #[trigger] places.no_duplicates()
                &&& forall|i: int|
                    0 <= i < found.len() ==> {
                        &&& 0 <= #[trigger] places[i] < kept.len()
                        &&& found[i].id == kept[places[i]].id
                        &&& found[i].score == distance(query, kept[places[i]].vector->0)
                        &&& found[i].metadata == kept[places[i]].metadata->0
                        &&& found[i].vector is None
                    }
                &&& forall|i: int, j: int|
                    0 <= i < j < found.len() && found[i].score == found[j].score
                        ==> #[trigger] places[i] < #[trigger] places[j]
            },
{
    let keep = is_match(query, filters, threshold, distance);
    let kept = rows.filter(keep);
    let hits = matching_rows(rows, query, filters, threshold, distance);
    let found = scanned(rows, query, k, filters, threshold, distance);
    let order = stable_order(scores(hits));
    lemma_first_by_key(hits, scores(hits), k);
    law_stable_order_lists_positions_by_key(scores(hits));
    let places = order.take(found.len() as int);
    assert(places.no_duplicates());
    assert forall|i: int| 0 <= i < found.len() implies {
        &&& 0 <= #[trigger] places[i] < kept.len()
        &&& found[i].id == kept[places[i]].id
        &&& found[i].score == distance(query, kept[places[i]].vector->0)
        &&& found[i].metadata == kept[places[i]].metadata->0
        &&& found[i].vector is None
    } by {
        assert(places[i] == order[i]);
        assert(hits[order[i]] == row_hit(query, distance)(kept[order[i]]));
    }
    assert forall|i: int, j: int|
        0 <= i < j < found.len() && found[i].score == found[j].score implies #[trigger] places[i]
        < #[trigger] places[j] by {
        assert(places[i] == order[i] && places[j] == order[j]);
        assert(scores(hits)[order[i]] == found[i].score);
        assert(scores(hits)[order[j]] == found[j].score);
    }
}

} // verus!
