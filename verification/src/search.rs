//! Filtered search: how many candidates to fetch, which of them to keep, and the scan
//! of the whole storage when too few are left.

use crate::distance::{is_measure, measure};
use crate::index::distance_by;
use crate::index_model::within;
use crate::lists::{at_most, lemma_filter_next};
use crate::metadata::{satisfies, Metadata};
use crate::ranking::Ranked;
use crate::sorting::{
    first_by_key, lemma_in_order_distinct, order_by_key, positions, stable_order,
};
use crate::types::{hit_list, DistanceMetric, Hit, SearchQuery, SearchResult};
use vstd::prelude::*;

verus! {

/// A filtered search fetches this many candidates for each wanted result.
pub const OVERFETCH_FACTOR: usize = 20;

/// A filtered search fetches at least this many candidates.
pub const OVERFETCH_MIN: usize = 500;

/// A filtered search fetches at most this many candidates.
pub const OVERFETCH_CAP: usize = 2000;

/// How many candidates to fetch for `k` results.
pub open spec fn fetch_count(k: nat, filtered: bool) -> nat {
    if !filtered {
        k
    } else if k * OVERFETCH_FACTOR < OVERFETCH_MIN {
        OVERFETCH_MIN as nat
    } else if k * OVERFETCH_FACTOR > OVERFETCH_CAP {
        OVERFETCH_CAP as nat
    } else {
        (k * OVERFETCH_FACTOR) as nat
    }
}

/// The beam that fetches `count` candidates: the one asked for, unless the results are
/// filtered and it is narrower than `count`. Without one, the configured beam is used.
pub open spec fn fetch_beam(asked: Option<usize>, count: usize, filtered: bool) -> Option<usize> {
    let own: usize = match asked {
        Some(ef) => ef,
        None => 0,
    };
    if filtered && count > own {
        Some(count)
    } else {
        asked
    }
}

/// Whether there is anything to filter by.
pub open spec fn filters_by(filters: Option<Map<Seq<char>, Seq<char>>>) -> bool {
    filters is Some && filters->0 != Map::<Seq<char>, Seq<char>>::empty()
}

impl<T> SearchQuery<T> {
    /// What the results are filtered by.
    pub open spec fn filter_map(&self) -> Option<Map<Seq<char>, Seq<char>>> {
        match self.filters {
            Some(filters) => Some(filters@),
            None => None,
        }
    }

    /// Whether the results are filtered.
    pub fn has_filters(&self) -> (filtered: bool)
        ensures
            filtered == filters_by(self.filter_map()),
            filtered == (self.filters is Some && self.filters->0@ != Map::<
                Seq<char>,
                Seq<char>,
            >::empty()),
    {
        match &self.filters {
            Some(filters) => !filters.is_empty(),
            None => false,
        }
    }

    /// How many candidates to fetch from the index.
    pub fn fetch_count(&self) -> (count: usize)
        ensures
            count == fetch_count(self.k as nat, filters_by(self.filter_map())),
    {
        if !self.has_filters() {
            return self.k;
        }
        let wanted: usize = match self.k.checked_mul(OVERFETCH_FACTOR) {
            Some(wanted) => wanted,
            None => usize::MAX,
        };
        if wanted < OVERFETCH_MIN {
            OVERFETCH_MIN
        } else if wanted > OVERFETCH_CAP {
            OVERFETCH_CAP
        } else {
            wanted
        }
    }

    /// The beam of the index that fetches the candidates, unless it is the configured one.
    pub fn fetch_beam(&self) -> (beam: Option<usize>)
        ensures
            beam == fetch_beam(
                self.ef_search,
                fetch_count(self.k as nat, filters_by(self.filter_map())) as usize,
                filters_by(self.filter_map()),
            ),
    {
        if !self.has_filters() {
            return self.ef_search;
        }
        let count: usize = self.fetch_count();
        let own: usize = match self.ef_search {
            Some(ef) => ef,
            None => 0,
        };
        if count > own {
            Some(count)
        } else {
            self.ef_search
        }
    }
}

/// What a search needs next.
pub enum SearchStep<T> {
    /// The metadata of these candidates, with which `with_metadata` goes on.
    ReadMetadata(Vec<SearchResult<T>>),
    /// Everything stored, with which `brute_force_filtered_search` goes on.
    ScanStorage,
    /// Nothing: these are the results.
    Done(Vec<SearchResult<T>>),
}

/// A candidate together with its metadata, if any was stored.
pub open spec fn pair_view<T>(pair: (SearchResult<T>, Option<Metadata>)) -> (
    Hit<T>,
    Option<Map<Seq<char>, Seq<char>>>,
) {
    (
        pair.0@,
        match pair.1 {
            Some(metadata) => Some(metadata@),
            None => None,
        },
    )
}

/// The candidate with its metadata filled in.
pub open spec fn enriched<T>(pair: (Hit<T>, Option<Map<Seq<char>, Seq<char>>>)) -> Hit<T> {
    match pair.1 {
        Some(metadata) => Hit { metadata, ..pair.0 },
        None => pair.0,
    }
}

/// The candidates with their metadata filled in.
pub open spec fn enriched_list<T>(pairs: Seq<(SearchResult<T>, Option<Metadata>)>) -> Seq<Hit<T>> {
    pairs.map_values(|pair: (SearchResult<T>, Option<Metadata>)| enriched(pair_view(pair)))
}

/// Whether a result has the metadata that is filtered by.
pub open spec fn passes<T>(filters: Option<Map<Seq<char>, Seq<char>>>) -> spec_fn(Hit<T>) -> bool {
    |hit: Hit<T>| filters is Some ==> satisfies(hit.metadata, filters->0)
}

/// A stored vector as a scan reads it.
pub struct StoredVector<T> {
    /// The vector's id.
    pub id: String,
    /// Its metadata, if any is stored.
    pub metadata: Option<Metadata>,
    /// Its components, if they are stored.
    pub vector: Option<Vec<T>>,
}

/// A stored vector, over its text, its metadata as a map and its components.
pub struct Row<T> {
    pub id: Seq<char>,
    pub metadata: Option<Map<Seq<char>, Seq<char>>>,
    pub vector: Option<Seq<T>>,
}

impl<T> View for StoredVector<T> {
    type V = Row<T>;

    open spec fn view(&self) -> Row<T> {
        Row {
            id: self.id@,
            metadata: match self.metadata {
                Some(metadata) => Some(metadata@),
                None => None,
            },
            vector: match self.vector {
                Some(vector) => Some(vector@),
                None => None,
            },
        }
    }
}

/// The rows of a scan.
pub open spec fn row_list<T>(rows: Seq<StoredVector<T>>) -> Seq<Row<T>> {
    rows.map_values(|row: StoredVector<T>| row@)
}

/// A row as a result.
pub open spec fn row_hit<T>(
    query: Seq<T>,
    distance: spec_fn(Seq<T>, Seq<T>) -> i32,
) -> spec_fn(Row<T>) -> Hit<T> {
    |row: Row<T>|
        Hit {
            id: row.id,
            score: distance(query, row.vector->0),
            metadata: row.metadata->0,
            vector: None,
        }
}

/// Whether a row is a result: it has a vector no further than the threshold and the
/// metadata that is filtered by.
pub open spec fn is_match<T>(
    query: Seq<T>,
    filters: Map<Seq<char>, Seq<char>>,
    threshold: Option<i32>,
    distance: spec_fn(Seq<T>, Seq<T>) -> i32,
) -> spec_fn(Row<T>) -> bool {
    |row: Row<T>|
        {
            &&& row.metadata is Some
            &&& satisfies(row.metadata->0, filters)
            &&& row.vector is Some
            &&& within(threshold)(
                Ranked { distance: distance(query, row.vector->0), id: row.id },
            )
        }
}

/// Every row that is a result, as the rows stand.
pub open spec fn matching_rows<T>(
    rows: Seq<Row<T>>,
    query: Seq<T>,
    filters: Map<Seq<char>, Seq<char>>,
    threshold: Option<i32>,
    distance: spec_fn(Seq<T>, Seq<T>) -> i32,
) -> Seq<Hit<T>> {
    rows.filter(is_match(query, filters, threshold, distance)).map_values(row_hit(query, distance))
}

/// The scores of a list of results.
pub open spec fn scores<T>(hits: Seq<Hit<T>>) -> Seq<i32> {
    hits.map_values(|hit: Hit<T>| hit.score)
}

/// What a scan returns: the `k` nearest rows that are results, nearest first, equally
/// near ones as they stand.
pub open spec fn scanned<T>(
    rows: Seq<Row<T>>,
    query: Seq<T>,
    k: nat,
    filters: Map<Seq<char>, Seq<char>>,
    threshold: Option<i32>,
    distance: spec_fn(Seq<T>, Seq<T>) -> i32,
) -> Seq<Hit<T>> {
    let hits = matching_rows(rows, query, filters, threshold, distance);
    first_by_key(hits, scores(hits), k)
}

impl<T> SearchQuery<T> {
    /// Goes on with a search: fills in the metadata of the candidates and keeps those that
    /// pass the filters. When fewer than `k` are left of a filtered search, the storage
    /// must be scanned; otherwise they are what the search returns, whatever is stored.
    pub fn with_metadata(
        &self,
        candidates: Vec<(SearchResult<T>, Option<Metadata>)>,
    ) -> (step: SearchStep<T>)
        ensures
            ({
                let found = enriched_list(candidates@);
                if needs_scan(found, self.k as nat, self.filter_map()) {
                    step is ScanStorage
                } else {
                    &&& step is Done
                    &&& hit_list(step->Done_0@) == at_most(
                        found.filter(passes(self.filter_map())),
                        self.k as nat,
                    )
                }
            }),
            forall|rows: Seq<Row<T>>, distance: spec_fn(Seq<T>, Seq<T>) -> i32| #[trigger]
                searched(
                    enriched_list(candidates@),
                    rows,
                    self.vector@,
                    self.k as nat,
                    self.filter_map(),
                    self.threshold,
                    distance,
                ) == if step is ScanStorage {
                    scanned(
                        rows,
                        self.vector@,
                        self.k as nat,
                        self.filter_map()->0,
                        self.threshold,
                        distance,
                    )
                } else {
                    hit_list(step->Done_0@)
                },
    {
        let ghost pairs = candidates@;
        let ghost all = enriched_list(pairs);
        let ghost keep = passes(self.filter_map());
        let mut kept: Vec<SearchResult<T>> = Vec::new();
        assert(hit_list(kept@) =~= all.take(0).filter(keep)) by {
            assert(all.take(0) =~= Seq::empty());
            reveal(Seq::filter);
        }
        for pair in it: candidates.into_iter()
            invariant
                it.seq() == pairs,
                all == enriched_list(pairs),
                keep == passes::<T>(self.filter_map()),
                hit_list(kept@) == all.take(it.index() as int).filter(keep),
        {
            let ghost i = it.index() as int;
            let ghost before = hit_list(kept@);
            proof {
                assert(all[i] == enriched(pair_view(pair)));
                lemma_filter_next(all, keep, i);
            }
            let (candidate, stored) = pair;
            let metadata = match stored {
                Some(metadata) => metadata,
                None => candidate.metadata,
            };
            let wanted: bool = match &self.filters {
                Some(filters) => metadata.matches_all(filters),
                None => true,
            };
            if wanted {
                let result = SearchResult {
                    id: candidate.id,
                    score: candidate.score,
                    metadata,
                    vector: candidate.vector,
                };
                assert(result@ == all[i]);
                kept.push(result);
                assert(hit_list(kept@) =~= before.push(all[i]));
            }
        }
        assert(all.take(all.len() as int) =~= all);
        if self.has_filters() && kept.len() < self.k {
            SearchStep::ScanStorage
        } else {
            let ghost whole = hit_list(kept@);
            kept.truncate(self.k);
            assert(hit_list(kept@) =~= at_most(whole, self.k as nat));
            SearchStep::Done(kept)
        }
    }
}

/// Whether the storage must be scanned: fewer than `k` candidates of a filtered search
/// pass.
pub open spec fn needs_scan<T>(
    candidates: Seq<Hit<T>>,
    k: nat,
    filters: Option<Map<Seq<char>, Seq<char>>>,
) -> bool {
    filters_by(filters) && candidates.filter(passes(filters)).len() < k
}

/// What a search returns: the candidates that pass the filters, or the scan of all rows
/// when fewer than `k` of a filtered search pass.
pub open spec fn searched<T>(
    candidates: Seq<Hit<T>>,
    rows: Seq<Row<T>>,
    query: Seq<T>,
    k: nat,
    filters: Option<Map<Seq<char>, Seq<char>>>,
    threshold: Option<i32>,
    distance: spec_fn(Seq<T>, Seq<T>) -> i32,
) -> Seq<Hit<T>> {
    if needs_scan(candidates, k, filters) {
        scanned(rows, query, k, filters->0, threshold, distance)
    } else {
        at_most(candidates.filter(passes(filters)), k)
    }
}

/// Searches everything stored: keeps the rows that are results and returns the `k`
/// nearest. Without filters there is nothing to scan for.
pub fn scan<T, F: Fn(&[T], &[T], DistanceMetric) -> Option<i32>>(
    query: &SearchQuery<T>,
    rows: Vec<StoredVector<T>>,
    calculate_distance: &F,
    metric: DistanceMetric,
) -> (results: Vec<SearchResult<T>>)
    requires
        is_measure::<T, F>(*calculate_distance),
    ensures
        hit_list(results@) == if filters_by(query.filter_map()) {
            scanned(
                row_list(rows@),
                query.vector@,
                query.k as nat,
                query.filter_map()->0,
                query.threshold,
                distance_by(*calculate_distance, metric),
            )
        } else {
            Seq::empty()
        },
{
    let mut hits: Vec<SearchResult<T>> = Vec::new();
    let mut keys: Vec<i32> = Vec::new();
    let filters: &Metadata = match &query.filters {
        Some(filters) => filters,
        None => {
            assert(hit_list(hits@) =~= Seq::empty());
            return hits;
        },
    };
    if filters.is_empty() {
        assert(hit_list(hits@) =~= Seq::empty());
        return hits;
    }
    let ghost stored = rows@;
    let ghost all = row_list(stored);
    let ghost distance = distance_by(*calculate_distance, metric);
    let ghost keep = is_match(query.vector@, filters@, query.threshold, distance);
    let ghost as_hit = row_hit(query.vector@, distance);
    assert(hit_list(hits@) =~= all.take(0).filter(keep).map_values(as_hit)) by {
        assert(all.take(0) =~= Seq::empty());
        reveal(Seq::filter);
    }
    assert(keys@ =~= scores(hit_list(hits@)));
    for row in it: rows.into_iter()
        invariant
            is_measure::<T, F>(*calculate_distance),
            it.seq() == stored,
            all == row_list(stored),
            distance == distance_by(*calculate_distance, metric),
            keep == is_match(query.vector@, filters@, query.threshold, distance),
            as_hit == row_hit(query.vector@, distance),
            hit_list(hits@) == all.take(it.index() as int).filter(keep).map_values(as_hit),
            keys@ == scores(hit_list(hits@)),
    {
        let ghost i = it.index() as int;
        let ghost before = all.take(i).filter(keep);
        proof {
            assert(all[i] == row@);
            lemma_filter_next(all, keep, i);
        }
        match (row.metadata, row.vector) {
            (Some(metadata), Some(vector)) => {
                if metadata.matches_all(filters) {
                    let score: i32 = measure(
                        calculate_distance,
                        query.vector.as_slice(),
                        vector.as_slice(),
                        metric,
                    );
                    let near: bool = match query.threshold {
                        Some(limit) => score <= limit,
                        None => true,
                    };
                    if near {
                        let result = SearchResult { id: row.id, score, metadata, vector: None };
                        assert(result@ == as_hit(all[i]));
                        hits.push(result);
                        keys.push(score);
                        assert(before.push(all[i]).map_values(as_hit) =~= before.map_values(
                            as_hit,
                        ).push(as_hit(all[i])));
                        assert(hit_list(hits@) =~= before.map_values(as_hit).push(as_hit(all[i])));
                        assert(keys@ =~= scores(hit_list(hits@)));
                    }
                }
            },
            _ => {},
        }
    }
    assert(all.take(all.len() as int) =~= all);
    take_nearest(hits, &keys, query.k)
}

/// The first `k` results by increasing key, equal keys as they stand.
fn take_nearest<T>(hits: Vec<SearchResult<T>>, keys: &Vec<i32>, k: usize) -> (nearest: Vec<
    SearchResult<T>,
>)
    requires
        keys@.len() == hits@.len(),
    ensures
        hit_list(nearest@) == first_by_key(hit_list(hits@), keys@, k as nat),
{
    let order = order_by_key(keys);
    let ghost listed = stable_order(keys@);
    proof {
        lemma_in_order_distinct(keys@, listed);
    }
    let ghost all = hits@;
    let mut slots: Vec<Option<SearchResult<T>>> = Vec::new();
    for hit in it: hits.into_iter()
        invariant
            it.seq() == all,
            slots@.len() == it.index(),
            forall|p: int| 0 <= p < slots@.len() ==> #[trigger] slots@[p] == Some(all[p]),
    {
        slots.push(Some(hit));
    }
    let mut nearest: Vec<SearchResult<T>> = Vec::new();
    let mut i: usize = 0;
    while i < order.len() && i < k
        invariant
            i <= order@.len(),
            i <= k,
            listed == positions(order@),
            listed.no_duplicates(),
            listed.len() == all.len(),
            slots@.len() == all.len(),
            forall|j: int| 0 <= j < listed.len() ==> 0 <= #[trigger] listed[j] < all.len(),
            forall|j: int|
                i <= j < listed.len() ==> slots@[#[trigger] listed[j]] == Some(all[listed[j]]),
            hit_list(nearest@) == Seq::new(i as nat, |j: int| hit_list(all)[listed[j]]),
        decreases order@.len() - i,
    {
        let p: usize = order[i];
        assert(listed[i as int] == p);
        slots.push(None);
        let slot = slots.swap_remove(p);
        let ghost before = hit_list(nearest@);
        match slot {
            Some(hit) => {
                nearest.push(hit);
                assert(hit_list(nearest@) =~= before.push(hit_list(all)[p as int]));
            },
            None => {},
        }
        i = i + 1;
        assert(hit_list(nearest@) =~= Seq::new(i as nat, |j: int| hit_list(all)[listed[j]]));
    }
    assert(hit_list(nearest@) =~= first_by_key(hit_list(all), keys@, k as nat));
    nearest
}

} // verus!
