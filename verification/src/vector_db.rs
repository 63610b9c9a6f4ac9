//! The vector database: an index over the vectors that a storage holds.
//!
//! The storage is read and written by the caller. Each operation here takes what the
//! storage said and does the rest; a search says step by step what to read next.

use crate::distance::is_measure;
use crate::error::VectorDbError;
use crate::index::{batch, distance_by, HnswConfig, HnswIndex};
use crate::index_model::{accepted, lemma_accepted, IndexView};
use crate::lists::texts;
use crate::metadata::Metadata;
use crate::search::{
    fetch_beam, fetch_count, filters_by, row_list, scan, scanned, SearchStep, StoredVector,
};
use crate::types::{
    bare_hits, hit_list, DistanceMetric, QuantizationType, SearchQuery, SearchResult, VectorDbConfig, VectorDbStats, VectorEntry,
};
use vstd::prelude::*;

verus! {

/// What a vector database holds besides its storage.
#[verifier::ext_equal]
pub struct DbView<T> {
    pub index: IndexView<T>,
    pub stats: VectorDbStats,
}

/// A vector database of vectors with components of type `T`.
#[verifier::reject_recursive_types(T)]
pub struct VectorDB<T, F> {
    config: VectorDbConfig,
    index: HnswIndex<T, F>,
    stats: VectorDbStats,
}

/// The index settings of a database with these settings.
pub open spec fn index_config(config: VectorDbConfig) -> HnswConfig {
    HnswConfig {
        m: config.hnsw_m,
        ef_construction: config.hnsw_ef_construction,
        ef_search: config.hnsw_ef_search,
        metric: config.distance_metric,
        dimensions: config.dimensions,
    }
}

/// The ids and components of a list of entries.
pub open spec fn entry_batch<T>(entries: Seq<VectorEntry<T>>) -> Seq<(Seq<char>, Seq<T>)> {
    entries.map_values(|entry: VectorEntry<T>| (entry.id@, entry.vector@))
}

/// The error for a vector of `actual` components.
pub open spec fn wrong_dimensions(config: VectorDbConfig, actual: nat) -> VectorDbError {
    VectorDbError::InvalidDimensions { expected: config.dimensions, actual: actual as usize }
}

impl<T, F> View for VectorDB<T, F> {
    type V = DbView<T>;

    closed spec fn view(&self) -> DbView<T> {
        DbView { index: self.index@, stats: self.stats }
    }
}

impl<T, F: Fn(&[T], &[T], DistanceMetric) -> Option<i32>> VectorDB<T, F> {
    /// The settings of this database.
    pub closed spec fn config(&self) -> VectorDbConfig {
        self.config
    }

    /// What measures distances for this database.
    pub closed spec fn calculate(&self) -> F {
        self.index.calculate()
    }

    /// The distance between two vectors in this database.
    pub open spec fn distance(&self) -> spec_fn(Seq<T>, Seq<T>) -> i32 {
        distance_by(self.calculate(), self.config().distance_metric)
    }

    /// What holds of every database between operations.
    pub closed spec fn wf(&self) -> bool {
        &&& self.index.wf()
        &&& self.index.config() == index_config(self.config)
    }

    /// The index of a database is always valid, so that every law of the index holds of it.
    pub proof fn lemma_wf_is_valid(&self)
        requires
            self.wf(),
        ensures
            self@.index.valid(self.config().dimensions as nat, self.config().hnsw_m as nat),
    {
        self.index.lemma_wf_is_valid();
    }

    /// Whatever distance the given function returns for two vectors by the database's metric
    /// is the distance by which the database ranks them and that it reports.
    pub proof fn law_distance_is_the_given_one(&self, x: &[T], y: &[T], result: Option<i32>)
        requires
            self.wf(),
            call_ensures(self.calculate(), (x, y, self.config().distance_metric), result),
        ensures
            result is Some ==> (self.distance())(x@, y@) == result->0,
            result is None ==> (self.distance())(x@, y@) == 0x7F7F_FFFF,
    {
        self.index.law_distance_is_the_given_one(x, y, result);
    }

    /// The candidates of a search are stored vectors, each once and at most `k`, nearest
    /// first and none beyond the threshold. Their scores are the distances that the given
    /// function returns for the query and the stored vector.
    pub proof fn law_candidates_are_near_stored_vectors(
        &self,
        query: Seq<T>,
        k: nat,
        ef: nat,
        threshold: Option<i32>,
        candidates: Seq<SearchResult<T>>,
    )
        requires
            self.wf(),
            hit_list(candidates) == bare_hits::<T>(
                self@.index.hits(query, k, ef, threshold, self.distance()),
            ),
        ensures
            candidates.len() <= k,
            forall|i: int|
                0 <= i < candidates.len() ==> {
                    &&& self@.index.vectors.contains_key((#[trigger] candidates[i]).id@)
                    &&& candidates[i].metadata@ == Map::<Seq<char>, Seq<char>>::empty()
                    &&& candidates[i].vector is None
                    &&& threshold is Some ==> candidates[i].score <= threshold->0
                },
            forall|i: int, j: int|
                0 <= i < j < candidates.len() ==> {
                    &&& (#[trigger] candidates[i]).score <= (#[trigger] candidates[j]).score
                    &&& candidates[i].id@ != candidates[j].id@
                },
            forall|i: int, x: &[T], y: &[T], r: Option<i32>|
                0 <= i < candidates.len() && x@ == query && y@ == self@.index.vectors[(
                #[trigger] candidates[i]).id@] && #[trigger] call_ensures(
                    self.calculate(),
                    (x, y, self.config().distance_metric),
                    r,
                ) ==> candidates[i].score == match r {
                    Some(distance) => distance,
                    None => 0x7F7F_FFFF,
                },
    {
        self.index.law_results_are_near_stored_vectors(query, k, ef, threshold, candidates);
    }

    /// This database and `other` have the same settings.
    pub open spec fn same_settings(&self, other: &Self) -> bool {
        &&& self.config() == other.config()
        &&& self.calculate() == other.calculate()
    }

    /// Databases with the same settings have the same configuration and measure alike.
    pub proof fn law_same_settings_measure_alike(&self, other: &Self)
        requires
            self.same_settings(other),
        ensures
            self.config() == other.config(),
            self.calculate() == other.calculate(),
            self.distance() == other.distance(),
    {
    }

    /// A database without vectors.
    pub fn new(config: VectorDbConfig, calculate_distance: F) -> (db: Self)
        requires
            is_measure::<T, F>(calculate_distance),
        ensures
            db.wf(),
            db.config() == config,
            db.calculate() == calculate_distance,
            db@.index == IndexView::<T>::empty(),
            db@.stats == (VectorDbStats {
                total_vectors: 0,
                index_size_bytes: 0,
                storage_size_bytes: 0,
            }),
    {
        let hnsw_config = HnswConfig {
            m: config.hnsw_m,
            ef_construction: config.hnsw_ef_construction,
            ef_search: config.hnsw_ef_search,
            metric: config.distance_metric,
            dimensions: config.dimensions,
        };
        let index = HnswIndex::new(hnsw_config, calculate_distance);
        VectorDB {
            config,
            index,
            stats: VectorDbStats { total_vectors: 0, index_size_bytes: 0, storage_size_bytes: 0 },
        }
    }

    /// Settings for a new database, all at their defaults.
    pub fn builder() -> (builder: VectorDbBuilder)
        ensures
            builder.config.is_default(),
    {
        VectorDbBuilder::default()
    }

    /// Refuses a vector that does not have the configured number of components.
    pub fn check_dimensions(&self, vector: &[T]) -> (result: Result<(), VectorDbError>)
        ensures
            result == if vector@.len() == self.config().dimensions {
                Ok::<(), VectorDbError>(())
            } else {
                Err::<(), VectorDbError>(wrong_dimensions(self.config(), vector@.len()))
            },
            result is Ok <==> vector@.len() == self.config().dimensions,
            result is Err ==> result->Err_0 == (VectorDbError::InvalidDimensions {
                expected: self.config().dimensions,
                actual: vector@.len() as usize,
            }),
    {
        if vector.len() != self.config.dimensions {
            return Err(
                VectorDbError::InvalidDimensions {
                    expected: self.config.dimensions,
                    actual: vector.len(),
                },
            );
        }
        Ok(())
    }

    /// Refuses a batch that holds a vector of other dimensions, for the first of them.
    pub fn check_batch(&self, entries: &Vec<VectorEntry<T>>) -> (result: Result<
        (),
        VectorDbError,
    >)
        ensures
            ({
                let list = entry_batch(entries@);
                let count = accepted(list, self.config().dimensions as nat);
                result == if count == list.len() {
                    Ok::<(), VectorDbError>(())
                } else {
                    Err::<(), VectorDbError>(
                        wrong_dimensions(self.config(), list[count as int].1.len()),
                    )
                }
            }),
            result is Ok <==> forall|i: int|
                0 <= i < entries@.len() ==> (#[trigger] entries@[i]).vector@.len()
                    == self.config().dimensions,
            forall|i: int|
                0 <= i < entries@.len() && (#[trigger] entries@[i]).vector@.len()
                    != self.config().dimensions && (forall|j: int|
                    0 <= j < i ==> (#[trigger] entries@[j]).vector@.len()
                        == self.config().dimensions) ==> result->Err_0 == (
                VectorDbError::InvalidDimensions {
                    expected: self.config().dimensions,
                    actual: entries@[i].vector@.len() as usize,
                }),
    {
        let ghost list = entry_batch(entries@);
        let ghost dimensions = self.config.dimensions as nat;
        let mut i: usize = 0;
        while i < entries.len()
            invariant
                list == entry_batch(entries@),
                dimensions == self.config.dimensions,
                i <= list.len(),
                forall|j: int| 0 <= j < i ==> (#[trigger] list[j]).1.len() == dimensions,
                forall|j: int|
                    0 <= j < i ==> (#[trigger] entries@[j]).vector@.len() == dimensions,
            decreases list.len() - i,
        {
            assert(list[i as int].1 == entries@[i as int].vector@);
            match self.check_dimensions(entries[i].vector.as_slice()) {
                Ok(()) => {},
                Err(error) => {
                    proof {
                        lemma_accepted(list, dimensions, i as nat);
                    }
                    return Err(error);
                },
            }
            i = i + 1;
        }
        proof {
            lemma_accepted(list, dimensions, list.len());
        }
        Ok(())
    }

    /// Puts an entry that was just stored into the index. An entry of the wrong
    /// dimensions is refused, and then nothing changes.
    pub fn insert(&mut self, entry: VectorEntry<T>) -> (result: Result<String, VectorDbError>)
        requires
            old(self).wf(),
            old(self)@.stats.total_vectors < usize::MAX,
        ensures
            final(self).wf(),
            final(self).same_settings(old(self)),
            if entry.vector@.len() == old(self).config().dimensions {
                &&& result is Ok
                &&& result->Ok_0@ == entry.id@
                &&& final(self)@.index == old(self)@.index.inserted(
                    entry.id@,
                    entry.vector@,
                    old(self).distance(),
                    old(self).config().hnsw_m as nat,
                    old(self).config().hnsw_ef_construction as nat,
                )
                &&& final(self)@.stats == (VectorDbStats {
                    total_vectors: (old(self)@.stats.total_vectors + 1) as usize,
                    ..old(self)@.stats
                })
            } else {
                &&& result == Err::<String, VectorDbError>(
                    wrong_dimensions(old(self).config(), entry.vector@.len()),
                )
                &&& *final(self) == *old(self)
            },
    {
        match self.check_dimensions(entry.vector.as_slice()) {
            Ok(()) => {},
            Err(error) => {
                return Err(error);
            },
        }
        match self.index.insert(entry.id.clone(), entry.vector) {
            Ok(()) => {},
            Err(error) => {
                return Err(error);
            },
        }
        self.stats.total_vectors = self.stats.total_vectors + 1;
        Ok(entry.id)
    }

    /// Puts a batch that was just stored into the index. A batch that holds an entry of
    /// the wrong dimensions is refused, and then nothing changes.
    pub fn insert_batch(&mut self, entries: Vec<VectorEntry<T>>) -> (result: Result<
        Vec<String>,
        VectorDbError,
    >)
        requires
            old(self).wf(),
            old(self)@.stats.total_vectors + entries@.len() <= usize::MAX,
        ensures
            final(self).wf(),
            final(self).same_settings(old(self)),
            ({
                let list = entry_batch(entries@);
                let count = accepted(list, old(self).config().dimensions as nat);
                if count == list.len() {
                    &&& result is Ok
                    &&& texts(result->Ok_0@) == list.map_values(|e: (Seq<char>, Seq<T>)| e.0)
                    &&& final(self)@.index == old(self)@.index.inserted_all(
                        list,
                        old(self).distance(),
                        old(self).config().hnsw_m as nat,
                        old(self).config().hnsw_ef_construction as nat,
                    )
                    &&& final(self)@.stats == (VectorDbStats {
                        total_vectors: (old(self)@.stats.total_vectors + list.len()) as usize,
                        ..old(self)@.stats
                    })
                } else {
                    &&& result == Err::<Vec<String>, VectorDbError>(
                        wrong_dimensions(old(self).config(), list[count as int].1.len()),
                    )
                    &&& *final(self) == *old(self)
                }
            }),
            result is Ok <==> forall|i: int|
                0 <= i < entries@.len() ==> (#[trigger] entries@[i]).vector@.len() == old(
                    self,
                ).config().dimensions,
            result is Ok ==> {
                &&& result->Ok_0@.len() == entries@.len()
                &&& forall|i: int|
                    0 <= i < entries@.len() ==> (#[trigger] result->Ok_0@[i])@ == entries@[i].id@
                &&& final(self)@.stats.total_vectors == old(self)@.stats.total_vectors
                    + entries@.len()
            },
            result is Err ==> *final(self) == *old(self),
    {
        match self.check_batch(&entries) {
            Ok(()) => {},
            Err(error) => {
                return Err(error);
            },
        }
        let ghost all = entries@;
        let ghost list = entry_batch(all);
        let count: usize = entries.len();
        let mut ids: Vec<String> = Vec::new();
        let mut vectors: Vec<(String, Vec<T>)> = Vec::new();
        for entry in it: entries.into_iter()
            invariant
                it.seq() == all,
                list == entry_batch(all),
                batch(vectors@) == list.take(it.index() as int),
                texts(ids@) == list.take(it.index() as int).map_values(
                    |e: (Seq<char>, Seq<T>)| e.0,
                ),
        {
            let ghost i = it.index() as int;
            let ghost before = batch(vectors@);
            let ghost ids_before = texts(ids@);
            assert(list[i] == (entry.id@, entry.vector@));
            assert(list.take(i + 1) =~= list.take(i).push(list[i]));
            ids.push(entry.id.clone());
            vectors.push((entry.id, entry.vector));
            assert(batch(vectors@) =~= before.push(list[i]));
            assert(texts(ids@) =~= ids_before.push(list[i].0));
            assert(list.take(i + 1).map_values(|e: (Seq<char>, Seq<T>)| e.0) =~= list.take(
                i,
            ).map_values(|e: (Seq<char>, Seq<T>)| e.0).push(list[i].0));
        }
        assert(list.take(list.len() as int) =~= list);
        match self.index.insert_batch(vectors) {
            Ok(()) => {},
            Err(error) => {
                return Err(error);
            },
        }
        self.stats.total_vectors = self.stats.total_vectors + count;
        proof {
            assert(texts(ids@).len() == list.len());
            assert forall|i: int| 0 <= i < all.len() implies (#[trigger] ids@[i])@ == all[i].id@ by {
                assert(texts(ids@)[i] == list[i].0);
            }
        }
        Ok(ids)
    }

    /// Begins a search: fetches the candidates from the index, more of them when they
    /// will be filtered. The beam is the query's own or else the configured one, widened
    /// to what is fetched. A query of the wrong dimensions is refused.
    pub fn search(&self, query: &SearchQuery<T>) -> (result: Result<SearchStep<T>, VectorDbError>)
        requires
            self.wf(),
        ensures
            if query.vector@.len() == self.config().dimensions {
                let filtered = filters_by(query.filter_map());
                let count = fetch_count(query.k as nat, filtered);
                &&& result is Ok
                &&& result->Ok_0 is ReadMetadata
                &&& hit_list(result->Ok_0->ReadMetadata_0@) == bare_hits::<T>(
                    self@.index.hits(
                        query.vector@,
                        count,
                        (match fetch_beam(query.ef_search, count as usize, filtered) {
                            Some(ef) => ef,
                            None => self.config().hnsw_ef_search,
                        }) as nat,
                        query.threshold,
                        self.distance(),
                    ),
                )
            } else {
                result == Err::<SearchStep<T>, VectorDbError>(
                    wrong_dimensions(self.config(), query.vector@.len()),
                )
            },
    {
        match self.check_dimensions(query.vector.as_slice()) {
            Ok(()) => {},
            Err(error) => {
                return Err(error);
            },
        }
        let candidates = self.index.search_with(
            query.vector.as_slice(),
            query.fetch_count(),
            query.fetch_beam(),
            query.threshold,
        );
        Ok(SearchStep::ReadMetadata(candidates))
    }

    /// Searches everything stored for the nearest vectors that pass the filters.
    /// Without filters there is nothing to search for.
    pub fn brute_force_filtered_search(
        &self,
        query: &SearchQuery<T>,
        rows: Vec<StoredVector<T>>,
    ) -> (results: Vec<SearchResult<T>>)
        requires
            self.wf(),
        ensures
            hit_list(results@) == if filters_by(query.filter_map()) {
                scanned(
                    row_list(rows@),
                    query.vector@,
                    query.k as nat,
                    query.filter_map()->0,
                    query.threshold,
                    self.distance(),
                )
            } else {
                Seq::empty()
            },
    {
        scan(query, rows, self.index.measure_with(), self.config.distance_metric)
    }

    /// Takes a vector out of the index after the storage was asked to delete it.
    /// `deleted` says whether it was stored; if not, nothing changes.
    pub fn delete(&mut self, id: &str, deleted: bool) -> (result: Result<bool, VectorDbError>)
        requires
            old(self).wf(),
        ensures
            final(self).wf(),
            final(self).same_settings(old(self)),
            result == Ok::<bool, VectorDbError>(deleted),
            if deleted {
                &&& if old(self)@.index.vectors.contains_key(id@) {
                    old(self)@.index.removed(id@, final(self)@.index)
                } else {
                    final(self)@.index == old(self)@.index
                }
                &&& final(self)@.stats == (VectorDbStats {
                    total_vectors: if old(self)@.stats.total_vectors == 0 {
                        0
                    } else {
                        (old(self)@.stats.total_vectors - 1) as usize
                    },
                    ..old(self)@.stats
                })
            } else {
                *final(self) == *old(self)
            },
    {
        if deleted {
            match self.index.remove(id) {
                Ok(_) => {},
                Err(error) => {
                    return Err(error);
                },
            }
            self.stats.total_vectors = self.stats.total_vectors.saturating_sub(1);
        }
        Ok(deleted)
    }

    /// The entry of a vector that the storage returned, stamped with the current time.
    /// The time is whatever the clock says.
    pub fn get(&self, id: &str, vector: Option<Vec<T>>, metadata: Option<Metadata>) -> (entry:
        Option<VectorEntry<T>>)
        ensures
            entry is Some <==> vector is Some,
            entry is Some ==> {
                &&& entry->0.id@ == id@
                &&& entry->0.vector@ == vector->0@
                &&& entry->0.metadata@ == match metadata {
                    Some(stored) => stored@,
                    None => Map::<Seq<char>, Seq<char>>::empty(),
                }
            },
    {
        match vector {
            Some(vector) => Some(entry_at(id, vector, metadata, current_timestamp())),
            None => None,
        }
    }

    /// The counts kept about this database.
    pub fn stats(&self) -> (stats: VectorDbStats)
        ensures
            stats == self@.stats,
    {
        self.stats
    }
}

/// The index of a database has the database's own settings.
pub proof fn law_index_has_the_settings_of_the_database(config: VectorDbConfig)
    ensures
        index_config(config).m == config.hnsw_m,
        index_config(config).ef_construction == config.hnsw_ef_construction,
        index_config(config).ef_search == config.hnsw_ef_search,
        index_config(config).metric == config.distance_metric,
        index_config(config).dimensions == config.dimensions,
{
}

/// A list of entries names their ids and components in order.
pub proof fn law_entry_lists<T>(entries: Seq<VectorEntry<T>>)
    ensures
        entry_batch(entries).len() == entries.len(),
        forall|i: int|
            0 <= i < entries.len() ==> (#[trigger] entry_batch(entries)[i]).0 == entries[i].id@
                && entry_batch(entries)[i].1 == entries[i].vector@,
{
}

/// The entry of a stored vector at a given time. Without stored metadata it has none.
pub fn entry_at<T>(
    id: &str,
    vector: Vec<T>,
    metadata: Option<Metadata>,
    timestamp: i64,
) -> (entry: VectorEntry<T>)
    ensures
        entry.id@ == id@,
        entry.vector == vector,
        entry.metadata@ == match metadata {
            Some(stored) => stored@,
            None => Map::<Seq<char>, Seq<char>>::empty(),
        },
        entry.timestamp == timestamp,
{
    VectorEntry {
        id: id.to_owned(),
        vector,
        metadata: match metadata {
            Some(stored) => stored,
            None => Metadata::new(),
        },
        timestamp,
    }
}

/// The seconds since the Unix epoch by `chrono::Utc::now` and `DateTime::timestamp`.
/// Nothing is claimed of the result, which depends on the system's clock. `Utc::now`
/// panics when that clock stands before the epoch or beyond the dates that `chrono` holds.
#[verifier::external_body]
fn current_timestamp() -> (seconds: i64)
{
    chrono::Utc::now().timestamp()
}

/// Collects the settings of a vector database.
#[derive(Debug)]
pub struct VectorDbBuilder {
    /// The settings so far.
    pub config: VectorDbConfig,
}

impl Default for VectorDbBuilder {
    fn default() -> (builder: Self)
        ensures
            builder.config.is_default(),
    {
        VectorDbBuilder { config: VectorDbConfig::default() }
    }
}

impl Clone for VectorDbBuilder {
    fn clone(&self) -> (copy: Self)
        ensures
            copy.config.same_as(self.config),
    {
        VectorDbBuilder { config: self.config.clone() }
    }
}

impl VectorDbBuilder {
    /// Sets the number of components of every vector.
    pub fn dimensions(self, dimensions: usize) -> (builder: Self)
        ensures
            builder.config == (VectorDbConfig { dimensions, ..self.config }),
    {
        VectorDbBuilder { config: VectorDbConfig { dimensions, ..self.config } }
    }

    /// Sets how many vectors are expected at most.
    pub fn max_elements(self, max_elements: usize) -> (builder: Self)
        ensures
            builder.config == (VectorDbConfig { max_elements, ..self.config }),
    {
        VectorDbBuilder { config: VectorDbConfig { max_elements, ..self.config } }
    }

    /// Sets how distances are measured.
    pub fn distance_metric(self, metric: DistanceMetric) -> (builder: Self)
        ensures
            builder.config == (VectorDbConfig { distance_metric: metric, ..self.config }),
    {
        VectorDbBuilder { config: VectorDbConfig { distance_metric: metric, ..self.config } }
    }

    /// Sets how many neighbours the index links a new vector with.
    pub fn hnsw_m(self, m: usize) -> (builder: Self)
        ensures
            builder.config == (VectorDbConfig { hnsw_m: m, ..self.config }),
    {
        VectorDbBuilder { config: VectorDbConfig { hnsw_m: m, ..self.config } }
    }

    /// Sets the beam of the index while it links a new vector.
    pub fn hnsw_ef_construction(self, ef: usize) -> (builder: Self)
        ensures
            builder.config == (VectorDbConfig { hnsw_ef_construction: ef, ..self.config }),
    {
        VectorDbBuilder { config: VectorDbConfig { hnsw_ef_construction: ef, ..self.config } }
    }

    /// Sets the beam of the index in a search.
    pub fn hnsw_ef_search(self, ef: usize) -> (builder: Self)
        ensures
            builder.config == (VectorDbConfig { hnsw_ef_search: ef, ..self.config }),
    {
        VectorDbBuilder { config: VectorDbConfig { hnsw_ef_search: ef, ..self.config } }
    }

    /// Sets how stored vectors are compressed.
    pub fn quantization(self, qtype: QuantizationType) -> (builder: Self)
        ensures
            builder.config == (VectorDbConfig { quantization: qtype, ..self.config }),
    {
        VectorDbBuilder { config: VectorDbConfig { quantization: qtype, ..self.config } }
    }

    /// Sets where the vectors are stored.
    pub fn storage_path(self, path: &str) -> (builder: Self)
        ensures
            builder.config.storage_path@ == path@,
            builder.config == (VectorDbConfig {
                storage_path: builder.config.storage_path,
                ..self.config
            }),
    {
        VectorDbBuilder { config: VectorDbConfig { storage_path: path.to_owned(), ..self.config } }
    }

    /// Sets whether the stored vectors are mapped into memory.
    pub fn mmap_vectors(self, mmap: bool) -> (builder: Self)
        ensures
            builder.config == (VectorDbConfig { mmap_vectors: mmap, ..self.config }),
    {
        VectorDbBuilder { config: VectorDbConfig { mmap_vectors: mmap, ..self.config } }
    }

    /// A database with these settings and without vectors.
    pub fn build<T, F: Fn(&[T], &[T], DistanceMetric) -> Option<i32>>(
        self,
        calculate_distance: F,
    ) -> (db: VectorDB<T, F>)
        requires
            is_measure::<T, F>(calculate_distance),
        ensures
            db.wf(),
            db.config() == self.config,
            db.calculate() == calculate_distance,
            db@.index == IndexView::<T>::empty(),
            db@.stats == (VectorDbStats {
                total_vectors: 0,
                index_size_bytes: 0,
                storage_size_bytes: 0,
            }),
    {
        VectorDB::new(self.config, calculate_distance)
    }
}

} // verus!
