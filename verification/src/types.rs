//! Settings, queries and results.

use crate::metadata::Metadata;
use crate::ranking::Ranked;
use vstd::prelude::*;

verus! {

/// How the distance between two vectors is measured.
#[derive(Clone, Copy, Debug, PartialEq, Eq, Structural)]
pub enum DistanceMetric {
    Euclidean,
    Cosine,
    DotProduct,
    Manhattan,
}

/// A request for the vectors nearest to `vector`.
pub struct SearchQuery<T> {
    /// The vector to compare with.
    pub vector: Vec<T>,
    /// How many results are wanted.
    pub k: usize,
    /// Metadata that every result must have.
    pub filters: Option<Metadata>,
    /// Results further away than this are left out.
    pub threshold: Option<i32>,
    /// The beam of the search, in place of the configured one.
    pub ef_search: Option<usize>,
}

/// A vector that a search found.
pub struct SearchResult<T> {
    /// The vector's id.
    pub id: String,
    /// Its distance to the query.
    pub score: i32,
    /// Its metadata, as far as it was read.
    pub metadata: Metadata,
    /// Its components, if they were read.
    pub vector: Option<Vec<T>>,
}

/// A result, over its text, its metadata as a map and its components.
pub struct Hit<T> {
    pub id: Seq<char>,
    pub score: i32,
    pub metadata: Map<Seq<char>, Seq<char>>,
    pub vector: Option<Seq<T>>,
}

impl<T> View for SearchResult<T> {
    type V = Hit<T>;

    open spec fn view(&self) -> Hit<T> {
        Hit {
            id: self.id@,
            score: self.score,
            metadata: self.metadata@,
            vector: match self.vector {
                Some(vector) => Some(vector@),
                None => None,
            },
        }
    }
}

/// The results of a list.
pub open spec fn hit_list<T>(results: Seq<SearchResult<T>>) -> Seq<Hit<T>> {
    results.map_values(|result: SearchResult<T>| result@)
}

/// A neighbour as a result with neither metadata nor components.
pub open spec fn bare_hit<T>(x: Ranked) -> Hit<T> {
    Hit { id: x.id, score: x.distance, metadata: Map::empty(), vector: None }
}

/// Neighbours as results with neither metadata nor components.
pub open spec fn bare_hits<T>(list: Seq<Ranked>) -> Seq<Hit<T>> {
    list.map_values(|x: Ranked| bare_hit(x))
}

/// How stored vectors are compressed.
#[derive(Clone, Copy, Debug, PartialEq, Eq, Structural)]
pub enum QuantizationType {
    /// Not at all.
    Off,
    /// One byte for each component.
    Scalar,
    /// By codebooks of `k` entries for each of `subspaces` parts.
    Product { subspaces: usize, k: usize },
    /// One bit for each component.
    Binary,
}

/// Settings of a vector database.
#[derive(Debug)]
pub struct VectorDbConfig {
    /// The number of components of every vector.
    pub dimensions: usize,
    /// How many vectors are expected at most.
    pub max_elements: usize,
    /// How distances are measured.
    pub distance_metric: DistanceMetric,
    /// How many neighbours the index links a new vector with.
    pub hnsw_m: usize,
    /// The beam of the index while it links a new vector.
    pub hnsw_ef_construction: usize,
    /// The beam of the index in a search.
    pub hnsw_ef_search: usize,
    /// How stored vectors are compressed.
    pub quantization: QuantizationType,
    /// Where the vectors are stored.
    pub storage_path: String,
    /// Whether the stored vectors are mapped into memory.
    pub mmap_vectors: bool,
}

impl VectorDbConfig {
    /// These are the default settings.
    pub open spec fn is_default(self) -> bool {
        &&& self.dimensions == 384
        &&& self.max_elements == 1_000_000
        &&& self.distance_metric == DistanceMetric::Cosine
        &&& self.hnsw_m == 32
        &&& self.hnsw_ef_construction == 200
        &&& self.hnsw_ef_search == 100
        &&& self.quantization == QuantizationType::Off
        &&& self.storage_path@ == "./vectors.db"@
        &&& self.mmap_vectors
    }

    /// Whether two settings are the same.
    pub open spec fn same_as(self, other: VectorDbConfig) -> bool {
        &&& self.storage_path@ == other.storage_path@
        &&& self == (VectorDbConfig { storage_path: self.storage_path, ..other })
    }
}

impl Clone for VectorDbConfig {
    fn clone(&self) -> (copy: Self)
        ensures
            copy.same_as(*self),
    {
        VectorDbConfig {
            dimensions: self.dimensions,
            max_elements: self.max_elements,
            distance_metric: self.distance_metric,
            hnsw_m: self.hnsw_m,
            hnsw_ef_construction: self.hnsw_ef_construction,
            hnsw_ef_search: self.hnsw_ef_search,
            quantization: self.quantization,
            storage_path: self.storage_path.clone(),
            mmap_vectors: self.mmap_vectors,
        }
    }
}

impl Default for VectorDbConfig {
    fn default() -> (config: Self)
        ensures
            config.is_default(),
    {
        VectorDbConfig {
            dimensions: 384,
            max_elements: 1_000_000,
            distance_metric: DistanceMetric::Cosine,
            hnsw_m: 32,
            hnsw_ef_construction: 200,
            hnsw_ef_search: 100,
            quantization: QuantizationType::Off,
            storage_path: "./vectors.db".to_owned(),
            mmap_vectors: true,
        }
    }
}

/// A vector with its id and metadata.
pub struct VectorEntry<T> {
    /// The vector's id.
    pub id: String,
    /// Its components.
    pub vector: Vec<T>,
    /// Its metadata.
    pub metadata: Metadata,
    /// When it was read or written, in seconds since the Unix epoch.
    pub timestamp: i64,
}

/// Counts kept about a vector database.
#[derive(Clone, Copy, Debug, PartialEq, Eq, Structural)]
pub struct VectorDbStats {
    /// How many vectors were stored and not deleted again.
    pub total_vectors: usize,
    /// The size of the index.
    pub index_size_bytes: usize,
    /// The size of the storage.
    pub storage_size_bytes: usize,
}

/// The view of a result shows its fields as they are, and a list of results shows each of
/// them in its place.
pub proof fn law_result_views<T>(results: Seq<SearchResult<T>>)
    ensures
        hit_list(results).len() == results.len(),
        forall|i: int|
            0 <= i < results.len() ==> {
                &&& (#[trigger] hit_list(results)[i]).id == results[i].id@
                &&& hit_list(results)[i].score == results[i].score
                &&& hit_list(results)[i].metadata == results[i].metadata@
                &&& results[i].vector is None ==> hit_list(results)[i].vector is None
                &&& results[i].vector is Some ==> hit_list(results)[i].vector == Some(
                    results[i].vector->0@,
                )
            },
{
}

/// A neighbour becomes a result with its own id and distance and nothing else.
pub proof fn law_bare_hits_show_the_neighbours<T>(list: Seq<Ranked>)
    ensures
        bare_hits::<T>(list).len() == list.len(),
        forall|i: int|
            0 <= i < list.len() ==> {
                &&& (#[trigger] bare_hits::<T>(list)[i]).id == list[i].id
                &&& bare_hits::<T>(list)[i].score == list[i].distance
                &&& bare_hits::<T>(list)[i].metadata == Map::<Seq<char>, Seq<char>>::empty()
                &&& bare_hits::<T>(list)[i].vector is None
            },
{
}

/// A copy of the settings has every one of them.
pub proof fn law_same_settings_agree_in_all(config: VectorDbConfig, other: VectorDbConfig)
    requires
        config.same_as(other),
    ensures
        config.dimensions == other.dimensions,
        config.max_elements == other.max_elements,
        config.distance_metric == other.distance_metric,
        config.hnsw_m == other.hnsw_m,
        config.hnsw_ef_construction == other.hnsw_ef_construction,
        config.hnsw_ef_search == other.hnsw_ef_search,
        config.quantization == other.quantization,
        config.storage_path@ == other.storage_path@,
        config.mmap_vectors == other.mmap_vectors,
{
}

/// The default settings.
pub proof fn law_default_settings(config: VectorDbConfig)
    requires
        config.is_default(),
    ensures
        config.dimensions == 384,
        config.max_elements == 1_000_000,
        config.distance_metric is Cosine,
        config.hnsw_m == 32,
        config.hnsw_ef_construction == 200,
        config.hnsw_ef_search == 100,
        config.quantization is Off,
        config.storage_path@ == "./vectors.db"@,
        config.mmap_vectors,
{
}

} // verus!
