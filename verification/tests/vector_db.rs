use std::time::{SystemTime, UNIX_EPOCH};

use redb::{Database, ReadableTable, ReadableTableMetadata, TableDefinition};
use ruvector::distance::distance_from_bits;
use ruvector::error::VectorDbError;
use ruvector::metadata::Metadata;
use ruvector::search::{SearchStep, StoredVector};
use ruvector::types::{
    DistanceMetric, QuantizationType, SearchQuery, SearchResult, VectorDbConfig, VectorEntry,
};
use ruvector::vector_db::{entry_at, VectorDB, VectorDbBuilder};
use tempfile::tempdir;

type Calculate = fn(&[f32], &[f32], DistanceMetric) -> Option<i32>;

fn calculate_distance(a: &[f32], b: &[f32], metric: DistanceMetric) -> Option<i32> {
    if a.len() != b.len() {
        return None;
    }
    let dot: f32 = a.iter().zip(b).map(|(x, y)| x * y).sum();
    let distance = match metric {
        DistanceMetric::Euclidean => {
            a.iter().zip(b).map(|(x, y)| (x - y) * (x - y)).sum::<f32>().sqrt()
        }
        DistanceMetric::Cosine => {
            let a_norm = a.iter().map(|x| x * x).sum::<f32>().sqrt();
            let b_norm = b.iter().map(|x| x * x).sum::<f32>().sqrt();
            if a_norm == 0.0 || b_norm == 0.0 {
                1.0
            } else {
                1.0 - dot / (a_norm * b_norm)
            }
        }
        DistanceMetric::DotProduct => -dot,
        DistanceMetric::Manhattan => a.iter().zip(b).map(|(x, y)| (x - y).abs()).sum(),
    };
    Some(distance_from_bits(distance.to_bits()))
}

fn key(distance: f32) -> i32 {
    distance_from_bits(distance.to_bits())
}

fn vectors_table() -> TableDefinition<'static, &'static str, &'static [u8]> {
    TableDefinition::new("vectors")
}

/// Vectors and their metadata in a database file.
struct Storage {
    db: Database,
}

type Stored = (Vec<f32>, Vec<(String, String)>);

fn metadata_of(pairs: &[(String, String)]) -> Metadata {
    let mut metadata = Metadata::new();
    for (key, value) in pairs {
        metadata = metadata.with(key.clone(), value.clone());
    }
    metadata
}

impl Storage {
    fn new(path: &str) -> Storage {
        let db = Database::create(path).unwrap();
        let txn = db.begin_write().unwrap();
        txn.open_table(vectors_table()).unwrap();
        txn.commit().unwrap();
        Storage { db }
    }

    fn insert(&self, id: &str, vector: &[f32], metadata: &[(String, String)]) {
        let stored: Stored = (vector.to_vec(), metadata.to_vec());
        let data = bincode::encode_to_vec(&stored, bincode::config::standard()).unwrap();
        let txn = self.db.begin_write().unwrap();
        txn.open_table(vectors_table()).unwrap().insert(id, data.as_slice()).unwrap();
        txn.commit().unwrap();
    }

    fn get(&self, id: &str) -> Option<Stored> {
        let txn = self.db.begin_read().unwrap();
        let table = txn.open_table(vectors_table()).unwrap();
        let stored = table.get(id).unwrap().map(|data| {
            let (stored, _): (Stored, usize) =
                bincode::decode_from_slice(data.value(), bincode::config::standard()).unwrap();
            stored
        });
        stored
    }

    fn delete(&self, id: &str) -> bool {
        let txn = self.db.begin_write().unwrap();
        let deleted = txn.open_table(vectors_table()).unwrap().remove(id).unwrap().is_some();
        txn.commit().unwrap();
        deleted
    }

    fn count(&self) -> usize {
        let txn = self.db.begin_read().unwrap();
        txn.open_table(vectors_table()).unwrap().len().unwrap() as usize
    }

    fn rows(&self) -> Vec<StoredVector<f32>> {
        let txn = self.db.begin_read().unwrap();
        let table = txn.open_table(vectors_table()).unwrap();
        let ids: Vec<String> =
            table.iter().unwrap().map(|item| item.unwrap().0.value().to_string()).collect();
        ids.into_iter()
            .map(|id| {
                let (vector, metadata) = self.get(&id).unwrap();
                StoredVector { id, metadata: Some(metadata_of(&metadata)), vector: Some(vector) }
            })
            .collect()
    }
}

/// A vector database over a database file.
struct Db {
    storage: Storage,
    db: VectorDB<f32, Calculate>,
    scans: usize,
}

impl Db {
    fn build(builder: VectorDbBuilder) -> Db {
        let storage = Storage::new(&builder.config.storage_path);
        Db { storage, db: builder.build(calculate_distance as Calculate), scans: 0 }
    }

    fn insert(
        &mut self,
        id: &str,
        vector: Vec<f32>,
        metadata: &[(&str, &str)],
    ) -> Result<String, VectorDbError> {
        self.db.check_dimensions(&vector)?;
        let pairs: Vec<(String, String)> =
            metadata.iter().map(|(k, v)| (k.to_string(), v.to_string())).collect();
        self.storage.insert(id, &vector, &pairs);
        let metadata = metadata_of(&pairs);
        self.db.insert(VectorEntry { id: id.to_string(), vector, metadata, timestamp: 0 })
    }

    fn search(
        &mut self,
        query: &SearchQuery<f32>,
    ) -> Result<Vec<SearchResult<f32>>, VectorDbError> {
        let mut step = self.db.search(query)?;
        loop {
            step = match step {
                SearchStep::ReadMetadata(candidates) => query.with_metadata(
                    candidates
                        .into_iter()
                        .map(|candidate| {
                            let metadata =
                                self.storage.get(&candidate.id).map(|s| metadata_of(&s.1));
                            (candidate, metadata)
                        })
                        .collect(),
                ),
                SearchStep::ScanStorage => {
                    self.scans += 1;
                    let rows = self.storage.rows();
                    SearchStep::Done(self.db.brute_force_filtered_search(query, rows))
                }
                SearchStep::Done(results) => return Ok(results),
            };
        }
    }

    fn delete(&mut self, id: &str) -> bool {
        let deleted = self.storage.delete(id);
        self.db.delete(id, deleted).unwrap()
    }

    fn count(&self) -> usize {
        self.storage.count()
    }
}

fn builder() -> VectorDbBuilder {
    VectorDB::<f32, Calculate>::builder()
}

fn on_a_line() -> VectorDbBuilder {
    builder().dimensions(1).distance_metric(DistanceMetric::Euclidean)
}

fn filtered(vector: Vec<f32>, k: usize, filters: &[(&str, &str)]) -> SearchQuery<f32> {
    let pairs: Vec<(String, String)> =
        filters.iter().map(|(k, v)| (k.to_string(), v.to_string())).collect();
    SearchQuery {
        vector,
        k,
        filters: Some(metadata_of(&pairs)),
        threshold: None,
        ef_search: None,
    }
}

fn unfiltered(vector: Vec<f32>, k: usize) -> SearchQuery<f32> {
    SearchQuery { vector, k, filters: None, threshold: None, ef_search: None }
}

fn ids(results: &[SearchResult<f32>]) -> Vec<&str> {
    results.iter().map(|r| r.id.as_str()).collect()
}

#[test]
fn test_vector_db_basic_operations() {
    let dir = tempdir().unwrap();
    let path = dir.path().join("test.db");

    let mut db = Db::build(builder().dimensions(3).storage_path(path.to_str().unwrap()));

    // Insert
    let id = db.insert("test1", vec![1.0, 0.0, 0.0], &[]).unwrap();
    assert_eq!(id, "test1");

    // Search
    let query = SearchQuery {
        vector: vec![0.9, 0.1, 0.0],
        k: 1,
        filters: None,
        threshold: None,
        ef_search: None,
    };

    let results = db.search(&query).unwrap();
    assert_eq!(results.len(), 1);
    assert_eq!(results[0].id, "test1");

    // Delete
    assert!(db.delete("test1"));
    assert_eq!(db.count(), 0);
}

#[test]
fn the_builder_starts_from_the_defaults() {
    for config in [builder().config, VectorDbBuilder::default().config, VectorDbConfig::default()] {
        assert_eq!(config.dimensions, 384);
        assert_eq!(config.max_elements, 1_000_000);
        assert_eq!(config.distance_metric, DistanceMetric::Cosine);
        assert_eq!(config.hnsw_m, 32);
        assert_eq!(config.hnsw_ef_construction, 200);
        assert_eq!(config.hnsw_ef_search, 100);
        assert_eq!(config.quantization, QuantizationType::Off);
        assert_eq!(config.storage_path, "./vectors.db");
        assert!(config.mmap_vectors);
    }
}

#[test]
fn the_builder_sets_each_value() {
    let built = builder()
        .dimensions(3)
        .max_elements(10)
        .distance_metric(DistanceMetric::Manhattan)
        .hnsw_m(4)
        .hnsw_ef_construction(20)
        .hnsw_ef_search(30)
        .quantization(QuantizationType::Product { subspaces: 8, k: 256 })
        .storage_path("/data/vectors")
        .mmap_vectors(false);
    let config = built.clone().config;
    assert_eq!(config.dimensions, 3);
    assert_eq!(config.max_elements, 10);
    assert_eq!(config.distance_metric, DistanceMetric::Manhattan);
    assert_eq!(config.hnsw_m, 4);
    assert_eq!(config.hnsw_ef_construction, 20);
    assert_eq!(config.hnsw_ef_search, 30);
    assert_eq!(config.quantization, QuantizationType::Product { subspaces: 8, k: 256 });
    assert_eq!(config.storage_path, "/data/vectors");
    assert!(!config.mmap_vectors);
    assert_eq!(built.build(calculate_distance as Calculate).stats().total_vectors, 0);
}

#[test]
fn vectors_and_queries_of_other_dimensions_are_refused() {
    let mut db = builder().dimensions(2).build(calculate_distance as Calculate);
    let refused = VectorDbError::InvalidDimensions { expected: 2, actual: 3 };
    let entry = VectorEntry {
        id: "a".to_string(),
        vector: vec![1.0, 2.0, 3.0],
        metadata: Metadata::new(),
        timestamp: 0,
    };
    assert_eq!(db.check_dimensions(&entry.vector), Err(refused));
    assert_eq!(db.insert(entry), Err(refused));
    assert_eq!(db.stats().total_vectors, 0);
    assert_eq!(db.search(&unfiltered(vec![0.0; 3], 1)).err(), Some(refused));
}

fn entry(id: &str, vector: Vec<f32>) -> VectorEntry<f32> {
    VectorEntry { id: id.to_string(), vector, metadata: Metadata::new(), timestamp: 0 }
}

#[test]
fn a_batch_with_a_wrong_vector_is_refused_as_a_whole() {
    let mut db = on_a_line().build(calculate_distance as Calculate);
    let batch = vec![entry("a", vec![1.0]), entry("b", vec![]), entry("c", vec![1.0, 2.0])];
    assert_eq!(
        db.check_batch(&batch),
        Err(VectorDbError::InvalidDimensions { expected: 1, actual: 0 })
    );
    assert_eq!(
        db.insert_batch(batch),
        Err(VectorDbError::InvalidDimensions { expected: 1, actual: 0 })
    );
    assert_eq!(db.stats().total_vectors, 0);
    match db.search(&unfiltered(vec![1.0], 5)).unwrap() {
        SearchStep::ReadMetadata(candidates) => assert!(candidates.is_empty()),
        _ => unreachable!(),
    }
    let batch = vec![entry("a", vec![1.0]), entry("b", vec![2.0])];
    assert_eq!(db.check_batch(&batch), Ok(()));
    assert_eq!(db.insert_batch(batch), Ok(vec!["a".to_string(), "b".to_string()]));
    assert_eq!(db.stats().total_vectors, 2);
}

#[test]
fn filtered_searches_fetch_more() {
    let by_type = [("type", "table")];
    assert_eq!(filtered(vec![], 1, &by_type).fetch_count(), 500);
    assert_eq!(filtered(vec![], 25, &by_type).fetch_count(), 500);
    assert_eq!(filtered(vec![], 30, &by_type).fetch_count(), 600);
    assert_eq!(filtered(vec![], 100, &by_type).fetch_count(), 2000);
    assert_eq!(filtered(vec![], 101, &by_type).fetch_count(), 2000);
    assert_eq!(filtered(vec![], usize::MAX, &by_type).fetch_count(), 2000);
    assert_eq!(filtered(vec![], 30, &[]).fetch_count(), 30);
    assert_eq!(unfiltered(vec![], 30).fetch_count(), 30);
    assert!(filtered(vec![], 1, &by_type).has_filters());
    assert!(!filtered(vec![], 1, &[]).has_filters());
    assert!(!unfiltered(vec![], 1).has_filters());
}

#[test]
fn the_beam_of_a_filtered_search_is_as_wide_as_what_is_fetched() {
    let mut query = filtered(vec![], 1, &[("a", "b")]);
    assert_eq!(query.fetch_beam(), Some(500));
    query.ef_search = Some(10);
    assert_eq!(query.fetch_beam(), Some(500));
    query.ef_search = Some(800);
    assert_eq!(query.fetch_beam(), Some(800));
}

#[test]
fn the_beam_of_an_unfiltered_search_is_the_one_asked_for() {
    let mut query = unfiltered(vec![], 30);
    assert_eq!(query.fetch_beam(), None);
    query.ef_search = Some(10);
    assert_eq!(query.fetch_beam(), Some(10));
    query.ef_search = Some(80);
    assert_eq!(query.fetch_beam(), Some(80));
    assert_eq!(filtered(vec![], 30, &[]).fetch_beam(), None);
}

#[test]
fn an_unfiltered_search_has_the_configured_beam() {
    let dir = tempdir().unwrap();
    let nearest = |ef: usize| {
        let path = dir.path().join(format!("beam{}.db", ef));
        let mut db = Db::build(
            builder()
                .dimensions(2)
                .distance_metric(DistanceMetric::Euclidean)
                .hnsw_m(1)
                .hnsw_ef_construction(100)
                .hnsw_ef_search(ef)
                .storage_path(path.to_str().unwrap()),
        );
        for (id, vector) in
            [("a", [0.0, 0.0]), ("b", [0.0, 3.0]), ("c", [2.0, 4.0]), ("d", [3.0, 2.0])]
        {
            db.insert(id, vector.to_vec(), &[]).unwrap();
        }
        let results = db.search(&unfiltered(vec![3.0, 0.0], 1)).unwrap();
        assert_eq!(results.len(), 1);
        (results[0].id.clone(), results[0].score)
    };
    assert_eq!(nearest(50), ("d".to_string(), key(2.0)));
    assert_eq!(nearest(1), ("a".to_string(), key(3.0)));
}

fn populated() -> (tempfile::TempDir, Db) {
    let dir = tempdir().unwrap();
    let path = dir.path().join("vectors.db");
    let mut db = Db::build(on_a_line().storage_path(path.to_str().unwrap()));
    for x in 0..20 {
        let kind = if x == 13 { "rare" } else if x % 2 == 0 { "even" } else { "odd" };
        db.insert(&format!("p{}", x), vec![x as f32], &[("kind", kind)]).unwrap();
    }
    (dir, db)
}

#[test]
fn an_unfiltered_search_returns_metadata_and_never_scans() {
    let (_dir, mut db) = populated();
    let results = db.search(&unfiltered(vec![12.9], 3)).unwrap();
    assert_eq!(ids(&results), vec!["p13", "p12", "p14"]);
    assert_eq!(results[0].metadata.get("kind"), Some(&"rare".to_string()));
    assert_eq!(db.search(&filtered(vec![0.0], 30, &[])).unwrap().len(), 20);
    assert_eq!(db.scans, 0);
}

#[test]
fn a_filtered_search_keeps_matches_only() {
    let (_dir, mut db) = populated();
    let results = db.search(&filtered(vec![4.1], 3, &[("kind", "even")])).unwrap();
    assert_eq!(ids(&results), vec!["p4", "p6", "p2"]);
    assert_eq!(db.scans, 0);
    let results = db.search(&filtered(vec![4.1], 3, &[("kind", "even"), ("x", "y")])).unwrap();
    assert!(results.is_empty());
    assert_eq!(db.scans, 1);
}

#[test]
fn a_filtered_search_with_few_matches_scans_the_storage() {
    let (_dir, mut db) = populated();
    let results = db.search(&filtered(vec![0.0], 5, &[("kind", "rare")])).unwrap();
    assert_eq!(ids(&results), vec!["p13"]);
    assert_eq!(results[0].score, key(13.0));
    assert_eq!(db.scans, 1);
    // A match that the index does not hold is found by the scan.
    db.storage.insert("late", &[2.0], &[("kind".to_string(), "rare".to_string())]);
    let results = db.search(&filtered(vec![0.0], 5, &[("kind", "rare")])).unwrap();
    assert_eq!(ids(&results), vec!["late", "p13"]);
    let mut near = filtered(vec![0.0], 5, &[("kind", "rare")]);
    near.threshold = Some(key(10.0));
    assert_eq!(ids(&db.search(&near).unwrap()), vec!["late"]);
}

#[test]
fn a_scan_skips_rows_without_metadata_or_vector() {
    let db = on_a_line().build(calculate_distance as Calculate);
    let kind = |value: &str| Some(metadata_of(&[("kind".to_string(), value.to_string())]));
    let rows = || {
        vec![
            StoredVector { id: "far".to_string(), metadata: kind("a"), vector: Some(vec![9.0]) },
            StoredVector { id: "none".to_string(), metadata: None, vector: Some(vec![0.0]) },
            StoredVector { id: "empty".to_string(), metadata: kind("a"), vector: None },
            StoredVector { id: "other".to_string(), metadata: kind("b"), vector: Some(vec![0.0]) },
            StoredVector { id: "first".to_string(), metadata: kind("a"), vector: Some(vec![1.0]) },
            StoredVector { id: "again".to_string(), metadata: kind("a"), vector: Some(vec![1.0]) },
        ]
    };
    let query = filtered(vec![0.0], 5, &[("kind", "a")]);
    let results = db.brute_force_filtered_search(&query, rows());
    assert_eq!(ids(&results), vec!["first", "again", "far"]);
    assert_eq!(results[2].score, key(9.0));
    assert!(results.iter().all(|r| r.vector.is_none()));
    let query = filtered(vec![0.0], 1, &[("kind", "a")]);
    assert_eq!(ids(&db.brute_force_filtered_search(&query, rows())), vec!["first"]);
    let query = unfiltered(vec![0.0], 5);
    assert!(db.brute_force_filtered_search(&query, rows()).is_empty());
    let query = filtered(vec![0.0], 5, &[]);
    assert!(db.brute_force_filtered_search(&query, rows()).is_empty());
}

#[test]
fn deleting_counts_down_but_not_below_zero() {
    let (_dir, mut db) = populated();
    assert_eq!(db.db.stats().total_vectors, 20);
    assert!(db.delete("p13"));
    assert!(!db.delete("p13"));
    assert_eq!(db.db.stats().total_vectors, 19);
    assert_eq!(db.count(), 19);
    assert_eq!(ids(&db.search(&unfiltered(vec![13.0], 2)).unwrap()), vec!["p12", "p14"]);
    let mut empty = on_a_line().build(calculate_distance as Calculate);
    assert_eq!(empty.delete("unknown", true), Ok(true));
    assert_eq!(empty.delete("unknown", false), Ok(false));
    assert_eq!(empty.stats().total_vectors, 0);
    assert_eq!(empty.stats().index_size_bytes, 0);
    assert_eq!(empty.stats().storage_size_bytes, 0);
}

#[test]
fn an_entry_is_stamped_with_the_current_time() {
    let db = on_a_line().build(calculate_distance as Calculate);
    assert!(db.get("a", None, Some(Metadata::new())).is_none());
    let before = SystemTime::now().duration_since(UNIX_EPOCH).unwrap().as_secs() as i64;
    let metadata = metadata_of(&[("kind".to_string(), "rare".to_string())]);
    let entry = db.get("a", Some(vec![1.5]), Some(metadata)).unwrap();
    let after = SystemTime::now().duration_since(UNIX_EPOCH).unwrap().as_secs() as i64;
    assert!(before <= entry.timestamp && entry.timestamp <= after);
    assert_eq!(entry.id, "a");
    assert_eq!(entry.vector, vec![1.5]);
    assert_eq!(entry.metadata.get("kind"), Some(&"rare".to_string()));
    let entry = entry_at("b", vec![2.5], None, 1234);
    assert_eq!(entry.id, "b");
    assert_eq!(entry.vector, vec![2.5]);
    assert!(entry.metadata.is_empty());
    assert_eq!(entry.timestamp, 1234);
}

#[test]
fn a_filtered_search_returns_each_match_once_up_to_k() {
    let (_dir, mut db) = populated();
    for (kind, matching) in [("even", 10), ("odd", 9), ("rare", 1), ("none", 0)] {
        for k in [0, 1, 5, 9, 10, 30] {
            let mut query = filtered(vec![6.3], k, &[("kind", kind)]);
            let results = db.search(&query).unwrap();
            assert_eq!(results.len(), matching.min(k), "{} {}", kind, k);
            assert!(results.windows(2).all(|pair| pair[0].score <= pair[1].score));
            let mut distinct = ids(&results);
            distinct.sort();
            distinct.dedup();
            assert_eq!(distinct.len(), results.len());
            assert!(results.iter().all(|r| r.metadata.get("kind") == Some(&kind.to_string())));
            query.threshold = Some(key(2.0));
            assert!(db.search(&query).unwrap().iter().all(|r| r.score <= key(2.0)));
        }
    }
}

#[test]
fn the_configured_metric_measures_the_distances() {
    let dir = tempdir().unwrap();
    let nearest = |metric: DistanceMetric| {
        let path = dir.path().join(format!("{:?}.db", metric));
        let mut db = Db::build(
            builder()
                .dimensions(2)
                .distance_metric(metric)
                .storage_path(path.to_str().unwrap()),
        );
        db.insert("near", vec![1.0, 1.0], &[]).unwrap();
        db.insert("aligned", vec![10.0, 0.0], &[]).unwrap();
        db.search(&unfiltered(vec![1.0, 0.0], 1)).unwrap()[0].id.clone()
    };
    assert_eq!(nearest(DistanceMetric::Cosine), "aligned");
    assert_eq!(nearest(DistanceMetric::Euclidean), "near");
}
