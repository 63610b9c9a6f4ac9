use std::collections::HashSet;

use ruvector::distance::{bits_from_distance, distance_from_bits};
use ruvector::error::VectorDbError;
use ruvector::index::{HnswConfig, HnswIndex};
use ruvector::types::{DistanceMetric, SearchQuery, SearchResult};

fn calculate_distance(a: &[f32], b: &[f32], metric: DistanceMetric) -> Option<i32> {
    if a.len() != b.len() {
        return None;
    }
    let dot: f32 = a.iter().zip(b).map(|(x, y)| x * y).sum();
    let distance = match metric {
        DistanceMetric::Euclidean => {
            a.iter().zip(b).map(|(x, y)| (x - y) * (x - y)).sum::<f32>().sqrt()
        }
        DistanceMetric::Cosine => {
            let a_norm = a.iter().map(|x| x * x).sum::<f32>().sqrt();
            let b_norm = b.iter().map(|x| x * x).sum::<f32>().sqrt();
            if a_norm == 0.0 || b_norm == 0.0 {
                1.0
            } else {
                1.0 - dot / (a_norm * b_norm)
            }
        }
        DistanceMetric::DotProduct => -dot,
        DistanceMetric::Manhattan => a.iter().zip(b).map(|(x, y)| (x - y).abs()).sum(),
    };
    Some(distance_from_bits(distance.to_bits()))
}

fn key(distance: f32) -> i32 {
    distance_from_bits(distance.to_bits())
}

fn query(vector: Vec<f32>, k: usize) -> SearchQuery<f32> {
    SearchQuery { vector, k, filters: None, threshold: None, ef_search: None }
}

fn ids(results: &[SearchResult<f32>]) -> Vec<&str> {
    results.iter().map(|r| r.id.as_str()).collect()
}

fn line_config(m: usize) -> HnswConfig {
    HnswConfig {
        m,
        ef_construction: 100,
        ef_search: 50,
        metric: DistanceMetric::Euclidean,
        dimensions: 1,
    }
}

#[test]
fn test_hnsw_insert_and_search() {
    let config = HnswConfig {
        m: 16,
        ef_construction: 100,
        ef_search: 50,
        metric: DistanceMetric::Euclidean,
        dimensions: 3,
    };

    let mut index = HnswIndex::new(config, calculate_distance);

    // Insert vectors
    index.insert("v1".to_string(), vec![1.0, 0.0, 0.0]).unwrap();
    index.insert("v2".to_string(), vec![0.0, 1.0, 0.0]).unwrap();
    index.insert("v3".to_string(), vec![0.0, 0.0, 1.0]).unwrap();

    // Search
    let query = SearchQuery {
        vector: vec![0.9, 0.1, 0.0],
        k: 2,
        filters: None,
        threshold: None,
        ef_search: None,
    };

    let results = index.search(&query).unwrap();
    assert_eq!(results.len(), 2);
    assert_eq!(results[0].id, "v1"); // Should be closest
}

#[test]
fn test_hnsw_multiple_inserts_no_deadlock() {
    let config = HnswConfig {
        m: 16,
        ef_construction: 100,
        ef_search: 50,
        metric: DistanceMetric::Cosine,
        dimensions: 128,
    };

    let mut index = HnswIndex::new(config, calculate_distance);

    // Insert many vectors to exercise the neighbour search
    for i in 0..20 {
        let mut vector = vec![0.0f32; 128];
        vector[i % 128] = 1.0;
        index.insert(format!("v{}", i), vector).unwrap();
    }

    assert_eq!(index.len(), 20);

    // Search still works
    let query = SearchQuery {
        vector: vec![1.0; 128],
        k: 5,
        filters: None,
        threshold: None,
        ef_search: None,
    };

    let results = index.search(&query).unwrap();
    assert_eq!(results.len(), 5);
}

fn random_vec(first: u64, seed: u64, dim: usize) -> Vec<f32> {
    let mut s = seed.wrapping_add(first);
    (0..dim)
        .map(|_| {
            s = s.wrapping_add(0x9E37_79B9_7F4A_7C15);
            let mut z = s;
            z = (z ^ (z >> 30)).wrapping_mul(0xBF58_476D_1CE4_E5B9);
            z = (z ^ (z >> 27)).wrapping_mul(0x94D0_49BB_1331_11EB);
            z ^= z >> 31;
            // Map u64 to f32 in [-1, 1)
            ((z >> 40) as f32 / (1u64 << 23) as f32) - 1.0
        })
        .collect()
}

#[test]
fn test_recall_at_1_with_biased_insertion_order() {
    let dimensions = 64;
    let config = HnswConfig {
        m: 16,
        ef_construction: 200,
        ef_search: 200,
        metric: DistanceMetric::Cosine,
        dimensions,
    };

    let mut index = HnswIndex::new(config, calculate_distance);

    // A tiny bucket inserted first becomes the entry point, then a moderate one, then a
    // large one.
    let buckets: &[(&str, usize)] = &[("schema", 1), ("table", 80), ("column", 1500)];
    let total: usize = buckets.iter().map(|(_, n)| *n).sum();

    let mut all_ids: Vec<String> = Vec::with_capacity(total);
    let mut all_vecs: Vec<Vec<f32>> = Vec::with_capacity(total);

    let mut idx: u64 = 0;
    for (label, count) in buckets {
        for _ in 0..*count {
            let id = format!("{}_{}", label, idx);
            let v = random_vec(0x9E37_79B9_7F4A_7C15, idx, dimensions);
            index.insert(id.clone(), v.clone()).unwrap();
            all_ids.push(id);
            all_vecs.push(v);
            idx += 1;
        }
    }
    assert_eq!(index.len(), total);

    // Querying with a vector exactly equal to an inserted one must return that vector
    // as the first result, at 30 evenly spaced positions.
    let probes = 30usize;
    let mut misses: Vec<String> = Vec::new();
    for i in 0..probes {
        let probe_idx = (i * (total - 1)) / (probes - 1);
        let q = SearchQuery {
            vector: all_vecs[probe_idx].clone(),
            k: 1,
            filters: None,
            threshold: None,
            ef_search: None,
        };
        let results = index.search(&q).unwrap();
        if results.is_empty() || results[0].id != all_ids[probe_idx] {
            misses.push(format!(
                "probe={} expected={} got={}",
                probe_idx,
                all_ids[probe_idx],
                results.first().map(|r| r.id.clone()).unwrap_or_default()
            ));
        }
    }
    assert!(
        misses.is_empty(),
        "recall@1 regression: {}/{} probes missed: {:?}",
        misses.len(),
        probes,
        misses
    );
}

#[test]
fn test_search_covers_all_clusters_at_scale() {
    let dimensions = 64;
    let config = HnswConfig {
        m: 16,
        ef_construction: 200,
        ef_search: 200,
        metric: DistanceMetric::Cosine,
        dimensions,
    };
    let mut index = HnswIndex::new(config, calculate_distance);

    let buckets: &[(&str, usize)] = &[("schema", 1), ("table", 80), ("column", 1500)];
    let mut idx: u64 = 0;
    for (label, count) in buckets {
        for _ in 0..*count {
            let id = format!("{}_{}", label, idx);
            index.insert(id, random_vec(0xDEAD_BEEF_CAFE_BABE, idx, dimensions)).unwrap();
            idx += 1;
        }
    }

    // Random query at a seed far from those of the insertions.
    let q = SearchQuery {
        vector: random_vec(0xDEAD_BEEF_CAFE_BABE, 99_999, dimensions),
        k: 50,
        filters: None,
        threshold: None,
        ef_search: None,
    };
    let results = index.search(&q).unwrap();
    assert_eq!(results.len(), 50, "search must return k results");

    let mut buckets_hit = HashSet::new();
    for r in &results {
        // The bucket is named before the first underscore.
        if let Some(prefix) = r.id.split('_').next() {
            buckets_hit.insert(prefix.to_string());
        }
    }
    assert!(
        buckets_hit.len() >= 2,
        "top-50 hits must span multiple buckets. Hit: {:?}",
        buckets_hit
    );
}

#[test]
fn default_settings() {
    let config = HnswConfig::default();
    assert_eq!(config.m, 32);
    assert_eq!(config.ef_construction, 200);
    assert_eq!(config.ef_search, 100);
    assert_eq!(config.metric, DistanceMetric::Cosine);
    assert_eq!(config.dimensions, 384);
}

#[test]
fn a_new_index_is_empty() {
    let index = HnswIndex::new(line_config(4), calculate_distance);
    assert_eq!(index.len(), 0);
    assert!(index.is_empty());
    assert!(index.search(&query(vec![0.0], 3)).unwrap().is_empty());
}

#[test]
fn a_vector_of_other_dimensions_is_refused() {
    let mut index = HnswIndex::new(line_config(4), calculate_distance);
    assert_eq!(
        index.insert("a".to_string(), vec![1.0, 2.0]),
        Err(VectorDbError::InvalidDimensions { expected: 1, actual: 2 })
    );
    assert!(index.is_empty());
}

#[test]
fn a_batch_stops_at_the_first_refused_vector() {
    let mut index = HnswIndex::new(line_config(4), calculate_distance);
    let result = index.insert_batch(vec![
        ("a".to_string(), vec![1.0]),
        ("b".to_string(), vec![]),
        ("c".to_string(), vec![3.0]),
    ]);
    assert_eq!(result, Err(VectorDbError::InvalidDimensions { expected: 1, actual: 0 }));
    assert_eq!(index.len(), 1);
    assert_eq!(ids(&index.search(&query(vec![3.0], 5)).unwrap()), vec!["a"]);
    assert_eq!(
        index.insert_batch(vec![("d".to_string(), vec![4.0]), ("e".to_string(), vec![5.0])]),
        Ok(())
    );
    assert_eq!(index.len(), 3);
}

#[test]
fn results_come_nearest_first_with_their_distances() {
    let mut index = HnswIndex::new(line_config(4), calculate_distance);
    for x in [5.0f32, 1.0, 3.0, 9.0, 7.0] {
        index.insert(format!("p{}", x), vec![x]).unwrap();
    }
    let results = index.search(&query(vec![4.5], 10)).unwrap();
    assert_eq!(ids(&results), vec!["p5", "p3", "p7", "p1", "p9"]);
    let distances: Vec<f32> =
        results.iter().map(|r| f32::from_bits(bits_from_distance(r.score))).collect();
    assert_eq!(distances, vec![0.5, 1.5, 2.5, 3.5, 4.5]);
    assert!(results.iter().all(|r| r.metadata.is_empty() && r.vector.is_none()));
}

#[test]
fn equally_near_vectors_come_by_id() {
    let mut index = HnswIndex::new(line_config(4), calculate_distance);
    for id in ["b", "d", "a", "c"] {
        index.insert(id.to_string(), vec![1.0]).unwrap();
    }
    assert_eq!(ids(&index.search(&query(vec![0.0], 4)).unwrap()), vec!["a", "b", "c", "d"]);
}

#[test]
fn a_search_returns_no_more_than_asked_for() {
    let mut index = HnswIndex::new(line_config(4), calculate_distance);
    for x in 0..10 {
        index.insert(format!("p{}", x), vec![x as f32]).unwrap();
    }
    assert_eq!(index.search(&query(vec![0.0], 0)).unwrap().len(), 0);
    assert_eq!(ids(&index.search(&query(vec![0.0], 3)).unwrap()), vec!["p0", "p1", "p2"]);
    let mut narrow = query(vec![0.0], 3);
    narrow.ef_search = Some(0);
    assert_eq!(ids(&index.search(&narrow).unwrap()), vec!["p0", "p1", "p2"]);
    assert_eq!(index.search(&query(vec![0.0], 100)).unwrap().len(), 10);
}

#[test]
fn the_threshold_leaves_far_vectors_out() {
    let mut index = HnswIndex::new(line_config(4), calculate_distance);
    for x in 0..5 {
        index.insert(format!("p{}", x), vec![x as f32]).unwrap();
    }
    let mut near = query(vec![0.0], 5);
    near.threshold = Some(key(2.0));
    assert_eq!(ids(&index.search(&near).unwrap()), vec!["p0", "p1", "p2"]);
    near.threshold = Some(key(-1.0));
    assert!(index.search(&near).unwrap().is_empty());
}

#[test]
fn a_distance_that_cannot_be_measured_counts_as_farthest() {
    let mut index = HnswIndex::new(line_config(4), calculate_distance);
    index.insert("a".to_string(), vec![1.0]).unwrap();
    let results = index.search(&query(vec![1.0, 2.0], 1)).unwrap();
    assert_eq!(ids(&results), vec!["a"]);
    assert_eq!(f32::from_bits(bits_from_distance(results[0].score)), f32::MAX);
}

#[test]
fn storing_again_under_an_id_replaces_the_vector() {
    let mut index = HnswIndex::new(line_config(4), calculate_distance);
    for x in 0..4 {
        index.insert(format!("p{}", x), vec![x as f32]).unwrap();
    }
    index.insert("p0".to_string(), vec![10.0]).unwrap();
    assert_eq!(index.len(), 4);
    let results = index.search(&query(vec![10.0], 4)).unwrap();
    assert_eq!(results[0].id, "p0");
    assert_eq!(results[0].score, 0);
}

#[test]
fn a_removed_vector_is_gone() {
    let mut index = HnswIndex::new(line_config(4), calculate_distance);
    for x in 0..6 {
        index.insert(format!("p{}", x), vec![x as f32]).unwrap();
    }
    assert_eq!(index.remove("p3"), Ok(true));
    assert_eq!(index.remove("p3"), Ok(false));
    assert_eq!(index.remove("unknown"), Ok(false));
    assert_eq!(index.len(), 5);
    assert_eq!(
        ids(&index.search(&query(vec![3.0], 10)).unwrap()),
        vec!["p2", "p4", "p1", "p5", "p0"]
    );
}

#[test]
fn removing_the_entry_point_moves_it() {
    let mut index = HnswIndex::new(line_config(4), calculate_distance);
    for x in 0..4 {
        index.insert(format!("p{}", x), vec![x as f32]).unwrap();
    }
    assert_eq!(index.remove("p0"), Ok(true));
    assert_eq!(ids(&index.search(&query(vec![0.0], 10)).unwrap()), vec!["p1", "p2", "p3"]);
    for id in ["p1", "p2", "p3"] {
        assert_eq!(index.remove(id), Ok(true));
    }
    assert!(index.is_empty());
    assert!(index.search(&query(vec![0.0], 10)).unwrap().is_empty());
    index.insert("again".to_string(), vec![1.0]).unwrap();
    assert_eq!(ids(&index.search(&query(vec![0.0], 10)).unwrap()), vec!["again"]);
}

#[test]
fn long_lists_of_links_are_pruned_to_the_closest() {
    // With one link for each vector, the entry point keeps only its closest neighbour
    // once three vectors link to it.
    let mut index = HnswIndex::new(line_config(1), calculate_distance);
    index.insert("hub".to_string(), vec![0.0]).unwrap();
    index.insert("left".to_string(), vec![-4.0]).unwrap();
    index.insert("right".to_string(), vec![5.0]).unwrap();
    assert_eq!(ids(&index.search(&query(vec![0.0], 10)).unwrap()), vec!["hub", "left", "right"]);
    index.insert("near".to_string(), vec![1.0]).unwrap();
    assert_eq!(ids(&index.search(&query(vec![0.0], 10)).unwrap()), vec!["hub", "near"]);
    assert_eq!(index.len(), 4);
}

#[test]
fn a_wide_search_finds_every_linked_vector() {
    let mut index = HnswIndex::new(line_config(3), calculate_distance);
    for x in 0..40 {
        index.insert(format!("p{}", x), vec![x as f32]).unwrap();
    }
    let mut wide = query(vec![17.2], 40);
    wide.ef_search = Some(40);
    let results = index.search(&wide).unwrap();
    assert_eq!(results.len(), 40);
    assert_eq!(results[0].id, "p17");
    assert!(results.windows(2).all(|pair| pair[0].score <= pair[1].score));
}

#[test]
fn a_new_vector_is_linked_with_its_nearest_only() {
    // With one link for each vector, "c" hangs on "b" alone.
    let mut index = HnswIndex::new(line_config(1), calculate_distance);
    index.insert("a".to_string(), vec![0.0]).unwrap();
    index.insert("b".to_string(), vec![10.0]).unwrap();
    index.insert("c".to_string(), vec![11.0]).unwrap();
    assert_eq!(ids(&index.search(&query(vec![0.0], 10)).unwrap()), vec!["a", "b", "c"]);
    assert_eq!(index.remove("b"), Ok(true));
    assert_eq!(ids(&index.search(&query(vec![0.0], 10)).unwrap()), vec!["a"]);
    assert_eq!(index.len(), 2);
}

#[test]
fn a_small_index_is_searched_exactly_with_any_beam() {
    // Four vectors at most, with three links for each: all are linked with each other.
    let mut index = HnswIndex::new(
        HnswConfig { ef_construction: 0, ef_search: 0, ..line_config(3) },
        calculate_distance,
    );
    for (id, x) in [("a", 0.0), ("b", 50.0), ("c", 9.0), ("d", 30.0)] {
        index.insert(id.to_string(), vec![x]).unwrap();
    }
    assert_eq!(index.remove("a"), Ok(true));
    index.insert("e".to_string(), vec![11.0]).unwrap();
    for (k, nearest) in [
        (0, vec![]),
        (1, vec!["e"]),
        (2, vec!["e", "c"]),
        (3, vec!["e", "c", "d"]),
        (4, vec!["e", "c", "d", "b"]),
        (9, vec!["e", "c", "d", "b"]),
    ] {
        for ef in [0, 1, 2, 100] {
            let mut narrow = query(vec![12.0], k);
            narrow.ef_search = Some(ef);
            assert_eq!(ids(&index.search(&narrow).unwrap()), nearest);
        }
    }
}

#[test]
fn a_search_finds_something_unless_nothing_is_stored() {
    let mut index = HnswIndex::new(line_config(1), calculate_distance);
    let mut narrow = query(vec![7.0], 1);
    narrow.ef_search = Some(0);
    assert!(index.search(&narrow).unwrap().is_empty());
    for x in 0..8 {
        index.insert(format!("p{}", x), vec![x as f32]).unwrap();
        assert_eq!(index.search(&narrow).unwrap().len(), 1);
    }
    for x in 0..8 {
        assert_eq!(index.search(&narrow).unwrap().len(), 1);
        assert_eq!(index.remove(&format!("p{}", x)), Ok(true));
    }
    assert!(index.search(&narrow).unwrap().is_empty());
}

#[test]
fn storing_again_under_the_entry_point_hides_the_other_vectors() {
    let mut index = HnswIndex::new(line_config(4), calculate_distance);
    for x in 0..4 {
        index.insert(format!("p{}", x), vec![x as f32]).unwrap();
    }
    index.insert("p0".to_string(), vec![0.5]).unwrap();
    assert_eq!(ids(&index.search(&query(vec![3.0], 10)).unwrap()), vec!["p0"]);
    assert_eq!(index.len(), 4);
    assert_eq!(index.remove("p0"), Ok(true));
    assert_eq!(ids(&index.search(&query(vec![3.0], 10)).unwrap()), vec!["p3", "p2", "p1"]);
}

#[test]
fn an_index_without_pruning_stays_searchable() {
    // With three links for each, no list is pruned before there are eight vectors.
    let mut index = HnswIndex::new(line_config(3), calculate_distance);
    for (n, x) in [40.0f32, 3.0, 77.0, 12.0, 90.0, 41.0, 5.0].into_iter().enumerate() {
        index.insert(format!("p{}", x), vec![x]).unwrap();
        for k in 0..10 {
            for ef in [0, 1, 3] {
                let mut narrow = query(vec![42.0], k);
                narrow.ef_search = Some(ef);
                assert_eq!(index.search(&narrow).unwrap().len(), k.min(n + 1));
            }
        }
    }
    assert_eq!(
        ids(&index.search(&query(vec![42.0], 4)).unwrap()),
        vec!["p41", "p40", "p12", "p77"]
    );
}
