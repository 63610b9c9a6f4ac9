use std::path::Path;

use redb::{Database, Durability, ReadableTable, TableDefinition};
use ruvector::graph_storage::{DigestCheck, GraphStorage};
use ruvector::tables::{
    Record, TableName, Write, ATLAS_FORMAT_VERSION, META_KEY_EDGE_TYPES_DIGEST,
    META_KEY_FORMAT_VERSION, META_KEY_LSN, META_KEY_NODE_LABELS_DIGEST,
};
use tempfile::tempdir;

type Properties = Vec<(String, String)>;

/// An element of the graph: its id, its labels or members, and its properties.
type Element = (String, Vec<String>, Properties);

fn element(id: &str, labels: &[&str], properties: &[(&str, &str)]) -> Element {
    (
        id.to_string(),
        labels.iter().map(|l| l.to_string()).collect(),
        properties.iter().map(|(k, v)| (k.to_string(), v.to_string())).collect(),
    )
}

fn encode(element: &Element) -> Record {
    Record {
        id: element.0.clone(),
        data: bincode::encode_to_vec(element, bincode::config::standard()).unwrap(),
    }
}

fn records_table(table: TableName) -> TableDefinition<'static, &'static str, &'static [u8]> {
    TableDefinition::new(match table {
        TableName::Nodes => "nodes",
        TableName::Edges => "edges",
        TableName::Hyperedges => "hyperedges",
    })
}

fn metadata_table() -> TableDefinition<'static, &'static str, &'static str> {
    TableDefinition::new("metadata")
}

/// A graph store in a database file, written by the rules of the library.
struct Store {
    db: Database,
    durability: Option<Durability>,
}

impl Store {
    fn new(path: impl AsRef<Path>) -> Store {
        Store::open(path, None)
    }

    fn with_durability(path: impl AsRef<Path>, durability: Durability) -> Store {
        Store::open(path, Some(durability))
    }

    fn open(path: impl AsRef<Path>, durability: Option<Durability>) -> Store {
        let store = Store { db: Database::create(path).unwrap(), durability };
        store.commit(&[]);
        let version = store.get_metadata(META_KEY_FORMAT_VERSION);
        let lsn = store.get_metadata(META_KEY_LSN);
        store.commit(&GraphStorage::open(version.as_deref(), lsn.as_deref()));
        store
    }

    fn commit(&self, writes: &[Write]) {
        let mut txn = self.db.begin_write().unwrap();
        if let Some(durability) = self.durability {
            txn.set_durability(durability);
        }
        for table in [TableName::Nodes, TableName::Edges, TableName::Hyperedges] {
            txn.open_table(records_table(table)).unwrap();
        }
        txn.open_table(metadata_table()).unwrap();
        for write in writes {
            match write {
                Write::PutRecord { table, id, data } => {
                    let mut records = txn.open_table(records_table(*table)).unwrap();
                    records.insert(id.as_str(), data.as_slice()).unwrap();
                }
                Write::RemoveRecord { table, id } => {
                    let mut records = txn.open_table(records_table(*table)).unwrap();
                    records.remove(id.as_str()).unwrap();
                }
                Write::PutMetadata { key, value } => {
                    let mut metadata = txn.open_table(metadata_table()).unwrap();
                    metadata.insert(key.as_str(), value.as_str()).unwrap();
                }
            }
        }
        txn.commit().unwrap();
    }

    fn get_metadata(&self, key: &str) -> Option<String> {
        let txn = self.db.begin_read().unwrap();
        let table = txn.open_table(metadata_table()).unwrap();
        let value = table.get(key).unwrap().map(|v| v.value().to_string());
        value
    }

    fn get(&self, table: TableName, id: &str) -> Option<Element> {
        let txn = self.db.begin_read().unwrap();
        let records = txn.open_table(records_table(table)).unwrap();
        let element = records.get(id).unwrap().map(|data| {
            let (element, _): (Element, usize) =
                bincode::decode_from_slice(data.value(), bincode::config::standard()).unwrap();
            element
        });
        element
    }

    fn count(&self, table: TableName) -> usize {
        let txn = self.db.begin_read().unwrap();
        let records = txn.open_table(records_table(table)).unwrap();
        let count = records.iter().unwrap().count();
        count
    }

    fn lsn_text(&self) -> Option<String> {
        self.get_metadata(META_KEY_LSN)
    }

    fn current_lsn(&self) -> u64 {
        GraphStorage::current_lsn(self.lsn_text().as_deref())
    }

    fn format_version(&self) -> String {
        GraphStorage::format_version(self.get_metadata(META_KEY_FORMAT_VERSION).as_deref())
    }

    fn insert_node(&self, node: &Element) -> String {
        let mutation = GraphStorage::insert_node(encode(node), self.lsn_text().as_deref());
        self.commit(&mutation.writes);
        mutation.result
    }

    fn insert_nodes_batch(&self, nodes: &[Element]) -> Vec<String> {
        let records = nodes.iter().map(encode).collect();
        let mutation = GraphStorage::insert_nodes_batch(records, self.lsn_text().as_deref());
        self.commit(&mutation.writes);
        mutation.result
    }

    fn insert_edge(&self, edge: &Element) -> String {
        let mutation = GraphStorage::insert_edge(encode(edge), self.lsn_text().as_deref());
        self.commit(&mutation.writes);
        mutation.result
    }

    fn insert_edges_batch(&self, edges: &[Element]) -> Vec<String> {
        let records = edges.iter().map(encode).collect();
        let mutation = GraphStorage::insert_edges_batch(records, self.lsn_text().as_deref());
        self.commit(&mutation.writes);
        mutation.result
    }

    fn insert_hyperedge(&self, hyperedge: &Element) -> String {
        let mutation =
            GraphStorage::insert_hyperedge(encode(hyperedge), self.lsn_text().as_deref());
        self.commit(&mutation.writes);
        mutation.result
    }

    fn insert_hyperedges_batch(&self, hyperedges: &[Element]) -> Vec<String> {
        let records = hyperedges.iter().map(encode).collect();
        let mutation = GraphStorage::insert_hyperedges_batch(records, self.lsn_text().as_deref());
        self.commit(&mutation.writes);
        mutation.result
    }

    fn delete(&self, table: TableName, id: &str) -> bool {
        let present = self.get(table, id).is_some();
        let lsn = self.lsn_text();
        let mutation = match table {
            TableName::Nodes => GraphStorage::delete_node(id, present, lsn.as_deref()),
            TableName::Edges => GraphStorage::delete_edge(id, present, lsn.as_deref()),
            TableName::Hyperedges => GraphStorage::delete_hyperedge(id, present, lsn.as_deref()),
        };
        self.commit(&mutation.writes);
        mutation.result
    }

    fn delete_edges_batch(&self, ids: &[&str]) -> usize {
        let present: Vec<bool> =
            ids.iter().map(|id| self.get(TableName::Edges, id).is_some()).collect();
        let ids: Vec<String> = ids.iter().map(|id| id.to_string()).collect();
        let mutation =
            GraphStorage::delete_edges_batch(&ids, &present, self.lsn_text().as_deref());
        self.commit(&mutation.writes);
        mutation.result
    }

    fn set_metadata(&self, key: &str, value: &str) {
        self.commit(&GraphStorage::set_metadata(key, value, self.lsn_text().as_deref()));
    }

    fn restore_lsn(&self, lsn: u64) {
        self.commit(&GraphStorage::restore_lsn(lsn));
    }

    fn seed_or_check_digests(&self, edge: &str, node: &str) -> DigestCheck {
        let existing_edge = self.get_metadata(META_KEY_EDGE_TYPES_DIGEST);
        let existing_node = self.get_metadata(META_KEY_NODE_LABELS_DIGEST);
        let check = GraphStorage::seed_or_check_digests(
            edge,
            node,
            existing_edge.as_deref(),
            existing_node.as_deref(),
        );
        self.commit(&check.writes);
        check.result
    }
}

#[test]
fn test_node_storage() {
    let dir = tempdir().unwrap();
    let storage = Store::new(dir.path().join("test.db"));

    let node = element("node-1", &["Person"], &[("name", "Alice")]);

    let id = storage.insert_node(&node);
    assert_eq!(id, node.0);

    let retrieved = storage.get(TableName::Nodes, &id);
    assert!(retrieved.is_some());
    let retrieved = retrieved.unwrap();
    assert_eq!(retrieved.0, node.0);
    assert!(retrieved.1.iter().any(|label| label == "Person"));
}

#[test]
fn test_edge_storage() {
    let dir = tempdir().unwrap();
    let storage = Store::new(dir.path().join("test.db"));

    let edge = element("edge-1", &["n1", "n2", "KNOWS"], &[("since", "2020")]);

    let id = storage.insert_edge(&edge);
    assert_eq!(id, edge.0);

    let retrieved = storage.get(TableName::Edges, &id);
    assert!(retrieved.is_some());
}

#[test]
fn test_batch_insert() {
    let dir = tempdir().unwrap();
    let storage = Store::new(dir.path().join("test.db"));

    let nodes = vec![element("node-1", &["Person"], &[]), element("node-2", &["Person"], &[])];

    let ids = storage.insert_nodes_batch(&nodes);
    assert_eq!(ids.len(), 2);
    assert_eq!(storage.count(TableName::Nodes), 2);
}

#[test]
fn test_hyperedge_storage() {
    let dir = tempdir().unwrap();
    let storage = Store::new(dir.path().join("test.db"));

    let hyperedge =
        element("hyper-1", &["n1", "n2", "n3", "MEETING"], &[("description", "Team meeting")]);

    let id = storage.insert_hyperedge(&hyperedge);
    assert_eq!(id, hyperedge.0);

    let retrieved = storage.get(TableName::Hyperedges, &id);
    assert!(retrieved.is_some());
}

#[test]
fn test_lsn_monotonic_across_writes() {
    let dir = tempdir().unwrap();
    let storage = Store::with_durability(dir.path().join("lsn.db"), Durability::Immediate);
    assert_eq!(storage.current_lsn(), 0, "freshly opened DB starts at LSN=0");

    for i in 0..5 {
        let node = element(&format!("node-{}", i), &["Person"], &[("i", &i.to_string())]);
        storage.insert_node(&node);
    }
    assert_eq!(storage.current_lsn(), 5, "5 inserts → LSN=5");

    // Edge insert advances LSN.
    let e = element("edge-1", &["a", "b", "REL"], &[]);
    storage.insert_edge(&e);
    assert_eq!(storage.current_lsn(), 6);

    // Batch counts as ONE LSN step.
    let batch = vec![element("node-a", &["A"], &[]), element("node-b", &["B"], &[])];
    storage.insert_nodes_batch(&batch);
    assert_eq!(storage.current_lsn(), 7, "batch insert is one LSN step");
}

#[test]
fn test_format_version_seeded_on_first_open() {
    let dir = tempdir().unwrap();
    let path = dir.path().join("fmt.db");
    let storage = Store::with_durability(&path, Durability::Immediate);
    assert_eq!(storage.format_version(), ATLAS_FORMAT_VERSION);
}

#[test]
fn test_seed_or_check_digests_first_run_then_match() {
    let dir = tempdir().unwrap();
    let storage = Store::with_durability(dir.path().join("digest.db"), Durability::Immediate);
    let edge_d = "abc";
    let node_d = "xyz";
    match storage.seed_or_check_digests(edge_d, node_d) {
        DigestCheck::Seeded => {}
        other => panic!("first run should Seed, got {:?}", other),
    }
    match storage.seed_or_check_digests(edge_d, node_d) {
        DigestCheck::Match => {}
        other => panic!("second run with same digests should Match, got {:?}", other),
    }
    match storage.seed_or_check_digests("abc-CHANGED", node_d) {
        DigestCheck::Mismatch { edge_disk, edge_runtime, .. } => {
            assert_eq!(edge_disk, "abc");
            assert_eq!(edge_runtime, "abc-CHANGED");
        }
        other => panic!("changed digest should Mismatch, got {:?}", other),
    }
}

#[test]
fn test_metadata_user_keys_bump_lsn_reserved_keys_do_not() {
    let dir = tempdir().unwrap();
    let storage = Store::with_durability(dir.path().join("meta.db"), Durability::Immediate);
    let lsn0 = storage.current_lsn();
    storage.set_metadata("user_key", "value");
    assert_eq!(storage.current_lsn(), lsn0 + 1, "user metadata bumps LSN");

    // Reserved keys (the LSN counter itself) must not bump on write.
    storage.set_metadata("__atlas_format_version", "1.0");
    assert_eq!(storage.current_lsn(), lsn0 + 1, "reserved-key writes do NOT bump LSN");
}

#[test]
fn test_lsn_persists_across_reopens() {
    let dir = tempdir().unwrap();
    let path = dir.path().join("persist.db");
    {
        let storage = Store::with_durability(&path, Durability::Immediate);
        for i in 0..3 {
            storage.insert_node(&element(&format!("node-{}", i), &["X"], &[]));
        }
        assert_eq!(storage.current_lsn(), 3);
    }
    let reopened = Store::with_durability(&path, Durability::Immediate);
    assert_eq!(reopened.current_lsn(), 3, "LSN survives reopen");
}

#[test]
fn a_store_without_a_format_version_has_an_empty_one() {
    assert_eq!(GraphStorage::format_version(None), "");
    assert_eq!(GraphStorage::format_version(Some("0.9")), "0.9");
}

#[test]
fn opening_keeps_what_is_stored() {
    assert!(GraphStorage::open(Some("0.9"), Some("17")).is_empty());
    let writes = GraphStorage::open(None, Some("17"));
    assert_eq!(writes.len(), 1);
    assert!(matches!(
        &writes[0],
        Write::PutMetadata { key, value } if key == META_KEY_FORMAT_VERSION && value == "1.0"
    ));
    let writes = GraphStorage::open(Some("0.9"), None);
    assert_eq!(writes.len(), 1);
    assert!(matches!(
        &writes[0],
        Write::PutMetadata { key, value } if key == META_KEY_LSN && value == "0"
    ));
}

#[test]
fn a_missing_or_unreadable_lsn_counts_as_zero() {
    assert_eq!(GraphStorage::current_lsn(None), 0);
    assert_eq!(GraphStorage::current_lsn(Some("many")), 0);
    assert_eq!(GraphStorage::current_lsn(Some("18446744073709551616")), 0);
    assert_eq!(GraphStorage::current_lsn(Some("41")), 41);
}

#[test]
fn the_lsn_stays_at_the_largest() {
    let dir = tempdir().unwrap();
    let storage = Store::new(dir.path().join("largest.db"));
    storage.restore_lsn(u64::MAX - 1);
    storage.insert_node(&element("a", &[], &[]));
    assert_eq!(storage.current_lsn(), u64::MAX);
    storage.insert_node(&element("b", &[], &[]));
    assert_eq!(storage.current_lsn(), u64::MAX);
}

#[test]
fn a_restored_lsn_is_read_back_and_counted_on() {
    let dir = tempdir().unwrap();
    let storage = Store::new(dir.path().join("restore.db"));
    storage.restore_lsn(1000);
    assert_eq!(storage.current_lsn(), 1000);
    storage.insert_edge(&element("e", &["a", "b", "REL"], &[]));
    assert_eq!(storage.current_lsn(), 1001);
    storage.restore_lsn(7);
    assert_eq!(storage.current_lsn(), 7);
}

#[test]
fn deleting_removes_one_record_and_counts_once() {
    let dir = tempdir().unwrap();
    let storage = Store::new(dir.path().join("delete.db"));
    storage.insert_node(&element("x", &["Person"], &[]));
    storage.insert_edge(&element("x", &["a", "b", "REL"], &[]));
    storage.insert_hyperedge(&element("x", &["a", "b", "c"], &[]));
    assert_eq!(storage.current_lsn(), 3);
    assert!(storage.delete(TableName::Nodes, "x"));
    assert_eq!(storage.current_lsn(), 4);
    assert!(storage.get(TableName::Nodes, "x").is_none());
    assert!(storage.get(TableName::Edges, "x").is_some());
    assert!(storage.delete(TableName::Edges, "x"));
    assert!(storage.delete(TableName::Hyperedges, "x"));
    assert_eq!(storage.current_lsn(), 6);
    for table in [TableName::Nodes, TableName::Edges, TableName::Hyperedges] {
        assert!(!storage.delete(table, "x"));
        assert_eq!(storage.count(table), 0);
    }
    assert_eq!(storage.current_lsn(), 6);
}

#[test]
fn deleting_edges_in_a_batch_counts_each_once() {
    let dir = tempdir().unwrap();
    let storage = Store::new(dir.path().join("edges.db"));
    let edges: Vec<Element> =
        ["a", "b", "c"].iter().map(|id| element(id, &["x", "y", "REL"], &[])).collect();
    assert_eq!(storage.insert_edges_batch(&edges), vec!["a", "b", "c"]);
    assert_eq!(storage.current_lsn(), 1);
    assert_eq!(storage.delete_edges_batch(&["a", "unknown", "c", "a"]), 2);
    assert_eq!(storage.current_lsn(), 2);
    assert_eq!(storage.count(TableName::Edges), 1);
    assert!(storage.get(TableName::Edges, "b").is_some());
    assert_eq!(storage.delete_edges_batch(&["a", "unknown"]), 0);
    assert_eq!(storage.delete_edges_batch(&[]), 0);
    assert_eq!(storage.current_lsn(), 2);
}

#[test]
fn the_last_record_of_a_batch_with_an_id_stays() {
    let dir = tempdir().unwrap();
    let storage = Store::new(dir.path().join("batch.db"));
    let batch = vec![element("h", &["first"], &[]), element("h", &["second"], &[])];
    assert_eq!(storage.insert_hyperedges_batch(&batch), vec!["h", "h"]);
    assert_eq!(storage.count(TableName::Hyperedges), 1);
    assert_eq!(storage.get(TableName::Hyperedges, "h").unwrap().1, vec!["second"]);
    assert_eq!(storage.current_lsn(), 1);
    assert!(storage.insert_nodes_batch(&[]).is_empty());
    assert_eq!(storage.current_lsn(), 2);
}

#[test]
fn metadata_is_read_back() {
    let dir = tempdir().unwrap();
    let storage = Store::new(dir.path().join("metadata.db"));
    storage.set_metadata("color", "green");
    storage.set_metadata("color", "blue");
    assert_eq!(storage.get_metadata("color").as_deref(), Some("blue"));
    assert_eq!(storage.current_lsn(), 2);
    storage.set_metadata(META_KEY_LSN, "30");
    assert_eq!(storage.current_lsn(), 30);
    storage.set_metadata("__atlas", "not reserved");
    assert_eq!(storage.current_lsn(), 31);
}

#[test]
fn a_missing_digest_is_filled_in_beside_the_other() {
    let dir = tempdir().unwrap();
    let storage = Store::new(dir.path().join("partial.db"));
    storage.set_metadata(META_KEY_EDGE_TYPES_DIGEST, "kept");
    assert_eq!(storage.seed_or_check_digests("edges", "nodes"), DigestCheck::Seeded);
    assert_eq!(storage.get_metadata(META_KEY_EDGE_TYPES_DIGEST).as_deref(), Some("kept"));
    assert_eq!(storage.get_metadata(META_KEY_NODE_LABELS_DIGEST).as_deref(), Some("nodes"));
    let mismatch = DigestCheck::Mismatch {
        edge_disk: "kept".to_string(),
        edge_runtime: "edges".to_string(),
        node_disk: "nodes".to_string(),
        node_runtime: "nodes".to_string(),
    };
    assert_eq!(storage.seed_or_check_digests("edges", "nodes"), mismatch);
    assert_eq!(storage.seed_or_check_digests("edges", "nodes"), mismatch.clone());
    assert_eq!(storage.seed_or_check_digests("kept", "nodes"), DigestCheck::Match);
    assert_eq!(storage.current_lsn(), 0);
}

#[test]
fn deleting_a_new_record_restores_the_records_but_not_the_lsn() {
    let dir = tempdir().unwrap();
    let storage = Store::new(dir.path().join("undo.db"));
    storage.insert_node(&element("kept", &["Person"], &[]));
    storage.insert_node(&element("new", &["Person"], &[]));
    assert!(storage.delete(TableName::Nodes, "new"));
    assert_eq!(storage.count(TableName::Nodes), 1);
    assert!(storage.get(TableName::Nodes, "kept").is_some());
    assert_eq!(storage.current_lsn(), 3);
}

#[test]
fn the_lsn_counts_the_mutations() {
    let dir = tempdir().unwrap();
    let path = dir.path().join("count.db");
    {
        let storage = Store::new(&path);
        storage.insert_nodes_batch(&[element("a", &[], &[]), element("b", &[], &[])]);
        storage.seed_or_check_digests("e", "n");
        storage.delete(TableName::Nodes, "unknown");
        storage.set_metadata("user", "1");
        storage.set_metadata("__atlas_note", "1");
        storage.delete(TableName::Nodes, "a");
    }
    assert_eq!(Store::new(&path).current_lsn(), 3);
}
