//! The tables of a graph store, and what writes make of them.

use crate::decimal::{decimal, parsed};
use vstd::prelude::*;

verus! {

/// The metadata key of the log sequence number, which counts the mutations.
pub const META_KEY_LSN: &'static str = "__atlas_lsn";

/// The metadata key of the format version.
pub const META_KEY_FORMAT_VERSION: &'static str = "__atlas_format_version";

/// The metadata key of the digest of the edge types.
pub const META_KEY_EDGE_TYPES_DIGEST: &'static str = "__atlas_edge_types_digest";

/// The metadata key of the digest of the node labels.
pub const META_KEY_NODE_LABELS_DIGEST: &'static str = "__atlas_node_labels_digest";

/// The format version that a new store gets.
pub const ATLAS_FORMAT_VERSION: &'static str = "1.0";

/// What the keys of the store's own metadata begin with.
pub const RESERVED_PREFIX: &'static str = "__atlas_";

/// The tables that hold records by id.
#[derive(Clone, Copy, Debug, PartialEq, Eq, Structural)]
pub enum TableName {
    Nodes,
    Edges,
    Hyperedges,
}

/// An encoded node, edge or hyperedge.
pub struct Record {
    /// Its id.
    pub id: String,
    /// Its encoded form.
    pub data: Vec<u8>,
}

/// One write of a transaction.
pub enum Write {
    /// Puts a record in a table, in place of any with the same id.
    PutRecord { table: TableName, id: String, data: Vec<u8> },
    /// Takes the record with this id out of a table.
    RemoveRecord { table: TableName, id: String },
    /// Puts a value under a metadata key, in place of any earlier value.
    PutMetadata { key: String, value: String },
}

/// The contents of a graph store.
#[verifier::ext_equal]
pub struct Tables {
    pub records: Map<(TableName, Seq<char>), Seq<u8>>,
    pub metadata: Map<Seq<char>, Seq<char>>,
}

/// A metadata value that was read, as a text.
pub open spec fn text_of(stored: Option<&str>) -> Option<Seq<char>> {
    match stored {
        Some(text) => Some(text@),
        None => None,
    }
}

/// The log sequence number that a metadata value stands for. It is zero when there is
/// none or when it is not a number.
pub open spec fn lsn_of(stored: Option<Seq<char>>) -> u64 {
    match stored {
        Some(text) => match parsed(text) {
            Some(lsn) => lsn,
            None => 0,
        },
        None => 0,
    }
}

/// The log sequence number after one more mutation; it stays at the largest.
pub open spec fn next_lsn(lsn: u64) -> u64 {
    if lsn < u64::MAX {
        (lsn + 1) as u64
    } else {
        lsn
    }
}

/// The ids and encoded forms of a list of records.
pub open spec fn record_list(records: Seq<Record>) -> Seq<(Seq<char>, Seq<u8>)> {
    records.map_values(|record: Record| (record.id@, record.data@))
}

impl Tables {
    /// The record with this id, if there is one.
    pub open spec fn record_at(self, table: TableName, id: Seq<char>) -> Option<Seq<u8>> {
        if self.records.contains_key((table, id)) {
            Some(self.records[(table, id)])
        } else {
            None
        }
    }

    /// The value under a metadata key, if there is one.
    pub open spec fn metadata_at(self, key: Seq<char>) -> Option<Seq<char>> {
        if self.metadata.contains_key(key) {
            Some(self.metadata[key])
        } else {
            None
        }
    }

    /// The log sequence number.
    pub open spec fn lsn(self) -> u64 {
        lsn_of(self.metadata_at(META_KEY_LSN@))
    }

    /// These tables with one more record.
    pub open spec fn with_record(self, table: TableName, id: Seq<char>, data: Seq<u8>) -> Tables {
        Tables { records: self.records.insert((table, id), data), ..self }
    }

    /// These tables with more records, put in turn.
    pub open spec fn with_records(
        self,
        table: TableName,
        list: Seq<(Seq<char>, Seq<u8>)>,
    ) -> Tables
        decreases list.len(),
    {
        if list.len() == 0 {
            self
        } else {
            self.with_records(table, list.drop_last()).with_record(
                table,
                list.last().0,
                list.last().1,
            )
        }
    }

    /// These tables without the records with these ids.
    pub open spec fn without_records(self, table: TableName, ids: Set<Seq<char>>) -> Tables {
        Tables {
            records: self.records.restrict(
                Set::new(|at: (TableName, Seq<char>)| at.0 != table || !ids.contains(at.1)),
            ),
            ..self
        }
    }

    /// These tables with a metadata value.
    pub open spec fn with_metadata(self, key: Seq<char>, value: Seq<char>) -> Tables {
        Tables { metadata: self.metadata.insert(key, value), ..self }
    }

    /// These tables with this log sequence number.
    pub open spec fn with_lsn(self, lsn: u64) -> Tables {
        self.with_metadata(META_KEY_LSN@, decimal(lsn as nat))
    }

    /// These tables one mutation later.
    pub open spec fn with_next_lsn(self) -> Tables {
        self.with_lsn(next_lsn(self.lsn()))
    }

    /// These tables after one write.
    pub open spec fn after_write(self, write: Write) -> Tables {
        match write {
            Write::PutRecord { table, id, data } => self.with_record(table, id@, data@),
            Write::RemoveRecord { table, id } => self.without_records(table, set![id@]),
            Write::PutMetadata { key, value } => self.with_metadata(key@, value@),
        }
    }

    /// These tables after a transaction with these writes.
    pub open spec fn after(self, writes: Seq<Write>) -> Tables
        decreases writes.len(),
    {
        if writes.len() == 0 {
            self
        } else {
            self.after(writes.drop_last()).after_write(writes.last())
        }
    }
}

/// One write more comes after the others.
pub proof fn lemma_after_push(tables: Tables, writes: Seq<Write>, write: Write)
    ensures
        tables.after(writes.push(write)) == tables.after(writes).after_write(write),
{
    assert(writes.push(write).drop_last() =~= writes);
}

/// The store's own metadata keys are four different ones, and all reserved.
pub proof fn lemma_reserved_keys()
    ensures
        META_KEY_LSN@ != META_KEY_FORMAT_VERSION@,
        META_KEY_LSN@ != META_KEY_EDGE_TYPES_DIGEST@,
        META_KEY_LSN@ != META_KEY_NODE_LABELS_DIGEST@,
        META_KEY_FORMAT_VERSION@ != META_KEY_EDGE_TYPES_DIGEST@,
        META_KEY_FORMAT_VERSION@ != META_KEY_NODE_LABELS_DIGEST@,
        META_KEY_EDGE_TYPES_DIGEST@ != META_KEY_NODE_LABELS_DIGEST@,
        RESERVED_PREFIX@.is_prefix_of(META_KEY_LSN@),
        RESERVED_PREFIX@.is_prefix_of(META_KEY_FORMAT_VERSION@),
        RESERVED_PREFIX@.is_prefix_of(META_KEY_EDGE_TYPES_DIGEST@),
        RESERVED_PREFIX@.is_prefix_of(META_KEY_NODE_LABELS_DIGEST@),
{
    reveal_strlit("__atlas_lsn");
    reveal_strlit("__atlas_format_version");
    reveal_strlit("__atlas_edge_types_digest");
    reveal_strlit("__atlas_node_labels_digest");
    reveal_strlit("__atlas_");
    assert(META_KEY_LSN@.len() == 11);
    assert(META_KEY_FORMAT_VERSION@.len() == 22);
    assert(META_KEY_EDGE_TYPES_DIGEST@.len() == 25);
    assert(META_KEY_NODE_LABELS_DIGEST@.len() == 26);
    assert(RESERVED_PREFIX@ =~= META_KEY_LSN@.subrange(0, 8));
    assert(RESERVED_PREFIX@ =~= META_KEY_FORMAT_VERSION@.subrange(0, 8));
    assert(RESERVED_PREFIX@ =~= META_KEY_EDGE_TYPES_DIGEST@.subrange(0, 8));
    assert(RESERVED_PREFIX@ =~= META_KEY_NODE_LABELS_DIGEST@.subrange(0, 8));
}

} // verus!
