//! The write rules of a graph store.
//!
//! The tables themselves are read and written by the caller. Each operation here takes
//! what a transaction read and gives what the transaction is to write, and its result.

use crate::decimal::{decimal, parse_counter, print_counter};
use crate::lists::texts;
use crate::tables::{
    lemma_after_push, lemma_reserved_keys, lsn_of, next_lsn, record_list, text_of, Record, TableName,
    Tables, Write, ATLAS_FORMAT_VERSION, META_KEY_EDGE_TYPES_DIGEST, META_KEY_FORMAT_VERSION,
    META_KEY_LSN, META_KEY_NODE_LABELS_DIGEST, RESERVED_PREFIX,
};
use crate::text::begins_with;
use vstd::hash_set::StringHashSet;
use vstd::prelude::*;

verus! {

/// The result of a mutation, and the writes of its transaction.
pub struct Mutation<R> {
    /// What the mutation returns.
    pub result: R,
    /// What its transaction writes, in order.
    pub writes: Vec<Write>,
}

/// How the digests of the edge types and node labels compare with the stored ones.
#[derive(Debug, PartialEq, Eq)]
pub enum DigestCheck {
    /// They were not both stored before, and are now.
    Seeded,
    /// They are the stored ones.
    Match,
    /// At least one differs from the stored one. Nothing was written.
    Mismatch {
        edge_disk: String,
        edge_runtime: String,
        node_disk: String,
        node_runtime: String,
    },
}

impl Clone for DigestCheck {
    fn clone(&self) -> (copy: Self)
        ensures
            copy.outcome() == self.outcome(),
    {
        match self {
            DigestCheck::Seeded => DigestCheck::Seeded,
            DigestCheck::Match => DigestCheck::Match,
            DigestCheck::Mismatch { edge_disk, edge_runtime, node_disk, node_runtime } => {
                DigestCheck::Mismatch {
                    edge_disk: edge_disk.clone(),
                    edge_runtime: edge_runtime.clone(),
                    node_disk: node_disk.clone(),
                    node_runtime: node_runtime.clone(),
                }
            },
        }
    }
}

/// A digest comparison, over the texts of the digests.
pub enum DigestOutcome {
    Seeded,
    Match,
    Mismatch {
        edge_disk: Seq<char>,
        edge_runtime: Seq<char>,
        node_disk: Seq<char>,
        node_runtime: Seq<char>,
    },
}

impl DigestCheck {
    /// This comparison over the texts of the digests.
    pub open spec fn outcome(self) -> DigestOutcome {
        match self {
            DigestCheck::Seeded => DigestOutcome::Seeded,
            DigestCheck::Match => DigestOutcome::Match,
            DigestCheck::Mismatch { edge_disk, edge_runtime, node_disk, node_runtime } => {
                DigestOutcome::Mismatch {
                    edge_disk: edge_disk@,
                    edge_runtime: edge_runtime@,
                    node_disk: node_disk@,
                    node_runtime: node_runtime@,
                }
            },
        }
    }
}

impl Tables {
    /// These tables with a metadata value, unless the key has one already.
    pub open spec fn with_metadata_if_absent(self, key: Seq<char>, value: Seq<char>) -> Tables {
        if self.metadata.contains_key(key) {
            self
        } else {
            self.with_metadata(key, value)
        }
    }

    /// These tables as they are once the store was opened: with a format version and a
    /// log sequence number.
    pub open spec fn opened(self) -> Tables {
        self.with_metadata_if_absent(
            META_KEY_FORMAT_VERSION@,
            ATLAS_FORMAT_VERSION@,
        ).with_metadata_if_absent(META_KEY_LSN@, decimal(0))
    }

    /// These tables with both digests, of which any that was there stays.
    pub open spec fn with_digests(self, edge: Seq<char>, node: Seq<char>) -> Tables {
        self.with_metadata_if_absent(META_KEY_EDGE_TYPES_DIGEST@, edge).with_metadata_if_absent(
            META_KEY_NODE_LABELS_DIGEST@,
            node,
        )
    }

    /// How these digests compare with the stored ones.
    pub open spec fn digests_compared(self, edge: Seq<char>, node: Seq<char>) -> DigestOutcome {
        match (
            self.metadata_at(META_KEY_EDGE_TYPES_DIGEST@),
            self.metadata_at(META_KEY_NODE_LABELS_DIGEST@),
        ) {
            (Some(edge_disk), Some(node_disk)) => {
                if edge_disk == edge && node_disk == node {
                    DigestOutcome::Match
                } else {
                    DigestOutcome::Mismatch {
                        edge_disk,
                        edge_runtime: edge,
                        node_disk,
                        node_runtime: node,
                    }
                }
            },
            _ => DigestOutcome::Seeded,
        }
    }

    /// These tables after user metadata or reserved metadata was set. Only the former
    /// is a mutation.
    pub open spec fn metadata_set(self, key: Seq<char>, value: Seq<char>) -> Tables {
        if RESERVED_PREFIX@.is_prefix_of(key) {
            self.with_metadata(key, value)
        } else {
            self.with_metadata(key, value).with_next_lsn()
        }
    }

    /// Those of `ids` that have a record.
    pub open spec fn present(self, table: TableName, ids: Set<Seq<char>>) -> Set<Seq<char>> {
        ids.filter(|id: Seq<char>| self.records.contains_key((table, id)))
    }

    /// These tables after the records with these ids were deleted, which is a mutation
    /// if there were any.
    pub open spec fn deleted(self, table: TableName, ids: Set<Seq<char>>) -> Tables {
        if self.present(table, ids) == Set::<Seq<char>>::empty() {
            self
        } else {
            self.without_records(table, ids).with_next_lsn()
        }
    }
}

/// The write of a metadata value.
fn put_metadata(key: &str, value: &str) -> (write: Write)
    ensures
        forall|t: Tables| #[trigger] t.after_write(write) == t.with_metadata(key@, value@),
{
    Write::PutMetadata { key: key.to_owned(), value: value.to_owned() }
}

/// A graph store, of which only the write rules are held here.
pub struct GraphStorage;

impl GraphStorage {
    /// Opens a store: sets the format version and the log sequence number where they
    /// are missing.
    pub fn open(format_version: Option<&str>, lsn: Option<&str>) -> (writes: Vec<Write>)
        ensures
            forall|t: Tables|
                t.metadata_at(META_KEY_FORMAT_VERSION@) == text_of(format_version)
                    && t.metadata_at(META_KEY_LSN@) == text_of(lsn) ==> #[trigger] t.after(writes@)
                    == t.opened(),
    {
        proof {
            lemma_reserved_keys();
            reveal_strlit("0");
            assert("0"@ =~= decimal(0));
        }
        let mut writes: Vec<Write> = Vec::new();
        let ghost none = writes@;
        if format_version.is_none() {
            writes.push(put_metadata(META_KEY_FORMAT_VERSION, ATLAS_FORMAT_VERSION));
        }
        let ghost first = writes@;
        if lsn.is_none() {
            writes.push(put_metadata(META_KEY_LSN, "0"));
        }
        proof {
            assert forall|t: Tables|
                t.metadata_at(META_KEY_FORMAT_VERSION@) == text_of(format_version)
                    && t.metadata_at(META_KEY_LSN@) == text_of(lsn) implies #[trigger] t.after(
                writes@,
            ) == t.opened() by {
                assert(t.after(none) == t);
                if format_version is None {
                    lemma_after_push(t, none, first.last());
                    assert(first =~= none.push(first.last()));
                }
                if lsn is None {
                    lemma_after_push(t, first, writes@.last());
                    assert(writes@ =~= first.push(writes@.last()));
                }
            }
        }
        writes
    }

    /// The write that advances the log sequence number, and the number that it writes.
    fn bump_lsn_in_txn(lsn: Option<&str>) -> (bump: (u64, Write))
        ensures
            bump.0 == next_lsn(lsn_of(text_of(lsn))),
            forall|t: Tables| #[trigger]
                t.after_write(bump.1) == t.with_lsn(next_lsn(lsn_of(text_of(lsn)))),
    {
        let next: u64 = Self::current_lsn(lsn).saturating_add(1);
        let text = print_counter(next);
        (next, put_metadata(META_KEY_LSN, text.as_str()))
    }

    /// Sets the log sequence number.
    pub fn restore_lsn(lsn: u64) -> (writes: Vec<Write>)
        ensures
            forall|t: Tables| #[trigger] t.after(writes@) == t.with_lsn(lsn),
    {
        let text = print_counter(lsn);
        let mut writes: Vec<Write> = Vec::new();
        let ghost none = writes@;
        writes.push(put_metadata(META_KEY_LSN, text.as_str()));
        proof {
            assert forall|t: Tables| #[trigger] t.after(writes@) == t.with_lsn(lsn) by {
                assert(t.after(none) == t);
                lemma_after_push(t, none, writes@.last());
                assert(writes@ =~= none.push(writes@.last()));
            }
        }
        writes
    }

    /// The log sequence number that was read.
    pub fn current_lsn(lsn: Option<&str>) -> (number: u64)
        ensures
            number == lsn_of(text_of(lsn)),
    {
        match lsn {
            Some(text) => match parse_counter(text) {
                Some(number) => number,
                None => 0,
            },
            None => 0,
        }
    }

    /// The format version that was read, or an empty text if there was none.
    pub fn format_version(stored: Option<&str>) -> (version: String)
        ensures
            version@ == match text_of(stored) {
                Some(text) => text,
                None => Seq::<char>::empty(),
            },
    {
        match stored {
            Some(text) => text.to_owned(),
            None => {
                proof {
                    reveal_strlit("");
                    assert(""@ =~= Seq::<char>::empty());
                }
                "".to_owned()
            },
        }
    }

    /// Stores the digests where they are missing; where both are stored, compares them.
    pub fn seed_or_check_digests(
        edge_types_digest: &str,
        node_labels_digest: &str,
        existing_edge: Option<&str>,
        existing_node: Option<&str>,
    ) -> (check: Mutation<DigestCheck>)
        ensures
            forall|t: Tables|
                t.metadata_at(META_KEY_EDGE_TYPES_DIGEST@) == text_of(existing_edge)
                    && t.metadata_at(META_KEY_NODE_LABELS_DIGEST@) == text_of(existing_node) ==> {
                    &&& #[trigger] t.after(check.writes@) == t.with_digests(
                        edge_types_digest@,
                        node_labels_digest@,
                    )
                    &&& check.result.outcome() == t.digests_compared(
                        edge_types_digest@,
                        node_labels_digest@,
                    )
                },
    {
        proof {
            lemma_reserved_keys();
        }
        let mut writes: Vec<Write> = Vec::new();
        let ghost none = writes@;
        if existing_edge.is_none() {
            writes.push(put_metadata(META_KEY_EDGE_TYPES_DIGEST, edge_types_digest));
        }
        let ghost first = writes@;
        if existing_node.is_none() {
            writes.push(put_metadata(META_KEY_NODE_LABELS_DIGEST, node_labels_digest));
        }
        proof {
            assert forall|t: Tables|
                t.metadata_at(META_KEY_EDGE_TYPES_DIGEST@) == text_of(existing_edge)
                    && t.metadata_at(META_KEY_NODE_LABELS_DIGEST@) == text_of(
                    existing_node,
                ) implies #[trigger] t.after(writes@) == t.with_digests(
                edge_types_digest@,
                node_labels_digest@,
            ) by {
                assert(t.after(none) == t);
                if existing_edge is None {
                    lemma_after_push(t, none, first.last());
                    assert(first =~= none.push(first.last()));
                }
                if existing_node is None {
                    lemma_after_push(t, first, writes@.last());
                    assert(writes@ =~= first.push(writes@.last()));
                }
            }
        }
        let result = match (existing_edge, existing_node) {
            (Some(edge), Some(node)) => {
                let edge_disk = edge.to_owned();
                let node_disk = node.to_owned();
                let edge_runtime = edge_types_digest.to_owned();
                let node_runtime = node_labels_digest.to_owned();
                if edge_disk == edge_runtime && node_disk == node_runtime {
                    DigestCheck::Match
                } else {
                    DigestCheck::Mismatch { edge_disk, edge_runtime, node_disk, node_runtime }
                }
            },
            _ => DigestCheck::Seeded,
        };
        Mutation { result, writes }
    }

    /// Puts a record in a table.
    fn insert_record(table: TableName, record: Record, lsn: Option<&str>) -> (mutation: Mutation<
        String,
    >)
        ensures
            mutation.result@ == record.id@,
            forall|t: Tables|
                t.metadata_at(META_KEY_LSN@) == text_of(lsn) ==> #[trigger] t.after(
                    mutation.writes@,
                ) == t.with_record(table, record.id@, record.data@).with_next_lsn(),
    {
        let result = record.id.clone();
        let mut writes: Vec<Write> = Vec::new();
        let ghost none = writes@;
        let put = Write::PutRecord { table, id: record.id, data: record.data };
        let (_, bump) = Self::bump_lsn_in_txn(lsn);
        writes.push(put);
        let ghost first = writes@;
        writes.push(bump);
        proof {
            assert forall|t: Tables|
                t.metadata_at(META_KEY_LSN@) == text_of(lsn) implies #[trigger] t.after(writes@)
                == t.with_record(table, record.id@, record.data@).with_next_lsn() by {
                assert(t.after(none) == t);
                lemma_after_push(t, none, put);
                lemma_after_push(t, first, bump);
                assert(t.with_record(table, record.id@, record.data@).lsn() == t.lsn());
            }
        }
        Mutation { result, writes }
    }

    /// Puts records in a table, in turn, as one mutation.
    fn insert_records(table: TableName, records: Vec<Record>, lsn: Option<&str>) -> (mutation:
        Mutation<Vec<String>>)
        ensures
            texts(mutation.result@) == record_list(records@).map_values(
                |record: (Seq<char>, Seq<u8>)| record.0,
            ),
            forall|t: Tables|
                t.metadata_at(META_KEY_LSN@) == text_of(lsn) ==> #[trigger] t.after(
                    mutation.writes@,
                ) == t.with_records(table, record_list(records@)).with_next_lsn(),
    {
        let ghost all = records@;
        let ghost list = record_list(all);
        let mut result: Vec<String> = Vec::new();
        let mut writes: Vec<Write> = Vec::new();
        assert(list.take(0) =~= Seq::empty());
        for record in it: records.into_iter()
            invariant
                it.seq() == all,
                list == record_list(all),
                texts(result@) == list.take(it.index() as int).map_values(
                    |record: (Seq<char>, Seq<u8>)| record.0,
                ),
                forall|t: Tables| #[trigger]
                    t.after(writes@) == t.with_records(table, list.take(it.index() as int)),
        {
            let ghost i = it.index() as int;
            let ghost ids = texts(result@);
            let ghost before = writes@;
            assert(list[i] == (record.id@, record.data@));
            assert(list.take(i + 1).drop_last() =~= list.take(i));
            result.push(record.id.clone());
            assert(texts(result@) =~= ids.push(list[i].0));
            assert(list.take(i + 1).map_values(|record: (Seq<char>, Seq<u8>)| record.0)
                =~= ids.push(list[i].0));
            let put = Write::PutRecord { table, id: record.id, data: record.data };
            writes.push(put);
            proof {
                assert forall|t: Tables| #[trigger] t.after(writes@) == t.with_records(
                    table,
                    list.take(i + 1),
                ) by {
                    lemma_after_push(t, before, put);
                    assert(t.after(before) == t.with_records(table, list.take(i)));
                }
            }
        }
        assert(list.take(list.len() as int) =~= list);
        let ghost puts = writes@;
        let (_, bump) = Self::bump_lsn_in_txn(lsn);
        writes.push(bump);
        proof {
            assert forall|t: Tables|
                t.metadata_at(META_KEY_LSN@) == text_of(lsn) implies #[trigger] t.after(writes@)
                == t.with_records(table, list).with_next_lsn() by {
                lemma_after_push(t, puts, bump);
                assert(t.after(puts) == t.with_records(table, list));
                lemma_with_records_keeps_metadata(t, table, list);
            }
        }
        Mutation { result, writes }
    }

    /// Takes the record with this id out of a table. `present` says whether there is
    /// one; if not, nothing is written.
    fn delete_record(table: TableName, id: &str, present: bool, lsn: Option<&str>) -> (mutation:
        Mutation<bool>)
        ensures
            mutation.result == present,
            forall|t: Tables|
                t.metadata_at(META_KEY_LSN@) == text_of(lsn) && t.records.contains_key((table, id@))
                    == present ==> #[trigger] t.after(mutation.writes@) == t.deleted(
                    table,
                    set![id@],
                ),
    {
        let mut writes: Vec<Write> = Vec::new();
        let ghost none = writes@;
        if !present {
            proof {
                assert forall|t: Tables| !t.records.contains_key((table, id@)) implies #[trigger] t.after(
                    writes@,
                ) == t.deleted(table, set![id@]) by {
                    assert(t.present(table, set![id@]) =~= Set::empty());
                }
            }
            return Mutation { result: false, writes };
        }
        let remove = Write::RemoveRecord { table, id: id.to_owned() };
        let (_, bump) = Self::bump_lsn_in_txn(lsn);
        writes.push(remove);
        let ghost first = writes@;
        writes.push(bump);
        proof {
            assert forall|t: Tables|
                t.metadata_at(META_KEY_LSN@) == text_of(lsn) && t.records.contains_key(
                    (table, id@),
                ) implies #[trigger] t.after(writes@) == t.deleted(table, set![id@]) by {
                assert(t.after(none) == t);
                lemma_after_push(t, none, remove);
                lemma_after_push(t, first, bump);
                assert(t.present(table, set![id@]).contains(id@));
                assert(t.without_records(table, set![id@]).lsn() == t.lsn());
            }
        }
        Mutation { result: true, writes }
    }

    /// Stores a node.
    pub fn insert_node(node: Record, lsn: Option<&str>) -> (mutation: Mutation<String>)
        ensures
            mutation.result@ == node.id@,
            forall|t: Tables|
                t.metadata_at(META_KEY_LSN@) == text_of(lsn) ==> #[trigger] t.after(
                    mutation.writes@,
                ) == t.with_record(TableName::Nodes, node.id@, node.data@).with_next_lsn(),
    {
        Self::insert_record(TableName::Nodes, node, lsn)
    }

    /// Stores nodes in turn, as one mutation.
    pub fn insert_nodes_batch(nodes: Vec<Record>, lsn: Option<&str>) -> (mutation: Mutation<
        Vec<String>,
    >)
        ensures
            texts(mutation.result@) == record_list(nodes@).map_values(
                |record: (Seq<char>, Seq<u8>)| record.0,
            ),
            forall|t: Tables|
                t.metadata_at(META_KEY_LSN@) == text_of(lsn) ==> #[trigger] t.after(
                    mutation.writes@,
                ) == t.with_records(TableName::Nodes, record_list(nodes@)).with_next_lsn(),
    {
        Self::insert_records(TableName::Nodes, nodes, lsn)
    }

    /// Deletes a node. `present` says whether it is stored.
    pub fn delete_node(id: &str, present: bool, lsn: Option<&str>) -> (mutation: Mutation<bool>)
        ensures
            mutation.result == present,
            forall|t: Tables|
                t.metadata_at(META_KEY_LSN@) == text_of(lsn) && t.records.contains_key(
                    (TableName::Nodes, id@),
                ) == present ==> #[trigger] t.after(mutation.writes@) == t.deleted(
                    TableName::Nodes,
                    set![id@],
                ),
    {
        Self::delete_record(TableName::Nodes, id, present, lsn)
    }

    /// Stores an edge.
    pub fn insert_edge(edge: Record, lsn: Option<&str>) -> (mutation: Mutation<String>)
        ensures
            mutation.result@ == edge.id@,
            forall|t: Tables|
                t.metadata_at(META_KEY_LSN@) == text_of(lsn) ==> #[trigger] t.after(
                    mutation.writes@,
                ) == t.with_record(TableName::Edges, edge.id@, edge.data@).with_next_lsn(),
    {
        Self::insert_record(TableName::Edges, edge, lsn)
    }

    /// Stores edges in turn, as one mutation.
    pub fn insert_edges_batch(edges: Vec<Record>, lsn: Option<&str>) -> (mutation: Mutation<
        Vec<String>,
    >)
        ensures
            texts(mutation.result@) == record_list(edges@).map_values(
                |record: (Seq<char>, Seq<u8>)| record.0,
            ),
            forall|t: Tables|
                t.metadata_at(META_KEY_LSN@) == text_of(lsn) ==> #[trigger] t.after(
                    mutation.writes@,
                ) == t.with_records(TableName::Edges, record_list(edges@)).with_next_lsn(),
    {
        Self::insert_records(TableName::Edges, edges, lsn)
    }

    /// Deletes an edge. `present` says whether it is stored.
    pub fn delete_edge(id: &str, present: bool, lsn: Option<&str>) -> (mutation: Mutation<bool>)
        ensures
            mutation.result == present,
            forall|t: Tables|
                t.metadata_at(META_KEY_LSN@) == text_of(lsn) && t.records.contains_key(
                    (TableName::Edges, id@),
                ) == present ==> #[trigger] t.after(mutation.writes@) == t.deleted(
                    TableName::Edges,
                    set![id@],
                ),
    {
        Self::delete_record(TableName::Edges, id, present, lsn)
    }

    /// Deletes edges as one mutation, and gives how many there were. `present` says of
    /// each id whether such an edge is stored when the transaction begins; an id that is
    /// named twice counts once.
    pub fn delete_edges_batch(ids: &Vec<String>, present: &Vec<bool>, lsn: Option<&str>) -> (mutation:
        Mutation<usize>)
        requires
            ids@.len() == present@.len(),
        ensures
            forall|t: Tables|
                t.metadata_at(META_KEY_LSN@) == text_of(lsn) && (forall|i: int|
                    0 <= i < ids@.len() ==> t.records.contains_key(
                        (TableName::Edges, (#[trigger] ids@[i])@),
                    ) == present@[i]) ==> {
                    &&& #[trigger] t.after(mutation.writes@) == t.deleted(
                        TableName::Edges,
                        texts(ids@).to_set(),
                    )
                    &&& mutation.result == t.present(
                        TableName::Edges,
                        texts(ids@).to_set(),
                    ).len()
                },
    {
        let ghost table = TableName::Edges;
        let mut removed = StringHashSet::new();
        let mut writes: Vec<Write> = Vec::new();
        let mut i: usize = 0;
        proof {
            assert forall|t: Tables| #[trigger] t.after(writes@) == t.without_records(
                table,
                removed@,
            ) by {
                assert(t.after(writes@) == t);
                assert(t =~= t.without_records(table, removed@));
            }
        }
        while i < ids.len()
            invariant
                table == TableName::Edges,
                ids@.len() == present@.len(),
                i <= ids@.len(),
                removed@.finite(),
                removed@.len() == writes@.len(),
                forall|id: Seq<char>| #[trigger]
                    removed@.contains(id) <==> exists|j: int|
                        0 <= j < i && present@[j] && (#[trigger] ids@[j])@ == id,
                forall|t: Tables| #[trigger] t.after(writes@) == t.without_records(table, removed@),
            decreases ids@.len() - i,
        {
            let ghost gone = removed@;
            let ghost before = writes@;
            if present[i] && !removed.contains(ids[i].as_str()) {
                removed.insert(ids[i].clone());
                let remove = Write::RemoveRecord { table: TableName::Edges, id: ids[i].clone() };
                writes.push(remove);
                proof {
                    assert forall|t: Tables| #[trigger] t.after(writes@) == t.without_records(
                        table,
                        removed@,
                    ) by {
                        lemma_after_push(t, before, remove);
                        assert(t.after(before) == t.without_records(table, gone));
                        assert(t.without_records(table, gone).without_records(
                            table,
                            set![ids@[i as int]@],
                        ) =~= t.without_records(table, removed@));
                    }
                }
            }
            proof {
                assert forall|id: Seq<char>| #[trigger] removed@.contains(id) <==> exists|j: int|
                    0 <= j < i + 1 && present@[j] && (#[trigger] ids@[j])@ == id by {
                    if removed@.contains(id) {
                        if gone.contains(id) {
                            let j = choose|j: int|
                                0 <= j < i && present@[j] && (#[trigger] ids@[j])@ == id;
                            assert(0 <= j < i + 1 && present@[j] && ids@[j]@ == id);
                        } else {
                            assert(ids@[i as int]@ == id);
                        }
                    }
                    if exists|j: int|
                        0 <= j < i + 1 && present@[j] && (#[trigger] ids@[j])@ == id {
                        let j = choose|j: int|
                            0 <= j < i + 1 && present@[j] && (#[trigger] ids@[j])@ == id;
                        if j < i {
                            assert(gone.contains(id));
                        }
                    }
                }
            }
            i = i + 1;
        }
        let deleted: usize = writes.len();
        let ghost removes = writes@;
        if deleted > 0 {
            let (_, bump) = Self::bump_lsn_in_txn(lsn);
            writes.push(bump);
        }
        proof {
            let all = texts(ids@).to_set();
            assert forall|t: Tables|
                t.metadata_at(META_KEY_LSN@) == text_of(lsn) && (forall|i: int|
                    0 <= i < ids@.len() ==> t.records.contains_key(
                        (table, (#[trigger] ids@[i])@),
                    ) == present@[i]) implies {
                &&& #[trigger] t.after(writes@) == t.deleted(table, all)
                &&& deleted == t.present(table, all).len()
            } by {
                lemma_removed_present(t, table, ids@, present@, removed@);
                assert(t.after(removes) == t.without_records(table, removed@));
                if deleted > 0 {
                    lemma_after_push(t, removes, writes@.last());
                    assert(writes@ =~= removes.push(writes@.last()));
                    assert(t.without_records(table, removed@) =~= t.without_records(table, all));
                    assert(t.without_records(table, all).lsn() == t.lsn());
                } else {
                    assert(removed@ =~= Set::empty());
                    assert(t.without_records(table, removed@) =~= t);
                }
            }
        }
        Mutation { result: deleted, writes }
    }

    /// Stores a hyperedge.
    pub fn insert_hyperedge(hyperedge: Record, lsn: Option<&str>) -> (mutation: Mutation<String>)
        ensures
            mutation.result@ == hyperedge.id@,
            forall|t: Tables|
                t.metadata_at(META_KEY_LSN@) == text_of(lsn) ==> #[trigger] t.after(
                    mutation.writes@,
                ) == t.with_record(
                    TableName::Hyperedges,
                    hyperedge.id@,
                    hyperedge.data@,
                ).with_next_lsn(),
    {
        Self::insert_record(TableName::Hyperedges, hyperedge, lsn)
    }

    /// Stores hyperedges in turn, as one mutation.
    pub fn insert_hyperedges_batch(hyperedges: Vec<Record>, lsn: Option<&str>) -> (mutation:
        Mutation<Vec<String>>)
        ensures
            texts(mutation.result@) == record_list(hyperedges@).map_values(
                |record: (Seq<char>, Seq<u8>)| record.0,
            ),
            forall|t: Tables|
                t.metadata_at(META_KEY_LSN@) == text_of(lsn) ==> #[trigger] t.after(
                    mutation.writes@,
                ) == t.with_records(
                    TableName::Hyperedges,
                    record_list(hyperedges@),
                ).with_next_lsn(),
    {
        Self::insert_records(TableName::Hyperedges, hyperedges, lsn)
    }

    /// Deletes a hyperedge. `present` says whether it is stored.
    pub fn delete_hyperedge(id: &str, present: bool, lsn: Option<&str>) -> (mutation: Mutation<
        bool,
    >)
        ensures
            mutation.result == present,
            forall|t: Tables|
                t.metadata_at(META_KEY_LSN@) == text_of(lsn) && t.records.contains_key(
                    (TableName::Hyperedges, id@),
                ) == present ==> #[trigger] t.after(mutation.writes@) == t.deleted(
                    TableName::Hyperedges,
                    set![id@],
                ),
    {
        Self::delete_record(TableName::Hyperedges, id, present, lsn)
    }

    /// Sets metadata. This is a mutation unless the key is reserved.
    pub fn set_metadata(key: &str, value: &str, lsn: Option<&str>) -> (writes: Vec<Write>)
        ensures
            forall|t: Tables|
                t.metadata_at(META_KEY_LSN@) == text_of(lsn) ==> #[trigger] t.after(writes@)
                    == t.metadata_set(key@, value@),
    {
        proof {
            lemma_reserved_keys();
        }
        let mut writes: Vec<Write> = Vec::new();
        let ghost none = writes@;
        writes.push(put_metadata(key, value));
        let ghost first = writes@;
        let reserved: bool = begins_with(key, RESERVED_PREFIX);
        if !reserved {
            let (_, bump) = Self::bump_lsn_in_txn(lsn);
            writes.push(bump);
        }
        proof {
            assert forall|t: Tables|
                t.metadata_at(META_KEY_LSN@) == text_of(lsn) implies #[trigger] t.after(writes@)
                == t.metadata_set(key@, value@) by {
                assert(t.after(none) == t);
                lemma_after_push(t, none, first.last());
                assert(first =~= none.push(first.last()));
                if !reserved {
                    lemma_after_push(t, first, writes@.last());
                    assert(writes@ =~= first.push(writes@.last()));
                    assert(t.with_metadata(key@, value@).lsn() == t.lsn());
                }
            }
        }
        writes
    }
}

/// Putting records leaves the metadata alone.
pub proof fn lemma_with_records_keeps_metadata(
    tables: Tables,
    table: TableName,
    list: Seq<(Seq<char>, Seq<u8>)>,
)
    ensures
        tables.with_records(table, list).metadata == tables.metadata,
    decreases list.len(),
{
    if list.len() > 0 {
        lemma_with_records_keeps_metadata(tables, table, list.drop_last());
    }
}

/// The ids that were marked present are those of all ids that have a record.
proof fn lemma_removed_present(
    tables: Tables,
    table: TableName,
    ids: Seq<String>,
    present: Seq<bool>,
    removed: Set<Seq<char>>,
)
    requires
        ids.len() == present.len(),
        forall|i: int|
            0 <= i < ids.len() ==> tables.records.contains_key((table, (#[trigger] ids[i])@))
                == present[i],
        forall|id: Seq<char>| #[trigger]
            removed.contains(id) <==> exists|j: int|
                0 <= j < ids.len() && present[j] && (#[trigger] ids[j])@ == id,
    ensures
        removed == tables.present(table, texts(ids).to_set()),
{
    let all = texts(ids).to_set();
    assert forall|id: Seq<char>| removed.contains(id) <==> tables.present(table, all).contains(id) by {
        if removed.contains(id) {
            let j = choose|j: int| 0 <= j < ids.len() && present[j] && (#[trigger] ids[j])@ == id;
            assert(texts(ids)[j] == id);
            assert(texts(ids).contains(id));
        }
        if tables.present(table, all).contains(id) {
            let j = choose|j: int| 0 <= j < texts(ids).len() && texts(ids)[j] == id;
            assert(ids[j]@ == id);
        }
    }
    assert(removed =~= tables.present(table, all));
}

} // verus!
