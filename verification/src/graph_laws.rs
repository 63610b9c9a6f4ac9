//! What holds of every graph store, whatever was written to it.

use crate::decimal::{decimal, law_decimal_round_trip};
use crate::graph_storage::{lemma_with_records_keeps_metadata, DigestOutcome};
use crate::tables::{
    lemma_reserved_keys, next_lsn, TableName, Tables, ATLAS_FORMAT_VERSION,
    META_KEY_EDGE_TYPES_DIGEST, META_KEY_FORMAT_VERSION, META_KEY_LSN, META_KEY_NODE_LABELS_DIGEST,
    RESERVED_PREFIX,
};
use vstd::prelude::*;

verus! {

/// A log sequence number that was set is read back, and setting it changes nothing else.
pub proof fn law_restored_lsn_is_read_back(tables: Tables, lsn: u64)
    ensures
        tables.with_lsn(lsn).lsn() == lsn,
        tables.with_lsn(lsn).records == tables.records,
        forall|key: Seq<char>|
            key != META_KEY_LSN@ ==> #[trigger] tables.with_lsn(lsn).metadata_at(key)
                == tables.metadata_at(key),
{
    law_decimal_round_trip(lsn);
}

/// A mutation advances the log sequence number by one, or leaves it at the largest; it
/// never goes back.
pub proof fn law_mutation_advances_the_lsn(tables: Tables)
    ensures
        tables.with_next_lsn().lsn() == next_lsn(tables.lsn()),
        tables.with_next_lsn().lsn() >= tables.lsn(),
        tables.lsn() < u64::MAX ==> tables.with_next_lsn().lsn() == tables.lsn() + 1,
        tables.with_next_lsn().records == tables.records,
{
    law_decimal_round_trip(next_lsn(tables.lsn()));
}

/// A record that was stored is read back, every other record stays as it was, and the
/// log sequence number advances by one step.
pub proof fn law_inserted_record_is_read_back(
    tables: Tables,
    table: TableName,
    id: Seq<char>,
    data: Seq<u8>,
)
    ensures
        ({
            let after = tables.with_record(table, id, data).with_next_lsn();
            &&& after.record_at(table, id) == Some(data)
            &&& forall|other: TableName, key: Seq<char>|
                other != table || key != id ==> #[trigger] after.record_at(other, key)
                    == tables.record_at(other, key)
            &&& after.lsn() == next_lsn(tables.lsn())
        }),
{
    let put = tables.with_record(table, id, data);
    law_mutation_advances_the_lsn(put);
    assert(put.lsn() == tables.lsn());
}

/// The last of the records with this id in a list.
pub open spec fn last_with_id(list: Seq<(Seq<char>, Seq<u8>)>, id: Seq<char>) -> Option<Seq<u8>>
    decreases list.len(),
{
    if list.len() == 0 {
        None
    } else if list.last().0 == id {
        Some(list.last().1)
    } else {
        last_with_id(list.drop_last(), id)
    }
}

proof fn lemma_with_records(
    tables: Tables,
    table: TableName,
    list: Seq<(Seq<char>, Seq<u8>)>,
    other: TableName,
    id: Seq<char>,
)
    ensures
        tables.with_records(table, list).record_at(other, id) == if other == table && last_with_id(
            list,
            id,
        ) is Some {
            last_with_id(list, id)
        } else {
            tables.record_at(other, id)
        },
    decreases list.len(),
{
    if list.len() > 0 {
        lemma_with_records(tables, table, list.drop_last(), other, id);
    }
}

/// A batch is one step of the log sequence number, however many records it holds. Of
/// several records with one id the last stays, and no other record changes.
pub proof fn law_batch_is_one_step(
    tables: Tables,
    table: TableName,
    list: Seq<(Seq<char>, Seq<u8>)>,
)
    ensures
        ({
            let after = tables.with_records(table, list).with_next_lsn();
            &&& after.lsn() == next_lsn(tables.lsn())
            &&& forall|id: Seq<char>| #[trigger]
                after.record_at(table, id) == if last_with_id(list, id) is Some {
                    last_with_id(list, id)
                } else {
                    tables.record_at(table, id)
                }
            &&& forall|other: TableName, id: Seq<char>|
                other != table ==> #[trigger] after.record_at(other, id) == tables.record_at(
                    other,
                    id,
                )
        }),
{
    let put = tables.with_records(table, list);
    let after = put.with_next_lsn();
    lemma_with_records_keeps_metadata(tables, table, list);
    law_mutation_advances_the_lsn(put);
    assert(put.lsn() == tables.lsn());
    assert forall|id: Seq<char>| #[trigger]
        after.record_at(table, id) == if last_with_id(list, id) is Some {
            last_with_id(list, id)
        } else {
            tables.record_at(table, id)
        } by {
        lemma_with_records(tables, table, list, table, id);
        assert(after.record_at(table, id) == put.record_at(table, id));
    }
    assert forall|other: TableName, id: Seq<char>| other != table implies #[trigger] after.record_at(
        other,
        id,
    ) == tables.record_at(other, id) by {
        lemma_with_records(tables, table, list, other, id);
        assert(after.record_at(other, id) == put.record_at(other, id));
    }
}

/// A deleted record is gone, every other record stays as it was, and the log sequence
/// number advances by one step if there was anything to delete.
pub proof fn law_deleted_record_is_gone(tables: Tables, table: TableName, ids: Set<Seq<char>>)
    ensures
        ({
            let after = tables.deleted(table, ids);
            &&& forall|id: Seq<char>|
                ids.contains(id) ==> #[trigger] after.record_at(table, id) is None
            &&& forall|other: TableName, id: Seq<char>|
                other != table || !ids.contains(id) ==> #[trigger] after.record_at(other, id)
                    == tables.record_at(other, id)
            &&& after.lsn() == if tables.present(table, ids) == Set::<Seq<char>>::empty() {
                tables.lsn()
            } else {
                next_lsn(tables.lsn())
            }
        }),
{
    let after = tables.deleted(table, ids);
    let present = tables.present(table, ids);
    assert forall|id: Seq<char>| ids.contains(id) implies #[trigger] after.record_at(
        table,
        id,
    ) is None by {
        if tables.records.contains_key((table, id)) {
            assert(present.contains(id));
        }
    }
    let without = tables.without_records(table, ids);
    law_mutation_advances_the_lsn(without);
    assert(without.lsn() == tables.lsn());
}

/// Deleting what is not stored changes nothing, the log sequence number included.
pub proof fn law_deleting_nothing_changes_nothing(
    tables: Tables,
    table: TableName,
    ids: Set<Seq<char>>,
)
    requires
        forall|id: Seq<char>| #[trigger]
            ids.contains(id) ==> !tables.records.contains_key((table, id)),
    ensures
        tables.deleted(table, ids) == tables,
{
    assert(tables.present(table, ids) =~= Set::empty());
}

/// Storing a new record and deleting it again restores the records, but the log
/// sequence number advances by two steps.
pub proof fn law_delete_undoes_insert(
    tables: Tables,
    table: TableName,
    id: Seq<char>,
    data: Seq<u8>,
)
    requires
        tables.record_at(table, id) is None,
    ensures
        ({
            let inserted = tables.with_record(table, id, data).with_next_lsn();
            let after = inserted.deleted(table, set![id]);
            &&& after.records == tables.records
            &&& after.lsn() == next_lsn(next_lsn(tables.lsn()))
        }),
{
    let inserted = tables.with_record(table, id, data).with_next_lsn();
    law_inserted_record_is_read_back(tables, table, id, data);
    law_deleted_record_is_gone(inserted, table, set![id]);
    assert(inserted.record_at(table, id) == Some(data));
    assert(inserted.present(table, set![id]).contains(id));
    let after = inserted.deleted(table, set![id]);
    assert(after.records =~= tables.records);
}

/// Metadata that was set is read back and leaves the records alone. Under a user key it
/// advances the log sequence number by one step; under a reserved key other than that
/// of the number itself the number stays.
pub proof fn law_metadata_is_read_back(tables: Tables, key: Seq<char>, value: Seq<char>)
    ensures
        ({
            let after = tables.metadata_set(key, value);
            &&& after.metadata_at(key) == Some(value)
            &&& after.records == tables.records
            &&& !RESERVED_PREFIX@.is_prefix_of(key) ==> after.lsn() == next_lsn(tables.lsn())
            &&& RESERVED_PREFIX@.is_prefix_of(key) && key != META_KEY_LSN@ ==> after.lsn()
                == tables.lsn()
            &&& forall|other: Seq<char>|
                other != key && other != META_KEY_LSN@ ==> #[trigger] after.metadata_at(other)
                    == tables.metadata_at(other)
        }),
{
    lemma_reserved_keys();
    let put = tables.with_metadata(key, value);
    law_mutation_advances_the_lsn(put);
    if !RESERVED_PREFIX@.is_prefix_of(key) {
        assert(key != META_KEY_LSN@);
        assert(put.lsn() == tables.lsn());
    }
}

/// A new store has the current format version and a log sequence number of zero.
pub proof fn law_new_store_starts_at_zero(tables: Tables)
    requires
        tables.metadata == Map::<Seq<char>, Seq<char>>::empty(),
    ensures
        tables.opened().metadata_at(META_KEY_FORMAT_VERSION@) == Some(ATLAS_FORMAT_VERSION@),
        tables.opened().metadata_at(META_KEY_LSN@) == Some(decimal(0)),
        tables.opened().lsn() == 0,
{
    lemma_reserved_keys();
    law_decimal_round_trip(0);
}

/// Opening a store again changes nothing: its records, its metadata and its log sequence
/// number survive.
pub proof fn law_reopening_changes_nothing(tables: Tables)
    ensures
        tables.opened().opened() == tables.opened(),
        tables.opened().records == tables.records,
        tables.opened().lsn() == tables.lsn(),
        forall|key: Seq<char>|
            tables.metadata.contains_key(key) ==> #[trigger] tables.opened().metadata_at(key)
                == tables.metadata_at(key),
{
    lemma_reserved_keys();
    law_decimal_round_trip(0);
}

/// Digests that are stored are never overwritten, and storing them is no mutation.
pub proof fn law_digests_are_never_overwritten(tables: Tables, edge: Seq<char>, node: Seq<char>)
    ensures
        ({
            let after = tables.with_digests(edge, node);
            &&& forall|key: Seq<char>|
                tables.metadata.contains_key(key) ==> #[trigger] after.metadata_at(key)
                    == tables.metadata_at(key)
            &&& after.records == tables.records
            &&& after.lsn() == tables.lsn()
        }),
{
    lemma_reserved_keys();
}

/// A store without digests takes the first ones that are checked. From then on the same
/// ones match, any others are reported together with the stored ones, and nothing is
/// overwritten.
pub proof fn law_seeded_digests_match(
    tables: Tables,
    edge: Seq<char>,
    node: Seq<char>,
    other_edge: Seq<char>,
    other_node: Seq<char>,
)
    requires
        tables.metadata_at(META_KEY_EDGE_TYPES_DIGEST@) is None,
        tables.metadata_at(META_KEY_NODE_LABELS_DIGEST@) is None,
    ensures
        tables.digests_compared(edge, node) == DigestOutcome::Seeded,
        ({
            let seeded = tables.with_digests(edge, node);
            &&& seeded.digests_compared(edge, node) == DigestOutcome::Match
            &&& seeded.with_digests(other_edge, other_node) == seeded
            &&& other_edge != edge || other_node != node ==> seeded.digests_compared(
                other_edge,
                other_node,
            ) == (DigestOutcome::Mismatch {
                edge_disk: edge,
                edge_runtime: other_edge,
                node_disk: node,
                node_runtime: other_node,
            })
        }),
{
    lemma_reserved_keys();
}

/// A missing digest is filled in beside the one that is stored, which stays.
pub proof fn law_missing_digest_is_filled_in(
    tables: Tables,
    edge: Seq<char>,
    node: Seq<char>,
    stored: Seq<char>,
)
    ensures
        tables.metadata_at(META_KEY_EDGE_TYPES_DIGEST@) == Some(stored) && tables.metadata_at(
            META_KEY_NODE_LABELS_DIGEST@,
        ) is None ==> {
            &&& tables.digests_compared(edge, node) == DigestOutcome::Seeded
            &&& tables.with_digests(edge, node).metadata_at(META_KEY_EDGE_TYPES_DIGEST@) == Some(
                stored,
            )
            &&& tables.with_digests(edge, node).metadata_at(META_KEY_NODE_LABELS_DIGEST@) == Some(
                node,
            )
        },
        tables.metadata_at(META_KEY_EDGE_TYPES_DIGEST@) is None && tables.metadata_at(
            META_KEY_NODE_LABELS_DIGEST@,
        ) == Some(stored) ==> {
            &&& tables.digests_compared(edge, node) == DigestOutcome::Seeded
            &&& tables.with_digests(edge, node).metadata_at(META_KEY_EDGE_TYPES_DIGEST@) == Some(
                edge,
            )
            &&& tables.with_digests(edge, node).metadata_at(META_KEY_NODE_LABELS_DIGEST@) == Some(
                stored,
            )
        },
{
    lemma_reserved_keys();
}

/// What can be done to a store.
pub enum Operation {
    /// Storing records, one or a batch.
    Insert { table: TableName, list: Seq<(Seq<char>, Seq<u8>)> },
    /// Deleting records, one or a batch.
    Delete { table: TableName, ids: Set<Seq<char>> },
    /// Setting metadata.
    SetMetadata { key: Seq<char>, value: Seq<char> },
    /// Storing or comparing digests.
    CheckDigests { edge: Seq<char>, node: Seq<char> },
    /// Opening the store again.
    Open,
}

impl Operation {
    /// The tables after this operation.
    pub open spec fn done(self, tables: Tables) -> Tables {
        match self {
            Operation::Insert { table, list } => tables.with_records(table, list).with_next_lsn(),
            Operation::Delete { table, ids } => tables.deleted(table, ids),
            Operation::SetMetadata { key, value } => tables.metadata_set(key, value),
            Operation::CheckDigests { edge, node } => tables.with_digests(edge, node),
            Operation::Open => tables.opened(),
        }
    }

    /// Whether this operation sets the log sequence number itself.
    pub open spec fn sets_lsn(self) -> bool {
        self matches Operation::SetMetadata { key, value } && key == META_KEY_LSN@
    }

    /// Whether this operation is a mutation of these tables.
    pub open spec fn mutates(self, tables: Tables) -> bool {
        match self {
            Operation::Insert { .. } => true,
            Operation::Delete { table, ids } => tables.present(table, ids) != Set::<
                Seq<char>,
            >::empty(),
            Operation::SetMetadata { key, .. } => !RESERVED_PREFIX@.is_prefix_of(key),
            Operation::CheckDigests { .. } => false,
            Operation::Open => false,
        }
    }
}

/// The tables after some operations.
pub open spec fn after_all(tables: Tables, operations: Seq<Operation>) -> Tables
    decreases operations.len(),
{
    if operations.len() == 0 {
        tables
    } else {
        operations.last().done(after_all(tables, operations.drop_last()))
    }
}

/// How many of some operations are mutations.
pub open spec fn mutation_count(tables: Tables, operations: Seq<Operation>) -> nat
    decreases operations.len(),
{
    if operations.len() == 0 {
        0
    } else {
        let front = operations.drop_last();
        mutation_count(tables, front) + if operations.last().mutates(after_all(tables, front)) {
            1nat
        } else {
            0nat
        }
    }
}

/// The log sequence number counts the mutations: whatever is done to a store, it
/// advances by one for each mutation, up to the largest, and never goes back. Only
/// setting it outright is left out.
pub proof fn law_lsn_counts_the_mutations(tables: Tables, operations: Seq<Operation>)
    requires
        forall|i: int| 0 <= i < operations.len() ==> !(#[trigger] operations[i]).sets_lsn(),
    ensures
        after_all(tables, operations).lsn() == if tables.lsn() + mutation_count(
            tables,
            operations,
        ) <= u64::MAX {
            tables.lsn() + mutation_count(tables, operations)
        } else {
            u64::MAX as int
        },
        after_all(tables, operations).lsn() >= tables.lsn(),
    decreases operations.len(),
{
    if operations.len() > 0 {
        let front = operations.drop_last();
        let last = operations.last();
        assert forall|i: int| 0 <= i < front.len() implies !(#[trigger] front[i]).sets_lsn() by {
            assert(front[i] == operations[i]);
        }
        assert(!operations[operations.len() - 1].sets_lsn());
        law_lsn_counts_the_mutations(tables, front);
        let before = after_all(tables, front);
        match last {
            Operation::Insert { table, list } => {
                law_batch_is_one_step(before, table, list);
            },
            Operation::Delete { table, ids } => {
                law_deleted_record_is_gone(before, table, ids);
            },
            Operation::SetMetadata { key, value } => {
                law_metadata_is_read_back(before, key, value);
            },
            Operation::CheckDigests { edge, node } => {
                law_digests_are_never_overwritten(before, edge, node);
            },
            Operation::Open => {
                law_reopening_changes_nothing(before);
            },
        }
    }
}

} // verus!
