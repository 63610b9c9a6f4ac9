//! What each write and each operation does to the tables of a graph store, entry by entry.

use crate::decimal::{decimal, law_decimal_round_trip, parsed};
use crate::graph_laws::{last_with_id, law_batch_is_one_step};
use crate::graph_storage::DigestCheck;
use crate::tables::{
    lemma_after_push, lemma_reserved_keys, lsn_of, next_lsn, record_list, text_of, Record, TableName,
    Tables, Write, ATLAS_FORMAT_VERSION, META_KEY_EDGE_TYPES_DIGEST, META_KEY_FORMAT_VERSION, META_KEY_LSN,
    META_KEY_NODE_LABELS_DIGEST, RESERVED_PREFIX,
};
use vstd::prelude::*;

verus! {

/// A transaction applies its writes in turn. Each changes one entry, to what it says, and
/// leaves every other entry of the tables as it is.
pub proof fn law_writes_are_applied_in_turn(tables: Tables, writes: Seq<Write>, write: Write)
    ensures
        tables.after(Seq::empty()) == tables,
        ({
            let before = tables.after(writes);
            let after = tables.after(writes.push(write));
            match write {
                Write::PutRecord { table, id, data } => {
                    &&& after.records == before.records.insert((table, id@), data@)
                    &&& after.metadata == before.metadata
                },
                Write::RemoveRecord { table, id } => {
                    &&& after.records == before.records.remove((table, id@))
                    &&& after.metadata == before.metadata
                },
                Write::PutMetadata { key, value } => {
                    &&& after.records == before.records
                    &&& after.metadata == before.metadata.insert(key@, value@)
                },
            }
        }),
{
    lemma_after_push(tables, writes, write);
    let before = tables.after(writes);
    match write {
        Write::RemoveRecord { table, id } => {
            assert(before.without_records(table, set![id@]).records =~= before.records.remove(
                (table, id@),
            ));
        },
        _ => {},
    }
}

/// The keys and texts of the store's own metadata.
pub proof fn law_reserved_texts()
    ensures
        META_KEY_LSN@ == "__atlas_lsn"@,
        META_KEY_FORMAT_VERSION@ == "__atlas_format_version"@,
        META_KEY_EDGE_TYPES_DIGEST@ == "__atlas_edge_types_digest"@,
        META_KEY_NODE_LABELS_DIGEST@ == "__atlas_node_labels_digest"@,
        ATLAS_FORMAT_VERSION@ == "1.0"@,
        RESERVED_PREFIX@ == "__atlas_"@,
{
}

/// What is read from the tables is what they hold, and nothing where they hold nothing.
pub proof fn law_reads_give_what_is_held(
    tables: Tables,
    table: TableName,
    id: Seq<char>,
    key: Seq<char>,
)
    ensures
        tables.record_at(table, id) is Some <==> tables.records.contains_key((table, id)),
        tables.record_at(table, id) is Some ==> tables.record_at(table, id)->0 == tables.records[(
            table,
            id,
        )],
        tables.metadata_at(key) is Some <==> tables.metadata.contains_key(key),
        tables.metadata_at(key) is Some ==> tables.metadata_at(key)->0 == tables.metadata[key],
{
}

/// The log sequence number is the number that stands under its key, and zero if none does.
pub proof fn law_lsn_is_the_number_under_its_key(tables: Tables, stored: Option<&str>)
    ensures
        !tables.metadata.contains_key("__atlas_lsn"@) ==> tables.lsn() == 0,
        tables.metadata.contains_key("__atlas_lsn"@) ==> match parsed(
            tables.metadata["__atlas_lsn"@],
        ) {
            Some(number) => tables.lsn() == number,
            None => tables.lsn() == 0,
        },
        stored is None ==> lsn_of(text_of(stored)) == 0,
        stored is Some ==> match parsed(stored->0@) {
            Some(number) => lsn_of(text_of(stored)) == number,
            None => lsn_of(text_of(stored)) == 0,
        },
{
}

/// The next number is one larger, except that the largest has none and stays.
pub proof fn law_next_lsn_is_one_larger(lsn: u64)
    ensures
        lsn < 0xFFFF_FFFF_FFFF_FFFF ==> next_lsn(lsn) == lsn + 1,
        lsn == 0xFFFF_FFFF_FFFF_FFFF ==> next_lsn(lsn) == lsn,
{
}

/// Setting the log sequence number writes its digits under its key.
pub proof fn law_lsn_is_written_in_digits(tables: Tables, lsn: u64)
    ensures
        tables.with_lsn(lsn).metadata == tables.metadata.insert("__atlas_lsn"@, decimal(lsn as nat)),
        tables.with_lsn(lsn).records == tables.records,
        tables.with_lsn(lsn).lsn() == lsn,
        tables.with_next_lsn() == tables.with_lsn(next_lsn(tables.lsn())),
{
    law_decimal_round_trip(lsn);
}

/// Putting a record changes the one record and nothing else, and putting a list of them
/// puts one after the other.
pub proof fn law_records_are_put_one_by_one(
    tables: Tables,
    table: TableName,
    list: Seq<(Seq<char>, Seq<u8>)>,
    id: Seq<char>,
    data: Seq<u8>,
)
    ensures
        tables.with_record(table, id, data).records == tables.records.insert((table, id), data),
        tables.with_record(table, id, data).metadata == tables.metadata,
        tables.with_records(table, Seq::empty()) == tables,
        tables.with_records(table, list.push((id, data))).records == tables.with_records(
            table,
            list,
        ).records.insert((table, id), data),
        tables.with_records(table, list.push((id, data))).metadata == tables.with_records(
            table,
            list,
        ).metadata,
{
    assert(list.push((id, data)).drop_last() =~= list);
}

/// After a batch each of its ids has the data of the last record with that id, and every
/// other record is as it was, in the same table and in the others.
pub proof fn law_batch_stores_the_last_of_each_record(
    tables: Tables,
    table: TableName,
    records: Seq<Record>,
    id: Seq<char>,
)
    ensures
        ({
            let after = tables.with_records(table, record_list(records)).with_next_lsn();
            &&& forall|i: int|
                0 <= i < records.len() && (#[trigger] records[i]).id@ == id && (forall|j: int|
                    i < j < records.len() ==> (#[trigger] records[j]).id@ != id)
                    ==> after.records.contains_key((table, id)) && after.records[(table, id)]
                    == records[i].data@
            &&& (forall|i: int| 0 <= i < records.len() ==> (#[trigger] records[i]).id@ != id) ==> {
                &&& after.records.contains_key((table, id)) == tables.records.contains_key(
                    (table, id),
                )
                &&& after.records.contains_key((table, id)) ==> after.records[(table, id)]
                    == tables.records[(table, id)]
            }
            &&& forall|other: TableName| #[trigger]
                after.records.contains_key((other, id)) && other != table
                    ==> tables.records.contains_key((other, id)) && after.records[(other, id)]
                    == tables.records[(other, id)]
            &&& forall|other: TableName| #[trigger]
                tables.records.contains_key((other, id)) && other != table
                    ==> after.records.contains_key((other, id))
            &&& tables.lsn() < u64::MAX ==> after.lsn() == tables.lsn() + 1
        }),
{
    let list = record_list(records);
    let after = tables.with_records(table, list).with_next_lsn();
    law_batch_is_one_step(tables, table, list);
    lemma_last_with_id(list, id);
    assert forall|i: int|
        0 <= i < records.len() && (#[trigger] records[i]).id@ == id && (forall|j: int|
            i < j < records.len() ==> (
            #[trigger] records[j]).id@ != id) implies after.records.contains_key((table, id))
        && after.records[(table, id)] == records[i].data@ by {
        assert(list[i] == (records[i].id@, records[i].data@));
        assert forall|j: int| i < j < list.len() implies (#[trigger] list[j]).0 != id by {
            assert(records[j].id@ != id);
        }
        assert(after.record_at(table, id) == Some(records[i].data@));
    }
    if forall|i: int| 0 <= i < records.len() ==> (#[trigger] records[i]).id@ != id {
        assert forall|j: int| 0 <= j < list.len() implies (#[trigger] list[j]).0 != id by {
            assert(records[j].id@ != id);
        }
        assert(after.record_at(table, id) == tables.record_at(table, id));
    }
    assert forall|other: TableName| other != table implies #[trigger] after.record_at(other, id)
        == tables.record_at(other, id) by {}
    assert forall|other: TableName| #[trigger]
        after.records.contains_key((other, id)) && other
            != table implies tables.records.contains_key((other, id)) && after.records[(other, id)]
        == tables.records[(other, id)] by {
        assert(after.record_at(other, id) == tables.record_at(other, id));
    }
    assert forall|other: TableName| #[trigger]
        tables.records.contains_key((other, id)) && other
            != table implies after.records.contains_key((other, id)) by {
        assert(after.record_at(other, id) == tables.record_at(other, id));
    }
}

proof fn lemma_last_with_id(list: Seq<(Seq<char>, Seq<u8>)>, id: Seq<char>)
    ensures
        forall|i: int|
            0 <= i < list.len() && (#[trigger] list[i]).0 == id && (forall|j: int|
                i < j < list.len() ==> (#[trigger] list[j]).0 != id) ==> last_with_id(list, id)
                == Some(list[i].1),
        (forall|i: int| 0 <= i < list.len() ==> (#[trigger] list[i]).0 != id) ==> last_with_id(
            list,
            id,
        ) is None,
    decreases list.len(),
{
    if list.len() > 0 {
        let front = list.drop_last();
        let last = list.len() - 1;
        lemma_last_with_id(front, id);
        assert(list.last() == list[last]);
        assert forall|i: int|
            0 <= i < list.len() && (#[trigger] list[i]).0 == id && (forall|j: int|
                i < j < list.len() ==> (#[trigger] list[j]).0 != id) implies last_with_id(list, id)
            == Some(list[i].1) by {
            if i < last {
                assert(list[last].0 != id);
                assert(front[i] == list[i]);
                assert forall|j: int| i < j < front.len() implies (#[trigger] front[j]).0 != id by {
                    assert(front[j] == list[j]);
                }
            }
        }
        if forall|i: int| 0 <= i < list.len() ==> (#[trigger] list[i]).0 != id {
            assert(list[last].0 != id);
            assert forall|j: int| 0 <= j < front.len() implies (#[trigger] front[j]).0 != id by {
                assert(front[j] == list[j]);
            }
        }
    }
}

/// A list of records names their ids and data in order.
pub proof fn law_record_lists(records: Seq<Record>)
    ensures
        record_list(records).len() == records.len(),
        forall|i: int|
            0 <= i < records.len() ==> (#[trigger] record_list(records)[i]).0 == records[i].id@
                && record_list(records)[i].1 == records[i].data@,
{
}

/// A deletion takes out the records with these ids in this table and no others, whatever
/// else is stored. If there was one it counts as a mutation, and otherwise nothing changes.
pub proof fn law_deletion_takes_out_just_these_records(
    tables: Tables,
    table: TableName,
    ids: Set<Seq<char>>,
)
    ensures
        ({
            let after = tables.deleted(table, ids);
            &&& forall|other: TableName, id: Seq<char>| #[trigger]
                after.records.contains_key((other, id)) <==> tables.records.contains_key(
                    (other, id),
                ) && (other != table || !ids.contains(id))
            &&& forall|other: TableName, id: Seq<char>|
                after.records.contains_key((other, id)) ==> #[trigger] after.records[(other, id)]
                    == tables.records[(other, id)]
            &&& (exists|id: Seq<char>| #[trigger]
                ids.contains(id) && tables.records.contains_key((table, id)))
                ==> after.metadata == tables.metadata.insert(
                "__atlas_lsn"@,
                decimal(next_lsn(tables.lsn()) as nat),
            )
            &&& (forall|id: Seq<char>| #[trigger]
                ids.contains(id) ==> !tables.records.contains_key((table, id))) ==> after == tables
            &&& forall|id: Seq<char>| #[trigger]
                tables.present(table, ids).contains(id) <==> ids.contains(id)
                    && tables.records.contains_key((table, id))
        }),
{
    let after = tables.deleted(table, ids);
    let present = tables.present(table, ids);
    if exists|id: Seq<char>| #[trigger]
        ids.contains(id) && tables.records.contains_key((table, id)) {
        let id = choose|id: Seq<char>| #[trigger]
            ids.contains(id) && tables.records.contains_key((table, id));
        assert(present.contains(id));
    } else {
        assert(present =~= Set::empty());
    }
}

/// Opening a store puts the format version and a log sequence number of zero where they are
/// missing, and changes nothing else.
pub proof fn law_opening_fills_in_what_is_missing(tables: Tables, key: Seq<char>)
    ensures
        ({
            let after = tables.opened();
            &&& after.records == tables.records
            &&& tables.metadata.contains_key(key) ==> after.metadata.contains_key(key)
                && after.metadata[key] == tables.metadata[key]
            &&& !tables.metadata.contains_key("__atlas_format_version"@)
                ==> after.metadata.contains_key("__atlas_format_version"@)
                && after.metadata["__atlas_format_version"@] == "1.0"@
            &&& !tables.metadata.contains_key("__atlas_lsn"@) ==> after.metadata.contains_key(
                "__atlas_lsn"@,
            ) && after.metadata["__atlas_lsn"@] == "0"@
            &&& after.metadata.contains_key(key) && key != "__atlas_format_version"@ && key
                != "__atlas_lsn"@ ==> tables.metadata.contains_key(key)
        }),
{
    lemma_reserved_keys();
    reveal_strlit("0");
    assert("0"@ =~= decimal(0));
}

/// Checking digests puts each that is missing, and changes nothing else.
pub proof fn law_digests_are_put_where_missing(
    tables: Tables,
    edge: Seq<char>,
    node: Seq<char>,
    key: Seq<char>,
)
    ensures
        ({
            let after = tables.with_digests(edge, node);
            &&& after.records == tables.records
            &&& tables.metadata.contains_key(key) ==> after.metadata.contains_key(key)
                && after.metadata[key] == tables.metadata[key]
            &&& !tables.metadata.contains_key("__atlas_edge_types_digest"@)
                ==> after.metadata.contains_key("__atlas_edge_types_digest"@)
                && after.metadata["__atlas_edge_types_digest"@] == edge
            &&& !tables.metadata.contains_key("__atlas_node_labels_digest"@)
                ==> after.metadata.contains_key("__atlas_node_labels_digest"@)
                && after.metadata["__atlas_node_labels_digest"@] == node
            &&& after.metadata.contains_key(key) && key != "__atlas_edge_types_digest"@ && key
                != "__atlas_node_labels_digest"@ ==> tables.metadata.contains_key(key)
        }),
{
    lemma_reserved_keys();
}

/// Digests are compared text by text: they match if both are stored and equal, they are
/// taken if one is missing, and otherwise the stored and the given ones are reported.
pub proof fn law_digests_are_compared_by_their_texts(
    tables: Tables,
    edge: Seq<char>,
    node: Seq<char>,
)
    ensures
        ({
            let edge_stored = tables.metadata.contains_key("__atlas_edge_types_digest"@);
            let node_stored = tables.metadata.contains_key("__atlas_node_labels_digest"@);
            let edge_disk = tables.metadata["__atlas_edge_types_digest"@];
            let node_disk = tables.metadata["__atlas_node_labels_digest"@];
            let outcome = tables.digests_compared(edge, node);
            &&& outcome is Seeded <==> !edge_stored || !node_stored
            &&& outcome is Match <==> edge_stored && node_stored && edge_disk == edge && node_disk
                == node
            &&& outcome is Mismatch ==> {
                &&& outcome->edge_disk == edge_disk
                &&& outcome->edge_runtime == edge
                &&& outcome->node_disk == node_disk
                &&& outcome->node_runtime == node
            }
        }),
{
}

/// The outcome of a comparison shows the same case with the same texts.
pub proof fn law_outcome_shows_the_check(check: DigestCheck)
    ensures
        check is Seeded <==> check.outcome() is Seeded,
        check is Match <==> check.outcome() is Match,
        check is Mismatch ==> {
            &&& check.outcome()->edge_disk == check->edge_disk@
            &&& check.outcome()->edge_runtime == check->edge_runtime@
            &&& check.outcome()->node_disk == check->node_disk@
            &&& check.outcome()->node_runtime == check->node_runtime@
        },
{
}

/// Setting metadata puts the value under its key. Under a key that does not begin as the
/// store's own do, it also advances the log sequence number; nothing else changes.
pub proof fn law_setting_metadata_changes_one_value(
    tables: Tables,
    key: Seq<char>,
    value: Seq<char>,
)
    ensures
        ({
            let after = tables.metadata_set(key, value);
            &&& after.records == tables.records
            &&& "__atlas_"@.is_prefix_of(key) ==> after.metadata == tables.metadata.insert(
                key,
                value,
            )
            &&& !"__atlas_"@.is_prefix_of(key) ==> after.metadata == tables.metadata.insert(
                key,
                value,
            ).insert("__atlas_lsn"@, decimal(next_lsn(tables.lsn()) as nat))
        }),
{
    lemma_reserved_keys();
    if !"__atlas_"@.is_prefix_of(key) {
        assert(key != META_KEY_LSN@);
        assert(tables.with_metadata(key, value).lsn() == tables.lsn());
    }
}

/// A value that was read shows its text, and nothing where nothing was read.
pub proof fn law_value_read_shows_its_text(stored: Option<&str>)
    ensures
        stored is None ==> text_of(stored) is None,
        stored is Some ==> text_of(stored) == Some(stored->0@),
{
}

} // verus!
