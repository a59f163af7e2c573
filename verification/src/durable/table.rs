//! The table that holds every row, and what redb is trusted with.

use core::ops::Bound;

use redb::{
    ReadTransaction, ReadableTable, StorageError, TableDefinition, TableError, WriteTransaction,
};
use vstd::prelude::*;

use crate::cursor::is_first;
use crate::keyspace::{bound_of, in_range};
use crate::rawkv::{is_scan, row_at, value_of, without_range, Rows};
use crate::stream::{pair_of, KvPair};

verus! {

/// The table that holds the raw rows.
pub const TABLE_NAME: &'static str = "kv";

/// A redb write transaction.
#[verifier::external_type_specification]
#[verifier::external_body]
pub struct ExWriteTransaction(WriteTransaction);

/// A redb read transaction.
#[verifier::external_type_specification]
#[verifier::external_body]
pub struct ExReadTransaction(ReadTransaction);

/// The rows that a write transaction sees in one of its byte-string tables.
pub uninterp spec fn written_table(tx: WriteTransaction, name: Seq<char>) -> Seq<
    (Seq<u8>, Seq<u8>),
>;

/// The rows that a read transaction sees in one of its byte-string tables.
pub uninterp spec fn read_table(tx: ReadTransaction, name: Seq<char>) -> Seq<(Seq<u8>, Seq<u8>)>;

/// Whether the row at a position has this key.
pub open spec fn table_at(table: Seq<(Seq<u8>, Seq<u8>)>, k: Seq<u8>, i: int) -> bool {
    0 <= i < table.len() && table[i].0 == k
}

/// A table as a map.
pub open spec fn table_rows(table: Seq<(Seq<u8>, Seq<u8>)>) -> Rows {
    Map::new(
        |k: Seq<u8>| exists|i: int| table_at(table, k, i),
        |k: Seq<u8>| table[choose|i: int| table_at(table, k, i)].1,
    )
}

/// A table has finitely many rows.
pub proof fn lemma_table_finite(table: Seq<(Seq<u8>, Seq<u8>)>)
    ensures
        table_rows(table).dom().finite(),
{
    let keys = Seq::new(table.len(), |i: int| table[i].0);
    vstd::seq_lib::seq_to_set_is_finite(keys);
    assert(table_rows(table).dom().subset_of(keys.to_set())) by {
        assert forall|k: Seq<u8>| table_rows(table).dom().contains(k) implies keys.to_set().contains(
            k,
        ) by {
            let i = choose|i: int| table_at(table, k, i);
            assert(keys[i] == k);
        }
    }
    vstd::set_lib::lemma_len_subset(table_rows(table).dom(), keys.to_set());
}

/// Whether a row is the first one of a range in the direction of a walk, or there
/// is none where the range has no rows.
pub open spec fn is_first_row(
    m: Rows,
    start: Bound<Seq<u8>>,
    end: Bound<Seq<u8>>,
    reverse: bool,
    row: Option<KvPair>,
) -> bool {
    match row {
        Some(row) => is_first(m, start, end, reverse, row),
        None => forall|k: Seq<u8>| #[trigger] m.dom().contains(k) ==> !in_range(k, start, end),
    }
}

/// `WriteTransaction::open_table`, then `ReadableTable::get`: the value of the
/// row with this key, if the table has one. An engine failure is reported with
/// its text. The table's name must not be empty.
#[verifier::external_body]
pub(crate) fn write_get(tx: &WriteTransaction, name: &str, key: &[u8]) -> (r: Result<Option<Vec<u8>>, String>)
    requires
        name@.len() > 0,
    ensures
        r matches Ok(v) ==> value_of(v) == row_at(table_rows(written_table(*tx, name@)), key@),
{
    let definition = TableDefinition::<&'static [u8], &'static [u8]>::new(name);
    let table = tx.open_table(definition).map_err(|e| e.to_string())?;
    let row = table.get(key).map_err(|e| e.to_string())?;
    Ok(row.map(|v| v.value().to_vec()))
}

/// `WriteTransaction::open_table`, then `ReadableTable::range`: the rows in the
/// range, in ascending key order. A range whose bounds cross has no rows.
#[verifier::external_body]
pub(crate) fn write_range(tx: &WriteTransaction, name: &str, start: Bound<&[u8]>, end: Bound<&[u8]>) -> (r:
    Result<Vec<KvPair>, String>)
    requires
        name@.len() > 0,
    ensures
        r matches Ok(list) ==> is_scan(
            table_rows(written_table(*tx, name@)),
            bound_of(start),
            bound_of(end),
            true,
            list@,
        ),
{
    let definition = TableDefinition::<&'static [u8], &'static [u8]>::new(name);
    let table = tx.open_table(definition).map_err(|e| e.to_string())?;
    let rows = table.range::<&[u8]>((start, end)).map_err(|e| e.to_string())?;
    rows.map(|row| row.map(|(k, v)| pair_of(k.value(), v.value())))
        .collect::<Result<Vec<KvPair>, StorageError>>()
        .map_err(|e| e.to_string())
}

/// `WriteTransaction::open_table`, then `ReadableTable::range` and the first item of its
/// iterator: the first row in the range, and nothing where the range has no rows.
#[verifier::external_body]
pub(crate) fn write_first(tx: &WriteTransaction, name: &str, start: Bound<&[u8]>, end: Bound<&[u8]>) -> (r:
    Result<Option<KvPair>, String>)
    requires
        name@.len() > 0,
    ensures
        r matches Ok(row) ==> is_first_row(
            table_rows(written_table(*tx, name@)),
            bound_of(start),
            bound_of(end),
            false,
            row,
        ),
{
    let definition = TableDefinition::<&'static [u8], &'static [u8]>::new(name);
    let table = tx.open_table(definition).map_err(|e| e.to_string())?;
    let mut rows = table.range::<&[u8]>((start, end)).map_err(|e| e.to_string())?;
    let row = rows.next().transpose().map_err(|e| e.to_string())?;
    Ok(row.map(|(k, v)| pair_of(k.value(), v.value())))
}

/// `WriteTransaction::open_table`, then `ReadableTable::range` and the last item of its
/// iterator: the last row in the range, and nothing where the range has no rows.
#[verifier::external_body]
pub(crate) fn write_last(tx: &WriteTransaction, name: &str, start: Bound<&[u8]>, end: Bound<&[u8]>) -> (r:
    Result<Option<KvPair>, String>)
    requires
        name@.len() > 0,
    ensures
        r matches Ok(row) ==> is_first_row(
            table_rows(written_table(*tx, name@)),
            bound_of(start),
            bound_of(end),
            true,
            row,
        ),
{
    let definition = TableDefinition::<&'static [u8], &'static [u8]>::new(name);
    let table = tx.open_table(definition).map_err(|e| e.to_string())?;
    let mut rows = table.range::<&[u8]>((start, end)).map_err(|e| e.to_string())?;
    let row = rows.next_back().transpose().map_err(|e| e.to_string())?;
    Ok(row.map(|(k, v)| pair_of(k.value(), v.value())))
}

/// `WriteTransaction::open_table`, then `Table::insert`: the row is set, in place
/// of one with the same key.
#[verifier::external_body]
pub(crate) fn write_insert(tx: &mut WriteTransaction, name: &str, key: &[u8], value: &[u8]) -> (r: Result<
    (),
    String,
>)
    requires
        name@.len() > 0,
    ensures
        r matches Ok(()) ==> table_rows(written_table(*final(tx), name@)) == table_rows(
            written_table(*old(tx), name@),
        ).insert(key@, value@),
{
    let definition = TableDefinition::<&'static [u8], &'static [u8]>::new(name);
    let mut table = tx.open_table(definition).map_err(|e| e.to_string())?;
    table.insert(key, value).map_err(|e| e.to_string())?;
    Ok(())
}

/// `WriteTransaction::open_table`, then `Table::remove`: the row with this key is
/// gone, if there was one.
#[verifier::external_body]
pub(crate) fn write_remove(tx: &mut WriteTransaction, name: &str, key: &[u8]) -> (r: Result<(), String>)
    requires
        name@.len() > 0,
    ensures
        r matches Ok(()) ==> table_rows(written_table(*final(tx), name@)) == table_rows(
            written_table(*old(tx), name@),
        ).remove(key@),
{
    let definition = TableDefinition::<&'static [u8], &'static [u8]>::new(name);
    let mut table = tx.open_table(definition).map_err(|e| e.to_string())?;
    table.remove(key).map_err(|e| e.to_string())?;
    Ok(())
}

/// Keeps no row.
fn keep_none(_key: &[u8], _value: &[u8]) -> (r: bool)
    ensures
        !r,
{
    false
}

/// `WriteTransaction::open_table`, then `Table::retain_in` with a predicate that
/// keeps no row: exactly the rows in the range are gone. A range whose bounds
/// cross has no rows.
#[verifier::external_body]
pub(crate) fn write_clear(tx: &mut WriteTransaction, name: &str, start: Bound<&[u8]>, end: Bound<&[u8]>) -> (r:
    Result<(), String>)
    requires
        name@.len() > 0,
    ensures
        r matches Ok(()) ==> table_rows(written_table(*final(tx), name@)) == without_range(
            table_rows(written_table(*old(tx), name@)),
            bound_of(start),
            bound_of(end),
        ),
{
    let definition = TableDefinition::<&'static [u8], &'static [u8]>::new(name);
    let mut table = tx.open_table(definition).map_err(|e| e.to_string())?;
    table.retain_in::<&[u8], fn(&[u8], &[u8]) -> bool>((start, end), keep_none).map_err(
        |e| e.to_string(),
    )
}

/// `ReadTransaction::open_table`, then `ReadOnlyTable::get`: the value of the row
/// with this key, if the table has one. A table that was never written has none.
#[verifier::external_body]
pub(crate) fn read_get(tx: &ReadTransaction, name: &str, key: &[u8]) -> (r: Result<Option<Vec<u8>>, String>)
    requires
        name@.len() > 0,
    ensures
        r matches Ok(v) ==> value_of(v) == row_at(table_rows(read_table(*tx, name@)), key@),
{
    let definition = TableDefinition::<&'static [u8], &'static [u8]>::new(name);
    match tx.open_table(definition) {
        Ok(table) => {
            let row = table.get(key).map_err(|e| e.to_string())?;
            Ok(row.map(|v| v.value().to_vec()))
        },
        Err(TableError::TableDoesNotExist(_)) => Ok(None),
        Err(e) => Err(e.to_string()),
    }
}

/// `ReadTransaction::open_table`, then `ReadOnlyTable::range`: the rows in the
/// range, in ascending key order. A table that was never written has no rows, and
/// neither has a range whose bounds cross.
#[verifier::external_body]
pub(crate) fn read_range(tx: &ReadTransaction, name: &str, start: Bound<&[u8]>, end: Bound<&[u8]>) -> (r:
    Result<Vec<KvPair>, String>)
    requires
        name@.len() > 0,
    ensures
        r matches Ok(list) ==> is_scan(
            table_rows(read_table(*tx, name@)),
            bound_of(start),
            bound_of(end),
            true,
            list@,
        ),
{
    let definition = TableDefinition::<&'static [u8], &'static [u8]>::new(name);
    let table = match tx.open_table(definition) {
        Ok(table) => table,
        Err(TableError::TableDoesNotExist(_)) => return Ok(Vec::new()),
        Err(e) => return Err(e.to_string()),
    };
    let rows = table.range::<&[u8]>((start, end)).map_err(|e| e.to_string())?;
    rows.map(|row| row.map(|(k, v)| pair_of(k.value(), v.value())))
        .collect::<Result<Vec<KvPair>, StorageError>>()
        .map_err(|e| e.to_string())
}

/// `ReadTransaction::open_table`, then `ReadOnlyTable::range` and the first item of its
/// iterator: the first row in the range, and nothing where the range or the table has no rows.
#[verifier::external_body]
pub(crate) fn read_first(tx: &ReadTransaction, name: &str, start: Bound<&[u8]>, end: Bound<&[u8]>) -> (r:
    Result<Option<KvPair>, String>)
    requires
        name@.len() > 0,
    ensures
        r matches Ok(row) ==> is_first_row(
            table_rows(read_table(*tx, name@)),
            bound_of(start),
            bound_of(end),
            false,
            row,
        ),
{
    let definition = TableDefinition::<&'static [u8], &'static [u8]>::new(name);
    let table = match tx.open_table(definition) {
        Ok(table) => table,
        Err(TableError::TableDoesNotExist(_)) => return Ok(None),
        Err(e) => return Err(e.to_string()),
    };
    let mut rows = table.range::<&[u8]>((start, end)).map_err(|e| e.to_string())?;
    let row = rows.next().transpose().map_err(|e| e.to_string())?;
    Ok(row.map(|(k, v)| pair_of(k.value(), v.value())))
}

/// `ReadTransaction::open_table`, then `ReadOnlyTable::range` and the last item of its
/// iterator: the last row in the range, and nothing where the range or the table has no rows.
#[verifier::external_body]
pub(crate) fn read_last(tx: &ReadTransaction, name: &str, start: Bound<&[u8]>, end: Bound<&[u8]>) -> (r:
    Result<Option<KvPair>, String>)
    requires
        name@.len() > 0,
    ensures
        r matches Ok(row) ==> is_first_row(
            table_rows(read_table(*tx, name@)),
            bound_of(start),
            bound_of(end),
            true,
            row,
        ),
{
    let definition = TableDefinition::<&'static [u8], &'static [u8]>::new(name);
    let table = match tx.open_table(definition) {
        Ok(table) => table,
        Err(TableError::TableDoesNotExist(_)) => return Ok(None),
        Err(e) => return Err(e.to_string()),
    };
    let mut rows = table.range::<&[u8]>((start, end)).map_err(|e| e.to_string())?;
    let row = rows.next_back().transpose().map_err(|e| e.to_string())?;
    Ok(row.map(|(k, v)| pair_of(k.value(), v.value())))
}

} // verus!
