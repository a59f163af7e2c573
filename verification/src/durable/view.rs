//! Raw views of redb transactions, and the version check of an open.

use core::ops::Bound;

use redb::{ReadTransaction, WriteTransaction};
use vstd::prelude::*;

use crate::durable::error::{RedbBackendError, RedbStorageError};
use crate::durable::table::{
    is_first_row, lemma_table_finite, read_first, read_get, read_last, read_range, read_table,
    table_rows, write_clear, write_first, write_get, write_insert, write_last, write_range,
    write_remove, written_table, TABLE_NAME,
};
use crate::flatdir::error::FlatError;
use crate::flatdir::layout::VERSION_KEY;
use crate::flatdir::model::readable_version;
use crate::flatdir::ops::is_readable_version;
use crate::keyspace::bound_of;
use crate::rawkv::{
    call_fails, keys_within, law_reverse_scan, read_fails, reversed, row_at, write_fails, RawKv,
    Rows, Terms,
};
use crate::stream::KvPair;

verus! {

/// The raw view of a write transaction.
///
/// Whether an operation succeeds rests on the engine, which may fail at any time;
/// what the table holds after a failed write is left open.
pub struct RedbWriteView {
    tx: WriteTransaction,
    /// The keys written or deleted so far.
    touched: Ghost<Set<Seq<u8>>>,
}

/// The raw view of a read transaction. Its writes are refused; whether a read
/// succeeds rests on the engine.
pub struct RedbReadView {
    tx: ReadTransaction,
}

/// The table has a name.
proof fn lemma_table_name()
    ensures
        TABLE_NAME@.len() > 0,
{
    reveal_strlit("kv");
}

/// The terms of an engine that may fail at any time.
pub open spec fn no_promises() -> Terms {
    Terms { readable: false, writable: false, beneath: Map::empty() }
}

impl RedbWriteView {
    /// Whether a read of the transaction, as it stands, failed with this text.
    pub closed spec fn read_reported(&self, text: String) -> bool {
        ||| exists|key: &[u8]| #[trigger]
            call_ensures(
                write_get,
                (&self.tx, TABLE_NAME, key),
                Err::<Option<Vec<u8>>, String>(text),
            )
        ||| exists|start: Bound<&[u8]>, end: Bound<&[u8]>| #[trigger]
            call_ensures(
                write_range,
                (&self.tx, TABLE_NAME, start, end),
                Err::<Vec<KvPair>, String>(text),
            )
    }

    /// Whether seeking one row of a range failed with this text.
    pub closed spec fn seek_reported(
        &self,
        start: Bound<Seq<u8>>,
        end: Bound<Seq<u8>>,
        reverse: bool,
        text: String,
    ) -> bool {
        exists|from: Bound<&[u8]>, to: Bound<&[u8]>|
            #![trigger bound_of(from), bound_of(to)]
            bound_of(from) == start && bound_of(to) == end && if reverse {
                call_ensures(
                    write_last,
                    (&self.tx, TABLE_NAME, from, to),
                    Err::<Option<KvPair>, String>(text),
                )
            } else {
                call_ensures(
                    write_first,
                    (&self.tx, TABLE_NAME, from, to),
                    Err::<Option<KvPair>, String>(text),
                )
            }
    }

    /// Whether a write to the transaction, as it stands, failed with this text.
    pub closed spec fn write_reported(&self, text: String) -> bool {
        ||| exists|tx: &mut WriteTransaction, key: &[u8], value: &[u8]|
            *tx == self.tx && #[trigger] call_ensures(
                write_insert,
                (tx, TABLE_NAME, key, value),
                Err::<(), String>(text),
            )
        ||| exists|tx: &mut WriteTransaction, key: &[u8]|
            *tx == self.tx && #[trigger] call_ensures(
                write_remove,
                (tx, TABLE_NAME, key),
                Err::<(), String>(text),
            )
        ||| exists|tx: &mut WriteTransaction, start: Bound<&[u8]>, end: Bound<&[u8]>|
            *tx == self.tx && #[trigger] call_ensures(
                write_clear,
                (tx, TABLE_NAME, start, end),
                Err::<(), String>(text),
            )
    }

    /// Whether a read of the transaction or a write to it, as it stands, failed with
    /// this text.
    pub open spec fn reported(&self, text: String) -> bool {
        self.read_reported(text) || self.write_reported(text)
    }

    /// The view of a write transaction.
    pub fn new(tx: WriteTransaction) -> (r: Self)
        ensures
            r.rows() == table_rows(written_table(tx, TABLE_NAME@)),
    {
        RedbWriteView { tx, touched: Ghost(Set::empty()) }
    }

    /// The transaction, given back.
    pub fn into_tx(self) -> (tx: WriteTransaction)
        ensures
            table_rows(written_table(tx, TABLE_NAME@)) == self.rows(),
    {
        self.tx
    }
}

impl RedbReadView {
    /// Whether a read of the transaction, as it stands, failed with this text.
    pub closed spec fn read_reported(&self, text: String) -> bool {
        ||| exists|key: &[u8]| #[trigger]
            call_ensures(
                read_get,
                (&self.tx, TABLE_NAME, key),
                Err::<Option<Vec<u8>>, String>(text),
            )
        ||| exists|start: Bound<&[u8]>, end: Bound<&[u8]>| #[trigger]
            call_ensures(
                read_range,
                (&self.tx, TABLE_NAME, start, end),
                Err::<Vec<KvPair>, String>(text),
            )
    }

    /// Whether seeking one row of a range failed with this text.
    pub closed spec fn seek_reported(
        &self,
        start: Bound<Seq<u8>>,
        end: Bound<Seq<u8>>,
        reverse: bool,
        text: String,
    ) -> bool {
        exists|from: Bound<&[u8]>, to: Bound<&[u8]>|
            #![trigger bound_of(from), bound_of(to)]
            bound_of(from) == start && bound_of(to) == end && if reverse {
                call_ensures(
                    read_last,
                    (&self.tx, TABLE_NAME, from, to),
                    Err::<Option<KvPair>, String>(text),
                )
            } else {
                call_ensures(
                    read_first,
                    (&self.tx, TABLE_NAME, from, to),
                    Err::<Option<KvPair>, String>(text),
                )
            }
    }

    /// The view of a read transaction.
    pub fn new(tx: ReadTransaction) -> (r: Self)
        ensures
            r.rows() == table_rows(read_table(tx, TABLE_NAME@)),
    {
        RedbReadView { tx }
    }
}

/// What a view makes of an answer of the engine: the same answer, or a failure
/// with the engine's text.
pub fn engine_result<T>(answer: Result<T, String>) -> (r: Result<T, RedbBackendError>)
    ensures
        r == match answer {
            Ok(value) => Ok::<T, RedbBackendError>(value),
            Err(text) => Err::<T, RedbBackendError>(RedbBackendError::Backend(text)),
        },
{
    match answer {
        Ok(value) => Ok(value),
        Err(text) => Err(RedbBackendError::Backend(text)),
    }
}

/// What a view makes of the rows of an ascending scan: the same rows in the
/// requested direction, or a failure with the engine's text.
pub fn scan_result(answer: Result<Vec<KvPair>, String>, forward: bool) -> (r: Result<
    Vec<KvPair>,
    RedbBackendError,
>)
    ensures
        match answer {
            Ok(rows) => r is Ok && (r->Ok_0)@ == if forward {
                rows@
            } else {
                rows@.reverse()
            },
            Err(text) => r == Err::<Vec<KvPair>, RedbBackendError>(
                RedbBackendError::Backend(text),
            ),
        },
{
    match answer {
        Ok(rows) => Ok(
            if forward {
                rows
            } else {
                reversed(rows)
            },
        ),
        Err(text) => Err(RedbBackendError::Backend(text)),
    }
}

impl RawKv for RedbWriteView {
    type Error = RedbBackendError;

    open spec fn wf(&self) -> bool {
        true
    }

    closed spec fn rows(&self) -> Rows {
        table_rows(written_table(self.tx, TABLE_NAME@))
    }

    closed spec fn touched(&self) -> Set<Seq<u8>> {
        self.touched@
    }

    open spec fn terms(&self) -> Terms {
        no_promises()
    }

    proof fn rows_finite(&self) {
        lemma_table_finite(written_table(self.tx, TABLE_NAME@));
    }

    fn get(&self, key: &[u8]) -> (r: Result<Option<Vec<u8>>, RedbBackendError>)
        ensures
            r matches Err(e) ==> e is Backend && self.read_reported(e->Backend_0),
    {
        proof {
            lemma_table_name();
        }
        engine_result(write_get(&self.tx, TABLE_NAME, key))
    }

    fn scan(&self, start: Bound<&[u8]>, end: Bound<&[u8]>, forward: bool) -> (r: Result<
        Vec<KvPair>,
        RedbBackendError,
    >)
        ensures
            r matches Err(e) ==> e is Backend && self.read_reported(e->Backend_0),
    {
        proof {
            lemma_table_name();
        }
        let answer = write_range(&self.tx, TABLE_NAME, start, end);
        proof {
            if answer is Ok {
                law_reverse_scan(self.rows(), bound_of(start), bound_of(end), (answer->Ok_0)@);
            }
        }
        scan_result(answer, forward)
    }

    fn insert(&mut self, key: &[u8], value: &[u8]) -> (r: Result<(), RedbBackendError>)
        ensures
            r matches Err(e) ==> e is Backend && old(self).write_reported(e->Backend_0),
    {
        proof {
            lemma_table_name();
        }
        let ghost touched = self.touched@.insert(key@);
        let answer = write_insert(&mut self.tx, TABLE_NAME, key, value);
        self.touched = Ghost(touched);
        engine_result(answer)
    }

    fn delete(&mut self, key: &[u8]) -> (r: Result<(), RedbBackendError>)
        ensures
            r matches Err(e) ==> e is Backend && old(self).write_reported(e->Backend_0),
    {
        proof {
            lemma_table_name();
        }
        let ghost touched = self.touched@.insert(key@);
        let answer = write_remove(&mut self.tx, TABLE_NAME, key);
        self.touched = Ghost(touched);
        engine_result(answer)
    }

    fn clear_range(&mut self, start: Bound<&[u8]>, end: Bound<&[u8]>) -> (r: Result<
        (),
        RedbBackendError,
    >)
        ensures
            r matches Err(e) ==> e is Backend && old(self).write_reported(e->Backend_0),
    {
        proof {
            lemma_table_name();
        }
        let ghost touched = self.touched@.union(
            keys_within(self.rows(), bound_of(start), bound_of(end)),
        );
        let answer = write_clear(&mut self.tx, TABLE_NAME, start, end);
        self.touched = Ghost(touched);
        engine_result(answer)
    }
}

impl RawKv for RedbReadView {
    type Error = RedbBackendError;

    open spec fn wf(&self) -> bool {
        true
    }

    closed spec fn rows(&self) -> Rows {
        table_rows(read_table(self.tx, TABLE_NAME@))
    }

    open spec fn touched(&self) -> Set<Seq<u8>> {
        Set::empty()
    }

    open spec fn terms(&self) -> Terms {
        Terms { readable: false, writable: false, beneath: self.rows() }
    }

    proof fn rows_finite(&self) {
        lemma_table_finite(read_table(self.tx, TABLE_NAME@));
    }

    fn get(&self, key: &[u8]) -> (r: Result<Option<Vec<u8>>, RedbBackendError>)
        ensures
            r matches Err(e) ==> e is Backend && self.read_reported(e->Backend_0),
    {
        proof {
            lemma_table_name();
        }
        engine_result(read_get(&self.tx, TABLE_NAME, key))
    }

    fn scan(&self, start: Bound<&[u8]>, end: Bound<&[u8]>, forward: bool) -> (r: Result<
        Vec<KvPair>,
        RedbBackendError,
    >)
        ensures
            r matches Err(e) ==> e is Backend && self.read_reported(e->Backend_0),
    {
        proof {
            lemma_table_name();
        }
        let answer = read_range(&self.tx, TABLE_NAME, start, end);
        proof {
            if answer is Ok {
                law_reverse_scan(self.rows(), bound_of(start), bound_of(end), (answer->Ok_0)@);
            }
        }
        scan_result(answer, forward)
    }

    fn insert(&mut self, key: &[u8], value: &[u8]) -> (r: Result<(), RedbBackendError>)
        ensures
            *final(self) == *old(self),
            r == Err::<(), RedbBackendError>(RedbBackendError::ReadOnly),
    {
        Err(RedbBackendError::ReadOnly)
    }

    fn delete(&mut self, key: &[u8]) -> (r: Result<(), RedbBackendError>)
        ensures
            *final(self) == *old(self),
            r == Err::<(), RedbBackendError>(RedbBackendError::ReadOnly),
    {
        Err(RedbBackendError::ReadOnly)
    }

    fn clear_range(&mut self, start: Bound<&[u8]>, end: Bound<&[u8]>) -> (r: Result<
        (),
        RedbBackendError,
    >)
        ensures
            *final(self) == *old(self),
            r == Err::<(), RedbBackendError>(RedbBackendError::ReadOnly),
    {
        Err(RedbBackendError::ReadOnly)
    }
}

/// A source of single rows, for a cursor.
pub trait RawCursorStep: RawKv {
    /// The first row in the range, or the last one when `reverse`.
    fn first_in_range(&self, start: Bound<&[u8]>, end: Bound<&[u8]>, reverse: bool) -> (r: Result<
        Option<KvPair>,
        Self::Error,
    >)
        requires
            self.wf(),
        ensures
            match r {
                Ok(row) => is_first_row(self.rows(), bound_of(start), bound_of(end), reverse, row),
                Err(_) => !self.terms().readable,
            },
    ;
}

impl RawCursorStep for RedbWriteView {
    fn first_in_range(&self, start: Bound<&[u8]>, end: Bound<&[u8]>, reverse: bool) -> (r: Result<
        Option<KvPair>,
        RedbBackendError,
    >)
        ensures
            r matches Err(e) ==> e is Backend && self.seek_reported(
                bound_of(start),
                bound_of(end),
                reverse,
                e->Backend_0,
            ),
    {
        proof {
            lemma_table_name();
        }
        if reverse {
            engine_result(write_last(&self.tx, TABLE_NAME, start, end))
        } else {
            engine_result(write_first(&self.tx, TABLE_NAME, start, end))
        }
    }
}

impl RawCursorStep for RedbReadView {
    fn first_in_range(&self, start: Bound<&[u8]>, end: Bound<&[u8]>, reverse: bool) -> (r: Result<
        Option<KvPair>,
        RedbBackendError,
    >)
        ensures
            r matches Err(e) ==> e is Backend && self.seek_reported(
                bound_of(start),
                bound_of(end),
                reverse,
                e->Backend_0,
            ),
    {
        proof {
            lemma_table_name();
        }
        if reverse {
            engine_result(read_last(&self.tx, TABLE_NAME, start, end))
        } else {
            engine_result(read_first(&self.tx, TABLE_NAME, start, end))
        }
    }
}

/// A failed read of a write transaction's view hands on the engine's text.
pub proof fn lemma_write_view_reads(view: RedbWriteView, e: RedbBackendError)
    requires
        read_fails(view, e),
    ensures
        e is Backend,
        view.read_reported(e->Backend_0),
{
}

/// A failed write through a write transaction's view hands on the engine's text.
pub proof fn lemma_write_view_writes(view: RedbWriteView, e: RedbBackendError)
    requires
        write_fails(view, e),
    ensures
        e is Backend,
        view.write_reported(e->Backend_0),
{
}

/// A failed call on some write transaction's view hands on the engine's text.
pub proof fn lemma_write_view_calls(terms: Terms, e: RedbBackendError)
    requires
        call_fails::<RedbWriteView>(terms, e),
    ensures
        e is Backend,
        exists|view: RedbWriteView| #[trigger] view.reported(e->Backend_0),
{
    let view = choose|view: RedbWriteView| #[trigger]
        view.terms() == terms && (read_fails(view, e) || write_fails(view, e));
    if read_fails(view, e) {
        lemma_write_view_reads(view, e);
    } else {
        lemma_write_view_writes(view, e);
    }
    assert(view.reported(e->Backend_0));
}

/// Decides whether a store may be opened, from its version row: a store without
/// one is fresh; one whose version this layout does not read is refused.
pub fn version_result(version: Option<&[u8]>) -> (r: Result<(), RedbStorageError>)
    ensures
        match version {
            None => r is Ok,
            Some(value) => {
                &&& r is Ok <==> readable_version(value@)
                &&& r matches Err(e) ==> e.0 == FlatError::<RedbBackendError>::Engine(
                    RedbBackendError::LayoutVersionMismatch,
                )
            },
        },
{
    match version {
        None => Ok(()),
        Some(value) => {
            if is_readable_version(value) {
                Ok(())
            } else {
                Err(RedbStorageError(FlatError::Engine(RedbBackendError::LayoutVersionMismatch)))
            }
        },
    }
}

/// Whether reading the version row of a read transaction failed with this text.
pub closed spec fn probe_reported(tx: ReadTransaction, text: String) -> bool {
    exists|key: &[u8]|
        key@ == VERSION_KEY@ && #[trigger] call_ensures(
            read_get,
            (&tx, TABLE_NAME, key),
            Err::<Option<Vec<u8>>, String>(text),
        )
}

/// Checks the layout version of a store that is being opened. A fresh store, in
/// which the table or the version row is absent, opens; a version that this
/// layout does not read is refused.
pub fn probe_layout_version(tx: &ReadTransaction) -> (r: Result<(), RedbStorageError>)
    ensures
        match r {
            Ok(()) => match row_at(table_rows(read_table(*tx, TABLE_NAME@)), VERSION_KEY@) {
                None => true,
                Some(version) => readable_version(version),
            },
            Err(RedbStorageError(FlatError::Engine(RedbBackendError::LayoutVersionMismatch))) => {
                row_at(table_rows(read_table(*tx, TABLE_NAME@)), VERSION_KEY@) matches Some(
                    version,
                ) && !readable_version(version)
            },
            Err(e) => e.0 matches FlatError::Engine(RedbBackendError::Backend(text))
                && probe_reported(*tx, text),
        },
{
    proof {
        lemma_table_name();
    }
    match read_get(tx, TABLE_NAME, VERSION_KEY.as_slice()) {
        Ok(Some(version)) => version_result(Some(version.as_slice())),
        Ok(None) => version_result(None),
        Err(text) => Err(RedbStorageError(FlatError::Engine(RedbBackendError::Backend(text)))),
    }
}

/// Whether the engine answered a read of a write transaction with this text.
pub(crate) open spec fn engine_read_failed(text: String) -> bool {
    ||| exists|tx: &WriteTransaction, key: &[u8]| #[trigger]
        call_ensures(write_get, (tx, TABLE_NAME, key), Err::<Option<Vec<u8>>, String>(text))
    ||| exists|tx: &WriteTransaction, from: Bound<&[u8]>, to: Bound<&[u8]>| #[trigger]
        call_ensures(write_range, (tx, TABLE_NAME, from, to), Err::<Vec<KvPair>, String>(text))
    ||| exists|tx: &WriteTransaction, from: Bound<&[u8]>, to: Bound<&[u8]>| #[trigger]
        call_ensures(write_first, (tx, TABLE_NAME, from, to), Err::<Option<KvPair>, String>(text))
    ||| exists|tx: &WriteTransaction, from: Bound<&[u8]>, to: Bound<&[u8]>| #[trigger]
        call_ensures(write_last, (tx, TABLE_NAME, from, to), Err::<Option<KvPair>, String>(text))
}

/// Whether the engine answered a write to a transaction with this text.
pub(crate) open spec fn engine_write_failed(text: String) -> bool {
    ||| exists|tx: &mut WriteTransaction, key: &[u8], value: &[u8]| #[trigger]
        call_ensures(write_insert, (tx, TABLE_NAME, key, value), Err::<(), String>(text))
    ||| exists|tx: &mut WriteTransaction, key: &[u8]| #[trigger]
        call_ensures(write_remove, (tx, TABLE_NAME, key), Err::<(), String>(text))
    ||| exists|tx: &mut WriteTransaction, from: Bound<&[u8]>, to: Bound<&[u8]>| #[trigger]
        call_ensures(write_clear, (tx, TABLE_NAME, from, to), Err::<(), String>(text))
}

/// Whether the engine answered a read of a read transaction with this text.
pub(crate) open spec fn engine_reader_failed(text: String) -> bool {
    ||| exists|tx: &ReadTransaction, key: &[u8]| #[trigger]
        call_ensures(read_get, (tx, TABLE_NAME, key), Err::<Option<Vec<u8>>, String>(text))
    ||| exists|tx: &ReadTransaction, from: Bound<&[u8]>, to: Bound<&[u8]>| #[trigger]
        call_ensures(read_range, (tx, TABLE_NAME, from, to), Err::<Vec<KvPair>, String>(text))
    ||| exists|tx: &ReadTransaction, from: Bound<&[u8]>, to: Bound<&[u8]>| #[trigger]
        call_ensures(read_first, (tx, TABLE_NAME, from, to), Err::<Option<KvPair>, String>(text))
    ||| exists|tx: &ReadTransaction, from: Bound<&[u8]>, to: Bound<&[u8]>| #[trigger]
        call_ensures(read_last, (tx, TABLE_NAME, from, to), Err::<Option<KvPair>, String>(text))
}

/// A failure that a write view reports of a read or a seek was the engine's answer.
pub(crate) proof fn lemma_engine_read_failed(
    view: RedbWriteView,
    start: Bound<Seq<u8>>,
    end: Bound<Seq<u8>>,
    reverse: bool,
    text: String,
)
    requires
        view.read_reported(text) || view.seek_reported(start, end, reverse, text),
    ensures
        engine_read_failed(text),
{
}

/// A failure that a write view reports of a write was the engine's answer.
pub(crate) proof fn lemma_engine_write_failed(view: RedbWriteView, text: String)
    requires
        view.write_reported(text),
    ensures
        engine_write_failed(text),
{
}

/// A failure that a read view reports was the engine's answer.
pub(crate) proof fn lemma_engine_reader_failed(
    view: RedbReadView,
    start: Bound<Seq<u8>>,
    end: Bound<Seq<u8>>,
    reverse: bool,
    text: String,
)
    requires
        view.read_reported(text) || view.seek_reported(start, end, reverse, text),
    ensures
        engine_reader_failed(text),
{
}

/// A database whose version cannot be probed is one whose engine answered so.
pub(crate) proof fn law_probe(tx: &ReadTransaction, r: Result<(), RedbStorageError>)
    requires
        call_ensures(probe_layout_version, (tx,), r),
    ensures
        r matches Err(RedbStorageError(e)) ==> match e {
            FlatError::Engine(RedbBackendError::Backend(text)) => engine_reader_failed(text),
            FlatError::Engine(RedbBackendError::LayoutVersionMismatch) => table_rows(
                read_table(*tx, "kv"@),
            ).dom().contains(VERSION_KEY@),
            _ => false,
        },
{
}

} // verus!
