//! The document store: a map from byte strings to byte strings in an
//! account's buffer, apart from the messaging and unaware of it.
//!
//! A store is written as one tag byte, the number of documents, and the
//! documents in the order of their keys, each as its key and its value with
//! their lengths in front: behind the tag, the bytes that Borsh writes for a
//! map from byte strings to byte strings. An account holds a store or a
//! messaging record, never both: the two begin with different bytes.

use crate::account::{overwritten, Account};
use crate::error::DispatchError;
use crate::layout::{
    fits_u32, front_bytes, front_u32, front_u8, le_bytes, le_u32, put_bytes, put_u32, Reader,
};
use crate::table::{ascending, lemma_lift_rows, lemma_rows_unique, lift_rows, rows_map, Table};
use crate::wire::{encode_each, front_each, reads_back, resumed, writes_back};
use vstd::prelude::*;

verus! {

/// The first byte of every document store.
pub const STORE_TAG: u8 = 2;

/// All the documents of one account, each under its key.
#[derive(Clone, Debug, PartialEq, Eq)]
pub struct DocumentData {
    pub data: Table<Vec<u8>>,
}

/// The function that takes each value to the bytes it holds.
pub open spec fn bytes_view() -> spec_fn(Vec<u8>) -> Seq<u8> {
    |value: Vec<u8>| value@
}

impl View for DocumentData {
    type V = Map<Seq<u8>, Seq<u8>>;

    open spec fn view(&self) -> Map<Seq<u8>, Seq<u8>> {
        rows_map(self.rows())
    }
}

/// One thing that can happen to a store.
pub enum Change {
    /// `value` is put under `key`, in place of what was there.
    Put { key: Seq<u8>, value: Seq<u8> },
    /// What is under `key` is taken out.
    Delete { key: Seq<u8> },
    /// Everything is taken out.
    Clear,
}

/// The documents after `change`.
pub open spec fn changed(documents: Map<Seq<u8>, Seq<u8>>, change: Change) -> Map<
    Seq<u8>,
    Seq<u8>,
> {
    match change {
        Change::Put { key, value } => documents.insert(key, value),
        Change::Delete { key } => documents.remove(key),
        Change::Clear => Map::empty(),
    }
}

impl DocumentData {
    /// Whether the store is in order: its table is.
    pub open spec fn wf(&self) -> bool {
        self.data.wf()
    }

    /// The documents as rows, in the order in which they are written out.
    pub open spec fn rows(&self) -> Seq<(Seq<u8>, Seq<u8>)> {
        lift_rows(self.data.rows(), bytes_view())
    }

    /// The map of a store is the map of its table, each value seen as its
    /// bytes.
    pub proof fn lemma_documents(&self)
        requires
            self.wf(),
        ensures
            ascending(self.rows()),
            self@ == self.data@.map_values(bytes_view()),
    {
        self.data.lemma_ascending();
        lemma_lift_rows(self.data.rows(), bytes_view());
    }

    /// A store without documents.
    pub fn new() -> (store: Self)
        ensures
            store.wf(),
            store@ == Map::<Seq<u8>, Seq<u8>>::empty(),
    {
        let store = DocumentData { data: Table::new() };
        proof {
            assert(store.rows() =~= Seq::<(Seq<u8>, Seq<u8>)>::empty());
            crate::table::lemma_no_rows_map::<Seq<u8>>();
        }
        store
    }

    /// The document under `key`, if the store holds one.
    pub fn get(&self, key: &[u8]) -> (found: Option<&Vec<u8>>)
        requires
            self.wf(),
        ensures
            match found {
                Some(value) => self@.contains_key(key@) && value@ == self@[key@],
                None => !self@.contains_key(key@),
            },
    {
        proof {
            self.lemma_documents();
        }
        self.data.get(key)
    }

    /// Puts `value` under `key`, in place of what was there.
    pub fn insert(&mut self, key: Vec<u8>, value: Vec<u8>)
        requires
            old(self).wf(),
        ensures
            final(self).wf(),
            final(self)@ == changed(old(self)@, Change::Put { key: key@, value: value@ }),
    {
        proof {
            self.lemma_documents();
        }
        self.data.insert(key, value);
        proof {
            self.lemma_documents();
            assert(self@ =~= old(self)@.insert(key@, value@));
        }
    }

    /// Takes out what is under `key`; nothing happens where nothing is.
    pub fn remove(&mut self, key: &[u8])
        requires
            old(self).wf(),
        ensures
            final(self).wf(),
            final(self)@ == changed(old(self)@, Change::Delete { key: key@ }),
    {
        proof {
            self.lemma_documents();
        }
        self.data.remove(key);
        proof {
            self.lemma_documents();
            assert(self@ =~= old(self)@.remove(key@));
        }
    }

    /// Takes everything out.
    pub fn clear(&mut self)
        ensures
            final(self).wf(),
            final(self)@ == changed(old(self)@, Change::Clear),
    {
        self.data.clear();
        proof {
            assert(self.rows() =~= Seq::<(Seq<u8>, Seq<u8>)>::empty());
            crate::table::lemma_no_rows_map::<Seq<u8>>();
        }
    }
}

/// A document on the wire: its key, then its value.
pub open spec fn encode_document(row: (Seq<u8>, Seq<u8>)) -> Seq<u8> {
    le_bytes(row.0) + le_bytes(row.1)
}

/// The document that `s` begins with, and the rest.
pub open spec fn front_document(s: Seq<u8>) -> Option<((Seq<u8>, Seq<u8>), Seq<u8>)> {
    match front_bytes(s) {
        None => None,
        Some((key, s1)) => match front_bytes(s1) {
            None => None,
            Some((value, s2)) => Some(((key, value), s2)),
        },
    }
}

/// Whether a document can be written: both lengths fit four bytes.
pub open spec fn document_fits(row: (Seq<u8>, Seq<u8>)) -> bool {
    row.0.len() <= u32::MAX && row.1.len() <= u32::MAX
}

/// `document_fits`, as a function to go through a list with.
pub open spec fn document_fit() -> spec_fn((Seq<u8>, Seq<u8>)) -> bool {
    |row: (Seq<u8>, Seq<u8>)| document_fits(row)
}

/// `encode_document`, as a function to go through a list with.
pub open spec fn document_writer() -> spec_fn((Seq<u8>, Seq<u8>)) -> Seq<u8> {
    |row: (Seq<u8>, Seq<u8>)| encode_document(row)
}

/// `front_document`, as a function to go through a list with.
pub open spec fn document_reader() -> spec_fn(Seq<u8>) -> Option<((Seq<u8>, Seq<u8>), Seq<u8>)> {
    |s: Seq<u8>| front_document(s)
}

/// A store on the wire.
pub open spec fn encode_store(rows: Seq<(Seq<u8>, Seq<u8>)>) -> Seq<u8> {
    seq![STORE_TAG] + le_u32(rows.len() as u32) + encode_each(rows, document_writer())
}

/// Whether a store can be written and read again: its rows ascend, and their
/// number and all their lengths fit four bytes.
pub open spec fn store_fits(rows: Seq<(Seq<u8>, Seq<u8>)>) -> bool {
    &&& ascending(rows)
    &&& rows.len() <= u32::MAX
    &&& forall|i: int| 0 <= i < rows.len() ==> document_fits(#[trigger] rows[i])
}

/// The store with the rows that were found, where they ascend.
pub open spec fn store_of(found: Option<(Seq<(Seq<u8>, Seq<u8>)>, Seq<u8>)>) -> Option<
    Seq<(Seq<u8>, Seq<u8>)>,
> {
    match found {
        None => None,
        Some((rows, _)) => if ascending(rows) {
            Some(rows)
        } else {
            None
        },
    }
}

/// The rows of the store that `s` begins with. Nothing where `s` does not
/// begin with a store.
#[verifier::opaque]
pub open spec fn parse_store(s: Seq<u8>) -> Option<Seq<(Seq<u8>, Seq<u8>)>> {
    match front_u8(s) {
        None => None,
        Some((tag, s1)) => if tag != STORE_TAG {
            None
        } else {
            match front_u32(s1) {
                None => None,
                Some((count, s2)) => store_of(front_each(s2, count as nat, document_reader())),
            }
        },
    }
}

/// A document that was written is read back.
pub proof fn lemma_document_reads_back(row: (Seq<u8>, Seq<u8>))
    requires
        document_fits(row),
    ensures
        reads_back(document_writer(), document_reader(), row),
{
    assert forall|tail: Seq<u8>| #[trigger]
        front_document(encode_document(row) + tail) == Some((row, tail)) by {
        let behind = le_bytes(row.1) + tail;
        assert(encode_document(row) + tail =~= le_bytes(row.0) + behind);
        crate::layout::lemma_front_bytes_of_written(row.0, behind);
        crate::layout::lemma_front_bytes_of_written(row.1, tail);
    }
}

/// A store that was written is read back: a buffer that begins with what a
/// store was written as holds that store, whatever follows.
pub proof fn lemma_store_reads_back(rows: Seq<(Seq<u8>, Seq<u8>)>, tail: Seq<u8>)
    requires
        store_fits(rows),
    ensures
        parse_store(encode_store(rows) + tail) == Some(rows),
{
    let s2 = encode_each(rows, document_writer()) + tail;
    let s1 = le_u32(rows.len() as u32) + s2;
    let s = encode_store(rows) + tail;
    assert(s =~= seq![STORE_TAG] + s1);
    assert(front_u8(s) == Some((STORE_TAG, s1))) by {
        assert(s.skip(1) =~= s1);
    }
    assert(front_u32(s1) == Some((rows.len() as u32, s2))) by {
        crate::layout::lemma_front_u32_of_written(rows.len() as u32, s2);
    }
    assert(front_each(s2, rows.len(), document_reader()) == Some((rows, tail))) by {
        assert forall|i: int| 0 <= i < rows.len() implies reads_back(
            document_writer(),
            document_reader(),
            #[trigger] rows[i],
        ) by {
            lemma_document_reads_back(rows[i]);
        }
        crate::wire::lemma_front_each_of_written(rows, tail, document_writer(), document_reader());
    }
    assert(parse_store(s) == store_of(front_each(s2, rows.len(), document_reader()))) by {
        reveal(parse_store);
    }
}

/// A document that is read is one that was written, and it can be written.
pub proof fn lemma_document_is_written(s: Seq<u8>)
    ensures
        writes_back(document_writer(), document_reader(), document_fit(), s),
{
    if let Some((key, s1)) = front_bytes(s) {
        crate::layout::lemma_front_bytes_is_written(s);
        if let Some((value, s2)) = front_bytes(s1) {
            crate::layout::lemma_front_bytes_is_written(s1);
            assert(s =~= encode_document((key, value)) + s2);
        }
    }
}

/// A store that is read is one that was written: where a buffer holds a
/// store, the store can be written, and the buffer begins with what the
/// store is written as.
pub proof fn lemma_store_is_written(s: Seq<u8>)
    requires
        parse_store(s) is Some,
    ensures
        store_fits(parse_store(s).unwrap()),
        encode_store(parse_store(s).unwrap()).is_prefix_of(s),
{
    reveal(parse_store);
    let rows = parse_store(s).unwrap();
    let (tag, s1) = front_u8(s).unwrap();
    let (count, s2) = front_u32(s1).unwrap();
    let found = front_each(s2, count as nat, document_reader()).unwrap();
    assert(s =~= seq![STORE_TAG] + s1);
    crate::layout::lemma_front_u32_is_written(s1);
    assert forall|t: Seq<u8>| #[trigger]
        writes_back(document_writer(), document_reader(), document_fit(), t) by {
        lemma_document_is_written(t);
    }
    crate::wire::lemma_front_each_is_written(
        s2,
        count as nat,
        document_writer(),
        document_reader(),
        document_fit(),
    );
    assert(rows == found.0);
    assert forall|i: int| 0 <= i < rows.len() implies document_fits(#[trigger] rows[i]) by {
        assert(document_fit()(found.0[i]));
    }
    assert(s =~= encode_store(rows) + found.1);
}

/// What a buffer holds is what it begins with: a buffer holds the store
/// with these rows exactly where the store can be written and the buffer
/// begins with what it is written as.
pub proof fn lemma_holds_what_it_begins_with(data: Seq<u8>, rows: Seq<(Seq<u8>, Seq<u8>)>)
    ensures
        parse_store(data) == Some(rows) <==> store_fits(rows) && encode_store(rows).is_prefix_of(
            data,
        ),
{
    let written = encode_store(rows);
    if parse_store(data) == Some(rows) {
        lemma_store_is_written(data);
    }
    if store_fits(rows) && written.is_prefix_of(data) {
        let tail = data.skip(written.len() as int);
        assert(data =~= written + tail);
        lemma_store_reads_back(rows, tail);
    }
}

/// A buffer does not hold both kinds of record: where it begins with a
/// messaging record, it begins with no document store, and the other way
/// round.
pub proof fn lemma_kinds_apart(data: Seq<u8>)
    ensures
        !(crate::record_format::parse_record(data) is Some && parse_store(data) is Some),
{
    reveal(parse_store);
    reveal(crate::record_format::parse_record);
}

/// A buffer that was never written, all zero or empty, holds neither kind of
/// record.
pub proof fn lemma_blank_holds_nothing(data: Seq<u8>)
    requires
        data.len() == 0 || data[0] == 0,
    ensures
        crate::record_format::parse_record(data) is None,
        parse_store(data) is None,
{
    reveal(parse_store);
    reveal(crate::record_format::parse_record);
}

/// Writes a store out, if it can be written.
pub fn encode(store: &DocumentData) -> (res: Option<Vec<u8>>)
    requires
        store.wf(),
    ensures
        res is Some <==> store_fits(store.rows()),
        res matches Some(bytes) ==> bytes@ == encode_store(store.rows()),
{
    let ghost rows = store.rows();
    proof {
        store.lemma_documents();
    }
    let n: usize = store.data.len();
    if !fits_u32(n) {
        return None;
    }
    let mut out: Vec<u8> = Vec::new();
    out.push(STORE_TAG);
    put_u32(&mut out, n as u32);
    let ghost head = out@;
    let mut i: usize = 0;
    while i < n
        invariant
            store.wf(),
            rows == store.rows(),
            i <= n == rows.len(),
            forall|j: int| 0 <= j < i ==> document_fits(#[trigger] rows[j]),
            out@ == head + encode_each(rows.take(i as int), document_writer()),
        decreases n - i,
    {
        proof {
            assert(rows.take(i + 1) =~= rows.take(i as int).push(rows[i as int]));
            crate::wire::lemma_encode_each_push(
                rows.take(i as int),
                rows[i as int],
                document_writer(),
            );
        }
        let key = store.data.key_at(i);
        let value = store.data.value_at(i);
        if !fits_u32(key.len()) || !fits_u32(value.len()) {
            return None;
        }
        put_bytes(&mut out, key.as_slice());
        put_bytes(&mut out, value.as_slice());
        proof {
            assert(out@ =~= head + encode_each(rows.take(i as int), document_writer())
                + encode_document(rows[i as int]));
        }
        i += 1;
    }
    proof {
        assert(rows.take(i as int) =~= rows);
        assert(out@ =~= encode_store(rows));
    }
    Some(out)
}

/// Whether rows `i` and `j` of `rows` stand in the order of their keys.
spec fn in_order(rows: Seq<(Seq<u8>, Seq<u8>)>, i: int, j: int) -> bool {
    crate::table::key_lt(rows[i].0, rows[j].0)
}

/// Reads the store that `data` begins with.
pub fn decode(data: &[u8]) -> (res: Option<DocumentData>)
    ensures
        match parse_store(data@) {
            Some(rows) => res matches Some(store) && store.wf() && store.rows() == rows,
            None => res is None,
        },
{
    proof {
        reveal(parse_store);
    }
    let mut cur = Reader::new(data);
    match cur.take_u8() {
        Some(tag) => {
            if tag != STORE_TAG {
                return None;
            }
        },
        None => {
            return None;
        },
    }
    let count: u32 = match cur.take_u32() {
        Some(n) => n,
        None => {
            return None;
        },
    };
    let ghost whole = front_each(cur.rest(), count as nat, document_reader());
    let mut table: Table<Vec<u8>> = Table::new();
    let mut i: u32 = 0;
    proof {
        crate::wire::lemma_resumed_first(whole);
        assert(lift_rows(table.rows(), bytes_view()) =~= Seq::<(Seq<u8>, Seq<u8>)>::empty());
    }
    while i < count
        invariant
            i <= count,
            table.wf(),
            table.rows().len() == i,
            parse_store(data@) == store_of(whole),
            resumed(
                lift_rows(table.rows(), bytes_view()),
                front_each(cur.rest(), (count - i) as nat, document_reader()),
            ) == whole,
        decreases count - i,
    {
        let ghost read = lift_rows(table.rows(), bytes_view());
        proof {
            crate::wire::lemma_front_each_next(
                read,
                cur.rest(),
                (count - i) as nat,
                document_reader(),
            );
        }
        let key: Vec<u8> = match cur.take_bytes() {
            Some(bytes) => bytes,
            None => {
                return None;
            },
        };
        let value: Vec<u8> = match cur.take_bytes() {
            Some(bytes) => bytes,
            None => {
                return None;
            },
        };
        let ghost row = (key@, value@);
        if !table.append(key, value) {
            proof {
                if whole is Some {
                    let all = whole.unwrap().0;
                    let others = front_each(
                        cur.rest(),
                        (count - i - 1) as nat,
                        document_reader(),
                    ).unwrap().0;
                    assert(all == read.push(row) + others);
                    assert(all[i - 1] == read[i - 1]);
                    assert(all[i as int] == row);
                    assert(!in_order(all, i - 1, i as int));
                }
            }
            return None;
        }
        proof {
            assert(lift_rows(table.rows(), bytes_view()) =~= read.push(row));
        }
        i += 1;
    }
    proof {
        crate::wire::lemma_resumed_last(
            lift_rows(table.rows(), bytes_view()),
            cur.rest(),
            document_reader(),
        );
        table.lemma_ascending();
        lemma_lift_rows(table.rows(), bytes_view());
    }
    Some(DocumentData { data: table })
}

/// The documents that a buffer holds, if it begins with a store.
pub open spec fn stored(data: Seq<u8>) -> Option<Map<Seq<u8>, Seq<u8>>> {
    match parse_store(data) {
        None => None,
        Some(rows) => Some(rows_map(rows)),
    }
}

/// Whether `rows` are the rows of `documents`: they ascend and spell it.
pub open spec fn spells(rows: Seq<(Seq<u8>, Seq<u8>)>, documents: Map<Seq<u8>, Seq<u8>>) -> bool {
    ascending(rows) && rows_map(rows) == documents
}

/// The documents as rows in the order of their keys.
pub open spec fn rows_of(documents: Map<Seq<u8>, Seq<u8>>) -> Seq<(Seq<u8>, Seq<u8>)> {
    choose|rows: Seq<(Seq<u8>, Seq<u8>)>| spells(rows, documents)
}

/// Whether a store can be written: it has finitely many documents, and their
/// number and all their lengths fit four bytes.
pub open spec fn writable(documents: Map<Seq<u8>, Seq<u8>>) -> bool {
    exists|rows: Seq<(Seq<u8>, Seq<u8>)>| spells(rows, documents) && store_fits(rows)
}

/// The bytes that a store is written as.
pub open spec fn image(documents: Map<Seq<u8>, Seq<u8>>) -> Seq<u8> {
    encode_store(rows_of(documents))
}

/// The buffer after `documents` are saved into it; nothing where they cannot
/// be written or are longer than the buffer.
#[verifier::opaque]
pub open spec fn store(data: Seq<u8>, documents: Map<Seq<u8>, Seq<u8>>) -> Option<Seq<u8>> {
    if writable(documents) && image(documents).len() <= data.len() {
        Some(overwritten(data, image(documents)))
    } else {
        None
    }
}

/// What one change does to a buffer: the buffer afterwards and the outcome.
/// The buffer changes only where the outcome is success.
pub open spec fn transact(data: Seq<u8>, change: Change) -> (Seq<u8>, Result<(), DispatchError>) {
    match stored(data) {
        None => (data, Err(DispatchError::InvalidAccountData)),
        Some(documents) => match store(data, changed(documents, change)) {
            None => (data, Err(DispatchError::AccountDataTooSmall)),
            Some(bytes) => (bytes, Ok(())),
        },
    }
}

/// Loading after saving gives the documents that were saved.
pub proof fn lemma_load_after_save(data: Seq<u8>, documents: Map<Seq<u8>, Seq<u8>>)
    requires
        store(data, documents) is Some,
    ensures
        stored(store(data, documents).unwrap()) == Some(documents),
{
    reveal(store);
    let rows = choose|rows: Seq<(Seq<u8>, Seq<u8>)>| spells(rows, documents) && store_fits(rows);
    lemma_rows_unique(rows, rows_of(documents));
    lemma_store_reads_back(rows, data.skip(image(documents).len() as int));
}

/// Saving after loading changes nothing: the documents that a buffer holds
/// can be saved into it, and the buffer is then what it was.
pub proof fn lemma_save_after_load(data: Seq<u8>)
    requires
        stored(data) is Some,
    ensures
        store(data, stored(data).unwrap()) == Some(data),
{
    reveal(store);
    let rows = parse_store(data).unwrap();
    let documents = stored(data).unwrap();
    lemma_store_is_written(data);
    assert(spells(rows, documents));
    lemma_rows_unique(rows, rows_of(documents));
    assert(overwritten(data, image(documents)) =~= data);
}

/// No change makes a buffer longer or shorter.
pub proof fn lemma_length_stays(data: Seq<u8>, change: Change)
    ensures
        transact(data, change).0.len() == data.len(),
{
    reveal(store);
}

/// Reads the store out of an account's buffer.
pub fn load_data(account: &Account) -> (res: Result<DocumentData, DispatchError>)
    ensures
        match stored(account.data@) {
            Some(documents) => res matches Ok(data) && data.wf() && data@ == documents,
            None => res matches Err(e) && e == DispatchError::InvalidAccountData,
        },
{
    match decode(account.data.as_slice()) {
        Some(data) => Ok(data),
        None => Err(DispatchError::InvalidAccountData),
    }
}

/// Writes the store over the front of an account's buffer. Fails, and leaves
/// the buffer as it is, where the store written out is longer than the
/// buffer.
pub fn save_data(account: &mut Account, data: DocumentData) -> (res: Result<(), DispatchError>)
    requires
        data.wf(),
    ensures
        final(account).key == old(account).key,
        match store(old(account).data@, data@) {
            Some(bytes) => res == Ok::<(), DispatchError>(()) && final(account).data@ == bytes,
            None => {
                &&& res == Err::<(), DispatchError>(DispatchError::AccountDataTooSmall)
                &&& final(account).data@ == old(account).data@
            },
        },
{
    proof {
        reveal(store);
        data.lemma_documents();
        assert(spells(data.rows(), data@));
        lemma_rows_unique(data.rows(), rows_of(data@));
        if writable(data@) {
            let rows = choose|rows: Seq<(Seq<u8>, Seq<u8>)>| spells(rows, data@) && store_fits(rows);
            lemma_rows_unique(rows, data.rows());
        }
    }
    let bytes: Vec<u8> = match encode(&data) {
        Some(bytes) => bytes,
        None => {
            return Err(DispatchError::AccountDataTooSmall);
        },
    };
    account.overwrite(&bytes)
}

/// Puts `value` under `key` in the store of `account`, in place of what was
/// there.
pub fn put(account: &mut Account, key: Vec<u8>, value: Vec<u8>) -> (res: Result<(), DispatchError>)
    ensures
        final(account).key == old(account).key,
        (final(account).data@, res) == transact(
            old(account).data@,
            Change::Put { key: key@, value: value@ },
        ),
{
    let mut documents: DocumentData = match load_data(account) {
        Ok(data) => data,
        Err(e) => {
            return Err(e);
        },
    };
    documents.insert(key, value);
    save_data(account, documents)
}

/// Puts the second of `keypair` under the first, as `put` does.
pub fn put_pair(account: &mut Account, keypair: (Vec<u8>, Vec<u8>)) -> (res: Result<
    (),
    DispatchError,
>)
    ensures
        final(account).key == old(account).key,
        (final(account).data@, res) == transact(
            old(account).data@,
            Change::Put { key: keypair.0@, value: keypair.1@ },
        ),
{
    put(account, keypair.0, keypair.1)
}

/// Takes out of the store of `account` what is under `key`; the store stays
/// as it is where nothing is.
pub fn delete(account: &mut Account, key: Vec<u8>) -> (res: Result<(), DispatchError>)
    ensures
        final(account).key == old(account).key,
        (final(account).data@, res) == transact(old(account).data@, Change::Delete { key: key@ }),
{
    let mut documents: DocumentData = match load_data(account) {
        Ok(data) => data,
        Err(e) => {
            return Err(e);
        },
    };
    documents.remove(key.as_slice());
    save_data(account, documents)
}

/// Takes everything out of the store of `account`.
pub fn clear(account: &mut Account) -> (res: Result<(), DispatchError>)
    ensures
        final(account).key == old(account).key,
        (final(account).data@, res) == transact(old(account).data@, Change::Clear),
{
    let mut documents: DocumentData = match load_data(account) {
        Ok(data) => data,
        Err(e) => {
            return Err(e);
        },
    };
    documents.clear();
    save_data(account, documents)
}

} // verus!
