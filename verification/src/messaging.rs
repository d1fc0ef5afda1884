//! The handshake and the mailboxes, on the accounts themselves.
//!
//! Each operation reads the whole record out of an account's buffer, changes
//! it, and writes the whole record back over the front of the same buffer.
//! Where an operation touches two accounts it is done with the first before
//! it reads the second; a failure at the second leaves the first as saved.

use crate::account::{overwritten, Account};
use crate::error::DispatchError;
use crate::record::{ConnectionView, DispatchView, MessageView, Step};
use crate::record_format::{encode_record, parse_record, record_fits};
use crate::table::{ascending, lemma_rows_unique, rows_map};
use vstd::prelude::*;

pub use crate::record::{Connection, DispatchData, Message, MessagingData};

verus! {

/// The record that a buffer holds, if it begins with one.
pub open spec fn stored(data: Seq<u8>) -> Option<DispatchView> {
    match parse_record(data) {
        None => None,
        Some((rows, name)) => Some(DispatchView { connections: rows_map(rows), name }),
    }
}

/// Whether `rows` are the rows of `connections`: they ascend and spell it.
pub open spec fn spells(
    rows: Seq<(Seq<u8>, ConnectionView)>,
    connections: Map<Seq<u8>, ConnectionView>,
) -> bool {
    ascending(rows) && rows_map(rows) == connections
}

/// The connections as rows in the order of their keys.
pub open spec fn rows_of(connections: Map<Seq<u8>, ConnectionView>) -> Seq<
    (Seq<u8>, ConnectionView),
> {
    choose|rows: Seq<(Seq<u8>, ConnectionView)>| spells(rows, connections)
}

/// Whether a record can be written: it has finitely many connections, each
/// under a key of thirty-two bytes, and every length and count in it fits
/// four bytes.
pub open spec fn writable(record: DispatchView) -> bool {
    exists|rows: Seq<(Seq<u8>, ConnectionView)>|
        spells(rows, record.connections) && record_fits(rows, record.name)
}

/// The bytes that a record is written as.
pub open spec fn image(record: DispatchView) -> Seq<u8> {
    encode_record(rows_of(record.connections), record.name)
}

/// The buffer after `record` is saved into it; nothing where the record
/// cannot be written or is longer than the buffer.
#[verifier::opaque]
pub open spec fn store(data: Seq<u8>, record: DispatchView) -> Option<Seq<u8>> {
    if writable(record) && image(record).len() <= data.len() {
        Some(overwritten(data, image(record)))
    } else {
        None
    }
}

/// What one step does to a buffer: the buffer afterwards and the outcome.
/// The buffer changes only where the outcome is success.
pub open spec fn transact(data: Seq<u8>, step: Step) -> (Seq<u8>, Result<(), DispatchError>) {
    match stored(data) {
        None => (data, Err(DispatchError::InvalidAccountData)),
        Some(record) => match record.apply(step) {
            Err(e) => (data, Err(e)),
            Ok(next) => match store(data, next) {
                None => (data, Err(DispatchError::AccountDataTooSmall)),
                Some(bytes) => (bytes, Ok(())),
            },
        },
    }
}

/// What two steps do to two buffers, the second taken only where the first
/// succeeded: both buffers afterwards and the outcome.
pub open spec fn transact_both(first: Seq<u8>, step: Step, second: Seq<u8>, then: Step) -> (
    Seq<u8>,
    Seq<u8>,
    Result<(), DispatchError>,
) {
    let done = transact(first, step);
    if done.1 is Ok {
        let rest = transact(second, then);
        (done.0, rest.0, rest.1)
    } else {
        (done.0, second, done.1)
    }
}

/// The rows of a record in order are the rows of its map.
pub proof fn lemma_rows_of(record: &DispatchData)
    requires
        record.wf(),
    ensures
        spells(record.rows(), record@.connections),
        rows_of(record@.connections) == record.rows(),
{
    record.connections.lemma_ascending();
    crate::table::lemma_lift_rows(record.connections.rows(), crate::record::connection_view());
    assert(spells(record.rows(), record@.connections));
    lemma_rows_unique(record.rows(), rows_of(record@.connections));
}

/// Loading after saving gives the record that was saved: whatever the buffer
/// held, once `record` is saved into it, it holds `record`.
pub proof fn lemma_load_after_save(data: Seq<u8>, record: DispatchView)
    requires
        store(data, record) is Some,
    ensures
        stored(store(data, record).unwrap()) == Some(record),
{
    reveal(store);
    let rows = choose|rows: Seq<(Seq<u8>, ConnectionView)>|
        spells(rows, record.connections) && record_fits(rows, record.name);
    lemma_rows_unique(rows, rows_of(record.connections));
    crate::record_format::lemma_record_reads_back(
        rows,
        record.name,
        data.skip(image(record).len() as int),
    );
}

/// Saving after loading changes nothing: the record that a buffer holds can
/// be saved into it, and the buffer is then what it was. So a buffer holds a
/// record exactly where it begins with what a record is written as.
pub proof fn lemma_save_after_load(data: Seq<u8>)
    requires
        stored(data) is Some,
    ensures
        store(data, stored(data).unwrap()) == Some(data),
{
    reveal(store);
    let (rows, name) = parse_record(data).unwrap();
    let record = stored(data).unwrap();
    crate::record_format::lemma_record_is_written(data);
    assert(spells(rows, record.connections));
    lemma_rows_unique(rows, rows_of(record.connections));
    assert(overwritten(data, image(record)) =~= data);
}

/// Saving leaves the length of the buffer and the bytes behind the record as
/// they were.
pub proof fn lemma_store_keeps_rest(data: Seq<u8>, record: DispatchView)
    requires
        store(data, record) is Some,
    ensures
        store(data, record).unwrap().len() == data.len(),
        store(data, record).unwrap().skip(image(record).len() as int) == data.skip(
            image(record).len() as int,
        ),
{
    reveal(store);
    let len = image(record).len() as int;
    assert(store(data, record).unwrap().skip(len) =~= data.skip(len));
}

/// No step makes a buffer longer or shorter.
pub proof fn lemma_length_stays(data: Seq<u8>, step: Step)
    ensures
        transact(data, step).0.len() == data.len(),
{
    if let Some(record) = stored(data) {
        if let Ok(next) = record.apply(step) {
            if store(data, next) is Some {
                lemma_store_keeps_rest(data, next);
            }
        }
    }
}

/// Asking twice is asking once, on the account too: a second request of the
/// same peer with the same cipher leaves every byte as the first left it, and
/// ends as the first ended.
pub proof fn lemma_request_twice(data: Seq<u8>, peer: Seq<u8>, cipher: Seq<u8>)
    ensures
        transact(transact(data, Step::Request { peer, cipher }).0, Step::Request { peer, cipher })
            == transact(data, Step::Request { peer, cipher }),
{
    let step = Step::Request { peer, cipher };
    if let Some(record) = stored(data) {
        let next = record.apply(step).unwrap();
        if let Some(bytes) = store(data, next) {
            lemma_load_after_save(data, next);
            crate::record::lemma_request_idempotent(record, peer, cipher);
            lemma_store_keeps_rest(data, next);
            reveal(store);
            assert(store(bytes, next).unwrap() =~= bytes);
        }
    }
}

/// Reads the record out of an account's buffer.
pub fn load_data(account: &Account) -> (res: Result<DispatchData, DispatchError>)
    ensures
        match stored(account.data@) {
            Some(record) => res matches Ok(data) && data.wf() && data@ == record,
            None => res matches Err(e) && e == DispatchError::InvalidAccountData,
        },
{
    match crate::record_format::decode(account.data.as_slice()) {
        Some(data) => Ok(data),
        None => Err(DispatchError::InvalidAccountData),
    }
}

/// Writes the record over the front of an account's buffer. Fails, and
/// leaves the buffer as it is, where the record written out is longer than
/// the buffer.
pub fn save_data(account: &mut Account, data: DispatchData) -> (res: Result<(), DispatchError>)
    requires
        data.wf(),
    ensures
        final(account).key == old(account).key,
        match store(old(account).data@, data@) {
            Some(bytes) => res == Ok::<(), DispatchError>(()) && final(account).data@ == bytes,
            None => {
                &&& res == Err::<(), DispatchError>(DispatchError::AccountDataTooSmall)
                &&& final(account).data@ == old(account).data@
            },
        },
{
    proof {
        reveal(store);
        lemma_rows_of(&data);
        if writable(data@) {
            let rows = choose|rows: Seq<(Seq<u8>, ConnectionView)>|
                spells(rows, data@.connections) && record_fits(rows, data@.name);
            lemma_rows_unique(rows, data.rows());
        }
    }
    let bytes: Vec<u8> = match crate::record_format::encode(&data) {
        Some(bytes) => bytes,
        None => {
            return Err(DispatchError::AccountDataTooSmall);
        },
    };
    account.overwrite(&bytes)
}

/// A contact asks for a connection: the record of `contact` gets a pending
/// connection under the identity of `requester`, with `cipher` and without
/// messages, whatever it held there.
pub fn request_connection(requester: &Account, contact: &mut Account, cipher: Vec<u8>) -> (res:
    Result<(), DispatchError>)
    ensures
        final(contact).key == old(contact).key,
        (final(contact).data@, res) == transact(
            old(contact).data@,
            Step::Request { peer: requester.key@, cipher: cipher@ },
        ),
{
    let mut data: DispatchData = match load_data(contact) {
        Ok(data) => data,
        Err(e) => {
            return Err(e);
        },
    };
    data.request(&requester.key, cipher);
    save_data(contact, data)
}

/// The acceptor accepts a request: its own connection under the identity of
/// `requester` is pending no longer, and then the record of `requester` gets
/// an accepted connection under the identity of `acceptor`, with `cipher`
/// and without messages. Fails, with nothing changed, where the acceptor
/// holds no connection with the requester.
pub fn accept_connection(acceptor: &mut Account, requester: &mut Account, cipher: Vec<u8>) -> (res:
    Result<(), DispatchError>)
    ensures
        final(acceptor).key == old(acceptor).key,
        final(requester).key == old(requester).key,
        (final(acceptor).data@, final(requester).data@, res) == transact_both(
            old(acceptor).data@,
            Step::Accept { peer: old(requester).key@ },
            old(requester).data@,
            Step::Acknowledge { peer: old(acceptor).key@, cipher: cipher@ },
        ),
{
    let mut own: DispatchData = match load_data(acceptor) {
        Ok(data) => data,
        Err(e) => {
            return Err(e);
        },
    };
    match own.accept(&requester.key) {
        Ok(()) => {},
        Err(e) => {
            return Err(e);
        },
    }
    match save_data(acceptor, own) {
        Ok(()) => {},
        Err(e) => {
            return Err(e);
        },
    }
    let mut theirs: DispatchData = match load_data(requester) {
        Ok(data) => data,
        Err(e) => {
            return Err(e);
        },
    };
    theirs.acknowledge(&acceptor.key, cipher);
    save_data(requester, theirs)
}

/// Breaks a connection off on both sides: the record of `contact` loses what
/// it holds under the identity of `requester`, and then the record of
/// `requester` what it holds under the identity of `contact`. A side that
/// holds nothing stays as it is.
pub fn break_connection(requester: &mut Account, contact: &mut Account) -> (res: Result<
    (),
    DispatchError,
>)
    ensures
        final(requester).key == old(requester).key,
        final(contact).key == old(contact).key,
        (final(contact).data@, final(requester).data@, res) == transact_both(
            old(contact).data@,
            Step::Break { peer: old(requester).key@ },
            old(requester).data@,
            Step::Break { peer: old(contact).key@ },
        ),
{
    let mut theirs: DispatchData = match load_data(contact) {
        Ok(data) => data,
        Err(e) => {
            return Err(e);
        },
    };
    theirs.disconnect(&requester.key);
    match save_data(contact, theirs) {
        Ok(()) => {},
        Err(e) => {
            return Err(e);
        },
    }
    let mut own: DispatchData = match load_data(requester) {
        Ok(data) => data,
        Err(e) => {
            return Err(e);
        },
    };
    own.disconnect(&contact.key);
    save_data(requester, own)
}

/// Sends a message: it goes to the end of the inbox that the record of `to`
/// keeps under the identity of `from`. Fails, with nothing changed, where
/// that record holds no connection with `from`.
pub fn send_message(from: &Account, to: &mut Account, timestamp: u64, message: Vec<u8>) -> (res:
    Result<(), DispatchError>)
    ensures
        final(to).key == old(to).key,
        (final(to).data@, res) == transact(
            old(to).data@,
            Step::Deliver {
                peer: from.key@,
                message: MessageView { timestamp, message: message@ },
            },
        ),
{
    let mut data: DispatchData = match load_data(to) {
        Ok(data) => data,
        Err(e) => {
            return Err(e);
        },
    };
    match data.deliver(&from.key, timestamp, message) {
        Ok(()) => save_data(to, data),
        Err(e) => Err(e),
    }
}

/// Throws away, in the connection that `holder` keeps with `contact`, the
/// messages whose time is `older_than` or earlier. Fails, with nothing
/// changed, where the holder keeps no such connection.
pub fn gc_conversation(holder: &mut Account, contact: &Account, older_than: u64) -> (res: Result<
    (),
    DispatchError,
>)
    ensures
        final(holder).key == old(holder).key,
        (final(holder).data@, res) == transact(
            old(holder).data@,
            Step::Collect { peer: contact.key@, older_than },
        ),
{
    let mut data: DispatchData = match load_data(holder) {
        Ok(data) => data,
        Err(e) => {
            return Err(e);
        },
    };
    match data.collect(&contact.key, older_than) {
        Ok(()) => save_data(holder, data),
        Err(e) => Err(e),
    }
}

/// Throws away, in every connection that `holder` keeps, the messages whose
/// time is `older_than` or earlier.
pub fn gc_conversations(holder: &mut Account, older_than: u64) -> (res: Result<(), DispatchError>)
    ensures
        final(holder).key == old(holder).key,
        (final(holder).data@, res) == transact(
            old(holder).data@,
            Step::CollectAll { older_than },
        ),
{
    let mut data: DispatchData = match load_data(holder) {
        Ok(data) => data,
        Err(e) => {
            return Err(e);
        },
    };
    data.collect_all(older_than);
    save_data(holder, data)
}

} // verus!
