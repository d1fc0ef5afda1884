//! How a messaging record lies in an account's buffer.
//!
//! A record is written as one tag byte, the number of connections, the
//! connections in the order of their keys, and the name. Behind the tag the
//! bytes are those that Borsh writes for a map from identities to
//! connections followed by a string: each connection as the thirty-two bytes
//! of the peer, the pending flag, the cipher, the number of messages and the
//! messages, each message as its time and its bytes. A buffer holds a record
//! where it begins with one; what follows the record is not read.

use crate::layout::{
    fits_u32, front_bytes, front_exact, front_u32, front_u64, front_u8, le_bytes, le_u32, le_u64,
    put_bytes, put_exact, put_u32, put_u64, Reader,
};
use crate::record::{
    connection_view, message_view, Connection, ConnectionView, DispatchData, Message, MessageView,
};
use crate::table::{ascending, lift_rows, Table};
use crate::wire::{encode_each, front_each, reads_back, resumed, writes_back};
use vstd::prelude::*;
use vstd::utf8::{decode_utf8, encode_utf8, valid_utf8};

verus! {

/// The first byte of every messaging record. A buffer that was never written
/// begins with zero and so holds none.
pub const RECORD_TAG: u8 = 1;

/// The byte that stands for a truth value.
pub open spec fn flag(value: bool) -> u8 {
    if value {
        1
    } else {
        0
    }
}

/// A message on the wire: its time, then its bytes.
pub open spec fn encode_message(m: MessageView) -> Seq<u8> {
    le_u64(m.timestamp) + le_bytes(m.message)
}

/// The message that `s` begins with, and the rest.
pub open spec fn front_message(s: Seq<u8>) -> Option<(MessageView, Seq<u8>)> {
    match front_u64(s) {
        None => None,
        Some((timestamp, s1)) => match front_bytes(s1) {
            None => None,
            Some((message, s2)) => Some((MessageView { timestamp, message }, s2)),
        },
    }
}

/// Whether a message can be written: its length fits the four bytes in front
/// of it.
pub open spec fn message_fits(m: MessageView) -> bool {
    m.message.len() <= u32::MAX
}

/// `message_fits`, as a function to go through a list with.
pub open spec fn message_fit() -> spec_fn(MessageView) -> bool {
    |m: MessageView| message_fits(m)
}

/// `encode_message`, as a function to go through a list with.
pub open spec fn message_writer() -> spec_fn(MessageView) -> Seq<u8> {
    |m: MessageView| encode_message(m)
}

/// `front_message`, as a function to go through a list with.
pub open spec fn message_reader() -> spec_fn(Seq<u8>) -> Option<(MessageView, Seq<u8>)> {
    |s: Seq<u8>| front_message(s)
}

/// A connection on the wire: the pending flag, the cipher, the number of
/// messages, the messages.
pub open spec fn encode_connection(c: ConnectionView) -> Seq<u8> {
    seq![flag(c.pending)] + le_bytes(c.cipher) + le_u32(c.inbox.len() as u32) + encode_each(
        c.inbox,
        message_writer(),
    )
}

/// The connection with these parts, where its messages were found.
pub open spec fn connection_of(
    pending: bool,
    cipher: Seq<u8>,
    found: Option<(Seq<MessageView>, Seq<u8>)>,
) -> Option<(ConnectionView, Seq<u8>)> {
    match found {
        None => None,
        Some((inbox, rest)) => Some((ConnectionView { pending, cipher, inbox }, rest)),
    }
}

/// The connection that `s` begins with, and the rest.
pub open spec fn front_connection(s: Seq<u8>) -> Option<(ConnectionView, Seq<u8>)> {
    match front_u8(s) {
        None => None,
        Some((pending, s1)) => if pending > 1 {
            None
        } else {
            match front_bytes(s1) {
                None => None,
                Some((cipher, s2)) => match front_u32(s2) {
                    None => None,
                    Some((count, s3)) => connection_of(
                        pending == 1,
                        cipher,
                        front_each(s3, count as nat, message_reader()),
                    ),
                },
            }
        },
    }
}

/// Whether a connection can be written: every length and the number of
/// messages fit their four bytes.
pub open spec fn connection_fits(c: ConnectionView) -> bool {
    &&& c.cipher.len() <= u32::MAX
    &&& c.inbox.len() <= u32::MAX
    &&& forall|i: int| 0 <= i < c.inbox.len() ==> message_fits(#[trigger] c.inbox[i])
}

/// A row on the wire: the thirty-two bytes of the peer's identity, then the
/// connection.
pub open spec fn encode_row(row: (Seq<u8>, ConnectionView)) -> Seq<u8> {
    row.0 + encode_connection(row.1)
}

/// The row that `s` begins with, and the rest.
pub open spec fn front_row(s: Seq<u8>) -> Option<((Seq<u8>, ConnectionView), Seq<u8>)> {
    match front_exact(s, 32) {
        None => None,
        Some((peer, s1)) => match front_connection(s1) {
            None => None,
            Some((connection, s2)) => Some(((peer, connection), s2)),
        },
    }
}

/// Whether a row can be written: its key is an identity, and its connection
/// can be written.
pub open spec fn row_fits(row: (Seq<u8>, ConnectionView)) -> bool {
    row.0.len() == 32 && connection_fits(row.1)
}

/// `row_fits`, as a function to go through a list with.
pub open spec fn row_fit() -> spec_fn((Seq<u8>, ConnectionView)) -> bool {
    |row: (Seq<u8>, ConnectionView)| row_fits(row)
}

/// `encode_row`, as a function to go through a list with.
pub open spec fn row_writer() -> spec_fn((Seq<u8>, ConnectionView)) -> Seq<u8> {
    |row: (Seq<u8>, ConnectionView)| encode_row(row)
}

/// `front_row`, as a function to go through a list with.
pub open spec fn row_reader() -> spec_fn(Seq<u8>) -> Option<
    ((Seq<u8>, ConnectionView), Seq<u8>),
> {
    |s: Seq<u8>| front_row(s)
}

/// A record on the wire.
pub open spec fn encode_record(rows: Seq<(Seq<u8>, ConnectionView)>, name: Seq<char>) -> Seq<u8> {
    seq![RECORD_TAG] + le_u32(rows.len() as u32) + encode_each(rows, row_writer()) + le_bytes(
        encode_utf8(name),
    )
}

/// Whether a record can be written and read again: its rows ascend, and all
/// its lengths and counts fit their four bytes.
pub open spec fn record_fits(rows: Seq<(Seq<u8>, ConnectionView)>, name: Seq<char>) -> bool {
    &&& ascending(rows)
    &&& rows.len() <= u32::MAX
    &&& forall|i: int| 0 <= i < rows.len() ==> row_fits(#[trigger] rows[i])
    &&& encode_utf8(name).len() <= u32::MAX
}

/// The record with the rows that were found, where they ascend and a name
/// in UTF-8 follows them.
pub open spec fn record_of(found: Option<(Seq<(Seq<u8>, ConnectionView)>, Seq<u8>)>) -> Option<
    (Seq<(Seq<u8>, ConnectionView)>, Seq<char>),
> {
    match found {
        None => None,
        Some((rows, rest)) => match front_bytes(rest) {
            None => None,
            Some((name, _)) => if valid_utf8(name) && ascending(rows) {
                Some((rows, decode_utf8(name)))
            } else {
                None
            },
        },
    }
}

/// The record that `s` begins with: its rows and its name. Nothing where `s`
/// does not begin with a record.
#[verifier::opaque]
pub open spec fn parse_record(s: Seq<u8>) -> Option<(Seq<(Seq<u8>, ConnectionView)>, Seq<char>)> {
    match front_u8(s) {
        None => None,
        Some((tag, s1)) => if tag != RECORD_TAG {
            None
        } else {
            match front_u32(s1) {
                None => None,
                Some((count, s2)) => record_of(front_each(s2, count as nat, row_reader())),
            }
        },
    }
}

/// A message that was written is read back.
pub proof fn lemma_message_reads_back(m: MessageView)
    requires
        message_fits(m),
    ensures
        reads_back(message_writer(), message_reader(), m),
{
    assert forall|tail: Seq<u8>| #[trigger]
        front_message(encode_message(m) + tail) == Some((m, tail)) by {
        let behind = le_bytes(m.message) + tail;
        assert(encode_message(m) + tail =~= le_u64(m.timestamp) + behind);
        crate::layout::lemma_front_u64_of_written(m.timestamp, behind);
        crate::layout::lemma_front_bytes_of_written(m.message, tail);
    }
}

/// A connection that was written is read back, whatever follows it.
#[verifier::rlimit(50)]
pub proof fn lemma_connection_reads_back(c: ConnectionView, tail: Seq<u8>)
    requires
        connection_fits(c),
    ensures
        front_connection(encode_connection(c) + tail) == Some((c, tail)),
{
    let s3 = encode_each(c.inbox, message_writer()) + tail;
    let s2 = le_u32(c.inbox.len() as u32) + s3;
    let s1 = le_bytes(c.cipher) + s2;
    let s = encode_connection(c) + tail;
    assert(s =~= seq![flag(c.pending)] + s1);
    assert(s.skip(1) =~= s1);
    crate::layout::lemma_front_bytes_of_written(c.cipher, s2);
    crate::layout::lemma_front_u32_of_written(c.inbox.len() as u32, s3);
    assert forall|i: int| 0 <= i < c.inbox.len() implies reads_back(
        message_writer(),
        message_reader(),
        #[trigger] c.inbox[i],
    ) by {
        lemma_message_reads_back(c.inbox[i]);
    }
    crate::wire::lemma_front_each_of_written(c.inbox, tail, message_writer(), message_reader());
}

/// A row that was written is read back.
pub proof fn lemma_row_reads_back(row: (Seq<u8>, ConnectionView))
    requires
        row_fits(row),
    ensures
        reads_back(row_writer(), row_reader(), row),
{
    assert forall|tail: Seq<u8>| #[trigger] front_row(encode_row(row) + tail) == Some(
        (row, tail),
    ) by {
        let behind = encode_connection(row.1) + tail;
        assert(encode_row(row) + tail =~= row.0 + behind);
        crate::layout::lemma_front_exact_of_written(row.0, behind);
        lemma_connection_reads_back(row.1, tail);
    }
}

/// A name that was written behind ascending rows is read back with them.
proof fn lemma_name_reads_back(
    rows: Seq<(Seq<u8>, ConnectionView)>,
    name: Seq<char>,
    tail: Seq<u8>,
)
    requires
        ascending(rows),
        encode_utf8(name).len() <= u32::MAX,
    ensures
        record_of(Some((rows, le_bytes(encode_utf8(name)) + tail))) == Some((rows, name)),
{
    let bytes = encode_utf8(name);
    crate::layout::lemma_front_bytes_of_written(bytes, tail);
    vstd::utf8::encode_utf8_valid_utf8(name);
    vstd::utf8::encode_utf8_decode_utf8(name);
}

/// A record that was written is read back: a buffer that begins with what a
/// record was written as holds that record, whatever follows.
#[verifier::rlimit(50)]
pub proof fn lemma_record_reads_back(
    rows: Seq<(Seq<u8>, ConnectionView)>,
    name: Seq<char>,
    tail: Seq<u8>,
)
    requires
        record_fits(rows, name),
    ensures
        parse_record(encode_record(rows, name) + tail) == Some((rows, name)),
{
    let s3 = le_bytes(encode_utf8(name)) + tail;
    let s2 = encode_each(rows, row_writer()) + s3;
    let s1 = le_u32(rows.len() as u32) + s2;
    let s = encode_record(rows, name) + tail;
    assert(s =~= seq![RECORD_TAG] + s1);
    assert(front_u8(s) == Some((RECORD_TAG, s1))) by {
        assert(s.skip(1) =~= s1);
    }
    assert(front_u32(s1) == Some((rows.len() as u32, s2))) by {
        crate::layout::lemma_front_u32_of_written(rows.len() as u32, s2);
    }
    assert(front_each(s2, rows.len(), row_reader()) == Some((rows, s3))) by {
        assert forall|i: int| 0 <= i < rows.len() implies reads_back(
            row_writer(),
            row_reader(),
            #[trigger] rows[i],
        ) by {
            lemma_row_reads_back(rows[i]);
        }
        crate::wire::lemma_front_each_of_written(rows, s3, row_writer(), row_reader());
    }
    lemma_name_reads_back(rows, name, tail);
    assert(parse_record(s) == record_of(front_each(s2, rows.len(), row_reader()))) by {
        reveal(parse_record);
    }
}

/// A message that is read is one that was written, and it can be written.
pub proof fn lemma_message_is_written(s: Seq<u8>)
    ensures
        writes_back(message_writer(), message_reader(), message_fit(), s),
{
    if let Some((timestamp, s1)) = front_u64(s) {
        crate::layout::lemma_front_u64_is_written(s);
        if let Some((message, s2)) = front_bytes(s1) {
            crate::layout::lemma_front_bytes_is_written(s1);
            let m = MessageView { timestamp, message };
            assert(s =~= encode_message(m) + s2);
        }
    }
}

/// A connection that is read is one that was written, and it can be
/// written.
#[verifier::rlimit(50)]
pub proof fn lemma_connection_is_written(s: Seq<u8>)
    requires
        front_connection(s) is Some,
    ensures
        connection_fits(front_connection(s).unwrap().0),
        s == encode_connection(front_connection(s).unwrap().0) + front_connection(s).unwrap().1,
{
    let (c, rest) = front_connection(s).unwrap();
    let (pending, s1) = front_u8(s).unwrap();
    let (cipher, s2) = front_bytes(s1).unwrap();
    let (count, s3) = front_u32(s2).unwrap();
    let found = front_each(s3, count as nat, message_reader()).unwrap();
    assert(s =~= seq![pending] + s1);
    assert(flag(c.pending) == pending);
    crate::layout::lemma_front_bytes_is_written(s1);
    crate::layout::lemma_front_u32_is_written(s2);
    assert forall|t: Seq<u8>| #[trigger]
        writes_back(message_writer(), message_reader(), message_fit(), t) by {
        lemma_message_is_written(t);
    }
    crate::wire::lemma_front_each_is_written(
        s3,
        count as nat,
        message_writer(),
        message_reader(),
        message_fit(),
    );
    assert(c.inbox == found.0);
    assert forall|i: int| 0 <= i < c.inbox.len() implies message_fits(#[trigger] c.inbox[i]) by {
        assert(message_fit()(found.0[i]));
    }
    assert(s =~= encode_connection(c) + rest);
}

/// A row that is read is one that was written, and it can be written.
pub proof fn lemma_row_is_written(s: Seq<u8>)
    ensures
        writes_back(row_writer(), row_reader(), row_fit(), s),
{
    if let Some((peer, s1)) = front_exact(s, 32) {
        crate::layout::lemma_front_exact_is_written(s, 32);
        if let Some((connection, s2)) = front_connection(s1) {
            lemma_connection_is_written(s1);
            assert(s =~= encode_row((peer, connection)) + s2);
        }
    }
}

/// A record that is read is one that was written: where a buffer holds a
/// record, the record can be written, and the buffer begins with what the
/// record is written as.
#[verifier::rlimit(50)]
pub proof fn lemma_record_is_written(s: Seq<u8>)
    requires
        parse_record(s) is Some,
    ensures
        record_fits(parse_record(s).unwrap().0, parse_record(s).unwrap().1),
        encode_record(parse_record(s).unwrap().0, parse_record(s).unwrap().1).is_prefix_of(s),
{
    reveal(parse_record);
    let (rows, name) = parse_record(s).unwrap();
    let (tag, s1) = front_u8(s).unwrap();
    let (count, s2) = front_u32(s1).unwrap();
    let found = front_each(s2, count as nat, row_reader()).unwrap();
    let s3 = found.1;
    let (bytes, s4) = front_bytes(s3).unwrap();
    assert(s =~= seq![RECORD_TAG] + s1);
    crate::layout::lemma_front_u32_is_written(s1);
    assert forall|t: Seq<u8>| #[trigger] writes_back(row_writer(), row_reader(), row_fit(), t) by {
        lemma_row_is_written(t);
    }
    crate::wire::lemma_front_each_is_written(s2, count as nat, row_writer(), row_reader(), row_fit());
    assert(rows == found.0);
    assert forall|i: int| 0 <= i < rows.len() implies row_fits(#[trigger] rows[i]) by {
        assert(row_fit()(found.0[i]));
    }
    crate::layout::lemma_front_bytes_is_written(s3);
    vstd::utf8::decode_utf8_encode_utf8(bytes);
    assert(s =~= encode_record(rows, name) + s4);
}

/// What a buffer holds is what it begins with: a buffer holds the record
/// with these rows and this name exactly where the record can be written
/// and the buffer begins with what it is written as. So no two records are
/// written alike, and none as the beginning of another.
pub proof fn lemma_holds_what_it_begins_with(
    data: Seq<u8>,
    rows: Seq<(Seq<u8>, ConnectionView)>,
    name: Seq<char>,
)
    ensures
        parse_record(data) == Some((rows, name)) <==> record_fits(rows, name) && encode_record(
            rows,
            name,
        ).is_prefix_of(data),
{
    let written = encode_record(rows, name);
    if parse_record(data) == Some((rows, name)) {
        lemma_record_is_written(data);
    }
    if record_fits(rows, name) && written.is_prefix_of(data) {
        let tail = data.skip(written.len() as int);
        assert(data =~= written + tail);
        lemma_record_reads_back(rows, name, tail);
    }
}

/// Turns bytes into text where they are UTF-8.
///
/// Calls `String::from_utf8` of the standard library, which succeeds on
/// exactly the byte strings that are valid UTF-8 and then gives the `String`
/// that consists of those bytes. This is believed, not proved.
#[verifier::external_body]
fn text_from_utf8(bytes: Vec<u8>) -> (res: Option<String>)
    ensures
        res is Some <==> valid_utf8(bytes@),
        res matches Some(text) ==> encode_utf8(text@) == bytes@,
{
    match String::from_utf8(bytes) {
        Ok(text) => Some(text),
        Err(_) => None,
    }
}

/// Appends a message, if it can be written.
fn write_message(out: &mut Vec<u8>, m: &Message) -> (done: bool)
    ensures
        done == message_fits(m@),
        done ==> final(out)@ == old(out)@ + encode_message(m@),
{
    if !fits_u32(m.message.len()) {
        return false;
    }
    put_u64(out, m.timestamp);
    put_bytes(out, m.message.as_slice());
    assert(out@ =~= old(out)@ + encode_message(m@));
    true
}

/// Appends a connection, if it can be written.
fn write_connection(out: &mut Vec<u8>, c: &Connection) -> (done: bool)
    ensures
        done == connection_fits(c@),
        done ==> final(out)@ == old(out)@ + encode_connection(c@),
{
    if !fits_u32(c.cipher.len()) || !fits_u32(c.inbox.len()) {
        return false;
    }
    out.push(if c.pending { 1 } else { 0 });
    put_bytes(out, c.cipher.as_slice());
    put_u32(out, c.inbox.len() as u32);
    let ghost head = out@;
    let ghost inbox = c@.inbox;
    assert(head =~= old(out)@ + (seq![flag(c.pending)] + le_bytes(c.cipher@) + le_u32(
        inbox.len() as u32,
    )));
    let mut i: usize = 0;
    while i < c.inbox.len()
        invariant
            i <= c.inbox@.len(),
            inbox == c@.inbox,
            inbox.len() == c.inbox@.len(),
            forall|j: int| 0 <= j < i ==> message_fits(#[trigger] inbox[j]),
            out@ == head + encode_each(inbox.take(i as int), message_writer()),
        decreases c.inbox@.len() - i,
    {
        proof {
            assert(inbox[i as int] == c.inbox@[i as int]@);
            assert(inbox.take(i + 1) =~= inbox.take(i as int).push(inbox[i as int]));
            crate::wire::lemma_encode_each_push(
                inbox.take(i as int),
                inbox[i as int],
                message_writer(),
            );
        }
        if !write_message(out, &c.inbox[i]) {
            return false;
        }
        i += 1;
    }
    proof {
        assert(inbox.take(i as int) =~= inbox);
        assert(out@ =~= old(out)@ + encode_connection(c@));
    }
    true
}

/// Writes a record out, if it can be written.
pub fn encode(record: &DispatchData) -> (res: Option<Vec<u8>>)
    requires
        record.wf(),
    ensures
        res is Some <==> record_fits(record.rows(), record@.name),
        res matches Some(bytes) ==> bytes@ == encode_record(record.rows(), record@.name),
{
    let ghost rows = record.rows();
    proof {
        record.connections.lemma_ascending();
        crate::table::lemma_lift_rows(record.connections.rows(), connection_view());
    }
    let n: usize = record.connections.len();
    let name = record.name.as_str().as_bytes();
    if !fits_u32(n) || !fits_u32(name.len()) {
        return None;
    }
    let mut out: Vec<u8> = Vec::new();
    out.push(RECORD_TAG);
    put_u32(&mut out, n as u32);
    let ghost head = out@;
    let mut i: usize = 0;
    while i < n
        invariant
            record.wf(),
            rows == record.rows(),
            ascending(rows),
            i <= n == rows.len(),
            forall|j: int| 0 <= j < i ==> row_fits(#[trigger] rows[j]),
            out@ == head + encode_each(rows.take(i as int), row_writer()),
        decreases n - i,
    {
        proof {
            assert(rows.take(i + 1) =~= rows.take(i as int).push(rows[i as int]));
            crate::wire::lemma_encode_each_push(rows.take(i as int), rows[i as int], row_writer());
        }
        let key = record.connections.key_at(i);
        proof {
            crate::table::lemma_row_in_map(rows, i as int);
        }
        put_exact(&mut out, key.as_slice());
        let ghost mid = out@;
        if !write_connection(&mut out, record.connections.value_at(i)) {
            return None;
        }
        proof {
            assert(out@ =~= head + encode_each(rows.take(i as int), row_writer()) + encode_row(
                rows[i as int],
            ));
        }
        i += 1;
    }
    put_bytes(&mut out, name);
    proof {
        assert(rows.take(i as int) =~= rows);
        assert(out@ =~= encode_record(rows, record@.name));
    }
    Some(out)
}

/// Reads a message.
fn read_message(cur: &mut Reader) -> (res: Option<Message>)
    ensures
        match front_message(old(cur).rest()) {
            Some((m, rest)) => res matches Some(found) && found@ == m && final(cur).rest() == rest,
            None => res is None,
        },
{
    let timestamp: u64 = match cur.take_u64() {
        Some(t) => t,
        None => {
            return None;
        },
    };
    match cur.take_bytes() {
        Some(message) => Some(Message { timestamp, message }),
        None => None,
    }
}

/// Reads a connection.
fn read_connection(cur: &mut Reader) -> (res: Option<Connection>)
    ensures
        match front_connection(old(cur).rest()) {
            Some((c, rest)) => res matches Some(found) && found@ == c && final(cur).rest() == rest,
            None => res is None,
        },
{
    let pending: bool = match cur.take_u8() {
        Some(0) => false,
        Some(1) => true,
        _ => {
            return None;
        },
    };
    let cipher: Vec<u8> = match cur.take_bytes() {
        Some(bytes) => bytes,
        None => {
            return None;
        },
    };
    let count: u32 = match cur.take_u32() {
        Some(n) => n,
        None => {
            return None;
        },
    };
    let ghost whole = front_each(cur.rest(), count as nat, message_reader());
    let mut inbox: Vec<Message> = Vec::new();
    let mut i: u32 = 0;
    proof {
        crate::wire::lemma_resumed_first(whole);
        assert(inbox@.map_values(message_view()) =~= Seq::<MessageView>::empty());
    }
    while i < count
        invariant
            i <= count,
            front_connection(old(cur).rest()) == connection_of(pending, cipher@, whole),
            resumed(
                inbox@.map_values(message_view()),
                front_each(cur.rest(), (count - i) as nat, message_reader()),
            ) == whole,
        decreases count - i,
    {
        let ghost read = inbox@.map_values(message_view());
        proof {
            crate::wire::lemma_front_each_next(
                read,
                cur.rest(),
                (count - i) as nat,
                message_reader(),
            );
        }
        match read_message(cur) {
            None => {
                return None;
            },
            Some(m) => {
                inbox.push(m);
                proof {
                    assert(inbox@.map_values(message_view()) =~= read.push(m@));
                }
            },
        }
        i += 1;
    }
    proof {
        crate::wire::lemma_resumed_last(
            inbox@.map_values(message_view()),
            cur.rest(),
            message_reader(),
        );
    }
    Some(Connection { pending, cipher, inbox })
}

/// Reads the record that `data` begins with.
pub fn decode(data: &[u8]) -> (res: Option<DispatchData>)
    ensures
        match parse_record(data@) {
            Some((rows, name)) => res matches Some(record) && record.wf() && record.rows() == rows
                && record@.name == name,
            None => res is None,
        },
{
    proof {
        reveal(parse_record);
    }
    let mut cur = Reader::new(data);
    match cur.take_u8() {
        Some(tag) => {
            if tag != RECORD_TAG {
                return None;
            }
        },
        None => {
            return None;
        },
    }
    let count: u32 = match cur.take_u32() {
        Some(n) => n,
        None => {
            return None;
        },
    };
    let ghost whole = front_each(cur.rest(), count as nat, row_reader());
    let mut table: Table<Connection> = Table::new();
    let mut i: u32 = 0;
    proof {
        crate::wire::lemma_resumed_first(whole);
        assert(lift_rows(table.rows(), connection_view()) =~= Seq::<
            (Seq<u8>, ConnectionView),
        >::empty());
    }
    while i < count
        invariant
            i <= count,
            table.wf(),
            table.rows().len() == i,
            forall|j: int| 0 <= j < i ==> (#[trigger] table.rows()[j]).0.len() == 32,
            parse_record(data@) == record_of(whole),
            resumed(
                lift_rows(table.rows(), connection_view()),
                front_each(cur.rest(), (count - i) as nat, row_reader()),
            ) == whole,
        decreases count - i,
    {
        let ghost read = lift_rows(table.rows(), connection_view());
        proof {
            crate::wire::lemma_front_each_next(read, cur.rest(), (count - i) as nat, row_reader());
        }
        let key: Vec<u8> = match cur.take_exact(32) {
            Some(bytes) => bytes,
            None => {
                return None;
            },
        };
        let connection: Connection = match read_connection(&mut cur) {
            Some(c) => c,
            None => {
                return None;
            },
        };
        let ghost row = (key@, connection@);
        if !table.append(key, connection) {
            proof {
                if whole is Some {
                    let all = whole.unwrap().0;
                    let others = front_each(
                        cur.rest(),
                        (count - i - 1) as nat,
                        row_reader(),
                    ).unwrap().0;
                    assert(all == read.push(row) + others);
                    assert(all[i - 1] == read[i - 1]);
                    assert(all[i as int] == row);
                    assert(!key_lt_rows(all, i - 1, i as int));
                }
            }
            return None;
        }
        proof {
            assert(lift_rows(table.rows(), connection_view()) =~= read.push(row));
        }
        i += 1;
    }
    proof {
        crate::wire::lemma_resumed_last(
            lift_rows(table.rows(), connection_view()),
            cur.rest(),
            row_reader(),
        );
        table.lemma_ascending();
        crate::table::lemma_lift_rows(table.rows(), connection_view());
    }
    let bytes: Vec<u8> = match cur.take_bytes() {
        Some(bytes) => bytes,
        None => {
            return None;
        },
    };
    match text_from_utf8(bytes) {
        None => None,
        Some(name) => {
            let record = DispatchData { connections: table, name };
            proof {
                vstd::utf8::encode_utf8_decode_utf8(name@);
                assert forall|key: Seq<u8>|
                    record@.connections.contains_key(key) implies key.len() == 32 by {
                    let j = choose|j: int| crate::table::row_has_key(record.rows(), key, j);
                    assert(record.rows()[j].0 == table.rows()[j].0);
                }
            }
            Some(record)
        },
    }
}

/// Whether rows `i` and `j` of `rows` stand in the order of their keys.
spec fn key_lt_rows(rows: Seq<(Seq<u8>, ConnectionView)>, i: int, j: int) -> bool {
    crate::table::key_lt(rows[i].0, rows[j].0)
}

} // verus!
