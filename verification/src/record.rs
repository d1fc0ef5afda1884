//! The record that a messaging account keeps, and what each operation of the
//! handshake does to it.
//!
//! A record maps the identity of each peer to the connection with that peer.
//! Messages lie in the inbox of the one who receives them: a sender's message
//! goes into the recipient's record, under the sender's identity.

use crate::account::Pubkey;
use crate::error::DispatchError;
use crate::table::{lemma_lift_rows, lift_rows, rows_map, Table};
use vstd::prelude::*;

verus! {

/// One message: when the sender says it was sent, and its bytes, which the
/// library never looks into.
#[derive(Clone, Debug, PartialEq, Eq)]
pub struct Message {
    pub timestamp: u64,
    pub message: Vec<u8>,
}

/// A message as a value of mathematics.
pub struct MessageView {
    pub timestamp: u64,
    pub message: Seq<u8>,
}

impl View for Message {
    type V = MessageView;

    open spec fn view(&self) -> MessageView {
        MessageView { timestamp: self.timestamp, message: self.message@ }
    }
}

/// The function that takes each message to its view.
pub open spec fn message_view() -> spec_fn(Message) -> MessageView {
    |m: Message| m@
}

/// Whether a message outlives a collection of everything as old as
/// `older_than`: its time is strictly later.
pub open spec fn newer_than(older_than: u64) -> spec_fn(MessageView) -> bool {
    |m: MessageView| m.timestamp > older_than
}

/// The relation of the holder of a record to one peer.
#[derive(Clone, Debug, PartialEq, Eq)]
pub struct Connection {
    /// True from the request until the holder accepts.
    pub pending: bool,
    /// The key material of the peer, as the peer gave it.
    pub cipher: Vec<u8>,
    /// The messages that the peer sent, oldest arrival first.
    pub inbox: Vec<Message>,
}

/// A connection as a value of mathematics.
pub struct ConnectionView {
    pub pending: bool,
    pub cipher: Seq<u8>,
    pub inbox: Seq<MessageView>,
}

impl View for Connection {
    type V = ConnectionView;

    open spec fn view(&self) -> ConnectionView {
        ConnectionView {
            pending: self.pending,
            cipher: self.cipher@,
            inbox: self.inbox@.map_values(message_view()),
        }
    }
}

/// The function that takes each connection to its view.
pub open spec fn connection_view() -> spec_fn(Connection) -> ConnectionView {
    |c: Connection| c@
}

impl ConnectionView {
    /// A connection without messages.
    pub open spec fn fresh(pending: bool, cipher: Seq<u8>) -> ConnectionView {
        ConnectionView { pending, cipher, inbox: Seq::empty() }
    }

    /// The connection once the holder has accepted it.
    pub open spec fn accepted(self) -> ConnectionView {
        ConnectionView { pending: false, cipher: self.cipher, inbox: self.inbox }
    }

    /// The connection with one more message at the end of the inbox.
    pub open spec fn with_message(self, message: MessageView) -> ConnectionView {
        ConnectionView {
            pending: self.pending,
            cipher: self.cipher,
            inbox: self.inbox.push(message),
        }
    }

    /// The connection without the messages whose time is `older_than` or
    /// earlier; the others keep their order.
    pub open spec fn collected(self, older_than: u64) -> ConnectionView {
        ConnectionView {
            pending: self.pending,
            cipher: self.cipher,
            inbox: self.inbox.filter(newer_than(older_than)),
        }
    }
}

/// The function that collects each connection at `older_than`.
pub open spec fn collecting(older_than: u64) -> spec_fn(ConnectionView) -> ConnectionView {
    |c: ConnectionView| c.collected(older_than)
}

/// Takes out of `inbox` every message whose time is `older_than` or earlier.
/// The messages that stay keep their order.
pub fn retain_newer(inbox: &mut Vec<Message>, older_than: u64)
    ensures
        final(inbox)@.map_values(message_view()) == old(inbox)@.map_values(message_view()).filter(
            newer_than(older_than),
        ),
{
    let mut taken: Vec<Message> = Vec::new();
    core::mem::swap(inbox, &mut taken);
    let ghost before = taken@.map_values(message_view());
    let ghost keep = newer_than(older_than);
    proof {
        assert(before.take(0).filter(keep) =~= Seq::<MessageView>::empty()) by {
            reveal(Seq::filter);
        }
        assert(inbox@.map_values(message_view()) =~= Seq::<MessageView>::empty());
    }
    for m in it: taken
        invariant
            keep == newer_than(older_than),
            it.seq().map_values(message_view()) == before,
            inbox@.map_values(message_view()) == before.take(it.index() as int).filter(keep),
    {
        let ghost i = it.index() as int;
        let ghost kept = inbox@.map_values(message_view());
        proof {
            assert(before.take(i + 1) =~= before.take(i).push(before[i]));
            before.take(i).lemma_filter_push(before[i], keep);
        }
        if m.timestamp > older_than {
            inbox.push(m);
            proof {
                assert(inbox@.map_values(message_view()) =~= kept.push(m@));
            }
        }
    }
    proof {
        assert(before.take(before.len() as int) =~= before);
    }
}

/// All that a messaging account keeps: its connections, each under the
/// identity of the peer, and a label for display.
#[derive(Clone, Debug, PartialEq, Eq)]
pub struct DispatchData {
    pub connections: Table<Connection>,
    pub name: String,
}

/// The record under the name it has where the messaging is spoken of alone.
pub type MessagingData = DispatchData;

/// A record as a value of mathematics.
pub struct DispatchView {
    pub connections: Map<Seq<u8>, ConnectionView>,
    pub name: Seq<char>,
}

/// One thing that can happen to a record. `peer` is the identity of the
/// other side, seen from the holder of the record.
pub enum Step {
    /// `peer` asks the holder for a connection and hands over its cipher.
    Request { peer: Seq<u8>, cipher: Seq<u8> },
    /// `peer` has accepted the holder's request and hands over its cipher.
    Acknowledge { peer: Seq<u8>, cipher: Seq<u8> },
    /// The holder accepts the request of `peer`.
    Accept { peer: Seq<u8> },
    /// The connection with `peer` is broken off.
    Break { peer: Seq<u8> },
    /// `peer` sends the holder a message.
    Deliver { peer: Seq<u8>, message: MessageView },
    /// The messages of `peer` as old as `older_than` are thrown away.
    Collect { peer: Seq<u8>, older_than: u64 },
    /// The messages of every peer as old as `older_than` are thrown away.
    CollectAll { older_than: u64 },
}

impl DispatchView {
    /// The record with `connection` under `peer`, in place of what was there.
    pub open spec fn with(self, peer: Seq<u8>, connection: ConnectionView) -> DispatchView {
        DispatchView { connections: self.connections.insert(peer, connection), name: self.name }
    }

    /// The record after `step`, or why the step cannot be taken.
    pub open spec fn apply(self, step: Step) -> Result<DispatchView, DispatchError> {
        match step {
            Step::Request { peer, cipher } => Ok(
                self.with(peer, ConnectionView::fresh(true, cipher)),
            ),
            Step::Acknowledge { peer, cipher } => Ok(
                self.with(peer, ConnectionView::fresh(false, cipher)),
            ),
            Step::Accept { peer } => if self.connections.contains_key(peer) {
                Ok(self.with(peer, self.connections[peer].accepted()))
            } else {
                Err(DispatchError::ConnectionNotFound)
            },
            Step::Break { peer } => Ok(
                DispatchView { connections: self.connections.remove(peer), name: self.name },
            ),
            Step::Deliver { peer, message } => if self.connections.contains_key(peer) {
                Ok(self.with(peer, self.connections[peer].with_message(message)))
            } else {
                Err(DispatchError::ConnectionNotFound)
            },
            Step::Collect { peer, older_than } => if self.connections.contains_key(peer) {
                Ok(self.with(peer, self.connections[peer].collected(older_than)))
            } else {
                Err(DispatchError::ConnectionNotFound)
            },
            Step::CollectAll { older_than } => Ok(
                DispatchView {
                    connections: self.connections.map_values(collecting(older_than)),
                    name: self.name,
                },
            ),
        }
    }

    /// The record after each of `steps` in turn. A step that cannot be taken
    /// leaves the record as it is.
    pub open spec fn run(self, steps: Seq<Step>) -> DispatchView
        decreases steps.len(),
    {
        if steps.len() == 0 {
            self
        } else {
            let before = self.run(steps.drop_last());
            match before.apply(steps.last()) {
                Ok(after) => after,
                Err(_) => before,
            }
        }
    }

    /// Whether `peer` is no open request: the record holds no connection with
    /// it, or one that is accepted.
    pub open spec fn settled(self, peer: Seq<u8>) -> bool {
        self.connections.contains_key(peer) ==> !self.connections[peer].pending
    }
}

/// What a call that takes `step` on a record owes: the record after the
/// step and success, or the step's error and the record as it was.
pub open spec fn takes_step(
    before: DispatchView,
    step: Step,
    after: DispatchView,
    res: Result<(), DispatchError>,
) -> bool {
    match before.apply(step) {
        Ok(next) => res == Ok::<(), DispatchError>(()) && after == next,
        Err(e) => res == Err::<(), DispatchError>(e) && after == before,
    }
}

impl View for DispatchData {
    type V = DispatchView;

    open spec fn view(&self) -> DispatchView {
        DispatchView { connections: rows_map(self.rows()), name: self.name@ }
    }
}

impl DispatchData {
    /// Whether the record is in order: its table of connections is, and
    /// every key in it is an identity, thirty-two bytes long.
    pub open spec fn wf(&self) -> bool {
        &&& self.connections.wf()
        &&& forall|key: Seq<u8>| self@.connections.contains_key(key) ==> key.len() == 32
    }

    /// The connections as rows, in the order in which they are written out.
    pub open spec fn rows(&self) -> Seq<(Seq<u8>, ConnectionView)> {
        lift_rows(self.connections.rows(), connection_view())
    }

    /// The map of a record is the map of its table, each connection seen as
    /// its view.
    pub proof fn lemma_connections(&self)
        requires
            self.connections.wf(),
        ensures
            self@.connections == self.connections@.map_values(connection_view()),
    {
        self.connections.lemma_ascending();
        lemma_lift_rows(self.connections.rows(), connection_view());
    }

    /// A record without connections and without a name.
    pub fn new() -> (record: Self)
        ensures
            record.wf(),
            record@.connections == Map::<Seq<u8>, ConnectionView>::empty(),
            record@.name == Seq::<char>::empty(),
    {
        let record = DispatchData { connections: Table::new(), name: String::new() };
        proof {
            assert(record.rows() =~= Seq::<(Seq<u8>, ConnectionView)>::empty());
            crate::table::lemma_no_rows_map::<ConnectionView>();
        }
        record
    }

    /// The connection with `peer`, if the record holds one.
    pub fn connection(&self, peer: &Pubkey) -> (found: Option<&Connection>)
        requires
            self.wf(),
        ensures
            match found {
                Some(c) => self@.connections.contains_key(peer@) && c@ == self@.connections[peer@],
                None => !self@.connections.contains_key(peer@),
            },
    {
        proof {
            self.lemma_connections();
        }
        let key = peer.to_key();
        self.connections.get(key.as_slice())
    }

    /// Puts `connection` under `peer`, in place of what was there.
    fn put(&mut self, peer: &Pubkey, connection: Connection)
        requires
            old(self).wf(),
        ensures
            final(self).wf(),
            final(self)@ == old(self)@.with(peer@, connection@),
    {
        proof {
            self.lemma_connections();
        }
        self.connections.insert(peer.to_key(), connection);
        proof {
            self.lemma_connections();
            assert(self@.connections =~= old(self)@.connections.insert(peer@, connection@));
        }
    }

    /// `peer` asks for a connection: the record gets a pending connection
    /// with `cipher` and no messages under `peer`, whatever it held there.
    pub fn request(&mut self, peer: &Pubkey, cipher: Vec<u8>)
        requires
            old(self).wf(),
        ensures
            final(self).wf(),
            old(self)@.apply(Step::Request { peer: peer@, cipher: cipher@ }) == Ok::<
                DispatchView,
                DispatchError,
            >(final(self)@),
    {
        let connection = Connection { pending: true, cipher, inbox: Vec::new() };
        assert(connection@.inbox =~= Seq::<MessageView>::empty());
        self.put(peer, connection);
    }

    /// `peer` has accepted: the record gets an accepted connection with
    /// `cipher` and no messages under `peer`, whatever it held there.
    pub fn acknowledge(&mut self, peer: &Pubkey, cipher: Vec<u8>)
        requires
            old(self).wf(),
        ensures
            final(self).wf(),
            old(self)@.apply(Step::Acknowledge { peer: peer@, cipher: cipher@ }) == Ok::<
                DispatchView,
                DispatchError,
            >(final(self)@),
    {
        let connection = Connection { pending: false, cipher, inbox: Vec::new() };
        assert(connection@.inbox =~= Seq::<MessageView>::empty());
        self.put(peer, connection);
    }

    /// The holder accepts the request of `peer`: the connection under `peer`
    /// is pending no longer. Fails where the record holds none.
    pub fn accept(&mut self, peer: &Pubkey) -> (res: Result<(), DispatchError>)
        requires
            old(self).wf(),
        ensures
            final(self).wf(),
            takes_step(old(self)@, Step::Accept { peer: peer@ }, final(self)@, res),
    {
        proof {
            self.lemma_connections();
        }
        let key = peer.to_key();
        match self.connections.position(key.as_slice()) {
            None => Err(DispatchError::ConnectionNotFound),
            Some(i) => {
                let ghost rows = self.connections.rows();
                proof {
                    self.connections.lemma_ascending();
                }
                let connection = self.connections.value_at_mut(i);
                connection.pending = false;
                proof {
                    crate::table::lemma_update_map(rows, i as int, self.connections.rows()[i as int].1);
                    self.lemma_connections();
                    assert(self@.connections =~= old(self)@.connections.insert(
                        peer@,
                        old(self)@.connections[peer@].accepted(),
                    ));
                }
                Ok(())
            },
        }
    }

    /// The connection with `peer` is broken off: the record holds none under
    /// `peer` afterwards. Nothing happens where it held none.
    pub fn disconnect(&mut self, peer: &Pubkey)
        requires
            old(self).wf(),
        ensures
            final(self).wf(),
            old(self)@.apply(Step::Break { peer: peer@ }) == Ok::<DispatchView, DispatchError>(
                final(self)@,
            ),
    {
        proof {
            self.lemma_connections();
        }
        let key = peer.to_key();
        self.connections.remove(key.as_slice());
        proof {
            self.lemma_connections();
            assert(self@.connections =~= old(self)@.connections.remove(peer@));
        }
    }

    /// `peer` sends a message: it goes to the end of the inbox under `peer`.
    /// Fails where the record holds no connection with `peer`.
    pub fn deliver(&mut self, peer: &Pubkey, timestamp: u64, message: Vec<u8>) -> (res: Result<
        (),
        DispatchError,
    >)
        requires
            old(self).wf(),
        ensures
            final(self).wf(),
            takes_step(
                old(self)@,
                Step::Deliver {
                    peer: peer@,
                    message: MessageView { timestamp, message: message@ },
                },
                final(self)@,
                res,
            ),
    {
        proof {
            self.lemma_connections();
        }
        let key = peer.to_key();
        match self.connections.position(key.as_slice()) {
            None => Err(DispatchError::ConnectionNotFound),
            Some(i) => {
                let ghost rows = self.connections.rows();
                proof {
                    self.connections.lemma_ascending();
                }
                let item = Message { timestamp, message };
                let connection = self.connections.value_at_mut(i);
                connection.inbox.push(item);
                proof {
                    let now = self.connections.rows()[i as int].1;
                    crate::table::lemma_update_map(rows, i as int, now);
                    self.lemma_connections();
                    assert(now@.inbox =~= rows[i as int].1@.inbox.push(item@));
                    assert(self@.connections =~= old(self)@.connections.insert(
                        peer@,
                        old(self)@.connections[peer@].with_message(item@),
                    ));
                }
                Ok(())
            },
        }
    }

    /// Throws away the messages of `peer` whose time is `older_than` or
    /// earlier. Fails where the record holds no connection with `peer`.
    pub fn collect(&mut self, peer: &Pubkey, older_than: u64) -> (res: Result<(), DispatchError>)
        requires
            old(self).wf(),
        ensures
            final(self).wf(),
            takes_step(
                old(self)@,
                Step::Collect { peer: peer@, older_than },
                final(self)@,
                res,
            ),
    {
        proof {
            self.lemma_connections();
        }
        let key = peer.to_key();
        match self.connections.position(key.as_slice()) {
            None => Err(DispatchError::ConnectionNotFound),
            Some(i) => {
                let ghost rows = self.connections.rows();
                proof {
                    self.connections.lemma_ascending();
                }
                let connection = self.connections.value_at_mut(i);
                retain_newer(&mut connection.inbox, older_than);
                proof {
                    let now = self.connections.rows()[i as int].1;
                    crate::table::lemma_update_map(rows, i as int, now);
                    self.lemma_connections();
                    assert(self@.connections =~= old(self)@.connections.insert(
                        peer@,
                        old(self)@.connections[peer@].collected(older_than),
                    ));
                }
                Ok(())
            },
        }
    }

    /// Throws away, in every connection, the messages whose time is
    /// `older_than` or earlier.
    pub fn collect_all(&mut self, older_than: u64)
        requires
            old(self).wf(),
        ensures
            final(self).wf(),
            old(self)@.apply(Step::CollectAll { older_than }) == Ok::<DispatchView, DispatchError>(
                final(self)@,
            ),
    {
        let ghost start = self.connections.rows();
        let n: usize = self.connections.len();
        let mut i: usize = 0;
        while i < n
            invariant
                self.connections.wf(),
                self.name == old(self).name,
                start == old(self).connections.rows(),
                i <= n == start.len(),
                self.connections.rows().len() == n,
                forall|j: int| 0 <= j < n ==> (#[trigger] self.connections.rows()[j]).0 == start[j].0,
                forall|j: int|
                    0 <= j < i ==> (#[trigger] self.connections.rows()[j]).1@
                        == start[j].1@.collected(older_than),
                forall|j: int| i <= j < n ==> (#[trigger] self.connections.rows()[j]).1 == start[j].1,
            decreases n - i,
        {
            let connection = self.connections.value_at_mut(i);
            retain_newer(&mut connection.inbox, older_than);
            i += 1;
        }
        proof {
            old(self).connections.lemma_ascending();
            lemma_lift_rows(start, connection_view());
            lemma_lift_rows(old(self).rows(), collecting(older_than));
            assert(self.rows() =~= lift_rows(old(self).rows(), collecting(older_than)));
        }
    }
}

/// Asking twice is asking once: a second request of the same peer with the
/// same cipher leaves the record as the first left it.
pub proof fn lemma_request_idempotent(record: DispatchView, peer: Seq<u8>, cipher: Seq<u8>)
    ensures
        record.apply(Step::Request { peer, cipher }).unwrap().apply(Step::Request { peer, cipher })
            == record.apply(Step::Request { peer, cipher }),
{
    let once = record.apply(Step::Request { peer, cipher }).unwrap();
    let twice = once.apply(Step::Request { peer, cipher }).unwrap();
    assert(twice.connections =~= once.connections);
}

/// No step but a request of `peer` opens a request of `peer`.
pub proof fn lemma_step_keeps_settled(record: DispatchView, step: Step, peer: Seq<u8>)
    requires
        record.settled(peer),
        !(step matches Step::Request { peer: asking, .. } && asking == peer),
        record.apply(step) is Ok,
    ensures
        record.apply(step).unwrap().settled(peer),
{
}

/// Acceptance stays: where the connection with `peer` is accepted, or the
/// record holds none, no sequence of steps without a request of `peer` makes
/// it pending. (A request of `peer` does, and that is the one way back.)
pub proof fn lemma_acceptance_stays(record: DispatchView, steps: Seq<Step>, peer: Seq<u8>)
    requires
        record.settled(peer),
        forall|i: int|
            0 <= i < steps.len() ==> !(#[trigger] steps[i] matches Step::Request {
                peer: asking,
                ..
            } && asking == peer),
    ensures
        record.run(steps).settled(peer),
    decreases steps.len(),
{
    if steps.len() > 0 {
        lemma_acceptance_stays(record, steps.drop_last(), peer);
        let before = record.run(steps.drop_last());
        if before.apply(steps.last()) is Ok {
            lemma_step_keeps_settled(before, steps.last(), peer);
        }
    }
}

/// A connection comes to be by a request or an acknowledgement of its peer,
/// and by nothing else.
pub proof fn lemma_connection_begins(record: DispatchView, step: Step, peer: Seq<u8>)
    requires
        !record.connections.contains_key(peer),
        record.apply(step) is Ok,
        record.apply(step).unwrap().connections.contains_key(peer),
    ensures
        (step matches Step::Request { peer: asking, .. } && asking == peer) || (step matches Step::Acknowledge {
            peer: answering,
            ..
        } && answering == peer),
{
}

/// A connection ends by a break with its peer, and by nothing else.
pub proof fn lemma_connection_ends(record: DispatchView, step: Step, peer: Seq<u8>)
    requires
        record.connections.contains_key(peer),
        record.apply(step) is Ok,
        !record.apply(step).unwrap().connections.contains_key(peer),
    ensures
        step == (Step::Break { peer }),
{
}

/// Where a collection cuts: a message whose time is `older_than` or earlier
/// is gone afterwards, one whose time is later is still there.
pub proof fn lemma_collect_boundary(inbox: Seq<MessageView>, older_than: u64, message: MessageView)
    ensures
        inbox.filter(newer_than(older_than)).contains(message) <==> inbox.contains(message)
            && message.timestamp > older_than,
{
    let kept = inbox.filter(newer_than(older_than));
    if kept.contains(message) {
        let i = choose|i: int| 0 <= i < kept.len() && kept[i] == message;
        inbox.lemma_filter_pred(newer_than(older_than), i);
        inbox.lemma_filter_contains_rev(newer_than(older_than), message);
    }
    if inbox.contains(message) && message.timestamp > older_than {
        let i = choose|i: int| 0 <= i < inbox.len() && inbox[i] == message;
        inbox.lemma_filter_contains(newer_than(older_than), i);
    }
}

} // verus!
