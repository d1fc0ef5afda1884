use dispatch::messaging::{
    accept_connection, break_connection, gc_conversation, gc_conversations, load_data,
    request_connection, save_data, send_message,
};
use dispatch::{Account, Connection, DispatchData, DispatchError, Message, Pubkey};

fn mailbox(owner: u8, size: usize) -> Account {
    let mut account = Account { key: Pubkey::new([owner; 32]), data: vec![0; size] };
    save_data(&mut account, DispatchData::new()).unwrap();
    account
}

fn connection_of(holder: &Account, peer: &Account) -> Option<Connection> {
    load_data(holder).unwrap().connection(&peer.key).cloned()
}

#[test]
fn request_puts_a_pending_connection_into_the_contact() {
    let a = mailbox(0xa1, 256);
    let mut b = mailbox(0xb2, 256);
    assert_eq!(request_connection(&a, &mut b, vec![0x01, 0x02]), Ok(()));
    assert_eq!(
        connection_of(&b, &a),
        Some(Connection { pending: true, cipher: vec![0x01, 0x02], inbox: vec![] })
    );
    assert_eq!(load_data(&b).unwrap().connections.len(), 1);
    assert_eq!(connection_of(&a, &b), None);
}

#[test]
fn accept_mirrors_and_flips() {
    let mut a = mailbox(0xa1, 256);
    let mut b = mailbox(0xb2, 256);
    request_connection(&a, &mut b, vec![0x01, 0x02]).unwrap();
    assert_eq!(accept_connection(&mut b, &mut a, vec![0x03]), Ok(()));
    assert_eq!(
        connection_of(&a, &b),
        Some(Connection { pending: false, cipher: vec![0x03], inbox: vec![] })
    );
    assert_eq!(
        connection_of(&b, &a),
        Some(Connection { pending: false, cipher: vec![0x01, 0x02], inbox: vec![] })
    );
}

#[test]
fn accept_without_a_request_fails_and_changes_nothing() {
    let mut a = mailbox(0xa1, 128);
    let mut b = mailbox(0xb2, 128);
    let (before_a, before_b) = (a.data.clone(), b.data.clone());
    assert_eq!(
        accept_connection(&mut b, &mut a, vec![0x03]),
        Err(DispatchError::ConnectionNotFound)
    );
    assert_eq!(a.data, before_a);
    assert_eq!(b.data, before_b);
}

#[test]
fn accept_keeps_the_inbox_of_the_acceptor() {
    let mut a = mailbox(0xa1, 256);
    let mut b = mailbox(0xb2, 256);
    request_connection(&a, &mut b, vec![9]).unwrap();
    send_message(&a, &mut b, 5, vec![0x10]).unwrap();
    accept_connection(&mut b, &mut a, vec![8]).unwrap();
    assert_eq!(
        connection_of(&b, &a),
        Some(Connection {
            pending: false,
            cipher: vec![9],
            inbox: vec![Message { timestamp: 5, message: vec![0x10] }],
        })
    );
}

#[test]
fn accept_leaves_the_acceptor_saved_when_the_requester_cannot_be_read() {
    let a = mailbox(0xa1, 256);
    let mut b = mailbox(0xb2, 256);
    request_connection(&a, &mut b, vec![9]).unwrap();
    let mut broken = Account { key: a.key, data: vec![0; 64] };
    assert_eq!(
        accept_connection(&mut b, &mut broken, vec![8]),
        Err(DispatchError::InvalidAccountData)
    );
    assert_eq!(broken.data, vec![0; 64]);
    assert!(!connection_of(&b, &a).unwrap().pending);
}

#[test]
fn send_without_a_connection_fails_and_changes_nothing() {
    let a = mailbox(0xa1, 128);
    let mut b = mailbox(0xb2, 128);
    let before = b.data.clone();
    assert_eq!(
        send_message(&a, &mut b, 100, vec![0xaa]),
        Err(DispatchError::ConnectionNotFound)
    );
    assert_eq!(b.data, before);
}

#[test]
fn send_appends_to_the_inbox_of_the_recipient() {
    let a = mailbox(0xa1, 256);
    let mut b = mailbox(0xb2, 256);
    request_connection(&a, &mut b, vec![1]).unwrap();
    assert_eq!(send_message(&a, &mut b, 100, vec![0xaa]), Ok(()));
    assert_eq!(send_message(&a, &mut b, 50, vec![]), Ok(()));
    assert_eq!(
        connection_of(&b, &a).unwrap().inbox,
        vec![
            Message { timestamp: 100, message: vec![0xaa] },
            Message { timestamp: 50, message: vec![] },
        ]
    );
}

#[test]
fn request_twice_is_request_once() {
    let a = mailbox(0xa1, 256);
    let mut b = mailbox(0xb2, 256);
    request_connection(&a, &mut b, vec![1, 2, 3]).unwrap();
    let once = b.data.clone();
    request_connection(&a, &mut b, vec![1, 2, 3]).unwrap();
    assert_eq!(b.data, once);
}

#[test]
fn request_overwrites_what_was_there() {
    let mut a = mailbox(0xa1, 256);
    let mut b = mailbox(0xb2, 256);
    request_connection(&a, &mut b, vec![1]).unwrap();
    send_message(&a, &mut b, 1, vec![2]).unwrap();
    accept_connection(&mut b, &mut a, vec![3]).unwrap();
    request_connection(&a, &mut b, vec![4]).unwrap();
    assert_eq!(
        connection_of(&b, &a),
        Some(Connection { pending: true, cipher: vec![4], inbox: vec![] })
    );
}

#[test]
fn acceptance_survives_every_step_but_a_request() {
    let mut a = mailbox(0xa1, 512);
    let mut b = mailbox(0xb2, 512);
    let mut c = mailbox(0xc3, 512);
    request_connection(&a, &mut b, vec![1]).unwrap();
    accept_connection(&mut b, &mut a, vec![2]).unwrap();
    send_message(&a, &mut b, 10, vec![7]).unwrap();
    gc_conversation(&mut b, &a, 5).unwrap();
    gc_conversations(&mut b, 20).unwrap();
    request_connection(&c, &mut b, vec![3]).unwrap();
    accept_connection(&mut b, &mut c, vec![4]).unwrap();
    break_connection(&mut c, &mut b).unwrap();
    accept_connection(&mut b, &mut a, vec![5]).unwrap();
    assert!(!connection_of(&b, &a).unwrap().pending);
    assert!(!connection_of(&a, &b).unwrap().pending);
}

#[test]
fn break_then_request_then_accept_goes_through_pending_again() {
    let mut a = mailbox(0xa1, 256);
    let mut b = mailbox(0xb2, 256);
    request_connection(&a, &mut b, vec![1]).unwrap();
    accept_connection(&mut b, &mut a, vec![2]).unwrap();
    break_connection(&mut a, &mut b).unwrap();
    assert_eq!(connection_of(&b, &a), None);
    request_connection(&a, &mut b, vec![1]).unwrap();
    assert!(connection_of(&b, &a).unwrap().pending);
    accept_connection(&mut b, &mut a, vec![2]).unwrap();
    assert!(!connection_of(&b, &a).unwrap().pending);
}

#[test]
fn break_removes_both_sides() {
    let mut a = mailbox(0xa1, 256);
    let mut b = mailbox(0xb2, 256);
    let c = mailbox(0xc3, 256);
    request_connection(&a, &mut b, vec![1]).unwrap();
    request_connection(&c, &mut b, vec![9]).unwrap();
    accept_connection(&mut b, &mut a, vec![2]).unwrap();
    assert_eq!(break_connection(&mut a, &mut b), Ok(()));
    assert_eq!(connection_of(&a, &b), None);
    assert_eq!(connection_of(&b, &a), None);
    assert!(connection_of(&b, &c).is_some());
}

#[test]
fn break_of_nothing_is_no_error() {
    let mut a = mailbox(0xa1, 64);
    let mut b = mailbox(0xb2, 64);
    let (before_a, before_b) = (a.data.clone(), b.data.clone());
    assert_eq!(break_connection(&mut a, &mut b), Ok(()));
    assert_eq!(a.data, before_a);
    assert_eq!(b.data, before_b);
}

#[test]
fn gc_deletes_at_the_threshold_and_keeps_one_later() {
    let a = mailbox(0xa1, 256);
    let mut b = mailbox(0xb2, 256);
    request_connection(&a, &mut b, vec![]).unwrap();
    send_message(&a, &mut b, 99, vec![1]).unwrap();
    send_message(&a, &mut b, 100, vec![2]).unwrap();
    send_message(&a, &mut b, 101, vec![3]).unwrap();
    assert_eq!(gc_conversation(&mut b, &a, 100), Ok(()));
    assert_eq!(
        connection_of(&b, &a).unwrap().inbox,
        vec![Message { timestamp: 101, message: vec![3] }]
    );
}

#[test]
fn gc_keeps_the_order_of_what_stays() {
    let a = mailbox(0xa1, 256);
    let mut b = mailbox(0xb2, 256);
    request_connection(&a, &mut b, vec![]).unwrap();
    for (timestamp, byte) in [(30u64, 1u8), (5, 2), (20, 3), (10, 4), (11, 5)] {
        send_message(&a, &mut b, timestamp, vec![byte]).unwrap();
    }
    gc_conversation(&mut b, &a, 10).unwrap();
    let kept: Vec<u64> =
        connection_of(&b, &a).unwrap().inbox.iter().map(|m| m.timestamp).collect();
    assert_eq!(kept, vec![30, 20, 11]);
}

#[test]
fn gc_at_the_greatest_threshold_empties_the_inbox() {
    let a = mailbox(0xa1, 256);
    let mut b = mailbox(0xb2, 256);
    request_connection(&a, &mut b, vec![]).unwrap();
    send_message(&a, &mut b, u64::MAX, vec![1]).unwrap();
    gc_conversation(&mut b, &a, u64::MAX).unwrap();
    assert_eq!(connection_of(&b, &a).unwrap().inbox, vec![]);
}

#[test]
fn gc_conversation_without_a_connection_fails() {
    let a = mailbox(0xa1, 64);
    let mut b = mailbox(0xb2, 64);
    let before = b.data.clone();
    assert_eq!(gc_conversation(&mut b, &a, 7), Err(DispatchError::ConnectionNotFound));
    assert_eq!(b.data, before);
}

#[test]
fn gc_conversations_cuts_every_inbox_and_leaves_an_empty_one() {
    let a = mailbox(0xa1, 64);
    let c = mailbox(0xc3, 64);
    let mut holder = mailbox(0xb2, 512);
    request_connection(&a, &mut holder, vec![1]).unwrap();
    request_connection(&c, &mut holder, vec![2]).unwrap();
    send_message(&a, &mut holder, 50, vec![0x50]).unwrap();
    send_message(&a, &mut holder, 150, vec![0x51]).unwrap();
    assert_eq!(gc_conversations(&mut holder, 100), Ok(()));
    assert_eq!(
        connection_of(&holder, &a),
        Some(Connection {
            pending: true,
            cipher: vec![1],
            inbox: vec![Message { timestamp: 150, message: vec![0x51] }],
        })
    );
    assert_eq!(
        connection_of(&holder, &c),
        Some(Connection { pending: true, cipher: vec![2], inbox: vec![] })
    );
}

#[test]
fn gc_conversations_on_an_empty_record_changes_nothing() {
    let mut holder = mailbox(0xb2, 64);
    let before = holder.data.clone();
    assert_eq!(gc_conversations(&mut holder, 100), Ok(()));
    assert_eq!(holder.data, before);
}

#[test]
fn operations_on_an_unwritten_buffer_fail() {
    let a = mailbox(0xa1, 64);
    let mut blank = Account { key: Pubkey::new([0xb2; 32]), data: vec![0; 64] };
    assert_eq!(
        request_connection(&a, &mut blank, vec![1]),
        Err(DispatchError::InvalidAccountData)
    );
    assert_eq!(gc_conversations(&mut blank, 1), Err(DispatchError::InvalidAccountData));
    assert_eq!(blank.data, vec![0; 64]);
}

#[test]
fn a_record_that_outgrows_the_buffer_is_reported() {
    let a = mailbox(0xa1, 64);
    let mut b = mailbox(0xb2, 60);
    request_connection(&a, &mut b, vec![1, 2]).unwrap();
    let before = b.data.clone();
    assert_eq!(
        send_message(&a, &mut b, 1, vec![0; 16]),
        Err(DispatchError::AccountDataTooSmall)
    );
    assert_eq!(b.data, before);
}

#[test]
fn record_methods_take_the_same_steps() {
    let a = Pubkey::new([0xa1; 32]);
    let b = Pubkey::new([0xb2; 32]);
    let mut record = DispatchData::new();
    record.request(&a, vec![1]);
    assert_eq!(record.accept(&b), Err(DispatchError::ConnectionNotFound));
    assert_eq!(record.accept(&a), Ok(()));
    assert_eq!(record.deliver(&a, 3, vec![4]), Ok(()));
    assert_eq!(record.deliver(&b, 3, vec![4]), Err(DispatchError::ConnectionNotFound));
    record.acknowledge(&b, vec![2]);
    assert_eq!(record.collect(&a, 2), Ok(()));
    assert_eq!(record.connection(&a).unwrap().inbox.len(), 1);
    record.collect_all(3);
    assert_eq!(
        record.connection(&a),
        Some(&Connection { pending: false, cipher: vec![1], inbox: vec![] })
    );
    assert_eq!(
        record.connection(&b),
        Some(&Connection { pending: false, cipher: vec![2], inbox: vec![] })
    );
    record.disconnect(&a);
    assert_eq!(record.connection(&a), None);
    assert_eq!(record.connections.len(), 1);
}
