use dispatch::{Connection, DispatchData, DocumentData, Pubkey};
use std::collections::BTreeMap;

type PlainConnection = (bool, Vec<u8>, Vec<(u64, Vec<u8>)>);
type PlainRecord = (BTreeMap<[u8; 32], PlainConnection>, String);
type PlainStore = BTreeMap<Vec<u8>, Vec<u8>>;

fn plain_connection(connection: &Connection) -> PlainConnection {
    let inbox = connection.inbox.iter().map(|m| (m.timestamp, m.message.clone())).collect();
    (connection.pending, connection.cipher.clone(), inbox)
}

fn plain_record(record: &DispatchData) -> PlainRecord {
    let mut connections = BTreeMap::new();
    for i in 0..record.connections.len() {
        let key = <[u8; 32]>::try_from(record.connections.key_at(i).as_slice()).unwrap();
        connections.insert(key, plain_connection(record.connections.value_at(i)));
    }
    (connections, record.name.clone())
}

fn plain_store(store: &DocumentData) -> PlainStore {
    let mut documents = BTreeMap::new();
    for i in 0..store.data.len() {
        documents.insert(store.data.key_at(i).clone(), store.data.value_at(i).clone());
    }
    documents
}

fn records() -> Vec<DispatchData> {
    let mut named = DispatchData::new();
    named.name = String::from("nobody's");
    let mut busy = DispatchData::new();
    busy.name = String::from("żółw");
    let mut bytes = [0u8; 32];
    for (i, byte) in bytes.iter_mut().enumerate() {
        *byte = (250 - 7 * i) as u8;
    }
    let (a, b, c) = (Pubkey::new([0xff; 32]), Pubkey::new([0; 32]), Pubkey::new(bytes));
    busy.request(&a, vec![1, 2, 3]);
    busy.deliver(&a, 0x0102_0304_0506_0708, vec![0xaa; 300]).unwrap();
    busy.deliver(&a, 0, vec![]).unwrap();
    busy.acknowledge(&b, vec![]);
    busy.request(&c, vec![0; 40]);
    busy.accept(&c).unwrap();
    busy.deliver(&c, u64::MAX, vec![7]).unwrap();
    vec![DispatchData::new(), named, busy]
}

fn stores() -> Vec<DocumentData> {
    let mut busy = DocumentData::new();
    busy.insert(vec![], vec![1]);
    busy.insert(vec![2, 0], vec![]);
    busy.insert(vec![2], vec![0x55; 260]);
    busy.insert(vec![0xff; 40], vec![3, 4]);
    busy.insert(b"k".to_vec(), b"v".to_vec());
    vec![DocumentData::new(), busy]
}

#[test]
fn a_record_behind_its_tag_is_what_borsh_writes() {
    for record in records() {
        let bytes = dispatch::record_format::encode(&record).unwrap();
        assert_eq!(bytes[0], dispatch::record_format::RECORD_TAG);
        assert_eq!(bytes[1..], borsh::to_vec(&plain_record(&record)).unwrap()[..]);
    }
}

#[test]
fn a_record_behind_its_tag_is_what_borsh_reads() {
    for record in records() {
        let bytes = dispatch::record_format::encode(&record).unwrap();
        let read: PlainRecord = borsh::from_slice(&bytes[1..]).unwrap();
        assert_eq!(read, plain_record(&record));
    }
}

#[test]
fn what_borsh_writes_behind_the_tag_is_read_as_the_record() {
    for record in records() {
        let mut bytes = vec![dispatch::record_format::RECORD_TAG];
        bytes.extend_from_slice(&borsh::to_vec(&plain_record(&record)).unwrap());
        bytes.extend_from_slice(&[0x5a; 3]);
        assert_eq!(dispatch::record_format::decode(&bytes), Some(record));
    }
}

#[test]
fn a_store_behind_its_tag_is_what_borsh_writes() {
    for store in stores() {
        let bytes = dispatch::documents::encode(&store).unwrap();
        assert_eq!(bytes[0], dispatch::documents::STORE_TAG);
        assert_eq!(bytes[1..], borsh::to_vec(&plain_store(&store)).unwrap()[..]);
    }
}

#[test]
fn a_store_behind_its_tag_is_what_borsh_reads() {
    for store in stores() {
        let bytes = dispatch::documents::encode(&store).unwrap();
        let read: PlainStore = borsh::from_slice(&bytes[1..]).unwrap();
        assert_eq!(read, plain_store(&store));
    }
}

#[test]
fn what_borsh_writes_behind_the_tag_is_read_as_the_store() {
    for store in stores() {
        let mut bytes = vec![dispatch::documents::STORE_TAG];
        bytes.extend_from_slice(&borsh::to_vec(&plain_store(&store)).unwrap());
        assert_eq!(dispatch::documents::decode(&bytes), Some(store));
    }
}

#[test]
fn keys_out_of_order_are_refused_as_borsh_refuses_them() {
    let mut bytes = vec![2, 0, 0, 0, 1, 0, 0, 0, 9, 0, 0, 0, 0, 1, 0, 0, 0, 8, 0, 0, 0, 0];
    assert!(borsh::from_slice::<PlainStore>(&bytes).is_err());
    bytes.insert(0, dispatch::documents::STORE_TAG);
    assert_eq!(dispatch::documents::decode(&bytes), None);
}

#[test]
fn a_flag_that_is_no_truth_value_is_refused_as_borsh_refuses_it() {
    let mut bytes = vec![1, 0, 0, 0];
    bytes.extend_from_slice(&[3; 32]);
    bytes.extend_from_slice(&[2, 0, 0, 0, 0, 0, 0, 0, 0, 0, 0, 0, 0]);
    assert!(borsh::from_slice::<PlainRecord>(&bytes).is_err());
    bytes.insert(0, dispatch::record_format::RECORD_TAG);
    assert_eq!(dispatch::record_format::decode(&bytes), None);
}
