use dispatch::documents::{
    clear, decode, delete, encode, load_data, put, put_pair, save_data,
};
use dispatch::{Account, DispatchData, DispatchError, DocumentData, Pubkey};

fn shelf(size: usize) -> Account {
    let mut account = Account { key: Pubkey::new([0x44; 32]), data: vec![0; size] };
    save_data(&mut account, DocumentData::new()).unwrap();
    account
}

#[test]
fn put_then_delete_then_clear_ends_empty() {
    let mut account = shelf(64);
    assert_eq!(put(&mut account, b"k".to_vec(), b"v".to_vec()), Ok(()));
    assert_eq!(load_data(&account).unwrap().get(b"k"), Some(&b"v".to_vec()));
    assert_eq!(delete(&mut account, b"k".to_vec()), Ok(()));
    assert_eq!(clear(&mut account), Ok(()));
    assert_eq!(load_data(&account), Ok(DocumentData::new()));
    assert_eq!(&account.data[..5], &[2, 0, 0, 0, 0]);
}

#[test]
fn clear_empties_whatever_delete_left() {
    let mut account = shelf(64);
    put(&mut account, b"k".to_vec(), b"v".to_vec()).unwrap();
    put(&mut account, b"l".to_vec(), b"w".to_vec()).unwrap();
    delete(&mut account, b"absent".to_vec()).unwrap();
    assert_eq!(load_data(&account).unwrap().data.len(), 2);
    clear(&mut account).unwrap();
    assert_eq!(load_data(&account).unwrap().data.len(), 0);
}

#[test]
fn put_overwrites() {
    let mut account = shelf(64);
    put(&mut account, vec![1], vec![10]).unwrap();
    put(&mut account, vec![1], vec![11, 12]).unwrap();
    let store = load_data(&account).unwrap();
    assert_eq!(store.data.len(), 1);
    assert_eq!(store.get(&[1]), Some(&vec![11, 12]));
}

#[test]
fn put_pair_is_put() {
    let mut one = shelf(64);
    let mut other = shelf(64);
    put_pair(&mut one, (vec![1, 2], vec![3])).unwrap();
    put(&mut other, vec![1, 2], vec![3]).unwrap();
    assert_eq!(one.data, other.data);
    assert_eq!(load_data(&one).unwrap().get(&[1, 2]), Some(&vec![3]));
}

#[test]
fn delete_of_an_absent_key_changes_nothing() {
    let mut account = shelf(64);
    put(&mut account, vec![1], vec![10]).unwrap();
    let before = account.data.clone();
    assert_eq!(delete(&mut account, vec![2]), Ok(()));
    assert_eq!(account.data, before);
}

#[test]
fn delete_removes_the_key_only() {
    let mut account = shelf(64);
    put(&mut account, vec![1], vec![10]).unwrap();
    put(&mut account, vec![2], vec![20]).unwrap();
    delete(&mut account, vec![1]).unwrap();
    let store = load_data(&account).unwrap();
    assert_eq!(store.get(&[1]), None);
    assert_eq!(store.get(&[2]), Some(&vec![20]));
}

#[test]
fn store_is_written_key_by_key() {
    let mut store = DocumentData::new();
    store.insert(b"k2".to_vec(), vec![]);
    store.insert(b"k".to_vec(), b"v".to_vec());
    assert_eq!(
        encode(&store),
        Some(vec![
            2, 2, 0, 0, 0, 1, 0, 0, 0, b'k', 1, 0, 0, 0, b'v', 2, 0, 0, 0, b'k', b'2', 0, 0, 0, 0
        ])
    );
}

#[test]
fn store_written_is_read_back() {
    let mut store = DocumentData::new();
    store.insert(vec![], vec![0; 40]);
    store.insert(vec![0xff; 3], vec![]);
    store.insert(vec![7], vec![1, 2, 3]);
    let mut bytes = encode(&store).unwrap();
    bytes.extend_from_slice(&[0x99; 7]);
    assert_eq!(decode(&bytes), Some(store));
}

#[test]
fn store_methods_change_the_map() {
    let mut store = DocumentData::new();
    store.insert(vec![1], vec![1]);
    store.insert(vec![2], vec![2]);
    store.remove(&[1]);
    assert_eq!(store.get(&[1]), None);
    assert_eq!(store.get(&[2]), Some(&vec![2]));
    store.clear();
    assert_eq!(store, DocumentData::new());
}

#[test]
fn a_store_is_no_messaging_record_and_the_other_way_round() {
    let mut account = shelf(64);
    put(&mut account, vec![1], vec![2]).unwrap();
    assert_eq!(
        dispatch::messaging::load_data(&account),
        Err(DispatchError::InvalidAccountData)
    );
    let mut mailbox = Account { key: Pubkey::new([1; 32]), data: vec![0; 64] };
    dispatch::messaging::save_data(&mut mailbox, DispatchData::new()).unwrap();
    assert_eq!(load_data(&mailbox), Err(DispatchError::InvalidAccountData));
    assert_eq!(
        put(&mut mailbox, vec![1], vec![2]),
        Err(DispatchError::InvalidAccountData)
    );
}

#[test]
fn a_blank_buffer_is_no_store() {
    let mut blank = Account { key: Pubkey::new([1; 32]), data: vec![0; 32] };
    assert_eq!(load_data(&blank), Err(DispatchError::InvalidAccountData));
    assert_eq!(clear(&mut blank), Err(DispatchError::InvalidAccountData));
    assert_eq!(blank.data, vec![0; 32]);
}

#[test]
fn a_store_that_outgrows_the_buffer_is_reported() {
    let mut account = shelf(16);
    let before = account.data.clone();
    assert_eq!(
        put(&mut account, vec![1; 4], vec![2; 4]),
        Err(DispatchError::AccountDataTooSmall)
    );
    assert_eq!(account.data, before);
    assert_eq!(put(&mut account, vec![1; 2], vec![2; 1]), Ok(()));
}

#[test]
fn store_with_keys_out_of_order_is_refused() {
    let good = [2, 2, 0, 0, 0, 1, 0, 0, 0, 1, 0, 0, 0, 0, 1, 0, 0, 0, 2, 0, 0, 0, 0];
    assert!(decode(&good).is_some());
    let mut bad = good;
    bad[9] = 2;
    assert_eq!(decode(&bad), None);
    bad[9] = 3;
    assert_eq!(decode(&bad), None);
}
