use dispatch::table::{compare, Rank, Table};

#[test]
fn compare_orders_byte_strings_like_a_dictionary() {
    assert_eq!(compare(&[], &[]), Rank::Same);
    assert_eq!(compare(&[], &[0]), Rank::Before);
    assert_eq!(compare(&[0], &[]), Rank::After);
    assert_eq!(compare(&[1, 2], &[1, 3]), Rank::Before);
    assert_eq!(compare(&[1, 2], &[1, 2, 0]), Rank::Before);
    assert_eq!(compare(&[2], &[1, 9, 9]), Rank::After);
    assert_eq!(compare(&[1, 2, 3], &[1, 2, 3]), Rank::Same);
}

#[test]
fn table_keeps_its_rows_in_the_order_of_the_keys() {
    let mut table: Table<u32> = Table::new();
    assert_eq!(table.insert(vec![5], 50), None);
    assert_eq!(table.insert(vec![1], 10), None);
    assert_eq!(table.insert(vec![3], 30), None);
    assert_eq!(table.insert(vec![1, 0], 100), None);
    assert_eq!(table.len(), 4);
    assert_eq!(table.key_at(0), &vec![1]);
    assert_eq!(table.key_at(1), &vec![1, 0]);
    assert_eq!(table.key_at(2), &vec![3]);
    assert_eq!(table.key_at(3), &vec![5]);
    assert_eq!(*table.value_at(1), 100);
    assert_eq!(table.position(&[3]), Some(2));
    assert_eq!(table.position(&[4]), None);
}

#[test]
fn table_insert_replaces_and_hands_back_the_old_value() {
    let mut table: Table<u32> = Table::new();
    assert_eq!(table.insert(vec![7], 1), None);
    assert_eq!(table.insert(vec![7], 2), Some(1));
    assert_eq!(table.len(), 1);
    assert_eq!(table.get(&[7]), Some(&2));
}

#[test]
fn table_remove_hands_back_what_was_there() {
    let mut table: Table<u32> = Table::new();
    table.insert(vec![1], 10);
    table.insert(vec![2], 20);
    assert_eq!(table.remove(&[3]), None);
    assert_eq!(table.remove(&[1]), Some(10));
    assert!(!table.contains_key(&[1]));
    assert!(table.contains_key(&[2]));
    assert_eq!(table.len(), 1);
}

#[test]
fn table_append_refuses_a_key_out_of_order() {
    let mut table: Table<u32> = Table::new();
    assert!(table.append(vec![2], 20));
    assert!(table.append(vec![2, 0], 21));
    assert!(!table.append(vec![2, 0], 22));
    assert!(!table.append(vec![1], 10));
    assert_eq!(table.len(), 2);
    assert_eq!(table.get(&[2, 0]), Some(&21));
}

#[test]
fn table_value_can_be_changed_in_place() {
    let mut table: Table<u32> = Table::new();
    table.insert(vec![1], 10);
    table.insert(vec![2], 20);
    *table.value_at_mut(1) += 5;
    assert_eq!(table.get(&[2]), Some(&25));
    assert_eq!(table.get(&[1]), Some(&10));
}

#[test]
fn table_clear_empties_it() {
    let mut table: Table<u32> = Table::new();
    table.insert(vec![1], 10);
    table.clear();
    assert_eq!(table.len(), 0);
    assert_eq!(table.get(&[1]), None);
}
