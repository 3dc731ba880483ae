use iguagile_engine::table::IdTable;

#[test]
fn table_keeps_rows_in_rising_order() {
    let mut table: IdTable<&'static str> = IdTable::new();
    assert_eq!(table.first_id(), None);
    assert_eq!(table.insert(9, "nine"), None);
    assert_eq!(table.insert(3, "three"), None);
    assert_eq!(table.insert(7, "seven"), None);
    assert_eq!(table.ids(), vec![3, 7, 9]);
    assert_eq!(table.first_id(), Some(3));
    assert_eq!(table.len(), 3);
    assert_eq!(table.get(7), Some(&"seven"));
    assert_eq!(table.get(8), None);
    assert!(table.contains(9));
    assert!(!table.contains(0));
}

#[test]
fn table_insert_displaces_and_remove_takes() {
    let mut table: IdTable<u32> = IdTable::new();
    assert_eq!(table.insert(1, 10), None);
    assert_eq!(table.insert(1, 11), Some(10));
    assert_eq!(table.len(), 1);
    assert_eq!(table.remove(2), None);
    assert_eq!(table.remove(1), Some(11));
    assert_eq!(table.len(), 0);
    table.insert(65535, 1);
    table.insert(0, 2);
    assert_eq!(table.ids(), vec![0, 65535]);
    table.clear();
    assert_eq!(table.len(), 0);
    assert_eq!(table.ids(), Vec::<u16>::new());
}
