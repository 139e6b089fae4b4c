use hpack_codec::dyn_table::DynamicTable;
use hpack_codec::dyn_table::TableEntry;

fn entry(name: &str, value: &str) -> TableEntry {
    TableEntry {
        name: name.as_bytes().to_vec(),
        value: value.as_bytes().to_vec(),
    }
}

fn table_contains(table: &DynamicTable, name: &str, value: &str) -> bool {
    let mut i = 0;
    while let Some(e) = table.get(i) {
        if e.name == name.as_bytes().to_vec() && e.value == value.as_bytes().to_vec() {
            return true;
        }
        i += 1;
    }
    false
}

#[test]
fn test_dynamic_table_add() {
    let mut table = DynamicTable::new(50);

    table.add(entry("This", "Fits"));

    assert!(table_contains(&table, "This", "Fits"))
}

#[test]
fn test_dynamic_table_add_too_large() {
    let mut table = DynamicTable::new(10);

    table.add(entry("This is too large!", "Still too long"));

    assert_eq!(0, table.len());
}

#[test]
fn test_dynamic_table_add_removes_oldest() {
    let mut table = DynamicTable::new(83);

    table.add(entry("Test", "Head"));
    table.add(entry("Test", "Head2"));
    table.add(entry("Test", "Head3"));

    assert!(!table_contains(&table, "Test", "Head"));
    assert!(table_contains(&table, "Test", "Head2"));
    assert!(table_contains(&table, "Test", "Head3"));
}

#[test]
fn test_dynamic_table_add_exact_size() {
    let mut table = DynamicTable::new(81);

    table.add(entry("Test", "Head"));
    table.add(entry("Test", "Head2"));

    assert!(table_contains(&table, "Test", "Head"));
    assert!(table_contains(&table, "Test", "Head2"));
}

#[test]
fn test_dynamic_table_add_removes_oldest_to_exact_size() {
    let mut table = DynamicTable::new(82);

    table.add(entry("Test", "Head"));
    table.add(entry("Test", "Head2"));
    table.add(entry("Test", "Head3"));

    assert!(!table_contains(&table, "Test", "Head"));
    assert!(table_contains(&table, "Test", "Head2"));
    assert!(table_contains(&table, "Test", "Head3"));
}

#[test]
fn test_dynamic_table_set_size_removes_oldest() {
    let mut table = DynamicTable::new(83);

    table.add(entry("Test", "Head"));
    table.add(entry("Test", "Head2"));

    table.set_size(68);

    assert!(!table_contains(&table, "Test", "Head"));
    assert!(table_contains(&table, "Test", "Head2"));
}

#[test]
fn test_dynamic_table_set_size_zero() {
    let mut table = DynamicTable::new(83);

    table.add(entry("Test", "Head"));
    table.add(entry("Test", "Head2"));

    table.set_size(0);

    assert_eq!(0, table.len());
}

#[test]
fn test_dynamic_table_entry_size_formula() {
    let mut table = DynamicTable::new(100);

    table.add(entry("ab", "cde"));

    assert_eq!(2 + 3 + 32, table.size());
}

#[test]
fn test_dynamic_table_occupancy_within_capacity() {
    let mut table = DynamicTable::new(90);

    for value in ["one", "two", "three", "four", "five"] {
        table.add(entry("key", value));
        assert!(table.size() <= table.capacity());
    }
}

#[test]
fn test_dynamic_table_newest_first() {
    let mut table = DynamicTable::new(200);

    table.add(entry("a", "1"));
    table.add(entry("b", "2"));

    assert_eq!(b"b".to_vec(), table.get(0).unwrap().name);
    assert_eq!(b"a".to_vec(), table.get(1).unwrap().name);
}

#[test]
fn test_dynamic_table_oversized_add_empties_populated_table() {
    let mut table = DynamicTable::new(40);

    table.add(entry("a", "1"));
    assert_eq!(1, table.len());

    table.add(entry("this name alone", "is far too large for the table"));

    assert_eq!(0, table.len());
    assert_eq!(0, table.size());
}
