use redbook::ranking::{arrange, ranks_no_later};
use redbook::table::Table;

#[test]
fn a_table_keeps_the_last_value_of_each_key() {
    let mut table: Table<u32> = Table::new();
    assert!(table.is_empty());
    assert_eq!(table.insert("b".to_string(), 1), None);
    assert_eq!(table.insert("a".to_string(), 2), None);
    assert_eq!(table.insert("é".to_string(), 3), None);
    assert_eq!(table.insert("b".to_string(), 4), Some(1));
    assert_eq!(table.len(), 3);
    assert_eq!(table.get("b"), Some(&4));
    assert_eq!(table.get("c"), None);
    assert!(table.contains("é"));
    assert_eq!(table.keys(), vec!["a".to_string(), "b".to_string(), "é".to_string()]);
}

#[test]
fn what_is_removed_is_gone() {
    let mut table: Table<u32> = Table::new();
    table.insert("x".to_string(), 1);
    table.insert("y".to_string(), 2);
    assert_eq!(table.remove("x"), Some(1));
    assert_eq!(table.remove("x"), None);
    assert!(!table.contains("x"));
    assert_eq!(table.keys(), vec!["y".to_string()]);
    assert_eq!(table.remove("y"), Some(2));
    assert!(table.is_empty());
}

#[test]
fn sorting_goes_by_rank_and_keeps_ties() {
    let sorted = arrange(vec![
        ((1, 0, 0, 0), 'a'),
        ((0, 2, 0, 0), 'b'),
        ((0, 1, 9, 9), 'c'),
        ((1, 0, 0, 0), 'd'),
        ((0, 2, 0, 0), 'e'),
    ]);
    assert_eq!(sorted, vec!['c', 'b', 'e', 'a', 'd']);
}

#[test]
fn ranks_compare_from_the_first_number_on() {
    assert!(ranks_no_later((0, 9, 9, 9), (1, 0, 0, 0)));
    assert!(ranks_no_later((0, 0, 1, 5), (0, 0, 1, 5)));
    assert!(!ranks_no_later((0, 0, 2, 0), (0, 0, 1, 5)));
    assert!(!ranks_no_later((0, 0, 1, 6), (0, 0, 1, 5)));
}
