use rust_study::double_list::MyLinkedList as DoubleList;
use rust_study::single_list::MyLinkedList as SingleList;

#[test]
fn single_list_walkthrough() {
    let mut list = SingleList::new();
    assert_eq!(list.get(0), None);
    assert!(list.values().is_empty());
    list.add_at_head(55);
    assert_eq!(list.get(0), Some(55));
    list.add_at_head(66);
    assert_eq!(list.get(0), Some(66));
    assert_eq!(list.get(1), Some(55));
    list.add_at_tail(99);
    assert_eq!(list.get(2), Some(99));
    assert_eq!(list.values(), vec![66, 55, 99]);
    list.add_at_index(1, 77);
    assert_eq!(list.values(), vec![66, 77, 55, 99]);
    list.delete_at_index(0);
    assert_eq!(list.values(), vec![77, 55, 99]);
    list.delete_at_index(1);
    assert_eq!(list.values(), vec![77, 99]);
}

#[test]
fn single_list_out_of_range() {
    let mut list = SingleList::new();
    list.add_at_tail(1);
    list.add_at_tail(2);
    assert_eq!(list.get(-1), None);
    assert_eq!(list.get(2), None);
    list.add_at_index(5, 9);
    list.add_at_index(-1, 9);
    assert_eq!(list.values(), vec![1, 2]);
    list.add_at_index(2, 3);
    assert_eq!(list.values(), vec![1, 2, 3]);
    list.delete_at_index(3);
    assert_eq!(list.values(), vec![1, 2, 3]);
    list.delete_at_index(2);
    assert_eq!(list.values(), vec![1, 2]);
}

#[test]
fn double_list_walkthrough() {
    let mut list = DoubleList::new();
    list.add_at_head(11);
    assert_eq!(list.get(0), Some(11));
    assert_eq!(list.pop_at_tail(), Some(11));
    assert!(list.values().is_empty());
    list.add_at_head(12);
    list.add_at_head(13);
    assert_eq!(list.values(), vec![13, 12]);
    assert_eq!(list.pop_at_tail(), Some(12));
    assert_eq!(list.values(), vec![13]);

    let mut list = DoubleList::new();
    list.add_at_head(11);
    assert_eq!(list.pop_at_head(), Some(11));
    assert_eq!(list.pop_at_head(), None);
    list.add_at_head(12);
    list.add_at_head(13);
    assert_eq!(list.pop_at_head(), Some(13));
    assert_eq!(list.values(), vec![12]);

    let mut list = DoubleList::new();
    list.add_at_tail(11);
    assert_eq!(list.get(0), Some(11));
    list.add_at_tail(12);
    list.add_at_tail(13);
    list.add_at_index(1, 14);
    assert_eq!(list.values(), vec![11, 14, 12, 13]);
    list.add_at_index(0, 15);
    assert_eq!(list.values(), vec![15, 11, 14, 12, 13]);
    list.add_at_index(5, 16);
    assert_eq!(list.values(), vec![15, 11, 14, 12, 13, 16]);
    assert_eq!(list.delete_at_index(0), Some(15));
    assert_eq!(list.values(), vec![11, 14, 12, 13, 16]);
    assert_eq!(list.delete_at_index(4), Some(16));
    assert_eq!(list.values(), vec![11, 14, 12, 13]);
    assert_eq!(list.delete_at_index(2), Some(12));
    assert_eq!(list.values(), vec![11, 14, 13]);
    assert_eq!(list.values_from_tail(), vec![11, 14, 13]);
}

#[test]
fn double_list_out_of_range_and_relinking() {
    let mut list = DoubleList::new();
    assert_eq!(list.get(0), None);
    assert_eq!(list.delete_at_index(0), None);
    assert_eq!(list.delete_at_index(-1), None);
    assert_eq!(list.pop_at_tail(), None);
    for i in 0..6 {
        list.add_at_tail(i);
    }
    assert_eq!(list.delete_at_index(6), None);
    assert_eq!(list.delete_at_index(-3), None);
    assert_eq!(list.get(-1), None);
    assert_eq!(list.get(6), None);
    // removing from the middle moves the last arena slot; the links must follow
    assert_eq!(list.delete_at_index(1), Some(1));
    assert_eq!(list.delete_at_index(3), Some(4));
    list.add_at_index(2, 7);
    assert_eq!(list.values(), vec![0, 2, 7, 3, 5]);
    assert_eq!(list.values_from_tail(), vec![0, 2, 7, 3, 5]);
    assert_eq!(list.pop_at_head(), Some(0));
    assert_eq!(list.pop_at_tail(), Some(5));
    assert_eq!(list.values(), vec![2, 7, 3]);
    assert_eq!(list.values_from_tail(), vec![2, 7, 3]);
    assert_eq!(list.get(1), Some(7));
}

#[test]
fn lists_hold_strings() {
    let mut list = DoubleList::new();
    list.add_at_tail(String::from("b"));
    list.add_at_head(String::from("a"));
    assert_eq!(list.get(1), Some(String::from("b")));
    assert_eq!(list.delete_at_index(0), Some(String::from("a")));
    let mut single = SingleList::new();
    single.add_at_tail(String::from("x"));
    assert_eq!(single.values(), vec![String::from("x")]);
}
