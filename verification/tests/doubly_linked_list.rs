use linked_collections::error::CollectionError;
use linked_collections::linked_list::DoublyLinkedList;

fn doubly_of(values: &[i32]) -> DoublyLinkedList<i32> {
    let mut list = DoublyLinkedList::new();
    for value in values {
        list.push_back(*value);
    }
    list
}

fn read_all(list: &DoublyLinkedList<i32>) -> Vec<i32> {
    let mut values = Vec::new();
    for index in 0..*list.size() {
        values.push(list.get(index).unwrap());
    }
    values
}

#[test]
fn doubly_starts_empty() {
    let list: DoublyLinkedList<i32> = DoublyLinkedList::new();
    assert_eq!(*list.size(), 0);
}

#[test]
fn doubly_push_back_get_and_erase() {
    let mut list = DoublyLinkedList::new();
    list.push_back(1);
    list.push_back(2);
    list.push_back(3);
    assert_eq!(*list.size(), 3);
    assert_eq!(list.get(0), Ok(1));
    assert_eq!(list.get(2), Ok(3));
    assert_eq!(list.erase(1), Ok(()));
    assert_eq!(*list.size(), 2);
    assert_eq!(list.get(0), Ok(1));
    assert_eq!(list.get(1), Ok(3));
}

#[test]
fn doubly_pops_on_empty_fail() {
    let mut list: DoublyLinkedList<i32> = DoublyLinkedList::new();
    assert_eq!(list.pop_begin(), Err(CollectionError::EmptyCollection));
    assert_eq!(list.pop_back(), Err(CollectionError::EmptyCollection));
    assert_eq!(*list.size(), 0);
}

#[test]
fn doubly_get_and_erase_on_empty_fail() {
    let mut list: DoublyLinkedList<i32> = DoublyLinkedList::new();
    assert_eq!(list.get(0), Err(CollectionError::IndexOutOfRange));
    assert_eq!(list.erase(0), Err(CollectionError::IndexOutOfRange));
}

#[test]
fn doubly_get_behind_the_end_fails() {
    let list = doubly_of(&[1, 2, 3]);
    assert_eq!(list.get(5), Err(CollectionError::IndexOutOfRange));
    assert_eq!(list.get(3), Err(CollectionError::IndexOutOfRange));
}

#[test]
fn doubly_push_begin_puts_first() {
    let mut list = DoublyLinkedList::new();
    list.push_begin(1);
    list.push_begin(2);
    list.push_begin(3);
    assert_eq!(read_all(&list), vec![3, 2, 1]);
    list.push_back(0);
    assert_eq!(read_all(&list), vec![3, 2, 1, 0]);
    assert_eq!(*list.size(), 4);
}

#[test]
fn doubly_insert_at_front_is_read_at_front() {
    let mut list = doubly_of(&[1, 2, 3]);
    list.insert(9, 0);
    assert_eq!(list.get(0), Ok(9));
    assert_eq!(read_all(&list), vec![9, 1, 2, 3]);
}

#[test]
fn doubly_insert_at_size_is_read_at_end() {
    let mut list = doubly_of(&[1, 2, 3]);
    let size = *list.size();
    list.insert(9, size);
    assert_eq!(list.get(*list.size() - 1), Ok(9));
    assert_eq!(read_all(&list), vec![1, 2, 3, 9]);
}

#[test]
fn doubly_insert_in_the_middle() {
    let mut list = doubly_of(&[1, 2, 3]);
    list.insert(9, 1);
    assert_eq!(read_all(&list), vec![1, 9, 2, 3]);
    list.insert(8, 3);
    assert_eq!(read_all(&list), vec![1, 9, 2, 8, 3]);
    assert_eq!(*list.size(), 5);
}

#[test]
fn doubly_insert_far_behind_the_end_appends() {
    let mut list = doubly_of(&[1, 2]);
    list.insert(9, 100);
    assert_eq!(read_all(&list), vec![1, 2, 9]);
    list.insert(7, usize::MAX);
    assert_eq!(read_all(&list), vec![1, 2, 9, 7]);
    list.push_back(6);
    assert_eq!(read_all(&list), vec![1, 2, 9, 7, 6]);
}

#[test]
fn doubly_insert_into_empty() {
    let mut list = DoublyLinkedList::new();
    list.insert(5, 3);
    assert_eq!(read_all(&list), vec![5]);
    assert_eq!(list.pop_back(), Ok(()));
    assert_eq!(*list.size(), 0);
}

#[test]
fn doubly_pop_begin_takes_first() {
    let mut list = doubly_of(&[1, 2, 3]);
    assert_eq!(list.pop_begin(), Ok(()));
    assert_eq!(read_all(&list), vec![2, 3]);
    assert_eq!(list.pop_begin(), Ok(()));
    assert_eq!(list.pop_begin(), Ok(()));
    assert_eq!(list.pop_begin(), Err(CollectionError::EmptyCollection));
    list.push_back(4);
    list.push_begin(5);
    assert_eq!(read_all(&list), vec![5, 4]);
}

#[test]
fn doubly_pop_back_takes_last() {
    let mut list = doubly_of(&[1, 2, 3]);
    assert_eq!(list.pop_back(), Ok(()));
    assert_eq!(read_all(&list), vec![1, 2]);
    list.push_back(7);
    assert_eq!(read_all(&list), vec![1, 2, 7]);
    assert_eq!(list.pop_back(), Ok(()));
    assert_eq!(list.pop_back(), Ok(()));
    assert_eq!(list.pop_back(), Ok(()));
    assert_eq!(list.pop_back(), Err(CollectionError::EmptyCollection));
    assert_eq!(*list.size(), 0);
}

#[test]
fn doubly_erase_then_get_reads_the_next_value() {
    let mut list = doubly_of(&[10, 20, 30, 40]);
    assert_eq!(list.erase(1), Ok(()));
    assert_eq!(list.get(1), Ok(30));
    assert_eq!(list.get(2), Ok(40));
    assert_eq!(*list.size(), 3);
}

#[test]
fn doubly_erase_behind_the_end_fails() {
    let mut list = doubly_of(&[1, 2, 3]);
    assert_eq!(list.erase(3), Err(CollectionError::IndexOutOfRange));
    assert_eq!(read_all(&list), vec![1, 2, 3]);
}

#[test]
fn doubly_erase_on_one_value() {
    let mut list = doubly_of(&[1]);
    assert_eq!(list.erase(1), Err(CollectionError::IndexOutOfRange));
    assert_eq!(list.erase(0), Ok(()));
    assert_eq!(*list.size(), 0);
    list.push_back(2);
    assert_eq!(read_all(&list), vec![2]);
}

#[test]
fn doubly_erase_on_two_values() {
    let mut list = doubly_of(&[1, 2]);
    assert_eq!(list.erase(1), Ok(()));
    assert_eq!(read_all(&list), vec![1]);
    list.push_back(3);
    assert_eq!(read_all(&list), vec![1, 3]);

    let mut list = doubly_of(&[1, 2]);
    assert_eq!(list.erase(0), Ok(()));
    assert_eq!(read_all(&list), vec![2]);
    list.push_begin(0);
    assert_eq!(read_all(&list), vec![0, 2]);
}

#[test]
fn doubly_erase_on_three_values() {
    let mut list = doubly_of(&[1, 2, 3]);
    assert_eq!(list.erase(2), Ok(()));
    assert_eq!(read_all(&list), vec![1, 2]);
    list.push_back(4);
    assert_eq!(read_all(&list), vec![1, 2, 4]);

    let mut list = doubly_of(&[1, 2, 3]);
    assert_eq!(list.erase(1), Ok(()));
    assert_eq!(read_all(&list), vec![1, 3]);
    assert_eq!(list.pop_back(), Ok(()));
    assert_eq!(read_all(&list), vec![1]);

    let mut list = doubly_of(&[1, 2, 3]);
    assert_eq!(list.erase(0), Ok(()));
    assert_eq!(read_all(&list), vec![2, 3]);
}

#[test]
fn doubly_back_links_survive_splices() {
    let mut list = doubly_of(&[1, 2, 3, 4, 5]);
    list.insert(9, 2);
    assert_eq!(list.erase(4), Ok(()));
    let mut backward = Vec::new();
    while *list.size() > 0 {
        backward.push(list.get(*list.size() - 1).unwrap());
        assert_eq!(list.pop_back(), Ok(()));
    }
    assert_eq!(backward, vec![5, 3, 9, 2, 1]);
}

#[test]
fn doubly_size_follows_every_operation() {
    let mut list = DoublyLinkedList::new();
    list.push_back(1);
    list.push_begin(0);
    list.insert(5, 1);
    list.insert(6, 50);
    assert_eq!(*list.size(), 4);
    assert_eq!(list.erase(2), Ok(()));
    assert_eq!(*list.size(), 3);
    assert_eq!(list.pop_back(), Ok(()));
    assert_eq!(list.pop_begin(), Ok(()));
    assert_eq!(*list.size(), 1);
    assert_eq!(read_all(&list), vec![5]);
}

#[test]
fn doubly_get_copies_the_value() {
    let mut list = DoublyLinkedList::new();
    list.push_back(String::from("a"));
    list.push_back(String::from("b"));
    let mut copy = list.get(0).unwrap();
    copy.push('!');
    assert_eq!(copy, "a!");
    assert_eq!(list.get(0), Ok(String::from("a")));
}
