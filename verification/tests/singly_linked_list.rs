use linked_collections::error::CollectionError;
use linked_collections::linked_list::SinglyLinkedList;

fn singly_of(values: &[i32]) -> SinglyLinkedList<i32> {
    let mut list = SinglyLinkedList::new();
    for value in values {
        list.push_back(*value);
    }
    list
}

#[test]
fn singly_starts_empty() {
    let list: SinglyLinkedList<i32> = SinglyLinkedList::new();
    assert_eq!(*list.size(), 0);
    assert_eq!(list.to_vec(), Vec::<i32>::new());
}

#[test]
fn singly_pops_on_empty_fail() {
    let mut list: SinglyLinkedList<i32> = SinglyLinkedList::new();
    assert_eq!(list.pop_begin(), Err(CollectionError::EmptyCollection));
    assert_eq!(list.pop_back(), Err(CollectionError::EmptyCollection));
    assert_eq!(*list.size(), 0);
}

#[test]
fn singly_get_and_erase_on_empty_fail() {
    let mut list: SinglyLinkedList<i32> = SinglyLinkedList::new();
    assert_eq!(list.get(0), Err(CollectionError::IndexOutOfRange));
    assert_eq!(list.erase(0), Err(CollectionError::IndexOutOfRange));
}

#[test]
fn singly_get_behind_the_end_fails() {
    let list = singly_of(&[1, 2, 3]);
    assert_eq!(list.get(5), Err(CollectionError::IndexOutOfRange));
    assert_eq!(list.get(3), Err(CollectionError::IndexOutOfRange));
    assert_eq!(list.get(2), Ok(3));
}

#[test]
fn singly_push_begin_puts_first() {
    let mut list = SinglyLinkedList::new();
    list.push_begin(1);
    list.push_begin(2);
    list.push_begin(3);
    assert_eq!(*list.size(), 3);
    assert_eq!(list.to_vec(), vec![3, 2, 1]);
}

#[test]
fn singly_push_back_puts_last_and_counts() {
    let mut list = SinglyLinkedList::new();
    list.push_back(1);
    assert_eq!(*list.size(), 1);
    list.push_back(2);
    assert_eq!(*list.size(), 2);
    list.push_back(3);
    assert_eq!(*list.size(), 3);
    assert_eq!(list.to_vec(), vec![1, 2, 3]);
}

#[test]
fn singly_insert_at_front_is_read_at_front() {
    let mut list = singly_of(&[1, 2, 3]);
    list.insert(9, 0);
    assert_eq!(list.get(0), Ok(9));
    assert_eq!(list.to_vec(), vec![9, 1, 2, 3]);
    assert_eq!(*list.size(), 4);
}

#[test]
fn singly_insert_at_size_is_read_at_end() {
    let mut list = singly_of(&[1, 2, 3]);
    let size = *list.size();
    list.insert(9, size);
    assert_eq!(list.get(*list.size() - 1), Ok(9));
    assert_eq!(list.to_vec(), vec![1, 2, 3, 9]);
}

#[test]
fn singly_insert_in_the_middle() {
    let mut list = singly_of(&[1, 2, 3]);
    list.insert(9, 1);
    assert_eq!(list.to_vec(), vec![1, 9, 2, 3]);
    list.insert(8, 3);
    assert_eq!(list.to_vec(), vec![1, 9, 2, 8, 3]);
    assert_eq!(*list.size(), 5);
}

#[test]
fn singly_insert_far_behind_the_end_appends() {
    let mut list = singly_of(&[1, 2]);
    list.insert(9, 100);
    assert_eq!(list.to_vec(), vec![1, 2, 9]);
    list.insert(7, usize::MAX);
    assert_eq!(list.to_vec(), vec![1, 2, 9, 7]);
    assert_eq!(*list.size(), 4);
}

#[test]
fn singly_insert_into_empty() {
    let mut list = SinglyLinkedList::new();
    list.insert(5, 3);
    assert_eq!(list.to_vec(), vec![5]);
    assert_eq!(*list.size(), 1);
}

#[test]
fn singly_pop_begin_takes_first() {
    let mut list = singly_of(&[1, 2, 3]);
    assert_eq!(list.pop_begin(), Ok(()));
    assert_eq!(list.to_vec(), vec![2, 3]);
    assert_eq!(list.pop_begin(), Ok(()));
    assert_eq!(list.pop_begin(), Ok(()));
    assert_eq!(*list.size(), 0);
    assert_eq!(list.pop_begin(), Err(CollectionError::EmptyCollection));
}

#[test]
fn singly_pop_back_takes_last() {
    let mut list = singly_of(&[1, 2, 3]);
    assert_eq!(list.pop_back(), Ok(()));
    assert_eq!(list.to_vec(), vec![1, 2]);
    assert_eq!(list.pop_back(), Ok(()));
    assert_eq!(list.to_vec(), vec![1]);
    assert_eq!(list.pop_back(), Ok(()));
    assert_eq!(*list.size(), 0);
    assert_eq!(list.pop_back(), Err(CollectionError::EmptyCollection));
    list.push_back(4);
    assert_eq!(list.to_vec(), vec![4]);
}

#[test]
fn singly_erase_then_get_reads_the_next_value() {
    let mut list = singly_of(&[10, 20, 30, 40]);
    assert_eq!(list.erase(1), Ok(()));
    assert_eq!(list.get(1), Ok(30));
    assert_eq!(list.get(2), Ok(40));
    assert_eq!(*list.size(), 3);
}

#[test]
fn singly_erase_behind_the_end_fails() {
    let mut list = singly_of(&[1, 2, 3]);
    assert_eq!(list.erase(3), Err(CollectionError::IndexOutOfRange));
    assert_eq!(list.erase(usize::MAX), Err(CollectionError::IndexOutOfRange));
    assert_eq!(list.to_vec(), vec![1, 2, 3]);
    assert_eq!(*list.size(), 3);
}

#[test]
fn singly_erase_on_one_value() {
    let mut list = singly_of(&[1]);
    assert_eq!(list.erase(1), Err(CollectionError::IndexOutOfRange));
    assert_eq!(list.erase(0), Ok(()));
    assert_eq!(*list.size(), 0);
    assert_eq!(list.erase(0), Err(CollectionError::IndexOutOfRange));
}

#[test]
fn singly_erase_on_two_values() {
    let mut list = singly_of(&[1, 2]);
    assert_eq!(list.erase(1), Ok(()));
    assert_eq!(list.to_vec(), vec![1]);

    let mut list = singly_of(&[1, 2]);
    assert_eq!(list.erase(0), Ok(()));
    assert_eq!(list.to_vec(), vec![2]);
}

#[test]
fn singly_erase_on_three_values() {
    let mut list = singly_of(&[1, 2, 3]);
    assert_eq!(list.erase(2), Ok(()));
    assert_eq!(list.to_vec(), vec![1, 2]);

    let mut list = singly_of(&[1, 2, 3]);
    assert_eq!(list.erase(1), Ok(()));
    assert_eq!(list.to_vec(), vec![1, 3]);

    let mut list = singly_of(&[1, 2, 3]);
    assert_eq!(list.erase(0), Ok(()));
    assert_eq!(list.to_vec(), vec![2, 3]);
}

#[test]
fn singly_size_follows_every_operation() {
    let mut list = SinglyLinkedList::new();
    list.push_back(1);
    list.push_begin(0);
    list.insert(5, 1);
    list.insert(6, 50);
    assert_eq!(*list.size(), list.to_vec().len());
    assert_eq!(list.erase(2), Ok(()));
    assert_eq!(*list.size(), list.to_vec().len());
    assert_eq!(list.pop_back(), Ok(()));
    assert_eq!(list.pop_begin(), Ok(()));
    assert_eq!(*list.size(), list.to_vec().len());
    assert_eq!(list.to_vec(), vec![5]);
    assert_eq!(*list.size(), 1);
}

#[test]
fn singly_takes_nodes_again_after_erasing() {
    let mut list = singly_of(&[1, 2, 3, 4]);
    assert_eq!(list.erase(1), Ok(()));
    assert_eq!(list.erase(1), Ok(()));
    list.insert(7, 1);
    list.push_back(8);
    list.push_begin(9);
    assert_eq!(list.to_vec(), vec![9, 1, 7, 4, 8]);
    assert_eq!(*list.size(), 5);
}

#[test]
fn singly_get_copies_the_value() {
    let mut list = SinglyLinkedList::new();
    list.push_back(String::from("a"));
    list.push_back(String::from("b"));
    let mut copy = list.get(1).unwrap();
    copy.push('!');
    assert_eq!(copy, "b!");
    assert_eq!(list.get(1), Ok(String::from("b")));
    assert_eq!(list.to_vec(), vec![String::from("a"), String::from("b")]);
}
