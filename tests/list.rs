use dsa_abc::singly_linked_list::SinglyLinkedList;

fn contents(list: &SinglyLinkedList<i32>) -> Vec<i32> {
    let mut out = Vec::new();
    for i in 0..list.size {
        out.push(*list.get(i).unwrap());
    }
    out
}

#[test]
fn find_first() {
    let list = SinglyLinkedList::new(10);
    assert_eq!(list.get_first(), Some(&10));
    assert_eq!(list.get_last(), Some(&10));
    assert_eq!(list.size, 1);
}

#[test]
fn find_inserted() {
    let mut list = SinglyLinkedList::new(10);
    list.insert(1);
    assert_eq!(list.get_first(), Some(&1));
    assert_eq!(list.get_last(), Some(&10));
    assert_eq!(list.size, 2);
}

#[test]
fn find_last() {
    let mut list = SinglyLinkedList::new(10);
    list.push(20);
    assert_eq!(list.get_first(), Some(&10));
    assert_eq!(list.get_last(), Some(&20));
    assert_eq!(list.size, 2)
}

#[test]
fn find_at() {
    let mut list = SinglyLinkedList::new(10);
    list.push(20);
    list.push(30);
    list.push(40);
    assert_eq!(list.get(0), Some(&10));
    assert_eq!(list.get(1), Some(&20));
    assert_eq!(list.get(2), Some(&30));
    assert_eq!(list.get(3), Some(&40));
}

#[test]
fn find_removed() {
    let mut list = SinglyLinkedList::new(10);
    list.push(20);
    list.push(30);
    list.push(40);
    list.push(50);

    list.remove_first();
    assert_eq!(list.get_first(), Some(&20));
    assert_eq!(list.get(1), Some(&30));
    assert_eq!(list.size, 4);

    list.pop();
    assert_eq!(list.get_last(), Some(&40));
    assert_eq!(list.get(list.size - 2), Some(&30));
    assert_eq!(list.size, 3);

    list.remove_at(1);
    assert_eq!(list.get_first(), Some(&20));
    assert_eq!(list.get_last(), Some(&40));
    assert_eq!(list.get(1), Some(&40));
    assert_eq!(list.size, 2);

    list.remove_data(20);
    assert_eq!(list.get_first(), Some(&40));
    assert_eq!(list.get_last(), Some(&40));
    assert_eq!(list.size, 1);

    list.remove_first();
    assert_eq!(list.get_first(), None);
    assert_eq!(list.get_last(), None);
    assert_eq!(list.size, 0);
}

#[test]
fn find_first_empty_list() {
    let mut list = SinglyLinkedList::<i32>::new_empty();
    assert_eq!(list.size, 0);
    assert_eq!(list.get_first(), None);
    assert_eq!(list.get_last(), None);

    list.push(10);
    assert_eq!(list.size, 1);
    assert_eq!(list.get_first(), Some(&10));
    assert_eq!(list.get_last(), Some(&10));

    list.remove_first();

    list.insert(20);
    assert_eq!(list.get_first(), Some(&20));
    assert_eq!(list.get_last(), Some(&20));
    assert_eq!(list.size, 1);
}

#[test]
fn boundary_scenario_from_empty() {
    let mut list = SinglyLinkedList::new_empty();
    list.push(10);
    list.push(20);
    list.push(30);
    list.remove_first();
    assert_eq!(list.get_first(), Some(&20));
    assert_eq!(list.size, 2);
    list.pop();
    assert_eq!(list.get_last(), Some(&20));
    assert_eq!(list.size, 1);
    list.remove_at(0);
    assert_eq!(list.size, 0);
    assert_eq!(list.get_first(), None);
    assert_eq!(list.get_last(), None);
}

#[test]
fn size_tracks_elements_through_mixed_operations() {
    let mut list = SinglyLinkedList::new_empty();
    list.push(1);
    list.insert(0);
    list.push(2);
    list.push(3);
    list.insert(-1);
    assert_eq!(contents(&list), vec![-1, 0, 1, 2, 3]);
    list.remove_at(2);
    assert_eq!(contents(&list), vec![-1, 0, 2, 3]);
    list.remove_data(3);
    assert_eq!(contents(&list), vec![-1, 0, 2]);
    assert_eq!(list.get_last(), Some(&2));
    list.pop();
    list.remove_first();
    assert_eq!(contents(&list), vec![0]);
    assert_eq!(list.size, 1);
    list.push(9);
    assert_eq!(contents(&list), vec![0, 9]);
    assert_eq!(list.get_last(), Some(&9));
}

#[test]
fn removals_on_empty_list_are_no_ops() {
    let mut list = SinglyLinkedList::<i32>::new_empty();
    list.pop();
    list.remove_first();
    list.remove_at(0);
    list.remove_data(5);
    assert_eq!(list.size, 0);
    assert_eq!(list.get(0), None);
    assert_eq!(list.get_first(), None);
}

#[test]
fn out_of_range_index_is_ignored() {
    let mut list = SinglyLinkedList::new(10);
    list.push(20);
    list.remove_at(2);
    list.remove_at(u32::MAX);
    assert_eq!(list.size, 2);
    assert_eq!(list.get(2), None);
    assert_eq!(list.get(u32::MAX), None);
    assert_eq!(contents(&list), vec![10, 20]);
}

#[test]
fn remove_data_takes_the_first_match_only() {
    let mut list = SinglyLinkedList::new(1);
    list.push(2);
    list.push(3);
    list.push(2);
    list.remove_data(2);
    assert_eq!(contents(&list), vec![1, 3, 2]);
    assert_eq!(list.get_last(), Some(&2));
    list.remove_data(7);
    assert_eq!(contents(&list), vec![1, 3, 2]);
    list.remove_data(2);
    assert_eq!(contents(&list), vec![1, 3]);
    assert_eq!(list.get_last(), Some(&3));
    list.push(4);
    assert_eq!(contents(&list), vec![1, 3, 4]);
}

#[test]
fn list_of_strings() {
    let mut list = SinglyLinkedList::new(String::from("b"));
    list.insert(String::from("a"));
    list.push(String::from("c"));
    list.remove_data(String::from("b"));
    assert_eq!(list.get(0).map(|s| s.as_str()), Some("a"));
    assert_eq!(list.get(1).map(|s| s.as_str()), Some("c"));
    assert_eq!(list.size, 2);
}

#[test]
fn released_slots_are_reused() {
    let mut list = SinglyLinkedList::new_empty();
    for round in 0..3 {
        for v in 0..5 {
            list.push(v + round * 10);
        }
        for _ in 0..5 {
            list.remove_first();
        }
        assert_eq!(list.size, 0);
    }
    list.insert(1);
    list.push(2);
    assert_eq!(contents(&list), vec![1, 2]);
}
