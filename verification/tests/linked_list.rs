use rastd::linked_list::LinkedList;

fn drain(list: &mut LinkedList<i32>) -> Vec<i32> {
    let mut values = vec![];
    while let Some(value) = list.pop_tail() {
        values.push(value);
    }
    values
}

#[test]
fn empty_list_has_no_tail() {
    let mut list = LinkedList::<i32>::new();
    assert_eq!(list.pop_tail(), None);
    assert_eq!(list.pop_tail(), None);
}

#[test]
fn values_leave_in_the_order_of_arrival() {
    let mut list = LinkedList::new();
    list.push_head(1);
    list.push_head(2);
    list.push_head(3);
    assert_eq!(list.pop_tail(), Some(1));
    assert_eq!(list.pop_tail(), Some(2));
    list.push_head(4);
    assert_eq!(list.pop_tail(), Some(3));
    assert_eq!(list.pop_tail(), Some(4));
    assert_eq!(list.pop_tail(), None);
}

#[test]
fn remove_by_handle_in_the_middle() {
    let mut list = LinkedList::new();
    list.push_head(1);
    let two = list.push_head(2);
    list.push_head(3);
    list.remove(two);
    assert_eq!(drain(&mut list), vec![1, 3]);
}

#[test]
fn remove_by_handle_at_the_ends() {
    let mut list = LinkedList::new();
    let one = list.push_head(1);
    list.push_head(2);
    let three = list.push_head(3);
    list.remove(three);
    list.remove(one);
    assert_eq!(drain(&mut list), vec![2]);
}

#[test]
fn remove_the_only_node() {
    let mut list = LinkedList::new();
    let one = list.push_head(1);
    list.remove(one);
    assert_eq!(list.pop_tail(), None);
    list.push_head(7);
    assert_eq!(drain(&mut list), vec![7]);
}

#[test]
fn places_are_used_again() {
    let mut list = LinkedList::new();
    for round in 0..5 {
        let a = list.push_head(round);
        let b = list.push_head(round + 10);
        list.push_head(round + 20);
        list.remove(b);
        list.remove(a);
        assert_eq!(list.pop_tail(), Some(round + 20));
        assert_eq!(list.pop_tail(), None);
    }
}

#[test]
fn default_list_is_empty() {
    let mut list = LinkedList::<i32>::default();
    assert_eq!(list.pop_tail(), None);
    list.push_head(1);
    assert_eq!(list.pop_tail(), Some(1));
}
