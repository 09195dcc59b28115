use linked_lists::DoublyLinkedList;
use linked_lists::SinglyLinkedList;

fn singly_values(l: &SinglyLinkedList<i32>) -> Vec<i32> {
    l.traverse().into_iter().copied().collect()
}

fn doubly_values(l: &DoublyLinkedList<i32>) -> Vec<i32> {
    l.traverse().into_iter().copied().collect()
}

fn doubly_values_backward(l: &DoublyLinkedList<i32>) -> Vec<i32> {
    l.traverse_backward().into_iter().copied().collect()
}

#[test]
fn singly_scenario_one_two_three() {
    let mut l: SinglyLinkedList<i32> = SinglyLinkedList::new();
    l.append(1);
    l.append(2);
    l.append(3);
    assert_eq!(singly_values(&l), vec![1, 2, 3]);
    assert!(l.find(2));
    assert!(!l.find(4));
    l.remove_last();
    assert_eq!(singly_values(&l), vec![1, 2]);
    l.remove_last();
    l.remove_last();
    assert_eq!(singly_values(&l), Vec::<i32>::new());
    l.remove_last();
    assert_eq!(singly_values(&l), Vec::<i32>::new());
    assert!(!l.find(1));
}

#[test]
fn doubly_scenario_one_two_three() {
    let mut l: DoublyLinkedList<i32> = DoublyLinkedList::new();
    l.append(1);
    l.append(2);
    l.append(3);
    assert_eq!(doubly_values(&l), vec![1, 2, 3]);
    assert!(l.find(2));
    assert!(!l.find(4));
    l.remove_last();
    assert_eq!(doubly_values(&l), vec![1, 2]);
    l.remove_last();
    l.remove_last();
    assert_eq!(doubly_values(&l), Vec::<i32>::new());
    l.remove_last();
    assert_eq!(doubly_values(&l), Vec::<i32>::new());
    assert!(!l.find(1));
}

#[test]
fn find_forgets_removed_elements() {
    let mut s: SinglyLinkedList<i32> = SinglyLinkedList::new();
    let mut d: DoublyLinkedList<i32> = DoublyLinkedList::new();
    for x in [5, 7, 9] {
        s.append(x);
        d.append(x);
    }
    s.remove_last();
    d.remove_last();
    assert!(!s.find(9));
    assert!(!d.find(9));
    assert!(s.find(5) && s.find(7));
    assert!(d.find(5) && d.find(7));
    s.append(9);
    d.append(9);
    assert!(s.find(9));
    assert!(d.find(9));
}

#[test]
fn find_with_duplicate_values() {
    let mut s: SinglyLinkedList<i32> = SinglyLinkedList::new();
    let mut d: DoublyLinkedList<i32> = DoublyLinkedList::new();
    for x in [4, 4] {
        s.append(x);
        d.append(x);
    }
    s.remove_last();
    d.remove_last();
    assert!(s.find(4));
    assert!(d.find(4));
    s.remove_last();
    d.remove_last();
    assert!(!s.find(4));
    assert!(!d.find(4));
}

#[test]
fn append_then_remove_last_restores_elements() {
    let mut s: SinglyLinkedList<i32> = SinglyLinkedList::new();
    let mut d: DoublyLinkedList<i32> = DoublyLinkedList::new();
    for x in [3, 1, 4] {
        s.append(x);
        d.append(x);
    }
    s.append(15);
    d.append(15);
    s.remove_last();
    d.remove_last();
    assert_eq!(singly_values(&s), vec![3, 1, 4]);
    assert_eq!(doubly_values(&d), vec![3, 1, 4]);
    assert_eq!(doubly_values_backward(&d), vec![4, 1, 3]);
}

#[test]
fn removing_as_many_as_appended_empties_both_lists() {
    let n: i32 = 1000;
    let mut s: SinglyLinkedList<i32> = SinglyLinkedList::new();
    let mut d: DoublyLinkedList<i32> = DoublyLinkedList::new();
    for x in 0..n {
        s.append(x);
        d.append(x);
    }
    for _ in 0..n {
        s.remove_last();
        d.remove_last();
    }
    assert!(s.traverse().is_empty());
    assert!(d.traverse().is_empty());
    assert!(d.traverse_backward().is_empty());
    assert!(!s.find(0));
    assert!(!d.find(0));
    s.append(8);
    d.append(8);
    assert_eq!(singly_values(&s), vec![8]);
    assert_eq!(doubly_values(&d), vec![8]);
    assert_eq!(doubly_values_backward(&d), vec![8]);
}

#[test]
fn removing_the_only_element_empties_the_list() {
    let mut s: SinglyLinkedList<i32> = SinglyLinkedList::new();
    let mut d: DoublyLinkedList<i32> = DoublyLinkedList::new();
    s.append(42);
    d.append(42);
    s.remove_last();
    d.remove_last();
    assert!(s.traverse().is_empty());
    assert!(d.traverse().is_empty());
    assert!(!s.find(42));
    assert!(!d.find(42));
    s.append(43);
    d.append(43);
    assert_eq!(singly_values(&s), vec![43]);
    assert_eq!(doubly_values(&d), vec![43]);
}

#[test]
fn remove_last_on_empty_lists_is_a_no_op() {
    let mut s: SinglyLinkedList<i32> = SinglyLinkedList::new();
    let mut d: DoublyLinkedList<i32> = DoublyLinkedList::new();
    s.remove_last();
    d.remove_last();
    assert!(s.traverse().is_empty());
    assert!(d.traverse().is_empty());
    assert!(d.traverse_backward().is_empty());
    assert!(!s.find(0));
    assert!(!d.find(0));
}

#[test]
fn doubly_backward_walk_mirrors_forward_walk() {
    let mut d: DoublyLinkedList<i32> = DoublyLinkedList::new();
    for x in [10, 20, 30, 40] {
        d.append(x);
        let mut fwd = doubly_values(&d);
        fwd.reverse();
        assert_eq!(doubly_values_backward(&d), fwd);
    }
    for _ in 0..5 {
        d.remove_last();
        let mut fwd = doubly_values(&d);
        fwd.reverse();
        assert_eq!(doubly_values_backward(&d), fwd);
    }
    assert_eq!(doubly_values(&d), Vec::<i32>::new());
}

#[test]
fn lists_of_strings() {
    let mut s: SinglyLinkedList<String> = SinglyLinkedList::new();
    let mut d: DoublyLinkedList<String> = DoublyLinkedList::new();
    for w in ["alpha", "beta"] {
        s.append(w.to_string());
        d.append(w.to_string());
    }
    assert!(s.find("beta".to_string()));
    assert!(d.find("alpha".to_string()));
    assert!(!s.find("gamma".to_string()));
    s.remove_last();
    d.remove_last();
    assert!(!s.find("beta".to_string()));
    assert!(!d.find("beta".to_string()));
    assert_eq!(s.traverse(), vec![&"alpha".to_string()]);
    assert_eq!(d.traverse_backward(), vec![&"alpha".to_string()]);
}
