use singly_linked_list::list::List;

#[test]
fn test_len_counts_pushes_and_pops() {
    let mut list: List<u32> = List::new();
    list.push(1);
    list.push(2);
    list.push(3);
    assert_eq!(list.len(), 3);
    assert_eq!(list.pop(), Some(3));
    assert_eq!(list.len(), 2);
    list.push(4);
    assert_eq!(list.len(), 3);
    assert_eq!(list.pop(), Some(4));
    assert_eq!(list.pop(), Some(2));
    assert_eq!(list.pop(), Some(1));
    // a failed pop is not counted: the length stays zero
    assert_eq!(list.pop(), None);
    assert_eq!(list.len(), 0);
}

#[test]
fn test_lifo_order() {
    let mut list: List<u32> = List::new();
    for e in [10, 20, 30, 40] {
        list.push(e);
    }
    assert_eq!(list.pop(), Some(40));
    assert_eq!(list.pop(), Some(30));
    assert_eq!(list.pop(), Some(20));
    assert_eq!(list.pop(), Some(10));
    assert_eq!(list.pop(), None);
}

#[test]
fn test_iteration_matches_pop() {
    let mut list1: List<u32> = List::new();
    let mut list2: List<u32> = List::new();
    for e in [5, 6, 7] {
        list1.push(e);
        list2.push(e);
    }
    let mut iterator = list1.into_iter();
    loop {
        let from_pop = list2.pop();
        let from_iter = iterator.next();
        assert_eq!(from_pop, from_iter);
        if from_pop.is_none() {
            break;
        }
    }
}

#[test]
fn test_reverse_twice_is_identity() {
    let mut list: List<u32> = List::new();
    let mut same: List<u32> = List::new();
    for e in [1, 2, 3, 4, 5] {
        list.push(e);
        same.push(e);
    }
    list.reverse();
    list.reverse();
    assert_eq!(list, same);
    assert_eq!(list.len(), 5);
}

#[test]
fn test_reverse_empty() {
    let mut list: List<u32> = List::new();
    list.reverse();
    assert_eq!(list.len(), 0);
    assert_eq!(list.pop(), None);
}

#[test]
fn test_apply_identity_preserves_list() {
    let mut list: List<u32> = List::new();
    let mut same: List<u32> = List::new();
    for e in [8, 9, 10] {
        list.push(e);
        same.push(e);
    }
    let mapped = list.apply(|x| *x);
    assert_eq!(mapped, same);
}

#[test]
fn test_equality_and_inequality() {
    let mut list1: List<u32> = List::new();
    let mut list2: List<u32> = List::new();
    for e in [1, 2, 3] {
        list1.push(e);
        list2.push(e);
    }
    assert_eq!(list1, list2);

    // differing in one element makes the lists unequal
    let mut list3: List<u32> = List::new();
    for e in [1, 9, 3] {
        list3.push(e);
    }
    assert_ne!(list1, list3);

    // differing in length makes the lists unequal
    let mut list4: List<u32> = List::new();
    for e in [1, 2] {
        list4.push(e);
    }
    assert_ne!(list1, list4);
    assert_ne!(list4, list1);
}

#[test]
fn test_display_example() {
    let mut list: List<u32> = List::new();
    list.push(123);
    list.push(456);
    list.push(789);
    assert_eq!(list.render(|e| format!("{}", e)), "789->456->123->end");
}

#[test]
fn test_display_empty() {
    let list: List<u32> = List::new();
    assert_eq!(list.render(|e| format!("{}", e)), "end");
}

#[test]
fn test_interleave_same_parity_example() {
    let mut list1: List<u32> = List::new();
    list1.push(123);
    list1.push(456);
    let mut list2: List<u32> = List::new();
    list2.push(100);
    list2.push(200);
    let merged = list1.interleave(list2);
    assert_eq!(merged.len(), 4);
    assert_eq!(merged.render(|e| format!("{}", e)), "123->100->456->200->end");
}

#[test]
fn test_interleave_different_parity() {
    let mut list1: List<u32> = List::new();
    list1.push(1);
    let mut list2: List<u32> = List::new();
    list2.push(2);
    list2.push(3);
    let merged = list1.interleave(list2);
    assert_eq!(merged.len(), 3);
    assert_eq!(merged.render(|e| format!("{}", e)), "2->3->1->end");
}

#[test]
fn test_interleave_with_empty() {
    // empty with even-length input: same parity
    let empty1: List<u32> = List::new();
    let mut list1: List<u32> = List::new();
    list1.push(1);
    list1.push(2);
    let merged = empty1.interleave(list1);
    assert_eq!(merged.len(), 2);
    assert_eq!(merged.render(|e| format!("{}", e)), "2->1->end");

    // odd-length input with empty: different parity
    let empty2: List<u32> = List::new();
    let mut list2: List<u32> = List::new();
    list2.push(7);
    let merged2 = list2.interleave(empty2);
    assert_eq!(merged2.len(), 1);
    assert_eq!(merged2.render(|e| format!("{}", e)), "7->end");

    // both empty
    let empty3: List<u32> = List::new();
    let empty4: List<u32> = List::new();
    let merged3 = empty3.interleave(empty4);
    assert_eq!(merged3.len(), 0);
    assert_eq!(merged3.render(|e| format!("{}", e)), "end");
}

#[test]
fn test_pop_empty_returns_no_value() {
    let mut list: List<u32> = List::new();
    assert_eq!(list.pop(), None);
    assert_eq!(list.len(), 0);
    assert_eq!(list.pop(), None);
    assert_eq!(list.len(), 0);
}

#[test]
fn test_peek_mut_changes_only_front() {
    let mut list: List<u32> = List::new();
    list.push(1);
    list.push(2);
    if let Some(front) = list.peek_mut() {
        *front = 99;
    }
    assert_eq!(list.len(), 2);
    assert_eq!(list.pop(), Some(99));
    assert_eq!(list.pop(), Some(1));
}

#[test]
fn test_long_list_drop_and_reverse() {
    // teardown and reversal stay iterative, so a long chain is fine
    let mut list: List<u32> = List::new();
    for e in 0..200000u32 {
        list.push(e);
    }
    assert_eq!(list.len(), 200000);
    list.reverse();
    assert_eq!(list.pop(), Some(0));
    assert_eq!(list.peek(), Some(&1));
}
