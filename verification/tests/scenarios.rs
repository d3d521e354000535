use iterlist::IterList;

/// Front-to-back textual rendering: `[e0, e1, ..., en]`.
fn render(list: &IterList<i32>) -> String {
    let base = -(list.index() as isize);
    let mut out = String::from("[");
    let mut k: isize = 0;
    while k < list.len() as isize {
        if k > 0 {
            out.push_str(", ");
        }
        out.push_str(&format!("{}", list.get(base + k).unwrap()));
        k += 1;
    }
    out.push(']');
    out
}

#[test]
fn push_next_sequence_renders_in_insertion_order() {
    let elems: Vec<i32> = vec![7, -3, 0, 42, 42, 9];
    let mut list = IterList::new();
    for &e in &elems {
        list.push_next(e);
    }
    assert_eq!(list.len(), elems.len());
    assert_eq!(render(&list), format!("{:?}", elems));
}

#[test]
fn push_prev_sequence_renders_in_reverse_insertion_order() {
    let elems: Vec<i32> = vec![7, -3, 0, 42, 42, 9];
    let mut list = IterList::new();
    for &e in &elems {
        list.push_prev(e);
    }
    let reversed: Vec<i32> = elems.iter().rev().cloned().collect();
    assert_eq!(list.len(), elems.len());
    assert_eq!(render(&list), format!("{:?}", reversed));
}

#[test]
fn advance_then_retreat_restores_the_position() {
    let mut list = IterList::from_vec(vec![1, 2, 3]);
    assert!(list.advance());
    let index_before = list.index();
    let current_before = *list.current().unwrap();
    assert!(list.advance());
    assert!(list.retreat());
    assert_eq!(list.index(), index_before);
    assert_eq!(*list.current().unwrap(), current_before);
    assert!(list.retreat());
    assert!(list.advance());
    assert_eq!(list.index(), index_before);
    assert_eq!(*list.current().unwrap(), current_before);
}

#[test]
fn move_to_lands_on_every_valid_index() {
    let mut list = IterList::from_vec(vec![5, 6, 7, 8]);
    for k in 0..list.len() {
        assert!(list.move_to(k));
        assert_eq!(list.index(), k);
    }
}

#[test]
fn split_after_then_reconcatenation_reconstructs_the_sequence() {
    let original: Vec<i32> = vec![1, 2, 3, 4, 5];
    let mut list = IterList::from_vec(original.clone());
    assert!(list.move_to(2));
    let mut tail = list.split_after().unwrap();
    assert_eq!(list.len() + tail.len(), original.len());
    // relink by hand: append the tail's elements back onto the head part
    let mut rebuilt = Vec::new();
    while let Some(elem) = {
        list.move_to_front();
        list.next()
    } {
        rebuilt.push(elem);
    }
    tail.move_to_front();
    while let Some(elem) = tail.next() {
        rebuilt.push(elem);
    }
    assert_eq!(rebuilt, original);
}

#[test]
fn forward_drain_yields_the_constructing_sequence() {
    let original: Vec<i32> = vec![9, 8, 7, 6];
    let mut list = IterList::from_vec(original.clone());
    let mut drained = Vec::new();
    while let Some(elem) = list.next() {
        drained.push(elem);
    }
    assert_eq!(drained, original);
    assert!(list.is_empty());
}

#[test]
fn three_pushes_then_traversal_and_reads() {
    let mut list = IterList::new();
    list.push_next(1);
    list.push_next(2);
    list.push_next(3);
    assert_eq!(render(&list), "[1, 2, 3]");
    assert_eq!(list.current(), Some(&3));
    let steps = list.move_to_front();
    assert_eq!(steps, 2);
    assert_eq!(list.current(), Some(&1));
    assert_eq!(list.get(1), Some(&2));
    assert_eq!(list.get(-1), None);
}

#[test]
fn consume_forward_from_the_front_of_three() {
    let mut list = IterList::from_vec(vec![1, 2, 3]);
    assert_eq!(list.current(), Some(&1));
    assert_eq!(list.consume_forward(), Some((1, true)));
    assert_eq!(render(&list), "[2, 3]");
    assert_eq!(list.current(), Some(&2));
}
