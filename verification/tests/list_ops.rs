use iterlist::IterList;

/// Front-to-back textual rendering: `[e0, e1, ..., en]`.
fn render(list: &IterList<i32>) -> String {
    let base = -(list.index() as isize);
    let mut out = String::from("[");
    let mut k: isize = 0;
    while k < list.len() as isize {
        if k > 0 {
            out.push_str(", ");
        }
        out.push_str(&format!("{}", list.get(base + k).unwrap()));
        k += 1;
    }
    out.push(']');
    out
}

#[test]
fn new_list_is_empty() {
    let list: IterList<u8> = IterList::new();
    assert_eq!(list.len(), 0);
    assert!(list.is_empty());
    assert_eq!(list.index(), 0);
    assert_eq!(list.current(), None);
}

#[test]
fn default_list_is_empty() {
    let list: IterList<u8> = Default::default();
    assert_eq!(list.len(), 0);
    assert!(list.is_empty());
}

#[test]
fn insert_next_keeps_cursor() {
    let mut list = IterList::new();
    list.insert_next(1);
    list.insert_next(2);
    list.insert_next(3);
    assert_eq!(list.current(), Some(&1));
    assert_eq!(render(&list), "[1, 3, 2]");
}

#[test]
fn insert_prev_keeps_cursor() {
    let mut list = IterList::new();
    list.insert_prev(1);
    list.insert_prev(2);
    list.insert_prev(3);
    assert_eq!(list.current(), Some(&1));
    assert_eq!(render(&list), "[2, 3, 1]");
}

#[test]
fn push_next_follows_cursor() {
    let mut list = IterList::new();
    list.push_next(1);
    list.push_next(2);
    list.push_next(3);
    assert_eq!(list.current(), Some(&3));
    assert_eq!(render(&list), "[1, 2, 3]");
}

#[test]
fn push_prev_follows_cursor() {
    let mut list = IterList::new();
    list.push_prev(1);
    list.push_prev(2);
    list.push_prev(3);
    assert_eq!(list.current(), Some(&3));
    assert_eq!(render(&list), "[3, 2, 1]");
}

#[test]
fn mixed_pushes_render_in_order() {
    let mut list = IterList::new();
    list.push_prev(-1);
    list.push_next(1);
    list.push_next(2);
    list.push_next(3);
    assert_eq!(render(&list), "[-1, 1, 2, 3]");
}

#[test]
fn move_to_front_counts_steps() {
    let mut list = IterList::new();
    list.push_next(1);
    list.push_next(2);
    list.push_next(3);
    assert_eq!(list.current(), Some(&3));
    let offset = list.move_to_front();
    assert_eq!(offset, 2);
    assert_eq!(list.current(), Some(&1));
    assert_eq!(list.index(), 0);
}

#[test]
fn move_to_back_counts_steps() {
    let mut list = IterList::from_vec(vec![1, 2, 3]);
    let offset = list.move_to_back();
    assert_eq!(offset, 2);
    assert_eq!(list.current(), Some(&3));
    assert_eq!(list.index(), 2);
}

#[test]
fn move_to_reaches_index() {
    let mut list = IterList::from_vec(vec![1, 2, 3]);
    assert!(list.move_to(1));
    assert_eq!(list.current(), Some(&2));
    assert_eq!(list.index(), 1);
}

#[test]
fn move_to_every_position() {
    for k in 0..3usize {
        let mut list = IterList::from_vec(vec![10, 20, 30]);
        assert!(list.move_to(k));
        assert_eq!(list.index(), k);
    }
}

#[test]
fn move_to_beyond_back_parks_at_back() {
    let mut list = IterList::from_vec(vec![1, 2, 3]);
    assert!(!list.move_to(7));
    assert_eq!(list.index(), 2);
}

#[test]
fn move_to_on_empty_list() {
    let mut list: IterList<u8> = IterList::new();
    assert!(list.move_to(0));
    assert!(!list.move_to(1));
    assert_eq!(list.index(), 0);
}

#[test]
fn advance_and_retreat_walk_the_chain() {
    let mut list = IterList::from_vec(vec![1, 2, 3]);
    assert_eq!(list.current(), Some(&1));
    assert!(list.advance());
    assert_eq!(list.current(), Some(&2));
    list.move_to_back();
    assert_eq!(list.current(), Some(&3));
    assert!(list.retreat());
    assert_eq!(list.current(), Some(&2));
}

#[test]
fn advance_reports_boundary() {
    let mut list = IterList::from_vec(vec![1]);
    assert!(!list.advance());
    assert_eq!(list.index(), 0);
    assert!(!list.retreat());
    assert_eq!(list.index(), 0);
}

#[test]
fn advance_on_empty_list() {
    let mut list: IterList<u8> = IterList::new();
    assert!(!list.advance());
    assert!(!list.retreat());
}

#[test]
fn move_by_clamps_at_boundaries() {
    let mut list = IterList::from_vec(vec![1, 2, 3]);
    list.move_to_back();
    assert_eq!(list.index(), 2);
    assert!(list.move_by(-2));
    assert_eq!(list.index(), 0);
    assert_eq!(list.current(), Some(&1));
    assert!(!list.move_by(10));
    assert_eq!(list.index(), 2);
    assert!(!list.move_by(-5));
    assert_eq!(list.index(), 0);
    assert!(list.move_by(0));
    assert_eq!(list.index(), 0);
}

#[test]
fn get_reads_relative_to_cursor() {
    let list = IterList::from_vec(vec![1, 2, 3]);
    assert_eq!(list.current(), Some(&1));
    assert_eq!(list.get(0), Some(&1));
    assert_eq!(list.get(1), Some(&2));
    assert_eq!(list.get(2), Some(&3));
    assert_eq!(list.get(-1), None);
    assert_eq!(list.get(3), None);
}

#[test]
fn get_after_moving() {
    let mut list = IterList::from_vec(vec![1, 2, 3]);
    list.move_to_back();
    assert_eq!(list.get(-2), Some(&1));
    assert_eq!(list.get(-1), Some(&2));
    assert_eq!(list.get(1), None);
}

#[test]
fn get_mut_writes_through() {
    let mut list = IterList::from_vec(vec![1, 2, 3]);
    *list.get_mut(1).unwrap() = 4;
    assert_eq!(render(&list), "[1, 4, 3]");
    assert!(list.get_mut(-1).is_none());
    assert!(list.get_mut(3).is_none());
    assert_eq!(render(&list), "[1, 4, 3]");
}

#[test]
fn get_current_mut_writes_under_the_cursor() {
    let mut list = IterList::from_vec(vec![1, 2, 3]);
    *list.get_current_mut().unwrap() = 4;
    assert_eq!(render(&list), "[4, 2, 3]");
    let mut empty: IterList<u8> = IterList::new();
    assert!(empty.get_current_mut().is_none());
}

#[test]
fn replace_cursor_swaps_and_returns_old() {
    let mut list = IterList::from_vec(vec![1, 2, 3]);
    assert_eq!(list.replace_cursor(4), Some(1));
    assert_eq!(render(&list), "[4, 2, 3]");
}

#[test]
fn replace_cursor_on_empty_inserts() {
    let mut list = IterList::new();
    assert_eq!(list.replace_cursor(7), None);
    assert_eq!(list.len(), 1);
    assert_eq!(list.current(), Some(&7));
}

#[test]
fn consume_forward_moves_to_successor() {
    let mut list = IterList::from_vec(vec![1, 2, 3]);
    assert_eq!(list.consume_forward(), Some((1, true)));
    assert_eq!(render(&list), "[2, 3]");
    assert_eq!(list.current(), Some(&2));
    assert_eq!(list.index(), 0);
}

#[test]
fn consume_forward_at_back_parks_on_predecessor() {
    let mut list = IterList::from_vec(vec![1, 2, 3]);
    list.move_to_back();
    assert_eq!(list.consume_forward(), Some((3, false)));
    assert_eq!(render(&list), "[1, 2]");
    assert_eq!(list.current(), Some(&2));
    assert_eq!(list.index(), 1);
}

#[test]
fn consume_backward_moves_to_predecessor() {
    let mut list = IterList::from_vec(vec![1, 2, 3]);
    assert!(list.move_by(1));
    assert_eq!(list.consume_backward(), Some((2, true)));
    assert_eq!(render(&list), "[1, 3]");
    assert_eq!(list.current(), Some(&1));
    assert_eq!(list.index(), 0);
}

#[test]
fn consume_backward_at_front_keeps_index_at_zero() {
    let mut list = IterList::from_vec(vec![1, 2, 3]);
    assert_eq!(list.consume_backward(), Some((1, false)));
    assert_eq!(render(&list), "[2, 3]");
    assert_eq!(list.current(), Some(&2));
    assert_eq!(list.index(), 0);
}

#[test]
fn consume_on_empty_list() {
    let mut list: IterList<u8> = IterList::new();
    assert_eq!(list.consume_forward(), None);
    assert_eq!(list.consume_backward(), None);
}

#[test]
fn consume_last_element_empties_the_list() {
    let mut list = IterList::from_vec(vec![5]);
    assert_eq!(list.consume_forward(), Some((5, false)));
    assert!(list.is_empty());
    assert_eq!(list.index(), 0);
    assert_eq!(list.current(), None);
}

#[test]
fn split_after_hands_over_the_tail() {
    let mut list = IterList::from_vec(vec![1, 2, 3]);
    assert!(list.advance());
    let new_list = list.split_after().unwrap();
    assert_eq!(render(&list), "[1, 2]");
    assert_eq!(render(&new_list), "[3]");
    assert_eq!(new_list.index(), 0);
    assert_eq!(list.index(), 1);
}

#[test]
fn split_before_hands_over_the_head() {
    let mut list = IterList::from_vec(vec![1, 2, 3, 4]);
    assert!(list.move_by(2));
    let new_list = list.split_before().unwrap();
    assert_eq!(render(&list), "[3, 4]");
    assert_eq!(render(&new_list), "[1, 2]");
    assert_eq!(new_list.index(), 1);
    assert_eq!(list.index(), 0);
}

#[test]
fn split_at_boundary_returns_nothing() {
    let mut list = IterList::from_vec(vec![1, 2]);
    assert!(list.split_before().is_none());
    list.move_to_back();
    assert!(list.split_after().is_none());
    let mut empty: IterList<u8> = IterList::new();
    assert!(empty.split_after().is_none());
    assert!(empty.split_before().is_none());
}

#[test]
fn from_vec_sets_cursor_to_front() {
    let list = IterList::from_vec(vec![1, 2, 3]);
    assert_eq!(render(&list), "[1, 2, 3]");
    assert_eq!(list.current(), Some(&1));
    assert_eq!(list.index(), 0);
    assert_eq!(list.len(), 3);
}

#[test]
fn next_drains_forward() {
    let mut list = IterList::from_vec(vec![1, 2, 3]);
    let mut drained = Vec::new();
    while let Some(elem) = list.next() {
        drained.push(elem);
    }
    assert_eq!(drained, vec![1, 2, 3]);
    assert!(list.is_empty());
}

#[test]
fn next_folds_to_a_sum() {
    let mut list = IterList::from_vec(vec![1, 2, 3]);
    let mut num = 0;
    while let Some(elem) = list.next() {
        num += elem;
    }
    assert_eq!(num, 6);
}

#[test]
fn next_back_drains_backward() {
    let mut list = IterList::from_vec(vec![1, 2, 3]);
    list.move_to_back();
    assert_eq!(list.next_back(), Some(3));
    assert_eq!(list.next_back(), Some(2));
    assert_eq!(list.next_back(), Some(1));
    assert_eq!(list.next_back(), None);
    assert!(list.is_empty());
}

#[test]
fn next_at_the_back_boundary_drains_the_rest() {
    let mut list = IterList::from_vec(vec![1, 2, 3]);
    list.move_to_back();
    assert_eq!(list.next(), Some(3));
    assert!(list.is_empty());
}

#[test]
fn elements_read_front_to_back() {
    let mut list = IterList::from_vec(vec![1, 2, 3]);
    assert!(list.move_to(1));
    assert_eq!(list.elements(), vec![&1, &2, &3]);
    assert_eq!(format!("{:?}", list.elements()), "[1, 2, 3]");
    let empty: IterList<u8> = IterList::new();
    assert!(empty.elements().is_empty());
}
