use iterlist::Cursor;
use iterlist::IterList;

#[test]
fn cursor_walks_without_moving_the_list() {
    let list = IterList::from_vec(vec![1, 2, 3]);
    let mut cursor = list.as_cursor();
    assert_eq!(cursor.current(), Some(&1));
    assert!(cursor.advance());
    assert_eq!(cursor.current(), Some(&2));
    assert!(cursor.advance());
    assert_eq!(cursor.current(), Some(&3));
    assert!(!cursor.advance());
    assert_eq!(list.current(), Some(&1));
    assert_eq!(list.index(), 0);
}

#[test]
fn cursor_from_copies_the_position() {
    let mut list = IterList::from_vec(vec![1, 2, 3]);
    assert!(list.advance());
    let cursor = Cursor::from(&list);
    assert_eq!(cursor.index(), 1);
    assert_eq!(cursor.current(), Some(&2));
}

#[test]
fn detached_cursor_is_empty() {
    let mut cursor: Cursor<u8> = Cursor::new();
    assert_eq!(cursor.index(), 0);
    assert_eq!(cursor.current(), None);
    assert!(!cursor.advance());
    assert!(!cursor.retreat());
    assert_eq!(cursor.get(0), None);
}

#[test]
fn reacquire_attaches_a_cursor() {
    let list = IterList::from_vec(vec![4, 5]);
    let mut cursor: Cursor<i32> = Cursor::new();
    cursor.reacquire(&list);
    assert_eq!(cursor.current(), Some(&4));
    assert!(cursor.advance());
    assert_eq!(cursor.current(), Some(&5));
}

#[test]
fn cursor_of_empty_list_reports_boundaries() {
    let list: IterList<u8> = IterList::new();
    let mut cursor = list.as_cursor();
    assert_eq!(cursor.current(), None);
    assert_eq!(cursor.index(), 0);
    assert!(!cursor.advance());
    assert!(!cursor.retreat());
    assert_eq!(cursor.get(0), None);
}

#[test]
fn cursor_index_follows_steps() {
    let list = IterList::from_vec(vec![1, 2, 3]);
    let mut cursor = list.as_cursor();
    assert!(cursor.advance());
    assert_eq!(cursor.index(), 1);
}

#[test]
fn cursor_move_to_front_and_back() {
    let list = IterList::from_vec(vec![1, 2, 3]);
    let mut cursor = list.as_cursor();
    let offset = cursor.move_to_back();
    assert_eq!(offset, 2);
    assert_eq!(cursor.current(), Some(&3));
    assert_eq!(cursor.index(), 2);
    let offset = cursor.move_to_front();
    assert_eq!(offset, 2);
    assert_eq!(cursor.current(), Some(&1));
    assert_eq!(cursor.index(), 0);
}

#[test]
fn cursor_move_to_back_from_the_middle() {
    let list = IterList::from_vec(vec![1, 2, 3]);
    let mut cursor = list.as_cursor();
    assert!(cursor.advance());
    let offset = cursor.move_to_back();
    assert_eq!(offset, 1);
    assert_eq!(cursor.index(), 2);
}

#[test]
fn cursor_move_to_reaches_index() {
    let list = IterList::from_vec(vec![1, 2, 3]);
    let mut cursor = list.as_cursor();
    assert!(cursor.move_to(1));
    assert_eq!(cursor.current(), Some(&2));
    assert!(!cursor.move_to(9));
    assert_eq!(cursor.index(), 2);
}

#[test]
fn cursor_move_by_clamps_at_boundaries() {
    let list = IterList::from_vec(vec![1, 2, 3]);
    let mut cursor = list.as_cursor();
    cursor.move_to_back();
    assert_eq!(cursor.index(), 2);
    assert!(cursor.move_by(-2));
    assert_eq!(cursor.index(), 0);
    assert!(!cursor.move_by(10));
    assert_eq!(cursor.index(), 2);
}

#[test]
fn cursor_get_reads_relative_to_its_position() {
    let list = IterList::from_vec(vec![1, 2, 3]);
    let cursor = list.as_cursor();
    assert_eq!(cursor.current(), Some(&1));
    assert_eq!(cursor.get(1), Some(&2));
    assert_eq!(cursor.get(-1), None);
    assert_eq!(cursor.get(2), Some(&3));
    assert_eq!(cursor.get(3), None);
}

#[test]
fn several_cursors_range_over_one_list() {
    let list = IterList::from_vec(vec![1, 2, 3]);
    let mut a = list.as_cursor();
    let mut b = list.as_cursor();
    assert!(a.advance());
    assert!(b.move_to(2));
    assert_eq!(a.current(), Some(&2));
    assert_eq!(b.current(), Some(&3));
    assert_eq!(list.current(), Some(&1));
}
