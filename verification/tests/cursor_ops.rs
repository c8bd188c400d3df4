use xor_list::{Cursor, List};

fn drain_forward(c: &mut Cursor<i32>) -> Vec<i32> {
    let mut out = Vec::new();
    while let Some(v) = c.next() {
        out.push(*v);
    }
    out
}

fn drain_backward(c: &mut Cursor<i32>) -> Vec<i32> {
    let mut out = Vec::new();
    while let Some(v) = c.prev() {
        out.push(*v);
    }
    out
}

fn list_of(values: &[i32]) -> List<i32> {
    let mut c = List::new().cursor_head();
    for &v in values {
        c.insert_prev(v);
    }
    c.into_list()
}

fn contents(l: List<i32>) -> (Vec<i32>, List<i32>) {
    let mut c = l.cursor_head();
    let out = drain_forward(&mut c);
    (out, c.into_list())
}

#[test]
fn round_trip_traversal() {
    let l = list_of(&[10, 20, 30, 40, 50]);
    let mut c = l.cursor_head();
    assert_eq!(drain_forward(&mut c), vec![10, 20, 30, 40, 50]);
    let l = c.into_list();
    let mut c = l.cursor_tail();
    assert_eq!(drain_backward(&mut c), vec![50, 40, 30, 20, 10]);
}

#[test]
fn insert_remove_inverse() {
    let l = list_of(&[1, 2, 3]);
    let mut c = l.cursor_head();
    assert_eq!(c.next().copied(), Some(1));
    c.insert_next(99);
    assert_eq!(c.next().copied(), Some(99));
    assert_eq!(c.remove_prev(), Some(99));
    assert_eq!(c.next().copied(), Some(2));
    assert_eq!(c.next().copied(), Some(3));
    assert_eq!(c.next().copied(), None);
    let (values, _) = contents(c.into_list());
    assert_eq!(values, vec![1, 2, 3]);
}

#[test]
fn empty_list_boundaries() {
    let l: List<i32> = List::new();
    let mut c = l.cursor_head();
    assert!(c.next().is_none());
    assert!(c.prev().is_none());
    assert_eq!(c.remove_next(), None);
    assert_eq!(c.remove_prev(), None);
    let (values, l) = contents(c.into_list());
    assert_eq!(values, Vec::<i32>::new());
    let mut c = l.cursor_tail();
    assert!(c.next().is_none());
    assert!(c.prev().is_none());
}

#[test]
fn nonempty_list_boundaries() {
    let l = list_of(&[1, 2]);
    let mut c = l.cursor_head();
    assert!(c.prev().is_none());
    assert_eq!(c.remove_prev(), None);
    let mut c = c.into_list().cursor_tail();
    assert!(c.next().is_none());
    assert_eq!(c.remove_next(), None);
    let (values, _) = contents(c.into_list());
    assert_eq!(values, vec![1, 2]);
}

#[test]
fn split_between_first_and_second() {
    let mut c = List::new().cursor_head();
    for v in [1, 2, 3] {
        c.insert_next(v);
        c.next();
    }
    c.prev();
    c.prev();
    let first = c.split_before();
    let (first_values, _) = contents(first);
    assert_eq!(first_values, vec![1]);
    let (rest_values, _) = contents(c.into_list());
    assert_eq!(rest_values, vec![2, 3]);
}

#[test]
fn split_after_partitions_in_order() {
    let l = list_of(&[1, 2, 3, 4, 5, 6]);
    let mut c = l.cursor_head();
    c.next();
    c.next();
    let back = c.split_after();
    let (back_values, _) = contents(back);
    assert_eq!(back_values, vec![3, 4, 5, 6]);
    let (front_values, _) = contents(c.into_list());
    assert_eq!(front_values, vec![1, 2]);
}

#[test]
fn split_at_boundaries() {
    let l = list_of(&[7, 8, 9]);
    let mut c = l.cursor_head();
    let front = c.split_before();
    let (front_values, _) = contents(front);
    assert_eq!(front_values, Vec::<i32>::new());
    let (kept, l) = contents(c.into_list());
    assert_eq!(kept, vec![7, 8, 9]);
    let mut c = l.cursor_tail();
    let back = c.split_after();
    let (back_values, _) = contents(back);
    assert_eq!(back_values, Vec::<i32>::new());
    let (kept_again, _) = contents(c.into_list());
    assert_eq!(kept_again, vec![7, 8, 9]);
}

#[test]
fn links_stay_consistent_through_mixed_operations() {
    let mut reference = vec![1, 2, 3, 4, 5];
    let l = list_of(&reference);
    let mut c = l.cursor_head();
    c.next();
    c.insert_next(10);
    reference.insert(1, 10);
    c.next();
    c.next();
    assert_eq!(c.remove_next(), Some(reference.remove(3)));
    c.insert_prev(11);
    reference.insert(3, 11);
    assert_eq!(c.remove_prev(), Some(reference.remove(3)));
    let mut c = c.into_list().cursor_head();
    assert_eq!(drain_forward(&mut c), reference);
    let mut c = c.into_list().cursor_tail();
    let mut reversed = reference.clone();
    reversed.reverse();
    assert_eq!(drain_backward(&mut c), reversed);
}

#[test]
fn mutation_through_cursor_is_kept() {
    let l = list_of(&[5, 6, 7]);
    let mut c = l.cursor_head();
    c.next();
    if let Some(v) = c.next() {
        *v = 60;
    }
    if let Some(v) = c.prev() {
        *v += 1;
    }
    let (values, _) = contents(c.into_list());
    assert_eq!(values, vec![5, 61, 7]);
}

#[test]
fn remove_next_drains_in_order() {
    let l = list_of(&[4, 5, 6]);
    let mut c = l.cursor_head();
    assert_eq!(c.remove_next(), Some(4));
    assert_eq!(c.remove_next(), Some(5));
    assert_eq!(c.remove_next(), Some(6));
    assert_eq!(c.remove_next(), None);
    let (values, _) = contents(c.into_list());
    assert_eq!(values, Vec::<i32>::new());
}

#[test]
fn insert_next_prepends_to_the_right_side() {
    let mut c = List::new().cursor_head();
    c.insert_next(1);
    c.insert_next(2);
    c.insert_next(3);
    let (values, _) = contents(c.into_list());
    assert_eq!(values, vec![3, 2, 1]);
}

#[test]
fn owned_values_move_in_and_out_exactly_once() {
    let mut c = List::new().cursor_head();
    c.insert_prev(String::from("front"));
    c.insert_prev(String::from("middle"));
    c.insert_next(String::from("back"));
    assert_eq!(c.remove_prev(), Some(String::from("middle")));
    assert_eq!(c.remove_next(), Some(String::from("back")));
    assert_eq!(c.remove_prev(), Some(String::from("front")));
    assert_eq!(c.remove_prev(), None);
    assert_eq!(c.remove_next(), None);
}

#[test]
fn split_then_reuse_both_lists() {
    let l = list_of(&[1, 2, 3, 4]);
    let mut c = l.cursor_head();
    c.next();
    c.next();
    let front = c.split_before();
    let mut fc = front.cursor_tail();
    fc.insert_next(99);
    let (front_values, _) = contents(fc.into_list());
    assert_eq!(front_values, vec![1, 2, 99]);
    c.insert_prev(0);
    let (rest_values, _) = contents(c.into_list());
    assert_eq!(rest_values, vec![0, 3, 4]);
}
