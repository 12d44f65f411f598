use elastic_buffered_stream::{held_by_a_handle, CheckPointSet};

#[test]
fn new_registry_is_empty() {
    let mut set = CheckPointSet::new();
    assert_eq!(set.len(), 0);
    assert_eq!(set.survey(), Vec::<bool>::new());
    assert_eq!(set.min(), None);
}

#[test]
fn insert_hands_out_the_position_in_the_stream() {
    let mut set = CheckPointSet::new();
    let cp = set.insert(5, 100);
    assert_eq!(cp.inner(), 105);
    let other = set.insert(0, 8192);
    assert_eq!(other.inner(), 8192);
    assert_eq!(set.len(), 2);
}

#[test]
fn min_is_the_least_held_position() {
    let mut set = CheckPointSet::new();
    let a = set.insert(7, 0);
    let b = set.insert(3, 0);
    let c = set.insert(9, 0);
    assert_eq!(set.min(), Some(3));
    assert_eq!(set.len(), 3);
    assert_eq!(a.inner() + b.inner() + c.inner(), 19);
}

#[test]
fn min_forgets_what_is_no_longer_held() {
    let mut set = CheckPointSet::new();
    let a = set.insert(7, 0);
    let b = set.insert(3, 0);
    let c = set.insert(9, 0);
    assert_eq!(set.survey(), vec![true, true, true]);

    drop(b);
    assert_eq!(set.survey(), vec![true, false, true]);
    assert_eq!(set.len(), 3);
    assert_eq!(set.min(), Some(7));
    assert_eq!(set.len(), 2);

    drop(a);
    assert_eq!(set.min(), Some(9));
    assert_eq!(set.len(), 1);

    drop(c);
    assert_eq!(set.min(), None);
    assert_eq!(set.len(), 0);
}

#[test]
fn a_clone_keeps_the_checkpoint_held() {
    let mut set = CheckPointSet::new();
    let a = set.insert(4, 0);
    let copy = a.clone();
    drop(a);
    assert_eq!(set.survey(), vec![true]);
    assert_eq!(set.min(), Some(4));
    assert_eq!(copy.inner(), 4);

    drop(copy);
    assert_eq!(set.survey(), vec![false]);
    assert_eq!(set.min(), None);
}

#[test]
fn min_of_goes_by_the_marks_it_is_given() {
    let mut set = CheckPointSet::new();
    let _a = set.insert(7, 0);
    let _b = set.insert(3, 0);
    let _c = set.insert(9, 0);
    let _d = set.insert(8, 0);

    assert_eq!(set.min_of(&vec![true, false, true, true]), Some(7));
    assert_eq!(set.len(), 3);
    assert_eq!(set.min_of(&vec![false, true, true]), Some(8));
    assert_eq!(set.len(), 2);
    assert_eq!(set.min_of(&vec![true, true]), Some(8));
    assert_eq!(set.len(), 2);
    assert_eq!(set.min_of(&vec![false, false]), None);
    assert_eq!(set.len(), 0);
}

#[test]
fn sub_offset_moves_every_position() {
    let mut set = CheckPointSet::new();
    let a = set.insert(8192 + 5, 0);
    let b = set.insert(3 * 8192, 0);
    assert_eq!(set.min(), Some(8197));

    set.sub_offset(8192);
    assert_eq!(set.min(), Some(5));
    assert_eq!(set.len(), 2);

    drop(a);
    assert_eq!(set.min(), Some(2 * 8192));

    // The handles count from the start of the stream and do not move.
    assert_eq!(b.inner(), 3 * 8192);

    set.sub_offset(0);
    assert_eq!(set.min(), Some(2 * 8192));
}

#[test]
fn a_checkpoint_is_held_from_the_second_holder_on() {
    assert!(!held_by_a_handle(0));
    assert!(!held_by_a_handle(1));
    assert!(held_by_a_handle(2));
    assert!(held_by_a_handle(3));
    assert!(held_by_a_handle(usize::MAX));
}
