use holeyvec::Error;
use holeyvec::HoleyVec;

#[test]
fn first_insert_is_index_zero() {
    let mut s = HoleyVec::new();
    assert_eq!(s.push(42), 0);
    assert_eq!(s.get(0), Some(&42));
    assert_eq!(s.next_index(), 1);
}

#[test]
fn empty_store() {
    let s: HoleyVec<i32> = HoleyVec::new();
    let mut it = s.iter();
    assert_eq!(it.next(), None);
    assert_eq!(s.index_upper_bound(), 0);
    assert_eq!(s.next_index(), 0);
}

#[test]
fn get_after_push_in_various_states() {
    let mut s = HoleyVec::new();
    let a = s.push(10);
    assert_eq!(s.get(a), Some(&10));
    let b = s.push(20);
    assert_eq!(s.get(b), Some(&20));
    s.remove(a).unwrap();
    let c = s.push(30);
    assert_eq!(s.get(c), Some(&30));
    let d = s.push(40);
    assert_eq!(s.get(d), Some(&40));
}

#[test]
fn next_index_predicts_insert() {
    let mut s = HoleyVec::new();
    for v in [5, 6, 7] {
        let predicted = s.next_index();
        assert_eq!(s.push(v), predicted);
    }
    s.remove(1).unwrap();
    let predicted = s.next_index();
    assert_eq!(predicted, 1);
    assert_eq!(s.push(8), predicted);
}

#[test]
fn remove_makes_hole_and_keeps_upper_bound() {
    let mut s = HoleyVec::new();
    s.push(1);
    s.push(2);
    s.push(3);
    let before = s.index_upper_bound();
    assert_eq!(s.remove(1), Ok(2));
    assert_eq!(s.get(1), None);
    assert!(s.is_hole(1));
    assert_eq!(s.index_upper_bound(), before);
}

#[test]
fn freed_indices_reused_lifo() {
    let mut s = HoleyVec::new();
    let a = s.push(10);
    let b = s.push(20);
    s.push(30);
    assert!(a < b);
    s.remove(a).unwrap();
    s.remove(b).unwrap();
    assert_eq!(s.push(77), b);
    assert_eq!(s.push(88), a);
    assert_eq!(s.get(a), Some(&88));
    assert_eq!(s.get(b), Some(&77));
}

#[test]
fn remove_on_empty_fails() {
    let mut s: HoleyVec<i32> = HoleyVec::new();
    assert_eq!(s.remove(0), Err(Error::IndexNotOccupied));
}

#[test]
fn double_remove_fails() {
    let mut s = HoleyVec::new();
    assert_eq!(s.push(9), 0);
    assert_eq!(s.remove(0), Ok(9));
    assert_eq!(s.remove(0), Err(Error::IndexNotOccupied));
}

#[test]
fn remove_past_upper_bound_always_fails() {
    let mut s = HoleyVec::new();
    s.push(1);
    s.push(2);
    assert_eq!(s.remove(s.index_upper_bound()), Err(Error::IndexNotOccupied));
    assert_eq!(s.remove(1000), Err(Error::IndexNotOccupied));
    assert_eq!(s.get(0), Some(&1));
    assert_eq!(s.get(1), Some(&2));
}

#[test]
fn failed_remove_leaves_store_unchanged() {
    let mut s = HoleyVec::new();
    s.push(4);
    s.push(5);
    s.remove(0).unwrap();
    let upper = s.index_upper_bound();
    let next = s.next_index();
    assert_eq!(s.remove(0), Err(Error::IndexNotOccupied));
    assert_eq!(s.index_upper_bound(), upper);
    assert_eq!(s.next_index(), next);
    assert_eq!(s.get(1), Some(&5));
}

#[test]
fn is_hole_edges() {
    let mut s = HoleyVec::new();
    assert!(!s.is_hole(0));
    s.push(42);
    assert!(!s.is_hole(0));
    assert!(!s.is_hole(1));
    s.remove(0).unwrap();
    assert!(s.is_hole(0));
}

#[test]
fn get_mut_replaces_value_in_place() {
    let mut s = HoleyVec::new();
    s.push(42);
    if let Some(v) = s.get_mut(0) {
        *v = 24;
    }
    assert_eq!(s.get(0), Some(&24));
    assert_eq!(s.index_upper_bound(), 1);
    assert_eq!(s.next_index(), 1);
}

#[test]
fn get_mut_absent_gives_none() {
    let mut s = HoleyVec::new();
    assert_eq!(s.get_mut(0), None);
    s.push(1);
    s.remove(0).unwrap();
    assert_eq!(s.get_mut(0), None);
    assert_eq!(s.get_mut(7), None);
}

#[test]
fn indexing_shorthand_reads_and_writes() {
    let mut s = HoleyVec::new();
    s.push(7);
    s.push(8);
    assert_eq!(*s.index(0), 7);
    *s.index_mut(1) = 80;
    assert_eq!(*s.index(1), 80);
    assert_eq!(s.get(1), Some(&80));
}

#[test]
fn capacity_covers_upper_bound() {
    let mut s = HoleyVec::new();
    assert!(s.capacity() >= s.index_upper_bound());
    s.push(42);
    assert!(s.capacity() >= 1);
    s.remove(0).unwrap();
    assert!(s.capacity() >= s.index_upper_bound());
}
