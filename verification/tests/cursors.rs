use holeyvec::HoleyVec;

#[test]
fn iter_after_remove_skips_hole() {
    let mut s = HoleyVec::new();
    assert_eq!(s.push(1), 0);
    assert_eq!(s.push(2), 1);
    assert_eq!(s.push(3), 2);
    assert_eq!(s.remove(1), Ok(2));
    let mut it = s.iter();
    assert_eq!(it.next(), Some(&1));
    assert_eq!(it.next(), Some(&3));
    assert_eq!(it.next(), None);
    assert_eq!(s.next_index(), 1);
}

#[test]
fn reused_hole_appears_in_iteration() {
    let mut s = HoleyVec::new();
    s.push(1);
    s.push(2);
    s.push(3);
    s.remove(1).unwrap();
    assert_eq!(s.push(4), 1);
    assert_eq!(s.get(1), Some(&4));
    assert_eq!(s.get(2), Some(&3));
    let mut it = s.iter();
    assert_eq!(it.next(), Some(&1));
    assert_eq!(it.next(), Some(&4));
    assert_eq!(it.next(), Some(&3));
    assert_eq!(it.next(), None);
}

#[test]
fn iteration_ascends_over_many_holes() {
    let mut s = HoleyVec::new();
    for v in 0..8 {
        s.push(v);
    }
    for i in [1, 3, 4, 6] {
        s.remove(i).unwrap();
    }
    let mut it = s.iter();
    assert_eq!(it.next(), Some(&0));
    assert_eq!(it.next(), Some(&2));
    assert_eq!(it.next(), Some(&5));
    assert_eq!(it.next(), Some(&7));
    assert_eq!(it.next(), None);
    assert_eq!(it.next(), None);
}

#[test]
fn fresh_cursors_restart() {
    let mut s = HoleyVec::new();
    s.push(10);
    s.push(20);
    let mut first = s.iter();
    assert_eq!(first.next(), Some(&10));
    let mut second = s.iter();
    assert_eq!(second.next(), Some(&10));
    assert_eq!(first.next(), Some(&20));
    assert_eq!(second.next(), Some(&20));
}

#[test]
fn iter_mut_rewrites_occupied_values_in_order() {
    let mut s = HoleyVec::new();
    s.push(1);
    s.push(2);
    s.push(3);
    s.remove(1).unwrap();
    let mut it = s.iter_mut();
    let mut seen = Vec::new();
    while let Some(v) = it.next(&mut s) {
        seen.push(*v);
        *v *= 10;
    }
    assert_eq!(seen, vec![1, 3]);
    assert_eq!(s.get(0), Some(&10));
    assert_eq!(s.get(2), Some(&30));
    assert!(s.is_hole(1));
    assert_eq!(s.index_upper_bound(), 3);
    assert_eq!(s.next_index(), 1);
}

#[test]
fn iter_mut_on_empty_store() {
    let mut s: HoleyVec<u8> = HoleyVec::new();
    let mut it = s.iter_mut();
    assert_eq!(it.next(&mut s), None);
}
