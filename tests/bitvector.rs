use randmst::bitvector::BitVector;

fn elements(b: &BitVector) -> Vec<usize> {
    let mut out = Vec::new();
    let mut it = b.iter();
    while let Some(i) = it.next() {
        out.push(i);
    }
    out
}

#[test]
fn bitvector_set_operations() {
    let mut bitvec = BitVector::new(30);
    for i in 0..10 {
        bitvec.insert(i);
    }
    assert_eq!(elements(&bitvec), vec![0, 1, 2, 3, 4, 5, 6, 7, 8, 9]);

    let mut bitvec2 = BitVector::new(30);
    for i in 5..15 {
        bitvec2.insert(i);
    }
    assert_eq!(
        elements(&bitvec.union(&bitvec2)),
        vec![0, 1, 2, 3, 4, 5, 6, 7, 8, 9, 10, 11, 12, 13, 14]
    );
    assert_eq!(elements(&bitvec.intersection(&bitvec2)), vec![5, 6, 7, 8, 9]);
    assert_eq!(elements(&bitvec.difference(&bitvec2)), vec![0, 1, 2, 3, 4]);
    assert_eq!(
        elements(&bitvec.difference_d(&bitvec2)),
        vec![0, 1, 2, 3, 4, 10, 11, 12, 13, 14]
    );
}

#[test]
fn bitvector_eq_left() {
    let mut a = BitVector::new(11);
    let mut b = BitVector::new(11);
    for i in vec![0, 1, 3, 5, 7, 10] {
        a.insert(i);
    }
    for i in vec![0, 1, 3, 4, 5, 7, 10] {
        b.insert(i);
    }
    assert!(a.eq_left(&b, 1));
    assert!(a.eq_left(&b, 2));
    assert!(a.eq_left(&b, 3));
    assert!(a.eq_left(&b, 4));
    assert!(!a.eq_left(&b, 5));
    assert!(!a.eq_left(&b, 6));
    assert!(a.eq_left(&b, 0));
}

#[test]
fn bitvector_insert_remove_contains() {
    let mut b = BitVector::new(5);
    assert_eq!(b.capacity(), 64);
    assert!(b.is_empty());
    assert!(b.insert(2));
    assert!(!b.insert(2));
    assert!(b.insert(3));
    assert_eq!(elements(&b), vec![2, 3]);
    assert!(b.contains(2));
    assert!(!b.contains(4));
    assert!(!b.contains(1000));
    assert_eq!(b.len(), 2);
    assert!(b.remove(2));
    assert!(!b.remove(2));
    assert_eq!(b.len(), 1);
    assert!(b.insert(130));
    assert_eq!(b.capacity(), 192);
    assert_eq!(elements(&b), vec![3, 130]);
    b.clear();
    assert!(b.is_empty());
    assert_eq!(b.capacity(), 192);
}

#[test]
fn bitvector_ones() {
    let b = BitVector::ones(70);
    assert_eq!(b.len(), 70);
    assert_eq!(b.capacity(), 128);
    assert!(b.contains(69));
    assert!(!b.contains(70));
    let c = BitVector::ones(64);
    assert_eq!(c.len(), 64);
    assert!(!c.contains(64));
}

#[test]
fn bitvector_inplace_operations() {
    let mut a = BitVector::new(128);
    let mut b = BitVector::new(128);
    for i in [1, 64, 100] {
        a.insert(i);
    }
    for i in [1, 65, 127] {
        b.insert(i);
    }
    let mut c = a.clone();
    c.union_inplace(&b);
    assert_eq!(elements(&c), vec![1, 64, 65, 100, 127]);
    let mut c = a.clone();
    c.intersection_inplace(&b);
    assert_eq!(elements(&c), vec![1]);
    let mut c = a.clone();
    c.difference_inplace(&b);
    assert_eq!(elements(&c), vec![64, 100]);
    let mut c = a.clone();
    c.difference_d_inplace(&b);
    assert_eq!(elements(&c), vec![64, 65, 100, 127]);
    let mut c = a.clone();
    assert!(c.insert_all(&b));
    assert!(!c.insert_all(&b));
    assert_eq!(elements(&c), vec![1, 64, 65, 100, 127]);
}

#[test]
fn bitvector_filter_and_into_iter() {
    let mut a = BitVector::new(100);
    for i in 0..20 {
        a.insert(i * 3);
    }
    a.filter_in_place(|i| i % 2 == 0);
    assert_eq!(elements(&a), vec![0, 6, 12, 18, 24, 30, 36, 42, 48, 54]);
    let mut it = a.into_iter();
    let mut out = Vec::new();
    while let Some(i) = it.next() {
        out.push(i);
    }
    assert_eq!(out, vec![0, 6, 12, 18, 24, 30, 36, 42, 48, 54]);
}
