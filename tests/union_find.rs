use randmst::union_find::{Point, SizedUnionFind};

#[test]
fn union_find_root() {
    let mut set = SizedUnionFind::new(10);
    assert_eq!(set.root(Point(2)), Point(2));
    assert_eq!(set.root(Point(3)), Point(3));
    assert!(!set.same_set(Point(3), Point(2)));
    set.unite(Point(2), Point(3));
    assert_eq!(set.root(Point(2)), Point(3));
    assert_eq!(set.root(Point(3)), Point(3));
}

#[test]
fn unite() {
    let mut set = SizedUnionFind::new(10);
    set.unite(Point(2), Point(3));
    set.unite(Point(3), Point(4));
    assert_eq!(set.root(Point(2)), Point(4));
    assert_eq!(set.root(Point(3)), Point(4));
    assert_eq!(set.root(Point(4)), Point(4));
}

#[test]
fn union_find_simple() {
    let mut set = SizedUnionFind::new(10);

    assert_eq!(set.same_set(Point(1), Point(2)), false);
    set.unite(Point(1), Point(2));
    assert_eq!(set.same_set(Point(1), Point(2)), true);

    set.unite(Point(1), Point(7));
    set.unite(Point(2), Point(3));
    set.unite(Point(4), Point(5));
    assert_eq!(set.same_set(Point(4), Point(1)), false);

    set.unite(Point(4), Point(2));
    assert_eq!(set.same_set(Point(4), Point(1)), true);

    assert_eq!(set.linked_edges(), 15);
    assert_eq!(set.free_edges(), 30);
}

#[test]
fn new_set_is_all_singletons() {
    let mut set = SizedUnionFind::new(7);
    assert_eq!(set.total_size(), 7);
    assert_eq!(set.total_edges(), 21);
    assert_eq!(set.linked_edges(), 0);
    assert_eq!(set.free_edges(), 21);
    for i in 0..7 {
        assert_eq!(set.root_size(Point(i)), (Point(i), 1));
    }
}

#[test]
fn unite_twice_is_no_op() {
    let mut set = SizedUnionFind::new(5);
    assert!(set.unite(Point(0), Point(4)));
    assert!(!set.unite(Point(4), Point(0)));
    assert!(!set.unite(Point(0), Point(0)));
    assert_eq!(set.linked_edges(), 1);
    assert_eq!(set.size(Point(0)), 2);
}

#[test]
fn larger_root_survives_and_sizes_add() {
    let mut set = SizedUnionFind::new(8);
    set.unite(Point(0), Point(1));
    set.unite(Point(2), Point(3));
    set.unite(Point(2), Point(6));
    assert!(set.unite(Point(1), Point(3)));
    assert_eq!(set.root(Point(0)), Point(6));
    assert_eq!(set.size(Point(1)), 5);
    // 1 + 1 + 2 + 2 * 3
    assert_eq!(set.linked_edges(), 10);
    assert_eq!(set.free_edges() + set.linked_edges(), set.total_edges());
}

#[test]
fn four_points_three_unions() {
    let mut set = SizedUnionFind::new(4);
    let mut linked = Vec::new();
    for (u, v) in [(0, 1), (2, 3), (1, 2)] {
        assert!(set.unite(Point(u), Point(v)));
        linked.push(set.linked_edges());
    }
    assert_eq!(linked, vec![1, 2, 6]);
    assert_eq!(set.free_edges(), 0);
    for u in 0..4 {
        for v in 0..4 {
            assert!(set.same_set(Point(u), Point(v)));
        }
    }
}

#[test]
fn iter_walks_all_points() {
    let set = SizedUnionFind::new(3);
    let mut it = set.iter();
    assert_eq!(it.next(), Some(Point(0)));
    assert_eq!(it.next(), Some(Point(1)));
    assert_eq!(it.next(), Some(Point(2)));
    assert_eq!(it.next(), None);
    assert_eq!(Point(5).as_u32(), 5);
}
