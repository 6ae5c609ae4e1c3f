use randmst::fat_component::FatComponentUnionFind;
use randmst::random::ThreadSource;
use randmst::union_find::Point;

#[test]
fn fat_component_simple() {
    let fc = FatComponentUnionFind::new(100);
    assert!(fc.is_root(Point(10)));
    assert_eq!(fc.parent(Point(10)), Point(10));
    assert_eq!(fc.root_size(Point(10)), 1);
    assert_eq!(fc.point_size(Point(10)), Some(1));
}

#[test]
fn fat_union_find_counts_pairs() {
    let mut set = FatComponentUnionFind::new(10);
    assert!(!set.same_set(Point(1), Point(2)));
    assert!(set.unite(Point(1), Point(2)));
    assert!(set.same_set(Point(1), Point(2)));
    assert!(set.unite(Point(1), Point(7)));
    assert!(set.unite(Point(2), Point(3)));
    assert!(set.unite(Point(4), Point(5)));
    assert!(!set.same_set(Point(4), Point(1)));
    assert!(set.unite(Point(4), Point(2)));
    assert!(!set.unite(Point(5), Point(7)));
    assert!(set.same_set(Point(4), Point(1)));
    assert_eq!(set.total_internal_edges(), 15);
    assert_eq!(set.active_edges(), 30);
    assert_eq!(set.root_size(Point(3)), 6);
    assert_eq!(set.point_size(Point(1)), None);
    assert_eq!(set.root(Point(1)), Point(7));
}

#[test]
fn fat_union_find_tracks_big_component() {
    let mut set = FatComponentUnionFind::new(10);
    for v in 1..5 {
        set.unite(Point(0), Point(v));
    }
    assert!(set.fat_component().is_none());
    set.unite(Point(0), Point(5));
    let root = set.root(Point(0));
    {
        let fc = set.fat_component().unwrap();
        assert_eq!(fc.root(), root);
        assert_eq!(fc.size(), 6);
        assert_eq!(fc.remainders(), 10);
    }
    set.unite(Point(6), Point(0));
    let fc = set.fat_component().unwrap();
    assert_eq!(fc.root(), set.root(Point(6)));
    assert_eq!(fc.size(), 7);
    assert_eq!(fc.remainders(), 3);
    set.unite(Point(8), Point(9));
    let fc = set.fat_component().unwrap();
    assert_eq!(fc.size(), 7);
    assert_eq!(fc.remainders(), 3);
}

#[test]
fn fat_union_find_samples_free_pairs() {
    let mut rng = ThreadSource::new();
    let mut set = FatComponentUnionFind::new(12);
    for _ in 0..50 {
        let (u, v) = set.sample_sparse(&mut rng).unwrap();
        assert!(!set.same_set(u, v));
    }
    for v in 1..8 {
        set.unite(Point(0), Point(v));
    }
    assert!(set.fat_component().is_some());
    let mut steps = 0;
    while set.active_edges() > 0 {
        let before = set.active_edges();
        let (u, v) = set.sample(&mut rng).unwrap();
        assert!(set.same_set(u, v));
        assert!(set.active_edges() < before);
        steps += 1;
    }
    assert_eq!(steps, 4);
    assert_eq!(set.root_size(Point(11)), 12);
}
